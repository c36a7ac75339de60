//! Wrap-around arithmetic on one axis of the torus, and the row-major
//! position of a cell.

use vstd::prelude::*;
use vstd::arithmetic::div_mod::*;
use vstd::arithmetic::mul::*;

verus! {

/// The coordinate reached from `pos` by the signed offset `delta` on an axis
/// of `lim` cells: the Euclidean remainder of `pos + delta`.
pub open spec fn wrap_spec(pos: int, delta: int, lim: int) -> int {
    (pos + delta) % lim
}

/// The row-major position of the cell in row `r` and column `c` of a grid
/// with `columns` columns.
pub open spec fn cell_index(r: int, c: int, columns: int) -> int {
    r * columns + c
}

/// The remainder of `delta` on an axis of `lim` cells, as an unsigned number.
fn offset_on_axis(delta: i32, lim: usize) -> (d: usize)
    requires
        lim > 0,
    ensures
        d == (delta as int) % (lim as int),
        d < lim,
{
    if delta >= 0 {
        (delta as usize) % lim
    } else {
        // delta == -(below + 1), and below fits because delta >= i32::MIN
        let below: usize = (-(delta + 1)) as usize;
        let t: usize = below % lim;
        proof {
            let l = lim as int;
            let q = (below as int) / l;
            lemma_fundamental_div_mod(below as int, l);
            assert(below == l * q + t);
            assert(l * (-q - 1) == -(l * q) - l) by (nonlinear_arith);
            assert(delta as int == l * (-q - 1) + (l - 1 - t));
            lemma_fundamental_div_mod_converse(delta as int, l, -q - 1, l - 1 - t);
        }
        lim - 1 - t
    }
}

/// Moves `pos` by `delta` cells along an axis of `lim` cells and wraps the
/// result around the torus.  The offset may be negative and of any size;
/// nothing overflows.
pub fn wrap(pos: usize, delta: i32, lim: usize) -> (r: usize)
    requires
        lim > 0,
    ensures
        r == wrap_spec(pos as int, delta as int, lim as int),
        r < lim,
{
    let p: usize = pos % lim;
    let d: usize = offset_on_axis(delta, lim);
    proof {
        lemma_add_mod_noop(pos as int, delta as int, lim as int);
        if p + d >= lim {
            lemma_mod_sub_multiples_vanish((p + d) as int, lim as int);
            lemma_small_mod((p + d - lim) as nat, lim as nat);
        } else {
            lemma_small_mod((p + d) as nat, lim as nat);
        }
    }
    if p >= lim - d {
        p - (lim - d)
    } else {
        p + d
    }
}

/// A wrapped coordinate lies on the axis.
pub proof fn lemma_wrap_in_range(pos: int, delta: int, lim: int)
    requires
        lim > 0,
    ensures
        0 <= wrap_spec(pos, delta, lim) < lim,
{
    lemma_mod_bound(pos + delta, lim);
}

/// Wrapping by an offset and then by its negation leads back to where a
/// coordinate on the axis started.
pub proof fn lemma_wrap_inverse(pos: int, delta: int, lim: int)
    requires
        lim > 0,
        0 <= pos < lim,
    ensures
        wrap_spec(wrap_spec(pos, delta, lim), -delta, lim) == pos,
{
    lemma_add_mod_noop_right(-delta, pos + delta, lim);
    lemma_small_mod(pos as nat, lim as nat);
}

/// On a grid of `rows` by `columns` cells, a cell inside the grid has a
/// row-major position inside the cell sequence, and the position gives the
/// row and the column back.
pub proof fn lemma_cell_index(r: int, c: int, rows: int, columns: int)
    requires
        0 <= r < rows,
        0 <= c < columns,
    ensures
        0 <= r * columns <= cell_index(r, c, columns) < rows * columns,
        cell_index(r, c, columns) / columns == r,
        cell_index(r, c, columns) % columns == c,
{
    assert(r * columns + c < rows * columns) by (nonlinear_arith)
        requires
            0 <= r < rows,
            0 <= c < columns,
    {
        assert((r + 1) * columns <= rows * columns);
        assert((r + 1) * columns == r * columns + columns);
    }
    assert(0 <= r * columns) by (nonlinear_arith)
        requires
            0 <= r,
            0 < columns,
    ;
    assert(columns * r == r * columns) by (nonlinear_arith);
    lemma_fundamental_div_mod_converse(r * columns + c, columns, r, c);
}

/// Every position of the cell sequence is the row-major position of the cell
/// in row `i / columns` and column `i % columns`.
pub proof fn lemma_index_cell(i: int, rows: int, columns: int)
    requires
        0 <= i < rows * columns,
        0 <= rows,
        0 <= columns,
    ensures
        0 < columns,
        0 <= i / columns < rows,
        0 <= i % columns < columns,
        cell_index(i / columns, i % columns, columns) == i,
{
    assert(columns > 0) by (nonlinear_arith)
        requires
            0 <= i < rows * columns,
            0 <= rows,
            0 <= columns,
    ;
    lemma_fundamental_div_mod(i, columns);
    lemma_mod_bound(i, columns);
    let q = i / columns;
    assert(columns * q == q * columns) by (nonlinear_arith);
    assert(0 <= q < rows) by (nonlinear_arith)
        requires
            i == q * columns + i % columns,
            0 <= i % columns < columns,
            0 <= i < rows * columns,
            columns > 0,
    ;
}

/// Wrapping by one more cell is one step from the wrapped coordinate.
pub proof fn lemma_wrap_step(pos: int, delta: int, lim: int)
    requires
        lim > 0,
    ensures
        wrap_spec(wrap_spec(pos, delta, lim), 1, lim) == wrap_spec(pos, delta + 1, lim),
{
    lemma_add_mod_noop_right(1, pos + delta, lim);
}

/// A coordinate on the axis is where wrapping by no cells leads.
pub proof fn lemma_wrap_none(pos: int, lim: int)
    requires
        0 <= pos < lim,
    ensures
        wrap_spec(pos, 0, lim) == pos,
{
    lemma_small_mod(pos as nat, lim as nat);
}

/// Seen from the other end of the axis, a step by `delta` is a step by
/// `-delta`.
pub proof fn lemma_wrap_mirror(pos: int, delta: int, lim: int)
    requires
        lim > 0,
    ensures
        wrap_spec(lim - 1 - pos, delta, lim) == lim - 1 - wrap_spec(pos, -delta, lim),
{
    let q = (pos - delta) / lim;
    let r = (pos - delta) % lim;
    lemma_fundamental_div_mod(pos - delta, lim);
    lemma_mod_bound(pos - delta, lim);
    assert(lim * (-q) == -(lim * q)) by (nonlinear_arith);
    lemma_fundamental_div_mod_converse(lim - 1 - pos + delta, lim, -q, lim - 1 - r);
}

} // verus!
