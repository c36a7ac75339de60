//! The rectangular grid of cells, stored row by row.

use vstd::prelude::*;
use vstd::slice::slice_subrange;
use vstd::std_specs::cmp::PartialEqSpec;
use crate::error::LoadError;
use crate::plain::{
    plain_cells, plain_columns, plain_lines, plain_loads, plain_outcome, plain_rows,
};
use crate::rle::rle_outcome;
use crate::rule::AutomataRule;
use crate::text::chars_of;
use crate::torus::{
    cell_index, lemma_cell_index, lemma_index_cell, lemma_wrap_mirror, lemma_wrap_none,
    lemma_wrap_step, wrap, wrap_spec,
};

verus! {

/// Row `r` of the cells of a grid with `columns` columns.
pub open spec fn grid_row<T>(cells: Seq<T>, columns: nat, r: int) -> Seq<T> {
    cells.subrange(r * columns, r * columns + columns)
}

/// The cells of a grid of `rows` by `columns` cells as a sequence of rows.
pub open spec fn grid_table<T>(cells: Seq<T>, rows: nat, columns: nat) -> Seq<Seq<T>> {
    Seq::new(rows, |r: int| grid_row(cells, columns, r))
}

/// The pattern lies on the torus of `rows` by `columns` cells with its
/// upper left cell at row `r` and column `c`: every cell of the pattern
/// equals the cell of the grid that many rows below and columns right of
/// the anchor, wrapped on both axes.
pub open spec fn lies_at<T: PartialEq>(
    cells: Seq<T>,
    rows: int,
    columns: int,
    pattern: &Field<T>,
    r: int,
    c: int,
) -> bool {
    forall|rr: int, cc: int|
        0 <= rr < pattern.rows && 0 <= cc < pattern.columns ==> cells[cell_index(
            wrap_spec(r, rr, rows),
            wrap_spec(c, cc, columns),
            columns,
        )].eq_spec(&#[trigger] pattern.at(rr, cc))
}

/// A grid of `rows` by `columns` cells in row-major order.
#[derive(Clone, Debug, PartialEq, Eq)]
pub struct Field<T> {
    pub cells: Vec<T>,
    pub rows: usize,
    pub columns: usize,
}

impl<T> Field<T> {
    /// The grid holds exactly `rows * columns` cells.
    pub open spec fn wf(&self) -> bool {
        self.cells@.len() == self.rows * self.columns
    }

    /// The cell in row `r` and column `c`.
    pub open spec fn at(&self, r: int, c: int) -> T {
        self.cells@[cell_index(r, c, self.columns as int)]
    }

    /// Row `r` as a sequence of `columns` cells.
    pub open spec fn row(&self, r: int) -> Seq<T> {
        grid_row(self.cells@, self.columns as nat, r)
    }

    /// The grid as a sequence of rows.
    pub open spec fn table(&self) -> Seq<Seq<T>> {
        grid_table(self.cells@, self.rows as nat, self.columns as nat)
    }

    /// The anchor that stands at the row-major position `i`: its row and
    /// its column.
    pub open spec fn anchor(&self, i: int) -> (usize, usize) {
        ((i / self.columns as int) as usize, (i % self.columns as int) as usize)
    }

    /// The anchors of the grid, one for each cell, in row-major order.
    pub open spec fn anchors(&self) -> Seq<(usize, usize)> {
        Seq::new(self.cells@.len(), |i: int| self.anchor(i))
    }

    /// The number of cells of a well-formed grid fits the machine word.
    pub proof fn lemma_size_fits(&self)
        requires
            self.wf(),
        ensures
            self.rows * self.columns <= usize::MAX,
    {
        assert(self.cells.len() == self.cells@.len());
    }

    /// The rows of a well-formed grid have `columns` cells each, and hold
    /// the cells of the grid.
    pub proof fn lemma_table(&self)
        requires
            self.wf(),
        ensures
            self.table().len() == self.rows,
            forall|r: int| 0 <= r < self.rows ==> (#[trigger] self.table()[r]).len() == self.columns,
            forall|r: int, c: int|
                0 <= r < self.rows && 0 <= c < self.columns ==> self.table()[r][c] == #[trigger] self.at(
                    r,
                    c,
                ),
    {
        assert forall|r: int| 0 <= r < self.rows implies (#[trigger] self.table()[r]).len()
            == self.columns && forall|c: int|
            0 <= c < self.columns ==> self.table()[r][c] == #[trigger] self.at(r, c) by {
            assert(0 <= r * self.columns && r * self.columns + self.columns <= self.rows
                * self.columns) by (nonlinear_arith)
                requires
                    0 <= r < self.rows,
            ;
        }
    }

    /// Builds a grid from its cells in row-major order.
    pub fn new(cells: Vec<T>, rows: usize, columns: usize) -> (field: Field<T>)
        requires
            cells@.len() == rows * columns,
        ensures
            field.wf(),
            field.cells == cells,
            field.rows == rows,
            field.columns == columns,
    {
        Field { cells, rows, columns }
    }

    /// A grid of the given size in which every cell has the default value of
    /// the cell type.
    pub fn with_size(rows: usize, columns: usize) -> (field: Field<T>) where T: Default + Copy
        requires
            rows * columns <= usize::MAX,
        ensures
            field.wf(),
            field.rows == rows,
            field.columns == columns,
            forall|i: int|
                0 <= i < field.cells@.len() ==> call_ensures(
                    T::default,
                    (),
                    #[trigger] field.cells@[i],
                ),
    {
        let blank = T::default();
        let size: usize = rows * columns;
        let mut cells: Vec<T> = Vec::with_capacity(size);
        let mut i: usize = 0;
        while i < size
            invariant
                i <= size,
                cells@.len() == i,
                forall|j: int| 0 <= j < i ==> cells@[j] == blank,
            decreases size - i,
        {
            cells.push(blank);
            i += 1;
        }
        Field::new(cells, rows, columns)
    }

    /// The cell in row `r` and column `c`.
    pub(crate) fn cell(&self, r: usize, c: usize) -> (cell: &T)
        requires
            self.wf(),
            r < self.rows,
            c < self.columns,
        ensures
            *cell == self.at(r as int, c as int),
    {
        proof {
            self.lemma_size_fits();
            lemma_cell_index(r as int, c as int, self.rows as int, self.columns as int);
        }
        &self.cells[r * self.columns + c]
    }
}

impl<T> Field<T> {
    /// Copies `pattern` into the upper left corner of the grid.  Where the
    /// pattern is larger than the grid, what lies outside is left out.
    pub fn insert(&mut self, pattern: Field<T>) where T: Copy
        requires
            old(self).wf(),
            pattern.wf(),
        ensures
            final(self).wf(),
            final(self).rows == old(self).rows,
            final(self).columns == old(self).columns,
            forall|r: int, c: int|
                0 <= r < old(self).rows && 0 <= c < old(self).columns ==> #[trigger] final(self).at(
                    r,
                    c,
                ) == if r < pattern.rows && c < pattern.columns {
                    pattern.at(r, c)
                } else {
                    old(self).at(r, c)
                },
    {
        let rows: usize = if pattern.rows < self.rows {
            pattern.rows
        } else {
            self.rows
        };
        let columns: usize = if pattern.columns < self.columns {
            pattern.columns
        } else {
            self.columns
        };
        proof {
            self.lemma_size_fits();
        }
        let mut r: usize = 0;
        while r < rows
            invariant
                r <= rows,
                rows <= pattern.rows,
                rows <= self.rows,
                columns <= pattern.columns,
                columns <= self.columns,
                pattern.wf(),
                self.wf(),
                self.rows == old(self).rows,
                self.columns == old(self).columns,
                self.rows * self.columns <= usize::MAX,
                forall|y: int, x: int|
                    0 <= y < self.rows && 0 <= x < self.columns ==> #[trigger] self.at(y, x) == if y
                        < r && x < columns {
                        pattern.at(y, x)
                    } else {
                        old(self).at(y, x)
                    },
            decreases rows - r,
        {
            let mut c: usize = 0;
            while c < columns
                invariant
                    c <= columns,
                    r < rows,
                    rows <= pattern.rows,
                    rows <= self.rows,
                    columns <= pattern.columns,
                    columns <= self.columns,
                    pattern.wf(),
                    self.wf(),
                    self.rows == old(self).rows,
                    self.columns == old(self).columns,
                    self.rows * self.columns <= usize::MAX,
                    forall|y: int, x: int|
                        0 <= y < self.rows && 0 <= x < self.columns ==> #[trigger] self.at(y, x)
                            == if (y < r && x < columns) || (y == r && x < c) {
                            pattern.at(y, x)
                        } else {
                            old(self).at(y, x)
                        },
                decreases columns - c,
            {
                let value: T = *pattern.cell(r, c);
                let ghost before = *self;
                proof {
                    lemma_cell_index(r as int, c as int, self.rows as int, self.columns as int);
                }
                self.cells[r * self.columns + c] = value;
                proof {
                    assert forall|y: int, x: int|
                        0 <= y < self.rows && 0 <= x < self.columns implies #[trigger] self.at(y, x)
                        == if (y < r && x < columns) || (y == r && x < c + 1) {
                        pattern.at(y, x)
                    } else {
                        old(self).at(y, x)
                    } by {
                        lemma_cell_index(y, x, self.rows as int, self.columns as int);
                        if y == r && x == c {
                        } else {
                            assert(cell_index(y, x, self.columns as int) != cell_index(
                                r as int,
                                c as int,
                                self.columns as int,
                            ));
                            assert(self.at(y, x) == before.at(y, x));
                        }
                    }
                }
                c += 1;
            }
            r += 1;
        }
    }

    /// The grid as one slice for each row.
    pub fn proj2d(&self) -> (rows: Vec<&[T]>)
        requires
            self.wf(),
            self.columns > 0,
        ensures
            rows@.len() == self.rows,
            forall|r: int| 0 <= r < self.rows ==> (#[trigger] rows@[r])@ == self.row(r),
    {
        let mut rows: Vec<&[T]> = Vec::with_capacity(self.rows);
        let mut r: usize = 0;
        proof {
            self.lemma_size_fits();
        }
        while r < self.rows
            invariant
                r <= self.rows,
                self.wf(),
                self.rows * self.columns <= usize::MAX,
                rows@.len() == r,
                forall|y: int| 0 <= y < r ==> (#[trigger] rows@[y])@ == self.row(y),
            decreases self.rows - r,
        {
            proof {
                assert(r * self.columns + self.columns <= self.rows * self.columns)
                    by (nonlinear_arith)
                    requires
                        r < self.rows,
                ;
                assert(0 <= r * self.columns) by (nonlinear_arith);
            }
            let start: usize = r * self.columns;
            rows.push(slice_subrange(self.cells.as_slice(), start, start + self.columns));
            r += 1;
        }
        rows
    }
}

impl<T: PartialEq> Field<T> {
    /// The pattern lies on the torus with its upper left cell at row `r`
    /// and column `c`.
    pub open spec fn matches_at(&self, pattern: &Field<T>, r: int, c: int) -> bool {
        lies_at(self.cells@, self.rows as int, self.columns as int, pattern, r, c)
    }

    /// The test that picks the anchors at which the pattern lies.
    pub open spec fn match_test(&self, pattern: &Field<T>) -> spec_fn((usize, usize)) -> bool {
        |a: (usize, usize)| self.matches_at(pattern, a.0 as int, a.1 as int)
    }

    /// The anchors at which the pattern lies, row by row and from left to
    /// right in each row.
    pub open spec fn matching_anchors(&self, pattern: &Field<T>) -> Seq<(usize, usize)> {
        self.anchors().filter(self.match_test(pattern))
    }

    /// Whether the pattern lies on the torus with its upper left cell at
    /// row `r` and column `c`.
    pub fn matches(&self, pattern: &Field<T>, r: usize, c: usize) -> (found: bool)
        requires
            self.wf(),
            pattern.wf(),
            r < self.rows,
            c < self.columns,
        ensures
            T::obeys_eq_spec() ==> found == self.matches_at(pattern, r as int, c as int),
    {
        let mut rr: usize = 0;
        let mut rrr: usize = r;
        proof {
            lemma_wrap_none(r as int, self.rows as int);
        }
        while rr < pattern.rows
            invariant
                rr <= pattern.rows,
                self.wf(),
                pattern.wf(),
                r < self.rows,
                c < self.columns,
                rrr < self.rows,
                rrr == wrap_spec(r as int, rr as int, self.rows as int),
                T::obeys_eq_spec() ==> forall|pr: int, pc: int|
                    0 <= pr < rr && 0 <= pc < pattern.columns ==> self.at(
                        wrap_spec(r as int, pr, self.rows as int),
                        wrap_spec(c as int, pc, self.columns as int),
                    ).eq_spec(&#[trigger] pattern.at(pr, pc)),
            decreases pattern.rows - rr,
        {
            let mut cc: usize = 0;
            let mut ccc: usize = c;
            proof {
                lemma_wrap_none(c as int, self.columns as int);
            }
            while cc < pattern.columns
                invariant
                    cc <= pattern.columns,
                    rr < pattern.rows,
                    self.wf(),
                    pattern.wf(),
                    r < self.rows,
                    c < self.columns,
                    rrr < self.rows,
                    rrr == wrap_spec(r as int, rr as int, self.rows as int),
                    ccc < self.columns,
                    ccc == wrap_spec(c as int, cc as int, self.columns as int),
                    T::obeys_eq_spec() ==> forall|pr: int, pc: int|
                        (0 <= pr < rr && 0 <= pc < pattern.columns) || (pr == rr && 0 <= pc < cc)
                            ==> self.at(
                            wrap_spec(r as int, pr, self.rows as int),
                            wrap_spec(c as int, pc, self.columns as int),
                        ).eq_spec(&#[trigger] pattern.at(pr, pc)),
                decreases pattern.columns - cc,
            {
                if self.cell(rrr, ccc) != pattern.cell(rr, cc) {
                    proof {
                        if T::obeys_eq_spec() {
                            assert(!self.at(
                                wrap_spec(r as int, rr as int, self.rows as int),
                                wrap_spec(c as int, cc as int, self.columns as int),
                            ).eq_spec(&pattern.at(rr as int, cc as int)));
                        }
                    }
                    return false;
                }
                proof {
                    lemma_wrap_step(c as int, cc as int, self.columns as int);
                }
                ccc = wrap(ccc, 1, self.columns);
                cc += 1;
            }
            proof {
                lemma_wrap_step(r as int, rr as int, self.rows as int);
            }
            rrr = wrap(rrr, 1, self.rows);
            rr += 1;
        }
        true
    }

    /// Every anchor at which `pattern` lies on the torus, row by row and
    /// from left to right in each row.
    pub fn find_pattern(&self, pattern: &Field<T>) -> (matches: Vec<(usize, usize)>) where T: Eq
        requires
            self.wf(),
            pattern.wf(),
        ensures
            T::obeys_eq_spec() ==> matches@ == self.matching_anchors(pattern),
    {
        let mut matches: Vec<(usize, usize)> = Vec::new();
        let ghost test = self.match_test(pattern);
        let mut r: usize = 0;
        proof {
            self.lemma_size_fits();
            assert(self.anchors().take(0) =~= Seq::<(usize, usize)>::empty());
            reveal(Seq::filter);
        }
        while r < self.rows
            invariant
                r <= self.rows,
                self.wf(),
                pattern.wf(),
                test == self.match_test(pattern),
                T::obeys_eq_spec() ==> matches@ == self.anchors().take(r * self.columns).filter(
                    test,
                ),
            decreases self.rows - r,
        {
            let mut c: usize = 0;
            while c < self.columns
                invariant
                    c <= self.columns,
                    r < self.rows,
                    self.wf(),
                    pattern.wf(),
                    test == self.match_test(pattern),
                    T::obeys_eq_spec() ==> matches@ == self.anchors().take(
                        r * self.columns + c,
                    ).filter(test),
                decreases self.columns - c,
            {
                let found = self.matches(pattern, r, c);
                proof {
                    let n = r * self.columns + c;
                    lemma_cell_index(r as int, c as int, self.rows as int, self.columns as int);
                    assert(self.anchors()[n] == (r, c));
                    assert(self.anchors().take(n + 1) =~= self.anchors().take(n).push((r, c)));
                    self.anchors().take(n).lemma_filter_push((r, c), test);
                }
                if found {
                    matches.push((r, c));
                }
                c += 1;
            }
            proof {
                assert(r * self.columns + self.columns == (r + 1) * self.columns)
                    by (nonlinear_arith);
            }
            r += 1;
        }
        proof {
            assert(self.anchors().take(self.rows * self.columns) =~= self.anchors());
        }
        matches
    }
}

/// The rows that the slices hold, as a sequence of rows.
pub open spec fn table_of(rows: Seq<&[bool]>) -> Seq<Seq<bool>> {
    Seq::new(rows.len(), |r: int| rows[r]@)
}

/// `table` has `rows` rows of `columns` cells each.
pub open spec fn is_table(table: Seq<Seq<bool>>, rows: nat, columns: nat) -> bool {
    &&& table.len() == rows
    &&& forall|r: int| 0 <= r < rows ==> (#[trigger] table[r]).len() == columns
}

/// 1 if the cell in column `x` of row `y` is alive, else 0.
pub open spec fn alive_at(table: Seq<Seq<bool>>, x: int, y: int) -> nat {
    if table[y][x] {
        1
    } else {
        0
    }
}

/// The number of live cells among the eight neighbours of the cell in
/// column `x` of row `y`, on the torus.
pub open spec fn neighbour_count(table: Seq<Seq<bool>>, x: int, y: int) -> nat {
    let rows = table.len() as int;
    let columns = table[0].len() as int;
    let left = wrap_spec(x, -1, columns);
    let right = wrap_spec(x, 1, columns);
    let above = wrap_spec(y, -1, rows);
    let below = wrap_spec(y, 1, rows);
    alive_at(table, left, above) + alive_at(table, x, above) + alive_at(table, right, above)
        + alive_at(table, left, y) + alive_at(table, right, y) + alive_at(table, left, below)
        + alive_at(table, x, below) + alive_at(table, right, below)
}

/// The table turned by half a turn: its last row is the first, and each row
/// is read from right to left.
pub open spec fn half_turn(table: Seq<Seq<bool>>) -> Seq<Seq<bool>> {
    Seq::new(
        table.len(),
        |y: int|
            Seq::new(
                table[table.len() - 1 - y].len(),
                |x: int| table[table.len() - 1 - y][table[table.len() - 1 - y].len() - 1 - x],
            ),
    )
}

/// A cell of the table turned by half a turn has as many live neighbours as
/// the cell of the table that it comes from.
pub proof fn lemma_neighbours_half_turn(
    table: Seq<Seq<bool>>,
    rows: nat,
    columns: nat,
    x: int,
    y: int,
)
    requires
        is_table(table, rows, columns),
        0 <= x < columns,
        0 <= y < rows,
    ensures
        is_table(half_turn(table), rows, columns),
        neighbour_count(half_turn(table), x, y) == neighbour_count(
            table,
            columns - 1 - x,
            rows - 1 - y,
        ),
{
    let turned = half_turn(table);
    let c = columns as int;
    let r = rows as int;
    assert(turned[0].len() == c);
    assert(table[0].len() == c);
    lemma_wrap_mirror(x, 1, c);
    lemma_wrap_mirror(x, -1, c);
    lemma_wrap_mirror(y, 1, r);
    lemma_wrap_mirror(y, -1, r);
    crate::torus::lemma_wrap_in_range(x, 1, c);
    crate::torus::lemma_wrap_in_range(x, -1, c);
    crate::torus::lemma_wrap_in_range(y, 1, r);
    crate::torus::lemma_wrap_in_range(y, -1, r);
    crate::torus::lemma_wrap_in_range(c - 1 - x, 1, c);
    crate::torus::lemma_wrap_in_range(c - 1 - x, -1, c);
    crate::torus::lemma_wrap_in_range(r - 1 - y, 1, r);
    crate::torus::lemma_wrap_in_range(r - 1 - y, -1, r);
    assert forall|a: int, b: int| 0 <= a < c && 0 <= b < r implies alive_at(turned, a, b)
        == alive_at(table, c - 1 - a, r - 1 - b) by {
        assert(table[r - 1 - b].len() == c);
    }
}

/// On a table that is its own image under half a turn, the cells that the
/// turn maps to each other have equally many live neighbours.
pub proof fn lemma_neighbours_symmetric(
    table: Seq<Seq<bool>>,
    rows: nat,
    columns: nat,
    x: int,
    y: int,
)
    requires
        is_table(table, rows, columns),
        half_turn(table) == table,
        0 <= x < columns,
        0 <= y < rows,
    ensures
        neighbour_count(table, x, y) == neighbour_count(table, columns - 1 - x, rows - 1 - y),
{
    lemma_neighbours_half_turn(table, rows, columns, x, y);
}

/// 1 for a live cell, 0 for a dead one.
fn one_if(alive: bool) -> (n: usize)
    ensures
        n == if alive { 1usize } else { 0usize },
{
    if alive {
        1
    } else {
        0
    }
}

/// Counts the live cells among the eight neighbours of the cell in column
/// `x` of row `y`, on the torus.
pub fn neighbours(cells_2d: &[&[bool]], x: usize, y: usize) -> (count: usize)
    requires
        is_table(table_of(cells_2d@), cells_2d@.len(), cells_2d@[0]@.len()),
        y < cells_2d@.len(),
        x < cells_2d@[0]@.len(),
    ensures
        count == neighbour_count(table_of(cells_2d@), x as int, y as int),
        count <= 8,
{
    let r: usize = cells_2d.len();
    let c: usize = cells_2d[0].len();
    let xm1: usize = wrap(x, -1, c);
    let ym1: usize = wrap(y, -1, r);
    let xp1: usize = wrap(x, 1, c);
    let yp1: usize = wrap(y, 1, r);
    proof {
        let table = table_of(cells_2d@);
        assert(table[ym1 as int].len() == c);
        assert(table[y as int].len() == c);
        assert(table[yp1 as int].len() == c);
    }
    one_if(cells_2d[ym1][xm1]) + one_if(cells_2d[ym1][x]) + one_if(cells_2d[ym1][xp1]) + one_if(
        cells_2d[y][xm1],
    ) + one_if(cells_2d[y][xp1]) + one_if(cells_2d[yp1][xm1]) + one_if(cells_2d[yp1][x]) + one_if(
        cells_2d[yp1][xp1],
    )
}

/// `rand::Rng::gen_ratio` on the generator that `rand::thread_rng` hands
/// out: `true` with a chance of `numerator` in `denominator`.  Verus takes
/// this contract on trust.  It claims what the method documents: that the
/// outcome is sure where the chance is none or all.  Nothing else is known
/// of the outcome.  The method refuses a denominator of 0 and a numerator
/// above the denominator; the generator is seeded by the system at its first
/// use in a thread and gives up where the system has no randomness to
/// offer.
#[verifier::external_body]
fn random_ratio(numerator: u32, denominator: u32) -> (hit: bool)
    requires
        0 < denominator,
        numerator <= denominator,
    ensures
        numerator == 0 ==> !hit,
        numerator == denominator ==> hit,
{
    rand::Rng::gen_ratio(&mut rand::thread_rng(), numerator, denominator)
}

impl Field<bool> {
    /// A grid of the given size in which each cell is alive with a chance
    /// of one in twenty.
    pub fn from_random(rows: usize, columns: usize) -> (field: Field<bool>)
        requires
            rows * columns <= usize::MAX,
        ensures
            field.wf(),
            field.rows == rows,
            field.columns == columns,
    {
        let size: usize = rows * columns;
        let mut cells: Vec<bool> = Vec::with_capacity(size);
        let mut i: usize = 0;
        while i < size
            invariant
                i <= size,
                cells@.len() == i,
            decreases size - i,
        {
            cells.push(random_ratio(1, 20));
            i += 1;
        }
        Field::new(cells, rows, columns)
    }

    /// The grid is the one with these rows, columns and cells.
    pub open spec fn is_grid(&self, grid: (nat, nat, Seq<bool>)) -> bool {
        self.wf() && self.rows == grid.0 && self.columns == grid.1 && self.cells@ == grid.2
    }

    /// Loads a pattern in the plain format: a row for each line that is no
    /// comment, as many columns as the longest line has bytes, and a live
    /// cell for each `O`.  The text has to hold such a line.
    pub fn from_cells(pattern: &str) -> (field: Field<bool>)
        requires
            plain_loads(pattern@),
        ensures
            field.is_grid(
                (
                    plain_rows(pattern@),
                    plain_columns(pattern@),
                    plain_cells(plain_lines(pattern@, 0), plain_columns(pattern@)),
                ),
            ),
    {
        let chars = chars_of(pattern);
        match crate::plain::load(chars.as_slice()) {
            Ok(field) => field,
            Err(_) => vstd::pervasive::unreached(),
        }
    }

    /// Loads a pattern in the run-length encoded format.
    pub fn from_rle(pattern: &str) -> (r: Result<Field<bool>, LoadError>)
        ensures
            match rle_outcome(pattern@) {
                Ok(grid) => r.is_ok() && r.unwrap().is_grid(grid),
                Err(e) => r == Err::<Field<bool>, LoadError>(e),
            },
    {
        let chars = chars_of(pattern);
        crate::rle::load(chars.as_slice())
    }

    /// What loading `text` in the format that `extension` names gives.
    pub open spec fn text_outcome(extension: Seq<char>, text: Seq<char>) -> Result<
        (nat, nat, Seq<bool>),
        LoadError,
    > {
        if extension == seq!['c', 'e', 'l', 'l', 's'] {
            plain_outcome(text)
        } else if extension == seq!['r', 'l', 'e'] {
            rle_outcome(text)
        } else {
            Err(LoadError::UnsupportedFormat)
        }
    }

    /// Loads a pattern from the text of a file with the given extension:
    /// `cells` for the plain format, `rle` for the run-length encoded one.
    pub fn from_text(extension: &str, text: &str) -> (r: Result<Field<bool>, LoadError>)
        ensures
            match Self::text_outcome(extension@, text@) {
                Ok(grid) => r.is_ok() && r.unwrap().is_grid(grid),
                Err(e) => r == Err::<Field<bool>, LoadError>(e),
            },
    {
        let ext = chars_of(extension);
        let chars = chars_of(text);
        if ext.len() == 5 && ext[0] == 'c' && ext[1] == 'e' && ext[2] == 'l' && ext[3] == 'l'
            && ext[4] == 's' {
            assert(extension@ =~= seq!['c', 'e', 'l', 'l', 's']);
            crate::plain::load(chars.as_slice())
        } else if ext.len() == 3 && ext[0] == 'r' && ext[1] == 'l' && ext[2] == 'e' {
            assert(extension@ =~= seq!['r', 'l', 'e']);
            crate::rle::load(chars.as_slice())
        } else {
            Err(LoadError::UnsupportedFormat)
        }
    }

    /// For each cell, in row-major order, the number of its live neighbours
    /// in `cells_2d`.
    pub fn calculate_neighbours(&self, cells_2d: &[&[bool]]) -> (counts: Vec<usize>)
        requires
            self.wf(),
            is_table(table_of(cells_2d@), self.rows as nat, self.columns as nat),
        ensures
            counts@.len() == self.cells@.len(),
            forall|i: int|
                0 <= i < counts@.len() ==> #[trigger] counts@[i] == neighbour_count(
                    table_of(cells_2d@),
                    i % self.columns as int,
                    i / self.columns as int,
                ),
            forall|i: int| 0 <= i < counts@.len() ==> #[trigger] counts@[i] <= 8,
    {
        let size: usize = self.cells.len();
        let mut counts: Vec<usize> = Vec::with_capacity(size);
        let mut i: usize = 0;
        while i < size
            invariant
                i <= size,
                size == self.cells@.len(),
                self.wf(),
                is_table(table_of(cells_2d@), self.rows as nat, self.columns as nat),
                counts@.len() == i,
                forall|k: int|
                    0 <= k < i ==> #[trigger] counts@[k] == neighbour_count(
                        table_of(cells_2d@),
                        k % self.columns as int,
                        k / self.columns as int,
                    ),
                forall|k: int| 0 <= k < i ==> #[trigger] counts@[k] <= 8,
            decreases size - i,
        {
            proof {
                lemma_index_cell(i as int, self.rows as int, self.columns as int);
                assert(table_of(cells_2d@)[0].len() == self.columns);
            }
            counts.push(neighbours(cells_2d, i % self.columns, i / self.columns));
            i += 1;
        }
        counts
    }

    /// The state of the leading cells in the next generation: of as many as
    /// there are counts, if those are fewer than the cells.
    pub fn apply_rule(&self, neighbour_field: Vec<usize>, rule: &AutomataRule) -> (next: Vec<bool>)
        requires
            forall|i: int|
                0 <= i < neighbour_field@.len() && i < self.cells@.len()
                    ==> #[trigger] neighbour_field@[i] <= 8,
        ensures
            next@.len() == if self.cells@.len() <= neighbour_field@.len() {
                self.cells@.len()
            } else {
                neighbour_field@.len()
            },
            forall|i: int|
                0 <= i < next@.len() ==> #[trigger] next@[i] == rule.apply_spec(
                    self.cells@[i],
                    neighbour_field@[i] as int,
                ),
    {
        let size: usize = if self.cells.len() <= neighbour_field.len() {
            self.cells.len()
        } else {
            neighbour_field.len()
        };
        let mut next: Vec<bool> = Vec::with_capacity(size);
        let mut i: usize = 0;
        while i < size
            invariant
                i <= size,
                size <= self.cells@.len(),
                size <= neighbour_field@.len(),
                forall|k: int|
                    0 <= k < neighbour_field@.len() && k < self.cells@.len()
                        ==> #[trigger] neighbour_field@[k] <= 8,
                next@.len() == i,
                forall|k: int|
                    0 <= k < i ==> #[trigger] next@[k] == rule.apply_spec(
                        self.cells@[k],
                        neighbour_field@[k] as int,
                    ),
            decreases size - i,
        {
            next.push(rule.apply(self.cells[i], neighbour_field[i]));
            i += 1;
        }
        next
    }
}

/// Among the first `n` anchors of a grid with cells, the first at which
/// the grid lies on itself is its upper left corner; and it is the only one
/// if the grid lies on itself at no other anchor.
proof fn lemma_own_anchors(field: &Field<bool>, n: int)
    requires
        field.wf(),
        field.rows > 0,
        field.columns > 0,
        1 <= n <= field.cells@.len(),
    ensures
        field.matches_at(field, 0, 0),
        field.anchors().take(n).filter(field.match_test(field)).len() >= 1,
        field.anchors().take(n).filter(field.match_test(field))[0] == (0usize, 0usize),
        (forall|r: int, c: int|
            0 <= r < field.rows && 0 <= c < field.columns && (r != 0 || c != 0)
                ==> !#[trigger] field.matches_at(field, r, c)) ==> field.anchors().take(n).filter(
            field.match_test(field),
        ) == seq![(0usize, 0usize)],
    decreases n,
{
    let test = field.match_test(field);
    let anchors = field.anchors();
    field.lemma_size_fits();
    assert forall|rr: int, cc: int| 0 <= rr < field.rows && 0 <= cc < field.columns implies {
        &&& wrap_spec(0, rr, field.rows as int) == rr
        &&& wrap_spec(0, cc, field.columns as int) == cc
    } by {
        lemma_wrap_none(rr, field.rows as int);
        lemma_wrap_none(cc, field.columns as int);
    }
    assert(field.matches_at(field, 0, 0));
    lemma_index_cell(n - 1, field.rows as int, field.columns as int);
    let last = anchors[n - 1];
    assert(anchors.take(n) =~= anchors.take(n - 1).push(last));
    anchors.take(n - 1).lemma_filter_push(last, test);
    if n == 1 {
        assert(last == (0usize, 0usize));
        assert(anchors.take(0) =~= Seq::<(usize, usize)>::empty());
        reveal(Seq::filter);
        assert(anchors.take(0).filter(test) =~= Seq::<(usize, usize)>::empty());
        assert(anchors.take(1).filter(test) =~= seq![(0usize, 0usize)]);
    } else {
        lemma_own_anchors(field, n - 1);
        let row = (n - 1) / field.columns as int;
        let column = (n - 1) % field.columns as int;
        assert(last == (row as usize, column as usize));
        assert(cell_index(row, column, field.columns as int) == n - 1);
        if row == 0 && column == 0 {
            assert(0 * field.columns + 0 == 0) by (nonlinear_arith);
        }
        assert(row != 0 || column != 0);
    }
}

/// A grid with cells lies on itself at its upper left corner, and that is
/// the first anchor that a search for the grid in itself reports.
pub proof fn lemma_found_in_itself(field: &Field<bool>)
    requires
        field.wf(),
        field.rows > 0,
        field.columns > 0,
    ensures
        field.matches_at(field, 0, 0),
        field.matching_anchors(field).len() >= 1,
        field.matching_anchors(field)[0] == (0usize, 0usize),
{
    field.lemma_size_fits();
    assert(field.rows * field.columns >= 1) by (nonlinear_arith)
        requires
            field.rows > 0,
            field.columns > 0,
    ;
    lemma_own_anchors(field, field.cells@.len() as int);
    assert(field.anchors().take(field.cells@.len() as int) =~= field.anchors());
}

/// A search for a grid in itself reports the upper left corner and nothing
/// else, provided that the grid has cells and does not lie on itself when
/// moved around the torus to any other anchor.
pub proof fn lemma_found_in_itself_once(field: &Field<bool>)
    requires
        field.wf(),
        field.rows > 0,
        field.columns > 0,
        forall|r: int, c: int|
            0 <= r < field.rows && 0 <= c < field.columns && (r != 0 || c != 0)
                ==> !#[trigger] field.matches_at(field, r, c),
    ensures
        field.matching_anchors(field) == seq![(0usize, 0usize)],
{
    field.lemma_size_fits();
    assert(field.rows * field.columns >= 1) by (nonlinear_arith)
        requires
            field.rows > 0,
            field.columns > 0,
    ;
    lemma_own_anchors(field, field.cells@.len() as int);
    assert(field.anchors().take(field.cells@.len() as int) =~= field.anchors());
}

} // verus!
