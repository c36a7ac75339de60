//! The plain pattern format: one line of text for each row of the grid.
//!
//! Lines that start with `!` are comments.  Of the other lines the white
//! space at the end is dropped.  There is one row for each of them, and as
//! many columns as the longest of them has bytes in UTF-8.  The character
//! `O` stands for a live cell; every other character, and what a short line
//! lacks, for a dead one.  A text without any such line holds no pattern.

use vstd::prelude::*;
use crate::error::LoadError;
use crate::field::Field;
use crate::text::{lemma_line_end, line_end, next_line};
use crate::torus::{cell_index, lemma_cell_index};

verus! {

/// `c` has the Unicode property `White_Space`.
pub open spec fn is_whitespace(c: char) -> bool {
    let u = c as u32;
    ||| 0x09 <= u <= 0x0d
    ||| u == 0x20
    ||| u == 0x85
    ||| u == 0xa0
    ||| u == 0x1680
    ||| 0x2000 <= u <= 0x200a
    ||| u == 0x2028
    ||| u == 0x2029
    ||| u == 0x202f
    ||| u == 0x205f
    ||| u == 0x3000
}

/// The number of bytes that `c` takes in UTF-8.
pub open spec fn utf8_width(c: char) -> nat {
    let u = c as u32;
    if u < 0x80 {
        1
    } else if u < 0x800 {
        2
    } else if u < 0x10000 {
        3
    } else {
        4
    }
}

/// The number of bytes that `line` takes in UTF-8.
pub open spec fn byte_length(line: Seq<char>) -> nat
    decreases line.len(),
{
    if line.len() == 0 {
        0
    } else {
        byte_length(line.drop_last()) + utf8_width(line.last())
    }
}

/// Where the part of `s` from `start` up to `end` ends once the white space
/// at its end is dropped.
pub open spec fn trimmed_end(s: Seq<char>, start: int, end: int) -> int
    decreases end - start,
{
    if start < end <= s.len() && is_whitespace(s[end - 1]) {
        trimmed_end(s, start, end - 1)
    } else {
        end
    }
}

/// `trimmed_end` stays between the start and the end of the line.
pub proof fn lemma_trimmed_end(s: Seq<char>, start: int, end: int)
    requires
        0 <= start <= end <= s.len(),
    ensures
        start <= trimmed_end(s, start, end) <= end,
    decreases end - start,
{
    if start < end && is_whitespace(s[end - 1]) {
        lemma_trimmed_end(s, start, end - 1);
    }
}

/// The pattern lines of the text from position `i` on: its lines without
/// the comments, each without the white space at its end.  A line ends at a
/// line break or at the end of the text; no line follows the last line
/// break.
pub open spec fn plain_lines(s: Seq<char>, i: int) -> Seq<Seq<char>>
    decreases s.len() - i,
{
    if i < 0 || i >= s.len() {
        Seq::empty()
    } else if s[i] == '!' {
        proof {
            lemma_line_end(s, i);
        }
        plain_lines(s, next_line(s, i))
    } else {
        proof {
            lemma_line_end(s, i);
        }
        seq![s.subrange(i, trimmed_end(s, i, line_end(s, i)))] + plain_lines(s, next_line(s, i))
    }
}

/// The largest number of bytes that one of `lines` takes; 0 if there is
/// none.
pub open spec fn widest(lines: Seq<Seq<char>>) -> nat
    decreases lines.len(),
{
    if lines.len() == 0 {
        0
    } else {
        let before = widest(lines.drop_last());
        let last = byte_length(lines.last());
        if before >= last {
            before
        } else {
            last
        }
    }
}

/// The cell in column `x` of the row that `line` describes is alive.
pub open spec fn glyph_alive(line: Seq<char>, x: int) -> bool {
    0 <= x < line.len() && line[x] == 'O'
}

/// The cells of the grid that `lines` describe, with `columns` columns.
pub open spec fn plain_cells(lines: Seq<Seq<char>>, columns: nat) -> Seq<bool> {
    Seq::new(
        lines.len() * columns,
        |i: int| glyph_alive(lines[i / columns as int], i % columns as int),
    )
}

/// The number of rows of the pattern that `s` holds.
pub open spec fn plain_rows(s: Seq<char>) -> nat {
    plain_lines(s, 0).len()
}

/// The number of columns of the pattern that `s` holds.
pub open spec fn plain_columns(s: Seq<char>) -> nat {
    widest(plain_lines(s, 0))
}

/// The text `s` holds a pattern whose cells a machine word can count.
pub open spec fn plain_loads(s: Seq<char>) -> bool {
    0 < plain_rows(s) && plain_rows(s) * plain_columns(s) <= usize::MAX
}

/// What loading the text `s` gives: the rows, the columns and the cells of
/// the grid, unless the text holds no pattern line or the grid is too
/// large.
pub open spec fn plain_outcome(s: Seq<char>) -> Result<(nat, nat, Seq<bool>), LoadError> {
    if plain_rows(s) == 0 {
        Err(LoadError::Empty)
    } else if plain_rows(s) * plain_columns(s) > usize::MAX {
        Err(LoadError::TooLarge)
    } else {
        Ok((plain_rows(s), plain_columns(s), plain_cells(plain_lines(s, 0), plain_columns(s))))
    }
}

/// A line has no more characters than bytes.
pub proof fn lemma_byte_length(line: Seq<char>)
    ensures
        line.len() <= byte_length(line) <= 4 * line.len(),
    decreases line.len(),
{
    if line.len() > 0 {
        lemma_byte_length(line.drop_last());
    }
}

/// From position `i` on, a text has no more pattern lines than characters,
/// and no pattern line is longer than the text.
proof fn lemma_lines_bound(s: Seq<char>, i: int)
    requires
        0 <= i <= s.len(),
    ensures
        plain_lines(s, i).len() <= s.len() - i,
        forall|k: int| 0 <= k < plain_lines(s, i).len() ==> (#[trigger] plain_lines(s, i)[k]).len()
            <= s.len(),
    decreases s.len() - i,
{
    if i < s.len() {
        lemma_line_end(s, i);
        lemma_trimmed_end(s, i, line_end(s, i));
        lemma_lines_bound(s, next_line(s, i));
    }
}

/// The widest of some lines takes at most four bytes for each character of
/// the longest.
proof fn lemma_widest_bound(lines: Seq<Seq<char>>, longest: nat)
    requires
        forall|k: int| 0 <= k < lines.len() ==> (#[trigger] lines[k]).len() <= longest,
    ensures
        widest(lines) <= 4 * longest,
    decreases lines.len(),
{
    if lines.len() > 0 {
        lemma_widest_bound(lines.drop_last(), longest);
        lemma_byte_length(lines.last());
    }
}

/// A pattern in the plain format has no more rows than the text has
/// characters, and at most four columns for each character.  So a text of
/// fewer than 2^15 characters always fits.  A text that starts with
/// something else than a comment holds a pattern line.
pub proof fn lemma_plain_size(s: Seq<char>)
    ensures
        plain_rows(s) <= s.len(),
        plain_columns(s) <= 4 * s.len(),
        s.len() < 0x8000 ==> plain_rows(s) * plain_columns(s) <= usize::MAX,
        s.len() > 0 && s[0] != '!' ==> plain_rows(s) > 0,
        0 < s.len() < 0x8000 && s[0] != '!' ==> plain_loads(s),
{
    lemma_lines_bound(s, 0);
    lemma_widest_bound(plain_lines(s, 0), s.len());
    if s.len() < 0x8000 {
        assert(plain_rows(s) * plain_columns(s) <= 0x7fff * 0x1fffc) by (nonlinear_arith)
            requires
                plain_rows(s) <= 0x7fff,
                plain_columns(s) <= 0x1fffc,
        ;
    }
}

fn has_white_space(c: char) -> (b: bool)
    ensures
        b == is_whitespace(c),
{
    let u: u32 = c as u32;
    (0x09 <= u && u <= 0x0d) || u == 0x20 || u == 0x85 || u == 0xa0 || u == 0x1680 || (0x2000 <= u
        && u <= 0x200a) || u == 0x2028 || u == 0x2029 || u == 0x202f || u == 0x205f || u == 0x3000
}

fn width_of(c: char) -> (w: usize)
    ensures
        w == utf8_width(c),
{
    let u: u32 = c as u32;
    if u < 0x80 {
        1
    } else if u < 0x800 {
        2
    } else if u < 0x10000 {
        3
    } else {
        4
    }
}

fn find_line_end(text: &[char], start: usize) -> (end: usize)
    requires
        start <= text@.len(),
    ensures
        end == line_end(text@, start as int),
        start <= end <= text@.len(),
{
    let mut i: usize = start;
    while i < text.len() && text[i] != '\n'
        invariant
            start <= i <= text@.len(),
            line_end(text@, i as int) == line_end(text@, start as int),
        decreases text@.len() - i,
    {
        i += 1;
    }
    i
}

fn trim_line(text: &[char], start: usize, end: usize) -> (t: usize)
    requires
        start <= end <= text@.len(),
    ensures
        t == trimmed_end(text@, start as int, end as int),
        start <= t <= end,
{
    let mut t: usize = end;
    while t > start && has_white_space(text[t - 1])
        invariant
            start <= t <= end,
            end <= text@.len(),
            trimmed_end(text@, start as int, t as int) == trimmed_end(
                text@,
                start as int,
                end as int,
            ),
        decreases t,
    {
        t -= 1;
    }
    t
}

/// The number of bytes of the part of `text` from `start` up to `end`, unless
/// it exceeds `usize::MAX`.
fn bytes_between(text: &[char], start: usize, end: usize) -> (n: Option<usize>)
    requires
        start <= end <= text@.len(),
    ensures
        match n {
            Some(n) => n == byte_length(text@.subrange(start as int, end as int)),
            None => byte_length(text@.subrange(start as int, end as int)) > usize::MAX,
        },
{
    let mut n: usize = 0;
    let mut i: usize = start;
    assert(text@.subrange(start as int, start as int) =~= Seq::<char>::empty());
    while i < end
        invariant
            start <= i <= end,
            end <= text@.len(),
            n == byte_length(text@.subrange(start as int, i as int)),
        decreases end - i,
    {
        let w = width_of(text[i]);
        proof {
            let line = text@.subrange(start as int, i + 1);
            assert(line.drop_last() =~= text@.subrange(start as int, i as int));
            if n + w > usize::MAX {
                lemma_byte_length_grows(text@, start as int, i + 1, end as int);
            }
        }
        if n > usize::MAX - w {
            return None;
        }
        n = n + w;
        i += 1;
    }
    Some(n)
}

/// A longer part of a text takes no fewer bytes.
proof fn lemma_byte_length_grows(s: Seq<char>, start: int, mid: int, end: int)
    requires
        0 <= start <= mid <= end <= s.len(),
    ensures
        byte_length(s.subrange(start, mid)) <= byte_length(s.subrange(start, end)),
    decreases end - mid,
{
    if mid < end {
        lemma_byte_length_grows(s, start, mid, end - 1);
        assert(s.subrange(start, end).drop_last() =~= s.subrange(start, end - 1));
    }
}

/// Finds the pattern lines of `text`: for each the positions at which it
/// starts and ends.  Also gives the number of bytes of the widest, unless
/// that exceeds `usize::MAX`.
fn scan_lines(text: &[char]) -> (r: (Vec<(usize, usize)>, Option<usize>))
    ensures
        r.0@.len() == plain_lines(text@, 0).len(),
        forall|k: int|
            0 <= k < r.0@.len() ==> {
                &&& (#[trigger] r.0@[k]).0 <= r.0@[k].1 <= text@.len()
                &&& text@.subrange(r.0@[k].0 as int, r.0@[k].1 as int) == plain_lines(text@, 0)[k]
            },
        match r.1 {
            Some(w) => w == widest(plain_lines(text@, 0)),
            None => widest(plain_lines(text@, 0)) > usize::MAX,
        },
{
    let mut spans: Vec<(usize, usize)> = Vec::new();
    let mut columns: Option<usize> = Some(0);
    let ghost mut done: Seq<Seq<char>> = Seq::empty();
    let mut i: usize = 0;
    assert(done + plain_lines(text@, 0) =~= plain_lines(text@, 0));
    while i < text.len()
        invariant
            i <= text@.len(),
            plain_lines(text@, 0) == done + plain_lines(text@, i as int),
            spans@.len() == done.len(),
            forall|k: int|
                0 <= k < spans@.len() ==> {
                    &&& (#[trigger] spans@[k]).0 <= spans@[k].1 <= text@.len()
                    &&& text@.subrange(spans@[k].0 as int, spans@[k].1 as int) == done[k]
                },
            match columns {
                Some(w) => w == widest(done),
                None => widest(done) > usize::MAX,
            },
        decreases text@.len() - i,
    {
        let end = find_line_end(text, i);
        proof {
            lemma_line_end(text@, i as int);
        }
        if text[i] != '!' {
            let t = trim_line(text, i, end);
            let bytes = bytes_between(text, i, t);
            proof {
                let line = text@.subrange(i as int, t as int);
                let rest = plain_lines(text@, next_line(text@, i as int));
                assert(done + (seq![line] + rest) =~= done.push(line) + rest);
                assert(done.push(line).drop_last() =~= done);
                done = done.push(line);
            }
            columns = match (columns, bytes) {
                (Some(w), Some(b)) => Some(if w >= b { w } else { b }),
                _ => None,
            };
            spans.push((i, t));
        }
        i = if end < text.len() {
            end + 1
        } else {
            end
        };
    }
    assert(done + plain_lines(text@, i as int) =~= done);
    (spans, columns)
}

/// Loads the pattern that `text` holds in the plain format.
pub fn load(text: &[char]) -> (r: Result<Field<bool>, LoadError>)
    ensures
        match plain_outcome(text@) {
            Ok((rows, columns, cells)) => r.is_ok() && r.unwrap().wf() && r.unwrap().rows == rows
                && r.unwrap().columns == columns && r.unwrap().cells@ == cells,
            Err(e) => r == Err::<Field<bool>, LoadError>(e),
        },
{
    let (spans, widest_line) = scan_lines(text);
    let ghost lines = plain_lines(text@, 0);
    let rows: usize = spans.len();
    if rows == 0 {
        return Err(LoadError::Empty);
    }
    let columns: usize = match widest_line {
        Some(w) => w,
        None => {
            proof {
                assert(lines.len() > 0);
                assert(lines.len() * widest(lines) > usize::MAX) by (nonlinear_arith)
                    requires
                        lines.len() > 0,
                        widest(lines) > usize::MAX,
                ;
            }
            return Err(LoadError::TooLarge);
        },
    };
    if columns != 0 && rows > usize::MAX / columns {
        proof {
            assert(rows * columns > usize::MAX) by (nonlinear_arith)
                requires
                    rows > usize::MAX / columns,
                    columns > 0,
            ;
        }
        return Err(LoadError::TooLarge);
    }
    proof {
        if columns > 0 {
            assert(rows * columns <= usize::MAX) by (nonlinear_arith)
                requires
                    rows <= usize::MAX / columns,
                    columns > 0,
            ;
        } else {
            assert(rows * columns == 0) by (nonlinear_arith)
                requires
                    columns == 0,
            ;
        }
    }
    let mut cells: Vec<bool> = Vec::with_capacity(rows * columns);
    let mut y: usize = 0;
    while y < rows
        invariant
            y <= rows,
            rows == spans@.len(),
            rows == lines.len(),
            rows * columns <= usize::MAX,
            columns == widest(lines),
            cells@.len() == y * columns,
            forall|k: int|
                0 <= k < spans@.len() ==> {
                    &&& (#[trigger] spans@[k]).0 <= spans@[k].1 <= text@.len()
                    &&& text@.subrange(spans@[k].0 as int, spans@[k].1 as int) == lines[k]
                },
            forall|i: int|
                0 <= i < cells@.len() ==> #[trigger] cells@[i] == glyph_alive(
                    lines[i / columns as int],
                    i % columns as int,
                ),
        decreases rows - y,
    {
        let (start, end) = spans[y];
        let length: usize = end - start;
        let mut x: usize = 0;
        while x < columns
            invariant
                x <= columns,
                y < rows,
                rows == lines.len(),
                start <= end <= text@.len(),
                length == end - start,
                text@.subrange(start as int, end as int) == lines[y as int],
                cells@.len() == y * columns + x,
                forall|i: int|
                    0 <= i < cells@.len() ==> #[trigger] cells@[i] == glyph_alive(
                        lines[i / columns as int],
                        i % columns as int,
                    ),
            decreases columns - x,
        {
            let alive = x < length && text[start + x] == 'O';
            proof {
                lemma_cell_index(y as int, x as int, rows as int, columns as int);
                assert(y * columns + x == cell_index(y as int, x as int, columns as int));
                if x < length {
                    assert(lines[y as int][x as int] == text@[start + x]);
                }
            }
            cells.push(alive);
            x += 1;
        }
        proof {
            assert(y * columns + columns == (y + 1) * columns) by (nonlinear_arith);
        }
        y += 1;
    }
    proof {
        assert(cells@ =~= plain_cells(lines, columns as nat));
    }
    Ok(Field::new(cells, rows, columns))
}

} // verus!
