//! The run-length encoded pattern format.
//!
//! A text in this format is a header line `x=<columns>,y=<rows>`, which may
//! go on with `,rule=` and anything up to the end of the line, and a body of
//! runs.  A run is an optional decimal count, one if left out, and directly
//! behind it a tag: `b` for dead cells, `o` for live cells, `$` for the end
//! of a row.  The body is closed by `!`; what follows it is not read.
//! Spaces, tabs and carriage returns may stand between the parts of the
//! header, and line breaks too between the runs.

use vstd::prelude::*;
use crate::error::LoadError;
use crate::field::Field;
use crate::text::{decimal_value, digits_end, lemma_digits_end, line_end, next_line, scan_number};

verus! {

/// What a run holds.
#[derive(Clone, Copy, Debug, PartialEq, Eq, Structural)]
pub enum RleTag {
    /// Dead cells, written `b`.
    Dead,
    /// Live cells, written `o`.
    Alive,
    /// Ends of rows, written `$`.
    EndOfRow,
}

/// A tag and how often it is repeated.
#[derive(Clone, Copy, Debug, PartialEq, Eq, Structural)]
pub struct RleRun {
    pub count: usize,
    pub tag: RleTag,
}

/// The size that a header declares, and where the body starts.
#[derive(Clone, Copy, Debug, PartialEq, Eq, Structural)]
pub struct RleHeader {
    pub columns: usize,
    pub rows: usize,
    pub body: usize,
}

/// `c` may stand between the parts of the header.
pub open spec fn is_blank(c: char) -> bool {
    c == ' ' || c == '\t' || c == '\r'
}

/// `c` may stand between the runs of the body.
pub open spec fn is_space(c: char) -> bool {
    is_blank(c) || c == '\n'
}

/// The first position at or after `i` that holds no blank.
pub open spec fn skip_blanks(s: Seq<char>, i: int) -> int
    decreases s.len() - i,
{
    if 0 <= i < s.len() && is_blank(s[i]) {
        skip_blanks(s, i + 1)
    } else {
        i
    }
}

/// The first position at or after `i` that holds no blank and no line break.
pub open spec fn skip_spaces(s: Seq<char>, i: int) -> int
    decreases s.len() - i,
{
    if 0 <= i < s.len() && is_space(s[i]) {
        skip_spaces(s, i + 1)
    } else {
        i
    }
}

/// `skip_spaces` does not move backwards and stays inside the text.
pub proof fn lemma_skip_spaces(s: Seq<char>, i: int)
    requires
        0 <= i <= s.len(),
    ensures
        i <= skip_spaces(s, i) <= s.len(),
    decreases s.len() - i,
{
    if i < s.len() && is_space(s[i]) {
        lemma_skip_spaces(s, i + 1);
    }
}

/// The position behind the character `c`, if `c` is the first thing behind
/// the blanks at `i`.
pub open spec fn expect_char(s: Seq<char>, i: int, c: char) -> Option<int> {
    let j = skip_blanks(s, i);
    if 0 <= j < s.len() && s[j] == c {
        Some(j + 1)
    } else {
        None
    }
}

/// The decimal number behind the blanks at `i`, and the position behind it.
pub open spec fn expect_number(s: Seq<char>, i: int) -> Option<(nat, int)> {
    let j = skip_blanks(s, i);
    let k = digits_end(s, j);
    if j < k {
        Some((decimal_value(s.subrange(j, k)), k))
    } else {
        None
    }
}

/// The number that `<axis>=<number>` declares at `i`, and the position
/// behind it.
pub open spec fn expect_size(s: Seq<char>, i: int, axis: char) -> Option<(nat, int)> {
    match expect_char(s, i, axis) {
        Some(a) => match expect_char(s, a, '=') {
            Some(b) => expect_number(s, b),
            None => None,
        },
        None => None,
    }
}

/// The start of the line behind `rule=` and whatever it is set to, if that
/// is what stands at `i`.
pub open spec fn expect_rule(s: Seq<char>, i: int) -> Option<int> {
    match expect_char(s, i, 'r') {
        Some(a) => if a + 3 <= s.len() && s[a] == 'u' && s[a + 1] == 'l' && s[a + 2] == 'e' {
            match expect_char(s, a + 3, '=') {
                Some(b) => Some(next_line(s, b)),
                None => None,
            }
        } else {
            None
        },
        None => None,
    }
}

/// Where the body starts, if the header ends properly at `i`: with the end
/// of the line or of the text, or with a comma and the rule.
pub open spec fn expect_header_end(s: Seq<char>, i: int) -> Option<int> {
    let j = skip_blanks(s, i);
    if j >= s.len() {
        Some(j)
    } else if s[j] == '\n' {
        Some(j + 1)
    } else if s[j] == ',' {
        expect_rule(s, j + 1)
    } else {
        None
    }
}

/// The columns and rows that the header of `s` declares, and the position at
/// which the body starts; `None` if `s` does not start with a header.
pub open spec fn rle_header(s: Seq<char>) -> Option<(nat, nat, int)> {
    match expect_size(s, 0, 'x') {
        Some((columns, a)) => match expect_char(s, a, ',') {
            Some(b) => match expect_size(s, b, 'y') {
                Some((rows, c)) => match expect_header_end(s, c) {
                    Some(body) => Some((columns, rows, body)),
                    None => None,
                },
                None => None,
            },
            None => None,
        },
        None => None,
    }
}

/// The tag that the character `c` stands for.
pub open spec fn tag_of(c: char) -> Option<RleTag> {
    if c == 'b' {
        Some(RleTag::Dead)
    } else if c == 'o' {
        Some(RleTag::Alive)
    } else if c == '$' {
        Some(RleTag::EndOfRow)
    } else {
        None
    }
}

/// The count of a run whose digits stand from `j` up to `k`: one if there
/// are none.
pub open spec fn run_count(s: Seq<char>, j: int, k: int) -> nat {
    if j == k {
        1
    } else {
        decimal_value(s.subrange(j, k))
    }
}

/// The runs of the body that starts at `i`, up to the closing `!`.  `None`
/// if something else than a run stands before the `!`, if a count has no tag
/// directly behind it, if a count exceeds `usize::MAX`, or if the `!` is
/// missing.
pub open spec fn rle_runs(s: Seq<char>, i: int) -> Option<Seq<RleRun>>
    decreases s.len() - i,
{
    let j = skip_spaces(s, i);
    let k = digits_end(s, j);
    if i < 0 || i > s.len() || j >= s.len() {
        None
    } else if s[j] == '!' {
        Some(Seq::empty())
    } else if k < s.len() && tag_of(s[k]).is_some() && run_count(s, j, k) <= usize::MAX {
        proof {
            lemma_skip_spaces(s, i);
            lemma_digits_end(s, j);
        }
        match rle_runs(s, k + 1) {
            Some(rest) => Some(
                seq![RleRun { count: run_count(s, j, k) as usize, tag: tag_of(s[k]).unwrap() }]
                    + rest,
            ),
            None => None,
        }
    } else {
        None
    }
}

/// The result `found` of reading is the position that the grammar gives.
pub open spec fn same_position(found: Option<usize>, expected: Option<int>) -> bool {
    match expected {
        Some(j) => found == Some(j as usize) && 0 <= j <= usize::MAX,
        None => found.is_none(),
    }
}

/// The cells of a grid of this size can be counted in a machine word.
pub open spec fn grid_fits(rows: nat, columns: nat) -> bool {
    rows <= usize::MAX && columns <= usize::MAX && rows * columns <= usize::MAX
}

fn pass_blanks(text: &[char], start: usize) -> (end: usize)
    requires
        start <= text@.len(),
    ensures
        end == skip_blanks(text@, start as int),
        start <= end <= text@.len(),
{
    let mut i: usize = start;
    while i < text.len() && (text[i] == ' ' || text[i] == '\t' || text[i] == '\r')
        invariant
            start <= i <= text@.len(),
            skip_blanks(text@, i as int) == skip_blanks(text@, start as int),
        decreases text@.len() - i,
    {
        i += 1;
    }
    i
}

fn pass_spaces(text: &[char], start: usize) -> (end: usize)
    requires
        start <= text@.len(),
    ensures
        end == skip_spaces(text@, start as int),
        start <= end <= text@.len(),
{
    let mut i: usize = start;
    while i < text.len() && (text[i] == ' ' || text[i] == '\t' || text[i] == '\r' || text[i]
        == '\n')
        invariant
            start <= i <= text@.len(),
            skip_spaces(text@, i as int) == skip_spaces(text@, start as int),
        decreases text@.len() - i,
    {
        i += 1;
    }
    i
}

fn pass_line(text: &[char], start: usize) -> (end: usize)
    requires
        start <= text@.len(),
    ensures
        end == next_line(text@, start as int),
        start <= end <= text@.len(),
{
    let mut i: usize = start;
    while i < text.len() && text[i] != '\n'
        invariant
            start <= i <= text@.len(),
            line_end(text@, i as int) == line_end(text@, start as int),
        decreases text@.len() - i,
    {
        i += 1;
    }
    if i < text.len() {
        i + 1
    } else {
        i
    }
}

fn read_char(text: &[char], start: usize, c: char) -> (end: Option<usize>)
    requires
        start <= text@.len(),
    ensures
        same_position(end, expect_char(text@, start as int, c)),
        end.is_some() ==> start < end.unwrap() <= text@.len(),
{
    let j = pass_blanks(text, start);
    if j < text.len() && text[j] == c {
        Some(j + 1)
    } else {
        None
    }
}

/// Reads a number behind blanks.  The number itself is `None` if it exceeds
/// `usize::MAX`.
fn read_number(text: &[char], start: usize) -> (r: Option<(Option<usize>, usize)>)
    requires
        start <= text@.len(),
    ensures
        match expect_number(text@, start as int) {
            Some((n, k)) => r.is_some() && r.unwrap().1 == k && k <= text@.len() && (n
                <= usize::MAX ==> r.unwrap().0 == Some(n as usize)) && (n > usize::MAX
                ==> r.unwrap().0.is_none()),
            None => r.is_none(),
        },
{
    let j = pass_blanks(text, start);
    let (k, n) = scan_number(text, j);
    proof {
        lemma_digits_end(text@, j as int);
    }
    if j < k {
        Some((n, k))
    } else {
        None
    }
}

fn read_size(text: &[char], start: usize, axis: char) -> (r: Option<(Option<usize>, usize)>)
    requires
        start <= text@.len(),
    ensures
        match expect_size(text@, start as int, axis) {
            Some((n, k)) => r.is_some() && r.unwrap().1 == k && k <= text@.len() && (n
                <= usize::MAX ==> r.unwrap().0 == Some(n as usize)) && (n > usize::MAX
                ==> r.unwrap().0.is_none()),
            None => r.is_none(),
        },
{
    match read_char(text, start, axis) {
        Some(a) => match read_char(text, a, '=') {
            Some(b) => read_number(text, b),
            None => None,
        },
        None => None,
    }
}

fn read_rule(text: &[char], start: usize) -> (end: Option<usize>)
    requires
        start <= text@.len(),
    ensures
        same_position(end, expect_rule(text@, start as int)),
        end.is_some() ==> end.unwrap() <= text@.len(),
{
    match read_char(text, start, 'r') {
        Some(a) => {
            if text.len() - a >= 3 && text[a] == 'u' && text[a + 1] == 'l' && text[a + 2] == 'e' {
                match read_char(text, a + 3, '=') {
                    Some(b) => Some(pass_line(text, b)),
                    None => None,
                }
            } else {
                None
            }
        },
        None => None,
    }
}

fn read_header_end(text: &[char], start: usize) -> (end: Option<usize>)
    requires
        start <= text@.len(),
    ensures
        same_position(end, expect_header_end(text@, start as int)),
        end.is_some() ==> end.unwrap() <= text@.len(),
{
    let j = pass_blanks(text, start);
    if j >= text.len() {
        Some(j)
    } else if text[j] == '\n' {
        Some(j + 1)
    } else if text[j] == ',' {
        read_rule(text, j + 1)
    } else {
        None
    }
}

/// Reads the header at the start of `text`.
pub fn read_header(text: &[char]) -> (r: Result<RleHeader, LoadError>)
    ensures
        match rle_header(text@) {
            None => r == Err::<RleHeader, LoadError>(LoadError::MalformedHeader),
            Some(h) => if grid_fits(h.1, h.0) {
                r.is_ok() && r.unwrap().columns == h.0 && r.unwrap().rows == h.1
                    && r.unwrap().body == h.2 && h.2 <= text@.len()
            } else {
                r == Err::<RleHeader, LoadError>(LoadError::TooLarge)
            },
        },
{
    let (columns, a) = match read_size(text, 0, 'x') {
        Some(found) => found,
        None => { return Err(LoadError::MalformedHeader); },
    };
    let b = match read_char(text, a, ',') {
        Some(found) => found,
        None => { return Err(LoadError::MalformedHeader); },
    };
    let (rows, c) = match read_size(text, b, 'y') {
        Some(found) => found,
        None => { return Err(LoadError::MalformedHeader); },
    };
    let body = match read_header_end(text, c) {
        Some(found) => found,
        None => { return Err(LoadError::MalformedHeader); },
    };
    match (columns, rows) {
        (Some(columns), Some(rows)) => {
            if columns == 0 || rows <= usize::MAX / columns {
                proof {
                    if columns > 0 {
                        assert(rows * columns <= usize::MAX) by (nonlinear_arith)
                            requires
                                rows <= usize::MAX / columns,
                                columns > 0,
                        ;
                    } else {
                        assert(rows * columns == 0) by (nonlinear_arith)
                            requires
                                columns == 0,
                        ;
                    }
                }
                Ok(RleHeader { columns, rows, body })
            } else {
                proof {
                    assert(rows * columns > usize::MAX) by (nonlinear_arith)
                        requires
                            rows > usize::MAX / columns,
                            columns > 0,
                    ;
                }
                Err(LoadError::TooLarge)
            }
        },
        _ => Err(LoadError::TooLarge),
    }
}

/// Reads the runs of the body that starts at `start`, up to the closing `!`.
pub fn read_runs(text: &[char], start: usize) -> (r: Option<Vec<RleRun>>)
    requires
        start <= text@.len(),
    ensures
        match rle_runs(text@, start as int) {
            Some(runs) => r.is_some() && r.unwrap()@ == runs,
            None => r.is_none(),
        },
{
    let mut runs: Vec<RleRun> = Vec::new();
    let mut i: usize = start;
    loop
        invariant
            start <= i <= text@.len(),
            match rle_runs(text@, i as int) {
                Some(rest) => rle_runs(text@, start as int) == Some(runs@ + rest),
                None => rle_runs(text@, start as int).is_none(),
            },
        decreases text@.len() - i,
    {
        let j = pass_spaces(text, i);
        if j >= text.len() {
            return None;
        }
        if text[j] == '!' {
            proof {
                assert(runs@ + Seq::<RleRun>::empty() =~= runs@);
            }
            return Some(runs);
        }
        let (k, n) = scan_number(text, j);
        proof {
            lemma_digits_end(text@, j as int);
        }
        if k >= text.len() {
            return None;
        }
        let tag = if text[k] == 'b' {
            RleTag::Dead
        } else if text[k] == 'o' {
            RleTag::Alive
        } else if text[k] == '$' {
            RleTag::EndOfRow
        } else {
            return None;
        };
        let count: usize = if j == k {
            1
        } else {
            match n {
                Some(n) => n,
                None => { return None; },
            }
        };
        proof {
            let run = RleRun { count, tag };
            let rest = rle_runs(text@, k + 1);
            if rest.is_some() {
                assert(runs@.push(run) + rest.unwrap() =~= runs@ + (seq![run] + rest.unwrap()));
            }
        }
        runs.push(RleRun { count, tag });
        i = k + 1;
    }
}

/// `cells` with the `count` cells from position `from` on set to `alive`.
pub open spec fn fill(cells: Seq<bool>, from: int, count: int, alive: bool) -> Seq<bool> {
    Seq::new(
        cells.len(),
        |i: int|
            if from <= i < from + count {
                alive
            } else {
                cells[i]
            },
    )
}

/// The cells after the runs from the `k`-th on have been carried out, with
/// the cursor in row `row` and column `column` before the first of them.
///
/// A run of `$` moves the cursor down by its count and back to column 0.  A
/// run of `b` or `o` sets the next cells, from the row-major position of the
/// cursor on, to dead or alive and moves the cursor right by its count; so a
/// run that passes the right edge goes on in the next row.  `None` if such a
/// run passes the end of the grid.  A run with count 0 does nothing.
pub open spec fn paint_from(
    runs: Seq<RleRun>,
    k: int,
    columns: nat,
    row: nat,
    column: nat,
    cells: Seq<bool>,
) -> Option<Seq<bool>>
    decreases runs.len() - k,
{
    if k < 0 || k >= runs.len() {
        Some(cells)
    } else {
        let count = runs[k].count as nat;
        let from = row * columns + column;
        if runs[k].tag == RleTag::EndOfRow {
            paint_from(runs, k + 1, columns, row + count, 0, cells)
        } else if count == 0 || from + count <= cells.len() {
            paint_from(
                runs,
                k + 1,
                columns,
                row,
                column + count,
                fill(cells, from as int, count as int, runs[k].tag == RleTag::Alive),
            )
        } else {
            None
        }
    }
}

/// The cells of a grid of `rows` by `columns` dead cells after `runs` have
/// been carried out from the upper left corner.
pub open spec fn painted(runs: Seq<RleRun>, rows: nat, columns: nat) -> Option<Seq<bool>> {
    paint_from(runs, 0, columns, 0, 0, Seq::new(rows * columns, |i: int| false))
}

/// What loading the text `s` gives: the rows, the columns and the cells of
/// the grid, or the reason for which `s` is refused.
pub open spec fn rle_outcome(s: Seq<char>) -> Result<(nat, nat, Seq<bool>), LoadError> {
    match rle_header(s) {
        None => Err(LoadError::MalformedHeader),
        Some((columns, rows, body)) => if !grid_fits(rows, columns) {
            Err(LoadError::TooLarge)
        } else {
            match rle_runs(s, body) {
                None => Err(LoadError::MalformedBody),
                Some(runs) => match painted(runs, rows, columns) {
                    None => Err(LoadError::OutOfGrid),
                    Some(cells) => Ok((rows, columns, cells)),
                },
            }
        },
    }
}

/// Sets the `count` cells from position `from` on to `alive`.
fn fill_cells(cells: &mut Vec<bool>, from: usize, count: usize, alive: bool)
    requires
        from + count <= old(cells)@.len(),
    ensures
        final(cells)@ == fill(old(cells)@, from as int, count as int, alive),
{
    let total: usize = cells.len();
    let mut t: usize = 0;
    while t < count
        invariant
            t <= count,
            from + count <= total,
            total == cells@.len(),
            cells@ =~= fill(old(cells)@, from as int, t as int, alive),
        decreases count - t,
    {
        cells[from + t] = alive;
        t += 1;
    }
}

/// Carries out `runs` on a grid of `rows` by `columns` dead cells.
pub fn paint(runs: &[RleRun], rows: usize, columns: usize) -> (r: Option<Vec<bool>>)
    requires
        rows * columns <= usize::MAX,
    ensures
        match painted(runs@, rows as nat, columns as nat) {
            Some(cells) => r.is_some() && r.unwrap()@ == cells && cells.len() == rows * columns,
            None => r.is_none(),
        },
{
    let size: usize = rows * columns;
    let mut cells: Vec<bool> = Vec::with_capacity(size);
    let mut n: usize = 0;
    while n < size
        invariant
            n <= size,
            cells@ =~= Seq::new(n as nat, |i: int| false),
        decreases size - n,
    {
        cells.push(false);
        n += 1;
    }
    // the row of the cursor, but no more than `rows`
    let mut row: usize = 0;
    let mut column: usize = 0;
    let ghost mut true_row: nat = 0;
    let mut k: usize = 0;
    while k < runs.len()
        invariant
            k <= runs@.len(),
            size == rows * columns,
            cells@.len() == size,
            row == if true_row < rows { true_row } else { rows as nat },
            column <= size,
            paint_from(runs@, k as int, columns as nat, true_row, column as nat, cells@) == painted(
                runs@,
                rows as nat,
                columns as nat,
            ),
        decreases runs@.len() - k,
    {
        let run = runs[k];
        match run.tag {
            RleTag::EndOfRow => {
                row = if run.count >= rows - row {
                    rows
                } else {
                    row + run.count
                };
                column = 0;
                proof {
                    true_row = true_row + run.count as nat;
                }
            },
            _ => {
                let alive = match run.tag {
                    RleTag::Alive => true,
                    _ => false,
                };
                if run.count > 0 {
                    if row >= rows {
                        proof {
                            assert(true_row * columns >= rows * columns) by (nonlinear_arith)
                                requires
                                    true_row >= rows,
                            ;
                        }
                        return None;
                    }
                    proof {
                        assert(row * columns + columns <= rows * columns) by (nonlinear_arith)
                            requires
                                row < rows,
                        ;
                    }
                    let base: usize = row * columns;
                    if column > size - base || run.count > size - base - column {
                        return None;
                    }
                    fill_cells(&mut cells, base + column, run.count, alive);
                    column = column + run.count;
                } else {
                    proof {
                        assert(cells@ =~= fill(
                            cells@,
                            true_row * columns + column,
                            0,
                            run.tag == RleTag::Alive,
                        ));
                    }
                }
            },
        }
        k += 1;
    }
    Some(cells)
}

/// Loads the pattern that `text` holds in the run-length encoded format.
pub fn load(text: &[char]) -> (r: Result<Field<bool>, LoadError>)
    ensures
        match rle_outcome(text@) {
            Ok((rows, columns, cells)) => r.is_ok() && r.unwrap().wf() && r.unwrap().rows == rows
                && r.unwrap().columns == columns && r.unwrap().cells@ == cells,
            Err(e) => r == Err::<Field<bool>, LoadError>(e),
        },
{
    let header = match read_header(text) {
        Ok(header) => header,
        Err(e) => { return Err(e); },
    };
    let runs = match read_runs(text, header.body) {
        Some(runs) => runs,
        None => { return Err(LoadError::MalformedBody); },
    };
    match paint(runs.as_slice(), header.rows, header.columns) {
        Some(cells) => Ok(Field::new(cells, header.rows, header.columns)),
        None => Err(LoadError::OutOfGrid),
    }
}

} // verus!
