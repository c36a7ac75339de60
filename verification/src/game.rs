//! The simulation: the live grid, the ages of its cells, the overlay of
//! marked cells and the rule, advanced one generation at a time.

use vstd::prelude::*;
use vstd::string::*;
use crate::field::{
    grid_table, is_table, lies_at, neighbour_count, neighbours, table_of, Field,
};
use crate::rule::AutomataRule;
use crate::term::{
    cell_glyph, colormap_gb, gfx_cell, gfx_cell_highres, gfx_hline, gfx_hline_highres, gfx_pos1,
    hline, quadrant_glyph, ramp_colour,
};
use crate::text::{decimal_text, push_decimal};
use crate::torus::{cell_index, lemma_cell_index, lemma_index_cell, wrap, wrap_spec};

verus! {

/// The position of the cell that lies `rr` rows below and `cc` columns right
/// of the cell in row `r` and column `c`, on a torus of `rows` by `columns`
/// cells.
pub open spec fn footprint_index(rows: nat, columns: nat, r: int, c: int, rr: int, cc: int) -> int {
    cell_index(wrap_spec(r, rr, rows as int), wrap_spec(c, cc, columns as int), columns as int)
}

/// The cell at position `i` lies under a pattern of `height` by `width`
/// cells whose upper left cell is in row `r` and column `c`.
pub open spec fn under(
    rows: nat,
    columns: nat,
    r: int,
    c: int,
    height: int,
    width: int,
    i: int,
) -> bool {
    exists|rr: int, cc: int|
        0 <= rr < height && 0 <= cc < width && #[trigger] footprint_index(
            rows,
            columns,
            r,
            c,
            rr,
            cc,
        ) == i
}

/// The cell at position `i` lies under the part of a pattern that consists
/// of its first `rows_done` rows and of the first `cells_done` cells of the
/// row behind them.
spec fn under_part(
    rows: nat,
    columns: nat,
    r: int,
    c: int,
    rows_done: int,
    cells_done: int,
    width: int,
    i: int,
) -> bool {
    exists|rr: int, cc: int|
        ((0 <= rr < rows_done && 0 <= cc < width) || (rr == rows_done && 0 <= cc < cells_done))
            && #[trigger] footprint_index(rows, columns, r, c, rr, cc) == i
}

/// What a simulation holds, as plain values: the size of the torus, for each
/// cell in row-major order whether it is alive, its age and whether it is
/// marked, the rule, and the number of generations that have passed.
pub struct GameState {
    pub rows: nat,
    pub columns: nat,
    pub alive: Seq<bool>,
    pub ages: Seq<nat>,
    pub marked: Seq<bool>,
    pub rule: AutomataRule,
    pub generation: nat,
}

impl GameState {
    /// The three layers have one entry for each cell, a dead cell has age
    /// 0, and no cell is older than the simulation.
    pub open spec fn wf(self) -> bool {
        &&& self.alive.len() == self.rows * self.columns
        &&& self.ages.len() == self.rows * self.columns
        &&& self.marked.len() == self.rows * self.columns
        &&& forall|i: int| 0 <= i < self.ages.len() ==> #[trigger] self.ages[i] <= self.generation
        &&& forall|i: int| 0 <= i < self.ages.len() && !self.alive[i] ==> #[trigger] self.ages[i] == 0
    }

    /// The number of live neighbours of the cell at position `i`.
    pub open spec fn neighbours_of(self, i: int) -> nat {
        neighbour_count(
            grid_table(self.alive, self.rows, self.columns),
            i % self.columns as int,
            i / self.columns as int,
        )
    }

    /// Whether the cell at position `i` is alive in the next generation.
    pub open spec fn next_alive(self, i: int) -> bool {
        self.rule.apply_spec(self.alive[i], self.neighbours_of(i) as int)
    }

    /// The age of the cell at position `i` in the next generation: one more
    /// if it is alive now and then, else 0.
    pub open spec fn next_age(self, i: int) -> nat {
        if self.alive[i] && self.next_alive(i) {
            self.ages[i] + 1
        } else {
            0
        }
    }

    /// The counter of the generations and the age of each cell that stays
    /// alive have room for one more.
    pub open spec fn has_room(self) -> bool {
        &&& self.generation < usize::MAX
        &&& forall|i: int|
            0 <= i < self.alive.len() && self.alive[i] && self.next_alive(i)
                ==> #[trigger] self.ages[i] < u32::MAX
    }

    /// A well-formed state has room while fewer than `u32::MAX` generations
    /// have passed.
    pub proof fn lemma_room(self)
        requires
            self.wf(),
            self.generation < u32::MAX,
        ensures
            self.has_room(),
    {
    }

    /// The next generation does not go by the marks: two states that agree
    /// in all but the marks have the same next generation.
    pub proof fn lemma_next_ignores_marks(self, other: GameState)
        requires
            self.rows == other.rows,
            self.columns == other.columns,
            self.alive == other.alive,
            self.ages == other.ages,
            self.rule == other.rule,
            self.generation == other.generation,
        ensures
            self.next() == other.next(),
    {
        assert forall|i: int| 0 <= i < self.alive.len() implies self.next_alive(i)
            == other.next_alive(i) && self.next_age(i) == other.next_age(i) by {}
        assert(self.next().alive =~= other.next().alive);
        assert(self.next().ages =~= other.next().ages);
        assert(self.next().marked =~= other.next().marked);
    }

    /// The state one generation later.  Every cell goes by the state of
    /// this generation; no cell is marked.
    pub open spec fn next(self) -> GameState {
        GameState {
            rows: self.rows,
            columns: self.columns,
            alive: Seq::new(self.alive.len(), |i: int| self.next_alive(i)),
            ages: Seq::new(self.alive.len(), |i: int| self.next_age(i)),
            marked: Seq::new(self.alive.len(), |i: int| false),
            rule: self.rule,
            generation: self.generation + 1,
        }
    }

    /// The pattern lies on the live grid with its upper left cell in row
    /// `r` and column `c`.
    pub open spec fn anchored(self, pattern: &Field<bool>, r: int, c: int) -> bool {
        &&& 0 <= r < self.rows
        &&& 0 <= c < self.columns
        &&& lies_at(self.alive, self.rows as int, self.columns as int, pattern, r, c)
    }

    /// The cell at position `i` lies under the pattern at one of the
    /// anchors at which the pattern lies on the live grid.
    pub open spec fn covered(self, pattern: &Field<bool>, i: int) -> bool {
        exists|r: int, c: int| #[trigger]
            self.anchored(pattern, r, c) && under(
                self.rows,
                self.columns,
                r,
                c,
                pattern.rows as int,
                pattern.columns as int,
                i,
            )
    }

    /// The state after the pattern has been marked: each cell under a match
    /// of the pattern is marked if and only if it is alive; the mark of
    /// every other cell stays as it is.  Nothing else changes.
    pub open spec fn mark(self, pattern: &Field<bool>) -> GameState {
        GameState {
            rows: self.rows,
            columns: self.columns,
            alive: self.alive,
            ages: self.ages,
            marked: Seq::new(
                self.marked.len(),
                |i: int|
                    if self.covered(pattern, i) {
                        self.alive[i]
                    } else {
                        self.marked[i]
                    },
            ),
            rule: self.rule,
            generation: self.generation,
        }
    }

    /// The colour escape of a cell or block: the highlight if it is marked,
    /// else the colour of its age.
    pub open spec fn colour(marked: bool, age: nat) -> Seq<char> {
        if marked {
            "\x1B[38;5;1m"@
        } else {
            ramp_colour(age)
        }
    }

    /// The colour of the cell in row `r` and column `c`.
    pub open spec fn cell_colour(self, r: int, c: int) -> Seq<char> {
        Self::colour(
            self.marked[cell_index(r, c, self.columns as int)],
            self.ages[cell_index(r, c, self.columns as int)],
        )
    }

    /// The colour in force when the cell in row `r` and column `c` is
    /// drawn: the colour of the last live cell drawn before it, and none
    /// where no live cell comes before.  Dead cells, line ends and the
    /// rules of the frame leave it as it is.
    pub open spec fn colour_before(self, r: int, c: int) -> Seq<char>
        decreases r, c,
    {
        if c > 0 {
            if self.alive[cell_index(r, c - 1, self.columns as int)] {
                self.cell_colour(r, c - 1)
            } else {
                self.colour_before(r, c - 1)
            }
        } else if r > 0 {
            self.colour_before(r - 1, self.columns as int)
        } else {
            Seq::empty()
        }
    }

    /// The text of the cell in row `r` and column `c`: a space if it is
    /// dead, a full block if it is alive.  The block is preceded by the
    /// colour of the cell if and only if that differs from the colour in
    /// force.
    pub open spec fn cell_text(self, r: int, c: int) -> Seq<char> {
        if !self.alive[cell_index(r, c, self.columns as int)] {
            cell_glyph(false)
        } else if self.cell_colour(r, c) == self.colour_before(r, c) {
            cell_glyph(true)
        } else {
            self.cell_colour(r, c) + cell_glyph(true)
        }
    }

    /// The text of the first `upto` cells of row `r`.
    pub open spec fn row_text(self, r: int, upto: int) -> Seq<char>
        decreases upto,
    {
        if upto <= 0 {
            Seq::empty()
        } else {
            self.row_text(r, upto - 1) + self.cell_text(r, upto - 1)
        }
    }

    /// The text of the first `upto` rows, each closed by a line break.
    pub open spec fn rows_text(self, upto: int) -> Seq<char>
        decreases upto,
    {
        if upto <= 0 {
            Seq::empty()
        } else {
            self.rows_text(upto - 1) + self.row_text(upto - 1, self.columns as int) + "\n"@
        }
    }

    /// The frame with one character for each cell: the cursor goes to the
    /// upper left corner, then come a rule as wide as the grid, the rows, the
    /// rule again, and the number of the generation.
    pub open spec fn frame(self) -> Seq<char> {
        "\x1B[1;1H"@ + hline(self.columns) + "\n"@ + self.rows_text(self.rows as int) + hline(
            self.columns,
        ) + "\n"@ + decimal_text(self.generation)
    }

    /// Whether the cell in row `r` and column `c` is alive; a cell outside
    /// the grid is not.
    pub open spec fn quarter_alive(self, r: int, c: int) -> bool {
        0 <= r < self.rows && 0 <= c < self.columns && self.alive[cell_index(
            r,
            c,
            self.columns as int,
        )]
    }

    /// The age of the cell in row `r` and column `c`; 0 for a cell outside
    /// the grid.
    pub open spec fn quarter_age(self, r: int, c: int) -> nat {
        if 0 <= r < self.rows && 0 <= c < self.columns {
            self.ages[cell_index(r, c, self.columns as int)]
        } else {
            0
        }
    }

    /// The number of blocks of two by two cells in a row of blocks.
    pub open spec fn blocks(self) -> int {
        (self.columns + 1) as int / 2
    }

    /// One of the four cells of the block whose upper left cell is in row
    /// `r` and column `c` is alive.
    pub open spec fn block_live(self, r: int, c: int) -> bool {
        self.quarter_alive(r, c) || self.quarter_alive(r, c + 1) || self.quarter_alive(r + 1, c)
            || self.quarter_alive(r + 1, c + 1)
    }

    /// The glyph of the block whose upper left cell is in row `r` and
    /// column `c`: the live quarters are filled.
    pub open spec fn block_glyph(self, r: int, c: int) -> Seq<char> {
        quadrant_glyph(
            self.quarter_alive(r, c),
            self.quarter_alive(r, c + 1),
            self.quarter_alive(r + 1, c),
            self.quarter_alive(r + 1, c + 1),
        )
    }

    /// The colour of the block whose upper left cell is in row `r` and
    /// column `c`: the highlight if the upper left cell is marked, else the
    /// colour of the average of the four ages, rounded down.
    pub open spec fn block_colour(self, r: int, c: int) -> Seq<char> {
        Self::colour(
            self.marked[cell_index(r, c, self.columns as int)],
            (self.quarter_age(r, c) + self.quarter_age(r, c + 1) + self.quarter_age(r + 1, c)
                + self.quarter_age(r + 1, c + 1)) / 4,
        )
    }

    /// The colour in force when the `k`-th block of the row of blocks that
    /// starts in row `r` is drawn: the colour of the last block with a live
    /// cell drawn before it, and none where no such block comes before.
    pub open spec fn block_colour_before(self, r: int, k: int) -> Seq<char>
        decreases r, k,
    {
        if k > 0 {
            if self.block_live(r, 2 * (k - 1)) {
                self.block_colour(r, 2 * (k - 1))
            } else {
                self.block_colour_before(r, k - 1)
            }
        } else if r >= 2 {
            self.block_colour_before(r - 2, self.blocks())
        } else {
            Seq::empty()
        }
    }

    /// The text of the `k`-th block of the row of blocks that starts in row
    /// `r`: a space if its four cells are dead, else its glyph.  The glyph is
    /// preceded by the colour of the block if and only if that differs from
    /// the colour in force.
    pub open spec fn block_text(self, r: int, k: int) -> Seq<char> {
        if !self.block_live(r, 2 * k) {
            quadrant_glyph(false, false, false, false)
        } else if self.block_colour(r, 2 * k) == self.block_colour_before(r, k) {
            self.block_glyph(r, 2 * k)
        } else {
            self.block_colour(r, 2 * k) + self.block_glyph(r, 2 * k)
        }
    }

    /// The text of the first `upto` blocks of the row of blocks that starts
    /// in row `r`.
    pub open spec fn block_row_text(self, r: int, upto: int) -> Seq<char>
        decreases upto,
    {
        if upto <= 0 {
            Seq::empty()
        } else {
            self.block_row_text(r, upto - 1) + self.block_text(r, upto - 1)
        }
    }

    /// The text of the first `upto` rows of blocks, each closed by a line
    /// break.
    pub open spec fn block_rows_text(self, upto: int) -> Seq<char>
        decreases upto,
    {
        if upto <= 0 {
            Seq::empty()
        } else {
            self.block_rows_text(upto - 1) + self.block_row_text(2 * (upto - 1), self.blocks())
                + "\n"@
        }
    }

    /// The frame with one character for each block of two by two cells.  A
    /// last row or column that a grid of odd size leaves over is filled up
    /// with dead cells.  The rule is half as wide as the grid.
    pub open spec fn frame_highres(self) -> Seq<char> {
        "\x1B[1;1H"@ + hline(self.columns / 2) + "\n"@ + self.block_rows_text(
            (self.rows + 1) as int / 2,
        ) + hline(self.columns / 2) + "\n"@ + decimal_text(self.generation)
    }

    /// The state `n` generations later.
    pub open spec fn after(self, n: nat) -> GameState
        decreases n,
    {
        if n == 0 {
            self
        } else {
            self.after((n - 1) as nat).next()
        }
    }

    /// The state `n` generations later, if the pattern is marked after
    /// each of them.
    pub open spec fn after_marking(self, pattern: &Field<bool>, n: nat) -> GameState
        decreases n,
    {
        if n == 0 {
            self
        } else {
            self.after_marking(pattern, (n - 1) as nat).next().mark(pattern)
        }
    }

    /// Marking a pattern changes nothing of the next generation.
    pub proof fn lemma_mark_then_next(self, pattern: &Field<bool>)
        requires
            self.wf(),
        ensures
            self.mark(pattern).next() == self.next(),
    {
        let marked = self.mark(pattern);
        assert forall|i: int| 0 <= i < self.alive.len() implies marked.next_alive(i)
            == self.next_alive(i) && marked.next_age(i) == self.next_age(i) by {}
        assert(marked.next().alive =~= self.next().alive);
        assert(marked.next().ages =~= self.next().ages);
        assert(marked.next().marked =~= self.next().marked);
    }

    /// Marking a pattern after each generation leads to the cells, the ages
    /// and the generation that come about without any marking: the marks
    /// never reach the rule.
    pub proof fn lemma_marking_is_cosmetic(self, pattern: &Field<bool>, n: nat)
        requires
            self.wf(),
        ensures
            self.after(n).wf(),
            self.after(n).rows == self.rows,
            self.after(n).columns == self.columns,
            self.after(n).rule == self.rule,
            self.after_marking(pattern, n).wf(),
            self.after_marking(pattern, n).alive == self.after(n).alive,
            self.after_marking(pattern, n).ages == self.after(n).ages,
            self.after_marking(pattern, n).generation == self.after(n).generation,
            self.after_marking(pattern, n).rows == self.rows,
            self.after_marking(pattern, n).columns == self.columns,
            self.after_marking(pattern, n).rule == self.rule,
        decreases n,
    {
        if n > 0 {
            let before = self.after((n - 1) as nat);
            let marking = self.after_marking(pattern, (n - 1) as nat);
            self.lemma_marking_is_cosmetic(pattern, (n - 1) as nat);
            before.lemma_next_wf();
            marking.lemma_next_wf();
            assert forall|i: int| 0 <= i < before.alive.len() implies marking.next_alive(i)
                == before.next_alive(i) && marking.next_age(i) == before.next_age(i) by {}
            assert(marking.next().alive =~= before.next().alive);
            assert(marking.next().ages =~= before.next().ages);
        }
    }

    /// The next generation of a well-formed state is well formed.
    pub proof fn lemma_next_wf(self)
        requires
            self.wf(),
        ensures
            self.next().wf(),
    {
    }

    /// From one generation to the next, a cell that stays alive grows older
    /// by exactly one generation, a cell that is born has age 0, and a cell
    /// that dies or stays dead has age 0.
    pub proof fn lemma_ages(self, i: int)
        requires
            self.wf(),
            0 <= i < self.alive.len(),
        ensures
            self.alive[i] && self.next().alive[i] ==> self.next().ages[i] == self.ages[i] + 1,
            !self.alive[i] && self.next().alive[i] ==> self.next().ages[i] == 0,
            !self.next().alive[i] ==> self.next().ages[i] == 0,
    {
    }

    /// A block of four dead cells is drawn as a space without any colour,
    /// and a block of four live cells as the full block, preceded by its
    /// colour where that is not in force.
    pub proof fn lemma_block_extremes(self, r: int, k: int)
        ensures
            !self.block_live(r, 2 * k) ==> self.block_text(r, k) == " "@,
            self.quarter_alive(r, 2 * k) && self.quarter_alive(r, 2 * k + 1) && self.quarter_alive(
                r + 1,
                2 * k,
            ) && self.quarter_alive(r + 1, 2 * k + 1) ==> self.block_text(r, k)
                == if self.block_colour(r, 2 * k) == self.block_colour_before(r, k) {
                "\u{2588}"@
            } else {
                self.block_colour(r, 2 * k) + "\u{2588}"@
            },
    {
    }

    /// The state in which a simulation starts on the given cells.
    pub open spec fn start(rows: nat, columns: nat, alive: Seq<bool>, rule: AutomataRule)
        -> GameState {
        GameState {
            rows,
            columns,
            alive,
            ages: Seq::new(alive.len(), |i: int| 0nat),
            marked: Seq::new(alive.len(), |i: int| false),
            rule,
            generation: 0,
        }
    }
}

/// The ages of the cells as numbers.
pub open spec fn ages_of(cells: Seq<u32>) -> Seq<nat> {
    Seq::new(cells.len(), |i: int| cells[i] as nat)
}

/// A simulation of a life-like automaton on a torus.
pub struct Game {
    field: Field<bool>,
    ages: Field<u32>,
    marked: Field<bool>,
    rule: AutomataRule,
    iterations: usize,
}

impl View for Game {
    type V = GameState;

    /// The state of the simulation.  The grids of the ages and of the
    /// marks stand in it by their cells alone: `wf` holds that they have the
    /// size of the live grid.
    closed spec fn view(&self) -> GameState {
        GameState {
            rows: self.field.rows as nat,
            columns: self.field.columns as nat,
            alive: self.field.cells@,
            ages: ages_of(self.ages.cells@),
            marked: self.marked.cells@,
            rule: self.rule,
            generation: self.iterations as nat,
        }
    }
}

impl Game {
    /// The three grids are well formed and of one size, and the state is
    /// well formed.
    pub closed spec fn wf(&self) -> bool {
        &&& self.field.wf()
        &&& self.ages.wf()
        &&& self.marked.wf()
        &&& self.ages.rows == self.field.rows
        &&& self.ages.columns == self.field.columns
        &&& self.marked.rows == self.field.rows
        &&& self.marked.columns == self.field.columns
        &&& self@.wf()
    }

    /// Starts a simulation on `field` under `rule`: generation 0, every
    /// age 0, nothing marked.
    pub fn new(field: Field<bool>, rule: AutomataRule) -> (game: Game)
        requires
            field.wf(),
        ensures
            game.wf(),
            game@.wf(),
            game@ == GameState::start(field.rows as nat, field.columns as nat, field.cells@, rule),
    {
        proof {
            field.lemma_size_fits();
        }
        let ages: Field<u32> = Field::with_size(field.rows, field.columns);
        let marked: Field<bool> = Field::with_size(field.rows, field.columns);
        let game = Game { field, ages, marked, rule, iterations: 0 };
        proof {
            assert(game@.ages =~= Seq::new(field.cells@.len(), |i: int| 0nat));
            assert(game@.marked =~= Seq::new(field.cells@.len(), |i: int| false));
        }
        game
    }

    /// The live grid.
    pub fn field(&self) -> (field: &Field<bool>)
        requires
            self.wf(),
        ensures
            field.wf(),
            field.rows == self@.rows,
            field.columns == self@.columns,
            field.cells@ == self@.alive,
    {
        &self.field
    }

    /// The ages of the cells.
    pub fn ages(&self) -> (ages: &Field<u32>)
        requires
            self.wf(),
        ensures
            ages.wf(),
            ages.rows == self@.rows,
            ages.columns == self@.columns,
            ages_of(ages.cells@) == self@.ages,
    {
        &self.ages
    }

    /// The overlay of marked cells.
    pub fn marked(&self) -> (marked: &Field<bool>)
        requires
            self.wf(),
        ensures
            marked.wf(),
            marked.rows == self@.rows,
            marked.columns == self@.columns,
            marked.cells@ == self@.marked,
    {
        &self.marked
    }

    /// The rule.
    pub fn rule(&self) -> (rule: &AutomataRule)
        ensures
            *rule == self@.rule,
    {
        &self.rule
    }

    /// The number of generations that have passed.
    pub fn iterations(&self) -> (n: usize)
        ensures
            n == self@.generation,
    {
        self.iterations
    }

    /// The ages that the leading cells have once they are in the states
    /// `new_cells`: of as many as `new_cells` holds, if those are fewer than
    /// the cells.  A cell that is alive before and after is one generation
    /// older; every other cell has age 0.
    pub fn calculate_ages(&self, new_cells: &[bool]) -> (ages: Vec<u32>)
        requires
            self.wf(),
            forall|i: int|
                0 <= i < self@.alive.len() && i < new_cells@.len() && self@.alive[i]
                    && new_cells@[i] ==> #[trigger] self@.ages[i] < u32::MAX,
        ensures
            ages@.len() == if self@.alive.len() <= new_cells@.len() {
                self@.alive.len()
            } else {
                new_cells@.len()
            },
            forall|i: int|
                0 <= i < ages@.len() ==> #[trigger] ages@[i] as nat == if self@.alive[i]
                    && new_cells@[i] {
                    self@.ages[i] + 1
                } else {
                    0
                },
    {
        let size: usize = if self.field.cells.len() <= new_cells.len() {
            self.field.cells.len()
        } else {
            new_cells.len()
        };
        let mut ages: Vec<u32> = Vec::with_capacity(size);
        let mut i: usize = 0;
        while i < size
            invariant
                i <= size,
                size <= self.field.cells@.len(),
                size <= new_cells@.len(),
                self.wf(),
                forall|k: int|
                    0 <= k < self@.alive.len() && k < new_cells@.len() && self@.alive[k]
                        && new_cells@[k] ==> #[trigger] self@.ages[k] < u32::MAX,
                ages@.len() == i,
                forall|k: int|
                    0 <= k < i ==> #[trigger] ages@[k] as nat == if self@.alive[k] && new_cells@[k] {
                        self@.ages[k] + 1
                    } else {
                        0
                    },
            decreases size - i,
        {
            let age: u32 = if self.field.cells[i] && new_cells[i] {
                assert(self@.ages[i as int] == self.ages.cells@[i as int]);
                self.ages.cells[i] + 1
            } else {
                0
            };
            ages.push(age);
            i += 1;
        }
        ages
    }

    /// Whether the simulation can be advanced: whether the counter of the
    /// generations and the age of each cell that stays alive have room for
    /// one more.
    pub fn can_advance(&self) -> (ok: bool)
        requires
            self.wf(),
        ensures
            ok == self@.has_room(),
    {
        if self.iterations == usize::MAX {
            return false;
        }
        if self.field.columns == 0 {
            proof {
                assert(self.field.rows * self.field.columns == 0) by (nonlinear_arith)
                    requires
                        self.field.columns == 0,
                ;
            }
            return true;
        }
        let cells_2d = self.field.proj2d();
        proof {
            self.field.lemma_table();
            assert(table_of(cells_2d@) =~= self.field.table());
        }
        let size: usize = self.field.cells.len();
        let mut i: usize = 0;
        while i < size
            invariant
                i <= size,
                size == self.field.cells@.len(),
                self.wf(),
                self.field.columns > 0,
                table_of(cells_2d@) == self.field.table(),
                is_table(
                    table_of(cells_2d@),
                    self.field.rows as nat,
                    self.field.columns as nat,
                ),
                forall|j: int|
                    0 <= j < i && self@.alive[j] && self@.next_alive(j)
                        ==> #[trigger] self@.ages[j] < u32::MAX,
            decreases size - i,
        {
            if self.field.cells[i] && self.ages.cells[i] == u32::MAX {
                proof {
                    self.field.lemma_size_fits();
                    lemma_index_cell(i as int, self.field.rows as int, self.field.columns as int);
                    assert(table_of(cells_2d@)[0].len() == self.field.columns);
                }
                let count = neighbours(
                    cells_2d.as_slice(),
                    i % self.field.columns,
                    i / self.field.columns,
                );
                if self.rule.apply(true, count) {
                    assert(self@.alive[i as int] && self@.next_alive(i as int));
                    assert(self@.ages[i as int] == u32::MAX);
                    return false;
                }
            }
            assert(self@.ages[i as int] == self.ages.cells@[i as int]);
            i += 1;
        }
        true
    }

    /// Advances the simulation by one generation.  The counter of the
    /// generations and the age of each cell that stays alive must have room
    /// for one more, which `can_advance` tests; `GameState::lemma_room`
    /// shows that they have it while fewer than `u32::MAX` generations have
    /// passed.
    pub fn next_iteration(&mut self)
        requires
            old(self).wf(),
            old(self)@.has_room(),
        ensures
            final(self).wf(),
            final(self)@.wf(),
            final(self)@ == old(self)@.next(),
            forall|i: int|
                0 <= i < old(self)@.alive.len() && old(self)@.alive[i] && final(self)@.alive[i]
                    ==> #[trigger] final(self)@.ages[i] == old(self)@.ages[i] + 1,
            forall|i: int|
                0 <= i < old(self)@.alive.len() && !(old(self)@.alive[i] && final(self)@.alive[i])
                    ==> #[trigger] final(self)@.ages[i] == 0,
    {
        proof {
            self.field.lemma_size_fits();
        }
        let new_cells: Vec<bool> = if self.field.columns == 0 {
            Vec::new()
        } else {
            let cells_2d = self.field.proj2d();
            proof {
                self.field.lemma_table();
                assert(table_of(cells_2d@) =~= self.field.table());
            }
            let neighbours = self.field.calculate_neighbours(cells_2d.as_slice());
            self.field.apply_rule(neighbours, &self.rule)
        };
        proof {
            if self.field.columns == 0 {
                assert(self.field.rows * self.field.columns == 0) by (nonlinear_arith)
                    requires
                        self.field.columns == 0,
                ;
            }
            assert(new_cells@ =~= old(self)@.next().alive);
        }
        let ages = self.calculate_ages(new_cells.as_slice());
        proof {
            assert(ages_of(ages@) =~= old(self)@.next().ages);
        }
        self.marked = Field::with_size(self.field.rows, self.field.columns);
        self.field = Field::new(new_cells, self.field.rows, self.field.columns);
        self.ages = Field::new(ages, self.field.rows, self.field.columns);
        self.iterations += 1;
        proof {
            assert(self@.marked =~= old(self)@.next().marked);
        }
    }

    /// Marks the cells under `pattern` with its upper left cell in row `r`
    /// and column `c`: each of them is marked if and only if it is alive.
    fn mark_at(&mut self, pattern: &Field<bool>, r: usize, c: usize)
        requires
            old(self).wf(),
            pattern.wf(),
            r < old(self)@.rows,
            c < old(self)@.columns,
        ensures
            final(self).wf(),
            final(self)@.rows == old(self)@.rows,
            final(self)@.columns == old(self)@.columns,
            final(self)@.alive == old(self)@.alive,
            final(self)@.ages == old(self)@.ages,
            final(self)@.rule == old(self)@.rule,
            final(self)@.generation == old(self)@.generation,
            final(self)@.marked.len() == old(self)@.marked.len(),
            forall|i: int|
                0 <= i < old(self)@.marked.len() ==> #[trigger] final(self)@.marked[i] == if under(
                    old(self)@.rows,
                    old(self)@.columns,
                    r as int,
                    c as int,
                    pattern.rows as int,
                    pattern.columns as int,
                    i,
                ) {
                    old(self)@.alive[i]
                } else {
                    old(self)@.marked[i]
                },
    {
        let ghost state = self@;
        let rows: usize = self.field.rows;
        let columns: usize = self.field.columns;
        let mut rr: usize = 0;
        let mut rrr: usize = r;
        proof {
            crate::torus::lemma_wrap_none(r as int, rows as int);
            self.field.lemma_size_fits();
        }
        while rr < pattern.rows
            invariant
                rr <= pattern.rows,
                self.wf(),
                pattern.wf(),
                rows == state.rows,
                columns == state.columns,
                r < rows,
                c < columns,
                rows * columns <= usize::MAX,
                state == old(self)@,
                self@.rows == state.rows,
                self@.columns == state.columns,
                self@.alive == state.alive,
                self@.ages == state.ages,
                self@.rule == state.rule,
                self@.generation == state.generation,
                self@.marked.len() == state.marked.len(),
                rrr < rows,
                rrr == wrap_spec(r as int, rr as int, rows as int),
                forall|i: int|
                    0 <= i < state.marked.len() ==> #[trigger] self@.marked[i] == if under_part(state.rows, state.columns, r as int,
                        c as int,
                        rr as int,
                        0,
                        pattern.columns as int,
                        i,
                    ) {
                        state.alive[i]
                    } else {
                        state.marked[i]
                    },
            decreases pattern.rows - rr,
        {
            let mut cc: usize = 0;
            let mut ccc: usize = c;
            proof {
                crate::torus::lemma_wrap_none(c as int, columns as int);
            }
            while cc < pattern.columns
                invariant
                    cc <= pattern.columns,
                    rr < pattern.rows,
                    self.wf(),
                    pattern.wf(),
                    rows == state.rows,
                    columns == state.columns,
                    r < rows,
                    c < columns,
                    rows * columns <= usize::MAX,
                    state == old(self)@,
                    self@.rows == state.rows,
                    self@.columns == state.columns,
                    self@.alive == state.alive,
                    self@.ages == state.ages,
                    self@.rule == state.rule,
                    self@.generation == state.generation,
                    self@.marked.len() == state.marked.len(),
                    rrr < rows,
                    rrr == wrap_spec(r as int, rr as int, rows as int),
                    ccc < columns,
                    ccc == wrap_spec(c as int, cc as int, columns as int),
                    forall|i: int|
                        0 <= i < state.marked.len() ==> #[trigger] self@.marked[i]
                            == if under_part(state.rows, state.columns, r as int,
                            c as int,
                            rr as int,
                            cc as int,
                            pattern.columns as int,
                            i,
                        ) {
                            state.alive[i]
                        } else {
                            state.marked[i]
                        },
                decreases pattern.columns - cc,
            {
                proof {
                    lemma_cell_index(rrr as int, ccc as int, rows as int, columns as int);
                }
                let idx: usize = rrr * columns + ccc;
                let ghost before = self@.marked;
                let alive = self.field.cells[idx];
                self.marked.cells[idx] = alive;
                proof {
                    assert(footprint_index(state.rows, state.columns, r as int, c as int, rr as int, cc as int)
                        == idx);
                    assert forall|i: int| 0 <= i < state.marked.len() implies #[trigger] self@.marked[i]
                        == if under_part(state.rows, state.columns, r as int,
                        c as int,
                        rr as int,
                        cc + 1,
                        pattern.columns as int,
                        i,
                    ) {
                        state.alive[i]
                    } else {
                        state.marked[i]
                    } by {
                        if i != idx {
                            assert(self@.marked[i] == before[i]);
                            assert(under_part(state.rows, state.columns, r as int,
                                c as int,
                                rr as int,
                                cc + 1,
                                pattern.columns as int,
                                i,
                            ) == under_part(state.rows, state.columns, r as int,
                                c as int,
                                rr as int,
                                cc as int,
                                pattern.columns as int,
                                i,
                            ));
                        }
                    }
                    crate::torus::lemma_wrap_step(c as int, cc as int, columns as int);
                }
                ccc = wrap(ccc, 1, columns);
                cc += 1;
            }
            proof {
                crate::torus::lemma_wrap_step(r as int, rr as int, rows as int);
                assert forall|i: int| 0 <= i < state.marked.len() implies under_part(state.rows, state.columns, r as int,
                    c as int,
                    rr as int,
                    pattern.columns as int,
                    pattern.columns as int,
                    i,
                ) == under_part(state.rows, state.columns, r as int, c as int, rr + 1, 0, pattern.columns as int, i) by {}
            }
            rrr = wrap(rrr, 1, rows);
            rr += 1;
        }
        proof {
            assert forall|i: int| 0 <= i < state.marked.len() implies under_part(state.rows, state.columns, r as int,
                c as int,
                pattern.rows as int,
                0,
                pattern.columns as int,
                i,
            ) == under(state.rows, state.columns, r as int, c as int, pattern.rows as int, pattern.columns as int, i) by {}
        }
    }

    /// Marks every match of `pattern` on the live grid: each cell under a
    /// match is marked if and only if it is alive.  The live grid, the ages
    /// and the generation stay as they are.
    pub fn mark_pattern(&mut self, pattern: &Field<bool>)
        requires
            old(self).wf(),
            pattern.wf(),
        ensures
            final(self).wf(),
            final(self)@.wf(),
            final(self)@ == old(self)@.mark(pattern),
    {
        let ghost state = self@;
        let matches = self.field.find_pattern(pattern);
        let ghost anchors = self.field.anchors();
        let ghost test = self.field.match_test(pattern);
        let mut k: usize = 0;
        while k < matches.len()
            invariant
                k <= matches@.len(),
                self.wf(),
                pattern.wf(),
                state == old(self)@,
                anchors == old(self).field.anchors(),
                test == old(self).field.match_test(pattern),
                old(self).wf(),
                matches@ == anchors.filter(test),
                self@.rows == state.rows,
                self@.columns == state.columns,
                self@.alive == state.alive,
                self@.ages == state.ages,
                self@.rule == state.rule,
                self@.generation == state.generation,
                self@.marked.len() == state.marked.len(),
                forall|i: int|
                    0 <= i < state.marked.len() ==> #[trigger] self@.marked[i] == if exists|m: int|
                        0 <= m < k && under(state.rows, state.columns, (#[trigger] matches@[m]).0 as int,
                            matches@[m].1 as int,
                            pattern.rows as int,
                            pattern.columns as int,
                            i,
                        ) {
                        state.alive[i]
                    } else {
                        state.marked[i]
                    },
            decreases matches@.len() - k,
        {
            let (r, c) = matches[k];
            proof {
                anchors.lemma_filter_contains_rev(test, (r, c));
                let j = choose|j: int| 0 <= j < anchors.len() && anchors[j] == (r, c);
                old(self).field.lemma_size_fits();
                lemma_index_cell(j, state.rows as int, state.columns as int);
            }
            let ghost before = self@.marked;
            self.mark_at(pattern, r, c);
            proof {
                assert forall|i: int| 0 <= i < state.marked.len() implies #[trigger] self@.marked[i]
                    == if exists|m: int|
                    0 <= m < k + 1 && under(state.rows, state.columns, (#[trigger] matches@[m]).0 as int,
                        matches@[m].1 as int,
                        pattern.rows as int,
                        pattern.columns as int,
                        i,
                    ) {
                    state.alive[i]
                } else {
                    state.marked[i]
                } by {
                    let here = under(state.rows, state.columns, matches@[k as int].0 as int,
                        matches@[k as int].1 as int,
                        pattern.rows as int,
                        pattern.columns as int,
                        i,
                    );
                    let earlier = exists|m: int|
                        0 <= m < k && under(state.rows, state.columns, (#[trigger] matches@[m]).0 as int,
                            matches@[m].1 as int,
                            pattern.rows as int,
                            pattern.columns as int,
                            i,
                        );
                    let now = exists|m: int|
                        0 <= m < k + 1 && under(state.rows, state.columns, (#[trigger] matches@[m]).0 as int,
                            matches@[m].1 as int,
                            pattern.rows as int,
                            pattern.columns as int,
                            i,
                        );
                    assert(now == (earlier || here));
                }
            }
            k += 1;
        }
        proof {
            old(self).field.lemma_size_fits();
            assert forall|i: int| 0 <= i < state.marked.len() implies state.covered(pattern, i)
                == exists|m: int|
                0 <= m < matches@.len() && under(state.rows, state.columns, (#[trigger] matches@[m]).0 as int,
                    matches@[m].1 as int,
                    pattern.rows as int,
                    pattern.columns as int,
                    i,
                ) by {
                if state.covered(pattern, i) {
                    let (r, c) = choose|r: int, c: int| #[trigger]
                        state.anchored(pattern, r, c) && under(state.rows, state.columns, r,
                            c,
                            pattern.rows as int,
                            pattern.columns as int,
                            i,
                        );
                    lemma_cell_index(r, c, state.rows as int, state.columns as int);
                    let j = cell_index(r, c, state.columns as int);
                    assert(anchors[j] == (r as usize, c as usize));
                    assert(test(anchors[j]));
                    anchors.lemma_filter_contains(test, j);
                    let m = choose|m: int| 0 <= m < matches@.len() && matches@[m] == anchors[j];
                    assert(under(state.rows, state.columns, matches@[m].0 as int,
                        matches@[m].1 as int,
                        pattern.rows as int,
                        pattern.columns as int,
                        i,
                    ));
                }
                if exists|m: int|
                    0 <= m < matches@.len() && under(state.rows, state.columns, (#[trigger] matches@[m]).0 as int,
                        matches@[m].1 as int,
                        pattern.rows as int,
                        pattern.columns as int,
                        i,
                    ) {
                    let m = choose|m: int|
                        0 <= m < matches@.len() && under(state.rows, state.columns, (#[trigger] matches@[m]).0 as int,
                            matches@[m].1 as int,
                            pattern.rows as int,
                            pattern.columns as int,
                            i,
                        );
                    anchors.lemma_filter_pred(test, m);
                    assert(anchors.filter(test).contains(matches@[m]));
                    anchors.lemma_filter_contains_rev(test, matches@[m]);
                    let j = choose|j: int| 0 <= j < anchors.len() && anchors[j] == matches@[m];
                    lemma_index_cell(j, state.rows as int, state.columns as int);
                    assert(state.anchored(pattern, matches@[m].0 as int, matches@[m].1 as int));
                }
            }
            assert(self@.marked =~= state.mark(pattern).marked);
        }
    }

    /// The colour escape of a cell or block.
    fn colour_of(marked: bool, age: u32) -> (colour: String)
        ensures
            colour@ == GameState::colour(marked, age as nat),
    {
        if marked {
            String::from_str("\x1B[38;5;1m")
        } else {
            colormap_gb(age)
        }
    }

    /// Whether the cell in row `r` and column `c` is alive, and its age;
    /// dead and 0 for a cell outside the grid.
    fn quarter(&self, r: usize, c: usize) -> (q: (bool, u32))
        requires
            self.wf(),
        ensures
            q.0 == self@.quarter_alive(r as int, c as int),
            q.1 == self@.quarter_age(r as int, c as int),
    {
        if r < self.field.rows && c < self.field.columns {
            proof {
                self.field.lemma_size_fits();
                lemma_cell_index(
                    r as int,
                    c as int,
                    self.field.rows as int,
                    self.field.columns as int,
                );
            }
            let idx: usize = r * self.field.columns + c;
            (self.field.cells[idx], self.ages.cells[idx])
        } else {
            (false, 0)
        }
    }

    /// The frame with one character for each cell.
    pub fn to_string(&self) -> (output: String)
        requires
            self.wf(),
        ensures
            output@ == self@.frame(),
    {
        let rows: usize = self.field.rows;
        let columns: usize = self.field.columns;
        let line = gfx_hline(columns);
        let mut output = String::new();
        output.append(gfx_pos1());
        output.append(line.as_str());
        output.append("\n");
        let ghost head = "\x1B[1;1H"@ + hline(columns as nat) + "\n"@;
        assert(output@ =~= head + self@.rows_text(0));
        proof {
            self.field.lemma_size_fits();
        }
        let mut current_colour = String::new();
        let mut r: usize = 0;
        while r < rows
            invariant
                r <= rows,
                self.wf(),
                rows == self@.rows,
                columns == self@.columns,
                rows * columns <= usize::MAX,
                output@ == head + self@.rows_text(r as int),
                current_colour@ == self@.colour_before(r as int, 0),
            decreases rows - r,
        {
            let ghost above = output@;
            let mut c: usize = 0;
            assert(output@ =~= above + self@.row_text(r as int, 0));
            while c < columns
                invariant
                    c <= columns,
                    r < rows,
                    self.wf(),
                    rows == self@.rows,
                    columns == self@.columns,
                    rows * columns <= usize::MAX,
                    output@ == above + self@.row_text(r as int, c as int),
                    current_colour@ == self@.colour_before(r as int, c as int),
                decreases columns - c,
            {
                proof {
                    lemma_cell_index(r as int, c as int, rows as int, columns as int);
                }
                let idx: usize = r * columns + c;
                let alive = self.field.cells[idx];
                let ghost before = output@;
                if alive {
                    let colour = Self::colour_of(self.marked.cells[idx], self.ages.cells[idx]);
                    if colour != current_colour {
                        output.append(colour.as_str());
                        current_colour = colour;
                    }
                }
                output.append(gfx_cell(alive));
                proof {
                    assert(output@ =~= before + self@.cell_text(r as int, c as int));
                    assert(output@ =~= above + self@.row_text(r as int, c + 1));
                }
                c += 1;
            }
            output.append("\n");
            proof {
                assert(output@ =~= head + self@.rows_text(r + 1));
            }
            r += 1;
        }
        output.append(line.as_str());
        output.append("\n");
        push_decimal(&mut output, self.iterations);
        proof {
            assert(output@ =~= self@.frame());
        }
        output
    }

    /// The frame with one character for each block of two by two cells.
    pub fn to_string_highres(&self) -> (output: String)
        requires
            self.wf(),
        ensures
            output@ == self@.frame_highres(),
    {
        let rows: usize = self.field.rows;
        let columns: usize = self.field.columns;
        let block_rows: usize = rows / 2 + rows % 2;
        let blocks: usize = columns / 2 + columns % 2;
        let line = gfx_hline_highres(columns);
        let mut output = String::new();
        output.append(gfx_pos1());
        output.append(line.as_str());
        output.append("\n");
        let ghost head = "\x1B[1;1H"@ + hline((columns / 2) as nat) + "\n"@;
        assert(output@ =~= head + self@.block_rows_text(0));
        proof {
            self.field.lemma_size_fits();
        }
        let mut current_colour = String::new();
        let mut i: usize = 0;
        while i < block_rows
            invariant
                i <= block_rows,
                self.wf(),
                rows == self@.rows,
                columns == self@.columns,
                block_rows == (rows + 1) / 2,
                blocks == self@.blocks(),
                rows * columns <= usize::MAX,
                output@ == head + self@.block_rows_text(i as int),
                current_colour@ == self@.block_colour_before(2 * i, 0),
            decreases block_rows - i,
        {
            let r: usize = 2 * i;
            let ghost above = output@;
            let mut k: usize = 0;
            assert(output@ =~= above + self@.block_row_text(r as int, 0));
            while k < blocks
                invariant
                    k <= blocks,
                    i < block_rows,
                    r == 2 * i,
                    r < rows,
                    self.wf(),
                    rows == self@.rows,
                    columns == self@.columns,
                    block_rows == (rows + 1) / 2,
                    blocks == self@.blocks(),
                    rows * columns <= usize::MAX,
                    output@ == above + self@.block_row_text(r as int, k as int),
                    current_colour@ == self@.block_colour_before(r as int, k as int),
                decreases blocks - k,
            {
                let c: usize = 2 * k;
                let (ul, age_ul) = self.quarter(r, c);
                let (ur, age_ur) = self.quarter(r, c + 1);
                let (bl, age_bl) = self.quarter(r + 1, c);
                let (br, age_br) = self.quarter(r + 1, c + 1);
                let ghost before = output@;
                if ul || ur || bl || br {
                    let age: u32 = ((age_ul as u64 + age_ur as u64 + age_bl as u64 + age_br as u64)
                        / 4) as u32;
                    proof {
                        lemma_cell_index(r as int, c as int, rows as int, columns as int);
                    }
                    let colour = Self::colour_of(self.marked.cells[r * columns + c], age);
                    if colour != current_colour {
                        output.append(colour.as_str());
                        current_colour = colour;
                    }
                }
                output.append(gfx_cell_highres(ul, ur, bl, br));
                proof {
                    assert(output@ =~= before + self@.block_text(r as int, k as int));
                    assert(output@ =~= above + self@.block_row_text(r as int, k + 1));
                }
                k += 1;
            }
            output.append("\n");
            proof {
                assert(output@ =~= head + self@.block_rows_text(i + 1));
            }
            i += 1;
        }
        output.append(line.as_str());
        output.append("\n");
        push_decimal(&mut output, self.iterations);
        proof {
            assert(output@ =~= self@.frame_highres());
        }
        output
    }
}

} // verus!
