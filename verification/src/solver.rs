//! The deduction state of a game: what each cell is known to hold, kept up to date as
//! clues are revealed.

use crate::bits::{bits, Bits, bits_get, bits_repeat, bits_set, max_bits};
use crate::board::{Around, Board, CellState};
use crate::cellbuf::{buffered, cellbuf_as_slice, cellbuf_new, cellbuf_push};
use crate::components::{
    closed, closed_at, clues_listed, described, exploring, fills, fresh, GraphSolution, grouped_at,
    groups_complete, groups_joined, groups_ok, groups_sound, grows, joined_from,
    lemma_clue_enclosed, lemma_done, lemma_group_added, lemma_group_from_search, lemma_groups_final,
    lemma_grows_trans, lemma_joined_added, lemma_link_start, lemma_link_step, lemma_listed_done,
    lemma_listed_grows, lemma_listed_take, lemma_open_list_skip, lemma_reaches_grows,
    lemma_rooted_step, lemma_start, lemma_take, lemma_tiles_bound, lemma_visit, link, linked,
    linked_at, marked, open_list, reaches, rooted, scanned_at, seen, unseen,
};
use crate::counting::{count_true, lemma_count_all, lemma_count_positive};
use crate::grid::{flat, Grid, GridCounters};
use crate::neighbor_iter::{
    adjacent, before, delta_col, delta_row, lemma_before_done, lemma_before_step, lemma_offsets,
    neighbor_inside, NeighborIterable,
};
use crate::propagation::{
    cell_after_mine, fresh_after_empty, fresh_after_mine, fresh_verdict, lemma_clue_le_open,
    lemma_drop, lemma_free_cells_shift, lemma_hidden_positive, lemma_queue_pop, lemma_queue_push,
    lemma_refines_same, lemma_refines_trans, lemma_settle_shape, lemma_settle_sound, lemma_settled,
    lemma_steps_refine, lemma_to_empty_shape, lemma_to_empty_sound, lemma_to_mine_shape,
    lemma_to_mine_sound, load, lowered, refines, same_frame, seed_tasks, settle_ready, shape, sound,
    step_drop, step_settle_around, step_to_empty, step_to_mine, Task, task, task_col, task_row,
    task_shape, task_true, UpdateAction,
};
use crate::revealing::{
    clue_placed, lemma_at_rest, lemma_known_le_layout, lemma_no_layout_added, lemma_placed_clued,
    lemma_placed_exact, lemma_placed_open_count, lemma_ready_shape, lemma_ready_sound,
    lemma_refines_clued, lemma_refines_free, lemma_revealed_chain, lists_open, ready_queue,
    revealed_from,
};
use crate::search::{Clue, find_solutions, holds, Topology};
use arrayvec::ArrayVec;
use std::collections::VecDeque;
use vstd::prelude::*;

verus! {

/// The two running counts that the deductions keep.
pub struct Counters {
    /// The number of cells that no revealed cell touches.
    pub unconstrained_cells: u32,
    /// The number of mines that are not yet known.
    pub hidden_mines: u32,
}

impl GridCounters<CellState> for Counters {
    open spec fn accepts(&self, from: &CellState, to: &CellState) -> bool {
        *from is Mine || {
            &&& *from is UnknownUnconstrained ==> self.unconstrained_cells > 0
            &&& *to is Mine ==> self.hidden_mines > 0
            &&& !(*to is UnknownUnconstrained)
        }
    }

    open spec fn absorbed(&self, from: &CellState, to: &CellState) -> Self {
        if *from is Mine {
            *self
        } else {
            Counters {
                unconstrained_cells: if *from is UnknownUnconstrained {
                    (self.unconstrained_cells - 1) as u32
                } else {
                    self.unconstrained_cells
                },
                hidden_mines: if *to is Mine {
                    (self.hidden_mines - 1) as u32
                } else {
                    self.hidden_mines
                },
            }
        }
    }

    fn notify_change(&mut self, from: &CellState, to: &CellState) {
        match *from {
            CellState::UnknownUnconstrained => {
                self.unconstrained_cells = self.unconstrained_cells - 1;
            },
            CellState::Mine => {
                // A known mine stays what it is.
                return ;
            },
            _ => (),
        }
        match *to {
            CellState::Mine => {
                self.hidden_mines = self.hidden_mines - 1;
            },
            _ => (),
        }
    }
}

/// What has been deduced of the board so far.
pub struct PartialSolution {
    pub(crate) grid: Grid<CellState, Counters>,
    pub(crate) graphs_solutions: Vec<GraphSolution>,
}

/// Adds a task to the queue unless the queue holds it already.
fn enqueue(queue: &mut VecDeque<Task>, t: Task)
    ensures
        final(queue)@ == if old(queue)@.contains(t) {
            old(queue)@
        } else {
            old(queue)@.push(t)
        },
{
    let mut i: usize = 0;
    while i < queue.len()
        invariant
            queue@ == old(queue)@,
            i <= queue@.len(),
            forall|j: int| 0 <= j < i ==> queue@[j] != t,
        decreases queue@.len() - i,
    {
        let cur: Task = queue[i];
        if cur.0.0 == t.0.0 && cur.0.1 == t.0.1 && cur.1 == t.1 {
            assert(queue@[i as int] == t);
            return ;
        }
        i = i + 1;
    }
    queue.push_back(t);
}

/// Adds the same action for each of the cells, skipping what the queue holds already.
fn enqueue_all(queue: &mut VecDeque<Task>, cells: &[(u16, u16)], action: UpdateAction)
    requires
        old(queue)@.no_duplicates(),
    ensures
        final(queue)@.no_duplicates(),
        forall|t: Task| #[trigger]
            final(queue)@.contains(t) <==> old(queue)@.contains(t) || (t.1 == action
                && cells@.contains(t.0)),
        load(final(queue)@) <= load(old(queue)@) + 9 * cells@.len(),
        action == UpdateAction::ToMine || action == UpdateAction::ToEmpty ==> load(final(queue)@)
            <= load(old(queue)@) + cells@.len(),
{
    let mut i: usize = 0;
    while i < cells.len()
        invariant
            i <= cells@.len(),
            queue@.no_duplicates(),
            forall|t: Task| #[trigger]
                queue@.contains(t) <==> old(queue)@.contains(t) || (t.1 == action && exists|j: int|
                    0 <= j < i && cells@[j] == t.0),
            load(queue@) <= load(old(queue)@) + 9 * i,
            action == UpdateAction::ToMine || action == UpdateAction::ToEmpty ==> load(queue@)
                <= load(old(queue)@) + i,
        decreases cells@.len() - i,
    {
        let ghost before = queue@;
        let t: Task = (cells[i], action);
        enqueue(queue, t);
        proof {
            lemma_queue_push(before, t);
            assert forall|x: Task| #[trigger]
                queue@.contains(x) <==> old(queue)@.contains(x) || (x.1 == action && exists|j: int|
                    0 <= j < i + 1 && cells@[j] == x.0) by {
                if x.1 == action && exists|j: int| 0 <= j < i + 1 && cells@[j] == x.0 {
                    let j = choose|j: int| 0 <= j < i + 1 && cells@[j] == x.0;
                    if j == i {
                        assert(x == t);
                    }
                }
                if x == t {
                    assert(cells@[i as int] == x.0);
                }
            }
        }
        i = i + 1;
    }
}

impl NeighborIterable for PartialSolution {
    closed spec fn board_width(&self) -> u16 {
        self.grid.spec_width()
    }

    closed spec fn board_height(&self) -> u16 {
        self.grid.spec_height()
    }

    fn width(&self) -> u16 {
        self.grid.width()
    }

    fn height(&self) -> u16 {
        self.grid.height()
    }
}

impl PartialSolution {
    /// The deduction state as a mathematical value.
    pub closed spec fn board(&self) -> Board {
        Board {
            width: self.grid.spec_width() as int,
            height: self.grid.spec_height() as int,
            cells: self.grid.cells(),
        }
    }

    /// The two running counts.
    pub closed spec fn tally(&self) -> Counters {
        *self.grid.spec_counters()
    }

    /// The grid holds as many cells as its dimensions say.
    pub closed spec fn grid_ok(&self) -> bool {
        self.grid.wf()
    }

    /// The number of mines that are not yet known, as counted.
    pub open spec fn hidden_mines(&self) -> int {
        self.tally().hidden_mines as int
    }

    /// The number of cells that no revealed cell touches, as counted.
    pub open spec fn free_pool(&self) -> int {
        self.tally().unconstrained_cells as int
    }

    /// The state between two reveals: the deductions have come to rest, and the count of
    /// free cells is right.
    pub open spec fn wf(&self) -> bool {
        &&& self.grid_ok()
        &&& self.board().structural()
        &&& self.board().stable()
        &&& self.board().clued()
        &&& self.free_pool() == self.board().free_cells()
        &&& self.board().width * self.board().height <= max_bits()
    }

    /// Whether the mine layout agrees with all that is known, the number of mines included.
    pub open spec fn admits(&self, layout: Seq<bool>) -> bool {
        &&& self.board().consistent(layout)
        &&& self.hidden_mines() == self.board().hidden(layout)
    }

    /// Whether the layout agrees with all that is known and with a clue of `clue` mines
    /// around the cell `(row, col)`, which it leaves empty.
    pub open spec fn fits(&self, layout: Seq<bool>, row: int, col: int, clue: int) -> bool {
        &&& self.admits(layout)
        &&& !self.board().mined(layout, row, col)
        &&& clue == self.board().mines_around(layout, row, col)
    }

    /// The groups of open cells found when they were last looked for.
    pub closed spec fn components(&self) -> Seq<GraphSolution> {
        self.graphs_solutions@
    }

    /// A board of `width` by `height` cells of which nothing is known, with `mine_count`
    /// mines to find.
    pub fn new(width: u16, height: u16, mine_count: u32) -> (sol: Self)
        requires
            width as int * height as int <= max_bits(),
        ensures
            sol.wf(),
            sol.board().width == width,
            sol.board().height == height,
            sol.board().cells == Seq::new(
                (width as int * height as int) as nat,
                |i: int| CellState::UnknownUnconstrained,
            ),
            sol.hidden_mines() == mine_count,
            sol.components().len() == 0,
            forall|l: Seq<bool>| #[trigger]
                sol.admits(l) <==> l.len() == width as int * height as int && count_true(l)
                    == mine_count,
    {
        assert(0 <= width as int * height as int <= 0xffff * 0xffff) by (nonlinear_arith)
            requires
                0 <= width <= 0xffff,
                0 <= height <= 0xffff,
        ;
        let counters = Counters {
            unconstrained_cells: (width as u32) * (height as u32),
            hidden_mines: mine_count,
        };
        let sol = PartialSolution {
            grid: Grid::new(width, height, counters, CellState::UnknownUnconstrained),
            graphs_solutions: Vec::new(),
        };
        proof {
            let b = sol.board();
            sol.grid.lemma_len();
            lemma_count_all(b.free_flags());
            assert forall|row: int, col: int| b.inside(row, col) implies b.at(row, col)
                is UnknownUnconstrained by {
                b.lemma_place(row, col);
            }
            assert forall|row: int, col: int| b.inside(row, col) implies #[trigger] b.structural_at(
                row,
                col,
            ) by {
                assert(b.at(row, col) is UnknownUnconstrained);
            }
            assert forall|row: int, col: int| b.inside(row, col) implies #[trigger] b.stable_at(
                row,
                col,
            ) by {
                assert(b.at(row, col) is UnknownUnconstrained);
            }
            assert forall|row: int, col: int| b.inside(row, col) implies #[trigger] b.clued_at(
                row,
                col,
            ) by {
                assert(b.at(row, col) is UnknownUnconstrained);
            }
            assert forall|l: Seq<bool>| #[trigger]
                sol.admits(l) <==> l.len() == width as int * height as int && count_true(l)
                    == mine_count by {
                if l.len() == b.cells.len() {
                    assert(b.hidden_flags(l) =~= l);
                }
            }
        }
        sol
    }

    /// What the board, the counts and the groups are in terms of the fields.
    pub(crate) proof fn lemma_view(&self)
        ensures
            self.board() == (Board {
                width: self.grid.spec_width() as int,
                height: self.grid.spec_height() as int,
                cells: self.grid.cells(),
            }),
            self.tally() == *self.grid.spec_counters(),
            self.grid_ok() == self.grid.wf(),
            self.components() == self.graphs_solutions@,
    {
    }

    /// A clue counts the mines that a layout that agrees with the board puts on its open
    /// neighbors: a number from zero to eight, and no more than it has open neighbors.
    pub proof fn lemma_clue_counts(&self, layout: Seq<bool>, row: int, col: int)
        requires
            self.wf(),
            self.admits(layout),
            self.board().inside(row, col),
            self.board().at(row, col) is Clue,
        ensures
            self.board().at(row, col) matches CellState::Clue(n) && n == self.board().open_mines(
                layout,
                row,
                col,
            ) && 0 <= n <= self.board().open_count(row, col) <= 8 && self.board().around(
                Seq::empty(),
                Around::Free,
                row,
                col,
            ) == 0,
    {
        let b = self.board();
        assert(b.exact_at(layout, row, col));
        assert(b.structural_at(row, col));
        b.lemma_open_mines_le(layout, row, col);
        b.lemma_around_bounds(Seq::empty(), Around::Open, row, col);
    }

    /// What is known of the cell at `(row, col)`.
    pub fn state(&self, row: u16, col: u16) -> (state: CellState)
        requires
            self.grid_ok(),
            self.board().inside(row as int, col as int),
        ensures
            state == self.board().at(row as int, col as int),
    {
        *self.grid.get(row, col)
    }

    /// The number of mines that are not yet known.
    pub fn hidden_mine_count(&self) -> (count: u32)
        ensures
            count == self.hidden_mines(),
    {
        self.grid.counters().hidden_mines
    }

    /// The number of cells that no revealed cell touches.
    pub fn free_cell_count(&self) -> (count: u32)
        ensures
            count == self.free_pool(),
    {
        self.grid.counters().unconstrained_cells
    }

    /// The number of groups of open cells found when they were last looked for.
    pub fn group_count(&self) -> (count: usize)
        ensures
            count == self.components().len(),
    {
        self.graphs_solutions.len()
    }

    /// The tiles of the group numbered `g`, in the order of their numbers.
    pub fn group_tiles(&self, g: usize) -> (tiles: Vec<(u16, u16)>)
        requires
            g < self.components().len(),
        ensures
            tiles@ == self.components()[g as int].tiles@,
    {
        let source = &self.graphs_solutions[g].tiles;
        let mut tiles: Vec<(u16, u16)> = Vec::new();
        let mut j: usize = 0;
        while j < source.len()
            invariant
                j <= source@.len(),
                tiles@ == source@.take(j as int),
            decreases source@.len() - j,
        {
            tiles.push(source[j]);
            proof {
                assert(tiles@ =~= source@.take(j + 1));
            }
            j = j + 1;
        }
        proof {
            assert(source@.take(j as int) =~= source@);
        }
        tiles
    }

    /// The alternatives of the group numbered `g`: each says of each tile, in order,
    /// whether it holds a mine.
    pub fn group_alternatives(&self, g: usize) -> (alternatives: Vec<Vec<bool>>)
        requires
            g < self.components().len(),
        ensures
            alternatives@.len() == self.components()[g as int].alternatives@.len(),
            forall|a: int|
                0 <= a < alternatives@.len() ==> (#[trigger] alternatives@[a])@ == bits(
                    self.components()[g as int].alternatives@[a],
                ),
    {
        let source = &self.graphs_solutions[g].alternatives;
        let mut alternatives: Vec<Vec<bool>> = Vec::new();
        let mut a: usize = 0;
        while a < source.len()
            invariant
                a <= source@.len(),
                alternatives@.len() == a,
                forall|k: int|
                    0 <= k < a ==> (#[trigger] alternatives@[k])@ == bits(source@[k]),
            decreases source@.len() - a,
        {
            alternatives.push(source[a].to_vec());
            a = a + 1;
        }
        alternatives
    }

    /// A grid in order gives a board in order, of the same dimensions.
    pub proof fn lemma_board(&self)
        requires
            self.grid_ok(),
        ensures
            self.board().wf(),
            self.board().width == self.board_width(),
            self.board().height == self.board_height(),
    {
        self.grid.lemma_len();
    }

    /// The open neighbors of a cell, in the order of the offsets.
    fn open_neighbors(&self, row: u16, col: u16) -> (buf: ArrayVec<(u16, u16), 8>)
        requires
            self.grid_ok(),
            self.board().inside(row as int, col as int),
        ensures
            buffered(buf).len() == self.board().open_count(row as int, col as int),
            buffered(buf) == open_list(self.board(), row as int, col as int, 8),
            buffered(buf).no_duplicates(),
            forall|i: int|
                0 <= i < buffered(buf).len() ==> {
                    let cell = #[trigger] buffered(buf)[i];
                    &&& self.board().inside(cell.0 as int, cell.1 as int)
                    &&& adjacent(row as int, col as int, cell.0 as int, cell.1 as int)
                    &&& self.board().at(cell.0 as int, cell.1 as int) is UnknownConstrained
                },
            forall|r: int, c: int|
                self.board().inside(r, c) && adjacent(row as int, col as int, r, c)
                    && #[trigger] self.board().at(r, c) is UnknownConstrained ==> buffered(
                    buf,
                ).contains((r as u16, c as u16)),
    {
        let mut buf = cellbuf_new();
        let mut it = self.neighbors_of(row, col);
        let ghost b = self.board();
        let ghost r0 = row as int;
        let ghost c0 = col as int;
        proof {
            self.lemma_board();
        }
        loop
            invariant
                self.grid_ok(),
                b == self.board(),
                b.wf(),
                b.inside(r0, c0),
                r0 == row,
                c0 == col,
                it.board_width() == b.width,
                it.board_height() == b.height,
                it.center_row() == r0,
                it.center_col() == c0,
                0 <= it.cursor() <= 8,
                buffered(buf).len() == b.around_upto(Seq::empty(), Around::Open, r0, c0, it.cursor()),
                buffered(buf) == open_list(b, r0, c0, it.cursor()),
                buffered(buf).no_duplicates(),
                forall|i: int|
                    0 <= i < buffered(buf).len() ==> {
                        let cell = #[trigger] buffered(buf)[i];
                        &&& b.inside(cell.0 as int, cell.1 as int)
                        &&& before(r0, c0, it.cursor(), cell.0 as int, cell.1 as int)
                        &&& b.at(cell.0 as int, cell.1 as int) is UnknownConstrained
                    },
                forall|r: int, c: int|
                    b.inside(r, c) && before(r0, c0, it.cursor(), r, c) && #[trigger] b.at(r, c)
                        is UnknownConstrained ==> buffered(buf).contains((r as u16, c as u16)),
            ensures
                it.cursor() == 8,
            decreases 8 - it.cursor(),
        {
            let ghost prev = it.cursor();
            let ghost items = buffered(buf);
            match it.next() {
                None => {
                    proof {
                        assert forall|r: int, c: int|
                            b.inside(r, c) && before(r0, c0, it.cursor(), r, c) && #[trigger] b.at(
                                r,
                                c,
                            ) is UnknownConstrained implies buffered(buf).contains(
                            (r as u16, c as u16),
                        ) by {
                            lemma_before_done(b.width, b.height, r0, c0, prev, r, c);
                        }
                        if prev < 8 {
                            lemma_open_list_skip(b, r0, c0, prev, 8);
                        }
                    }
                    break ;
                },
                Some((nr, nc)) => {
                    let ghost k = it.cursor() - 1;
                    let open = match *self.grid.get(nr, nc) {
                        CellState::UnknownConstrained => true,
                        _ => false,
                    };
                    if open {
                        cellbuf_push(&mut buf, (nr, nc));
                    }
                    proof {
                        lemma_open_list_skip(b, r0, c0, prev, k);
                        assert(b.hit(Seq::empty(), Around::Open, r0, c0, k) == open);
                        assert forall|i: int| 0 <= i < buffered(buf).len() implies {
                            let cell = #[trigger] buffered(buf)[i];
                            &&& b.inside(cell.0 as int, cell.1 as int)
                            &&& before(r0, c0, it.cursor(), cell.0 as int, cell.1 as int)
                            &&& b.at(cell.0 as int, cell.1 as int) is UnknownConstrained
                        } by {
                            let cell = buffered(buf)[i];
                            if i < items.len() {
                                assert(cell == items[i]);
                            }
                            lemma_before_step(
                                b.width,
                                b.height,
                                r0,
                                c0,
                                prev,
                                k,
                                cell.0 as int,
                                cell.1 as int,
                            );
                        }
                        assert forall|r: int, c: int|
                            b.inside(r, c) && before(r0, c0, it.cursor(), r, c) && #[trigger] b.at(
                                r,
                                c,
                            ) is UnknownConstrained implies buffered(buf).contains(
                            (r as u16, c as u16),
                        ) by {
                            lemma_before_step(b.width, b.height, r0, c0, prev, k, r, c);
                            if before(r0, c0, prev, r, c) {
                                let i = choose|i: int|
                                    0 <= i < items.len() && items[i] == (r as u16, c as u16);
                                assert(buffered(buf)[i] == (r as u16, c as u16));
                            } else {
                                assert(buffered(buf)[items.len() as int] == (nr, nc));
                            }
                        }
                        if open {
                            assert forall|i: int, j: int|
                                0 <= i < buffered(buf).len() && 0 <= j < buffered(buf).len() && i
                                    != j implies buffered(buf)[i] != buffered(buf)[j] by {
                                if i < items.len() && j < items.len() {
                                    assert(items[i] != items[j]);
                                } else {
                                    let other = if i < items.len() {
                                        i
                                    } else {
                                        j
                                    };
                                    let cell = items[other];
                                    lemma_offsets(r0, c0, cell.0 as int, cell.1 as int);
                                    assert(before(r0, c0, prev, cell.0 as int, cell.1 as int));
                                }
                            }
                        }
                    }
                },
            }
        }
        proof {
            assert forall|i: int| 0 <= i < buffered(buf).len() implies adjacent(
                r0,
                c0,
                (#[trigger] buffered(buf)[i]).0 as int,
                buffered(buf)[i].1 as int,
            ) by {}
        }
        buf
    }

    /// The step for the task `ToMine`: marks the cell a mine, lowers each positive clue
    /// around it, and queues those that reach zero.
    fn mark_mine(&mut self, queue: &mut VecDeque<Task>, row: u16, col: u16)
        requires
            old(self).grid_ok(),
            old(self).board().inside(row as int, col as int),
            old(self).board().at(row as int, col as int) is UnknownConstrained,
            old(self).hidden_mines() > 0,
            old(queue)@.no_duplicates(),
        ensures
            final(self).grid_ok(),
            same_frame(old(self).board(), final(self).board()),
            forall|r: int, c: int|
                old(self).board().inside(r, c) ==> #[trigger] final(self).board().at(r, c)
                    == cell_after_mine(old(self).board(), row as int, col as int, r, c),
            final(self).tally() == (Counters {
                hidden_mines: (old(self).tally().hidden_mines - 1) as u32,
                ..old(self).tally()
            }),
            final(self).graphs_solutions == old(self).graphs_solutions,
            final(queue)@.no_duplicates(),
            forall|t: Task| #[trigger]
                final(queue)@.contains(t) <==> old(queue)@.contains(t) || fresh_after_mine(
                    old(self).board(),
                    row as int,
                    col as int,
                    t,
                ),
            load(final(queue)@) <= load(old(queue)@) + 72,
    {
        let ghost b0 = self.board();
        let ghost r0 = row as int;
        let ghost c0 = col as int;
        let ghost q0 = queue@;
        proof {
            self.lemma_board();
            b0.lemma_put(r0, c0, CellState::Mine);
        }
        self.grid.set(row, col, CellState::Mine);
        let mut it = self.neighbors_of(row, col);
        loop
            invariant
                self.grid_ok(),
                b0.wf(),
                b0.inside(r0, c0),
                r0 == row,
                c0 == col,
                same_frame(b0, self.board()),
                self.graphs_solutions == old(self).graphs_solutions,
                self.tally() == (Counters {
                    hidden_mines: (old(self).tally().hidden_mines - 1) as u32,
                    ..old(self).tally()
                }),
                it.board_width() == b0.width,
                it.board_height() == b0.height,
                it.center_row() == r0,
                it.center_col() == c0,
                0 <= it.cursor() <= 8,
                forall|r: int, c: int|
                    b0.inside(r, c) ==> #[trigger] self.board().at(r, c) == if r == r0 && c == c0 {
                        CellState::Mine
                    } else if before(r0, c0, it.cursor(), r, c) {
                        lowered(b0.at(r, c))
                    } else {
                        b0.at(r, c)
                    },
                queue@.no_duplicates(),
                forall|t: Task| #[trigger]
                    queue@.contains(t) <==> q0.contains(t) || (fresh_after_mine(b0, r0, c0, t)
                        && before(r0, c0, it.cursor(), task_row(t), task_col(t))),
                load(queue@) <= load(q0) + 9 * it.cursor(),
            ensures
                it.cursor() == 8,
            decreases 8 - it.cursor(),
        {
            let ghost prev = it.cursor();
            let ghost b_prev = self.board();
            let ghost q_prev = queue@;
            match it.next() {
                None => {
                    proof {
                        assert forall|r: int, c: int| b0.inside(r, c) implies (before(
                            r0,
                            c0,
                            it.cursor(),
                            r,
                            c,
                        ) <==> before(r0, c0, prev, r, c)) by {
                            lemma_before_done(b0.width, b0.height, r0, c0, prev, r, c);
                            lemma_before_done(b0.width, b0.height, r0, c0, it.cursor(), r, c);
                        }
                    }
                    break ;
                },
                Some((nr, nc)) => {
                    let ghost k = it.cursor() - 1;
                    let state = *self.grid.get(nr, nc);
                    proof {
                        assert(b_prev.at(nr as int, nc as int) == b0.at(nr as int, nc as int)) by {
                            lemma_offsets(r0, c0, nr as int, nc as int);
                        }
                        self.lemma_board();
                    }
                    match state {
                        CellState::Clue(val) => {
                            if val > 0 {
                                let lower: u8 = val - 1;
                                if lower == 0 {
                                    enqueue(queue, ((nr, nc), UpdateAction::CheckIfClueFindEmpties));
                                }
                                proof {
                                    b_prev.lemma_put(
                                        nr as int,
                                        nc as int,
                                        CellState::Clue(lower),
                                    );
                                }
                                self.grid.set(nr, nc, CellState::Clue(lower));
                            }
                        },
                        _ => (),
                    }
                    proof {
                        let me = ((nr, nc), UpdateAction::CheckIfClueFindEmpties);
                        lemma_queue_push(q_prev, me);
                        assert forall|r: int, c: int| b0.inside(r, c) implies #[trigger] self.board().at(
                            r,
                            c,
                        ) == if r == r0 && c == c0 {
                            CellState::Mine
                        } else if before(r0, c0, it.cursor(), r, c) {
                            lowered(b0.at(r, c))
                        } else {
                            b0.at(r, c)
                        } by {
                            lemma_before_step(b0.width, b0.height, r0, c0, prev, k, r, c);
                            lemma_offsets(r0, c0, r, c);
                        }
                        assert forall|t: Task| #[trigger]
                            queue@.contains(t) <==> q0.contains(t) || (fresh_after_mine(
                                b0,
                                r0,
                                c0,
                                t,
                            ) && before(r0, c0, it.cursor(), task_row(t), task_col(t))) by {
                            if b0.inside(task_row(t), task_col(t)) {
                                lemma_before_step(
                                    b0.width,
                                    b0.height,
                                    r0,
                                    c0,
                                    prev,
                                    k,
                                    task_row(t),
                                    task_col(t),
                                );
                            }
                            lemma_offsets(r0, c0, task_row(t), task_col(t));
                        }
                    }
                },
            }
        }
        proof {
            assert forall|r: int, c: int| b0.inside(r, c) implies #[trigger] self.board().at(r, c)
                == cell_after_mine(b0, r0, c0, r, c) by {
                lemma_offsets(r0, c0, r, c);
            }
            assert forall|t: Task| #[trigger]
                queue@.contains(t) <==> q0.contains(t) || fresh_after_mine(b0, r0, c0, t) by {
                lemma_offsets(r0, c0, task_row(t), task_col(t));
            }
        }
    }

    /// The step for the task `ToEmpty`: marks the cell empty and queues each positive clue
    /// around it.
    fn mark_empty(&mut self, queue: &mut VecDeque<Task>, row: u16, col: u16)
        requires
            old(self).grid_ok(),
            old(self).board().inside(row as int, col as int),
            old(self).board().at(row as int, col as int) is UnknownConstrained,
            old(queue)@.no_duplicates(),
        ensures
            final(self).grid_ok(),
            same_frame(old(self).board(), final(self).board()),
            final(self).board() == old(self).board().put(row as int, col as int, CellState::Empty),
            final(self).tally() == old(self).tally(),
            final(self).graphs_solutions == old(self).graphs_solutions,
            final(queue)@.no_duplicates(),
            forall|t: Task| #[trigger]
                final(queue)@.contains(t) <==> old(queue)@.contains(t) || fresh_after_empty(
                    old(self).board(),
                    row as int,
                    col as int,
                    t,
                ),
            load(final(queue)@) <= load(old(queue)@) + 72,
    {
        let ghost b0 = self.board();
        let ghost r0 = row as int;
        let ghost c0 = col as int;
        let ghost q0 = queue@;
        proof {
            self.lemma_board();
            b0.lemma_put(r0, c0, CellState::Empty);
        }
        self.grid.set(row, col, CellState::Empty);
        let ghost b1 = self.board();
        let mut it = self.neighbors_of(row, col);
        loop
            invariant
                self.grid_ok(),
                b0.wf(),
                b0.inside(r0, c0),
                r0 == row,
                c0 == col,
                b1 == b0.put(r0, c0, CellState::Empty),
                self.board() == b1,
                same_frame(b0, b1),
                forall|r: int, c: int|
                    b0.inside(r, c) && !(r == r0 && c == c0) ==> #[trigger] b1.at(r, c) == b0.at(
                        r,
                        c,
                    ),
                self.graphs_solutions == old(self).graphs_solutions,
                self.tally() == old(self).tally(),
                it.board_width() == b0.width,
                it.board_height() == b0.height,
                it.center_row() == r0,
                it.center_col() == c0,
                0 <= it.cursor() <= 8,
                queue@.no_duplicates(),
                forall|t: Task| #[trigger]
                    queue@.contains(t) <==> q0.contains(t) || (fresh_after_empty(b0, r0, c0, t)
                        && before(r0, c0, it.cursor(), task_row(t), task_col(t))),
                load(queue@) <= load(q0) + 9 * it.cursor(),
            ensures
                it.cursor() == 8,
            decreases 8 - it.cursor(),
        {
            let ghost prev = it.cursor();
            let ghost q_prev = queue@;
            match it.next() {
                None => {
                    proof {
                        assert forall|r: int, c: int| b0.inside(r, c) implies (before(
                            r0,
                            c0,
                            it.cursor(),
                            r,
                            c,
                        ) <==> before(r0, c0, prev, r, c)) by {
                            lemma_before_done(b0.width, b0.height, r0, c0, prev, r, c);
                            lemma_before_done(b0.width, b0.height, r0, c0, it.cursor(), r, c);
                        }
                    }
                    break ;
                },
                Some((nr, nc)) => {
                    let ghost k = it.cursor() - 1;
                    let state = *self.grid.get(nr, nc);
                    proof {
                        lemma_offsets(r0, c0, nr as int, nc as int);
                        assert(b1.at(nr as int, nc as int) == b0.at(nr as int, nc as int));
                        assert(state == b0.at(nr as int, nc as int));
                    }
                    match state {
                        CellState::Clue(val) => {
                            if val > 0 {
                                enqueue(queue, ((nr, nc), UpdateAction::CheckIfClueFindMines));
                            }
                        },
                        _ => (),
                    }
                    proof {
                        let me = ((nr, nc), UpdateAction::CheckIfClueFindMines);
                        lemma_queue_push(q_prev, me);
                        assert forall|t: Task| #[trigger]
                            queue@.contains(t) <==> q0.contains(t) || (fresh_after_empty(
                                b0,
                                r0,
                                c0,
                                t,
                            ) && before(r0, c0, it.cursor(), task_row(t), task_col(t))) by {
                            if b0.inside(task_row(t), task_col(t)) {
                                lemma_before_step(
                                    b0.width,
                                    b0.height,
                                    r0,
                                    c0,
                                    prev,
                                    k,
                                    task_row(t),
                                    task_col(t),
                                );
                            }
                            lemma_offsets(r0, c0, task_row(t), task_col(t));
                        }
                    }
                },
            }
        }
        proof {
            assert forall|t: Task| #[trigger]
                queue@.contains(t) <==> q0.contains(t) || fresh_after_empty(b0, r0, c0, t) by {
                lemma_offsets(r0, c0, task_row(t), task_col(t));
            }
        }
    }

    /// Draws every conclusion that follows from the seeds: each seed cell is settled as
    /// `action` says, and what follows from that is settled in turn, breadth first, until
    /// no clue is left from which a neighbor's content follows at once.
    fn breadth_first_update(&mut self, action: UpdateAction, seed: &[(u16, u16)])
        requires
            old(self).grid_ok(),
            action == UpdateAction::ToMine || action == UpdateAction::ToEmpty,
            seed@.no_duplicates(),
            shape(old(self).board(), seed_tasks(seed@, action)),
            exists|l: Seq<bool>|
                sound(old(self).board(), old(self).hidden_mines(), seed_tasks(seed@, action), l),
        ensures
            final(self).grid_ok(),
            refines(old(self).board(), final(self).board()),
            final(self).free_pool() == old(self).free_pool(),
            final(self).graphs_solutions == old(self).graphs_solutions,
            final(self).board().structural(),
            final(self).board().stable(),
            forall|l: Seq<bool>| #[trigger]
                sound(old(self).board(), old(self).hidden_mines(), seed_tasks(seed@, action), l)
                    ==> final(self).admits(l),
            forall|i: int|
                0 <= i < seed@.len() ==> !(final(self).board().at(
                    (#[trigger] seed@[i]).0 as int,
                    seed@[i].1 as int,
                ) is UnknownConstrained),
    {
        let ghost b_init = self.board();
        let ghost h_init = self.hidden_mines();
        let ghost q_init = seed_tasks(seed@, action);
        let ghost witness = choose|l: Seq<bool>| sound(b_init, h_init, q_init, l);
        let mut queue: VecDeque<Task> = VecDeque::new();
        let mut i: usize = 0;
        while i < seed.len()
            invariant
                i <= seed@.len(),
                queue@ == seed_tasks(seed@.subrange(0, i as int), action),
            decreases seed@.len() - i,
        {
            queue.push_back((seed[i], action));
            proof {
                assert(queue@ =~= seed_tasks(seed@.subrange(0, i + 1), action));
            }
            i = i + 1;
        }
        proof {
            assert(seed@.subrange(0, i as int) =~= seed@);
            assert(queue@ == q_init);
            assert forall|i: int, j: int|
                0 <= i < q_init.len() && 0 <= j < q_init.len() && i != j implies q_init[i]
                != q_init[j] by {
                assert(seed@[i] != seed@[j]);
            }
            assert forall|row: int, col: int| b_init.inside(row, col) implies match b_init.at(
                row,
                col,
            ) {
                CellState::UnknownConstrained => !(#[trigger] b_init.at(row, col)
                    is UnknownUnconstrained) && !(b_init.at(row, col) is Clue),
                CellState::Clue(n) => b_init.at(row, col) matches CellState::Clue(m) && m <= n,
                s => b_init.at(row, col) == s,
            } by {}
            assert forall|i: int| 0 <= i < seed@.len() implies queue@.contains(
                (#[trigger] seed@[i], action),
            ) && b_init.inside(seed@[i].0 as int, seed@[i].1 as int) by {
                assert(q_init[i] == (seed@[i], action));
                assert(q_init.contains((seed@[i], action)));
                assert(task_shape(b_init, (seed@[i], action)));
            }
        }
        while queue.len() > 0
            invariant
                self.grid_ok(),
                action == UpdateAction::ToMine || action == UpdateAction::ToEmpty,
                refines(b_init, self.board()),
                self.free_pool() == old(self).free_pool(),
                self.graphs_solutions == old(self).graphs_solutions,
                shape(self.board(), queue@),
                queue@.no_duplicates(),
                sound(b_init, h_init, q_init, witness),
                forall|l: Seq<bool>| #[trigger]
                    sound(b_init, h_init, q_init, l) ==> sound(
                        self.board(),
                        self.hidden_mines(),
                        queue@,
                        l,
                    ),
                forall|i: int|
                    0 <= i < seed@.len() ==> !(self.board().at(
                        (#[trigger] seed@[i]).0 as int,
                        seed@[i].1 as int,
                    ) is UnknownConstrained) || queue@.contains((seed@[i], action)),
                forall|i: int|
                    0 <= i < seed@.len() ==> b_init.inside(
                        (#[trigger] seed@[i]).0 as int,
                        seed@[i].1 as int,
                    ),
            decreases 100 * self.board().open_cells() + load(queue@),
        {
            let ghost b0 = self.board();
            let ghost h0 = self.hidden_mines();
            let ghost q0 = queue@;
            let t = queue.pop_front().unwrap();
            let row = t.0.0;
            let col = t.0.1;
            let ghost r0 = row as int;
            let ghost c0 = col as int;
            proof {
                lemma_queue_pop(q0);
                assert(q0.contains(t)) by {
                    assert(q0[0] == t);
                }
                assert(t == task(r0, c0, t.1));
                assert(task_shape(b0, t));
                assert(sound(b0, h0, q0, witness));
                self.lemma_board();
            }
            match t.1 {
                UpdateAction::ToMine => {
                    proof {
                        lemma_hidden_positive(b0, h0, q0, witness, r0, c0);
                    }
                    self.mark_mine(&mut queue, row, col);
                    proof {
                        let b1 = self.board();
                        let q1 = queue@;
                        assert(step_to_mine(b0, q0, b1, q1, r0, c0));
                        lemma_to_mine_shape(b0, h0, q0, b1, q1, r0, c0, witness);
                        assert forall|l: Seq<bool>| #[trigger]
                            sound(b_init, h_init, q_init, l) implies sound(
                            b1,
                            self.hidden_mines(),
                            q1,
                            l,
                        ) by {
                            lemma_to_mine_sound(b0, h0, q0, b1, q1, r0, c0, l);
                        }
                        lemma_steps_refine(b0, q0, b1, q1, r0, c0);
                        lemma_refines_trans(b_init, b0, b1);
                    }
                },
                UpdateAction::ToEmpty => {
                    self.mark_empty(&mut queue, row, col);
                    proof {
                        let b1 = self.board();
                        let q1 = queue@;
                        b0.lemma_put(r0, c0, CellState::Empty);
                        assert(step_to_empty(b0, q0, b1, q1, r0, c0));
                        lemma_to_empty_shape(b0, h0, q0, b1, q1, r0, c0, witness);
                        assert forall|l: Seq<bool>| #[trigger]
                            sound(b_init, h_init, q_init, l) implies sound(
                            b1,
                            self.hidden_mines(),
                            q1,
                            l,
                        ) by {
                            lemma_to_empty_sound(b0, h0, q0, b1, q1, r0, c0, l);
                        }
                        lemma_steps_refine(b0, q0, b1, q1, r0, c0);
                        lemma_refines_trans(b_init, b0, b1);
                    }
                },
                UpdateAction::CheckIfClueFindEmpties => {
                    let opens = self.open_neighbors(row, col);
                    enqueue_all(&mut queue, cellbuf_as_slice(&opens), UpdateAction::ToEmpty);
                    proof {
                        let q1 = queue@;
                        let done = UpdateAction::CheckIfClueFindEmpties;
                        let verdict = UpdateAction::ToEmpty;
                        b0.lemma_around_bounds(Seq::empty(), Around::Open, r0, c0);
                        assert forall|x: Task| #[trigger]
                            q1.contains(x) <==> (q0.contains(x) && x != task(r0, c0, done))
                                || fresh_verdict(b0, r0, c0, verdict, x) by {
                            if fresh_verdict(b0, r0, c0, verdict, x) {
                                assert(b0.at(task_row(x), task_col(x)) is UnknownConstrained);
                                assert((task_row(x) as u16, task_col(x) as u16) == x.0);
                            }
                            if x.1 == verdict && buffered(opens).contains(x.0) {
                                let j = choose|j: int|
                                    0 <= j < buffered(opens).len() && buffered(opens)[j] == x.0;
                                assert(buffered(opens)[j] == x.0);
                            }
                        }
                        assert(step_settle_around(b0, q0, b0, q1, r0, c0, done, verdict));
                        assert(settle_ready(b0, q0, r0, c0, done, verdict));
                        lemma_settle_shape(b0, h0, q0, b0, q1, r0, c0, done, verdict, witness);
                        assert forall|l: Seq<bool>| #[trigger]
                            sound(b_init, h_init, q_init, l) implies sound(b0, h0, q1, l) by {
                            lemma_settle_sound(b0, h0, q0, b0, q1, r0, c0, done, verdict, l);
                        }
                    }
                },
                UpdateAction::CheckIfClueFindMines => {
                    let clue: u8 = match *self.grid.get(row, col) {
                        CellState::Clue(n) => n,
                        _ => 0,
                    };
                    let opens = self.open_neighbors(row, col);
                    let cells = cellbuf_as_slice(&opens);
                    proof {
                        lemma_clue_le_open(b0, h0, q0, witness, r0, c0);
                        b0.lemma_around_bounds(Seq::empty(), Around::Open, r0, c0);
                    }
                    if cells.len() == clue as usize {
                        proof {
                            b0.lemma_put(r0, c0, CellState::Clue(0));
                        }
                        self.grid.set(row, col, CellState::Clue(0));
                        enqueue_all(&mut queue, cells, UpdateAction::ToMine);
                        proof {
                            let b1 = self.board();
                            let q1 = queue@;
                            let done = UpdateAction::CheckIfClueFindMines;
                            let verdict = UpdateAction::ToMine;
                            assert forall|x: Task| #[trigger]
                                q1.contains(x) <==> (q0.contains(x) && x != task(r0, c0, done))
                                    || fresh_verdict(b0, r0, c0, verdict, x) by {
                                if fresh_verdict(b0, r0, c0, verdict, x) {
                                    assert(b0.at(task_row(x), task_col(x)) is UnknownConstrained);
                                    assert((task_row(x) as u16, task_col(x) as u16) == x.0);
                                }
                                if x.1 == verdict && buffered(opens).contains(x.0) {
                                    let j = choose|j: int|
                                        0 <= j < buffered(opens).len() && buffered(opens)[j]
                                            == x.0;
                                    assert(buffered(opens)[j] == x.0);
                                }
                            }
                            assert(step_settle_around(b0, q0, b1, q1, r0, c0, done, verdict));
                            assert(settle_ready(b0, q0, r0, c0, done, verdict));
                            lemma_settle_shape(b0, h0, q0, b1, q1, r0, c0, done, verdict, witness);
                            assert forall|l: Seq<bool>| #[trigger]
                                sound(b_init, h_init, q_init, l) implies sound(
                                b1,
                                self.hidden_mines(),
                                q1,
                                l,
                            ) by {
                                lemma_settle_sound(b0, h0, q0, b1, q1, r0, c0, done, verdict, l);
                            }
                            lemma_steps_refine(b0, q0, b1, q1, r0, c0);
                            lemma_refines_trans(b_init, b0, b1);
                        }
                    } else {
                        proof {
                            let q1 = queue@;
                            assert(step_drop(b0, q0, q1, r0, c0));
                            lemma_drop(b0, h0, q0, q1, r0, c0, witness);
                            assert forall|l: Seq<bool>| #[trigger]
                                sound(b_init, h_init, q_init, l) implies sound(b0, h0, q1, l) by {
                                lemma_drop(b0, h0, q0, q1, r0, c0, l);
                            }
                        }
                    }
                },
            }
            proof {
                assert forall|i: int| 0 <= i < seed@.len() implies !(self.board().at(
                    (#[trigger] seed@[i]).0 as int,
                    seed@[i].1 as int,
                ) is UnknownConstrained) || queue@.contains((seed@[i], action)) by {
                    let cell = seed@[i];
                    let x = (cell, action);
                    if q0.contains(x) && x != t {
                        assert(queue@.contains(x));
                    } else if q0.contains(x) {
                        assert(self.board().at(r0, c0) == cell_after_mine(b0, r0, c0, r0, c0)
                            || self.board().at(r0, c0) == CellState::Empty);
                    } else {
                        assert(b_init.inside(cell.0 as int, cell.1 as int));
                        assert(!(b0.at(cell.0 as int, cell.1 as int) is UnknownConstrained));
                    }
                }
            }
        }
        proof {
            assert(queue@ =~= Seq::<Task>::empty());
            lemma_settled(self.board(), self.hidden_mines(), witness);
            assert forall|l: Seq<bool>| #[trigger]
                sound(b_init, h_init, q_init, l) implies self.admits(l) by {
                lemma_settled(self.board(), self.hidden_mines(), l);
            }
            assert forall|i: int| 0 <= i < seed@.len() implies !(self.board().at(
                (#[trigger] seed@[i]).0 as int,
                seed@[i].1 as int,
            ) is UnknownConstrained) by {
                assert(!queue@.contains((seed@[i], action)));
            }
        }
    }

    /// The first part of taking in a clue: the free cells around `(row, col)` become open.
    /// Returns the clue with the known mines around the cell taken off.
    fn open_up_around(&mut self, row: u16, col: u16, clue: u8, Ghost(witness): Ghost<Seq<bool>>) -> (owed: u8)
        requires
            old(self).grid_ok(),
            old(self).board().inside(row as int, col as int),
            old(self).free_pool() == old(self).board().free_cells(),
            old(self).board().agrees(witness),
            clue == old(self).board().mines_around(witness, row as int, col as int),
        ensures
            final(self).grid_ok(),
            same_frame(old(self).board(), final(self).board()),
            final(self).graphs_solutions == old(self).graphs_solutions,
            final(self).hidden_mines() == old(self).hidden_mines(),
            final(self).free_pool() == final(self).board().free_cells(),
            forall|r: int, c: int|
                old(self).board().inside(r, c) ==> #[trigger] final(self).board().at(r, c)
                    == if adjacent(row as int, col as int, r, c) && old(self).board().at(r, c)
                    is UnknownUnconstrained {
                    CellState::UnknownConstrained
                } else {
                    old(self).board().at(r, c)
                },
            owed == clue - old(self).board().known_mines(row as int, col as int),
    {
        let ghost r0 = row as int;
        let ghost c0 = col as int;
        let ghost b1 = self.board();
        let ghost h = self.hidden_mines();
        proof {
            self.lemma_board();
        }
        let mut owed: u8 = clue;
        let mut it = self.neighbors_of(row, col);
        loop
            invariant
                self.grid_ok(),
                b1.wf(),
                b1.inside(r0, c0),
                r0 == row,
                c0 == col,
                same_frame(b1, self.board()),
                self.graphs_solutions == old(self).graphs_solutions,
                self.hidden_mines() == h,
                self.free_pool() == self.board().free_cells(),
                b1.agrees(witness),
                clue == b1.mines_around(witness, r0, c0),
                it.board_width() == b1.width,
                it.board_height() == b1.height,
                it.center_row() == r0,
                it.center_col() == c0,
                0 <= it.cursor() <= 8,
                forall|r: int, c: int|
                    b1.inside(r, c) ==> #[trigger] self.board().at(r, c) == if before(
                        r0,
                        c0,
                        it.cursor(),
                        r,
                        c,
                    ) && b1.at(r, c) is UnknownUnconstrained {
                        CellState::UnknownConstrained
                    } else {
                        b1.at(r, c)
                    },
                owed == clue - b1.around_upto(Seq::empty(), Around::KnownMine, r0, c0, it.cursor()),
            ensures
                it.cursor() == 8,
            decreases 8 - it.cursor(),
        {
            let ghost prev = it.cursor();
            let ghost b_prev = self.board();
            match it.next() {
                None => {
                    proof {
                        assert forall|r: int, c: int| b1.inside(r, c) implies (before(
                            r0,
                            c0,
                            it.cursor(),
                            r,
                            c,
                        ) <==> before(r0, c0, prev, r, c)) by {
                            lemma_before_done(b1.width, b1.height, r0, c0, prev, r, c);
                            lemma_before_done(b1.width, b1.height, r0, c0, it.cursor(), r, c);
                        }
                    }
                    break ;
                },
                Some((nr, nc)) => {
                    let ghost k = it.cursor() - 1;
                    let state = *self.grid.get(nr, nc);
                    proof {
                        lemma_offsets(r0, c0, nr as int, nc as int);
                        assert(b_prev.at(nr as int, nc as int) == b1.at(nr as int, nc as int));
                        self.lemma_board();
                        lemma_known_le_layout(b1, witness, r0, c0, k + 1);
                    }
                    match state {
                        CellState::UnknownUnconstrained => {
                            proof {
                                b_prev.lemma_place(nr as int, nc as int);
                                lemma_count_positive(
                                    b_prev.free_flags(),
                                    flat(b_prev.width, nr as int, nc as int),
                                );
                                b_prev.lemma_put(
                                    nr as int,
                                    nc as int,
                                    CellState::UnknownConstrained,
                                );
                            }
                            self.grid.set(nr, nc, CellState::UnknownConstrained);
                            proof {
                                lemma_free_cells_shift(b_prev, self.board(), nr as int, nc as int);
                            }
                        },
                        CellState::Mine => {
                            owed = owed - 1;
                        },
                        _ => {},
                    }
                    proof {
                        assert forall|r: int, c: int| b1.inside(r, c) implies #[trigger] self.board().at(
                            r,
                            c,
                        ) == if before(r0, c0, it.cursor(), r, c) && b1.at(r, c)
                            is UnknownUnconstrained {
                            CellState::UnknownConstrained
                        } else {
                            b1.at(r, c)
                        } by {
                            lemma_before_step(b1.width, b1.height, r0, c0, prev, k, r, c);
                        }
                    }
                },
            }
        }
        proof {
            assert forall|r: int, c: int| b1.inside(r, c) implies #[trigger] self.board().at(r, c)
                == if adjacent(r0, c0, r, c) && b1.at(r, c) is UnknownUnconstrained {
                CellState::UnknownConstrained
            } else {
                b1.at(r, c)
            } by {
                lemma_offsets(r0, c0, r, c);
            }
        }
        owed
    }

    /// Takes in the clue of a cell that was just revealed: `clue` is the number of mines
    /// around it. The free cells around it become open, the clue is stored with the known
    /// mines around it taken off, and every deduction that follows is drawn.
    pub fn add_clue(&mut self, cell: (u16, u16), clue: u8)
        requires
            old(self).wf(),
            old(self).board().inside(cell.0 as int, cell.1 as int),
            !(old(self).board().at(cell.0 as int, cell.1 as int) is Clue),
            !(old(self).board().at(cell.0 as int, cell.1 as int) is Mine),
            exists|l: Seq<bool>| old(self).fits(l, cell.0 as int, cell.1 as int, clue as int),
        ensures
            final(self).wf(),
            revealed_from(old(self).board(), final(self).board(), cell.0 as int, cell.1 as int),
            final(self).components() == old(self).components(),
            forall|l: Seq<bool>| #[trigger]
                old(self).fits(l, cell.0 as int, cell.1 as int, clue as int) ==> final(self).admits(
                    l,
                ),
            forall|l: Seq<bool>| #[trigger]
                final(self).admits(l) ==> old(self).fits(
                    l,
                    cell.0 as int,
                    cell.1 as int,
                    clue as int,
                ),
    {
        let ghost r0 = cell.0 as int;
        let ghost c0 = cell.1 as int;
        let ghost witness = choose|l: Seq<bool>| old(self).fits(l, r0, c0, clue as int);
        self.take_clue(cell, clue);
        proof {
            let b0 = old(self).board();
            let b1 = self.board();
            old(self).lemma_board();
            assert(self.admits(witness));
            assert forall|l: Seq<bool>| #[trigger] self.admits(l) implies old(self).fits(
                l,
                r0,
                c0,
                clue as int,
            ) by {
                lemma_no_layout_added(b0, b1, r0, c0, witness, l);
            }
        }
    }

    /// Takes in the clue of a cell that was just revealed, and keeps every layout that
    /// agreed with the board and with the clue.
    fn take_clue(&mut self, cell: (u16, u16), clue: u8)
        requires
            old(self).wf(),
            old(self).board().inside(cell.0 as int, cell.1 as int),
            !(old(self).board().at(cell.0 as int, cell.1 as int) is Clue),
            !(old(self).board().at(cell.0 as int, cell.1 as int) is Mine),
            exists|l: Seq<bool>| old(self).fits(l, cell.0 as int, cell.1 as int, clue as int),
        ensures
            final(self).wf(),
            revealed_from(old(self).board(), final(self).board(), cell.0 as int, cell.1 as int),
            final(self).components() == old(self).components(),
            forall|l: Seq<bool>| #[trigger]
                old(self).fits(l, cell.0 as int, cell.1 as int, clue as int) ==> final(self).admits(
                    l,
                ),
    {
        let row = cell.0;
        let col = cell.1;
        let ghost r0 = row as int;
        let ghost c0 = col as int;
        let ghost b_init = self.board();
        let ghost witness = choose|l: Seq<bool>| old(self).fits(l, r0, c0, clue as int);
        // A cell that was open is now known to be empty: draw what follows from that first.
        self.settle_revealed(row, col, Ghost(clue as int));
        let ghost b1 = self.board();
        let ghost h = self.hidden_mines();
        proof {
            self.lemma_board();
            assert(self.fits(witness, r0, c0, clue as int));
        }
        // The free cells around the clue become open, and the known mines are taken off it.
        let owed = self.open_up_around(row, col, clue, Ghost(witness));
        let unknowns = self.open_neighbors(row, col);
        let ghost b2 = self.board();
        proof {
            assert(b2.at(r0, c0) == b1.at(r0, c0));
            if b2.at(r0, c0) is UnknownUnconstrained {
                b2.lemma_place(r0, c0);
                lemma_count_positive(b2.free_flags(), flat(b2.width, r0, c0));
            }
            self.lemma_board();
            b2.lemma_put(r0, c0, CellState::Clue(owed));
            lemma_known_le_layout(b1, witness, r0, c0, 8);
        }
        self.grid.set(row, col, CellState::Clue(owed));
        let ghost b3 = self.board();
        let cells = cellbuf_as_slice(&unknowns);
        let ghost q = ready_queue(cells@, owed);
        proof {
            assert(self.hidden_mines() == h);
            assert(b3 == b2.put(r0, c0, CellState::Clue(owed)));
            self.lemma_board();
            lemma_free_cells_shift(b2, b3, r0, c0);
            assert forall|r: int, c: int| b1.inside(r, c) implies #[trigger] b3.at(r, c) == if r
                == r0 && c == c0 {
                CellState::Clue(owed)
            } else if adjacent(r0, c0, r, c) && b1.at(r, c) is UnknownUnconstrained {
                CellState::UnknownConstrained
            } else {
                b1.at(r, c)
            } by {
                assert(b3.at(r, c) == if r == r0 && c == c0 {
                    CellState::Clue(owed)
                } else {
                    b2.at(r, c)
                });
            }
            assert(clue_placed(b1, b3, r0, c0, owed));
            lemma_placed_open_count(b1, b3, r0, c0, owed);
            lemma_placed_exact(b1, b3, witness, r0, c0, owed, clue as int);
            assert forall|i: int| 0 <= i < cells@.len() implies b3.at(
                (#[trigger] cells@[i]).0 as int,
                cells@[i].1 as int,
            ) is UnknownConstrained by {
                let cell = cells@[i];
                assert(b3.at(cell.0 as int, cell.1 as int) == if cell.0 as int == r0 && cell.1 as int
                    == c0 {
                    CellState::Clue(owed)
                } else {
                    b2.at(cell.0 as int, cell.1 as int)
                });
            }
            assert forall|r: int, c: int|
                b3.inside(r, c) && adjacent(r0, c0, r, c) && #[trigger] b3.at(r, c)
                    is UnknownConstrained implies cells@.contains((r as u16, c as u16)) by {
                assert(b2.at(r, c) == b3.at(r, c));
            }
            assert(cells@.len() == b2.open_count(r0, c0));
            assert(b3.open_count(r0, c0) == b2.open_count(r0, c0)) by {
                assert forall|k: int|
                    0 <= k < 8 && neighbor_inside(b2.width, b2.height, r0, c0, k) implies #[trigger] b3.hit(
                    Seq::empty(),
                    Around::Open,
                    r0,
                    c0,
                    k,
                ) == b2.hit(Seq::empty(), Around::Open, r0, c0, k) by {
                    assert(b3.at(r0 + delta_row(k), c0 + delta_col(k)) == b2.at(
                        r0 + delta_row(k),
                        c0 + delta_col(k),
                    ));
                }
                b2.lemma_around_diff(Seq::empty(), b3, Seq::empty(), Around::Open, r0, c0, r0, c0);
            }
            assert(lists_open(b3, cells@, r0, c0));
            lemma_ready_shape(b1, b3, cells@, r0, c0, owed);
            assert forall|l: Seq<bool>| #[trigger]
                old(self).fits(l, r0, c0, clue as int) implies sound(b3, h, q, l) by {
                lemma_ready_sound(b1, h, b3, cells@, l, r0, c0, owed, clue as int);
            }
            assert(sound(b3, h, q, witness));
        }
        // Draw what follows from the new clue at once.
        if cells.len() > 0 {
            if owed == 0 {
                assert(q == seed_tasks(cells@, UpdateAction::ToEmpty));
                assert(sound(self.board(), self.hidden_mines(), q, witness));
                self.breadth_first_update(UpdateAction::ToEmpty, cells);
            } else if owed as usize == cells.len() {
                assert(q == seed_tasks(cells@, UpdateAction::ToMine));
                assert(sound(self.board(), self.hidden_mines(), q, witness));
                self.breadth_first_update(UpdateAction::ToMine, cells);
            }
        }
        proof {
            let b4 = self.board();
            self.lemma_board();
            if q.len() == 0 {
                assert(q =~= Seq::<Task>::empty());
                lemma_settled(b3, h, witness);
                assert forall|l: Seq<bool>| #[trigger]
                    old(self).fits(l, r0, c0, clue as int) implies self.admits(l) by {
                    lemma_settled(b3, h, l);
                }
                lemma_refines_same(b3);
            }
            lemma_refines_free(b3, b4);
            lemma_placed_clued(b1, b3, r0, c0, owed);
            lemma_refines_clued(b3, b4);
            lemma_revealed_chain(b_init, b1, b3, b4, r0, c0, owed);
        }
    }

    /// The start of taking in a clue: if the cell was open, it is now known to be empty,
    /// and what follows from that is drawn.
    #[verifier::rlimit(100)]
    fn settle_revealed(&mut self, row: u16, col: u16, Ghost(clue): Ghost<int>)
        requires
            old(self).wf(),
            old(self).board().inside(row as int, col as int),
            !(old(self).board().at(row as int, col as int) is Clue),
            !(old(self).board().at(row as int, col as int) is Mine),
            exists|l: Seq<bool>| old(self).fits(l, row as int, col as int, clue),
        ensures
            final(self).wf(),
            refines(old(self).board(), final(self).board()),
            final(self).graphs_solutions == old(self).graphs_solutions,
            final(self).board().at(row as int, col as int) is UnknownUnconstrained
                || final(self).board().at(row as int, col as int) is Empty,
            forall|l: Seq<bool>| #[trigger]
                old(self).fits(l, row as int, col as int, clue) ==> final(self).fits(
                    l,
                    row as int,
                    col as int,
                    clue,
                ),
    {
        let ghost r0 = row as int;
        let ghost c0 = col as int;
        let ghost b_init = self.board();
        let ghost h = self.hidden_mines();
        let ghost witness = choose|l: Seq<bool>| old(self).fits(l, r0, c0, clue);
        proof {
            self.lemma_board();
            lemma_refines_same(b_init);
        }
        match *self.grid.get(row, col) {
            CellState::UnknownConstrained => {
                let mut seed: Vec<(u16, u16)> = Vec::new();
                seed.push((row, col));
                proof {
                    let q = seed_tasks(seed@, UpdateAction::ToEmpty);
                    assert forall|l: Seq<bool>| #[trigger]
                        old(self).fits(l, r0, c0, clue) implies sound(b_init, h, q, l) && shape(
                        b_init,
                        q,
                    ) by {
                        assert forall|t: Task| #[trigger] q.contains(t) implies task_shape(b_init, t)
                            && task_true(b_init, l, t) by {
                            let i = choose|i: int| 0 <= i < q.len() && q[i] == t;
                            assert(q[i] == (seed@[i], UpdateAction::ToEmpty));
                        }
                        lemma_at_rest(b_init, h, q, l);
                    }
                    assert(sound(b_init, h, q, witness));
                }
                self.breadth_first_update(UpdateAction::ToEmpty, seed.as_slice());
                proof {
                    assert(!(self.board().at(seed@[0].0 as int, seed@[0].1 as int)
                        is UnknownConstrained));
                    assert(self.admits(witness));
                    self.lemma_board();
                    lemma_refines_free(b_init, self.board());
                    lemma_refines_clued(b_init, self.board());
                }
            },
            _ => {},
        }
    }

    /// Marks the cell as seen and queues it, unless it was seen before. An open cell gets
    /// the next number among the tiles of the group.
    fn visit(
        &self,
        visited: &mut Vec<Bits>,
        queue: &mut VecDeque<(u16, u16)>,
        tiles: &mut Vec<(u16, u16)>,
        row: u16,
        col: u16,
        is_open: bool,
        Ghost(v0): Ghost<Seq<Bits>>,
        Ghost(cur): Ghost<(int, int)>,
    )
        requires
            exploring(self.board(), v0, old(visited)@, old(queue)@, old(tiles)@, cur),
            self.board().inside(row as int, col as int),
            is_open == (self.board().at(row as int, col as int) is UnknownConstrained),
            is_open || self.board().sat(Seq::empty(), Around::PositiveClue, row as int, col as int),
        ensures
            exploring(self.board(), v0, final(visited)@, final(queue)@, final(tiles)@, cur),
            grows(old(visited)@, final(visited)@),
            seen(final(visited)@, row as int, col as int),
            2 * unseen(final(visited)@) + final(queue)@.len() <= 2 * unseen(old(visited)@)
                + old(queue)@.len(),
            old(tiles)@.len() <= final(tiles)@.len(),
            forall|j: int| 0 <= j < old(tiles)@.len() ==> final(tiles)@[j] == old(tiles)@[j],
            forall|x: (u16, u16)| old(queue)@.contains(x) ==> #[trigger] final(queue)@.contains(x),
            forall|r: int, c: int|
                #[trigger] seen(final(visited)@, r, c) && !seen(old(visited)@, r, c)
                    ==> final(queue)@.contains((r as u16, c as u16)),
            forall|r: int, c: int|
                #[trigger] seen(final(visited)@, r, c) && !seen(old(visited)@, r, c) ==> r == row
                    && c == col,
    {
        let r = row as usize;
        let c = col as usize;
        let ghost b = self.board();
        let ghost v = visited@;
        let ghost q = queue@;
        assert(bits(v[r as int]).len() == b.width);
        let was = match bits_get(&visited[r], c) {
            Some(bit) => bit,
            None => false,
        };
        if !was {
            bits_set(&mut visited[r], c, true);
            queue.push_back((row, col));
            if is_open {
                tiles.push((row, col));
            }
            proof {
                assert(marked(b, v, visited@, row as int, col as int));
                lemma_visit(b, v0, v, visited@, q, old(tiles)@, tiles@, cur, row as int, col as int);
                assert forall|x: (u16, u16)| q.contains(x) implies #[trigger] queue@.contains(x) by {
                    let i = choose|i: int| 0 <= i < q.len() && q[i] == x;
                    assert(queue@[i] == x);
                }
                assert forall|r2: int, c2: int|
                    #[trigger] seen(visited@, r2, c2) && !seen(v, r2, c2) implies queue@.contains(
                    (r2 as u16, c2 as u16),
                ) by {
                    if 0 <= r2 < v.len() && r2 != row {
                        assert(bits(visited@[r2]) == bits(v[r2]));
                    }
                    assert(r2 == row && c2 == col);
                    assert(queue@[q.len() as int] == (row, col));
                }
                assert forall|r2: int, c2: int|
                    #[trigger] seen(visited@, r2, c2) && !seen(v, r2, c2) implies r2 == row && c2
                    == col by {
                    if 0 <= r2 < v.len() && r2 != row {
                        assert(bits(visited@[r2]) == bits(v[r2]));
                    }
                }
            }
        } else {
            proof {
                assert(grows(v, v));
            }
        }
    }

    /// Sees to it that every cell tied to `(row, col)` is seen: those that were not are
    /// marked and queued.
    fn visit_tied(
        &self,
        visited: &mut Vec<Bits>,
        queue: &mut VecDeque<(u16, u16)>,
        tiles: &mut Vec<(u16, u16)>,
        row: u16,
        col: u16,
        Ghost(v0): Ghost<Seq<Bits>>,
        Ghost(root): Ghost<(int, int)>,
    )
        requires
            self.grid_ok(),
            exploring(
                self.board(),
                v0,
                old(visited)@,
                old(queue)@,
                old(tiles)@,
                (row as int, col as int),
            ),
            rooted(self.board(), v0, old(visited)@, root),
            linked(self.board(), root, (row as int, col as int)),
            self.board().inside(row as int, col as int),
            self.board().at(row as int, col as int) is UnknownConstrained || self.board().sat(
                Seq::empty(),
                Around::PositiveClue,
                row as int,
                col as int,
            ),
        ensures
            exploring(
                self.board(),
                v0,
                final(visited)@,
                final(queue)@,
                final(tiles)@,
                (row as int, col as int),
            ),
            closed_at(self.board(), final(visited)@, row as int, col as int),
            rooted(self.board(), v0, final(visited)@, root),
            grows(old(visited)@, final(visited)@),
            2 * unseen(final(visited)@) + final(queue)@.len() <= 2 * unseen(old(visited)@)
                + old(queue)@.len(),
            old(tiles)@.len() <= final(tiles)@.len(),
            forall|j: int| 0 <= j < old(tiles)@.len() ==> final(tiles)@[j] == old(tiles)@[j],
            forall|x: (u16, u16)| old(queue)@.contains(x) ==> #[trigger] final(queue)@.contains(x),
            forall|r: int, c: int|
                #[trigger] seen(final(visited)@, r, c) && !seen(old(visited)@, r, c)
                    ==> final(queue)@.contains((r as u16, c as u16)),
    {
        let ghost b = self.board();
        let ghost r0 = row as int;
        let ghost c0 = col as int;
        let ghost cur = (r0, c0);
        proof {
            self.lemma_board();
            assert(grows(visited@, visited@));
        }
        let from_clue = match *self.grid.get(row, col) {
            CellState::Clue(_) => true,
            _ => false,
        };
        let mut it = self.neighbors_of(row, col);
        loop
            invariant
                self.grid_ok(),
                b == self.board(),
                b.wf(),
                b.inside(r0, c0),
                r0 == row,
                c0 == col,
                cur == (r0, c0),
                from_clue == (b.at(r0, c0) is Clue),
                b.at(r0, c0) is UnknownConstrained || b.sat(Seq::empty(), Around::PositiveClue, r0, c0),
                exploring(b, v0, visited@, queue@, tiles@, cur),
                rooted(b, v0, visited@, root),
                linked(b, root, cur),
                grows(old(visited)@, visited@),
                2 * unseen(visited@) + queue@.len() <= 2 * unseen(old(visited)@) + old(queue)@.len(),
                old(tiles)@.len() <= tiles@.len(),
                forall|j: int| 0 <= j < old(tiles)@.len() ==> tiles@[j] == old(tiles)@[j],
                forall|x: (u16, u16)| old(queue)@.contains(x) ==> #[trigger] queue@.contains(x),
                forall|r: int, c: int|
                    #[trigger] seen(visited@, r, c) && !seen(old(visited)@, r, c) ==> queue@.contains(
                        (r as u16, c as u16),
                    ),
                it.board_width() == b.width,
                it.board_height() == b.height,
                it.center_row() == r0,
                it.center_col() == c0,
                0 <= it.cursor() <= 8,
                forall|k: int| 0 <= k < it.cursor() ==> #[trigger] reaches(b, visited@, r0, c0, k),
            ensures
                it.cursor() == 8,
            decreases 8 - it.cursor(),
        {
            let ghost prev = it.cursor();
            let ghost v = visited@;
            let ghost q = queue@;
            match it.next() {
                None => {
                    break ;
                },
                Some((nr, nc)) => {
                    let ghost k = it.cursor() - 1;
                    let tied_here = match *self.grid.get(nr, nc) {
                        CellState::UnknownConstrained => from_clue,
                        CellState::Clue(val) => !from_clue && val > 0,
                        _ => false,
                    };
                    if tied_here {
                        self.visit(visited, queue, tiles, nr, nc, from_clue, Ghost(v0), Ghost(cur));
                        proof {
                            let next = (nr as int, nc as int);
                            assert(link(b, cur, next));
                            lemma_link_step(b, root, cur, next);
                            lemma_rooted_step(b, v0, v, visited@, root, next);
                        }
                    }
                    proof {
                        lemma_grows_trans(old(visited)@, v, visited@);
                        assert forall|j: int| 0 <= j < it.cursor() implies #[trigger] reaches(
                            b,
                            visited@,
                            r0,
                            c0,
                            j,
                        ) by {
                            if j < prev {
                                lemma_reaches_grows(b, v, visited@, r0, c0, j);
                            }
                        }
                        assert forall|r: int, c: int|
                            #[trigger] seen(visited@, r, c) && !seen(old(visited)@, r, c) implies queue@.contains(
                            (r as u16, c as u16),
                        ) by {
                            if seen(v, r, c) {
                                assert(q.contains((r as u16, c as u16)));
                            }
                        }
                    }
                },
            }
        }
    }

    /// Where the cell stands among the tiles, if it is one of them.
    pub(crate) fn find_tile(tiles: &Vec<(u16, u16)>, cell: (u16, u16)) -> (found: Option<usize>)
        ensures
            match found {
                Some(i) => i < tiles@.len() && tiles@[i as int] == cell,
                None => !tiles@.contains(cell),
            },
    {
        let mut i: usize = 0;
        while i < tiles.len()
            invariant
                i <= tiles@.len(),
                forall|j: int| 0 <= j < i ==> tiles@[j] != cell,
            decreases tiles@.len() - i,
        {
            let t = tiles[i];
            if t.0 == cell.0 && t.1 == cell.1 {
                return Some(i);
            }
            i = i + 1;
        }
        None
    }

    /// A clue as the search sees it: its count, and the numbers of the open cells around it.
    fn describe_clue(&self, tiles: &Vec<(u16, u16)>, row: u16, col: u16, val: u8) -> (clue: Clue)
        requires
            self.grid_ok(),
            self.board().inside(row as int, col as int),
            self.board().at(row as int, col as int) == CellState::Clue(val),
            val > 0,
            forall|j: int|
                0 <= j < open_list(self.board(), row as int, col as int, 8).len() ==> tiles@.contains(
                    #[trigger] open_list(self.board(), row as int, col as int, 8)[j],
                ),
        ensures
            described(self.board(), tiles@, clue, (row, col)),
    {
        let opens = self.open_neighbors(row, col);
        let cells = cellbuf_as_slice(&opens);
        let ghost list = open_list(self.board(), row as int, col as int, 8);
        let mut adjacency: Vec<usize> = Vec::new();
        let mut j: usize = 0;
        while j < cells.len()
            invariant
                j <= cells@.len(),
                cells@ == list,
                adjacency@.len() == j,
                forall|i: int| 0 <= i < list.len() ==> tiles@.contains(#[trigger] list[i]),
                forall|i: int|
                    0 <= i < j ==> #[trigger] adjacency@[i] < tiles@.len() && tiles@[adjacency@[i] as int]
                        == list[i],
            decreases cells@.len() - j,
        {
            assert(tiles@.contains(list[j as int]));
            match Self::find_tile(tiles, cells[j]) {
                Some(idx) => {
                    adjacency.push(idx);
                },
                None => {
                    adjacency.push(0);
                },
            }
            j = j + 1;
        }
        Clue { mine_count: val, adjacency }
    }

    /// Gathers the group of the clue at `(row, col)`: breadth first, from each clue to the
    /// open cells around it, and from each open cell to the clues around it that still
    /// count mines. Returns the open cells of the group in the order in which they were
    /// found, and the group as the search sees it.
    fn extract_graph_starting_from(&self, row: u16, col: u16, visited: &mut Vec<Bits>) -> (out: (
        Vec<(u16, u16)>,
        Topology,
        Ghost<Seq<(u16, u16)>>,
    ))
        requires
            self.grid_ok(),
            closed(self.board(), old(visited)@),
            self.board().inside(row as int, col as int),
            self.board().sat(Seq::empty(), Around::PositiveClue, row as int, col as int),
            !seen(old(visited)@, row as int, col as int),
        ensures
            exploring(
                self.board(),
                old(visited)@,
                final(visited)@,
                Seq::<(u16, u16)>::empty(),
                out.0@,
                (-1, -1),
            ),
            clues_listed(
                self.board(),
                old(visited)@,
                final(visited)@,
                Seq::<(u16, u16)>::empty(),
                out.0@,
                out.1.clues@,
                out.2@,
                (-1, -1),
            ),
            out.1.unknown_count == out.0@.len(),
            seen(final(visited)@, row as int, col as int),
            joined_from(self.board(), out.0@, (row as int, col as int)),
    {
        let ghost b = self.board();
        let ghost v0 = visited@;
        let ghost root = (row as int, col as int);
        let mut queue: VecDeque<(u16, u16)> = VecDeque::new();
        let mut tiles: Vec<(u16, u16)> = Vec::new();
        let mut clues: Vec<Clue> = Vec::new();
        let ghost mut clue_cells: Seq<(u16, u16)> = Seq::empty();
        proof {
            self.lemma_board();
            lemma_start(b, v0);
        }
        self.visit(visited, &mut queue, &mut tiles, row, col, false, Ghost(v0), Ghost((-1, -1)));
        proof {
            assert(rooted(b, v0, v0, root));
            lemma_link_start(b, root);
            lemma_rooted_step(b, v0, v0, visited@, root, root);
            lemma_listed_grows(
                b,
                v0,
                v0,
                visited@,
                Seq::empty(),
                queue@,
                Seq::empty(),
                tiles@,
                clues@,
                clue_cells,
                (-1, -1),
            );
        }
        while queue.len() > 0
            invariant
                self.grid_ok(),
                b == self.board(),
                b.wf(),
                closed(b, v0),
                grows(v0, visited@),
                seen(visited@, row as int, col as int),
                exploring(b, v0, visited@, queue@, tiles@, (-1, -1)),
                clues_listed(b, v0, visited@, queue@, tiles@, clues@, clue_cells, (-1, -1)),
                rooted(b, v0, visited@, root),
            decreases 2 * unseen(visited@) + queue@.len(),
        {
            let ghost q0 = queue@;
            let ghost v = visited@;
            let ghost t0 = tiles@;
            let cell = queue.pop_front().unwrap();
            let ghost cur = (cell.0 as int, cell.1 as int);
            let ghost rest = queue@;
            proof {
                lemma_take(b, v0, v, q0, t0);
                lemma_listed_take(b, v0, v, q0, t0, clues@, clue_cells);
                assert(b.inside(cur.0, cur.1) && fresh(v0, v, cur.0, cur.1));
                assert(grouped_at(b, v, cur.0, cur.1));
                assert(linked_at(b, v0, v, root, cur.0, cur.1));
            }
            self.visit_tied(visited, &mut queue, &mut tiles, cell.0, cell.1, Ghost(v0), Ghost(root));
            proof {
                lemma_grows_trans(v0, v, visited@);
                lemma_listed_grows(
                    b,
                    v0,
                    v,
                    visited@,
                    rest,
                    queue@,
                    t0,
                    tiles@,
                    clues@,
                    clue_cells,
                    cur,
                );
                assert(seen(visited@, row as int, col as int));
            }
            let ghost old_clues = clues@;
            let ghost old_cells = clue_cells;
            match *self.grid.get(cell.0, cell.1) {
                CellState::Clue(val) => {
                    proof {
                        lemma_clue_enclosed(b, v0, visited@, queue@, tiles@, cur, cur.0, cur.1);
                    }
                    let clue = self.describe_clue(&tiles, cell.0, cell.1, val);
                    clues.push(clue);
                    proof {
                        clue_cells = clue_cells.push(cell);
                        assert(clues@.drop_last() =~= old_clues);
                    }
                },
                _ => {},
            }
            proof {
                lemma_done(b, v0, visited@, queue@, tiles@, cur);
                lemma_listed_done(
                    b,
                    v0,
                    visited@,
                    queue@,
                    tiles@,
                    old_clues,
                    old_cells,
                    cell,
                    clues@,
                    clue_cells,
                );
            }
        }
        proof {
            assert(queue@ =~= Seq::<(u16, u16)>::empty());
            assert forall|j: int| 0 <= j < tiles@.len() implies linked(
                b,
                root,
                ((#[trigger] tiles@[j]).0 as int, tiles@[j].1 as int),
            ) by {
                assert(linked_at(b, v0, visited@, root, tiles@[j].0 as int, tiles@[j].1 as int));
            }
        }
        let unknown_count = tiles.len();
        (tiles, Topology { unknown_count, clues }, Ghost(clue_cells))
    }

    /// Whether the groups stored are those of the board as it is: they split the open
    /// cells, each hangs together, and each comes with every way to fill it.
    pub open spec fn groups_fresh(&self) -> bool {
        &&& groups_ok(self.board(), self.components())
        &&& groups_complete(self.board(), self.components())
        &&& groups_joined(self.board(), self.components())
    }

    /// Finds the groups of open cells that the clues tie together, and for each group
    /// every way to fill it so that the clues around it count right. The board is read
    /// row by row; a clue that still counts mines and belongs to no group yet starts one.
    pub fn find_graph_solutions(&mut self)
        requires
            old(self).wf(),
        ensures
            final(self).wf(),
            final(self).board() == old(self).board(),
            final(self).tally() == old(self).tally(),
            final(self).groups_fresh(),
    {
        let ghost b = self.board();
        let h = self.grid.height();
        let w = self.grid.width();
        proof {
            self.lemma_board();
        }
        let mut visited: Vec<Bits> = Vec::new();
        let mut r: u16 = 0;
        while r < h
            invariant
                r <= h,
                w == b.width,
                visited@.len() == r,
                forall|i: int|
                    0 <= i < visited@.len() ==> bits(#[trigger] visited@[i]) == Seq::new(
                        w as nat,
                        |c: int| false,
                    ),
            decreases h - r,
        {
            visited.push(bits_repeat(false, w as usize));
            r = r + 1;
        }
        let mut graphs_solutions: Vec<GraphSolution> = Vec::new();
        proof {
            assert forall|row: int, col: int| !seen(visited@, row, col) by {}
            assert(closed(b, visited@));
            assert(groups_sound(b, visited@, graphs_solutions@));
        }
        let mut i: u16 = 0;
        while i < h
            invariant
                self.grid_ok(),
                b == self.board(),
                self.wf(),
                *self == *old(self),
                b.wf(),
                h == b.height,
                w == b.width,
                i <= h,
                closed(b, visited@),
                groups_sound(b, visited@, graphs_solutions@),
                groups_joined(b, graphs_solutions@),
                forall|row: int, col: int|
                    b.inside(row, col) ==> #[trigger] scanned_at(b, visited@, i as int, 0, row, col),
            decreases h - i,
        {
            let mut j: u16 = 0;
            while j < w
                invariant
                    self.grid_ok(),
                    b == self.board(),
                    self.wf(),
                    *self == *old(self),
                    b.wf(),
                    h == b.height,
                    w == b.width,
                    i < h,
                    j <= w,
                    closed(b, visited@),
                    groups_sound(b, visited@, graphs_solutions@),
                    groups_joined(b, graphs_solutions@),
                    forall|row: int, col: int|
                        b.inside(row, col) ==> #[trigger] scanned_at(
                            b,
                            visited@,
                            i as int,
                            j as int,
                            row,
                            col,
                        ),
                decreases w - j,
            {
                let ghost v0 = visited@;
                let ghost groups0 = graphs_solutions@;
                assert(bits(v0[i as int]).len() == w);
                let was = match bits_get(&visited[i as usize], j as usize) {
                    Some(bit) => bit,
                    None => false,
                };
                if !was {
                    match *self.grid.get(i, j) {
                        CellState::Clue(val) => {
                            if val > 0 {
                                let (tiles, topology, Ghost(clue_cells)) =
                                    self.extract_graph_starting_from(i, j, &mut visited);
                                proof {
                                    lemma_tiles_bound(b, tiles@);
                                    lemma_group_from_search(
                                        b,
                                        v0,
                                        visited@,
                                        tiles@,
                                        topology,
                                        clue_cells,
                                        Seq::empty(),
                                    );
                                }
                                let alternatives = find_solutions(&topology);
                                let ghost clues = topology.clues@;
                                proof {
                                    assert forall|a: int| 0 <= a < alternatives@.len() implies fills(
                                        b,
                                        tiles@,
                                        bits(#[trigger] alternatives@[a]),
                                    ) by {
                                        lemma_group_from_search(
                                            b,
                                            v0,
                                            visited@,
                                            tiles@,
                                            topology,
                                            clue_cells,
                                            bits(alternatives@[a]),
                                        );
                                    }
                                    assert forall|alt: Seq<bool>| #[trigger]
                                        fills(b, tiles@, alt) implies holds(alternatives@, alt) by {
                                        lemma_group_from_search(
                                            b,
                                            v0,
                                            visited@,
                                            tiles@,
                                            topology,
                                            clue_cells,
                                            alt,
                                        );
                                    }
                                }
                                graphs_solutions.push(GraphSolution { tiles, alternatives });
                                proof {
                                    assert(graphs_solutions@.drop_last() =~= groups0);
                                    lemma_joined_added(
                                        b,
                                        groups0,
                                        graphs_solutions@,
                                        (i as int, j as int),
                                    );
                                    lemma_group_added(
                                        b,
                                        v0,
                                        visited@,
                                        groups0,
                                        graphs_solutions@,
                                        clues,
                                        clue_cells,
                                    );
                                }
                            }
                        },
                        _ => {},
                    }
                }
                proof {
                    assert forall|row: int, col: int| b.inside(row, col) implies #[trigger] scanned_at(
                        b,
                        visited@,
                        i as int,
                        j + 1,
                        row,
                        col,
                    ) by {
                        assert(scanned_at(b, v0, i as int, j as int, row, col));
                        if seen(v0, row, col) {
                            assert(seen(visited@, row, col)) by {
                                if visited@ != v0 {
                                    assert(grows(v0, visited@));
                                }
                            }
                        }
                    }
                }
                j = j + 1;
            }
            proof {
                assert forall|row: int, col: int| b.inside(row, col) implies #[trigger] scanned_at(
                    b,
                    visited@,
                    i + 1,
                    0,
                    row,
                    col,
                ) by {
                    assert(scanned_at(b, visited@, i as int, w as int, row, col));
                }
            }
            i = i + 1;
        }
        proof {
            lemma_groups_final(b, visited@, graphs_solutions@);
        }
        self.graphs_solutions = graphs_solutions;
    }
}

} // verus!
