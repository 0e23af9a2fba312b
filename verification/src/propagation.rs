//! The rules by which the content of open cells follows from the clues, as steps on a
//! [`Board`] with a queue of pending tasks, and the proofs that each step keeps every mine
//! layout that agreed with the board before it.

use crate::board::{Around, Board, CellState};
use crate::counting::{b2i, count_true, lemma_count_diff};
use crate::grid::{flat, lemma_flat_onto};
use crate::neighbor_iter::{
    adjacent, delta_col, delta_row, lemma_offsets, neighbor_inside, offset_between,
};
use vstd::prelude::*;

verus! {

/// What remains to be done at a cell while deductions spread.
#[derive(Clone, Copy, Debug, PartialEq, Eq, Structural)]
pub enum UpdateAction {
    /// The cell is a clue: see whether all its open neighbors must be mines.
    CheckIfClueFindMines,
    /// The cell is open and must be a mine.
    ToMine,
    /// The cell is a clue of zero: its open neighbors must be empty.
    CheckIfClueFindEmpties,
    /// The cell is open and must be empty.
    ToEmpty,
}

/// A cell together with what remains to be done there.
pub type Task = ((u16, u16), UpdateAction);

/// The task `action` for the cell `(row, col)`.
pub open spec fn task(row: int, col: int, action: UpdateAction) -> Task {
    ((row as u16, col as u16), action)
}

/// The row of the cell of a task.
pub open spec fn task_row(t: Task) -> int {
    t.0.0 as int
}

/// The column of the cell of a task.
pub open spec fn task_col(t: Task) -> int {
    t.0.1 as int
}

/// Whether the queue holds the task `action` for the cell `(row, col)`.
pub open spec fn queued(q: Seq<Task>, action: UpdateAction, row: int, col: int) -> bool {
    q.contains(task(row, col, action))
}

/// If the `k`-th neighbor of `(row, col)` is open, a task that settles it is queued.
pub open spec fn covered(b: Board, q: Seq<Task>, row: int, col: int, k: int, or_empty: bool) -> bool {
    b.hit(Seq::empty(), Around::Open, row, col, k) ==> queued(
        q,
        UpdateAction::ToMine,
        row + delta_row(k),
        col + delta_col(k),
    ) || (or_empty && queued(q, UpdateAction::ToEmpty, row + delta_row(k), col + delta_col(k)))
}

/// For every open neighbor of `(row, col)` a task that settles it is queued.
pub open spec fn all_covered(b: Board, q: Seq<Task>, row: int, col: int, or_empty: bool) -> bool {
    &&& covered(b, q, row, col, 0, or_empty)
    &&& covered(b, q, row, col, 1, or_empty)
    &&& covered(b, q, row, col, 2, or_empty)
    &&& covered(b, q, row, col, 3, or_empty)
    &&& covered(b, q, row, col, 4, or_empty)
    &&& covered(b, q, row, col, 5, or_empty)
    &&& covered(b, q, row, col, 6, or_empty)
    &&& covered(b, q, row, col, 7, or_empty)
}

/// A clue from which something follows at once has the task queued that draws the
/// conclusion, or its open neighbors are all about to be settled.
pub open spec fn pend(b: Board, q: Seq<Task>, row: int, col: int) -> bool {
    b.at(row, col) matches CellState::Clue(n) ==> {
        &&& n == 0 && b.open_count(row, col) > 0 ==> queued(
            q,
            UpdateAction::CheckIfClueFindEmpties,
            row,
            col,
        ) || all_covered(b, q, row, col, true)
        &&& n > 0 && b.open_count(row, col) == n ==> queued(
            q,
            UpdateAction::CheckIfClueFindMines,
            row,
            col,
        ) || all_covered(b, q, row, col, false)
    }
}

/// The cell of a queued task is in the state that the task expects.
pub open spec fn task_shape(b: Board, t: Task) -> bool {
    &&& b.inside(task_row(t), task_col(t))
    &&& match t.1 {
        UpdateAction::ToMine => b.at(task_row(t), task_col(t)) is UnknownConstrained,
        UpdateAction::ToEmpty => b.at(task_row(t), task_col(t)) is UnknownConstrained,
        UpdateAction::CheckIfClueFindEmpties => b.at(task_row(t), task_col(t)) == CellState::Clue(0),
        UpdateAction::CheckIfClueFindMines => b.at(task_row(t), task_col(t)) is Clue,
    }
}

/// What holds of a board and its queue between two steps, whatever the mine layout.
pub open spec fn shape(b: Board, q: Seq<Task>) -> bool {
    &&& b.wf()
    &&& b.structural()
    &&& forall|t: Task| #[trigger] q.contains(t) ==> task_shape(b, t)
    &&& forall|row: int, col: int| b.inside(row, col) ==> #[trigger] pend(b, q, row, col)
}

/// If the `k`-th neighbor of `(row, col)` is open, the layout mines it and it is queued to
/// become a mine.
pub open spec fn mined_covered(
    b: Board,
    q: Seq<Task>,
    layout: Seq<bool>,
    row: int,
    col: int,
    k: int,
) -> bool {
    b.hit(Seq::empty(), Around::Open, row, col, k) ==> b.mined(
        layout,
        row + delta_row(k),
        col + delta_col(k),
    ) && queued(q, UpdateAction::ToMine, row + delta_row(k), col + delta_col(k))
}

/// Every open neighbor of `(row, col)` is a mine in the layout and queued to be marked
/// as one.
pub open spec fn all_mined_covered(
    b: Board,
    q: Seq<Task>,
    layout: Seq<bool>,
    row: int,
    col: int,
) -> bool {
    &&& mined_covered(b, q, layout, row, col, 0)
    &&& mined_covered(b, q, layout, row, col, 1)
    &&& mined_covered(b, q, layout, row, col, 2)
    &&& mined_covered(b, q, layout, row, col, 3)
    &&& mined_covered(b, q, layout, row, col, 4)
    &&& mined_covered(b, q, layout, row, col, 5)
    &&& mined_covered(b, q, layout, row, col, 6)
    &&& mined_covered(b, q, layout, row, col, 7)
}

/// A clue counts the mines of the layout on its open neighbors, or it was set to zero
/// because all of them are mines, which are queued to be marked.
pub open spec fn clue_ok(b: Board, q: Seq<Task>, layout: Seq<bool>, row: int, col: int) -> bool {
    b.at(row, col) matches CellState::Clue(n) ==> n == b.open_mines(layout, row, col) || (n == 0
        && all_mined_covered(b, q, layout, row, col))
}

/// What a queued task claims is true of the layout.
pub open spec fn task_true(b: Board, layout: Seq<bool>, t: Task) -> bool {
    match t.1 {
        UpdateAction::ToMine => b.mined(layout, task_row(t), task_col(t)),
        UpdateAction::ToEmpty => !b.mined(layout, task_row(t), task_col(t)),
        UpdateAction::CheckIfClueFindEmpties => b.open_mines(layout, task_row(t), task_col(t)) == 0,
        UpdateAction::CheckIfClueFindMines => true,
    }
}

/// The layout agrees with the board and with every queued task, and `hidden` counts its
/// mines that are not yet known.
pub open spec fn sound(b: Board, hidden: int, q: Seq<Task>, layout: Seq<bool>) -> bool {
    &&& b.agrees(layout)
    &&& hidden == b.hidden(layout)
    &&& forall|row: int, col: int| b.inside(row, col) ==> #[trigger] clue_ok(b, q, layout, row, col)
    &&& forall|t: Task| #[trigger] q.contains(t) ==> task_true(b, layout, t)
}

/// Two boards of the same dimensions.
pub open spec fn same_frame(b0: Board, b1: Board) -> bool {
    &&& b1.width == b0.width
    &&& b1.height == b0.height
    &&& b1.cells.len() == b0.cells.len()
}

/// What a clue that touches a newly marked mine becomes.
pub open spec fn lowered(state: CellState) -> CellState {
    match state {
        CellState::Clue(n) => if n > 0 {
            CellState::Clue((n - 1) as u8)
        } else {
            state
        },
        _ => state,
    }
}

/// The cell `(row, col)` after `(qr, qc)` was marked a mine.
pub open spec fn cell_after_mine(b0: Board, qr: int, qc: int, row: int, col: int) -> CellState {
    if row == qr && col == qc {
        CellState::Mine
    } else if adjacent(qr, qc, row, col) {
        lowered(b0.at(row, col))
    } else {
        b0.at(row, col)
    }
}

/// Whether the task is one that marking `(qr, qc)` a mine adds: a clue of one around it,
/// which reaches zero.
pub open spec fn fresh_after_mine(b0: Board, qr: int, qc: int, t: Task) -> bool {
    &&& t.1 == UpdateAction::CheckIfClueFindEmpties
    &&& b0.inside(task_row(t), task_col(t))
    &&& adjacent(qr, qc, task_row(t), task_col(t))
    &&& b0.at(task_row(t), task_col(t)) == CellState::Clue(1)
}

/// Whether the task is one that marking `(qr, qc)` empty adds: a positive clue around it.
pub open spec fn fresh_after_empty(b0: Board, qr: int, qc: int, t: Task) -> bool {
    &&& t.1 == UpdateAction::CheckIfClueFindMines
    &&& b0.inside(task_row(t), task_col(t))
    &&& adjacent(qr, qc, task_row(t), task_col(t))
    &&& b0.sat(Seq::empty(), Around::PositiveClue, task_row(t), task_col(t))
}

/// Whether the task is one that settling the neighbors of `(pr, pc)` adds: the verdict for
/// an open cell around it.
pub open spec fn fresh_verdict(b0: Board, pr: int, pc: int, verdict: UpdateAction, t: Task) -> bool {
    &&& t.1 == verdict
    &&& b0.inside(task_row(t), task_col(t))
    &&& adjacent(pr, pc, task_row(t), task_col(t))
    &&& b0.at(task_row(t), task_col(t)) is UnknownConstrained
}

/// The step for the task `ToMine` at `(qr, qc)`: the cell becomes a mine, each positive clue
/// around it counts one less, and those that reach zero are queued.
pub open spec fn step_to_mine(
    b0: Board,
    q0: Seq<Task>,
    b1: Board,
    q1: Seq<Task>,
    qr: int,
    qc: int,
) -> bool {
    &&& same_frame(b0, b1)
    &&& forall|row: int, col: int|
        b0.inside(row, col) ==> #[trigger] b1.at(row, col) == cell_after_mine(b0, qr, qc, row, col)
    &&& forall|t: Task| #[trigger]
        q1.contains(t) <==> (q0.contains(t) && t != task(qr, qc, UpdateAction::ToMine))
            || fresh_after_mine(b0, qr, qc, t)
}

/// Two boards whose cells are open alike, but for the cell `(qr, qc)`, count open
/// neighbors alike around every cell, but for that cell.
pub proof fn lemma_open_shift(
    b0: Board,
    b1: Board,
    layout: Seq<bool>,
    qr: int,
    qc: int,
    row: int,
    col: int,
)
    requires
        same_frame(b0, b1),
        b0.inside(qr, qc),
        forall|r: int, c: int|
            b0.inside(r, c) && !(r == qr && c == qc) ==> (#[trigger] b1.at(r, c)
                is UnknownConstrained <==> b0.at(r, c) is UnknownConstrained),
    ensures
        b1.open_count(row, col) == b0.open_count(row, col) + if adjacent(row, col, qr, qc) {
            b2i(b1.at(qr, qc) is UnknownConstrained) - b2i(b0.at(qr, qc) is UnknownConstrained)
        } else {
            0
        },
        b1.open_mines(layout, row, col) == b0.open_mines(layout, row, col) + if adjacent(
            row,
            col,
            qr,
            qc,
        ) && b0.mined(layout, qr, qc) {
            b2i(b1.at(qr, qc) is UnknownConstrained) - b2i(b0.at(qr, qc) is UnknownConstrained)
        } else {
            0
        },
        forall|k: int|
            0 <= k < 8 && !(row + delta_row(k) == qr && col + delta_col(k) == qc) ==> (#[trigger] b1.hit(
                Seq::empty(),
                Around::Open,
                row,
                col,
                k,
            ) <==> b0.hit(Seq::empty(), Around::Open, row, col, k)),
{
    assert forall|k: int|
        0 <= k < 8 && !(row + delta_row(k) == qr && col + delta_col(k) == qc) implies (#[trigger] b1.hit(
        Seq::empty(),
        Around::Open,
        row,
        col,
        k,
    ) <==> b0.hit(Seq::empty(), Around::Open, row, col, k)) by {
        if neighbor_inside(b0.width, b0.height, row, col, k) {
            assert(b0.inside(row + delta_row(k), col + delta_col(k)));
            assert(b1.at(row + delta_row(k), col + delta_col(k)) is UnknownConstrained <==> b0.at(
                row + delta_row(k),
                col + delta_col(k),
            ) is UnknownConstrained);
        }
    }
    assert forall|k: int|
        0 <= k < 8 && neighbor_inside(b0.width, b0.height, row, col, k) && !(row + delta_row(k) == qr
            && col + delta_col(k) == qc) implies #[trigger] b1.hit(
        layout,
        Around::OpenMine,
        row,
        col,
        k,
    ) == b0.hit(layout, Around::OpenMine, row, col, k) by {
        assert(b0.inside(row + delta_row(k), col + delta_col(k)));
        assert(b1.at(row + delta_row(k), col + delta_col(k)) is UnknownConstrained <==> b0.at(
            row + delta_row(k),
            col + delta_col(k),
        ) is UnknownConstrained);
    }
    b0.lemma_around_diff(Seq::empty(), b1, Seq::empty(), Around::Open, row, col, qr, qc);
    b0.lemma_around_diff(layout, b1, layout, Around::OpenMine, row, col, qr, qc);
}

/// The hidden mines of a layout change with the boards only where a cell turns into a
/// known mine or out of one.
pub proof fn lemma_hidden_shift(b0: Board, b1: Board, layout: Seq<bool>, qr: int, qc: int)
    requires
        b0.wf(),
        same_frame(b0, b1),
        b0.inside(qr, qc),
        layout.len() == b0.cells.len(),
        forall|r: int, c: int|
            b0.inside(r, c) && !(r == qr && c == qc) ==> (#[trigger] b1.at(r, c) is Mine <==> b0.at(
                r,
                c,
            ) is Mine),
    ensures
        b1.hidden(layout) == b0.hidden(layout) + if b0.mined(layout, qr, qc) {
            b2i(b0.at(qr, qc) is Mine) - b2i(b1.at(qr, qc) is Mine)
        } else {
            0
        },
{
    let j = flat(b0.width, qr, qc);
    b0.lemma_place(qr, qc);
    let f0 = b0.hidden_flags(layout);
    let f1 = b1.hidden_flags(layout);
    assert forall|i: int| 0 <= i < f0.len() && i != j implies f0[i] == f1[i] by {
        let cell = lemma_flat_onto(b0.width, b0.height, i);
        assert(b1.at(cell.0, cell.1) is Mine <==> b0.at(cell.0, cell.1) is Mine);
    }
    lemma_count_diff(f0, f1, j);
}

/// The step `ToMine` keeps every layout that agreed with the board and the queue.
pub proof fn lemma_to_mine_sound(
    b0: Board,
    h0: int,
    q0: Seq<Task>,
    b1: Board,
    q1: Seq<Task>,
    qr: int,
    qc: int,
    layout: Seq<bool>,
)
    requires
        shape(b0, q0),
        sound(b0, h0, q0, layout),
        q0.contains(task(qr, qc, UpdateAction::ToMine)),
        0 <= qr <= 0xffff,
        0 <= qc <= 0xffff,
        step_to_mine(b0, q0, b1, q1, qr, qc),
    ensures
        sound(b1, h0 - 1, q1, layout),
        h0 >= 1,
{
    let me = task(qr, qc, UpdateAction::ToMine);
    assert(task_shape(b0, me));
    assert(task_true(b0, layout, me));
    assert(b1.at(qr, qc) == cell_after_mine(b0, qr, qc, qr, qc));
    assert forall|r: int, c: int| b0.inside(r, c) && !(r == qr && c == qc) implies (#[trigger] b1.at(
        r,
        c,
    ) is Mine <==> b0.at(r, c) is Mine) && (b1.at(r, c) is UnknownConstrained <==> b0.at(r, c)
        is UnknownConstrained) by {
        assert(b1.at(r, c) == cell_after_mine(b0, qr, qc, r, c));
    }
    lemma_hidden_shift(b0, b1, layout, qr, qc);
    assert forall|row: int, col: int| b1.inside(row, col) implies match #[trigger] b1.at(row, col) {
        CellState::Mine => b1.mined(layout, row, col),
        CellState::Empty => !b1.mined(layout, row, col),
        CellState::Clue(_) => !b1.mined(layout, row, col),
        _ => true,
    } by {
        assert(b1.at(row, col) == cell_after_mine(b0, qr, qc, row, col));
        let s = b0.at(row, col);
    }
    assert forall|row: int, col: int| b1.inside(row, col) implies #[trigger] clue_ok(
        b1,
        q1,
        layout,
        row,
        col,
    ) by {
        lemma_to_mine_clue(b0, h0, q0, b1, q1, qr, qc, layout, row, col);
    }
    assert forall|t: Task| #[trigger] q1.contains(t) implies task_true(b1, layout, t) by {
        let r = task_row(t);
        let c = task_col(t);
        if q0.contains(t) {
            assert(task_true(b0, layout, t));
            assert(task_shape(b0, t));
        }
        lemma_open_shift(b0, b1, layout, qr, qc, r, c);
        if t.1 == UpdateAction::CheckIfClueFindEmpties {
            assert(clue_ok(b0, q0, layout, r, c));
        }
    }
}

/// The part of [`lemma_to_mine_sound`] that concerns one clue.
pub proof fn lemma_to_mine_clue(
    b0: Board,
    h0: int,
    q0: Seq<Task>,
    b1: Board,
    q1: Seq<Task>,
    qr: int,
    qc: int,
    layout: Seq<bool>,
    row: int,
    col: int,
)
    requires
        shape(b0, q0),
        sound(b0, h0, q0, layout),
        q0.contains(task(qr, qc, UpdateAction::ToMine)),
        0 <= qr <= 0xffff,
        0 <= qc <= 0xffff,
        step_to_mine(b0, q0, b1, q1, qr, qc),
        b0.inside(row, col),
    ensures
        clue_ok(b1, q1, layout, row, col),
{
    let me = task(qr, qc, UpdateAction::ToMine);
    assert(task_shape(b0, me));
    assert(task_true(b0, layout, me));
    assert(b1.at(qr, qc) == cell_after_mine(b0, qr, qc, qr, qc));
    assert forall|r: int, c: int| b0.inside(r, c) && !(r == qr && c == qc) implies (#[trigger] b1.at(
        r,
        c,
    ) is UnknownConstrained <==> b0.at(r, c) is UnknownConstrained) by {
        assert(b1.at(r, c) == cell_after_mine(b0, qr, qc, r, c));
    }
    lemma_open_shift(b0, b1, layout, qr, qc, row, col);
    lemma_offsets(row, col, qr, qc);
    assert(b1.at(row, col) == cell_after_mine(b0, qr, qc, row, col));
    assert(clue_ok(b0, q0, layout, row, col));
    if let CellState::Clue(n) = b1.at(row, col) {
        if n != b1.open_mines(layout, row, col) {
            assert(b0.at(row, col) == CellState::Clue(0));
            assert(all_mined_covered(b0, q0, layout, row, col));
            assert forall|k: int| 0 <= k < 8 implies mined_covered(b1, q1, layout, row, col, k) by {
                if b1.hit(Seq::empty(), Around::Open, row, col, k) {
                    let nr = row + delta_row(k);
                    let nc = col + delta_col(k);
                    assert(b1.at(nr, nc) == cell_after_mine(b0, qr, qc, nr, nc));
                    assert(!(nr == qr && nc == qc));
                    assert(b0.hit(Seq::empty(), Around::Open, row, col, k));
                    assert(mined_covered(b0, q0, layout, row, col, k));
                    assert(q0.contains(task(nr, nc, UpdateAction::ToMine)));
                    assert(task(nr, nc, UpdateAction::ToMine) != me);
                    assert(q1.contains(task(nr, nc, UpdateAction::ToMine)));
                }
            }
        }
    }
}

/// A count over all cells changes with the boards only at the one cell where the
/// counted property changes.
pub proof fn lemma_flags_shift(b0: Board, f0: Seq<bool>, f1: Seq<bool>, qr: int, qc: int)
    requires
        b0.wf(),
        b0.inside(qr, qc),
        f0.len() == b0.cells.len(),
        f1.len() == b0.cells.len(),
        forall|r: int, c: int|
            b0.inside(r, c) && !(r == qr && c == qc) ==> f1[#[trigger] flat(b0.width, r, c)]
                == f0[flat(b0.width, r, c)],
    ensures
        count_true(f1) == count_true(f0) - b2i(f0[flat(b0.width, qr, qc)]) + b2i(
            f1[flat(b0.width, qr, qc)],
        ),
{
    let j = flat(b0.width, qr, qc);
    b0.lemma_place(qr, qc);
    assert forall|i: int| 0 <= i < f0.len() && i != j implies f0[i] == f1[i] by {
        let cell = lemma_flat_onto(b0.width, b0.height, i);
        assert(f1[flat(b0.width, cell.0, cell.1)] == f0[flat(b0.width, cell.0, cell.1)]);
    }
    lemma_count_diff(f0, f1, j);
}

/// The number of open cells changes with the boards only at the one cell that changes
/// between open and not open.
pub proof fn lemma_open_cells_shift(b0: Board, b1: Board, qr: int, qc: int)
    requires
        b0.wf(),
        same_frame(b0, b1),
        b0.inside(qr, qc),
        forall|r: int, c: int|
            b0.inside(r, c) && !(r == qr && c == qc) ==> (#[trigger] b1.at(r, c)
                is UnknownConstrained <==> b0.at(r, c) is UnknownConstrained),
    ensures
        b1.open_cells() == b0.open_cells() - b2i(b0.at(qr, qc) is UnknownConstrained) + b2i(
            b1.at(qr, qc) is UnknownConstrained,
        ),
{
    b0.lemma_place(qr, qc);
    assert forall|r: int, c: int| b0.inside(r, c) && !(r == qr && c == qc) implies b1.open_flags()[#[trigger] flat(
        b0.width,
        r,
        c,
    )] == b0.open_flags()[flat(b0.width, r, c)] by {
        b0.lemma_place(r, c);
        assert(b1.at(r, c) is UnknownConstrained <==> b0.at(r, c) is UnknownConstrained);
    }
    lemma_flags_shift(b0, b0.open_flags(), b1.open_flags(), qr, qc);
}

/// The number of free cells changes with the boards only at the one cell that changes
/// between free and not free.
pub proof fn lemma_free_cells_shift(b0: Board, b1: Board, qr: int, qc: int)
    requires
        b0.wf(),
        same_frame(b0, b1),
        b0.inside(qr, qc),
        forall|r: int, c: int|
            b0.inside(r, c) && !(r == qr && c == qc) ==> (#[trigger] b1.at(r, c)
                is UnknownUnconstrained <==> b0.at(r, c) is UnknownUnconstrained),
    ensures
        b1.free_cells() == b0.free_cells() - b2i(b0.at(qr, qc) is UnknownUnconstrained) + b2i(
            b1.at(qr, qc) is UnknownUnconstrained,
        ),
{
    b0.lemma_place(qr, qc);
    assert forall|r: int, c: int| b0.inside(r, c) && !(r == qr && c == qc) implies b1.free_flags()[#[trigger] flat(
        b0.width,
        r,
        c,
    )] == b0.free_flags()[flat(b0.width, r, c)] by {
        b0.lemma_place(r, c);
        assert(b1.at(r, c) is UnknownUnconstrained <==> b0.at(r, c) is UnknownUnconstrained);
    }
    lemma_flags_shift(b0, b0.free_flags(), b1.free_flags(), qr, qc);
}

/// Boards whose cells are free alike and clues alike keep what [`Board::structural`] asks.
pub proof fn lemma_structural_kept(b0: Board, b1: Board)
    requires
        b0.structural(),
        same_frame(b0, b1),
        forall|r: int, c: int|
            b0.inside(r, c) ==> (#[trigger] b1.at(r, c) is UnknownUnconstrained ==> b0.at(r, c)
                is UnknownUnconstrained),
        forall|r: int, c: int|
            b0.inside(r, c) ==> (#[trigger] b1.at(r, c) matches CellState::Clue(n) ==> n <= 8
                && b0.at(r, c) is Clue),
    ensures
        b1.structural(),
{
    assert forall|row: int, col: int| b1.inside(row, col) implies #[trigger] b1.structural_at(
        row,
        col,
    ) by {
        if b1.at(row, col) is Clue {
            assert(b0.at(row, col) is Clue);
            assert(b0.structural_at(row, col));
            assert(b0.around(Seq::empty(), Around::Free, row, col) == 0);
            assert forall|k: int| 0 <= k < 8 implies !b1.hit(
                Seq::empty(),
                Around::Free,
                row,
                col,
                k,
            ) by {
                if neighbor_inside(b1.width, b1.height, row, col, k) {
                    let nr = row + delta_row(k);
                    let nc = col + delta_col(k);
                    assert(b0.inside(nr, nc));
                    assert(b1.at(nr, nc) is UnknownUnconstrained ==> b0.at(nr, nc)
                        is UnknownUnconstrained);
                    assert(!b0.hit(Seq::empty(), Around::Free, row, col, k));
                }
            }
        }
    }
}

/// The step `ToMine` keeps the board and the queue in shape, and settles one open cell.
pub proof fn lemma_to_mine_shape(
    b0: Board,
    h0: int,
    q0: Seq<Task>,
    b1: Board,
    q1: Seq<Task>,
    qr: int,
    qc: int,
    witness: Seq<bool>,
)
    requires
        shape(b0, q0),
        sound(b0, h0, q0, witness),
        q0.contains(task(qr, qc, UpdateAction::ToMine)),
        0 <= qr <= 0xffff,
        0 <= qc <= 0xffff,
        step_to_mine(b0, q0, b1, q1, qr, qc),
    ensures
        shape(b1, q1),
        b1.open_cells() == b0.open_cells() - 1,
{
    let me = task(qr, qc, UpdateAction::ToMine);
    assert(task_shape(b0, me));
    assert(task_true(b0, witness, me));
    assert(b1.at(qr, qc) == cell_after_mine(b0, qr, qc, qr, qc));
    assert forall|r: int, c: int| b0.inside(r, c) implies (#[trigger] b1.at(r, c)
        is UnknownUnconstrained ==> b0.at(r, c) is UnknownUnconstrained) && (b1.at(
        r,
        c,
    ) matches CellState::Clue(n) ==> n <= 8 && b0.at(r, c) is Clue) && (!(r == qr && c == qc) ==> (b1.at(
        r,
        c,
    ) is UnknownConstrained <==> b0.at(r, c) is UnknownConstrained)) by {
        assert(b1.at(r, c) == cell_after_mine(b0, qr, qc, r, c));
        assert(b0.structural_at(r, c));
    }
    lemma_structural_kept(b0, b1);
    lemma_open_cells_shift(b0, b1, qr, qc);
    assert forall|t: Task| #[trigger] q1.contains(t) implies task_shape(b1, t) by {
        let r = task_row(t);
        let c = task_col(t);
        if q0.contains(t) {
            assert(task_shape(b0, t));
            assert(task_true(b0, witness, t));
        }
        assert(b1.at(r, c) == cell_after_mine(b0, qr, qc, r, c));
    }
    assert forall|row: int, col: int| b1.inside(row, col) implies #[trigger] pend(
        b1,
        q1,
        row,
        col,
    ) by {
        lemma_open_shift(b0, b1, witness, qr, qc, row, col);
        lemma_offsets(row, col, qr, qc);
        assert(b1.at(row, col) == cell_after_mine(b0, qr, qc, row, col));
        assert(pend(b0, q0, row, col));
        assert(task_row(task(row, col, UpdateAction::CheckIfClueFindEmpties)) == row);
        assert(task_col(task(row, col, UpdateAction::CheckIfClueFindEmpties)) == col);
        let or_empty = b1.at(row, col) == CellState::Clue(0);
        if b0.at(row, col) is Clue && all_covered(b0, q0, row, col, or_empty) {
            assert forall|k: int| 0 <= k < 8 implies covered(b1, q1, row, col, k, or_empty) by {
                if b1.hit(Seq::empty(), Around::Open, row, col, k) {
                    let nr = row + delta_row(k);
                    let nc = col + delta_col(k);
                    assert(!(nr == qr && nc == qc));
                    assert(b0.hit(Seq::empty(), Around::Open, row, col, k));
                    assert(covered(b0, q0, row, col, k, or_empty));
                    assert(task(nr, nc, UpdateAction::ToMine) != me);
                    assert(task(nr, nc, UpdateAction::ToEmpty) != me);
                }
            }
        }
    }
}

/// The step for the task `ToEmpty` at `(qr, qc)`: the cell becomes empty, and each
/// positive clue around it is queued to see whether its open neighbors are now all mines.
pub open spec fn step_to_empty(
    b0: Board,
    q0: Seq<Task>,
    b1: Board,
    q1: Seq<Task>,
    qr: int,
    qc: int,
) -> bool {
    &&& same_frame(b0, b1)
    &&& forall|row: int, col: int|
        b0.inside(row, col) ==> #[trigger] b1.at(row, col) == if row == qr && col == qc {
            CellState::Empty
        } else {
            b0.at(row, col)
        }
    &&& forall|t: Task| #[trigger]
        q1.contains(t) <==> (q0.contains(t) && t != task(qr, qc, UpdateAction::ToEmpty))
            || fresh_after_empty(b0, qr, qc, t)
}

/// The step `ToEmpty` keeps every layout that agreed with the board and the queue.
pub proof fn lemma_to_empty_sound(
    b0: Board,
    h0: int,
    q0: Seq<Task>,
    b1: Board,
    q1: Seq<Task>,
    qr: int,
    qc: int,
    layout: Seq<bool>,
)
    requires
        shape(b0, q0),
        sound(b0, h0, q0, layout),
        q0.contains(task(qr, qc, UpdateAction::ToEmpty)),
        0 <= qr <= 0xffff,
        0 <= qc <= 0xffff,
        step_to_empty(b0, q0, b1, q1, qr, qc),
    ensures
        sound(b1, h0, q1, layout),
{
    let me = task(qr, qc, UpdateAction::ToEmpty);
    assert(task_shape(b0, me));
    assert(task_true(b0, layout, me));
    assert forall|r: int, c: int| b0.inside(r, c) && !(r == qr && c == qc) implies (#[trigger] b1.at(
        r,
        c,
    ) is Mine <==> b0.at(r, c) is Mine) && (b1.at(r, c) is UnknownConstrained <==> b0.at(r, c)
        is UnknownConstrained) by {}
    lemma_hidden_shift(b0, b1, layout, qr, qc);
    assert forall|row: int, col: int| b1.inside(row, col) implies #[trigger] clue_ok(
        b1,
        q1,
        layout,
        row,
        col,
    ) by {
        lemma_open_shift(b0, b1, layout, qr, qc, row, col);
        assert(clue_ok(b0, q0, layout, row, col));
        if let CellState::Clue(n) = b1.at(row, col) {
            if n != b1.open_mines(layout, row, col) {
                assert(all_mined_covered(b0, q0, layout, row, col));
                assert forall|k: int| 0 <= k < 8 implies mined_covered(
                    b1,
                    q1,
                    layout,
                    row,
                    col,
                    k,
                ) by {
                    if b1.hit(Seq::empty(), Around::Open, row, col, k) {
                        let nr = row + delta_row(k);
                        let nc = col + delta_col(k);
                        assert(!(nr == qr && nc == qc));
                        assert(b0.hit(Seq::empty(), Around::Open, row, col, k));
                        assert(mined_covered(b0, q0, layout, row, col, k));
                        assert(task(nr, nc, UpdateAction::ToMine) != me);
                    }
                }
            }
        }
    }
    assert forall|t: Task| #[trigger] q1.contains(t) implies task_true(b1, layout, t) by {
        let r = task_row(t);
        let c = task_col(t);
        if q0.contains(t) {
            assert(task_true(b0, layout, t));
            assert(task_shape(b0, t));
        }
        lemma_open_shift(b0, b1, layout, qr, qc, r, c);
    }
}

/// The step `ToEmpty` keeps the board and the queue in shape, and settles one open cell.
pub proof fn lemma_to_empty_shape(
    b0: Board,
    h0: int,
    q0: Seq<Task>,
    b1: Board,
    q1: Seq<Task>,
    qr: int,
    qc: int,
    witness: Seq<bool>,
)
    requires
        shape(b0, q0),
        sound(b0, h0, q0, witness),
        q0.contains(task(qr, qc, UpdateAction::ToEmpty)),
        0 <= qr <= 0xffff,
        0 <= qc <= 0xffff,
        step_to_empty(b0, q0, b1, q1, qr, qc),
    ensures
        shape(b1, q1),
        b1.open_cells() == b0.open_cells() - 1,
{
    let me = task(qr, qc, UpdateAction::ToEmpty);
    assert(task_shape(b0, me));
    assert(task_true(b0, witness, me));
    assert forall|r: int, c: int| b0.inside(r, c) implies (#[trigger] b1.at(r, c)
        is UnknownUnconstrained ==> b0.at(r, c) is UnknownUnconstrained) && (b1.at(
        r,
        c,
    ) matches CellState::Clue(n) ==> n <= 8 && b0.at(r, c) is Clue) && (!(r == qr && c == qc) ==> (b1.at(
        r,
        c,
    ) is UnknownConstrained <==> b0.at(r, c) is UnknownConstrained)) by {
        assert(b0.structural_at(r, c));
    }
    lemma_structural_kept(b0, b1);
    lemma_open_cells_shift(b0, b1, qr, qc);
    assert forall|t: Task| #[trigger] q1.contains(t) implies task_shape(b1, t) by {
        if q0.contains(t) {
            assert(task_shape(b0, t));
            assert(task_true(b0, witness, t));
        }
    }
    assert forall|row: int, col: int| b1.inside(row, col) implies #[trigger] pend(
        b1,
        q1,
        row,
        col,
    ) by {
        lemma_open_shift(b0, b1, witness, qr, qc, row, col);
        lemma_offsets(row, col, qr, qc);
        assert(pend(b0, q0, row, col));
        assert(task_row(task(row, col, UpdateAction::CheckIfClueFindMines)) == row);
        assert(task_col(task(row, col, UpdateAction::CheckIfClueFindMines)) == col);
        let or_empty = b1.at(row, col) == CellState::Clue(0);
        if b0.at(row, col) is Clue && all_covered(b0, q0, row, col, or_empty) {
            assert forall|k: int| 0 <= k < 8 implies covered(b1, q1, row, col, k, or_empty) by {
                if b1.hit(Seq::empty(), Around::Open, row, col, k) {
                    let nr = row + delta_row(k);
                    let nc = col + delta_col(k);
                    assert(!(nr == qr && nc == qc));
                    assert(b0.hit(Seq::empty(), Around::Open, row, col, k));
                    assert(covered(b0, q0, row, col, k, or_empty));
                    assert(task(nr, nc, UpdateAction::ToMine) != me);
                    assert(task(nr, nc, UpdateAction::ToEmpty) != me);
                }
            }
        }
    }
}

/// The step for the task `CheckIfClueFindEmpties` at the clue `(pr, pc)`, or for the task
/// `CheckIfClueFindMines` at a clue whose open neighbors are all mines: each open neighbor
/// is queued with `verdict`, and the clue reads `after`.
pub open spec fn step_settle_around(
    b0: Board,
    q0: Seq<Task>,
    b1: Board,
    q1: Seq<Task>,
    pr: int,
    pc: int,
    done: UpdateAction,
    verdict: UpdateAction,
) -> bool {
    &&& same_frame(b0, b1)
    &&& forall|row: int, col: int|
        b0.inside(row, col) ==> #[trigger] b1.at(row, col) == if row == pr && col == pc {
            CellState::Clue(0)
        } else {
            b0.at(row, col)
        }
    &&& forall|t: Task| #[trigger]
        q1.contains(t) <==> (q0.contains(t) && t != task(pr, pc, done)) || fresh_verdict(
            b0,
            pr,
            pc,
            verdict,
            t,
        )
}

/// What the two kinds of settling step need of the clue they start from.
pub open spec fn settle_ready(
    b0: Board,
    q0: Seq<Task>,
    pr: int,
    pc: int,
    done: UpdateAction,
    verdict: UpdateAction,
) -> bool {
    &&& q0.contains(task(pr, pc, done))
    &&& 0 <= pr <= 0xffff
    &&& 0 <= pc <= 0xffff
    &&& done == UpdateAction::CheckIfClueFindEmpties ==> verdict == UpdateAction::ToEmpty
    &&& done == UpdateAction::CheckIfClueFindMines ==> verdict == UpdateAction::ToMine && (b0.at(
        pr,
        pc,
    ) matches CellState::Clue(n) && n == b0.open_count(pr, pc))
    &&& done == UpdateAction::CheckIfClueFindEmpties || done == UpdateAction::CheckIfClueFindMines
}

/// Open neighbors that were mined and queued stay so, when the queue loses only a task
/// that marks no mine and no cell opens.
pub proof fn lemma_mined_covered_kept(
    b0: Board,
    q0: Seq<Task>,
    b1: Board,
    q1: Seq<Task>,
    layout: Seq<bool>,
    row: int,
    col: int,
    me: Task,
)
    requires
        same_frame(b0, b1),
        all_mined_covered(b0, q0, layout, row, col),
        me.1 != UpdateAction::ToMine,
        forall|k: int|
            0 <= k < 8 && #[trigger] b1.hit(Seq::empty(), Around::Open, row, col, k) ==> b0.hit(
                Seq::empty(),
                Around::Open,
                row,
                col,
                k,
            ),
        forall|t: Task| q0.contains(t) && t != me ==> #[trigger] q1.contains(t),
    ensures
        all_mined_covered(b1, q1, layout, row, col),
{
    assert forall|k: int| 0 <= k < 8 implies mined_covered(b1, q1, layout, row, col, k) by {
        if b1.hit(Seq::empty(), Around::Open, row, col, k) {
            assert(mined_covered(b0, q0, layout, row, col, k));
            let t = task(row + delta_row(k), col + delta_col(k), UpdateAction::ToMine);
            assert(q0.contains(t) && t != me);
        }
    }
}

/// A clue that was set to zero because its open neighbors are as many as the mines it
/// counted has only mines around it, each queued by the step.
pub proof fn lemma_mined_covered_fresh(
    b0: Board,
    b1: Board,
    q1: Seq<Task>,
    layout: Seq<bool>,
    pr: int,
    pc: int,
)
    requires
        same_frame(b0, b1),
        b0.wf(),
        b0.inside(pr, pc),
        b0.open_mines(layout, pr, pc) == b0.open_count(pr, pc),
        forall|k: int|
            0 <= k < 8 && #[trigger] b1.hit(Seq::empty(), Around::Open, pr, pc, k) ==> b0.hit(
                Seq::empty(),
                Around::Open,
                pr,
                pc,
                k,
            ),
        forall|t: Task| fresh_verdict(b0, pr, pc, UpdateAction::ToMine, t) ==> #[trigger] q1.contains(t),
    ensures
        all_mined_covered(b1, q1, layout, pr, pc),
{
    assert forall|k: int| 0 <= k < 8 implies mined_covered(b1, q1, layout, pr, pc, k) by {
        if b1.hit(Seq::empty(), Around::Open, pr, pc, k) {
            let nr = pr + delta_row(k);
            let nc = pc + delta_col(k);
            let t = task(nr, nc, UpdateAction::ToMine);
            assert(task_row(t) == nr && task_col(t) == nc);
            assert(adjacent(pr, pc, nr, nc));
            assert(fresh_verdict(b0, pr, pc, UpdateAction::ToMine, t));
            assert(b0.hit(layout, Around::OpenMine, pr, pc, k));
        }
    }
}

/// The part of [`lemma_settle_sound`] that concerns one clue.
pub proof fn lemma_settle_clue(
    b0: Board,
    h0: int,
    q0: Seq<Task>,
    b1: Board,
    q1: Seq<Task>,
    pr: int,
    pc: int,
    done: UpdateAction,
    verdict: UpdateAction,
    layout: Seq<bool>,
    row: int,
    col: int,
)
    requires
        shape(b0, q0),
        sound(b0, h0, q0, layout),
        settle_ready(b0, q0, pr, pc, done, verdict),
        step_settle_around(b0, q0, b1, q1, pr, pc, done, verdict),
        b0.inside(row, col),
    ensures
        clue_ok(b1, q1, layout, row, col),
{
    let me = task(pr, pc, done);
    assert(task_shape(b0, me));
    assert(task_true(b0, layout, me));
    assert forall|r: int, c: int| b0.inside(r, c) implies (#[trigger] b1.at(r, c)
        is UnknownConstrained <==> b0.at(r, c) is UnknownConstrained) by {}
    lemma_open_shift(b0, b1, layout, pr, pc, row, col);
    assert(clue_ok(b0, q0, layout, row, col));
    assert(b1.at(pr, pc) == CellState::Clue(0));
    assert forall|k: int|
        0 <= k < 8 && #[trigger] b1.hit(Seq::empty(), Around::Open, row, col, k) implies b0.hit(
        Seq::empty(),
        Around::Open,
        row,
        col,
        k,
    ) by {
        assert(b0.inside(row + delta_row(k), col + delta_col(k)));
    }
    let here = row == pr && col == pc;
    if b1.at(row, col) is Clue {
        if all_mined_covered(b0, q0, layout, row, col) {
            lemma_mined_covered_kept(b0, q0, b1, q1, layout, row, col, me);
        } else if here && done == UpdateAction::CheckIfClueFindMines {
            lemma_mined_covered_fresh(b0, b1, q1, layout, pr, pc);
        }
    }
}

/// The part of [`lemma_settle_sound`] that concerns one queued task.
pub proof fn lemma_settle_task(
    b0: Board,
    h0: int,
    q0: Seq<Task>,
    b1: Board,
    q1: Seq<Task>,
    pr: int,
    pc: int,
    done: UpdateAction,
    verdict: UpdateAction,
    layout: Seq<bool>,
    t: Task,
)
    requires
        shape(b0, q0),
        sound(b0, h0, q0, layout),
        settle_ready(b0, q0, pr, pc, done, verdict),
        step_settle_around(b0, q0, b1, q1, pr, pc, done, verdict),
        q1.contains(t),
    ensures
        task_true(b1, layout, t),
{
    let me = task(pr, pc, done);
    assert(task_shape(b0, me));
    assert(task_true(b0, layout, me));
    assert(clue_ok(b0, q0, layout, pr, pc));
    assert forall|r: int, c: int| b0.inside(r, c) implies (#[trigger] b1.at(r, c)
        is UnknownConstrained <==> b0.at(r, c) is UnknownConstrained) by {}
    let r = task_row(t);
    let c = task_col(t);
    lemma_open_shift(b0, b1, layout, pr, pc, r, c);
    if q0.contains(t) && t != me {
        assert(task_true(b0, layout, t));
        assert(task_shape(b0, t));
    } else {
        assert(fresh_verdict(b0, pr, pc, verdict, t));
        lemma_offsets(pr, pc, r, c);
        let k = offset_between(pr, pc, r, c);
        assert(b0.hit(Seq::empty(), Around::Open, pr, pc, k));
        if done == UpdateAction::CheckIfClueFindMines {
            if all_mined_covered(b0, q0, layout, pr, pc) {
                assert(mined_covered(b0, q0, layout, pr, pc, k));
            } else {
                assert(b0.open_mines(layout, pr, pc) == b0.open_count(pr, pc));
                assert(b0.hit(layout, Around::OpenMine, pr, pc, k));
            }
        } else {
            assert(b0.open_mines(layout, pr, pc) == 0);
            assert(!b0.hit(layout, Around::OpenMine, pr, pc, k));
        }
    }
}

/// A settling step keeps every layout that agreed with the board and the queue.
pub proof fn lemma_settle_sound(
    b0: Board,
    h0: int,
    q0: Seq<Task>,
    b1: Board,
    q1: Seq<Task>,
    pr: int,
    pc: int,
    done: UpdateAction,
    verdict: UpdateAction,
    layout: Seq<bool>,
)
    requires
        shape(b0, q0),
        sound(b0, h0, q0, layout),
        settle_ready(b0, q0, pr, pc, done, verdict),
        step_settle_around(b0, q0, b1, q1, pr, pc, done, verdict),
    ensures
        sound(b1, h0, q1, layout),
{
    let me = task(pr, pc, done);
    assert(task_shape(b0, me));
    assert forall|r: int, c: int| b0.inside(r, c) implies (#[trigger] b1.at(r, c) is Mine <==> b0.at(
        r,
        c,
    ) is Mine) by {}
    lemma_hidden_shift(b0, b1, layout, pr, pc);
    assert(b1.agrees(layout)) by {
        assert forall|row: int, col: int| b1.inside(row, col) implies match #[trigger] b1.at(
            row,
            col,
        ) {
            CellState::Mine => b1.mined(layout, row, col),
            CellState::Empty => !b1.mined(layout, row, col),
            CellState::Clue(_) => !b1.mined(layout, row, col),
            _ => true,
        } by {
            let s = b0.at(row, col);
        }
    }
    assert forall|row: int, col: int| b1.inside(row, col) implies #[trigger] clue_ok(
        b1,
        q1,
        layout,
        row,
        col,
    ) by {
        lemma_settle_clue(b0, h0, q0, b1, q1, pr, pc, done, verdict, layout, row, col);
    }
    assert forall|t: Task| #[trigger] q1.contains(t) implies task_true(b1, layout, t) by {
        lemma_settle_task(b0, h0, q0, b1, q1, pr, pc, done, verdict, layout, t);
    }
}

/// A settling step keeps the board and the queue in shape, and leaves the open cells open.
pub proof fn lemma_settle_shape(
    b0: Board,
    h0: int,
    q0: Seq<Task>,
    b1: Board,
    q1: Seq<Task>,
    pr: int,
    pc: int,
    done: UpdateAction,
    verdict: UpdateAction,
    witness: Seq<bool>,
)
    requires
        shape(b0, q0),
        sound(b0, h0, q0, witness),
        settle_ready(b0, q0, pr, pc, done, verdict),
        step_settle_around(b0, q0, b1, q1, pr, pc, done, verdict),
    ensures
        shape(b1, q1),
        b1.open_cells() == b0.open_cells(),
{
    let me = task(pr, pc, done);
    assert(task_shape(b0, me));
    assert forall|r: int, c: int| b0.inside(r, c) implies (#[trigger] b1.at(r, c)
        is UnknownUnconstrained ==> b0.at(r, c) is UnknownUnconstrained) && (b1.at(
        r,
        c,
    ) matches CellState::Clue(n) ==> n <= 8 && b0.at(r, c) is Clue) && (b1.at(r, c)
        is UnknownConstrained <==> b0.at(r, c) is UnknownConstrained) by {
        assert(b0.structural_at(r, c));
    }
    lemma_structural_kept(b0, b1);
    lemma_open_cells_shift(b0, b1, pr, pc);
    assert forall|t: Task| #[trigger] q1.contains(t) implies task_shape(b1, t) by {
        if q0.contains(t) {
            assert(task_shape(b0, t));
        }
    }
    assert forall|row: int, col: int| b1.inside(row, col) implies #[trigger] pend(
        b1,
        q1,
        row,
        col,
    ) by {
        lemma_open_shift(b0, b1, witness, pr, pc, row, col);
        assert(pend(b0, q0, row, col));
        let or_empty = b1.at(row, col) == CellState::Clue(0);
        if b1.at(row, col) is Clue {
            if row == pr && col == pc {
                assert forall|k: int| 0 <= k < 8 implies covered(b1, q1, row, col, k, true) by {
                    if b1.hit(Seq::empty(), Around::Open, row, col, k) {
                        let nr = row + delta_row(k);
                        let nc = col + delta_col(k);
                        lemma_offsets(pr, pc, nr, nc);
                        let t = task(nr, nc, verdict);
                        assert(task_row(t) == nr && task_col(t) == nc);
                        assert(q1.contains(t));
                    }
                }
            } else {
                assert(task(row, col, UpdateAction::CheckIfClueFindEmpties) != me);
                assert(task(row, col, UpdateAction::CheckIfClueFindMines) != me);
                if all_covered(b0, q0, row, col, or_empty) {
                    assert forall|k: int| 0 <= k < 8 implies covered(
                        b1,
                        q1,
                        row,
                        col,
                        k,
                        or_empty,
                    ) by {
                        if b1.hit(Seq::empty(), Around::Open, row, col, k) {
                            let nr = row + delta_row(k);
                            let nc = col + delta_col(k);
                            assert(covered(b0, q0, row, col, k, or_empty));
                            assert(task(nr, nc, UpdateAction::ToMine) != me);
                            assert(task(nr, nc, UpdateAction::ToEmpty) != me);
                        }
                    }
                }
            }
        }
    }
}

/// Dropping the task `CheckIfClueFindMines` of a clue that has more open neighbors than it
/// counts mines changes nothing else.
pub open spec fn step_drop(b0: Board, q0: Seq<Task>, q1: Seq<Task>, pr: int, pc: int) -> bool {
    &&& q0.contains(task(pr, pc, UpdateAction::CheckIfClueFindMines))
    &&& (b0.at(pr, pc) matches CellState::Clue(n) && n != b0.open_count(pr, pc))
    &&& forall|t: Task| #[trigger]
        q1.contains(t) <==> q0.contains(t) && t != task(pr, pc, UpdateAction::CheckIfClueFindMines)
}

/// Dropping such a task keeps every layout, and the board and the queue in shape.
pub proof fn lemma_drop(
    b0: Board,
    h0: int,
    q0: Seq<Task>,
    q1: Seq<Task>,
    pr: int,
    pc: int,
    layout: Seq<bool>,
)
    requires
        shape(b0, q0),
        sound(b0, h0, q0, layout),
        0 <= pr <= 0xffff,
        0 <= pc <= 0xffff,
        step_drop(b0, q0, q1, pr, pc),
    ensures
        sound(b0, h0, q1, layout),
        shape(b0, q1),
{
    let me = task(pr, pc, UpdateAction::CheckIfClueFindMines);
    assert(task_shape(b0, me));
    assert forall|row: int, col: int| b0.inside(row, col) implies #[trigger] clue_ok(
        b0,
        q1,
        layout,
        row,
        col,
    ) by {
        assert(clue_ok(b0, q0, layout, row, col));
        if b0.at(row, col) is Clue && all_mined_covered(b0, q0, layout, row, col) {
            assert forall|k: int| 0 <= k < 8 implies mined_covered(b0, q1, layout, row, col, k) by {
                assert(mined_covered(b0, q0, layout, row, col, k));
                assert(task(row + delta_row(k), col + delta_col(k), UpdateAction::ToMine) != me);
            }
        }
    }
    assert forall|t: Task| #[trigger] q1.contains(t) implies task_true(b0, layout, t) && task_shape(
        b0,
        t,
    ) by {
        assert(task_true(b0, layout, t));
        assert(task_shape(b0, t));
    }
    assert forall|row: int, col: int| b0.inside(row, col) implies #[trigger] pend(
        b0,
        q1,
        row,
        col,
    ) by {
        assert(pend(b0, q0, row, col));
        let or_empty = b0.at(row, col) == CellState::Clue(0);
        assert(task(row, col, UpdateAction::CheckIfClueFindEmpties) != me);
        if !(row == pr && col == pc) {
            assert(task(row, col, UpdateAction::CheckIfClueFindMines) != me);
        }
        if b0.at(row, col) is Clue && all_covered(b0, q0, row, col, or_empty) {
            assert forall|k: int| 0 <= k < 8 implies covered(b0, q1, row, col, k, or_empty) by {
                assert(covered(b0, q0, row, col, k, or_empty));
                assert(task(row + delta_row(k), col + delta_col(k), UpdateAction::ToMine) != me);
                assert(task(row + delta_row(k), col + delta_col(k), UpdateAction::ToEmpty) != me);
            }
        }
    }
}

/// With nothing queued, a board in shape is stable, and a layout that is sound agrees with
/// every clue.
pub proof fn lemma_settled(b: Board, h: int, layout: Seq<bool>)
    requires
        shape(b, Seq::<Task>::empty()),
        sound(b, h, Seq::<Task>::empty(), layout),
    ensures
        b.stable(),
        b.consistent(layout),
{
    let q = Seq::<Task>::empty();
    assert forall|row: int, col: int| b.inside(row, col) implies #[trigger] b.stable_at(
        row,
        col,
    ) by {
        assert(pend(b, q, row, col));
        assert(clue_ok(b, q, layout, row, col));
        b.lemma_open_mines_le(layout, row, col);
        assert forall|t: Task| !q.contains(t) by {}
    }
    assert forall|row: int, col: int| b.inside(row, col) implies #[trigger] b.exact_at(
        layout,
        row,
        col,
    ) by {
        assert(pend(b, q, row, col));
        assert(clue_ok(b, q, layout, row, col));
        b.lemma_open_mines_le(layout, row, col);
        assert forall|t: Task| !q.contains(t) by {}
    }
}

/// How much a task weighs in the measure that shows that the deductions come to an end.
pub open spec fn weight(t: Task) -> nat {
    match t.1 {
        UpdateAction::ToMine => 1,
        UpdateAction::ToEmpty => 1,
        _ => 9,
    }
}

/// The weight of all queued tasks.
pub open spec fn load(q: Seq<Task>) -> nat
    decreases q.len(),
{
    if q.len() == 0 {
        0
    } else {
        load(q.drop_last()) + weight(q.last())
    }
}

/// A task pushed on a queue that lacks it: what the queue holds, and what it weighs.
pub proof fn lemma_queue_push(q: Seq<Task>, t: Task)
    ensures
        forall|x: Task| #[trigger] q.push(t).contains(x) <==> q.contains(x) || x == t,
        load(q.push(t)) == load(q) + weight(t),
        q.no_duplicates() && !q.contains(t) ==> q.push(t).no_duplicates(),
{
    assert(q.push(t).drop_last() =~= q);
    assert forall|x: Task| #[trigger] q.push(t).contains(x) <==> q.contains(x) || x == t by {
        if q.push(t).contains(x) {
            let i = choose|i: int| 0 <= i < q.push(t).len() && q.push(t)[i] == x;
            if i < q.len() {
                assert(q[i] == x);
            }
        }
        if q.contains(x) {
            let i = choose|i: int| 0 <= i < q.len() && q[i] == x;
            assert(q.push(t)[i] == x);
        }
        if x == t {
            assert(q.push(t)[q.len() as int] == x);
        }
    }
}

/// The weight of a queue without its first task.
pub proof fn lemma_load_tail(q: Seq<Task>)
    requires
        q.len() > 0,
    ensures
        load(q.subrange(1, q.len() as int)) == load(q) - weight(q[0]),
    decreases q.len(),
{
    let rest = q.subrange(1, q.len() as int);
    if q.len() == 1 {
        assert(q.drop_last() =~= Seq::<Task>::empty());
        assert(rest =~= Seq::<Task>::empty());
        assert(load(q.drop_last()) == 0);
        assert(q.last() == q[0]);
    } else {
        lemma_load_tail(q.drop_last());
        assert(rest.drop_last() =~= q.drop_last().subrange(1, q.len() - 1));
        assert(rest.last() == q.last());
        assert(q.drop_last()[0] == q[0]);
    }
}

/// A queue without duplicates, after its first task was taken off.
pub proof fn lemma_queue_pop(q: Seq<Task>)
    requires
        q.len() > 0,
        q.no_duplicates(),
    ensures
        q.subrange(1, q.len() as int).no_duplicates(),
        forall|x: Task| #[trigger]
            q.subrange(1, q.len() as int).contains(x) <==> q.contains(x) && x != q[0],
        load(q.subrange(1, q.len() as int)) == load(q) - weight(q[0]),
{
    let rest = q.subrange(1, q.len() as int);
    lemma_load_tail(q);
    assert forall|x: Task| #[trigger] rest.contains(x) <==> q.contains(x) && x != q[0] by {
        if rest.contains(x) {
            let i = choose|i: int| 0 <= i < rest.len() && rest[i] == x;
            assert(q[i + 1] == x);
        }
        if q.contains(x) && x != q[0] {
            let i = choose|i: int| 0 <= i < q.len() && q[i] == x;
            assert(rest[i - 1] == x);
        }
    }
}

/// A board whose cells have gone on from those of another: what was settled stays, an
/// open cell may have been settled, and a clue may count fewer mines.
pub open spec fn refines(b0: Board, b1: Board) -> bool {
    &&& same_frame(b0, b1)
    &&& forall|row: int, col: int|
        b0.inside(row, col) ==> match b0.at(row, col) {
            CellState::UnknownConstrained => !(#[trigger] b1.at(row, col) is UnknownUnconstrained)
                && !(b1.at(row, col) is Clue),
            CellState::Clue(n) => b1.at(row, col) matches CellState::Clue(m) && m <= n,
            s => b1.at(row, col) == s,
        }
}

/// The tasks that a round of deductions starts from: one action for each seed cell.
pub open spec fn seed_tasks(seed: Seq<(u16, u16)>, action: UpdateAction) -> Seq<Task> {
    Seq::new(seed.len(), |i: int| (seed[i], action))
}

/// A task to mark a mine shows that a mine is still hidden.
pub proof fn lemma_hidden_positive(
    b0: Board,
    h0: int,
    q0: Seq<Task>,
    layout: Seq<bool>,
    qr: int,
    qc: int,
)
    requires
        shape(b0, q0),
        sound(b0, h0, q0, layout),
        q0.contains(task(qr, qc, UpdateAction::ToMine)),
        0 <= qr <= 0xffff,
        0 <= qc <= 0xffff,
    ensures
        h0 >= 1,
{
    let me = task(qr, qc, UpdateAction::ToMine);
    assert(task_shape(b0, me));
    assert(task_true(b0, layout, me));
    b0.lemma_place(qr, qc);
    crate::counting::lemma_count_positive(b0.hidden_flags(layout), flat(b0.width, qr, qc));
}

/// A clue never counts more mines than it has open neighbors.
pub proof fn lemma_clue_le_open(
    b0: Board,
    h0: int,
    q0: Seq<Task>,
    layout: Seq<bool>,
    row: int,
    col: int,
)
    requires
        sound(b0, h0, q0, layout),
        b0.inside(row, col),
    ensures
        b0.at(row, col) matches CellState::Clue(n) ==> n <= b0.open_count(row, col),
{
    assert(clue_ok(b0, q0, layout, row, col));
    b0.lemma_open_mines_le(layout, row, col);
    b0.lemma_around_bounds(Seq::empty(), Around::Open, row, col);
}

/// A board has gone on from itself.
pub proof fn lemma_refines_same(b: Board)
    ensures
        refines(b, b),
{
}

/// Going on from a board that went on from another.
pub proof fn lemma_refines_trans(b0: Board, b1: Board, b2: Board)
    requires
        refines(b0, b1),
        refines(b1, b2),
    ensures
        refines(b0, b2),
{
    assert forall|row: int, col: int| b0.inside(row, col) implies match b0.at(row, col) {
        CellState::UnknownConstrained => !(#[trigger] b2.at(row, col) is UnknownUnconstrained) && !(b2.at(
            row,
            col,
        ) is Clue),
        CellState::Clue(n) => b2.at(row, col) matches CellState::Clue(m) && m <= n,
        s => b2.at(row, col) == s,
    } by {
        let s1 = b1.at(row, col);
    }
}

/// Each step goes on from the board before it.
pub proof fn lemma_steps_refine(b0: Board, q0: Seq<Task>, b1: Board, q1: Seq<Task>, r: int, c: int)
    requires
        b0.inside(r, c),
        b0.at(r, c) is UnknownConstrained || b0.at(r, c) is Clue,
        b0.at(r, c) is UnknownConstrained ==> step_to_mine(b0, q0, b1, q1, r, c) || step_to_empty(
            b0,
            q0,
            b1,
            q1,
            r,
            c,
        ),
        b0.at(r, c) is Clue ==> exists|done: UpdateAction, verdict: UpdateAction|
            step_settle_around(b0, q0, b1, q1, r, c, done, verdict),
    ensures
        refines(b0, b1),
{
    assert forall|row: int, col: int| b0.inside(row, col) implies match b0.at(row, col) {
        CellState::UnknownConstrained => !(#[trigger] b1.at(row, col) is UnknownUnconstrained) && !(b1.at(
            row,
            col,
        ) is Clue),
        CellState::Clue(n) => b1.at(row, col) matches CellState::Clue(m) && m <= n,
        s => b1.at(row, col) == s,
    } by {
        if b0.at(r, c) is UnknownConstrained {
            if step_to_mine(b0, q0, b1, q1, r, c) {
                assert(b1.at(row, col) == cell_after_mine(b0, r, c, row, col));
            } else {
                assert(b1.at(row, col) == if row == r && col == c {
                    CellState::Empty
                } else {
                    b0.at(row, col)
                });
            }
        } else {
            let (done, verdict) = choose|done: UpdateAction, verdict: UpdateAction|
                step_settle_around(b0, q0, b1, q1, r, c, done, verdict);
            assert(b1.at(row, col) == if row == r && col == c {
                CellState::Clue(0)
            } else {
                b0.at(row, col)
            });
        }
    }
}

} // verus!
