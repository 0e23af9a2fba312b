//! What revealing a clue does to a [`Board`], and the proofs that it keeps every mine
//! layout that agrees with the board and with the clue.

use crate::board::{Around, Board, CellState};
use crate::counting::{b2i, lemma_count_gap};
use crate::grid::lemma_flat_onto;
use crate::neighbor_iter::{
    adjacent, delta_col, delta_row, lemma_offsets, neighbor_inside, offset_between,
};
use crate::propagation::{
    all_covered, clue_ok, covered, lemma_hidden_shift, pend, refines, same_frame, seed_tasks, shape,
    sound, task, Task, task_col, task_row, task_shape, task_true, UpdateAction,
};
use vstd::prelude::*;

verus! {

/// The board after the cell `(r0, c0)` was given the clue `n`: the free cells around it
/// have become open.
pub open spec fn clue_placed(b0: Board, b1: Board, r0: int, c0: int, n: u8) -> bool {
    &&& same_frame(b0, b1)
    &&& forall|row: int, col: int|
        b0.inside(row, col) ==> #[trigger] b1.at(row, col) == if row == r0 && col == c0 {
            CellState::Clue(n)
        } else if adjacent(r0, c0, row, col) && b0.at(row, col) is UnknownUnconstrained {
            CellState::UnknownConstrained
        } else {
            b0.at(row, col)
        }
}

/// How a board stands to the board before the cell `(r0, c0)` was revealed: that cell is a
/// clue, the free cells around it are no longer free, and no other cell went back.
pub open spec fn revealed_from(b0: Board, b1: Board, r0: int, c0: int) -> bool {
    &&& same_frame(b0, b1)
    &&& b1.at(r0, c0) is Clue
    &&& forall|row: int, col: int|
        b0.inside(row, col) && !(row == r0 && col == c0) ==> match b0.at(row, col) {
            CellState::UnknownUnconstrained => if adjacent(r0, c0, row, col) {
                !(#[trigger] b1.at(row, col) is UnknownUnconstrained) && !(b1.at(row, col) is Clue)
            } else {
                b1.at(row, col) is UnknownUnconstrained
            },
            CellState::UnknownConstrained => !(b1.at(row, col) is UnknownUnconstrained) && !(b1.at(
                row,
                col,
            ) is Clue),
            CellState::Clue(n) => b1.at(row, col) matches CellState::Clue(m) && m <= n,
            s => b1.at(row, col) == s,
        }
}

/// The known mines around a cell are among the mines of a layout that agrees with the board.
pub proof fn lemma_known_le_layout(b: Board, layout: Seq<bool>, row: int, col: int, cursor: int)
    requires
        b.agrees(layout),
    ensures
        b.around_upto(Seq::empty(), Around::KnownMine, row, col, cursor) <= b.mines_around(
            layout,
            row,
            col,
        ),
        b.known_mines(row, col) <= b.mines_around(layout, row, col),
{
    assert forall|k: int| 0 <= k < 8 && b.hit(Seq::empty(), Around::KnownMine, row, col, k) implies b.hit(
        layout,
        Around::LayoutMine,
        row,
        col,
        k,
    ) by {
        assert(b.inside(row + delta_row(k), col + delta_col(k)));
        let s = b.at(row + delta_row(k), col + delta_col(k));
    }
}

/// Around a cell that touches no free cell, the mines of a layout that agrees with the
/// board are the known mines and the mines on open cells.
pub proof fn lemma_split_mines(b: Board, layout: Seq<bool>, row: int, col: int)
    requires
        b.agrees(layout),
        b.around(Seq::empty(), Around::Free, row, col) == 0,
    ensures
        b.mines_around(layout, row, col) == b.known_mines(row, col) + b.open_mines(
            layout,
            row,
            col,
        ),
{
    assert forall|k: int| 0 <= k < 8 implies b2i(b.hit(layout, Around::LayoutMine, row, col, k))
        == b2i(b.hit(Seq::empty(), Around::KnownMine, row, col, k)) + b2i(
        b.hit(layout, Around::OpenMine, row, col, k),
    ) by {
        if neighbor_inside(b.width, b.height, row, col, k) {
            assert(b.inside(row + delta_row(k), col + delta_col(k)));
            let s = b.at(row + delta_row(k), col + delta_col(k));
            assert(!b.hit(Seq::empty(), Around::Free, row, col, k));
        }
    }
}

/// How much more the `k`-th neighbor of `(row, col)` adds to the mines on open cells around
/// it on the first board than on the second.
pub open spec fn open_gap(b0: Board, b1: Board, layout: Seq<bool>, row: int, col: int, k: int) -> int {
    b2i(b0.hit(layout, Around::OpenMine, row, col, k)) - b2i(
        b1.hit(layout, Around::OpenMine, row, col, k),
    )
}

/// Around a clue, what a reveal takes off the mines on open cells is the same for every
/// layout that agrees with the board after it.
pub proof fn lemma_open_gap(
    b0: Board,
    b1: Board,
    r0: int,
    c0: int,
    w: Seq<bool>,
    l: Seq<bool>,
    row: int,
    col: int,
    k: int,
)
    requires
        b0.wf(),
        b0.inside(r0, c0),
        !(b0.at(r0, c0) is Clue),
        revealed_from(b0, b1, r0, c0),
        b0.inside(row, col),
        b0.at(row, col) is Clue,
        b0.structural_at(row, col),
        b1.agrees(w),
        b1.agrees(l),
        0 <= k < 8,
    ensures
        open_gap(b0, b1, l, row, col, k) == open_gap(b0, b1, w, row, col, k),
{
    if neighbor_inside(b0.width, b0.height, row, col, k) {
        let nr = row + delta_row(k);
        let nc = col + delta_col(k);
        assert(b0.inside(nr, nc));
        assert(!b0.hit(Seq::empty(), Around::Free, row, col, k));
        let s0 = b0.at(nr, nc);
        let s1 = b1.at(nr, nc);
        if nr == r0 && nc == c0 {
            assert(s1 is Clue);
        }
    }
}

/// A reveal adds no layout: one that agrees with the board after it agreed with the board
/// before it, left the revealed cell empty, and has as many mines around that cell and as
/// many more hidden mines before than after as any other such layout.
pub proof fn lemma_no_layout_added(b0: Board, b1: Board, r0: int, c0: int, w: Seq<bool>, l: Seq<bool>)
    requires
        b0.wf(),
        b0.structural(),
        b1.structural(),
        b0.inside(r0, c0),
        !(b0.at(r0, c0) is Clue),
        !(b0.at(r0, c0) is Mine),
        revealed_from(b0, b1, r0, c0),
        b0.consistent(w),
        b1.consistent(w),
        b1.consistent(l),
    ensures
        b0.consistent(l),
        !b0.mined(l, r0, c0),
        b0.mines_around(l, r0, c0) == b0.mines_around(w, r0, c0),
        b0.hidden(l) - b1.hidden(l) == b0.hidden(w) - b1.hidden(w),
{
    assert(b1.at(r0, c0) is Clue);
    assert forall|row: int, col: int| b0.inside(row, col) implies match #[trigger] b0.at(row, col) {
        CellState::Mine => b0.mined(l, row, col),
        CellState::Empty => !b0.mined(l, row, col),
        CellState::Clue(_) => !b0.mined(l, row, col),
        _ => true,
    } by {
        let s1 = b1.at(row, col);
    }
    assert forall|row: int, col: int| b0.inside(row, col) implies #[trigger] b0.exact_at(
        l,
        row,
        col,
    ) by {
        if b0.at(row, col) is Clue {
            let s1 = b1.at(row, col);
            assert(b0.structural_at(row, col));
            assert(b0.exact_at(w, row, col));
            assert(b1.exact_at(w, row, col));
            assert(b1.exact_at(l, row, col));
            lemma_open_gap(b0, b1, r0, c0, w, l, row, col, 0);
            lemma_open_gap(b0, b1, r0, c0, w, l, row, col, 1);
            lemma_open_gap(b0, b1, r0, c0, w, l, row, col, 2);
            lemma_open_gap(b0, b1, r0, c0, w, l, row, col, 3);
            lemma_open_gap(b0, b1, r0, c0, w, l, row, col, 4);
            lemma_open_gap(b0, b1, r0, c0, w, l, row, col, 5);
            lemma_open_gap(b0, b1, r0, c0, w, l, row, col, 6);
            lemma_open_gap(b0, b1, r0, c0, w, l, row, col, 7);
        }
    }
    assert(b1.structural_at(r0, c0));
    assert(b1.exact_at(w, r0, c0));
    assert(b1.exact_at(l, r0, c0));
    lemma_split_mines(b1, w, r0, c0);
    lemma_split_mines(b1, l, r0, c0);
    assert forall|i: int| 0 <= i < b0.cells.len() implies b2i(#[trigger] b0.hidden_flags(l)[i]) - b2i(
        b1.hidden_flags(l)[i],
    ) == b2i(b0.hidden_flags(w)[i]) - b2i(b1.hidden_flags(w)[i]) by {
        let cell = lemma_flat_onto(b0.width, b0.height, i);
        let s0 = b0.at(cell.0, cell.1);
        let s1 = b1.at(cell.0, cell.1);
        assert(b1.mined(l, cell.0, cell.1) == l[i]);
        assert(b1.mined(w, cell.0, cell.1) == w[i]);
    }
    lemma_count_gap(b0.hidden_flags(l), b1.hidden_flags(l), b0.hidden_flags(w), b1.hidden_flags(w));
}

/// A board that went on from another has the same free cells.
pub proof fn lemma_refines_free(b0: Board, b1: Board)
    requires
        b0.wf(),
        refines(b0, b1),
    ensures
        b1.free_cells() == b0.free_cells(),
{
    assert forall|i: int| 0 <= i < b0.cells.len() implies b1.free_flags()[i] == b0.free_flags()[i] by {
        let cell = lemma_flat_onto(b0.width, b0.height, i);
        let s0 = b0.at(cell.0, cell.1);
        let s1 = b1.at(cell.0, cell.1);
    }
    assert(b1.free_flags() =~= b0.free_flags());
}

/// Giving a cell its clue keeps the board and the queue in shape, if the queue holds what
/// follows from the new clue at once.
pub proof fn lemma_placed_shape(b0: Board, b1: Board, q: Seq<Task>, r0: int, c0: int, n: u8)
    requires
        b0.wf(),
        b0.structural(),
        b0.stable(),
        b0.inside(r0, c0),
        b0.at(r0, c0) is UnknownUnconstrained || b0.at(r0, c0) is Empty,
        clue_placed(b0, b1, r0, c0, n),
        n <= 8,
        forall|t: Task| #[trigger] q.contains(t) ==> task_shape(b1, t),
        pend(b1, q, r0, c0),
    ensures
        shape(b1, q),
{
    assert(b1.at(r0, c0) == CellState::Clue(n));
    assert forall|row: int, col: int| b1.inside(row, col) implies #[trigger] b1.structural_at(
        row,
        col,
    ) by {
        if row == r0 && col == c0 {
            lemma_placed_open_count(b0, b1, r0, c0, n);
        } else {
            assert(b0.at(row, col) is Clue <==> b1.at(row, col) is Clue);
            assert(b0.at(row, col) is Clue ==> b1.at(row, col) == b0.at(row, col));
            assert(b0.structural_at(row, col));
            lemma_placed_free_le(b0, b1, r0, c0, n, row, col);
        }
    }
    assert forall|row: int, col: int| b1.inside(row, col) implies #[trigger] pend(b1, q, row, col) by {
        if !(row == r0 && col == c0) && b1.at(row, col) is Clue {
            lemma_placed_same_open(b0, b1, Seq::empty(), r0, c0, n, row, col);
            assert(b0.stable_at(row, col));
        }
    }
}

/// Giving a cell its clue makes no cell free.
pub proof fn lemma_placed_free_le(b0: Board, b1: Board, r0: int, c0: int, n: u8, row: int, col: int)
    requires
        b0.wf(),
        b0.inside(r0, c0),
        clue_placed(b0, b1, r0, c0, n),
    ensures
        b1.around(Seq::empty(), Around::Free, row, col) <= b0.around(
            Seq::empty(),
            Around::Free,
            row,
            col,
        ),
{
    assert forall|k: int|
        0 <= k < 8 && #[trigger] b1.hit(Seq::empty(), Around::Free, row, col, k) implies b0.hit(
        Seq::empty(),
        Around::Free,
        row,
        col,
        k,
    ) by {
        let nr = row + delta_row(k);
        let nc = col + delta_col(k);
        assert(b0.inside(nr, nc));
        assert(b1.at(nr, nc) == if nr == r0 && nc == c0 {
            CellState::Clue(n)
        } else if adjacent(r0, c0, nr, nc) && b0.at(nr, nc) is UnknownUnconstrained {
            CellState::UnknownConstrained
        } else {
            b0.at(nr, nc)
        });
    }
}

/// Giving a cell its clue leaves the open neighbors of every other clue as they were.
pub proof fn lemma_placed_same_open(
    b0: Board,
    b1: Board,
    layout: Seq<bool>,
    r0: int,
    c0: int,
    n: u8,
    row: int,
    col: int,
)
    requires
        b0.wf(),
        b0.structural(),
        b0.inside(r0, c0),
        b0.at(r0, c0) is UnknownUnconstrained || b0.at(r0, c0) is Empty,
        clue_placed(b0, b1, r0, c0, n),
        b0.inside(row, col),
        b0.at(row, col) is Clue,
    ensures
        b1.open_count(row, col) == b0.open_count(row, col),
        b1.open_mines(layout, row, col) == b0.open_mines(layout, row, col),
        b1.at(row, col) == b0.at(row, col),
{
    assert(b0.structural_at(row, col));
    assert(b0.around(Seq::empty(), Around::Free, row, col) == 0);
    assert(b1.at(row, col) == b0.at(row, col));
    assert forall|k: int|
        0 <= k < 8 && neighbor_inside(b0.width, b0.height, row, col, k) implies (#[trigger] b1.hit(
        Seq::empty(),
        Around::Open,
        row,
        col,
        k,
    ) == b0.hit(Seq::empty(), Around::Open, row, col, k)) && (b1.hit(
        layout,
        Around::OpenMine,
        row,
        col,
        k,
    ) == b0.hit(layout, Around::OpenMine, row, col, k)) by {
        let nr = row + delta_row(k);
        let nc = col + delta_col(k);
        assert(b0.inside(nr, nc));
        assert(!b0.hit(Seq::empty(), Around::Free, row, col, k));
        let s1 = b1.at(nr, nc);
    }
    b0.lemma_around_diff(Seq::empty(), b1, Seq::empty(), Around::Open, row, col, row, col);
    b0.lemma_around_diff(layout, b1, layout, Around::OpenMine, row, col, row, col);
}

/// The clue that a cell is given, the known mines around it taken off, counts the mines
/// that a layout puts on its open neighbors.
pub proof fn lemma_placed_exact(
    b0: Board,
    b1: Board,
    layout: Seq<bool>,
    r0: int,
    c0: int,
    n: u8,
    clue: int,
)
    requires
        b0.wf(),
        b0.inside(r0, c0),
        b0.agrees(layout),
        clue_placed(b0, b1, r0, c0, n),
        clue == b0.mines_around(layout, r0, c0),
        n == clue - b0.known_mines(r0, c0),
    ensures
        n == b1.open_mines(layout, r0, c0),
        b1.open_mines(layout, r0, c0) <= b1.open_count(r0, c0),
{
    assert forall|k: int| 0 <= k < 8 implies b2i(b0.hit(layout, Around::LayoutMine, r0, c0, k))
        == b2i(b0.hit(Seq::empty(), Around::KnownMine, r0, c0, k)) + b2i(
        b1.hit(layout, Around::OpenMine, r0, c0, k),
    ) by {
        if neighbor_inside(b0.width, b0.height, r0, c0, k) {
            let nr = r0 + delta_row(k);
            let nc = c0 + delta_col(k);
            assert(b0.inside(nr, nc));
            assert(adjacent(r0, c0, nr, nc));
            let s0 = b0.at(nr, nc);
            let s1 = b1.at(nr, nc);
        }
    }
}

/// Giving a cell its clue keeps every layout that agreed with the board and puts as many
/// mines around the cell as the clue says.
pub proof fn lemma_placed_sound(
    b0: Board,
    h: int,
    b1: Board,
    q: Seq<Task>,
    layout: Seq<bool>,
    r0: int,
    c0: int,
    n: u8,
    clue: int,
)
    requires
        b0.wf(),
        b0.structural(),
        b0.inside(r0, c0),
        b0.at(r0, c0) is UnknownUnconstrained || b0.at(r0, c0) is Empty,
        b0.consistent(layout),
        h == b0.hidden(layout),
        !b0.mined(layout, r0, c0),
        clue_placed(b0, b1, r0, c0, n),
        clue == b0.mines_around(layout, r0, c0),
        n == clue - b0.known_mines(r0, c0),
        forall|t: Task| #[trigger] q.contains(t) ==> task_true(b1, layout, t),
    ensures
        sound(b1, h, q, layout),
{
    assert forall|r: int, c: int| b0.inside(r, c) implies (#[trigger] b1.at(r, c) is Mine <==> b0.at(
        r,
        c,
    ) is Mine) by {}
    lemma_hidden_shift(b0, b1, layout, r0, c0);
    assert(b1.agrees(layout)) by {
        assert forall|row: int, col: int| b1.inside(row, col) implies match #[trigger] b1.at(
            row,
            col,
        ) {
            CellState::Mine => b1.mined(layout, row, col),
            CellState::Empty => !b1.mined(layout, row, col),
            CellState::Clue(_) => !b1.mined(layout, row, col),
            _ => true,
        } by {
            let s = b0.at(row, col);
        }
    }
    lemma_placed_exact(b0, b1, layout, r0, c0, n, clue);
    assert forall|row: int, col: int| b1.inside(row, col) implies #[trigger] clue_ok(
        b1,
        q,
        layout,
        row,
        col,
    ) by {
        if !(row == r0 && col == c0) && b1.at(row, col) is Clue {
            lemma_placed_same_open(b0, b1, layout, r0, c0, n, row, col);
            assert(b0.exact_at(layout, row, col));
        }
    }
}

/// A clue that counts no mine has no mine on an open neighbor, and a clue that counts as
/// many mines as it has open neighbors has a mine on each.
pub proof fn lemma_forced(b: Board, layout: Seq<bool>, r0: int, c0: int, row: int, col: int)
    requires
        b.inside(row, col),
        adjacent(r0, c0, row, col),
        b.at(row, col) is UnknownConstrained,
    ensures
        b.open_mines(layout, r0, c0) == 0 ==> !b.mined(layout, row, col),
        b.open_mines(layout, r0, c0) == b.open_count(r0, c0) ==> b.mined(layout, row, col),
{
    lemma_offsets(r0, c0, row, col);
    let k = offset_between(r0, c0, row, col);
    assert(b.hit(Seq::empty(), Around::Open, r0, c0, k));
}

/// Revealing a cell, with deductions before and after, reveals it.
pub proof fn lemma_revealed_chain(b0: Board, b1: Board, b2: Board, b3: Board, r0: int, c0: int, n: u8)
    requires
        b0.inside(r0, c0),
        !(b0.at(r0, c0) is Clue),
        !(b0.at(r0, c0) is Mine),
        refines(b0, b1),
        clue_placed(b1, b2, r0, c0, n),
        refines(b2, b3),
    ensures
        revealed_from(b0, b3, r0, c0),
{
    assert(b2.at(r0, c0) == CellState::Clue(n));
    assert forall|row: int, col: int|
        b0.inside(row, col) && !(row == r0 && col == c0) implies match b0.at(row, col) {
        CellState::UnknownUnconstrained => if adjacent(r0, c0, row, col) {
            !(#[trigger] b3.at(row, col) is UnknownUnconstrained) && !(b3.at(row, col) is Clue)
        } else {
            b3.at(row, col) is UnknownUnconstrained
        },
        CellState::UnknownConstrained => !(b3.at(row, col) is UnknownUnconstrained) && !(b3.at(
            row,
            col,
        ) is Clue),
        CellState::Clue(n) => b3.at(row, col) matches CellState::Clue(m) && m <= n,
        s => b3.at(row, col) == s,
    } by {
        let s1 = b1.at(row, col);
        let s2 = b2.at(row, col);
    }
}

/// On a board at rest, a queue of tasks that hold of a layout is in shape and sound.
pub proof fn lemma_at_rest(b: Board, h: int, q: Seq<Task>, layout: Seq<bool>)
    requires
        b.wf(),
        b.structural(),
        b.stable(),
        b.consistent(layout),
        h == b.hidden(layout),
        forall|t: Task| #[trigger] q.contains(t) ==> task_shape(b, t) && task_true(b, layout, t),
    ensures
        shape(b, q),
        sound(b, h, q, layout),
{
    assert forall|row: int, col: int| b.inside(row, col) implies #[trigger] pend(b, q, row, col) by {
        assert(b.stable_at(row, col));
    }
    assert forall|row: int, col: int| b.inside(row, col) implies #[trigger] clue_ok(
        b,
        q,
        layout,
        row,
        col,
    ) by {
        assert(b.exact_at(layout, row, col));
    }
}

/// After a cell was given its clue, its `k`-th neighbor is open if it was free or open,
/// and it is not free.
pub proof fn lemma_placed_open_at(b0: Board, b1: Board, r0: int, c0: int, n: u8, k: int)
    requires
        b0.wf(),
        b0.inside(r0, c0),
        clue_placed(b0, b1, r0, c0, n),
        0 <= k < 8,
    ensures
        b1.hit(Seq::empty(), Around::Open, r0, c0, k) == (b0.hit(
            Seq::empty(),
            Around::Free,
            r0,
            c0,
            k,
        ) || b0.hit(Seq::empty(), Around::Open, r0, c0, k)),
        !(b0.hit(Seq::empty(), Around::Free, r0, c0, k) && b0.hit(
            Seq::empty(),
            Around::Open,
            r0,
            c0,
            k,
        )),
        !b1.hit(Seq::empty(), Around::Free, r0, c0, k),
{
    if neighbor_inside(b0.width, b0.height, r0, c0, k) {
        let nr = r0 + delta_row(k);
        let nc = c0 + delta_col(k);
        assert(b0.inside(nr, nc));
        assert(adjacent(r0, c0, nr, nc));
        assert(b1.at(nr, nc) == if adjacent(r0, c0, nr, nc) && b0.at(nr, nc)
            is UnknownUnconstrained {
            CellState::UnknownConstrained
        } else {
            b0.at(nr, nc)
        });
    }
}

/// After a cell was given its clue, its open neighbors are those that were free or open.
pub proof fn lemma_placed_open_count(b0: Board, b1: Board, r0: int, c0: int, n: u8)
    requires
        b0.wf(),
        b0.inside(r0, c0),
        clue_placed(b0, b1, r0, c0, n),
    ensures
        b1.open_count(r0, c0) == b0.around(Seq::empty(), Around::Free, r0, c0) + b0.around(
            Seq::empty(),
            Around::Open,
            r0,
            c0,
        ),
        b1.around(Seq::empty(), Around::Free, r0, c0) == 0,
{
    lemma_placed_open_at(b0, b1, r0, c0, n, 0);
    lemma_placed_open_at(b0, b1, r0, c0, n, 1);
    lemma_placed_open_at(b0, b1, r0, c0, n, 2);
    lemma_placed_open_at(b0, b1, r0, c0, n, 3);
    lemma_placed_open_at(b0, b1, r0, c0, n, 4);
    lemma_placed_open_at(b0, b1, r0, c0, n, 5);
    lemma_placed_open_at(b0, b1, r0, c0, n, 6);
    lemma_placed_open_at(b0, b1, r0, c0, n, 7);
}

/// The tasks that follow at once from a clue that was just placed: if it counts no mine,
/// its open neighbors are empty; if it counts as many mines as it has open neighbors, they
/// are mines; else nothing follows.
pub open spec fn ready_queue(cells: Seq<(u16, u16)>, owed: u8) -> Seq<Task> {
    if cells.len() > 0 && owed == 0 {
        seed_tasks(cells, UpdateAction::ToEmpty)
    } else if cells.len() > 0 && owed == cells.len() {
        seed_tasks(cells, UpdateAction::ToMine)
    } else {
        Seq::<Task>::empty()
    }
}

/// Whether `cells` lists the open neighbors of `(r0, c0)`.
pub open spec fn lists_open(b: Board, cells: Seq<(u16, u16)>, r0: int, c0: int) -> bool {
    &&& cells.len() == b.open_count(r0, c0)
    &&& forall|i: int|
        0 <= i < cells.len() ==> {
            let cell = #[trigger] cells[i];
            &&& b.inside(cell.0 as int, cell.1 as int)
            &&& adjacent(r0, c0, cell.0 as int, cell.1 as int)
            &&& b.at(cell.0 as int, cell.1 as int) is UnknownConstrained
        }
    &&& forall|r: int, c: int|
        b.inside(r, c) && adjacent(r0, c0, r, c) && #[trigger] b.at(r, c) is UnknownConstrained
            ==> cells.contains((r as u16, c as u16))
}

/// With the tasks that follow from a new clue queued, the board and the queue are in shape.
pub proof fn lemma_ready_shape(
    b0: Board,
    b1: Board,
    cells: Seq<(u16, u16)>,
    r0: int,
    c0: int,
    owed: u8,
)
    requires
        b0.wf(),
        b0.structural(),
        b0.stable(),
        b0.inside(r0, c0),
        b0.at(r0, c0) is UnknownUnconstrained || b0.at(r0, c0) is Empty,
        clue_placed(b0, b1, r0, c0, owed),
        owed <= b1.open_count(r0, c0),
        lists_open(b1, cells, r0, c0),
    ensures
        shape(b1, ready_queue(cells, owed)),
{
    let q = ready_queue(cells, owed);
    let verdict = if owed == 0 {
        UpdateAction::ToEmpty
    } else {
        UpdateAction::ToMine
    };
    b1.lemma_around_bounds(Seq::empty(), Around::Open, r0, c0);
    assert(b1.at(r0, c0) == CellState::Clue(owed));
    assert forall|t: Task| #[trigger] q.contains(t) implies task_shape(b1, t) by {
        let i = choose|i: int| 0 <= i < q.len() && q[i] == t;
        assert(q[i] == (cells[i], verdict));
    }
    let or_empty = owed == 0;
    if q.len() > 0 {
        assert forall|k: int| 0 <= k < 8 implies #[trigger] covered(b1, q, r0, c0, k, or_empty) by {
            if b1.hit(Seq::empty(), Around::Open, r0, c0, k) {
                let nr = r0 + delta_row(k);
                let nc = c0 + delta_col(k);
                assert(adjacent(r0, c0, nr, nc));
                assert(b1.inside(nr, nc));
                assert(b1.at(nr, nc) is UnknownConstrained);
                assert(cells.contains((nr as u16, nc as u16)));
                let i = choose|i: int| 0 <= i < cells.len() && cells[i] == (nr as u16, nc as u16);
                assert(q[i] == task(nr, nc, verdict));
            }
        }
        assert(all_covered(b1, q, r0, c0, or_empty));
    }
    assert(pend(b1, q, r0, c0));
    lemma_placed_shape(b0, b1, q, r0, c0, owed);
}

/// With the tasks that follow from a new clue queued, every layout that agreed with the
/// board and with the clue is sound.
pub proof fn lemma_ready_sound(
    b0: Board,
    h: int,
    b1: Board,
    cells: Seq<(u16, u16)>,
    layout: Seq<bool>,
    r0: int,
    c0: int,
    owed: u8,
    clue: int,
)
    requires
        b0.wf(),
        b0.structural(),
        b0.inside(r0, c0),
        b0.at(r0, c0) is UnknownUnconstrained || b0.at(r0, c0) is Empty,
        b0.consistent(layout),
        h == b0.hidden(layout),
        !b0.mined(layout, r0, c0),
        clue_placed(b0, b1, r0, c0, owed),
        clue == b0.mines_around(layout, r0, c0),
        owed == clue - b0.known_mines(r0, c0),
        lists_open(b1, cells, r0, c0),
    ensures
        sound(b1, h, ready_queue(cells, owed), layout),
{
    let q = ready_queue(cells, owed);
    let verdict = if owed == 0 {
        UpdateAction::ToEmpty
    } else {
        UpdateAction::ToMine
    };
    lemma_placed_exact(b0, b1, layout, r0, c0, owed, clue);
    assert forall|t: Task| #[trigger] q.contains(t) implies task_true(b1, layout, t) by {
        let i = choose|i: int| 0 <= i < q.len() && q[i] == t;
        assert(q[i] == (cells[i], verdict));
        lemma_forced(b1, layout, r0, c0, task_row(t), task_col(t));
    }
    lemma_placed_sound(b0, h, b1, q, layout, r0, c0, owed, clue);
}

/// On a board that went on from another, every open cell still touches a revealed cell.
pub proof fn lemma_refines_clued(b0: Board, b1: Board)
    requires
        b0.wf(),
        b0.clued(),
        refines(b0, b1),
    ensures
        b1.clued(),
{
    assert forall|row: int, col: int| b1.inside(row, col) implies #[trigger] b1.clued_at(
        row,
        col,
    ) by {
        if b1.at(row, col) is UnknownConstrained {
            let s0 = b0.at(row, col);
            assert(b0.clued_at(row, col));
            assert forall|k: int|
                0 <= k < 8 && #[trigger] b0.hit(Seq::empty(), Around::AnyClue, row, col, k) implies b1.hit(
                Seq::empty(),
                Around::AnyClue,
                row,
                col,
                k,
            ) by {
                assert(b0.inside(row + delta_row(k), col + delta_col(k)));
                let t1 = b1.at(row + delta_row(k), col + delta_col(k));
            }
        }
    }
}

/// After a cell was given its clue, every open cell touches a revealed cell.
pub proof fn lemma_placed_clued(b0: Board, b1: Board, r0: int, c0: int, n: u8)
    requires
        b0.wf(),
        b0.clued(),
        b0.inside(r0, c0),
        clue_placed(b0, b1, r0, c0, n),
    ensures
        b1.clued(),
{
    assert(b1.at(r0, c0) == CellState::Clue(n));
    assert forall|row: int, col: int| b1.inside(row, col) implies #[trigger] b1.clued_at(
        row,
        col,
    ) by {
        if b1.at(row, col) is UnknownConstrained {
            if b0.at(row, col) is UnknownConstrained {
                assert(b0.clued_at(row, col));
                assert forall|k: int|
                    0 <= k < 8 && #[trigger] b0.hit(Seq::empty(), Around::AnyClue, row, col, k) implies b1.hit(
                    Seq::empty(),
                    Around::AnyClue,
                    row,
                    col,
                    k,
                ) by {
                    assert(b0.inside(row + delta_row(k), col + delta_col(k)));
                    let t1 = b1.at(row + delta_row(k), col + delta_col(k));
                }
            } else {
                assert(adjacent(r0, c0, row, col));
                lemma_offsets(row, col, r0, c0);
                let k = offset_between(row, col, r0, c0);
                assert(b1.hit(Seq::empty(), Around::AnyClue, row, col, k));
            }
        }
    }
}

/// On a board at rest where every open cell touches a revealed cell, every open cell
/// touches one that still counts mines.
pub proof fn lemma_anchored(b: Board)
    requires
        b.wf(),
        b.stable(),
        b.clued(),
    ensures
        b.anchored(),
{
    assert forall|row: int, col: int| b.inside(row, col) implies #[trigger] b.anchored_at(
        row,
        col,
    ) by {
        if b.at(row, col) is UnknownConstrained {
            assert(b.clued_at(row, col));
            assert forall|k: int|
                0 <= k < 8 && #[trigger] b.hit(Seq::empty(), Around::AnyClue, row, col, k) implies b.hit(
                Seq::empty(),
                Around::PositiveClue,
                row,
                col,
                k,
            ) by {
                let nr = row + delta_row(k);
                let nc = col + delta_col(k);
                assert(b.inside(nr, nc));
                assert(b.stable_at(nr, nc));
                lemma_offsets(nr, nc, row, col);
                let k2 = offset_between(nr, nc, row, col);
                assert(b.hit(Seq::empty(), Around::Open, nr, nc, k2));
            }
        }
    }
}

} // verus!
