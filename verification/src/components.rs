//! Groups of open cells that the clues tie together, and what it means that the ways to
//! fill a group are known.

use crate::bits::{Bits, bits};
use crate::board::{Around, Board, CellState};
use crate::counting::{
    count_true, lemma_count_all, lemma_count_bounds, lemma_count_diff, lemma_count_push,
};
use crate::grid::{flat, lemma_flat_injective};
use crate::neighbor_iter::{
    adjacent, delta_col, delta_row, lemma_offsets, neighbor_inside, offset_between,
};
use crate::search::{Clue, decided_mines, holds, mines_on, Topology};
use std::collections::VecDeque;
use vstd::prelude::*;

verus! {

/// Whether the cell `(row, col)` is marked as seen.
pub open spec fn seen(visited: Seq<Bits>, row: int, col: int) -> bool {
    &&& 0 <= row < visited.len()
    &&& 0 <= col < bits(visited[row]).len()
    &&& bits(visited[row])[col]
}

/// The marks cover the board: one row of marks for each row of cells.
pub open spec fn marks_fit(b: Board, visited: Seq<Bits>) -> bool {
    &&& visited.len() == b.height
    &&& forall|row: int| 0 <= row < visited.len() ==> bits(#[trigger] visited[row]).len() == b.width
}

/// The number of cells that are not marked as seen.
pub open spec fn unseen(visited: Seq<Bits>) -> nat
    decreases visited.len(),
{
    if visited.len() == 0 {
        0
    } else {
        unseen(visited.drop_last()) + (bits(visited.last()).len() - count_true(
            bits(visited.last()),
        )) as nat
    }
}

/// Marking one more cell as seen leaves one cell less unseen.
pub proof fn lemma_unseen_mark(before: Seq<Bits>, after: Seq<Bits>, row: int, col: int)
    requires
        before.len() == after.len(),
        0 <= row < before.len(),
        0 <= col < bits(before[row]).len(),
        !bits(before[row])[col],
        bits(after[row]) == bits(before[row]).update(col, true),
        forall|r: int| 0 <= r < before.len() && r != row ==> bits(after[r]) == bits(before[r]),
    ensures
        unseen(after) == unseen(before) - 1,
        unseen(before) >= 1,
    decreases before.len(),
{
    let last = before.len() - 1;
    crate::counting::lemma_count_bounds(bits(before.last()));
    crate::counting::lemma_count_bounds(bits(after.last()));
    if row == last {
        lemma_count_diff(bits(before[row]), bits(after[row]), col);
        lemma_unseen_same(before.drop_last(), after.drop_last());
    } else {
        lemma_unseen_mark(before.drop_last(), after.drop_last(), row, col);
    }
}

/// Rows with the same marks leave the same number of cells unseen.
pub proof fn lemma_unseen_same(before: Seq<Bits>, after: Seq<Bits>)
    requires
        before.len() == after.len(),
        forall|r: int| 0 <= r < before.len() ==> bits(after[r]) == bits(before[r]),
    ensures
        unseen(after) == unseen(before),
    decreases before.len(),
{
    if before.len() > 0 {
        lemma_unseen_same(before.drop_last(), after.drop_last());
    }
}

/// Whether the two cells are tied: one is a clue that still counts mines, the other is open.
pub open spec fn tied(b: Board, r1: int, c1: int, r2: int, c2: int) -> bool {
    ||| b.sat(Seq::empty(), Around::PositiveClue, r1, c1) && b.at(r2, c2) is UnknownConstrained
    ||| b.at(r1, c1) is UnknownConstrained && b.sat(Seq::empty(), Around::PositiveClue, r2, c2)
}

/// If the `k`-th neighbor of `(row, col)` is tied to it, that neighbor is seen.
pub open spec fn reaches(b: Board, visited: Seq<Bits>, row: int, col: int, k: int) -> bool {
    neighbor_inside(b.width, b.height, row, col, k) && tied(
        b,
        row,
        col,
        row + delta_row(k),
        col + delta_col(k),
    ) ==> seen(visited, row + delta_row(k), col + delta_col(k))
}

/// Every neighbor of `(row, col)` that is tied to it is seen.
pub open spec fn closed_at(b: Board, visited: Seq<Bits>, row: int, col: int) -> bool {
    &&& reaches(b, visited, row, col, 0)
    &&& reaches(b, visited, row, col, 1)
    &&& reaches(b, visited, row, col, 2)
    &&& reaches(b, visited, row, col, 3)
    &&& reaches(b, visited, row, col, 4)
    &&& reaches(b, visited, row, col, 5)
    &&& reaches(b, visited, row, col, 6)
    &&& reaches(b, visited, row, col, 7)
}

/// Whether a cell that is seen is open or a clue that still counts mines.
pub open spec fn grouped_at(b: Board, visited: Seq<Bits>, row: int, col: int) -> bool {
    seen(visited, row, col) ==> b.at(row, col) is UnknownConstrained || b.sat(
        Seq::empty(),
        Around::PositiveClue,
        row,
        col,
    )
}

/// The cells seen are open cells and clues that still count mines, and with each of them
/// all that are tied to it.
pub open spec fn closed(b: Board, visited: Seq<Bits>) -> bool {
    &&& marks_fit(b, visited)
    &&& forall|row: int, col: int| b.inside(row, col) ==> #[trigger] grouped_at(b, visited, row, col)
    &&& forall|row: int, col: int|
        b.inside(row, col) && seen(visited, row, col) ==> #[trigger] closed_at(b, visited, row, col)
}

/// The open neighbors of `(row, col)` among those at the first `k` offsets, in order.
pub open spec fn open_list(b: Board, row: int, col: int, k: int) -> Seq<(u16, u16)>
    decreases k,
{
    if k <= 0 {
        Seq::empty()
    } else if b.hit(Seq::empty(), Around::Open, row, col, k - 1) {
        open_list(b, row, col, k - 1).push(
            ((row + delta_row(k - 1)) as u16, (col + delta_col(k - 1)) as u16),
        )
    } else {
        open_list(b, row, col, k - 1)
    }
}

/// For each listed cell, whether the layout has a mine there.
pub open spec fn mined_list(b: Board, layout: Seq<bool>, cells: Seq<(u16, u16)>) -> Seq<bool> {
    Seq::new(cells.len(), |j: int| b.mined(layout, cells[j].0 as int, cells[j].1 as int))
}

/// The mines that a layout puts on the listed open neighbors are those that it puts on
/// open neighbors at the same offsets.
pub proof fn lemma_open_list(b: Board, layout: Seq<bool>, row: int, col: int, k: int)
    requires
        b.wf(),
        0 <= k <= 8,
    ensures
        open_list(b, row, col, k).len() == b.around_upto(Seq::empty(), Around::Open, row, col, k),
        count_true(mined_list(b, layout, open_list(b, row, col, k))) == b.around_upto(
            layout,
            Around::OpenMine,
            row,
            col,
            k,
        ),
        forall|j: int|
            0 <= j < open_list(b, row, col, k).len() ==> {
                let cell = #[trigger] open_list(b, row, col, k)[j];
                &&& b.inside(cell.0 as int, cell.1 as int)
                &&& adjacent(row, col, cell.0 as int, cell.1 as int)
                &&& b.at(cell.0 as int, cell.1 as int) is UnknownConstrained
            },
    decreases k,
{
    if k > 0 {
        lemma_open_list(b, layout, row, col, k - 1);
        let prev = open_list(b, row, col, k - 1);
        if b.hit(Seq::empty(), Around::Open, row, col, k - 1) {
            let cell = ((row + delta_row(k - 1)) as u16, (col + delta_col(k - 1)) as u16);
            assert(cell.0 == row + delta_row(k - 1) && cell.1 == col + delta_col(k - 1));
            assert(mined_list(b, layout, prev.push(cell)) =~= mined_list(b, layout, prev).push(
                b.mined(layout, cell.0 as int, cell.1 as int),
            ));
            lemma_count_push(
                mined_list(b, layout, prev),
                b.mined(layout, cell.0 as int, cell.1 as int),
            );
        }
    } else {
        assert(mined_list(b, layout, open_list(b, row, col, k)) =~= Seq::<bool>::empty());
    }
}

/// The layout that puts the mines of an assignment on the cells of a group, and no other.
pub open spec fn painted(b: Board, tiles: Seq<(u16, u16)>, alt: Seq<bool>) -> Seq<bool> {
    Seq::new(
        b.cells.len(),
        |i: int|
            exists|j: int|
                0 <= j < tiles.len() && j < alt.len() && #[trigger] flat(
                    b.width,
                    tiles[j].0 as int,
                    tiles[j].1 as int,
                ) == i && alt[j],
    )
}

/// The cells of a group are cells of the board, each listed once.
pub open spec fn tiles_ok(b: Board, tiles: Seq<(u16, u16)>) -> bool {
    &&& tiles.no_duplicates()
    &&& forall|j: int|
        0 <= j < tiles.len() ==> b.inside((#[trigger] tiles[j]).0 as int, tiles[j].1 as int)
}

/// The painted layout has on each cell of the group what the assignment says.
pub proof fn lemma_painted(b: Board, tiles: Seq<(u16, u16)>, alt: Seq<bool>, j: int)
    requires
        b.wf(),
        tiles_ok(b, tiles),
        alt.len() == tiles.len(),
        0 <= j < tiles.len(),
    ensures
        b.mined(painted(b, tiles, alt), tiles[j].0 as int, tiles[j].1 as int) == alt[j],
{
    let i = flat(b.width, tiles[j].0 as int, tiles[j].1 as int);
    b.lemma_place(tiles[j].0 as int, tiles[j].1 as int);
    if b.mined(painted(b, tiles, alt), tiles[j].0 as int, tiles[j].1 as int) {
        let j2 = choose|j2: int|
            0 <= j2 < tiles.len() && j2 < alt.len() && #[trigger] flat(
                b.width,
                tiles[j2].0 as int,
                tiles[j2].1 as int,
            ) == i && alt[j2];
        lemma_flat_injective(
            b.width,
            tiles[j].0 as int,
            tiles[j].1 as int,
            tiles[j2].0 as int,
            tiles[j2].1 as int,
        );
        assert(tiles[j] == tiles[j2]);
    }
}

/// The painted layout has no mine outside the group.
pub proof fn lemma_painted_outside(
    b: Board,
    tiles: Seq<(u16, u16)>,
    alt: Seq<bool>,
    row: int,
    col: int,
)
    requires
        b.wf(),
        tiles_ok(b, tiles),
        b.inside(row, col),
        !tiles.contains((row as u16, col as u16)),
    ensures
        !b.mined(painted(b, tiles, alt), row, col),
{
    let i = flat(b.width, row, col);
    b.lemma_place(row, col);
    if b.mined(painted(b, tiles, alt), row, col) {
        let j2 = choose|j2: int|
            0 <= j2 < tiles.len() && j2 < alt.len() && #[trigger] flat(
                b.width,
                tiles[j2].0 as int,
                tiles[j2].1 as int,
            ) == i && alt[j2];
        lemma_flat_injective(b.width, row, col, tiles[j2].0 as int, tiles[j2].1 as int);
        assert(tiles[j2] == (row as u16, col as u16));
    }
}

/// Whether the cell was marked as seen while the group was gathered.
pub open spec fn fresh(v0: Seq<Bits>, v: Seq<Bits>, row: int, col: int) -> bool {
    seen(v, row, col) && !seen(v0, row, col)
}

/// Whether every cell that was seen is still seen.
pub open spec fn grows(v0: Seq<Bits>, v: Seq<Bits>) -> bool {
    forall|row: int, col: int| #[trigger] seen(v0, row, col) ==> seen(v, row, col)
}

/// A cell that is seen has all that is tied to it seen as well, or waits in the queue for
/// that, or is the cell being looked at.
pub open spec fn settled_at(
    b: Board,
    v: Seq<Bits>,
    queue: Seq<(u16, u16)>,
    cur: (int, int),
    row: int,
    col: int,
) -> bool {
    seen(v, row, col) ==> closed_at(b, v, row, col) || queue.contains((row as u16, col as u16)) || (
    row == cur.0 && col == cur.1)
}

/// An open cell that was seen while the group was gathered is listed among its tiles.
pub open spec fn tile_at(
    b: Board,
    v0: Seq<Bits>,
    v: Seq<Bits>,
    tiles: Seq<(u16, u16)>,
    row: int,
    col: int,
) -> bool {
    fresh(v0, v, row, col) && b.at(row, col) is UnknownConstrained ==> tiles.contains(
        (row as u16, col as u16),
    )
}

/// What holds while a group is gathered, breadth first.
pub open spec fn exploring(
    b: Board,
    v0: Seq<Bits>,
    v: Seq<Bits>,
    queue: Seq<(u16, u16)>,
    tiles: Seq<(u16, u16)>,
    cur: (int, int),
) -> bool {
    &&& b.wf()
    &&& marks_fit(b, v0)
    &&& marks_fit(b, v)
    &&& grows(v0, v)
    &&& forall|row: int, col: int| b.inside(row, col) ==> #[trigger] grouped_at(b, v, row, col)
    &&& forall|row: int, col: int|
        b.inside(row, col) ==> #[trigger] settled_at(b, v, queue, cur, row, col)
    &&& queue.no_duplicates()
    &&& forall|i: int|
        0 <= i < queue.len() ==> b.inside((#[trigger] queue[i]).0 as int, queue[i].1 as int)
            && fresh(v0, v, queue[i].0 as int, queue[i].1 as int)
    &&& tiles_ok(b, tiles)
    &&& forall|j: int|
        0 <= j < tiles.len() ==> fresh(v0, v, (#[trigger] tiles[j]).0 as int, tiles[j].1 as int)
            && b.at(tiles[j].0 as int, tiles[j].1 as int) is UnknownConstrained
    &&& forall|row: int, col: int| b.inside(row, col) ==> #[trigger] tile_at(b, v0, v, tiles, row, col)
}

/// How the marks stand after the cell `(xr, xc)` was marked as seen.
pub open spec fn marked(b: Board, v: Seq<Bits>, v2: Seq<Bits>, xr: int, xc: int) -> bool {
    &&& v2.len() == v.len()
    &&& bits(v2[xr]) == bits(v[xr]).update(xc, true)
    &&& forall|r: int| 0 <= r < v.len() && r != xr ==> bits(#[trigger] v2[r]) == bits(v[r])
}

/// A cell whose tied neighbors are all seen keeps them seen when more cells are seen.
pub proof fn lemma_closed_grows(b: Board, v: Seq<Bits>, v2: Seq<Bits>, row: int, col: int)
    requires
        closed_at(b, v, row, col),
        grows(v, v2),
    ensures
        closed_at(b, v2, row, col),
{
    assert forall|k: int| 0 <= k < 8 implies #[trigger] reaches(b, v2, row, col, k) by {
        assert(reaches(b, v, row, col, k));
        if seen(v, row + delta_row(k), col + delta_col(k)) {
            assert(seen(v2, row + delta_row(k), col + delta_col(k)));
        }
    }
}

/// Marking an unseen cell of the right kind, and queueing it, keeps what holds while a
/// group is gathered.
pub proof fn lemma_visit(
    b: Board,
    v0: Seq<Bits>,
    v: Seq<Bits>,
    v2: Seq<Bits>,
    queue: Seq<(u16, u16)>,
    tiles: Seq<(u16, u16)>,
    tiles2: Seq<(u16, u16)>,
    cur: (int, int),
    xr: int,
    xc: int,
)
    requires
        exploring(b, v0, v, queue, tiles, cur),
        b.inside(xr, xc),
        !seen(v, xr, xc),
        b.at(xr, xc) is UnknownConstrained || b.sat(Seq::empty(), Around::PositiveClue, xr, xc),
        marked(b, v, v2, xr, xc),
        tiles2 == if b.at(xr, xc) is UnknownConstrained {
            tiles.push((xr as u16, xc as u16))
        } else {
            tiles
        },
    ensures
        exploring(b, v0, v2, queue.push((xr as u16, xc as u16)), tiles2, cur),
        grows(v, v2),
        unseen(v2) == unseen(v) - 1,
{
    let x = (xr as u16, xc as u16);
    let queue2 = queue.push(x);
    lemma_unseen_mark(v, v2, xr, xc);
    assert forall|row: int, col: int| seen(v2, row, col) <==> seen(v, row, col) || (row == xr && col
        == xc) by {
        if 0 <= row < v.len() && row != xr {
            assert(bits(v2[row]) == bits(v[row]));
        }
    }
    assert(marks_fit(b, v2)) by {
        assert forall|row: int| 0 <= row < v2.len() implies bits(#[trigger] v2[row]).len()
            == b.width by {
            assert(bits(v[row]).len() == b.width);
            if row != xr {
                assert(bits(v2[row]) == bits(v[row]));
            }
        }
    }
    assert forall|row: int, col: int| b.inside(row, col) implies #[trigger] grouped_at(
        b,
        v2,
        row,
        col,
    ) by {
        assert(grouped_at(b, v, row, col));
    }
    assert forall|row: int, col: int| b.inside(row, col) implies #[trigger] settled_at(
        b,
        v2,
        queue2,
        cur,
        row,
        col,
    ) by {
        assert(settled_at(b, v, queue, cur, row, col));
        if row == xr && col == xc {
            assert(queue2[queue.len() as int] == x);
        } else if seen(v, row, col) {
            if closed_at(b, v, row, col) {
                lemma_closed_grows(b, v, v2, row, col);
            } else if queue.contains((row as u16, col as u16)) {
                let i = choose|i: int| 0 <= i < queue.len() && queue[i] == (row as u16, col as u16);
                assert(queue2[i] == (row as u16, col as u16));
            }
        }
    }
    assert forall|i: int, j: int|
        0 <= i < queue2.len() && 0 <= j < queue2.len() && i != j implies queue2[i] != queue2[j] by {
        if i < queue.len() && j < queue.len() {
            assert(queue[i] != queue[j]);
        } else {
            let other = if i < queue.len() {
                i
            } else {
                j
            };
            assert(fresh(v0, v, queue[other].0 as int, queue[other].1 as int));
        }
    }
    assert forall|i: int| 0 <= i < queue2.len() implies b.inside(
        (#[trigger] queue2[i]).0 as int,
        queue2[i].1 as int,
    ) && fresh(v0, v2, queue2[i].0 as int, queue2[i].1 as int) by {
        if i < queue.len() {
            assert(queue2[i] == queue[i]);
            assert(fresh(v0, v, queue[i].0 as int, queue[i].1 as int));
        } else {
            if seen(v0, xr, xc) {
                assert(seen(v, xr, xc));
            }
        }
    }
    assert forall|i: int, j: int|
        0 <= i < tiles2.len() && 0 <= j < tiles2.len() && i != j implies tiles2[i] != tiles2[j] by {
        if i < tiles.len() && j < tiles.len() {
            assert(tiles[i] != tiles[j]);
        } else {
            let other = if i < tiles.len() {
                i
            } else {
                j
            };
            assert(fresh(v0, v, tiles[other].0 as int, tiles[other].1 as int));
        }
    }
    assert forall|j: int| 0 <= j < tiles2.len() implies b.inside(
        (#[trigger] tiles2[j]).0 as int,
        tiles2[j].1 as int,
    ) && fresh(v0, v2, tiles2[j].0 as int, tiles2[j].1 as int) && b.at(
        tiles2[j].0 as int,
        tiles2[j].1 as int,
    ) is UnknownConstrained by {
        if j < tiles.len() {
            assert(tiles2[j] == tiles[j]);
            assert(fresh(v0, v, tiles[j].0 as int, tiles[j].1 as int));
        } else {
            if seen(v0, xr, xc) {
                assert(seen(v, xr, xc));
            }
        }
    }
    assert forall|row: int, col: int| b.inside(row, col) implies #[trigger] tile_at(
        b,
        v0,
        v2,
        tiles2,
        row,
        col,
    ) by {
        assert(tile_at(b, v0, v, tiles, row, col));
        if fresh(v0, v2, row, col) && b.at(row, col) is UnknownConstrained {
            if row == xr && col == xc {
                assert(tiles2[tiles.len() as int] == x);
            } else {
                let j = choose|j: int| 0 <= j < tiles.len() && tiles[j] == (row as u16, col as u16);
                assert(tiles2[j] == (row as u16, col as u16));
            }
        }
    }
}

/// Taking the first cell off the queue to look at it keeps what holds while a group is
/// gathered.
pub proof fn lemma_take(
    b: Board,
    v0: Seq<Bits>,
    v: Seq<Bits>,
    queue: Seq<(u16, u16)>,
    tiles: Seq<(u16, u16)>,
)
    requires
        exploring(b, v0, v, queue, tiles, (-1, -1)),
        queue.len() > 0,
    ensures
        exploring(
            b,
            v0,
            v,
            queue.subrange(1, queue.len() as int),
            tiles,
            (queue[0].0 as int, queue[0].1 as int),
        ),
{
    let rest = queue.subrange(1, queue.len() as int);
    let cur = (queue[0].0 as int, queue[0].1 as int);
    assert forall|row: int, col: int| b.inside(row, col) implies #[trigger] settled_at(
        b,
        v,
        rest,
        cur,
        row,
        col,
    ) by {
        assert(settled_at(b, v, queue, (-1, -1), row, col));
        if queue.contains((row as u16, col as u16)) {
            let i = choose|i: int| 0 <= i < queue.len() && queue[i] == (row as u16, col as u16);
            if i > 0 {
                assert(rest[i - 1] == (row as u16, col as u16));
            }
        }
    }
    assert forall|i: int| 0 <= i < rest.len() implies b.inside(
        (#[trigger] rest[i]).0 as int,
        rest[i].1 as int,
    ) && fresh(v0, v, rest[i].0 as int, rest[i].1 as int) by {
        assert(rest[i] == queue[i + 1]);
    }
    assert forall|i: int, j: int|
        0 <= i < rest.len() && 0 <= j < rest.len() && i != j implies rest[i] != rest[j] by {
        assert(queue[i + 1] != queue[j + 1]);
    }
}

/// When all that is tied to the cell being looked at is seen, that cell is done.
pub proof fn lemma_done(
    b: Board,
    v0: Seq<Bits>,
    v: Seq<Bits>,
    queue: Seq<(u16, u16)>,
    tiles: Seq<(u16, u16)>,
    cur: (int, int),
)
    requires
        exploring(b, v0, v, queue, tiles, cur),
        closed_at(b, v, cur.0, cur.1),
    ensures
        exploring(b, v0, v, queue, tiles, (-1, -1)),
{
    assert forall|row: int, col: int| b.inside(row, col) implies #[trigger] settled_at(
        b,
        v,
        queue,
        (-1, -1),
        row,
        col,
    ) by {
        assert(settled_at(b, v, queue, cur, row, col));
    }
}

/// With nothing left in the queue, the cells seen are closed under what ties them.
pub proof fn lemma_gathered(b: Board, v0: Seq<Bits>, v: Seq<Bits>, tiles: Seq<(u16, u16)>)
    requires
        exploring(b, v0, v, Seq::<(u16, u16)>::empty(), tiles, (-1, -1)),
    ensures
        closed(b, v),
{
    let q = Seq::<(u16, u16)>::empty();
    assert forall|row: int, col: int| b.inside(row, col) && seen(v, row, col) implies #[trigger] closed_at(
        b,
        v,
        row,
        col,
    ) by {
        assert(settled_at(b, v, q, (-1, -1), row, col));
    }
}

/// Offsets that do not lead to the board add nothing to the list of open neighbors.
pub proof fn lemma_open_list_skip(b: Board, row: int, col: int, prev: int, k: int)
    requires
        0 <= prev <= k,
        forall|j: int| prev <= j < k ==> !neighbor_inside(b.width, b.height, row, col, j),
    ensures
        open_list(b, row, col, k) == open_list(b, row, col, prev),
    decreases k - prev,
{
    if prev < k {
        lemma_open_list_skip(b, row, col, prev, k - 1);
        assert(!neighbor_inside(b.width, b.height, row, col, k - 1));
    }
}

/// A clue as the search sees it says of the clue at `cell` how many mines it counts and,
/// by their numbers in the group, which open cells it touches.
pub open spec fn described(b: Board, tiles: Seq<(u16, u16)>, clue: Clue, cell: (u16, u16)) -> bool {
    &&& b.at(cell.0 as int, cell.1 as int) == CellState::Clue(clue.mine_count)
    &&& clue.mine_count > 0
    &&& clue.adjacency@.len() == open_list(b, cell.0 as int, cell.1 as int, 8).len()
    &&& forall|j: int|
        0 <= j < clue.adjacency@.len() ==> #[trigger] clue.adjacency@[j] < tiles.len()
            && tiles[clue.adjacency@[j] as int] == open_list(b, cell.0 as int, cell.1 as int, 8)[j]
}

/// What a clue as the search sees it counts on an assignment is what the clue on the board
/// counts on the layout painted from the assignment.
pub proof fn lemma_described_count(
    b: Board,
    tiles: Seq<(u16, u16)>,
    clue: Clue,
    cell: (u16, u16),
    alt: Seq<bool>,
)
    requires
        b.wf(),
        tiles_ok(b, tiles),
        alt.len() == tiles.len(),
        described(b, tiles, clue, cell),
    ensures
        mines_on(clue, alt) == b.open_mines(
            painted(b, tiles, alt),
            cell.0 as int,
            cell.1 as int,
        ),
{
    let layout = painted(b, tiles, alt);
    let opens = open_list(b, cell.0 as int, cell.1 as int, 8);
    lemma_open_list(b, layout, cell.0 as int, cell.1 as int, 8);
    assert forall|j: int| 0 <= j < opens.len() implies decided_mines(clue.adjacency@, alt)[j]
        == mined_list(b, layout, opens)[j] by {
        let t = clue.adjacency@[j];
        assert(t < tiles.len() && tiles[t as int] == opens[j]);
        lemma_painted(b, tiles, alt, t as int);
    }
    assert(decided_mines(clue.adjacency@, alt) =~= mined_list(b, layout, opens));
}

/// Growing the list of tiles keeps each description of a clue.
pub proof fn lemma_described_grows(
    b: Board,
    tiles: Seq<(u16, u16)>,
    tiles2: Seq<(u16, u16)>,
    clue: Clue,
    cell: (u16, u16),
)
    requires
        described(b, tiles, clue, cell),
        tiles.len() <= tiles2.len(),
        forall|j: int| 0 <= j < tiles.len() ==> tiles2[j] == tiles[j],
    ensures
        described(b, tiles2, clue, cell),
{
    assert forall|j: int| 0 <= j < clue.adjacency@.len() implies #[trigger] clue.adjacency@[j]
        < tiles2.len() && tiles2[clue.adjacency@[j] as int] == open_list(
        b,
        cell.0 as int,
        cell.1 as int,
        8,
    )[j] by {
        assert(clue.adjacency@[j] < tiles.len());
    }
}

/// A tied neighbor that is seen stays seen when more cells are seen.
pub proof fn lemma_reaches_grows(b: Board, v: Seq<Bits>, v2: Seq<Bits>, row: int, col: int, k: int)
    requires
        reaches(b, v, row, col, k),
        grows(v, v2),
    ensures
        reaches(b, v2, row, col, k),
{
    if seen(v, row + delta_row(k), col + delta_col(k)) {
        assert(seen(v2, row + delta_row(k), col + delta_col(k)));
    }
}

/// Seeing more and more cells is seeing more cells.
pub proof fn lemma_grows_trans(v0: Seq<Bits>, v1: Seq<Bits>, v2: Seq<Bits>)
    requires
        grows(v0, v1),
        grows(v1, v2),
    ensures
        grows(v0, v2),
{
    assert forall|row: int, col: int| #[trigger] seen(v0, row, col) implies seen(v2, row, col) by {
        assert(seen(v1, row, col));
    }
}

/// A clue that was seen while the group was gathered is listed, or waits in the queue.
pub open spec fn clue_listed_at(
    b: Board,
    v0: Seq<Bits>,
    v: Seq<Bits>,
    queue: Seq<(u16, u16)>,
    clue_cells: Seq<(u16, u16)>,
    cur: (int, int),
    row: int,
    col: int,
) -> bool {
    fresh(v0, v, row, col) && b.sat(Seq::empty(), Around::PositiveClue, row, col)
        ==> clue_cells.contains((row as u16, col as u16)) || queue.contains(
        (row as u16, col as u16),
    ) || (row == cur.0 && col == cur.1)
}

/// The clues listed so far are those that were looked at, each with its description.
pub open spec fn clues_listed(
    b: Board,
    v0: Seq<Bits>,
    v: Seq<Bits>,
    queue: Seq<(u16, u16)>,
    tiles: Seq<(u16, u16)>,
    clues: Seq<Clue>,
    clue_cells: Seq<(u16, u16)>,
    cur: (int, int),
) -> bool {
    &&& clues.len() == clue_cells.len()
    &&& forall|i: int|
        0 <= i < clue_cells.len() ==> {
            let cell = #[trigger] clue_cells[i];
            &&& b.inside(cell.0 as int, cell.1 as int)
            &&& fresh(v0, v, cell.0 as int, cell.1 as int)
            &&& closed_at(b, v, cell.0 as int, cell.1 as int)
            &&& described(b, tiles, clues[i], cell)
        }
    &&& forall|row: int, col: int|
        b.inside(row, col) ==> #[trigger] clue_listed_at(b, v0, v, queue, clue_cells, cur, row, col)
}

/// The list of clues is kept when more cells are seen and queued and more tiles listed.
pub proof fn lemma_listed_grows(
    b: Board,
    v0: Seq<Bits>,
    v: Seq<Bits>,
    v2: Seq<Bits>,
    queue: Seq<(u16, u16)>,
    queue2: Seq<(u16, u16)>,
    tiles: Seq<(u16, u16)>,
    tiles2: Seq<(u16, u16)>,
    clues: Seq<Clue>,
    clue_cells: Seq<(u16, u16)>,
    cur: (int, int),
)
    requires
        clues_listed(b, v0, v, queue, tiles, clues, clue_cells, cur),
        grows(v0, v),
        grows(v, v2),
        tiles.len() <= tiles2.len(),
        forall|j: int| 0 <= j < tiles.len() ==> tiles2[j] == tiles[j],
        forall|x: (u16, u16)| queue.contains(x) ==> #[trigger] queue2.contains(x),
        forall|row: int, col: int|
            b.inside(row, col) && #[trigger] seen(v2, row, col) && !seen(v, row, col)
                ==> queue2.contains((row as u16, col as u16)),
    ensures
        clues_listed(b, v0, v2, queue2, tiles2, clues, clue_cells, cur),
{
    assert forall|i: int| 0 <= i < clue_cells.len() implies {
        let cell = #[trigger] clue_cells[i];
        &&& b.inside(cell.0 as int, cell.1 as int)
        &&& fresh(v0, v2, cell.0 as int, cell.1 as int)
        &&& closed_at(b, v2, cell.0 as int, cell.1 as int)
        &&& described(b, tiles2, clues[i], cell)
    } by {
        let cell = clue_cells[i];
        assert(seen(v, cell.0 as int, cell.1 as int));
        lemma_closed_grows(b, v, v2, cell.0 as int, cell.1 as int);
        lemma_described_grows(b, tiles, tiles2, clues[i], cell);
    }
    assert forall|row: int, col: int| b.inside(row, col) implies #[trigger] clue_listed_at(
        b,
        v0,
        v2,
        queue2,
        clue_cells,
        cur,
        row,
        col,
    ) by {
        assert(clue_listed_at(b, v0, v, queue, clue_cells, cur, row, col));
        if seen(v2, row, col) && !seen(v, row, col) {
            assert(queue2.contains((row as u16, col as u16)));
        }
    }
}

/// Taking the first cell off the queue to look at it keeps the list of clues.
pub proof fn lemma_listed_take(
    b: Board,
    v0: Seq<Bits>,
    v: Seq<Bits>,
    queue: Seq<(u16, u16)>,
    tiles: Seq<(u16, u16)>,
    clues: Seq<Clue>,
    clue_cells: Seq<(u16, u16)>,
)
    requires
        b.wf(),
        clues_listed(b, v0, v, queue, tiles, clues, clue_cells, (-1, -1)),
        queue.len() > 0,
    ensures
        clues_listed(
            b,
            v0,
            v,
            queue.subrange(1, queue.len() as int),
            tiles,
            clues,
            clue_cells,
            (queue[0].0 as int, queue[0].1 as int),
        ),
{
    let rest = queue.subrange(1, queue.len() as int);
    let cur = (queue[0].0 as int, queue[0].1 as int);
    assert forall|row: int, col: int| b.inside(row, col) implies #[trigger] clue_listed_at(
        b,
        v0,
        v,
        rest,
        clue_cells,
        cur,
        row,
        col,
    ) by {
        assert(clue_listed_at(b, v0, v, queue, clue_cells, (-1, -1), row, col));
        if queue.contains((row as u16, col as u16)) {
            let i = choose|i: int| 0 <= i < queue.len() && queue[i] == (row as u16, col as u16);
            if i > 0 {
                assert(rest[i - 1] == (row as u16, col as u16));
            }
        }
    }
}

/// Once the cell being looked at is done, and listed if it is a clue, the list of clues
/// is as it should be between two cells.
pub proof fn lemma_listed_done(
    b: Board,
    v0: Seq<Bits>,
    v: Seq<Bits>,
    queue: Seq<(u16, u16)>,
    tiles: Seq<(u16, u16)>,
    clues: Seq<Clue>,
    clue_cells: Seq<(u16, u16)>,
    cur: (u16, u16),
    clues2: Seq<Clue>,
    clue_cells2: Seq<(u16, u16)>,
)
    requires
        clues_listed(b, v0, v, queue, tiles, clues, clue_cells, (cur.0 as int, cur.1 as int)),
        b.inside(cur.0 as int, cur.1 as int),
        fresh(v0, v, cur.0 as int, cur.1 as int),
        closed_at(b, v, cur.0 as int, cur.1 as int),
        b.at(cur.0 as int, cur.1 as int) is Clue ==> clues2.len() == clues.len() + 1 && clues2.drop_last()
            == clues && clue_cells2 == clue_cells.push(cur) && described(
            b,
            tiles,
            clues2.last(),
            cur,
        ),
        !(b.at(cur.0 as int, cur.1 as int) is Clue) ==> clues2 == clues && clue_cells2
            == clue_cells,
    ensures
        clues_listed(b, v0, v, queue, tiles, clues2, clue_cells2, (-1, -1)),
{
    assert forall|i: int| 0 <= i < clue_cells2.len() implies {
        let cell = #[trigger] clue_cells2[i];
        &&& b.inside(cell.0 as int, cell.1 as int)
        &&& fresh(v0, v, cell.0 as int, cell.1 as int)
        &&& closed_at(b, v, cell.0 as int, cell.1 as int)
        &&& described(b, tiles, clues2[i], cell)
    } by {
        if i < clue_cells.len() {
            assert(clue_cells2[i] == clue_cells[i]);
            if b.at(cur.0 as int, cur.1 as int) is Clue {
                assert(clues2[i] == clues2.drop_last()[i]);
            }
        }
    }
    assert forall|row: int, col: int| b.inside(row, col) implies #[trigger] clue_listed_at(
        b,
        v0,
        v,
        queue,
        clue_cells2,
        (-1, -1),
        row,
        col,
    ) by {
        assert(clue_listed_at(b, v0, v, queue, clue_cells, (cur.0 as int, cur.1 as int), row, col));
        if clue_cells.contains((row as u16, col as u16)) {
            let i = choose|i: int| 0 <= i < clue_cells.len() && clue_cells[i] == (row as u16, col as u16);
            assert(clue_cells2[i] == (row as u16, col as u16));
        }
        if row == cur.0 && col == cur.1 && b.at(row, col) is Clue {
            assert(clue_cells2[clue_cells.len() as int] == cur);
        }
    }
}

/// If the `k`-th neighbor of `(row, col)` is open, it is one of the tiles.
pub open spec fn enclosed_at(b: Board, tiles: Seq<(u16, u16)>, row: int, col: int, k: int) -> bool {
    b.hit(Seq::empty(), Around::Open, row, col, k) ==> tiles.contains(
        ((row + delta_row(k)) as u16, (col + delta_col(k)) as u16),
    )
}

/// Every open neighbor of `(row, col)` is one of the tiles.
pub open spec fn enclosed(b: Board, tiles: Seq<(u16, u16)>, row: int, col: int) -> bool {
    &&& enclosed_at(b, tiles, row, col, 0)
    &&& enclosed_at(b, tiles, row, col, 1)
    &&& enclosed_at(b, tiles, row, col, 2)
    &&& enclosed_at(b, tiles, row, col, 3)
    &&& enclosed_at(b, tiles, row, col, 4)
    &&& enclosed_at(b, tiles, row, col, 5)
    &&& enclosed_at(b, tiles, row, col, 6)
    &&& enclosed_at(b, tiles, row, col, 7)
}

/// A clue that was seen while the group was gathered, and is done, has all its open
/// neighbors among the tiles of the group.
pub proof fn lemma_clue_enclosed(
    b: Board,
    v0: Seq<Bits>,
    v: Seq<Bits>,
    queue: Seq<(u16, u16)>,
    tiles: Seq<(u16, u16)>,
    cur: (int, int),
    row: int,
    col: int,
)
    requires
        exploring(b, v0, v, queue, tiles, cur),
        closed(b, v0),
        b.inside(row, col),
        fresh(v0, v, row, col),
        b.sat(Seq::empty(), Around::PositiveClue, row, col),
        closed_at(b, v, row, col),
    ensures
        enclosed(b, tiles, row, col),
        forall|j: int|
            0 <= j < open_list(b, row, col, 8).len() ==> tiles.contains(
                #[trigger] open_list(b, row, col, 8)[j],
            ),
{
    assert forall|nr: int, nc: int|
        b.inside(nr, nc) && adjacent(row, col, nr, nc) && b.at(nr, nc)
            is UnknownConstrained implies tiles.contains((nr as u16, nc as u16)) by {
        lemma_offsets(row, col, nr, nc);
        lemma_offsets(nr, nc, row, col);
        let k = offset_between(row, col, nr, nc);
        assert(reaches(b, v, row, col, k));
        assert(seen(v, nr, nc));
        if seen(v0, nr, nc) {
            assert(closed_at(b, v0, nr, nc));
            let k2 = offset_between(nr, nc, row, col);
            assert(reaches(b, v0, nr, nc, k2));
        }
        assert(tile_at(b, v0, v, tiles, nr, nc));
    }
    assert forall|k: int| 0 <= k < 8 implies #[trigger] enclosed_at(b, tiles, row, col, k) by {
        if b.hit(Seq::empty(), Around::Open, row, col, k) {
            assert(b.inside(row + delta_row(k), col + delta_col(k)));
        }
    }
    lemma_open_list(b, Seq::empty(), row, col, 8);
    assert forall|j: int| 0 <= j < open_list(b, row, col, 8).len() implies tiles.contains(
        #[trigger] open_list(b, row, col, 8)[j],
    ) by {
        let cell = open_list(b, row, col, 8)[j];
        assert(tiles.contains((cell.0 as int as u16, cell.1 as int as u16)));
    }
}

/// Before anything is gathered, what holds while a group is gathered holds of the marks
/// as they are.
pub proof fn lemma_start(b: Board, v0: Seq<Bits>)
    requires
        b.wf(),
        closed(b, v0),
    ensures
        exploring(b, v0, v0, Seq::<(u16, u16)>::empty(), Seq::<(u16, u16)>::empty(), (-1, -1)),
        clues_listed(
            b,
            v0,
            v0,
            Seq::<(u16, u16)>::empty(),
            Seq::<(u16, u16)>::empty(),
            Seq::<Clue>::empty(),
            Seq::<(u16, u16)>::empty(),
            (-1, -1),
        ),
{
    let q = Seq::<(u16, u16)>::empty();
    assert forall|row: int, col: int| b.inside(row, col) implies #[trigger] settled_at(
        b,
        v0,
        q,
        (-1, -1),
        row,
        col,
    ) by {
        if seen(v0, row, col) {
            assert(closed_at(b, v0, row, col));
        }
    }
}

/// A group of open cells that the clues tie together, with the ways to fill it: each
/// alternative says of each tile, in order, whether it holds a mine.
pub struct GraphSolution {
    /// The open cells of the group, in the order in which they were found.
    pub tiles: Vec<(u16, u16)>,
    /// The ways to fill them that are left.
    pub alternatives: VecDeque<Bits>,
}

/// The assignment gives the clue at `(row, col)`, if it has all its open neighbors among
/// the tiles, the number of mines that it counts.
pub open spec fn fills_at(
    b: Board,
    tiles: Seq<(u16, u16)>,
    alt: Seq<bool>,
    row: int,
    col: int,
) -> bool {
    b.sat(Seq::empty(), Around::PositiveClue, row, col) && enclosed(b, tiles, row, col)
        ==> b.exact_at(painted(b, tiles, alt), row, col)
}

/// The assignment fills the tiles so that every clue around them counts right.
pub open spec fn fills(b: Board, tiles: Seq<(u16, u16)>, alt: Seq<bool>) -> bool {
    &&& alt.len() == tiles.len()
    &&& forall|row: int, col: int|
        b.inside(row, col) ==> #[trigger] fills_at(b, tiles, alt, row, col)
}

/// The tiles of a group are open cells, each listed once, and each alternative fills them
/// so that every clue around them counts right.
pub open spec fn group_ok(b: Board, tiles: Seq<(u16, u16)>, alts: Seq<Bits>) -> bool {
    &&& tiles_ok(b, tiles)
    &&& forall|j: int|
        0 <= j < tiles.len() ==> b.at((#[trigger] tiles[j]).0 as int, tiles[j].1 as int)
            is UnknownConstrained
    &&& forall|a: int| 0 <= a < alts.len() ==> fills(b, tiles, bits(#[trigger] alts[a]))
}

/// Every way to fill the tiles so that the clues around them count right is among the
/// alternatives, once.
pub open spec fn group_complete(b: Board, tiles: Seq<(u16, u16)>, alts: Seq<Bits>) -> bool {
    &&& forall|alt: Seq<bool>| #[trigger] fills(b, tiles, alt) ==> holds(alts, alt)
    &&& forall|i: int, j: int|
        0 <= i < j < alts.len() ==> bits(#[trigger] alts[i]) != bits(#[trigger] alts[j])
}

/// The clue at `(row, col)`, if it still counts mines, has all its open neighbors in one
/// of the groups.
pub open spec fn homed_at(b: Board, groups: Seq<GraphSolution>, row: int, col: int) -> bool {
    b.sat(Seq::empty(), Around::PositiveClue, row, col) ==> exists|g: int|
        0 <= g < groups.len() && enclosed(b, (#[trigger] groups[g]).tiles@, row, col)
}

/// No two groups share a tile.
pub open spec fn apart(groups: Seq<GraphSolution>) -> bool {
    forall|g1: int, g2: int, j1: int, j2: int|
        0 <= g1 < groups.len() && 0 <= g2 < groups.len() && g1 != g2 && 0 <= j1
            < groups[g1].tiles@.len() && 0 <= j2 < groups[g2].tiles@.len()
            ==> #[trigger] groups[g1].tiles@[j1] != #[trigger] groups[g2].tiles@[j2]
}

/// The groups split the open cells around the clues that still count mines, and each
/// alternative of a group fills it so that the clues around it count right.
pub open spec fn groups_ok(b: Board, groups: Seq<GraphSolution>) -> bool {
    &&& forall|g: int|
        0 <= g < groups.len() ==> group_ok(
            b,
            (#[trigger] groups[g]).tiles@,
            groups[g].alternatives@,
        )
    &&& apart(groups)
    &&& forall|row: int, col: int| b.inside(row, col) ==> #[trigger] homed_at(b, groups, row, col)
}

/// Each group has every way to fill it among its alternatives.
pub open spec fn groups_complete(b: Board, groups: Seq<GraphSolution>) -> bool {
    forall|g: int|
        0 <= g < groups.len() ==> group_complete(
            b,
            (#[trigger] groups[g]).tiles@,
            groups[g].alternatives@,
        )
}

/// Whether the two cells touch and are tied.
pub open spec fn link(b: Board, from: (int, int), to: (int, int)) -> bool {
    adjacent(from.0, from.1, to.0, to.1) && tied(b, from.0, from.1, to.0, to.1)
}

/// A chain of cells of the board from `from` to `to`, each touching the one before it and
/// tied to it.
pub open spec fn chain(b: Board, path: Seq<(int, int)>, from: (int, int), to: (int, int)) -> bool {
    &&& path.len() > 0
    &&& path[0] == from
    &&& path.last() == to
    &&& forall|i: int| 0 <= i < path.len() ==> b.inside((#[trigger] path[i]).0, path[i].1)
    &&& forall|i: int| 0 <= i < path.len() - 1 ==> #[trigger] link(b, path[i], path[i + 1])
}

/// Whether a chain of tied cells leads from `from` to `to`.
pub open spec fn linked(b: Board, from: (int, int), to: (int, int)) -> bool {
    exists|path: Seq<(int, int)>| chain(b, path, from, to)
}

/// A cell of the board is linked to itself.
pub proof fn lemma_link_start(b: Board, cell: (int, int))
    requires
        b.inside(cell.0, cell.1),
    ensures
        linked(b, cell, cell),
{
    let path = seq![cell];
    assert(chain(b, path, cell, cell));
}

/// A chain goes on by one cell that touches its end and is tied to it.
pub proof fn lemma_link_step(b: Board, root: (int, int), cur: (int, int), next: (int, int))
    requires
        linked(b, root, cur),
        b.inside(next.0, next.1),
        link(b, cur, next),
    ensures
        linked(b, root, next),
{
    let path = choose|path: Seq<(int, int)>| chain(b, path, root, cur);
    let longer = path.push(next);
    assert forall|i: int| 0 <= i < longer.len() implies b.inside(
        (#[trigger] longer[i]).0,
        longer[i].1,
    ) by {
        if i < path.len() {
            assert(longer[i] == path[i]);
        }
    }
    assert forall|i: int| 0 <= i < longer.len() - 1 implies #[trigger] link(
        b,
        longer[i],
        longer[i + 1],
    ) by {
        if i < path.len() - 1 {
            assert(link(b, path[i], path[i + 1]));
        }
    }
    assert(chain(b, longer, root, next));
}

/// A cell that was seen while the group was gathered is linked to the clue that the group
/// started from.
pub open spec fn linked_at(
    b: Board,
    v0: Seq<Bits>,
    v: Seq<Bits>,
    root: (int, int),
    row: int,
    col: int,
) -> bool {
    fresh(v0, v, row, col) ==> linked(b, root, (row, col))
}

/// Every cell that was seen while the group was gathered is linked to the clue that the
/// group started from.
pub open spec fn rooted(b: Board, v0: Seq<Bits>, v: Seq<Bits>, root: (int, int)) -> bool {
    forall|row: int, col: int| b.inside(row, col) ==> #[trigger] linked_at(b, v0, v, root, row, col)
}

/// Seeing one more cell, linked to the start, keeps every cell seen linked to it.
pub proof fn lemma_rooted_step(
    b: Board,
    v0: Seq<Bits>,
    v: Seq<Bits>,
    v2: Seq<Bits>,
    root: (int, int),
    cell: (int, int),
)
    requires
        rooted(b, v0, v, root),
        linked(b, root, cell),
        forall|r: int, c: int|
            #[trigger] seen(v2, r, c) && !seen(v, r, c) ==> r == cell.0 && c == cell.1,
    ensures
        rooted(b, v0, v2, root),
{
    assert forall|row: int, col: int| b.inside(row, col) implies #[trigger] linked_at(
        b,
        v0,
        v2,
        root,
        row,
        col,
    ) by {
        if fresh(v0, v2, row, col) {
            if seen(v, row, col) {
                assert(linked_at(b, v0, v, root, row, col));
            }
        }
    }
}

/// The tiles hang together: a chain of tied cells leads from the clue at `root`, which
/// still counts mines, to each of them.
pub open spec fn joined_from(b: Board, tiles: Seq<(u16, u16)>, root: (int, int)) -> bool {
    &&& b.inside(root.0, root.1)
    &&& b.sat(Seq::empty(), Around::PositiveClue, root.0, root.1)
    &&& forall|j: int|
        0 <= j < tiles.len() ==> linked(b, root, ((#[trigger] tiles[j]).0 as int, tiles[j].1 as int))
}

/// The tiles hang together through clues that still count mines.
pub open spec fn joined(b: Board, tiles: Seq<(u16, u16)>) -> bool {
    exists|root: (int, int)| joined_from(b, tiles, root)
}

/// Each group hangs together: no group holds cells that no chain of clues ties to
/// one another.
pub open spec fn groups_joined(b: Board, groups: Seq<GraphSolution>) -> bool {
    forall|g: int| 0 <= g < groups.len() ==> joined(b, (#[trigger] groups[g]).tiles@)
}

/// One more group that hangs together keeps the groups hanging together.
pub proof fn lemma_joined_added(
    b: Board,
    groups0: Seq<GraphSolution>,
    groups: Seq<GraphSolution>,
    root: (int, int),
)
    requires
        groups_joined(b, groups0),
        groups.len() == groups0.len() + 1,
        groups.drop_last() == groups0,
        joined_from(b, groups.last().tiles@, root),
    ensures
        groups_joined(b, groups),
{
    assert forall|g: int| 0 <= g < groups.len() implies joined(b, (#[trigger] groups[g]).tiles@) by {
        if g < groups0.len() {
            assert(groups[g] == groups0[g]);
        }
    }
}

/// A clue that still counts mines and lies before `(row, col)` in reading order is seen.
pub open spec fn scanned_at(b: Board, v: Seq<Bits>, row: int, col: int, r: int, c: int) -> bool {
    (r < row || (r == row && c < col)) && b.sat(Seq::empty(), Around::PositiveClue, r, c) ==> seen(
        v,
        r,
        c,
    )
}

/// A clue that still counts mines and is seen has all its open neighbors in one group.
pub open spec fn seen_homed_at(
    b: Board,
    v: Seq<Bits>,
    groups: Seq<GraphSolution>,
    row: int,
    col: int,
) -> bool {
    seen(v, row, col) ==> homed_at(b, groups, row, col)
}

/// What holds of the groups found so far while the board is scanned for more.
pub open spec fn groups_sound(b: Board, v: Seq<Bits>, groups: Seq<GraphSolution>) -> bool {
    &&& forall|g: int|
        0 <= g < groups.len() ==> group_ok(
            b,
            (#[trigger] groups[g]).tiles@,
            groups[g].alternatives@,
        ) && group_complete(b, groups[g].tiles@, groups[g].alternatives@)
    &&& forall|g: int, j: int|
        0 <= g < groups.len() && 0 <= j < groups[g].tiles@.len() ==> seen(
            v,
            (#[trigger] groups[g].tiles@[j]).0 as int,
            groups[g].tiles@[j].1 as int,
        )
    &&& apart(groups)
    &&& forall|row: int, col: int|
        b.inside(row, col) ==> #[trigger] seen_homed_at(b, v, groups, row, col)
}

/// As many `true` entries as the assignment has are painted on the board.
pub proof fn lemma_painted_count(b: Board, tiles: Seq<(u16, u16)>, alt: Seq<bool>)
    requires
        b.wf(),
        tiles_ok(b, tiles),
        alt.len() == tiles.len(),
    ensures
        count_true(painted(b, tiles, alt)) == count_true(alt),
    decreases tiles.len(),
{
    if tiles.len() == 0 {
        crate::counting::lemma_count_zero(painted(b, tiles, alt));
    } else {
        let tiles1 = tiles.drop_last();
        let alt1 = alt.drop_last();
        let last = tiles.last();
        let n1 = tiles1.len() as int;
        assert(tiles_ok(b, tiles1)) by {
            assert forall|i: int, j: int|
                0 <= i < tiles1.len() && 0 <= j < tiles1.len() && i != j implies tiles1[i]
                != tiles1[j] by {
                assert(tiles[i] != tiles[j]);
            }
            assert forall|j: int| 0 <= j < tiles1.len() implies b.inside(
                (#[trigger] tiles1[j]).0 as int,
                tiles1[j].1 as int,
            ) by {
                assert(tiles1[j] == tiles[j]);
            }
        }
        lemma_painted_count(b, tiles1, alt1);
        let i0 = flat(b.width, last.0 as int, last.1 as int);
        b.lemma_place(last.0 as int, last.1 as int);
        let p = painted(b, tiles, alt);
        let base = painted(b, tiles1, alt1);
        lemma_painted(b, tiles, alt, n1);
        assert(!tiles1.contains(last)) by {
            if tiles1.contains(last) {
                let j = choose|j: int| 0 <= j < tiles1.len() && tiles1[j] == last;
                assert(tiles[j] == tiles[n1]);
            }
        }
        assert(!tiles1.contains((last.0 as int as u16, last.1 as int as u16)));
        lemma_painted_outside(b, tiles1, alt1, last.0 as int, last.1 as int);
        assert forall|i: int| 0 <= i < p.len() && i != i0 implies p[i] == base[i] by {
            if p[i] {
                let j = choose|j: int|
                    0 <= j < tiles.len() && j < alt.len() && #[trigger] flat(
                        b.width,
                        tiles[j].0 as int,
                        tiles[j].1 as int,
                    ) == i && alt[j];
                assert(j < n1);
                assert(flat(b.width, tiles1[j].0 as int, tiles1[j].1 as int) == i && alt1[j]);
            }
            if base[i] {
                let j = choose|j: int|
                    0 <= j < tiles1.len() && j < alt1.len() && #[trigger] flat(
                        b.width,
                        tiles1[j].0 as int,
                        tiles1[j].1 as int,
                    ) == i && alt1[j];
                assert(flat(b.width, tiles[j].0 as int, tiles[j].1 as int) == i && alt[j]);
            }
        }
        lemma_count_diff(base, p, i0);
    }
}

/// A group has no more tiles than the board has cells.
pub proof fn lemma_tiles_bound(b: Board, tiles: Seq<(u16, u16)>)
    requires
        b.wf(),
        tiles_ok(b, tiles),
    ensures
        tiles.len() <= b.cells.len(),
{
    let alt = Seq::new(tiles.len(), |j: int| true);
    lemma_painted_count(b, tiles, alt);
    lemma_count_all(alt);
    lemma_count_bounds(painted(b, tiles, alt));
}

/// The search for the ways to fill a group that was gathered finds the assignments that
/// fill its tiles so that the clues around them count right.
pub proof fn lemma_group_from_search(
    b: Board,
    v0: Seq<Bits>,
    v1: Seq<Bits>,
    tiles: Seq<(u16, u16)>,
    topology: Topology,
    clue_cells: Seq<(u16, u16)>,
    alt: Seq<bool>,
)
    requires
        b.wf(),
        b.stable(),
        closed(b, v0),
        exploring(b, v0, v1, Seq::<(u16, u16)>::empty(), tiles, (-1, -1)),
        clues_listed(
            b,
            v0,
            v1,
            Seq::<(u16, u16)>::empty(),
            tiles,
            topology.clues@,
            clue_cells,
            (-1, -1),
        ),
        topology.unknown_count == tiles.len(),
    ensures
        topology.wf(),
        topology.satisfied_by(alt) <==> fills(b, tiles, alt),
{
    let q = Seq::<(u16, u16)>::empty();
    assert forall|i: int, j: int|
        0 <= i < topology.clues@.len() && 0 <= j < topology.clues@[i].adjacency@.len() implies #[trigger] topology.clues@[i].adjacency@[j]
        < topology.unknown_count by {
        let cell = clue_cells[i];
        assert(described(b, tiles, topology.clues@[i], cell));
    }
    lemma_gathered(b, v0, v1, tiles);
    if alt.len() == tiles.len() {
        if topology.satisfied_by(alt) {
            assert forall|row: int, col: int| b.inside(row, col) implies #[trigger] fills_at(
                b,
                tiles,
                alt,
                row,
                col,
            ) by {
                if b.sat(Seq::empty(), Around::PositiveClue, row, col) && enclosed(
                    b,
                    tiles,
                    row,
                    col,
                ) {
                    lemma_enclosed_listed(b, v0, v1, tiles, topology.clues@, clue_cells, row, col);
                    let i = choose|i: int|
                        0 <= i < clue_cells.len() && clue_cells[i] == (row as u16, col as u16);
                    assert(described(b, tiles, topology.clues@[i], clue_cells[i]));
                    lemma_described_count(b, tiles, topology.clues@[i], clue_cells[i], alt);
                    assert(mines_on(topology.clues@[i], alt) == topology.clues@[i].mine_count);
                }
            }
        }
        if fills(b, tiles, alt) {
            assert forall|i: int| 0 <= i < topology.clues@.len() implies mines_on(
                #[trigger] topology.clues@[i],
                alt,
            ) == topology.clues@[i].mine_count by {
                let cell = clue_cells[i];
                assert(described(b, tiles, topology.clues@[i], cell));
                lemma_clue_enclosed(b, v0, v1, q, tiles, (-1, -1), cell.0 as int, cell.1 as int);
                assert(fills_at(b, tiles, alt, cell.0 as int, cell.1 as int));
                lemma_described_count(b, tiles, topology.clues@[i], cell, alt);
            }
        }
    }
}

/// A clue that still counts mines and has all its open neighbors among the tiles of the
/// group that was gathered is one of the clues listed for the group.
pub proof fn lemma_enclosed_listed(
    b: Board,
    v0: Seq<Bits>,
    v1: Seq<Bits>,
    tiles: Seq<(u16, u16)>,
    clues: Seq<Clue>,
    clue_cells: Seq<(u16, u16)>,
    row: int,
    col: int,
)
    requires
        b.wf(),
        b.stable(),
        closed(b, v0),
        closed(b, v1),
        exploring(b, v0, v1, Seq::<(u16, u16)>::empty(), tiles, (-1, -1)),
        clues_listed(b, v0, v1, Seq::<(u16, u16)>::empty(), tiles, clues, clue_cells, (-1, -1)),
        b.inside(row, col),
        b.sat(Seq::empty(), Around::PositiveClue, row, col),
        enclosed(b, tiles, row, col),
    ensures
        clue_cells.contains((row as u16, col as u16)),
        fresh(v0, v1, row, col),
{
    let q = Seq::<(u16, u16)>::empty();
    assert(b.stable_at(row, col));
    assert(b.open_count(row, col) > 0);
    let k = if b.hit(Seq::empty(), Around::Open, row, col, 0) {
        0
    } else if b.hit(Seq::empty(), Around::Open, row, col, 1) {
        1
    } else if b.hit(Seq::empty(), Around::Open, row, col, 2) {
        2
    } else if b.hit(Seq::empty(), Around::Open, row, col, 3) {
        3
    } else if b.hit(Seq::empty(), Around::Open, row, col, 4) {
        4
    } else if b.hit(Seq::empty(), Around::Open, row, col, 5) {
        5
    } else if b.hit(Seq::empty(), Around::Open, row, col, 6) {
        6
    } else {
        7int
    };
    assert(b.hit(Seq::empty(), Around::Open, row, col, k));
    let nr = row + delta_row(k);
    let nc = col + delta_col(k);
    assert(enclosed_at(b, tiles, row, col, k));
    let j = choose|j: int| 0 <= j < tiles.len() && tiles[j] == (nr as u16, nc as u16);
    assert(fresh(v0, v1, tiles[j].0 as int, tiles[j].1 as int));
    assert(b.inside(nr, nc));
    lemma_offsets(nr, nc, row, col);
    lemma_offsets(row, col, nr, nc);
    let k2 = offset_between(nr, nc, row, col);
    assert(closed_at(b, v1, nr, nc));
    assert(reaches(b, v1, nr, nc, k2));
    assert(seen(v1, row, col));
    if seen(v0, row, col) {
        assert(closed_at(b, v0, row, col));
        assert(reaches(b, v0, row, col, k));
    }
    assert(clue_listed_at(b, v0, v1, q, clue_cells, (-1, -1), row, col));
}

/// A group that was gathered and searched joins the groups found so far.
pub proof fn lemma_group_added(
    b: Board,
    v0: Seq<Bits>,
    v1: Seq<Bits>,
    groups: Seq<GraphSolution>,
    groups2: Seq<GraphSolution>,
    clues: Seq<Clue>,
    clue_cells: Seq<(u16, u16)>,
)
    requires
        b.wf(),
        b.stable(),
        closed(b, v0),
        groups_sound(b, v0, groups),
        groups2.len() == groups.len() + 1,
        groups2.drop_last() == groups,
        exploring(b, v0, v1, Seq::<(u16, u16)>::empty(), groups2.last().tiles@, (-1, -1)),
        clues_listed(
            b,
            v0,
            v1,
            Seq::<(u16, u16)>::empty(),
            groups2.last().tiles@,
            clues,
            clue_cells,
            (-1, -1),
        ),
        forall|a: int|
            0 <= a < groups2.last().alternatives@.len() ==> fills(
                b,
                groups2.last().tiles@,
                bits(#[trigger] groups2.last().alternatives@[a]),
            ),
        group_complete(b, groups2.last().tiles@, groups2.last().alternatives@),
    ensures
        groups_sound(b, v1, groups2),
        closed(b, v1),
{
    let q = Seq::<(u16, u16)>::empty();
    let n = groups.len() as int;
    let tiles = groups2.last().tiles@;
    lemma_gathered(b, v0, v1, tiles);
    assert forall|g: int| 0 <= g < n implies groups2[g] == groups[g] by {
        assert(groups2.drop_last()[g] == groups2[g]);
    }
    assert forall|g: int| 0 <= g < groups2.len() implies group_ok(
        b,
        (#[trigger] groups2[g]).tiles@,
        groups2[g].alternatives@,
    ) && group_complete(b, groups2[g].tiles@, groups2[g].alternatives@) by {
        if g < n {
            assert(groups2[g] == groups[g]);
            assert(group_ok(b, groups[g].tiles@, groups[g].alternatives@));
        }
    }
    assert forall|g: int, j: int|
        0 <= g < groups2.len() && 0 <= j < groups2[g].tiles@.len() implies seen(
        v1,
        (#[trigger] groups2[g].tiles@[j]).0 as int,
        groups2[g].tiles@[j].1 as int,
    ) by {
        if g < n {
            assert(groups2[g] == groups[g]);
            assert(seen(v0, groups[g].tiles@[j].0 as int, groups[g].tiles@[j].1 as int));
        } else {
            assert(fresh(v0, v1, tiles[j].0 as int, tiles[j].1 as int));
        }
    }
    assert forall|g1: int, g2: int, j1: int, j2: int|
        0 <= g1 < groups2.len() && 0 <= g2 < groups2.len() && g1 != g2 && 0 <= j1
            < groups2[g1].tiles@.len() && 0 <= j2 < groups2[g2].tiles@.len() implies #[trigger] groups2[g1].tiles@[j1]
        != #[trigger] groups2[g2].tiles@[j2] by {
        if g1 < n && g2 < n {
            assert(groups2[g1] == groups[g1] && groups2[g2] == groups[g2]);
            assert(groups[g1].tiles@[j1] != groups[g2].tiles@[j2]);
        } else {
            let old_g = if g1 < n {
                g1
            } else {
                g2
            };
            let old_j = if g1 < n {
                j1
            } else {
                j2
            };
            let new_j = if g1 < n {
                j2
            } else {
                j1
            };
            assert(groups2[old_g] == groups[old_g]);
            let t = groups[old_g].tiles@[old_j];
            assert(seen(v0, t.0 as int, t.1 as int));
            assert(fresh(v0, v1, tiles[new_j].0 as int, tiles[new_j].1 as int));
        }
    }
    assert forall|row: int, col: int| b.inside(row, col) implies #[trigger] seen_homed_at(
        b,
        v1,
        groups2,
        row,
        col,
    ) by {
        if seen(v1, row, col) && b.sat(Seq::empty(), Around::PositiveClue, row, col) {
            if seen(v0, row, col) {
                assert(seen_homed_at(b, v0, groups, row, col));
                let g = choose|g: int|
                    0 <= g < groups.len() && enclosed(b, (#[trigger] groups[g]).tiles@, row, col);
                assert(groups2[g] == groups[g]);
            } else {
                assert(closed_at(b, v1, row, col));
                lemma_clue_enclosed(b, v0, v1, q, tiles, (-1, -1), row, col);
                assert(enclosed(b, groups2[n].tiles@, row, col));
            }
        }
    }
}

/// Once every clue that still counts mines is seen, the groups found are all there are.
pub proof fn lemma_groups_final(b: Board, v: Seq<Bits>, groups: Seq<GraphSolution>)
    requires
        groups_sound(b, v, groups),
        forall|row: int, col: int|
            b.inside(row, col) ==> #[trigger] scanned_at(b, v, b.height, 0, row, col),
    ensures
        groups_ok(b, groups),
        groups_complete(b, groups),
{
    assert forall|row: int, col: int| b.inside(row, col) implies #[trigger] homed_at(
        b,
        groups,
        row,
        col,
    ) by {
        assert(scanned_at(b, v, b.height, 0, row, col));
        assert(seen_homed_at(b, v, groups, row, col));
    }
}

} // verus!
