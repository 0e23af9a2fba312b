//! What choosing a mine layout anew does to the layouts that agree with the board.

use crate::bits::bits;
use crate::board::{Around, Board, CellState};
use crate::components::{
    apart, enclosed, enclosed_at, fills, fills_at, GraphSolution, group_ok, groups_ok, homed_at,
    lemma_painted, lemma_painted_count, lemma_painted_outside, painted, tiles_ok,
};
use crate::counting::count_true;
use crate::grid::{flat, lemma_flat_onto};
use crate::neighbor_iter::{delta_col, delta_row, lemma_offsets, neighbor_inside, offset_between};
use crate::propagation::same_frame;
use crate::reconcile::among;
use crate::revealing::lemma_anchored;
use vstd::prelude::*;

verus! {

/// The board after the free cells among the cells to reveal were marked empty.
pub open spec fn emptied(b0: Board, b1: Board, revealed: Seq<(u16, u16)>) -> bool {
    &&& same_frame(b0, b1)
    &&& forall|row: int, col: int|
        b0.inside(row, col) ==> #[trigger] b1.at(row, col) == if b0.at(row, col)
            is UnknownUnconstrained && revealed.contains((row as u16, col as u16)) {
            CellState::Empty
        } else {
            b0.at(row, col)
        }
}

/// Whether the alternative leaves every cell to reveal that is a tile of the group empty.
pub open spec fn spares(tiles: Seq<(u16, u16)>, alt: Seq<bool>, revealed: Seq<(u16, u16)>) -> bool {
    forall|j: int|
        0 <= j < tiles.len() && j < alt.len() && revealed.contains(#[trigger] tiles[j]) ==> !alt[j]
}

/// Whether no alternative of the group leaves the cells to reveal empty.
pub open spec fn no_spare(group: GraphSolution, revealed: Seq<(u16, u16)>) -> bool {
    forall|a: int|
        0 <= a < group.alternatives@.len() ==> !spares(
            group.tiles@,
            bits(#[trigger] group.alternatives@[a]),
            revealed,
        )
}

/// The groups after the alternatives that put a mine on a cell to reveal were dropped.
pub open spec fn narrowed(
    groups0: Seq<GraphSolution>,
    groups1: Seq<GraphSolution>,
    revealed: Seq<(u16, u16)>,
) -> bool {
    &&& groups1.len() == groups0.len()
    &&& forall|g: int| 0 <= g < groups0.len() ==> (#[trigger] groups1[g]).tiles@ == groups0[g].tiles@
    &&& forall|g: int, a: int|
        0 <= g < groups1.len() && 0 <= a < groups1[g].alternatives@.len() ==> among(
            groups0[g].alternatives@,
            #[trigger] groups1[g].alternatives@[a],
        ) && spares(groups1[g].tiles@, bits(groups1[g].alternatives@[a]), revealed)
    &&& forall|g: int, a: int|
        0 <= g < groups0.len() && 0 <= a < groups0[g].alternatives@.len() && spares(
            groups0[g].tiles@,
            bits(#[trigger] groups0[g].alternatives@[a]),
            revealed,
        ) ==> among(groups1[g].alternatives@, groups0[g].alternatives@[a])
}

/// Marking free cells empty keeps the board at rest and the groups as they were.
pub proof fn lemma_emptied(b0: Board, b1: Board, revealed: Seq<(u16, u16)>, groups: Seq<GraphSolution>)
    requires
        b0.wf(),
        b0.structural(),
        b0.stable(),
        b0.clued(),
        emptied(b0, b1, revealed),
        groups_ok(b0, groups),
    ensures
        b1.wf(),
        b1.structural(),
        b1.stable(),
        b1.clued(),
        groups_ok(b1, groups),
{
    assert forall|r: int, c: int| b0.inside(r, c) implies (#[trigger] b1.at(r, c)
        is UnknownConstrained <==> b0.at(r, c) is UnknownConstrained) && (b1.at(r, c) is Clue
        ==> b1.at(r, c) == b0.at(r, c)) && (b0.at(r, c) is Clue ==> b1.at(r, c) == b0.at(r, c)) && (b1.at(
        r,
        c,
    ) is UnknownUnconstrained ==> b0.at(r, c) is UnknownUnconstrained) by {}
    assert forall|row: int, col: int| b1.inside(row, col) implies #[trigger] b1.structural_at(
        row,
        col,
    ) by {
        assert(b0.structural_at(row, col));
        lemma_same_shape(b0, b1, Seq::empty(), Seq::empty(), row, col);
    }
    assert forall|row: int, col: int| b1.inside(row, col) implies #[trigger] b1.stable_at(
        row,
        col,
    ) by {
        assert(b0.stable_at(row, col));
        lemma_same_shape(b0, b1, Seq::empty(), Seq::empty(), row, col);
    }
    assert forall|row: int, col: int| b1.inside(row, col) implies #[trigger] b1.clued_at(
        row,
        col,
    ) by {
        assert(b0.clued_at(row, col));
        lemma_same_shape(b0, b1, Seq::empty(), Seq::empty(), row, col);
    }
    assert forall|g: int| 0 <= g < groups.len() implies group_ok(
        b1,
        (#[trigger] groups[g]).tiles@,
        groups[g].alternatives@,
    ) by {
        let tiles = groups[g].tiles@;
        let alts = groups[g].alternatives@;
        assert(group_ok(b0, tiles, alts));
        assert forall|j: int| 0 <= j < tiles.len() implies b1.at(
            (#[trigger] tiles[j]).0 as int,
            tiles[j].1 as int,
        ) is UnknownConstrained by {
            assert(b0.inside(tiles[j].0 as int, tiles[j].1 as int));
        }
        assert forall|a: int| 0 <= a < alts.len() implies fills(b1, tiles, bits(#[trigger] alts[a])) by {
            let alt = bits(alts[a]);
            assert(fills(b0, tiles, alt));
            assert(painted(b1, tiles, alt) == painted(b0, tiles, alt));
            assert forall|row: int, col: int| b1.inside(row, col) implies #[trigger] fills_at(
                b1,
                tiles,
                alt,
                row,
                col,
            ) by {
                assert(fills_at(b0, tiles, alt, row, col));
                lemma_same_shape(b0, b1, painted(b0, tiles, alt), painted(b0, tiles, alt), row, col);
                lemma_same_enclosed(b0, b1, tiles, row, col);
            }
        }
    }
    assert forall|row: int, col: int| b1.inside(row, col) implies #[trigger] homed_at(
        b1,
        groups,
        row,
        col,
    ) by {
        assert(homed_at(b0, groups, row, col));
        if b1.sat(Seq::empty(), Around::PositiveClue, row, col) {
            let g = choose|g: int|
                0 <= g < groups.len() && enclosed(b0, (#[trigger] groups[g]).tiles@, row, col);
            lemma_same_enclosed(b0, b1, groups[g].tiles@, row, col);
        }
    }
}

/// Boards whose cells are open alike, clues alike and free cells no more, count alike
/// around every cell what is open, and no more free cells.
pub proof fn lemma_same_shape(
    b0: Board,
    b1: Board,
    l0: Seq<bool>,
    l1: Seq<bool>,
    row: int,
    col: int,
)
    requires
        same_frame(b0, b1),
        forall|r: int, c: int|
            b0.inside(r, c) ==> (#[trigger] b1.at(r, c) is UnknownConstrained <==> b0.at(r, c)
                is UnknownConstrained) && (b0.at(r, c) is Clue ==> b1.at(r, c) == b0.at(r, c))
                && (b1.at(r, c) is UnknownUnconstrained ==> b0.at(r, c) is UnknownUnconstrained),
        forall|r: int, c: int|
            b0.inside(r, c) && b0.at(r, c) is UnknownConstrained ==> b0.mined(l0, r, c) == b1.mined(
                l1,
                r,
                c,
            ),
    ensures
        b1.open_count(row, col) == b0.open_count(row, col),
        b1.open_mines(l1, row, col) == b0.open_mines(l0, row, col),
        b1.around(Seq::empty(), Around::Free, row, col) <= b0.around(
            Seq::empty(),
            Around::Free,
            row,
            col,
        ),
        b1.around(Seq::empty(), Around::AnyClue, row, col) >= b0.around(
            Seq::empty(),
            Around::AnyClue,
            row,
            col,
        ),
        forall|k: int|
            0 <= k < 8 ==> (#[trigger] b1.hit(Seq::empty(), Around::Open, row, col, k) <==> b0.hit(
                Seq::empty(),
                Around::Open,
                row,
                col,
                k,
            )),
{
    assert forall|k: int| 0 <= k < 8 implies (#[trigger] b1.hit(
        Seq::empty(),
        Around::Open,
        row,
        col,
        k,
    ) <==> b0.hit(Seq::empty(), Around::Open, row, col, k)) by {
        if neighbor_inside(b0.width, b0.height, row, col, k) {
            assert(b0.inside(row + delta_row(k), col + delta_col(k)));
            let s1 = b1.at(row + delta_row(k), col + delta_col(k));
        }
    }
    assert forall|k: int| 0 <= k < 8 implies (#[trigger] b1.hit(l1, Around::OpenMine, row, col, k)
        <==> b0.hit(l0, Around::OpenMine, row, col, k)) by {
        if neighbor_inside(b0.width, b0.height, row, col, k) {
            assert(b0.inside(row + delta_row(k), col + delta_col(k)));
            let s1 = b1.at(row + delta_row(k), col + delta_col(k));
        }
    }
    assert forall|k: int|
        0 <= k < 8 && #[trigger] b1.hit(Seq::empty(), Around::Free, row, col, k) implies b0.hit(
        Seq::empty(),
        Around::Free,
        row,
        col,
        k,
    ) by {
        assert(b0.inside(row + delta_row(k), col + delta_col(k)));
        let s1 = b1.at(row + delta_row(k), col + delta_col(k));
    }
    assert forall|k: int|
        0 <= k < 8 && #[trigger] b0.hit(Seq::empty(), Around::AnyClue, row, col, k) implies b1.hit(
        Seq::empty(),
        Around::AnyClue,
        row,
        col,
        k,
    ) by {
        assert(b0.inside(row + delta_row(k), col + delta_col(k)));
        let s1 = b1.at(row + delta_row(k), col + delta_col(k));
    }
}

/// Boards whose cells are open alike have the same clues enclosed by the same tiles.
pub proof fn lemma_same_enclosed(b0: Board, b1: Board, tiles: Seq<(u16, u16)>, row: int, col: int)
    requires
        same_frame(b0, b1),
        forall|r: int, c: int|
            b0.inside(r, c) ==> (#[trigger] b1.at(r, c) is UnknownConstrained <==> b0.at(r, c)
                is UnknownConstrained),
    ensures
        enclosed(b1, tiles, row, col) <==> enclosed(b0, tiles, row, col),
{
    assert forall|k: int| 0 <= k < 8 implies (#[trigger] enclosed_at(b1, tiles, row, col, k)
        <==> enclosed_at(b0, tiles, row, col, k)) by {
        if neighbor_inside(b0.width, b0.height, row, col, k) {
            let nr = row + delta_row(k);
            let nc = col + delta_col(k);
            assert(b0.inside(nr, nc));
            let s1 = b1.at(nr, nc);
        }
    }
}

/// Sparing the cells of a list and one more cell is sparing the list with that cell added.
pub proof fn lemma_spares_push(
    tiles: Seq<(u16, u16)>,
    alt: Seq<bool>,
    revealed: Seq<(u16, u16)>,
    key: (u16, u16),
)
    ensures
        spares(tiles, alt, revealed.push(key)) <==> spares(tiles, alt, revealed) && spares(
            tiles,
            alt,
            seq![key],
        ),
{
    let more = revealed.push(key);
    let one = seq![key];
    assert forall|x: (u16, u16)| more.contains(x) <==> revealed.contains(x) || x == key by {
        if more.contains(x) {
            let i = choose|i: int| 0 <= i < more.len() && more[i] == x;
            if i < revealed.len() {
                assert(revealed[i] == x);
            }
        }
        if revealed.contains(x) {
            let i = choose|i: int| 0 <= i < revealed.len() && revealed[i] == x;
            assert(more[i] == x);
        }
        if x == key {
            assert(more[revealed.len() as int] == x);
        }
    }
    assert forall|x: (u16, u16)| one.contains(x) <==> x == key by {
        if one.contains(x) {
            let i = choose|i: int| 0 <= i < one.len() && one[i] == x;
        }
        if x == key {
            assert(one[0] == x);
        }
    }
    if spares(tiles, alt, revealed) && spares(tiles, alt, one) {
        assert forall|j: int|
            0 <= j < tiles.len() && j < alt.len() && more.contains(#[trigger] tiles[j]) implies !alt[j] by {
            if revealed.contains(tiles[j]) {
            } else {
                assert(one.contains(tiles[j]));
            }
        }
    }
    if spares(tiles, alt, more) {
        assert forall|j: int|
            0 <= j < tiles.len() && j < alt.len() && revealed.contains(#[trigger] tiles[j]) implies !alt[j] by {
            assert(more.contains(tiles[j]));
        }
        assert forall|j: int|
            0 <= j < tiles.len() && j < alt.len() && one.contains(#[trigger] tiles[j]) implies !alt[j] by {
            assert(more.contains(tiles[j]));
        }
    }
}

/// Narrowing the groups for a list of cells and then for one more cell is narrowing them
/// for the list with that cell added.
pub proof fn lemma_narrowed_chain(
    groups0: Seq<GraphSolution>,
    groups1: Seq<GraphSolution>,
    groups2: Seq<GraphSolution>,
    revealed: Seq<(u16, u16)>,
    key: (u16, u16),
)
    requires
        narrowed(groups0, groups1, revealed),
        narrowed(groups1, groups2, seq![key]),
    ensures
        narrowed(groups0, groups2, revealed.push(key)),
{
    let more = revealed.push(key);
    assert forall|g: int| 0 <= g < groups0.len() implies (#[trigger] groups2[g]).tiles@
        == groups0[g].tiles@ by {
        assert(groups1[g].tiles@ == groups0[g].tiles@);
    }
    assert forall|g: int, a: int|
        0 <= g < groups2.len() && 0 <= a < groups2[g].alternatives@.len() implies among(
        groups0[g].alternatives@,
        #[trigger] groups2[g].alternatives@[a],
    ) && spares(groups2[g].tiles@, bits(groups2[g].alternatives@[a]), more) by {
        let alt = groups2[g].alternatives@[a];
        assert(among(groups1[g].alternatives@, alt));
        let a1 = choose|a1: int|
            0 <= a1 < groups1[g].alternatives@.len() && #[trigger] groups1[g].alternatives@[a1]
                == alt;
        assert(among(groups0[g].alternatives@, groups1[g].alternatives@[a1]));
        assert(groups1[g].tiles@ == groups0[g].tiles@);
        lemma_spares_push(groups2[g].tiles@, bits(alt), revealed, key);
    }
    assert forall|g: int, a: int|
        0 <= g < groups0.len() && 0 <= a < groups0[g].alternatives@.len() && spares(
            groups0[g].tiles@,
            bits(#[trigger] groups0[g].alternatives@[a]),
            more,
        ) implies among(groups2[g].alternatives@, groups0[g].alternatives@[a]) by {
        let alt = groups0[g].alternatives@[a];
        lemma_spares_push(groups0[g].tiles@, bits(alt), revealed, key);
        assert(among(groups1[g].alternatives@, alt));
        let a1 = choose|a1: int|
            0 <= a1 < groups1[g].alternatives@.len() && #[trigger] groups1[g].alternatives@[a1]
                == alt;
        assert(groups1[g].tiles@ == groups0[g].tiles@);
        assert(among(groups2[g].alternatives@, groups1[g].alternatives@[a1]));
    }
}

/// Groups that were narrowed are still in order.
pub proof fn lemma_narrowed_ok(
    b: Board,
    groups0: Seq<GraphSolution>,
    groups1: Seq<GraphSolution>,
    revealed: Seq<(u16, u16)>,
)
    requires
        groups_ok(b, groups0),
        narrowed(groups0, groups1, revealed),
    ensures
        groups_ok(b, groups1),
{
    assert forall|g: int| 0 <= g < groups1.len() implies group_ok(
        b,
        (#[trigger] groups1[g]).tiles@,
        groups1[g].alternatives@,
    ) by {
        assert(group_ok(b, groups0[g].tiles@, groups0[g].alternatives@));
        assert forall|a: int| 0 <= a < groups1[g].alternatives@.len() implies fills(
            b,
            groups1[g].tiles@,
            bits(#[trigger] groups1[g].alternatives@[a]),
        ) by {
            let alt = groups1[g].alternatives@[a];
            assert(among(groups0[g].alternatives@, alt));
            let a0 = choose|a0: int|
                0 <= a0 < groups0[g].alternatives@.len() && #[trigger] groups0[g].alternatives@[a0]
                    == alt;
            assert(fills(b, groups0[g].tiles@, bits(groups0[g].alternatives@[a0])));
        }
    }
    assert forall|g1: int, g2: int, j1: int, j2: int|
        0 <= g1 < groups1.len() && 0 <= g2 < groups1.len() && g1 != g2 && 0 <= j1
            < groups1[g1].tiles@.len() && 0 <= j2 < groups1[g2].tiles@.len() implies #[trigger] groups1[g1].tiles@[j1]
        != #[trigger] groups1[g2].tiles@[j2] by {
        assert(groups0[g1].tiles@[j1] != groups0[g2].tiles@[j2]);
    }
    assert forall|row: int, col: int| b.inside(row, col) implies #[trigger] homed_at(
        b,
        groups1,
        row,
        col,
    ) by {
        assert(homed_at(b, groups0, row, col));
        if b.sat(Seq::empty(), Around::PositiveClue, row, col) {
            let g = choose|g: int|
                0 <= g < groups0.len() && enclosed(b, (#[trigger] groups0[g]).tiles@, row, col);
            assert(groups1[g].tiles@ == groups0[g].tiles@);
        }
    }
}

/// Marking the free cells of a list empty, and then one more cell if it is free, is
/// marking the free cells of the list with that cell added.
pub proof fn lemma_emptied_step(
    b0: Board,
    b1: Board,
    b2: Board,
    revealed: Seq<(u16, u16)>,
    key: (u16, u16),
)
    requires
        b0.wf(),
        b0.inside(key.0 as int, key.1 as int),
        emptied(b0, b1, revealed),
        same_frame(b1, b2),
        forall|row: int, col: int|
            b1.inside(row, col) ==> #[trigger] b2.at(row, col) == if row == key.0 && col == key.1
                && b1.at(row, col) is UnknownUnconstrained {
                CellState::Empty
            } else {
                b1.at(row, col)
            },
    ensures
        emptied(b0, b2, revealed.push(key)),
{
    let more = revealed.push(key);
    assert forall|row: int, col: int| b0.inside(row, col) implies #[trigger] b2.at(row, col)
        == if b0.at(row, col) is UnknownUnconstrained && more.contains((row as u16, col as u16)) {
        CellState::Empty
    } else {
        b0.at(row, col)
    } by {
        let x = (row as u16, col as u16);
        assert(b1.at(row, col) == if b0.at(row, col) is UnknownUnconstrained && revealed.contains(
            x,
        ) {
            CellState::Empty
        } else {
            b0.at(row, col)
        });
        if more.contains(x) {
            let i = choose|i: int| 0 <= i < more.len() && more[i] == x;
            if i < revealed.len() {
                assert(revealed[i] == x);
            }
        }
        if revealed.contains(x) {
            let i = choose|i: int| 0 <= i < revealed.len() && revealed[i] == x;
            assert(more[i] == x);
        }
        if x == key {
            assert(more[revealed.len() as int] == x);
        }
    }
}

/// Groups that were narrowed for a list of cells are narrowed for the list with one more
/// cell that is no tile of theirs.
pub proof fn lemma_narrowed_same(
    groups0: Seq<GraphSolution>,
    groups1: Seq<GraphSolution>,
    revealed: Seq<(u16, u16)>,
    key: (u16, u16),
)
    requires
        narrowed(groups0, groups1, revealed),
        forall|g: int, j: int|
            0 <= g < groups0.len() && 0 <= j < groups0[g].tiles@.len() ==> #[trigger] groups0[g].tiles@[j]
                != key || revealed.contains(key),
    ensures
        narrowed(groups0, groups1, revealed.push(key)),
{
    let more = revealed.push(key);
    assert forall|g: int, alt: Seq<bool>| 0 <= g < groups0.len() implies (spares(
        groups0[g].tiles@,
        alt,
        more,
    ) <==> #[trigger] spares(groups0[g].tiles@, alt, revealed)) by {
        lemma_spares_push(groups0[g].tiles@, alt, revealed, key);
        if spares(groups0[g].tiles@, alt, revealed) {
            assert forall|j: int|
                0 <= j < groups0[g].tiles@.len() && j < alt.len() && seq![key].contains(
                    #[trigger] groups0[g].tiles@[j],
                ) implies !alt[j] by {
                let i = choose|i: int| 0 <= i < seq![key].len() && seq![key][i] == groups0[g].tiles@[j];
                assert(groups0[g].tiles@[j] == key);
                assert(revealed.contains(groups0[g].tiles@[j]));
            }
        }
    }
    assert forall|g: int, a: int|
        0 <= g < groups1.len() && 0 <= a < groups1[g].alternatives@.len() implies among(
        groups0[g].alternatives@,
        #[trigger] groups1[g].alternatives@[a],
    ) && spares(groups1[g].tiles@, bits(groups1[g].alternatives@[a]), more) by {
        assert(groups1[g].tiles@ == groups0[g].tiles@);
        assert(spares(groups0[g].tiles@, bits(groups1[g].alternatives@[a]), revealed));
    }
    assert forall|g: int, a: int|
        0 <= g < groups0.len() && 0 <= a < groups0[g].alternatives@.len() && spares(
            groups0[g].tiles@,
            bits(#[trigger] groups0[g].alternatives@[a]),
            more,
        ) implies among(groups1[g].alternatives@, groups0[g].alternatives@[a]) by {
        assert(spares(groups0[g].tiles@, bits(groups0[g].alternatives@[a]), revealed));
    }
}

/// The layout that has a mine wherever one of two layouts has one.
pub open spec fn either(x: Seq<bool>, y: Seq<bool>) -> Seq<bool> {
    Seq::new(x.len(), |i: int| x[i] || (i < y.len() && y[i]))
}

/// Two layouts that have no mine in the same place have together as many mines as both.
pub proof fn lemma_either_count(x: Seq<bool>, y: Seq<bool>)
    requires
        x.len() == y.len(),
        forall|i: int| 0 <= i < x.len() ==> !(x[i] && y[i]),
    ensures
        count_true(either(x, y)) == count_true(x) + count_true(y),
    decreases x.len(),
{
    if x.len() > 0 {
        lemma_either_count(x.drop_last(), y.drop_last());
        assert(either(x, y).drop_last() =~= either(x.drop_last(), y.drop_last()));
    }
}

/// Whether `picks` names one alternative of each group.
pub open spec fn picks_ok(groups: Seq<GraphSolution>, picks: Seq<usize>) -> bool {
    &&& picks.len() == groups.len()
    &&& forall|g: int| 0 <= g < groups.len() ==> #[trigger] picks[g] < groups[g].alternatives@.len()
}

/// The alternative picked for the group numbered `g`.
pub open spec fn picked(groups: Seq<GraphSolution>, picks: Seq<usize>, g: int) -> Seq<bool> {
    bits(groups[g].alternatives@[picks[g] as int])
}

/// The layout that puts on the first `n` groups the mines of the alternatives picked for
/// them, and no other mine.
pub open spec fn union_layout(
    b: Board,
    groups: Seq<GraphSolution>,
    picks: Seq<usize>,
    n: int,
) -> Seq<bool>
    decreases n,
{
    if n <= 0 {
        Seq::new(b.cells.len(), |i: int| false)
    } else {
        either(
            union_layout(b, groups, picks, n - 1),
            painted(b, groups[n - 1].tiles@, picked(groups, picks, n - 1)),
        )
    }
}

/// For each group, the number of mines of the alternative picked for it.
pub open spec fn pick_counts(groups: Seq<GraphSolution>, picks: Seq<usize>) -> Seq<usize> {
    Seq::new(groups.len(), |g: int| count_true(picked(groups, picks, g)) as usize)
}

/// The union layout has a place for each cell of the board.
pub proof fn lemma_union_len(b: Board, groups: Seq<GraphSolution>, picks: Seq<usize>, n: int)
    ensures
        union_layout(b, groups, picks, n).len() == b.cells.len(),
    decreases n,
{
    if n > 0 {
        lemma_union_len(b, groups, picks, n - 1);
    }
}

/// The union layout has a mine on a tile of one of the first `n` groups just when the
/// alternative picked for that group has one there, and no mine on any other cell.
pub proof fn lemma_union_at(
    b: Board,
    groups: Seq<GraphSolution>,
    picks: Seq<usize>,
    n: int,
    row: int,
    col: int,
)
    requires
        b.wf(),
        groups_ok(b, groups),
        picks_ok(groups, picks),
        0 <= n <= groups.len(),
        b.inside(row, col),
    ensures
        union_layout(b, groups, picks, n).len() == b.cells.len(),
        forall|g: int, j: int|
            0 <= g < n && 0 <= j < groups[g].tiles@.len() && #[trigger] groups[g].tiles@[j] == (
                row as u16,
                col as u16,
            ) ==> b.mined(union_layout(b, groups, picks, n), row, col) == picked(groups, picks, g)[j],
        (forall|g: int| 0 <= g < n ==> !(#[trigger] groups[g]).tiles@.contains((row as u16, col as u16)))
            ==> !b.mined(union_layout(b, groups, picks, n), row, col),
    decreases n,
{
    b.lemma_place(row, col);
    if n > 0 {
        lemma_union_at(b, groups, picks, n - 1, row, col);
        let last = n - 1;
        let tiles = groups[last].tiles@;
        let alt = picked(groups, picks, last);
        assert(group_ok(b, tiles, groups[last].alternatives@));
        assert(fills(b, tiles, alt));
        let x = (row as u16, col as u16);
        if tiles.contains(x) {
            let j = choose|j: int| 0 <= j < tiles.len() && tiles[j] == x;
            lemma_painted(b, tiles, alt, j);
            assert forall|g: int| 0 <= g < last implies !(#[trigger] groups[g]).tiles@.contains(x) by {
                if groups[g].tiles@.contains(x) {
                    let j2 = choose|j2: int| 0 <= j2 < groups[g].tiles@.len() && groups[g].tiles@[j2] == x;
                    assert(apart(groups));
                    assert(groups[g].tiles@[j2] != groups[last].tiles@[j]);
                }
            }
            assert forall|g: int, j2: int|
                0 <= g < n && 0 <= j2 < groups[g].tiles@.len() && #[trigger] groups[g].tiles@[j2]
                    == x implies b.mined(union_layout(b, groups, picks, n), row, col) == picked(
                groups,
                picks,
                g,
            )[j2] by {
                if g < last {
                    assert(groups[g].tiles@.contains(x));
                } else {
                    assert(tiles_ok(b, tiles));
                    if j2 != j {
                        assert(tiles[j2] != tiles[j]);
                    }
                }
            }
        } else {
            lemma_painted_outside(b, tiles, alt, row, col);
        }
    }
}

/// The union layout has as many mines as the alternatives picked for the groups.
pub proof fn lemma_union_count(b: Board, groups: Seq<GraphSolution>, picks: Seq<usize>, n: int)
    requires
        b.wf(),
        groups_ok(b, groups),
        picks_ok(groups, picks),
        0 <= n <= groups.len(),
    ensures
        count_true(union_layout(b, groups, picks, n)) == crate::reconcile::total(
            pick_counts(groups, picks).take(n),
        ),
        forall|g: int|
            0 <= g < groups.len() ==> count_true(picked(groups, picks, g)) <= b.cells.len(),
    decreases n,
{
    assert(b.cells.len() <= 0xffff * 0xffff) by (nonlinear_arith)
        requires
            b.cells.len() == b.width * b.height,
            0 <= b.width <= 0xffff,
            0 <= b.height <= 0xffff,
    ;
    assert forall|g: int| 0 <= g < groups.len() implies count_true(picked(groups, picks, g))
        <= b.cells.len() by {
        let tiles = groups[g].tiles@;
        let alt = picked(groups, picks, g);
        assert(group_ok(b, tiles, groups[g].alternatives@));
        assert(fills(b, tiles, alt));
        crate::components::lemma_tiles_bound(b, tiles);
        crate::counting::lemma_count_bounds(alt);
    }
    if n <= 0 {
        crate::counting::lemma_count_zero(union_layout(b, groups, picks, n));
        assert(pick_counts(groups, picks).take(n) =~= Seq::<usize>::empty());
    } else {
        lemma_union_count(b, groups, picks, n - 1);
        let last = n - 1;
        let tiles = groups[last].tiles@;
        let alt = picked(groups, picks, last);
        let before = union_layout(b, groups, picks, last);
        let paint = painted(b, tiles, alt);
        assert(group_ok(b, tiles, groups[last].alternatives@));
        assert(fills(b, tiles, alt));
        lemma_painted_count(b, tiles, alt);
        lemma_union_len(b, groups, picks, last);
        assert forall|i: int| 0 <= i < before.len() implies !(before[i] && paint[i]) by {
            let cell = lemma_flat_onto(b.width, b.height, i);
            lemma_union_at(b, groups, picks, last, cell.0, cell.1);
            if paint[i] {
                if !tiles.contains((cell.0 as u16, cell.1 as u16)) {
                    lemma_painted_outside(b, tiles, alt, cell.0, cell.1);
                }
                let j = choose|j: int|
                    0 <= j < tiles.len() && tiles[j] == (cell.0 as u16, cell.1 as u16);
                assert forall|g: int| 0 <= g < last implies !(#[trigger] groups[g]).tiles@.contains(
                    (cell.0 as u16, cell.1 as u16),
                ) by {
                    if groups[g].tiles@.contains((cell.0 as u16, cell.1 as u16)) {
                        let j2 = choose|j2: int|
                            0 <= j2 < groups[g].tiles@.len() && groups[g].tiles@[j2] == (
                                cell.0 as u16,
                                cell.1 as u16,
                            );
                        assert(apart(groups));
                        assert(groups[g].tiles@[j2] != groups[last].tiles@[j]);
                    }
                }
            }
        }
        lemma_either_count(before, paint);
        let counts = pick_counts(groups, picks);
        assert(counts.take(n).drop_last() =~= counts.take(last));
        assert(counts.take(n).last() == counts[last]);
        assert(count_true(alt) <= b.cells.len());
        assert(counts[last] == count_true(alt));
        assert(union_layout(b, groups, picks, n) == either(before, paint));
        assert(count_true(paint) == count_true(alt));
    }
}

/// The layout that is chosen: the known mines, the mines of the alternatives picked for
/// the groups, and on the free cells the mines that `spread` says.
pub open spec fn chosen_layout(
    b: Board,
    groups: Seq<GraphSolution>,
    picks: Seq<usize>,
    spread: Seq<bool>,
) -> Seq<bool> {
    Seq::new(
        b.cells.len(),
        |i: int|
            b.cells[i] is Mine || union_layout(b, groups, picks, groups.len() as int)[i] || (
            b.cells[i] is UnknownUnconstrained && spread[i]),
    )
}

/// For each cell, whether it is free and `spread` puts a mine there.
pub open spec fn free_mines(b: Board, spread: Seq<bool>) -> Seq<bool> {
    Seq::new(b.cells.len(), |i: int| b.cells[i] is UnknownUnconstrained && spread[i])
}

/// The chosen layout on one cell.
pub proof fn lemma_chosen_at(
    b: Board,
    groups: Seq<GraphSolution>,
    picks: Seq<usize>,
    spread: Seq<bool>,
    row: int,
    col: int,
)
    requires
        b.wf(),
        groups_ok(b, groups),
        picks_ok(groups, picks),
        b.inside(row, col),
    ensures
        b.at(row, col) is Mine ==> b.mined(chosen_layout(b, groups, picks, spread), row, col),
        b.at(row, col) is Empty || b.at(row, col) is Clue ==> !b.mined(
            chosen_layout(b, groups, picks, spread),
            row,
            col,
        ),
        b.at(row, col) is UnknownConstrained ==> b.mined(
            chosen_layout(b, groups, picks, spread),
            row,
            col,
        ) == b.mined(union_layout(b, groups, picks, groups.len() as int), row, col),
        b.at(row, col) is UnknownUnconstrained ==> b.mined(
            chosen_layout(b, groups, picks, spread),
            row,
            col,
        ) == spread[flat(b.width, row, col)],
{
    b.lemma_place(row, col);
    let n = groups.len() as int;
    lemma_union_at(b, groups, picks, n, row, col);
    if !(b.at(row, col) is UnknownConstrained) {
        assert forall|g: int| 0 <= g < n implies !(#[trigger] groups[g]).tiles@.contains(
            (row as u16, col as u16),
        ) by {
            if groups[g].tiles@.contains((row as u16, col as u16)) {
                let j = choose|j: int|
                    0 <= j < groups[g].tiles@.len() && groups[g].tiles@[j] == (row as u16, col as u16);
                assert(group_ok(b, groups[g].tiles@, groups[g].alternatives@));
                assert(b.at(groups[g].tiles@[j].0 as int, groups[g].tiles@[j].1 as int)
                    is UnknownConstrained);
            }
        }
    }
}

/// The chosen layout gives the clue at `(row, col)` the number of mines that it counts.
pub proof fn lemma_chosen_exact(
    b: Board,
    groups: Seq<GraphSolution>,
    picks: Seq<usize>,
    spread: Seq<bool>,
    row: int,
    col: int,
)
    requires
        b.wf(),
        b.stable(),
        groups_ok(b, groups),
        picks_ok(groups, picks),
        b.inside(row, col),
    ensures
        b.exact_at(chosen_layout(b, groups, picks, spread), row, col),
{
    let layout = chosen_layout(b, groups, picks, spread);
    let n = groups.len() as int;
    assert(b.stable_at(row, col));
    b.lemma_open_mines_le(layout, row, col);
    if b.sat(Seq::empty(), Around::PositiveClue, row, col) {
        assert(homed_at(b, groups, row, col));
        let g = choose|g: int|
            0 <= g < groups.len() && enclosed(b, (#[trigger] groups[g]).tiles@, row, col);
        let tiles = groups[g].tiles@;
        let alt = picked(groups, picks, g);
        assert(group_ok(b, tiles, groups[g].alternatives@));
        assert(fills(b, tiles, alt));
        assert(fills_at(b, tiles, alt, row, col));
        let paint = painted(b, tiles, alt);
        assert forall|k: int|
            0 <= k < 8 && neighbor_inside(b.width, b.height, row, col, k) implies #[trigger] b.hit(
            layout,
            Around::OpenMine,
            row,
            col,
            k,
        ) == b.hit(paint, Around::OpenMine, row, col, k) by {
            let nr = row + delta_row(k);
            let nc = col + delta_col(k);
            assert(b.inside(nr, nc));
            if b.hit(Seq::empty(), Around::Open, row, col, k) {
                assert(enclosed_at(b, tiles, row, col, k));
                let j = choose|j: int| 0 <= j < tiles.len() && tiles[j] == (nr as u16, nc as u16);
                lemma_chosen_at(b, groups, picks, spread, nr, nc);
                lemma_union_at(b, groups, picks, n, nr, nc);
                lemma_painted(b, tiles, alt, j);
            }
        }
        b.lemma_around_diff(paint, b, layout, Around::OpenMine, row, col, row, col);
    }
}

/// The chosen layout agrees with all that the board knows, and has as many mines that are
/// not yet known as the alternatives picked and the spread over the free cells have.
pub proof fn lemma_chosen_admits(
    b: Board,
    groups: Seq<GraphSolution>,
    picks: Seq<usize>,
    spread: Seq<bool>,
)
    requires
        b.wf(),
        b.stable(),
        groups_ok(b, groups),
        picks_ok(groups, picks),
        spread.len() == b.cells.len(),
    ensures
        b.consistent(chosen_layout(b, groups, picks, spread)),
        b.hidden(chosen_layout(b, groups, picks, spread)) == crate::reconcile::total(
            pick_counts(groups, picks),
        ) + count_true(free_mines(b, spread)),
{
    let layout = chosen_layout(b, groups, picks, spread);
    let n = groups.len() as int;
    let union = union_layout(b, groups, picks, n);
    lemma_union_len(b, groups, picks, n);
    assert forall|row: int, col: int| b.inside(row, col) implies match #[trigger] b.at(row, col) {
        CellState::Mine => b.mined(layout, row, col),
        CellState::Empty => !b.mined(layout, row, col),
        CellState::Clue(_) => !b.mined(layout, row, col),
        _ => true,
    } by {
        lemma_chosen_at(b, groups, picks, spread, row, col);
    }
    assert forall|row: int, col: int| b.inside(row, col) implies #[trigger] b.exact_at(
        layout,
        row,
        col,
    ) by {
        lemma_chosen_exact(b, groups, picks, spread, row, col);
    }
    let free = free_mines(b, spread);
    assert forall|i: int| 0 <= i < union.len() implies !(union[i] && free[i]) && b.hidden_flags(
        layout,
    )[i] == (union[i] || free[i]) by {
        let cell = lemma_flat_onto(b.width, b.height, i);
        lemma_chosen_at(b, groups, picks, spread, cell.0, cell.1);
        lemma_union_at(b, groups, picks, n, cell.0, cell.1);
        if !(b.at(cell.0, cell.1) is UnknownConstrained) {
            assert forall|g: int| 0 <= g < n implies !(#[trigger] groups[g]).tiles@.contains(
                (cell.0 as u16, cell.1 as u16),
            ) by {
                if groups[g].tiles@.contains((cell.0 as u16, cell.1 as u16)) {
                    let j = choose|j: int|
                        0 <= j < groups[g].tiles@.len() && groups[g].tiles@[j] == (
                            cell.0 as u16,
                            cell.1 as u16,
                        );
                    assert(group_ok(b, groups[g].tiles@, groups[g].alternatives@));
                    assert(b.at(groups[g].tiles@[j].0 as int, groups[g].tiles@[j].1 as int)
                        is UnknownConstrained);
                }
            }
        }
    }
    assert(b.hidden_flags(layout) =~= either(union, free));
    lemma_either_count(union, free);
    lemma_union_count(b, groups, picks, n);
    assert(pick_counts(groups, picks).take(n) =~= pick_counts(groups, picks));
}

/// Whether the list of cells to rewrite names the cell `(row, col)`.
pub open spec fn committed(commits: Seq<(u16, u16, bool)>, row: int, col: int) -> bool {
    exists|k: int| 0 <= k < commits.len() && (#[trigger] commits[k]).0 == row && commits[k].1 == col
}

/// A cell whose content is still open, or was so before the free cells to reveal were
/// marked empty, is named in the list of cells to rewrite.
pub open spec fn told_at(
    b0: Board,
    b1: Board,
    commits: Seq<(u16, u16, bool)>,
    row: int,
    col: int,
) -> bool {
    b1.at(row, col) is UnknownConstrained || b1.at(row, col) is UnknownUnconstrained || b1.at(
        row,
        col,
    ) != b0.at(row, col) ==> committed(commits, row, col)
}

/// The list of cells to rewrite says of each cell that it names what the layout has
/// there, and it names every cell of which the board does not say what it holds.
pub open spec fn renders(
    b0: Board,
    b1: Board,
    commits: Seq<(u16, u16, bool)>,
    layout: Seq<bool>,
) -> bool {
    &&& forall|k: int|
        0 <= k < commits.len() ==> b1.inside((#[trigger] commits[k]).0 as int, commits[k].1 as int)
            && !(b1.at(commits[k].0 as int, commits[k].1 as int) is Clue) && commits[k].2
            == b1.mined(layout, commits[k].0 as int, commits[k].1 as int)
    &&& forall|row: int, col: int|
        b1.inside(row, col) ==> #[trigger] told_at(b0, b1, commits, row, col)
}

/// The chosen layout leaves each cell to reveal empty.
pub proof fn lemma_chosen_spares(
    b0: Board,
    b1: Board,
    groups: Seq<GraphSolution>,
    picks: Seq<usize>,
    spread: Seq<bool>,
    revealed: Seq<(u16, u16)>,
    i: int,
)
    requires
        b0.wf(),
        b1.wf(),
        emptied(b0, b1, revealed),
        groups_ok(b1, groups),
        picks_ok(groups, picks),
        forall|g: int|
            0 <= g < groups.len() ==> spares(
                (#[trigger] groups[g]).tiles@,
                picked(groups, picks, g),
                revealed,
            ),
        0 <= i < revealed.len(),
        b0.inside(revealed[i].0 as int, revealed[i].1 as int),
        !(b0.at(revealed[i].0 as int, revealed[i].1 as int) is Mine),
    ensures
        !b1.mined(
            chosen_layout(b1, groups, picks, spread),
            revealed[i].0 as int,
            revealed[i].1 as int,
        ),
{
    let row = revealed[i].0 as int;
    let col = revealed[i].1 as int;
    let n = groups.len() as int;
    assert(b1.at(row, col) == if b0.at(row, col) is UnknownUnconstrained && revealed.contains(
        (row as u16, col as u16),
    ) {
        CellState::Empty
    } else {
        b0.at(row, col)
    });
    assert(revealed.contains(revealed[i]));
    lemma_chosen_at(b1, groups, picks, spread, row, col);
    lemma_union_at(b1, groups, picks, n, row, col);
    if b1.at(row, col) is UnknownConstrained {
        if exists|g: int| 0 <= g < n && (#[trigger] groups[g]).tiles@.contains(revealed[i]) {
            let g = choose|g: int| 0 <= g < n && (#[trigger] groups[g]).tiles@.contains(revealed[i]);
            let j = choose|j: int| 0 <= j < groups[g].tiles@.len() && groups[g].tiles@[j] == revealed[i];
            assert(spares(groups[g].tiles@, picked(groups, picks, g), revealed));
            assert(group_ok(b1, groups[g].tiles@, groups[g].alternatives@));
            assert(fills(b1, groups[g].tiles@, picked(groups, picks, g)));
            assert(revealed.contains(groups[g].tiles@[j]));
        }
    }
}

/// Whether picking the alternatives that `picks` names leaves every cell to reveal empty
/// and a number of mines that the free cells of the board `b1` can take.
pub open spec fn fit_choice(
    b0: Board,
    b1: Board,
    groups: Seq<GraphSolution>,
    hidden: int,
    picks: Seq<usize>,
    revealed: Seq<(u16, u16)>,
) -> bool {
    &&& emptied(b0, b1, revealed)
    &&& picks_ok(groups, picks)
    &&& forall|g: int|
        0 <= g < groups.len() ==> spares(
            (#[trigger] groups[g]).tiles@,
            picked(groups, picks, g),
            revealed,
        )
    &&& crate::reconcile::total(pick_counts(groups, picks)) <= hidden
    &&& hidden - crate::reconcile::total(pick_counts(groups, picks)) <= b1.free_cells()
}

/// Two boards that come from one board by marking the same free cells empty have the same
/// number of free cells.
pub proof fn lemma_emptied_same(b0: Board, b1: Board, b2: Board, revealed: Seq<(u16, u16)>)
    requires
        b0.wf(),
        emptied(b0, b1, revealed),
        emptied(b0, b2, revealed),
    ensures
        b1.free_cells() == b2.free_cells(),
{
    assert forall|i: int| 0 <= i < b0.cells.len() implies b1.free_flags()[i] == b2.free_flags()[i] by {
        let cell = lemma_flat_onto(b0.width, b0.height, i);
        let s1 = b1.at(cell.0, cell.1);
        let s2 = b2.at(cell.0, cell.1);
    }
    assert(b1.free_flags() =~= b2.free_flags());
}

/// An alternative that spares a list of cells spares its first cells.
pub proof fn lemma_spares_take(
    tiles: Seq<(u16, u16)>,
    alt: Seq<bool>,
    revealed: Seq<(u16, u16)>,
    n: int,
)
    requires
        spares(tiles, alt, revealed),
        0 <= n <= revealed.len(),
    ensures
        spares(tiles, alt, revealed.take(n)),
{
    assert forall|j: int|
        0 <= j < tiles.len() && j < alt.len() && revealed.take(n).contains(
            #[trigger] tiles[j],
        ) implies !alt[j] by {
        let i = choose|i: int| 0 <= i < revealed.take(n).len() && revealed.take(n)[i] == tiles[j];
        assert(revealed[i] == tiles[j]);
    }
}

/// An open cell is a tile of one of the groups, and so it is named in a list of cells to
/// rewrite that names all tiles.
pub proof fn lemma_told_open(
    b: Board,
    groups: Seq<GraphSolution>,
    commits: Seq<(u16, u16, bool)>,
    row: int,
    col: int,
)
    requires
        b.wf(),
        b.stable(),
        b.clued(),
        groups_ok(b, groups),
        forall|g: int, j: int|
            0 <= g < groups.len() && 0 <= j < groups[g].tiles@.len() ==> committed(
                commits,
                (#[trigger] groups[g].tiles@[j]).0 as int,
                groups[g].tiles@[j].1 as int,
            ),
        b.inside(row, col),
        b.at(row, col) is UnknownConstrained,
    ensures
        committed(commits, row, col),
{
    lemma_anchored(b);
    assert(b.anchored_at(row, col));
    let k = if b.hit(Seq::empty(), Around::PositiveClue, row, col, 0) {
        0
    } else if b.hit(Seq::empty(), Around::PositiveClue, row, col, 1) {
        1
    } else if b.hit(Seq::empty(), Around::PositiveClue, row, col, 2) {
        2
    } else if b.hit(Seq::empty(), Around::PositiveClue, row, col, 3) {
        3
    } else if b.hit(Seq::empty(), Around::PositiveClue, row, col, 4) {
        4
    } else if b.hit(Seq::empty(), Around::PositiveClue, row, col, 5) {
        5
    } else if b.hit(Seq::empty(), Around::PositiveClue, row, col, 6) {
        6
    } else {
        7int
    };
    assert(b.hit(Seq::empty(), Around::PositiveClue, row, col, k));
    let pr = row + delta_row(k);
    let pc = col + delta_col(k);
    assert(b.inside(pr, pc));
    assert(homed_at(b, groups, pr, pc));
    let g = choose|g: int|
        0 <= g < groups.len() && enclosed(b, (#[trigger] groups[g]).tiles@, pr, pc);
    lemma_offsets(pr, pc, row, col);
    let k2 = offset_between(pr, pc, row, col);
    assert(enclosed_at(b, groups[g].tiles@, pr, pc, k2));
    assert(b.hit(Seq::empty(), Around::Open, pr, pc, k2));
    let j = choose|j: int|
        0 <= j < groups[g].tiles@.len() && groups[g].tiles@[j] == (row as u16, col as u16);
    assert(committed(commits, groups[g].tiles@[j].0 as int, groups[g].tiles@[j].1 as int));
}

/// Picks among the narrowed groups are picks among the groups as they were: the same
/// alternatives under their old numbers.
pub proof fn lemma_picks_back(
    groups0: Seq<GraphSolution>,
    groups1: Seq<GraphSolution>,
    picks: Seq<usize>,
    revealed: Seq<(u16, u16)>,
) -> (old_picks: Seq<usize>)
    requires
        narrowed(groups0, groups1, revealed),
        picks_ok(groups1, picks),
    ensures
        picks_ok(groups0, old_picks),
        forall|g: int|
            0 <= g < groups0.len() ==> picked(groups0, old_picks, g) == #[trigger] picked(
                groups1,
                picks,
                g,
            ),
        pick_counts(groups0, old_picks) == pick_counts(groups1, picks),
{
    let old_picks = Seq::new(
        groups0.len(),
        |g: int|
            choose|a: usize|
                a < groups0[g].alternatives@.len() && groups0[g].alternatives@[a as int]
                    == groups1[g].alternatives@[picks[g] as int],
    );
    assert forall|g: int| 0 <= g < groups0.len() implies #[trigger] old_picks[g]
        < groups0[g].alternatives@.len() && groups0[g].alternatives@[old_picks[g] as int]
        == groups1[g].alternatives@[picks[g] as int] by {
        let alt = groups1[g].alternatives@[picks[g] as int];
        assert(among(groups0[g].alternatives@, alt));
        let k = choose|k: int|
            0 <= k < groups0[g].alternatives@.len() && #[trigger] groups0[g].alternatives@[k] == alt;
        vstd::std_specs::vecdeque::axiom_spec_len(&groups0[g].alternatives);
        assert(groups0[g].alternatives@[k as usize as int] == alt);
    }
    assert(pick_counts(groups0, old_picks) =~= pick_counts(groups1, picks));
    old_picks
}

/// The number of mines of the alternative picked for a group is a number that a machine
/// word holds.
pub proof fn lemma_pick_fits(b: Board, groups: Seq<GraphSolution>, picks: Seq<usize>, g: int)
    requires
        b.wf(),
        groups_ok(b, groups),
        picks_ok(groups, picks),
        0 <= g < groups.len(),
    ensures
        count_true(picked(groups, picks, g)) as usize == count_true(picked(groups, picks, g)),
        pick_counts(groups, picks)[g] == count_true(picked(groups, picks, g)),
{
    lemma_union_count(b, groups, picks, 0);
    assert(b.cells.len() <= 0xffff * 0xffff) by (nonlinear_arith)
        requires
            b.cells.len() == b.width * b.height,
            0 <= b.width <= 0xffff,
            0 <= b.height <= 0xffff,
    ;
}

/// For each cell, whether it is a known mine.
pub open spec fn known_flags(b: Board) -> Seq<bool> {
    Seq::new(b.cells.len(), |i: int| b.cells[i] is Mine)
}

/// A layout that agrees with the board has its hidden mines and the known mines, and no
/// other.
pub proof fn lemma_total_mines(b: Board, layout: Seq<bool>)
    requires
        b.wf(),
        b.agrees(layout),
    ensures
        count_true(layout) == b.hidden(layout) + count_true(known_flags(b)),
{
    let hidden = b.hidden_flags(layout);
    let known = known_flags(b);
    assert forall|i: int| 0 <= i < layout.len() implies layout[i] == (hidden[i] || known[i])
        && !(hidden[i] && known[i]) by {
        let cell = lemma_flat_onto(b.width, b.height, i);
        let s = b.at(cell.0, cell.1);
    }
    assert(layout =~= either(hidden, known));
    lemma_either_count(hidden, known);
}

/// Two layouts that agree with boards that know the same mines, and that hide as many
/// mines, have as many mines.
pub proof fn lemma_same_total(b0: Board, l0: Seq<bool>, b1: Board, l1: Seq<bool>)
    requires
        b0.wf(),
        b1.wf(),
        same_frame(b0, b1),
        b0.agrees(l0),
        b1.agrees(l1),
        b0.hidden(l0) == b1.hidden(l1),
        forall|row: int, col: int|
            b0.inside(row, col) ==> (#[trigger] b1.at(row, col) is Mine <==> b0.at(row, col) is Mine),
    ensures
        count_true(l0) == count_true(l1),
{
    lemma_total_mines(b0, l0);
    lemma_total_mines(b1, l1);
    assert forall|i: int| 0 <= i < b0.cells.len() implies known_flags(b0)[i] == known_flags(b1)[i] by {
        let cell = lemma_flat_onto(b0.width, b0.height, i);
        let s = b1.at(cell.0, cell.1);
    }
    assert(known_flags(b0) =~= known_flags(b1));
}

/// Marking free cells empty changes nothing for a revealed cell: as many mines are known
/// around it, and layouts that agree with the boards have as many mines around it.
pub proof fn lemma_emptied_count(
    b0: Board,
    l0: Seq<bool>,
    b1: Board,
    l1: Seq<bool>,
    revealed: Seq<(u16, u16)>,
    row: int,
    col: int,
)
    requires
        b0.wf(),
        b0.structural(),
        emptied(b0, b1, revealed),
        b0.consistent(l0),
        b1.consistent(l1),
        b0.inside(row, col),
        b0.at(row, col) is Clue,
    ensures
        b1.mines_around(l1, row, col) == b0.mines_around(l0, row, col),
{
    assert(b0.structural_at(row, col));
    assert(b0.exact_at(l0, row, col));
    assert(b1.at(row, col) == b0.at(row, col));
    assert(b1.exact_at(l1, row, col));
    crate::revealing::lemma_split_mines(b0, l0, row, col);
    assert forall|k: int| 0 <= k < 8 implies (#[trigger] b1.hit(
        Seq::empty(),
        Around::KnownMine,
        row,
        col,
        k,
    ) == b0.hit(Seq::empty(), Around::KnownMine, row, col, k)) && !b1.hit(
        Seq::empty(),
        Around::Free,
        row,
        col,
        k,
    ) by {
        if neighbor_inside(b0.width, b0.height, row, col, k) {
            assert(b0.inside(row + delta_row(k), col + delta_col(k)));
            let s1 = b1.at(row + delta_row(k), col + delta_col(k));
            assert(!b0.hit(Seq::empty(), Around::Free, row, col, k));
        }
    }
    crate::revealing::lemma_split_mines(b1, l1, row, col);
    b0.lemma_around_diff(Seq::empty(), b1, Seq::empty(), Around::KnownMine, row, col, row, col);
}

/// Marking empty the free cells of a list of which none is free changes nothing.
pub proof fn lemma_emptied_none(b0: Board, b1: Board, revealed: Seq<(u16, u16)>)
    requires
        b0.wf(),
        emptied(b0, b1, revealed),
        forall|i: int|
            0 <= i < revealed.len() ==> !(b0.at(
                (#[trigger] revealed[i]).0 as int,
                revealed[i].1 as int,
            ) is UnknownUnconstrained),
    ensures
        b1 == b0,
{
    assert forall|i: int| 0 <= i < b0.cells.len() implies b1.cells[i] == b0.cells[i] by {
        let cell = lemma_flat_onto(b0.width, b0.height, i);
        assert(b1.at(cell.0, cell.1) == if b0.at(cell.0, cell.1) is UnknownUnconstrained
            && revealed.contains((cell.0 as u16, cell.1 as u16)) {
            CellState::Empty
        } else {
            b0.at(cell.0, cell.1)
        });
        if revealed.contains((cell.0 as u16, cell.1 as u16)) {
            let k = choose|k: int|
                0 <= k < revealed.len() && revealed[k] == (cell.0 as u16, cell.1 as u16);
            assert(!(b0.at(revealed[k].0 as int, revealed[k].1 as int) is UnknownUnconstrained));
        }
    }
    assert(b1.cells =~= b0.cells);
}

} // verus!
