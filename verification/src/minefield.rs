//! The game: a field of tiles shown to the player, whose mines move out of the way of a
//! reveal as long as the clues shown so far allow it.

use crate::accommodate::{
    committed, emptied, lemma_emptied_count, lemma_emptied_none, lemma_same_total, renders, told_at,
};
use crate::bits::max_bits;
use crate::board::{Around, CellState};
use crate::counting::{
    b2i, count_true, lemma_count_bounds, lemma_count_diff, lemma_count_positive, lemma_count_push,
};
use crate::grid::{flat, Grid, GridCounters, lemma_flat_onto};
use crate::neighbor_iter::{
    adjacent, before, delta_col, delta_row, lemma_offsets, neighbor_inside, NeighborIterable,
};
use crate::random::shuffle;
use crate::solver::PartialSolution;
use rand_xoshiro::Xoshiro256StarStar;
use vstd::prelude::*;

verus! {

/// What the player has put on a hidden tile.
#[derive(Clone, Copy, Debug, PartialEq, Eq, Structural)]
pub enum UserMarking {
    Unmarked,
    Flag,
    QuestionMark,
}

/// What lies under a hidden tile.
#[derive(Clone, Copy, Debug, PartialEq, Eq, Structural)]
pub enum Content {
    Empty,
    Mine,
}

/// A tile as the player sees it: hidden, with its content and the player's marking, or
/// revealed, with the number of mines around it.
#[derive(Clone, Copy, Debug, PartialEq, Eq, Structural)]
pub enum Tile {
    Hidden(Content, UserMarking),
    Revealed(u8),
}

/// The marking that follows `mark` when the player marks a tile once more.
pub open spec fn next_marking(mark: UserMarking) -> UserMarking {
    match mark {
        UserMarking::Unmarked => UserMarking::Flag,
        UserMarking::Flag => UserMarking::QuestionMark,
        UserMarking::QuestionMark => UserMarking::Unmarked,
    }
}

/// The tile after the player marked it once more: a hidden tile gets the next marking, a
/// revealed tile stays as it is.
pub open spec fn marked_tile(tile: Tile) -> Tile {
    match tile {
        Tile::Hidden(content, mark) => Tile::Hidden(content, next_marking(mark)),
        Tile::Revealed(n) => tile,
    }
}

/// Marking a tile three times leaves it as it was, and marking a revealed tile changes
/// nothing.
pub proof fn lemma_mark_cycle(tile: Tile)
    ensures
        marked_tile(marked_tile(marked_tile(tile))) == tile,
        tile is Revealed ==> marked_tile(tile) == tile,
{
}

/// The numbers of flagged and of revealed tiles.
pub struct MinefieldCounters {
    /// The number of hidden tiles that carry a flag.
    pub flag_count: u32,
    /// The number of revealed tiles.
    pub revealed_count: u32,
}

/// Whether the tile is hidden and flagged.
pub open spec fn is_flagged(tile: Tile) -> bool {
    tile matches Tile::Hidden(_, UserMarking::Flag)
}

/// Whether the tile hides a mine.
pub open spec fn is_mine(tile: Tile) -> bool {
    tile matches Tile::Hidden(Content::Mine, _)
}

impl GridCounters<Tile> for MinefieldCounters {
    open spec fn accepts(&self, from: &Tile, to: &Tile) -> bool {
        &&& is_flagged(*from) ==> self.flag_count > 0
        &&& is_flagged(*to) ==> self.flag_count - b2i(is_flagged(*from)) < u32::MAX
        &&& *to is Revealed ==> !(*from is Revealed) && self.revealed_count < u32::MAX
    }

    open spec fn absorbed(&self, from: &Tile, to: &Tile) -> Self {
        MinefieldCounters {
            flag_count: (self.flag_count - b2i(is_flagged(*from)) + b2i(is_flagged(*to))) as u32,
            revealed_count: (self.revealed_count + b2i(*to is Revealed)) as u32,
        }
    }

    fn notify_change(&mut self, from: &Tile, to: &Tile) {
        match *from {
            Tile::Hidden(_, UserMarking::Flag) => {
                self.flag_count = self.flag_count - 1;
            },
            _ => (),
        }
        match *to {
            Tile::Hidden(_, UserMarking::Flag) => {
                self.flag_count = self.flag_count + 1;
            },
            Tile::Revealed(_) => {
                self.revealed_count = self.revealed_count + 1;
            },
            _ => (),
        }
    }
}

/// For each tile, whether it hides a mine.
pub open spec fn mine_flags(tiles: Seq<Tile>) -> Seq<bool> {
    Seq::new(tiles.len(), |i: int| is_mine(tiles[i]))
}

/// For each tile, whether it is flagged.
pub open spec fn flag_flags(tiles: Seq<Tile>) -> Seq<bool> {
    Seq::new(tiles.len(), |i: int| is_flagged(tiles[i]))
}

/// For each tile, whether it is revealed.
pub open spec fn revealed_flags(tiles: Seq<Tile>) -> Seq<bool> {
    Seq::new(tiles.len(), |i: int| tiles[i] is Revealed)
}

/// The field of a game.
pub struct Minefield {
    /// The tiles as the player sees them, with what each hidden tile holds.
    pub grid: Grid<Tile, MinefieldCounters>,
    /// The number of mines in the field.
    pub mine_count: u32,
    sol: PartialSolution,
}

impl NeighborIterable for Minefield {
    closed spec fn board_width(&self) -> u16 {
        self.grid.spec_width()
    }

    closed spec fn board_height(&self) -> u16 {
        self.grid.spec_height()
    }

    fn width(&self) -> u16 {
        self.grid.width()
    }

    fn height(&self) -> u16 {
        self.grid.height()
    }
}

impl Minefield {
    /// The tiles, row after row.
    pub closed spec fn tiles(&self) -> Seq<Tile> {
        self.grid.cells()
    }

    /// The tile at `(row, col)`.
    pub closed spec fn tile(&self, row: int, col: int) -> Tile {
        self.grid.at(row, col)
    }

    /// What has been deduced of the field.
    pub closed spec fn solution(&self) -> PartialSolution {
        self.sol
    }

    /// The number of mines in the field.
    pub closed spec fn mines(&self) -> int {
        self.mine_count as int
    }

    /// The numbers of flagged and of revealed tiles, as counted.
    pub closed spec fn tally(&self) -> MinefieldCounters {
        *self.grid.spec_counters()
    }

    /// The mine layout of the field as it is.
    pub open spec fn layout(&self) -> Seq<bool> {
        mine_flags(self.tiles())
    }

    /// The field has the dimensions of what was deduced of it, and the tiles are as many
    /// as the dimensions say.
    pub closed spec fn shaped(&self) -> bool {
        &&& self.grid.wf()
        &&& self.sol.board().width == self.grid.spec_width()
        &&& self.sol.board().height == self.grid.spec_height()
    }

    /// What the tiles are in terms of the board of the deductions.
    pub proof fn lemma_tiles(&self)
        requires
            self.shaped(),
            self.solution().grid_ok(),
        ensures
            self.tiles().len() == self.solution().board().cells.len(),
            self.solution().board().wf(),
            forall|row: int, col: int|
                self.solution().board().inside(row, col) ==> #[trigger] self.tile(row, col)
                    == self.tiles()[flat(self.solution().board().width, row, col)],
    {
        self.grid.lemma_len();
        self.sol.lemma_board();
    }

    /// A tile is revealed just when the deductions have its clue.
    pub open spec fn shown_at(&self, row: int, col: int) -> bool {
        self.tile(row, col) is Revealed <==> self.solution().board().at(row, col) is Clue
    }

    /// A revealed tile shows the number of mines around it.
    pub open spec fn counted_at(&self, row: int, col: int) -> bool {
        self.tile(row, col) matches Tile::Revealed(n) ==> n == self.solution().board().mines_around(
            self.layout(),
            row,
            col,
        )
    }

    /// Whether the `k`-th neighbor of `(row, col)` is on the field and not revealed.
    pub open spec fn shut_at(&self, row: int, col: int, k: int) -> bool {
        neighbor_inside(
            self.solution().board().width,
            self.solution().board().height,
            row,
            col,
            k,
        ) && !(self.tile(row + delta_row(k), col + delta_col(k)) is Revealed)
    }

    /// Whether the `k`-th neighbor of `(row, col)` is on the field and revealed, with no
    /// mine around it.
    pub open spec fn ground_at(&self, row: int, col: int, k: int) -> bool {
        neighbor_inside(
            self.solution().board().width,
            self.solution().board().height,
            row,
            col,
            k,
        ) && self.tile(row + delta_row(k), col + delta_col(k)) == Tile::Revealed(0)
    }

    /// Whether the tile at `(row, col)` touches a revealed tile that has no mine around it.
    pub open spec fn on_open_ground(&self, row: int, col: int) -> bool {
        ||| self.ground_at(row, col, 0)
        ||| self.ground_at(row, col, 1)
        ||| self.ground_at(row, col, 2)
        ||| self.ground_at(row, col, 3)
        ||| self.ground_at(row, col, 4)
        ||| self.ground_at(row, col, 5)
        ||| self.ground_at(row, col, 6)
        ||| self.ground_at(row, col, 7)
    }

    /// If the `k`-th neighbor of a revealed tile at `(row, col)` without mines around it
    /// is not revealed, it waits in the list to be revealed.
    pub open spec fn waiting_at(&self, waiting: Seq<(u16, u16)>, row: int, col: int, k: int) -> bool {
        self.shut_at(row, col, k) ==> waiting.contains(
            ((row + delta_row(k)) as u16, (col + delta_col(k)) as u16),
        )
    }

    /// Around a revealed tile at `(row, col)` without mines around it, every tile is
    /// revealed or waits in the list to be revealed.
    pub open spec fn flooding_at(&self, waiting: Seq<(u16, u16)>, row: int, col: int) -> bool {
        self.tile(row, col) == Tile::Revealed(0) ==> {
            &&& self.waiting_at(waiting, row, col, 0)
            &&& self.waiting_at(waiting, row, col, 1)
            &&& self.waiting_at(waiting, row, col, 2)
            &&& self.waiting_at(waiting, row, col, 3)
            &&& self.waiting_at(waiting, row, col, 4)
            &&& self.waiting_at(waiting, row, col, 5)
            &&& self.waiting_at(waiting, row, col, 6)
            &&& self.waiting_at(waiting, row, col, 7)
        }
    }

    /// Around every revealed tile without mines around it, every tile is revealed.
    pub open spec fn flooded(&self) -> bool {
        forall|row: int, col: int|
            self.solution().board().inside(row, col) ==> #[trigger] self.flooding_at(
                Seq::empty(),
                row,
                col,
            )
    }

    /// If the tile at `(row, col)` was revealed since `before`, it is one of the tiles in
    /// `start` or touches a revealed tile without mines around it.
    pub open spec fn reached_at(
        &self,
        before: Minefield,
        start: Seq<(u16, u16)>,
        row: int,
        col: int,
    ) -> bool {
        self.tile(row, col) is Revealed && !(before.tile(row, col) is Revealed) ==> start.contains(
            (row as u16, col as u16),
        ) || self.on_open_ground(row, col)
    }

    /// The state of a game in progress: what was deduced is at rest and agrees with the
    /// mines as they lie, the groups of open cells are those of the board, each revealed
    /// tile shows the number of mines around it, and the counts are right.
    pub open spec fn wf(&self) -> bool {
        &&& self.shaped()
        &&& self.solution().wf()
        &&& self.solution().groups_sound()
        &&& self.solution().admits(self.layout())
        &&& count_true(self.layout()) == self.mines()
        &&& self.tally().flag_count == count_true(flag_flags(self.tiles()))
        &&& self.tally().revealed_count == count_true(revealed_flags(self.tiles()))
        &&& forall|row: int, col: int|
            self.solution().board().inside(row, col) ==> #[trigger] self.shown_at(row, col)
        &&& forall|row: int, col: int|
            self.solution().board().inside(row, col) ==> #[trigger] self.counted_at(row, col)
        &&& self.flooded()
    }

    /// Fields that show the same tiles revealed, and the same of them without mines
    /// around them, are flooded alike.
    pub proof fn lemma_flooded_kept(&self, after: Minefield)
        requires
            self.flooded(),
            after.solution().board().width == self.solution().board().width,
            after.solution().board().height == self.solution().board().height,
            forall|row: int, col: int|
                self.solution().board().inside(row, col) ==> (#[trigger] after.tile(row, col)
                    is Revealed <==> self.tile(row, col) is Revealed) && (after.tile(row, col)
                    == Tile::Revealed(0) ==> self.tile(row, col) == Tile::Revealed(0)),
        ensures
            after.flooded(),
    {
        let b = self.solution().board();
        let none = Seq::<(u16, u16)>::empty();
        assert forall|row: int, col: int| b.inside(row, col) implies #[trigger] after.flooding_at(
            none,
            row,
            col,
        ) by {
            assert(self.flooding_at(none, row, col));
            if after.tile(row, col) == Tile::Revealed(0) {
                assert forall|k: int| 0 <= k < 8 implies #[trigger] after.waiting_at(
                    none,
                    row,
                    col,
                    k,
                ) by {
                    assert(self.waiting_at(none, row, col, k));
                    if after.shut_at(row, col, k) {
                        assert(b.inside(row + delta_row(k), col + delta_col(k)));
                        assert(self.shut_at(row, col, k));
                    }
                }
            }
        }
    }

    /// No mine lies around a revealed tile that shows no mine around it.
    pub proof fn lemma_no_mine_near_ground(&self, row: int, col: int, k: int)
        requires
            self.shaped(),
            self.solution().grid_ok(),
            self.solution().board().inside(row, col),
            self.counted_at(row, col),
            self.tile(row, col) == Tile::Revealed(0),
            neighbor_inside(
                self.solution().board().width,
                self.solution().board().height,
                row,
                col,
                k,
            ),
        ensures
            !is_mine(self.tile(row + delta_row(k), col + delta_col(k))),
    {
        let b = self.solution().board();
        self.lemma_tiles();
        b.lemma_place(row + delta_row(k), col + delta_col(k));
        assert(b.mines_around(self.layout(), row, col) == 0);
        assert(!b.hit(self.layout(), Around::LayoutMine, row, col, k));
    }

    /// A revealed tile shows the number of mines around it, which is the mines known
    /// around it and the mines that its clue still counts: a number from zero to eight.
    pub proof fn lemma_shown_counts(&self, row: int, col: int)
        requires
            self.wf(),
            self.solution().board().inside(row, col),
            self.tile(row, col) is Revealed,
        ensures
            self.tile(row, col) matches Tile::Revealed(n) && n
                == self.solution().board().mines_around(self.layout(), row, col) && n <= 8 && (
            self.solution().board().at(row, col) matches CellState::Clue(owed) && n == owed
                + self.solution().board().known_mines(row, col)),
    {
        let b = self.solution().board();
        assert(self.counted_at(row, col));
        assert(self.shown_at(row, col));
        self.solution().lemma_clue_counts(self.layout(), row, col);
        crate::revealing::lemma_split_mines(b, self.layout(), row, col);
        b.lemma_around_bounds(self.layout(), Around::LayoutMine, row, col);
    }

    /// The tile at `(row, col)`.
    pub fn tile_at(&self, row: u16, col: u16) -> (tile: Tile)
        requires
            self.shaped(),
            self.solution().board().inside(row as int, col as int),
        ensures
            tile == self.tile(row as int, col as int),
    {
        *self.grid.get(row, col)
    }

    /// The number of flagged tiles.
    pub fn flag_count(&self) -> (count: u32)
        ensures
            count == self.tally().flag_count,
    {
        self.grid.counters().flag_count
    }

    /// The number of revealed tiles.
    pub fn revealed_count(&self) -> (count: u32)
        ensures
            count == self.tally().revealed_count,
    {
        self.grid.counters().revealed_count
    }

    /// What has been deduced of the field.
    pub fn deductions(&self) -> (sol: &PartialSolution)
        ensures
            *sol == self.solution(),
    {
        &self.sol
    }

    /// Marks a hidden tile once more: no marking, then a flag, then a question mark, then
    /// no marking again. A revealed tile stays as it is.
    pub fn switch_mark(&mut self, row: u16, col: u16)
        requires
            old(self).wf(),
            old(self).solution().board().inside(row as int, col as int),
        ensures
            final(self).wf(),
            final(self).solution() == old(self).solution(),
            final(self).mines() == old(self).mines(),
            final(self).tiles() == old(self).tiles().update(
                flat(old(self).solution().board().width, row as int, col as int),
                marked_tile(old(self).tile(row as int, col as int)),
            ),
    {
        let ghost b = self.sol.board();
        let ghost tiles0 = self.tiles();
        let ghost p = flat(b.width, row as int, col as int);
        proof {
            self.lemma_tiles();
            b.lemma_place(row as int, col as int);
        }
        match *self.grid.get(row, col) {
            Tile::Hidden(c, mark) => {
                let next = match mark {
                    UserMarking::Unmarked => UserMarking::Flag,
                    UserMarking::Flag => UserMarking::QuestionMark,
                    UserMarking::QuestionMark => UserMarking::Unmarked,
                };
                proof {
                    lemma_count_bounds(flag_flags(tiles0));
                    if is_flagged(tiles0[p]) {
                        lemma_count_positive(flag_flags(tiles0), p);
                    } else {
                        // A tile that is not flagged leaves room for one more flag.
                        lemma_count_diff(
                            flag_flags(tiles0),
                            flag_flags(tiles0.update(p, Tile::Hidden(c, UserMarking::Flag))),
                            p,
                        );
                        lemma_count_bounds(
                            flag_flags(tiles0.update(p, Tile::Hidden(c, UserMarking::Flag))),
                        );
                        assert(tiles0.len() <= 0xffff * 0xffff) by (nonlinear_arith)
                            requires
                                tiles0.len() == b.width * b.height,
                                0 <= b.width <= 0xffff,
                                0 <= b.height <= 0xffff,
                        ;
                    }
                }
                self.grid.set(row, col, Tile::Hidden(c, next));
                proof {
                    let tiles1 = self.tiles();
                    lemma_count_diff(flag_flags(tiles0), flag_flags(tiles1), p);
                    assert(revealed_flags(tiles1) =~= revealed_flags(tiles0));
                    assert(mine_flags(tiles1) =~= mine_flags(tiles0));
                    assert forall|r: int, c2: int| b.inside(r, c2) implies #[trigger] self.shown_at(
                        r,
                        c2,
                    ) && self.counted_at(r, c2) by {
                        b.lemma_place(r, c2);
                        assert(old(self).shown_at(r, c2));
                        assert(old(self).counted_at(r, c2));
                        if flat(b.width, r, c2) == p {
                            crate::grid::lemma_flat_injective(b.width, r, c2, row as int, col as int);
                        }
                    }
                    assert forall|r: int, c2: int| b.inside(r, c2) implies #[trigger] self.counted_at(
                        r,
                        c2,
                    ) by {
                        assert(self.shown_at(r, c2));
                    }
                    assert forall|r: int, c2: int| b.inside(r, c2) implies (#[trigger] self.tile(
                        r,
                        c2,
                    ) is Revealed <==> old(self).tile(r, c2) is Revealed) && (self.tile(r, c2)
                        == Tile::Revealed(0) ==> old(self).tile(r, c2) == Tile::Revealed(0)) by {
                        b.lemma_place(r, c2);
                        if flat(b.width, r, c2) == p {
                            crate::grid::lemma_flat_injective(b.width, r, c2, row as int, col as int);
                        }
                    }
                    old(self).lemma_flooded_kept(*self);
                }
            },
            Tile::Revealed(_) => {
                proof {
                    assert(tiles0.update(p, tiles0[p]) =~= tiles0);
                }
            },
        }
    }

    /// Whether every tile that hides no mine is revealed.
    pub fn is_all_revealed(&self) -> (won: bool)
        requires
            self.wf(),
        ensures
            won == (count_true(revealed_flags(self.tiles())) + self.mines()
                == self.solution().board().width * self.solution().board().height),
    {
        proof {
            self.lemma_tiles();
            assert(0 <= self.grid.spec_width() as int * self.grid.spec_height() as int <= 0xffff
                * 0xffff) by (nonlinear_arith)
                requires
                    0 <= self.grid.spec_width() <= 0xffff,
                    0 <= self.grid.spec_height() <= 0xffff,
            ;
        }
        let revealed: u64 = self.grid.counters().revealed_count as u64;
        let total: u64 = (self.grid.width() as u64) * (self.grid.height() as u64);
        revealed + self.mine_count as u64 == total
    }

    /// The state of a game between two steps of a reveal: as [`Self::wf`], but for the
    /// groups of open cells, which are looked for anew once the reveal is done.
    pub open spec fn playing(&self) -> bool {
        &&& self.shaped()
        &&& self.solution().wf()
        &&& self.solution().admits(self.layout())
        &&& count_true(self.layout()) == self.mines()
        &&& self.tally().flag_count == count_true(flag_flags(self.tiles()))
        &&& self.tally().revealed_count == count_true(revealed_flags(self.tiles()))
        &&& forall|row: int, col: int|
            self.solution().board().inside(row, col) ==> #[trigger] self.shown_at(row, col)
        &&& forall|row: int, col: int|
            self.solution().board().inside(row, col) ==> #[trigger] self.counted_at(row, col)
    }

    /// A field of `width` by `height` hidden tiles with `mine_count` mines at random
    /// places.
    pub fn create_random(width: u16, height: u16, mine_count: u32, rng: &mut Xoshiro256StarStar) -> (field:
        Minefield)
        requires
            mine_count <= width as int * height as int,
            width as int * height as int <= max_bits(),
        ensures
            field.wf(),
            field.solution().board().width == width,
            field.solution().board().height == height,
            field.mines() == mine_count,
            forall|i: int|
                0 <= i < field.tiles().len() ==> (#[trigger] field.tiles()[i]) matches Tile::Hidden(
                    _,
                    UserMarking::Unmarked,
                ),
    {
        assert(0 <= width as int * height as int <= 0xffff * 0xffff) by (nonlinear_arith)
            requires
                0 <= width <= 0xffff,
                0 <= height <= 0xffff,
        ;
        let total_size: usize = (width as usize) * (height as usize);
        let mut flattened: Vec<Tile> = Vec::new();
        let mine = Tile::Hidden(Content::Mine, UserMarking::Unmarked);
        let empty = Tile::Hidden(Content::Empty, UserMarking::Unmarked);
        let mut i: usize = 0;
        while i < mine_count as usize
            invariant
                i <= mine_count,
                flattened@.len() == i,
                mine == Tile::Hidden(Content::Mine, UserMarking::Unmarked),
                count_true(mine_flags(flattened@)) == i,
                forall|k: int| 0 <= k < flattened@.len() ==> plain(#[trigger] flattened@[k]),
            decreases mine_count - i,
        {
            proof {
                assert(mine_flags(flattened@.push(mine)) =~= mine_flags(flattened@).push(true));
                lemma_count_push(mine_flags(flattened@), true);
            }
            flattened.push(mine);
            i = i + 1;
        }
        while i < total_size
            invariant
                mine_count <= i <= total_size,
                flattened@.len() == i,
                empty == Tile::Hidden(Content::Empty, UserMarking::Unmarked),
                count_true(mine_flags(flattened@)) == mine_count,
                forall|k: int| 0 <= k < flattened@.len() ==> plain(#[trigger] flattened@[k]),
            decreases total_size - i,
        {
            proof {
                assert(mine_flags(flattened@.push(empty)) =~= mine_flags(flattened@).push(false));
                lemma_count_push(mine_flags(flattened@), false);
            }
            flattened.push(empty);
            i = i + 1;
        }
        let ghost ordered = flattened@;
        shuffle(rng, &mut flattened);
        proof {
            vstd::seq_lib::to_multiset_len(ordered);
            vstd::seq_lib::to_multiset_len(flattened@);
            assert forall|k: int| 0 <= k < flattened@.len() implies plain(#[trigger] flattened@[k]) by {
                vstd::seq_lib::to_multiset_contains(flattened@, flattened@[k]);
                vstd::seq_lib::to_multiset_contains(ordered, flattened@[k]);
                assert(flattened@.contains(flattened@[k]));
                let k0 = choose|k0: int| 0 <= k0 < ordered.len() && ordered[k0] == flattened@[k];
                assert(plain(ordered[k0]));
            }
            lemma_plain_mines(ordered);
            lemma_plain_mines(flattened@);
        }
        let sol = PartialSolution::new(width, height, mine_count);
        let counters = MinefieldCounters { flag_count: 0, revealed_count: 0 };
        let grid = match Grid::from_vec(width, height, counters, flattened) {
            Some(grid) => grid,
            None => Grid::new(
                width,
                height,
                MinefieldCounters { flag_count: 0, revealed_count: 0 },
                empty,
            ),
        };
        let field = Minefield { grid, mine_count, sol };
        proof {
            let b = field.sol.board();
            let tiles = field.tiles();
            field.grid.lemma_len();
            field.sol.lemma_board();
            crate::counting::lemma_count_zero(flag_flags(tiles));
            crate::counting::lemma_count_zero(revealed_flags(tiles));
            assert forall|row: int, col: int| b.inside(row, col) implies b.at(row, col)
                is UnknownUnconstrained && field.tile(row, col) is Hidden by {
                b.lemma_place(row, col);
                assert(plain(tiles[flat(b.width, row, col)]));
            }
            assert forall|row: int, col: int| b.inside(row, col) implies #[trigger] field.shown_at(
                row,
                col,
            ) by {}
            assert forall|row: int, col: int| b.inside(row, col) implies #[trigger] field.counted_at(
                row,
                col,
            ) by {}
            assert(crate::components::groups_ok(b, field.sol.components())) by {
                assert forall|row: int, col: int| b.inside(row, col) implies #[trigger] crate::components::homed_at(
                    b,
                    field.sol.components(),
                    row,
                    col,
                ) by {}
            }
        }
        field
    }

    /// The number of mines around a tile.
    fn count_neighbor_bombs(&self, row: u16, col: u16) -> (count: u8)
        requires
            self.shaped(),
            self.solution().grid_ok(),
            self.solution().board().inside(row as int, col as int),
        ensures
            count == self.solution().board().mines_around(self.layout(), row as int, col as int),
    {
        let ghost b = self.sol.board();
        let ghost layout = self.layout();
        let ghost r0 = row as int;
        let ghost c0 = col as int;
        proof {
            self.lemma_tiles();
        }
        let mut count: u8 = 0;
        let mut it = self.neighbors_of(row, col);
        loop
            invariant
                self.shaped(),
                self.solution().grid_ok(),
                b == self.sol.board(),
                b.wf(),
                layout == self.layout(),
                b.inside(r0, c0),
                it.board_width() == b.width,
                it.board_height() == b.height,
                it.center_row() == r0,
                it.center_col() == c0,
                0 <= it.cursor() <= 8,
                count == b.around_upto(layout, Around::LayoutMine, r0, c0, it.cursor()),
            ensures
                it.cursor() == 8,
            decreases 8 - it.cursor(),
        {
            match it.next() {
                None => {
                    break ;
                },
                Some((nr, nc)) => {
                    proof {
                        self.lemma_tiles();
                        b.lemma_place(nr as int, nc as int);
                    }
                    match *self.grid.get(nr, nc) {
                        Tile::Hidden(Content::Mine, _) => {
                            count = count + 1;
                        },
                        _ => {},
                    }
                },
            }
        }
        count
    }

    /// Whether the tile at `(row, col)` is hidden and carries no flag.
    pub open spec fn reachable(&self, row: int, col: int) -> bool {
        self.tile(row, col) is Hidden && !is_flagged(self.tile(row, col))
    }

    /// Whether the `k`-th neighbor of `(row, col)` is on the field and flagged.
    pub open spec fn flag_at(&self, row: int, col: int, k: int) -> bool {
        neighbor_inside(
            self.solution().board().width,
            self.solution().board().height,
            row,
            col,
            k,
        ) && is_flagged(self.tile(row + delta_row(k), col + delta_col(k)))
    }

    /// The number of flagged tiles around `(row, col)`, among those at the first `cursor`
    /// offsets.
    pub open spec fn flags_upto(&self, row: int, col: int, cursor: int) -> int {
        b2i(0 < cursor && self.flag_at(row, col, 0)) + b2i(1 < cursor && self.flag_at(row, col, 1))
            + b2i(2 < cursor && self.flag_at(row, col, 2)) + b2i(
            3 < cursor && self.flag_at(row, col, 3),
        ) + b2i(4 < cursor && self.flag_at(row, col, 4)) + b2i(
            5 < cursor && self.flag_at(row, col, 5),
        ) + b2i(6 < cursor && self.flag_at(row, col, 6)) + b2i(
            7 < cursor && self.flag_at(row, col, 7),
        )
    }

    /// The tiles around `(row, col)` that are hidden and carry no flag, among those at the
    /// first `k` offsets, in order.
    pub open spec fn reach_list(&self, row: int, col: int, k: int) -> Seq<(u16, u16)>
        decreases k,
    {
        if k <= 0 {
            Seq::empty()
        } else if neighbor_inside(
            self.solution().board().width,
            self.solution().board().height,
            row,
            col,
            k - 1,
        ) && self.reachable(row + delta_row(k - 1), col + delta_col(k - 1)) {
            self.reach_list(row, col, k - 1).push(
                ((row + delta_row(k - 1)) as u16, (col + delta_col(k - 1)) as u16),
            )
        } else {
            self.reach_list(row, col, k - 1)
        }
    }

    /// The tiles that a reveal at `(row, col)` is about: a hidden tile itself, unless it
    /// is flagged; for a revealed tile with as many flags around it as it shows mines, the
    /// tiles around it that are hidden and carry no flag.
    pub open spec fn targets(&self, row: int, col: int) -> Seq<(u16, u16)> {
        match self.tile(row, col) {
            Tile::Hidden(_, mark) => if mark == UserMarking::Flag {
                Seq::empty()
            } else {
                seq![(row as u16, col as u16)]
            },
            Tile::Revealed(n) => if n == self.flags_upto(row, col, 8) {
                self.reach_list(row, col, 8)
            } else {
                Seq::empty()
            },
        }
    }

    /// What is in the list of tiles around `(row, col)` that a reveal can reach.
    pub proof fn lemma_reach_list(&self, row: int, col: int, k: int)
        requires
            self.shaped(),
            self.solution().grid_ok(),
            0 <= k <= 8,
        ensures
            self.reach_list(row, col, k).len() <= k,
            forall|j: int|
                0 <= j < self.reach_list(row, col, k).len() ==> {
                    let cell = #[trigger] self.reach_list(row, col, k)[j];
                    &&& self.solution().board().inside(cell.0 as int, cell.1 as int)
                    &&& adjacent(row, col, cell.0 as int, cell.1 as int)
                    &&& self.reachable(cell.0 as int, cell.1 as int)
                },
        decreases k,
    {
        self.lemma_tiles();
        if k > 0 {
            self.lemma_reach_list(row, col, k - 1);
        }
    }

    /// Offsets that do not lead to the field add nothing to the list.
    pub proof fn lemma_reach_skip(&self, row: int, col: int, prev: int, k: int)
        requires
            0 <= prev <= k,
            forall|j: int|
                prev <= j < k ==> !neighbor_inside(
                    self.solution().board().width,
                    self.solution().board().height,
                    row,
                    col,
                    j,
                ),
        ensures
            self.reach_list(row, col, k) == self.reach_list(row, col, prev),
            self.flags_upto(row, col, k) == self.flags_upto(row, col, prev),
        decreases k - prev,
    {
        if prev < k {
            self.lemma_reach_skip(row, col, prev, k - 1);
            assert(!neighbor_inside(
                self.solution().board().width,
                self.solution().board().height,
                row,
                col,
                k - 1,
            ));
        }
    }

    /// The tiles that a reveal at `(row, col)` is about, each with whether it hides a mine.
    fn find_revealed_cells(&self, row: u16, col: u16) -> (cells: Vec<(u16, u16, bool)>)
        requires
            self.shaped(),
            self.solution().grid_ok(),
            self.solution().board().inside(row as int, col as int),
        ensures
            cells@.len() == self.targets(row as int, col as int).len(),
            forall|i: int|
                0 <= i < cells@.len() ==> ((#[trigger] cells@[i]).0, cells@[i].1) == self.targets(
                    row as int,
                    col as int,
                )[i] && cells@[i].2 == is_mine(self.tile(cells@[i].0 as int, cells@[i].1 as int)),
    {
        let ghost b = self.sol.board();
        let ghost r0 = row as int;
        let ghost c0 = col as int;
        proof {
            self.lemma_tiles();
        }
        let mut cells: Vec<(u16, u16, bool)> = Vec::new();
        match *self.grid.get(row, col) {
            Tile::Hidden(_, UserMarking::Flag) => {},
            Tile::Hidden(Content::Mine, _) => {
                cells.push((row, col, true));
            },
            Tile::Hidden(Content::Empty, _) => {
                cells.push((row, col, false));
            },
            Tile::Revealed(count) => {
                // The tiles around a clue are revealed only if as many flags are around it
                // as it shows mines.
                let mut flags: u8 = 0;
                let mut it = self.neighbors_of(row, col);
                loop
                    invariant
                        self.shaped(),
                        self.solution().grid_ok(),
                        b == self.sol.board(),
                        b.wf(),
                        b.inside(r0, c0),
                        it.board_width() == b.width,
                        it.board_height() == b.height,
                        it.center_row() == r0,
                        it.center_col() == c0,
                        0 <= it.cursor() <= 8,
                        flags == self.flags_upto(r0, c0, it.cursor()),
                        cells@.len() == self.reach_list(r0, c0, it.cursor()).len(),
                        cells@.len() <= it.cursor(),
                        forall|i: int|
                            0 <= i < cells@.len() ==> ((#[trigger] cells@[i]).0, cells@[i].1)
                                == self.reach_list(r0, c0, it.cursor())[i] && cells@[i].2
                                == is_mine(self.tile(cells@[i].0 as int, cells@[i].1 as int)),
                    ensures
                        it.cursor() == 8,
                    decreases 8 - it.cursor(),
                {
                    let ghost prev = it.cursor();
                    let ghost listed = cells@;
                    match it.next() {
                        None => {
                            proof {
                                if prev < 8 {
                                    self.lemma_reach_skip(r0, c0, prev, 8);
                                }
                            }
                            break ;
                        },
                        Some((nr, nc)) => {
                            proof {
                                self.lemma_reach_skip(r0, c0, prev, it.cursor() - 1);
                                self.lemma_reach_list(r0, c0, it.cursor() - 1);
                            }
                            match *self.grid.get(nr, nc) {
                                Tile::Hidden(_, UserMarking::Flag) => {
                                    flags = flags + 1;
                                },
                                Tile::Hidden(Content::Mine, _) => {
                                    cells.push((nr, nc, true));
                                },
                                Tile::Hidden(Content::Empty, _) => {
                                    cells.push((nr, nc, false));
                                },
                                Tile::Revealed(_) => {},
                            }
                            proof {
                                assert forall|i: int| 0 <= i < cells@.len() implies (
                                    (#[trigger] cells@[i]).0,
                                    cells@[i].1,
                                ) == self.reach_list(r0, c0, it.cursor())[i] && cells@[i].2
                                    == is_mine(self.tile(cells@[i].0 as int, cells@[i].1 as int)) by {
                                    if i < listed.len() {
                                        assert(cells@[i] == listed[i]);
                                    }
                                }
                            }
                        },
                    }
                }
                if flags != count {
                    cells = Vec::new();
                }
            },
        }
        cells
    }

    /// Tries to lay the mines anew so that none of the tiles to reveal hides one, and
    /// writes the new contents under the hidden tiles if that can be done.
    fn try_reacomodate(&mut self, rng: &mut Xoshiro256StarStar, revealed: &Vec<(u16, u16)>) -> (ok: bool)
        requires
            old(self).wf(),
            forall|i: int|
                0 <= i < revealed@.len() ==> old(self).solution().board().inside(
                    (#[trigger] revealed@[i]).0 as int,
                    revealed@[i].1 as int,
                ) && old(self).tile(revealed@[i].0 as int, revealed@[i].1 as int) is Hidden,
        ensures
            ok <==> old(self).solution().accommodable(revealed@),
            final(self).shaped(),
            final(self).solution().wf(),
            final(self).solution().board().width == old(self).solution().board().width,
            final(self).solution().board().height == old(self).solution().board().height,
            final(self).mines() == old(self).mines(),
            ok ==> final(self).wf() && forall|i: int|
                0 <= i < revealed@.len() ==> !is_mine(
                    final(self).tile((#[trigger] revealed@[i]).0 as int, revealed@[i].1 as int),
                ),
            forall|row: int, col: int|
                old(self).solution().board().inside(row, col) ==> recontent(
                    old(self).tile(row, col),
                    is_mine(#[trigger] final(self).tile(row, col)),
                ) == final(self).tile(row, col),
            !ok ==> final(self).tiles() == old(self).tiles() && final(self).tally() == old(
                self,
            ).tally() && final(self).solution().hidden_mines() == old(self).solution().hidden_mines()
                && exists|t: int|
                0 <= t <= revealed@.len() && emptied(
                    old(self).solution().board(),
                    final(self).solution().board(),
                    #[trigger] revealed@.take(t),
                ),
    {
        let ghost b0 = self.sol.board();
        let ghost tiles0 = self.tiles();
        let ghost c0 = self.layout();
        proof {
            self.lemma_tiles();
            assert forall|i: int| 0 <= i < revealed@.len() implies !(b0.at(
                (#[trigger] revealed@[i]).0 as int,
                revealed@[i].1 as int,
            ) is Clue) by {
                assert(self.shown_at(revealed@[i].0 as int, revealed@[i].1 as int));
            }
            assert forall|row: int, col: int| b0.inside(row, col) implies recontent(
                self.tile(row, col),
                is_mine(#[trigger] self.tile(row, col)),
            ) == self.tile(row, col) by {}
        }
        match self.sol.find_acomodating_solution(rng, revealed) {
            None => false,
            Some(commits) => {
                let ghost b1 = self.sol.board();
                let ghost layout = choose|layout: Seq<bool>| #[trigger]
                    self.sol.admits(layout) && renders(b0, b1, commits@, layout) && forall|i: int|
                        0 <= i < revealed@.len() ==> !b1.mined(
                            layout,
                            (#[trigger] revealed@[i]).0 as int,
                            revealed@[i].1 as int,
                        );
                let ghost sol1 = self.sol;
                proof {
                    self.sol.lemma_board();
                    assert forall|row: int, col: int| b0.inside(row, col) implies (old(self).tile(
                        row,
                        col,
                    ) is Revealed <==> #[trigger] b1.at(row, col) is Clue) by {
                        assert(old(self).shown_at(row, col));
                    }
                    assert(commits@.take(0) =~= Seq::<(u16, u16, bool)>::empty());
                }
                let mut k: usize = 0;
                while k < commits.len()
                    invariant
                        k <= commits@.len(),
                        self.grid.wf(),
                        self.sol == sol1,
                        self.mine_count == old(self).mine_count,
                        b1 == sol1.board(),
                        b1.wf(),
                        b0.wf(),
                        b1.width == b0.width,
                        b1.height == b0.height,
                        b1.width == self.grid.spec_width(),
                        b1.height == self.grid.spec_height(),
                        tiles0.len() == b0.cells.len(),
                        self.tiles().len() == tiles0.len(),
                        renders(b0, b1, commits@, layout),
                        self.tally() == old(self).tally(),
                        old(self).tally().flag_count == count_true(flag_flags(tiles0)),
                        flag_flags(self.tiles()) == flag_flags(tiles0),
                        revealed_flags(self.tiles()) == revealed_flags(tiles0),
                        forall|row: int, col: int|
                            b0.inside(row, col) ==> (old(self).tile(row, col) is Revealed
                                <==> #[trigger] b1.at(row, col) is Clue),
                        forall|row: int, col: int|
                            b0.inside(row, col) ==> #[trigger] self.tile(row, col) == if committed(
                                commits@.take(k as int),
                                row,
                                col,
                            ) {
                                recontent(old(self).tile(row, col), b1.mined(layout, row, col))
                            } else {
                                old(self).tile(row, col)
                            },
                    decreases commits@.len() - k,
                {
                    let commit = commits[k];
                    let row = commit.0;
                    let col = commit.1;
                    let ghost tiles_prev = self.tiles();
                    let ghost p = flat(b1.width, row as int, col as int);
                    let ghost done = commits@.take(k as int);
                    let ghost more = commits@.take(k + 1);
                    let ghost prev = *self;
                    proof {
                        b1.lemma_place(row as int, col as int);
                        assert(more =~= done.push(commit));
                        assert forall|r: int, c: int| committed(more, r, c) <==> committed(done, r, c)
                            || (r == row && c == col) by {
                            if committed(more, r, c) {
                                let j = choose|j: int|
                                    0 <= j < more.len() && (#[trigger] more[j]).0 == r && more[j].1
                                        == c;
                                if j < done.len() {
                                    assert(done[j].0 == r && done[j].1 == c);
                                }
                            }
                            if committed(done, r, c) {
                                let j = choose|j: int|
                                    0 <= j < done.len() && (#[trigger] done[j]).0 == r && done[j].1
                                        == c;
                                assert(more[j].0 == r && more[j].1 == c);
                            }
                            if r == row && c == col {
                                assert(more[done.len() as int].0 == r);
                            }
                        }
                    }
                    match *self.grid.get(row, col) {
                        Tile::Hidden(_, mark) => {
                            let content = if commit.2 {
                                Content::Mine
                            } else {
                                Content::Empty
                            };
                            proof {
                                if is_flagged(tiles_prev[p]) {
                                    lemma_count_positive(flag_flags(tiles_prev), p);
                                }
                                lemma_count_bounds(flag_flags(tiles0));
                                assert(tiles0.len() <= 0xffff * 0xffff) by (nonlinear_arith)
                                    requires
                                        tiles0.len() == b0.width * b0.height,
                                        0 <= b0.width <= 0xffff,
                                        0 <= b0.height <= 0xffff,
                                ;
                            }
                            self.grid.set(row, col, Tile::Hidden(content, mark));
                            proof {
                                assert(flag_flags(self.tiles()) =~= flag_flags(tiles_prev));
                                assert(revealed_flags(self.tiles()) =~= revealed_flags(tiles_prev));
                            }
                        },
                        Tile::Revealed(_) => {},
                    }
                    proof {
                        assert forall|r: int, c: int| b0.inside(r, c) implies #[trigger] self.tile(
                            r,
                            c,
                        ) == if committed(more, r, c) {
                            recontent(old(self).tile(r, c), b1.mined(layout, r, c))
                        } else {
                            old(self).tile(r, c)
                        } by {
                            b1.lemma_place(r, c);
                            if flat(b1.width, r, c) == p {
                                crate::grid::lemma_flat_injective(b1.width, r, c, row as int, col as int);
                            }
                            assert(prev.tile(r, c) == if committed(done, r, c) {
                                recontent(old(self).tile(r, c), b1.mined(layout, r, c))
                            } else {
                                old(self).tile(r, c)
                            });
                            assert(commits@[k as int].2 == b1.mined(
                                layout,
                                commits@[k as int].0 as int,
                                commits@[k as int].1 as int,
                            ));
                        }
                    }
                    k = k + 1;
                }
                proof {
                    assert(commits@.take(k as int) =~= commits@);
                    self.lemma_tiles();
                    let c1 = self.layout();
                    assert forall|i: int| 0 <= i < c1.len() implies c1[i] == layout[i] by {
                        let cell = lemma_flat_onto(b1.width, b1.height, i);
                        assert(old(self).shown_at(cell.0, cell.1));
                        assert(told_at(b0, b1, commits@, cell.0, cell.1));
                        let t0 = old(self).tile(cell.0, cell.1);
                        let t1 = self.tile(cell.0, cell.1);
                        if committed(commits@, cell.0, cell.1) {
                            let j = choose|j: int|
                                0 <= j < commits@.len() && (#[trigger] commits@[j]).0 == cell.0
                                    && commits@[j].1 == cell.1;
                            assert(!(b1.at(commits@[j].0 as int, commits@[j].1 as int) is Clue));
                        } else {
                            let s0 = b0.at(cell.0, cell.1);
                        }
                    }
                    assert(c1 =~= layout);
                    lemma_same_total(b0, c0, b1, layout);
                    assert forall|row: int, col: int| b1.inside(row, col) implies #[trigger] self.shown_at(
                        row,
                        col,
                    ) by {
                        assert(old(self).shown_at(row, col));
                    }
                    assert forall|row: int, col: int| b1.inside(row, col) implies #[trigger] self.counted_at(
                        row,
                        col,
                    ) by {
                        assert(old(self).shown_at(row, col));
                        assert(old(self).counted_at(row, col));
                        if self.tile(row, col) is Revealed {
                            lemma_emptied_count(b0, c0, b1, layout, revealed@, row, col);
                        }
                    }
                    assert forall|i: int| 0 <= i < revealed@.len() implies !is_mine(
                        self.tile((#[trigger] revealed@[i]).0 as int, revealed@[i].1 as int),
                    ) by {
                        b1.lemma_place(revealed@[i].0 as int, revealed@[i].1 as int);
                    }
                    assert forall|row: int, col: int| b0.inside(row, col) implies recontent(
                        old(self).tile(row, col),
                        is_mine(#[trigger] self.tile(row, col)),
                    ) == self.tile(row, col) by {
                        b1.lemma_place(row, col);
                        assert(old(self).shown_at(row, col));
                        if committed(commits@, row, col) {
                            let j = choose|j: int|
                                0 <= j < commits@.len() && (#[trigger] commits@[j]).0 == row
                                    && commits@[j].1 == col;
                            assert(!(b1.at(commits@[j].0 as int, commits@[j].1 as int) is Clue));
                        }
                    }
                    old(self).lemma_flooded_kept(*self);
                }
                true
            },
        }
    }

    /// The tiles around `(row, col)`, the last one first.
    fn neighbors_reversed(&self, row: u16, col: u16) -> (cells: Vec<(u16, u16)>)
        requires
            self.shaped(),
            self.solution().grid_ok(),
        ensures
            cells@.len() <= 8,
            forall|i: int|
                0 <= i < cells@.len() ==> self.solution().board().inside(
                    (#[trigger] cells@[i]).0 as int,
                    cells@[i].1 as int,
                ) && adjacent(row as int, col as int, cells@[i].0 as int, cells@[i].1 as int),
            forall|k: int|
                0 <= k < 8 && #[trigger] neighbor_inside(
                    self.solution().board().width,
                    self.solution().board().height,
                    row as int,
                    col as int,
                    k,
                ) ==> cells@.contains(((row + delta_row(k)) as u16, (col + delta_col(k)) as u16)),
    {
        let ghost b = self.sol.board();
        let ghost r0 = row as int;
        let ghost c0 = col as int;
        proof {
            self.lemma_tiles();
        }
        let mut forward: Vec<(u16, u16)> = Vec::new();
        let mut it = self.neighbors_of(row, col);
        loop
            invariant
                b.wf(),
                it.board_width() == b.width,
                it.board_height() == b.height,
                it.center_row() == r0,
                it.center_col() == c0,
                0 <= it.cursor() <= 8,
                forward@.len() <= it.cursor(),
                forall|i: int|
                    0 <= i < forward@.len() ==> b.inside(
                        (#[trigger] forward@[i]).0 as int,
                        forward@[i].1 as int,
                    ) && adjacent(r0, c0, forward@[i].0 as int, forward@[i].1 as int),
                forall|k: int|
                    0 <= k < it.cursor() && #[trigger] neighbor_inside(b.width, b.height, r0, c0, k)
                        ==> forward@.contains(((r0 + delta_row(k)) as u16, (c0 + delta_col(k)) as u16)),
            ensures
                forward@.len() <= 8,
                it.cursor() == 8,
            decreases 8 - it.cursor(),
        {
            let ghost before = forward@;
            match it.next() {
                None => {
                    break ;
                },
                Some(cell) => {
                    forward.push(cell);
                    proof {
                        assert forall|k: int|
                            0 <= k < it.cursor() && #[trigger] neighbor_inside(
                                b.width,
                                b.height,
                                r0,
                                c0,
                                k,
                            ) implies forward@.contains(
                            ((r0 + delta_row(k)) as u16, (c0 + delta_col(k)) as u16),
                        ) by {
                            let x = ((r0 + delta_row(k)) as u16, (c0 + delta_col(k)) as u16);
                            if k == it.cursor() - 1 {
                                assert(forward@[before.len() as int] == x);
                            } else {
                                let i = choose|i: int| 0 <= i < before.len() && before[i] == x;
                                assert(forward@[i] == x);
                            }
                        }
                    }
                },
            }
        }
        let ghost all = forward@;
        let mut cells: Vec<(u16, u16)> = Vec::new();
        while forward.len() > 0
            invariant
                cells@.len() + forward@.len() <= 8,
                forward@.len() <= all.len(),
                forall|i: int| 0 <= i < forward@.len() ==> forward@[i] == all[i],
                forall|i: int| forward@.len() <= i < all.len() ==> cells@.contains(#[trigger] all[i]),
                forall|i: int|
                    0 <= i < all.len() ==> b.inside((#[trigger] all[i]).0 as int, all[i].1 as int)
                        && adjacent(r0, c0, all[i].0 as int, all[i].1 as int),
                forall|i: int|
                    0 <= i < cells@.len() ==> b.inside(
                        (#[trigger] cells@[i]).0 as int,
                        cells@[i].1 as int,
                    ) && adjacent(r0, c0, cells@[i].0 as int, cells@[i].1 as int),
            decreases forward@.len(),
        {
            let ghost before = forward@;
            let ghost listed = cells@;
            let cell = forward.pop().unwrap();
            proof {
                assert(cell == before[before.len() - 1]);
                assert(cell == all[before.len() - 1]);
            }
            cells.push(cell);
            proof {
                assert forall|i: int| forward@.len() <= i < all.len() implies cells@.contains(
                    #[trigger] all[i],
                ) by {
                    if i == forward@.len() {
                        assert(cells@[listed.len() as int] == all[i]);
                    } else {
                        let j = choose|j: int| 0 <= j < listed.len() && listed[j] == all[i];
                        assert(cells@[j] == all[i]);
                    }
                }
            }
        }
        proof {
            assert forall|k: int|
                0 <= k < 8 && #[trigger] neighbor_inside(b.width, b.height, r0, c0, k) implies cells@.contains(
                ((r0 + delta_row(k)) as u16, (c0 + delta_col(k)) as u16),
            ) by {
                let x = ((r0 + delta_row(k)) as u16, (c0 + delta_col(k)) as u16);
                let i = choose|i: int| 0 <= i < all.len() && all[i] == x;
                assert(cells@.contains(all[i]));
            }
        }
        cells
    }

    /// Reveals the tile at `(row, col)` if it is hidden and hides no mine: the tile shows
    /// the number of mines around it, and the clue is taken in. Returns whether the tile
    /// was revealed and has no mine around it.
    fn reveal_one(&mut self, row: u16, col: u16) -> (open_ground: bool)
        requires
            old(self).playing(),
            old(self).solution().board().inside(row as int, col as int),
        ensures
            final(self).playing(),
            final(self).solution().board().width == old(self).solution().board().width,
            final(self).solution().board().height == old(self).solution().board().height,
            final(self).mines() == old(self).mines(),
            final(self).layout() == old(self).layout(),
            final(self).tiles().len() == old(self).tiles().len(),
            forall|r: int, c: int|
                old(self).solution().board().inside(r, c) ==> uncovered(
                    old(self).tile(r, c),
                    #[trigger] final(self).tile(r, c),
                ),
            final(self).revealed_after(*old(self), row as int, col as int),
            old(self).tile(row as int, col as int) matches Tile::Hidden(Content::Empty, _) ==> count_true(
                revealed_flags(final(self).tiles()),
            ) == count_true(revealed_flags(old(self).tiles())) + 1,
            !(old(self).tile(row as int, col as int) matches Tile::Hidden(Content::Empty, _))
                ==> !open_ground && final(self).tiles() == old(self).tiles(),
            count_true(revealed_flags(final(self).tiles())) <= final(self).tiles().len(),
            open_ground ==> final(self).tile(row as int, col as int) == Tile::Revealed(0),
            final(self).tile(row as int, col as int) == Tile::Revealed(0) ==> open_ground || old(
                self,
            ).tile(row as int, col as int) == Tile::Revealed(0),
            forall|r: int, c: int|
                old(self).solution().board().inside(r, c) && !(r == row && c == col)
                    ==> #[trigger] final(self).tile(r, c) == old(self).tile(r, c),
    {
        let ghost r0 = row as int;
        let ghost c0 = col as int;
        let ghost prev = *self;
        let ghost layout = self.layout();
        let ghost b0 = self.sol.board();
        let ghost tiles0 = self.tiles();
        let ghost p = flat(b0.width, r0, c0);
        proof {
            self.lemma_tiles();
            b0.lemma_place(r0, c0);
            lemma_count_bounds(revealed_flags(tiles0));
            assert(self.shown_at(r0, c0));
        }
        match *self.grid.get(row, col) {
            Tile::Hidden(Content::Empty, mark) => {
                let bomb_count = self.count_neighbor_bombs(row, col);
                proof {
                    if is_flagged(tiles0[p]) {
                        lemma_count_positive(flag_flags(tiles0), p);
                    }
                    lemma_count_diff(
                        revealed_flags(tiles0),
                        revealed_flags(tiles0.update(p, Tile::Revealed(bomb_count))),
                        p,
                    );
                    lemma_count_bounds(revealed_flags(tiles0.update(p, Tile::Revealed(bomb_count))));
                    assert(tiles0.len() <= 0xffff * 0xffff) by (nonlinear_arith)
                        requires
                            tiles0.len() == b0.width * b0.height,
                            0 <= b0.width <= 0xffff,
                            0 <= b0.height <= 0xffff,
                    ;
                }
                self.grid.set(row, col, Tile::Revealed(bomb_count));
                let ghost tiles1 = self.tiles();
                proof {
                    lemma_count_diff(flag_flags(tiles0), flag_flags(tiles1), p);
                    assert(mine_flags(tiles1) =~= mine_flags(tiles0));
                    assert(self.sol.fits(layout, r0, c0, bomb_count as int));
                }
                self.sol.add_clue((row, col), bomb_count);
                let ghost b1 = self.sol.board();
                proof {
                    self.sol.lemma_board();
                    assert forall|r: int, c: int| b1.inside(r, c) implies #[trigger] self.shown_at(
                        r,
                        c,
                    ) by {
                        b0.lemma_place(r, c);
                        assert(prev.shown_at(r, c));
                        if flat(b0.width, r, c) == p {
                            crate::grid::lemma_flat_injective(b0.width, r, c, r0, c0);
                        } else {
                            let s0 = b0.at(r, c);
                            let s1 = b1.at(r, c);
                        }
                    }
                    assert forall|r: int, c: int| b1.inside(r, c) implies #[trigger] self.counted_at(
                        r,
                        c,
                    ) by {
                        b0.lemma_place(r, c);
                        assert(prev.counted_at(r, c));
                        if flat(b0.width, r, c) == p {
                            crate::grid::lemma_flat_injective(b0.width, r, c, r0, c0);
                        }
                    }
                    assert forall|r: int, c: int| b0.inside(r, c) implies uncovered(
                        prev.tile(r, c),
                        #[trigger] self.tile(r, c),
                    ) && (!(r == row && c == col) ==> self.tile(r, c) == prev.tile(r, c)) by {
                        b0.lemma_place(r, c);
                        if flat(b0.width, r, c) == p {
                            crate::grid::lemma_flat_injective(b0.width, r, c, r0, c0);
                        }
                    }
                    lemma_count_bounds(revealed_flags(tiles1));
                }
                bomb_count == 0
            },
            _ => false,
        }
    }

    /// What one more revealed tile does to the tiles that wait to be revealed: the tile
    /// itself need not wait any more, and if it has no mine around it, the tiles around it
    /// wait now.
    proof fn lemma_flood_step(
        &self,
        prev: Minefield,
        waiting: Seq<(u16, u16)>,
        left: Seq<(u16, u16)>,
        after: Seq<(u16, u16)>,
        cell: (u16, u16),
        open_ground: bool,
    )
        requires
            prev.playing(),
            self.playing(),
            self.solution().board().width == prev.solution().board().width,
            self.solution().board().height == prev.solution().board().height,
            prev.solution().board().inside(cell.0 as int, cell.1 as int),
            forall|r: int, c: int|
                prev.solution().board().inside(r, c) ==> #[trigger] prev.flooding_at(waiting, r, c),
            forall|x: (u16, u16)| waiting.contains(x) ==> left.contains(x) || x == cell,
            forall|x: (u16, u16)| left.contains(x) ==> #[trigger] after.contains(x),
            forall|r: int, c: int|
                prev.solution().board().inside(r, c) ==> uncovered(
                    prev.tile(r, c),
                    #[trigger] self.tile(r, c),
                ),
            forall|r: int, c: int|
                prev.solution().board().inside(r, c) && !(r == cell.0 && c == cell.1)
                    ==> #[trigger] self.tile(r, c) == prev.tile(r, c),
            self.revealed_after(prev, cell.0 as int, cell.1 as int),
            open_ground ==> self.tile(cell.0 as int, cell.1 as int) == Tile::Revealed(0),
            self.tile(cell.0 as int, cell.1 as int) == Tile::Revealed(0) ==> open_ground || prev.tile(
                cell.0 as int,
                cell.1 as int,
            ) == Tile::Revealed(0),
            open_ground ==> forall|k: int|
                0 <= k < 8 && #[trigger] neighbor_inside(
                    self.solution().board().width,
                    self.solution().board().height,
                    cell.0 as int,
                    cell.1 as int,
                    k,
                ) ==> after.contains(
                    ((cell.0 + delta_row(k)) as u16, (cell.1 + delta_col(k)) as u16),
                ),
        ensures
            forall|r: int, c: int|
                self.solution().board().inside(r, c) ==> #[trigger] self.flooding_at(after, r, c),
    {
        let b = self.solution().board();
        self.lemma_tiles();
        prev.lemma_tiles();
        assert forall|r: int, c: int| b.inside(r, c) implies #[trigger] self.flooding_at(
            after,
            r,
            c,
        ) by {
            if self.tile(r, c) == Tile::Revealed(0) {
                assert forall|k: int| 0 <= k < 8 implies #[trigger] self.waiting_at(after, r, c, k) by {
                    if self.shut_at(r, c, k) {
                        let nr = r + delta_row(k);
                        let nc = c + delta_col(k);
                        let x = (nr as u16, nc as u16);
                        assert(b.inside(nr, nc));
                        if r == cell.0 && c == cell.1 && open_ground {
                            assert(neighbor_inside(b.width, b.height, cell.0 as int, cell.1 as int, k));
                        } else {
                            // The tile showed no mine around it before.
                            assert(prev.tile(r, c) == Tile::Revealed(0));
                            assert(prev.flooding_at(waiting, r, c));
                            assert(prev.waiting_at(waiting, r, c, k));
                            assert(uncovered(prev.tile(nr, nc), self.tile(nr, nc)));
                            assert(prev.shut_at(r, c, k));
                            assert(waiting.contains(x));
                            if x == cell {
                                assert(prev.counted_at(r, c));
                                prev.lemma_no_mine_near_ground(r, c, k);
                                assert(self.revealed_after(prev, nr, nc));
                            }
                        }
                    }
                }
            }
        }
    }

    /// Reveals the tile at `(row, col)` if it is hidden and hides no mine, and with it, if
    /// it has no mine around it, the tiles around it in the same way.
    fn recursive_reveal(&mut self, row: u16, col: u16)
        requires
            old(self).playing(),
            old(self).flooded(),
            old(self).solution().board().inside(row as int, col as int),
        ensures
            final(self).playing(),
            final(self).flooded(),
            final(self).solution().board().width == old(self).solution().board().width,
            final(self).solution().board().height == old(self).solution().board().height,
            final(self).mines() == old(self).mines(),
            final(self).layout() == old(self).layout(),
            forall|r: int, c: int|
                old(self).solution().board().inside(r, c) ==> uncovered(
                    old(self).tile(r, c),
                    #[trigger] final(self).tile(r, c),
                ),
            final(self).revealed_after(*old(self), row as int, col as int),
            forall|r: int, c: int|
                old(self).solution().board().inside(r, c) ==> #[trigger] final(self).reached_at(
                    *old(self),
                    seq![(row, col)],
                    r,
                    c,
                ),
    {
        let ghost b_init = self.sol.board();
        let ghost start = seq![(row, col)];
        let ghost none = Seq::<(u16, u16)>::empty();
        let open_ground = self.reveal_one(row, col);
        let mut stack: Vec<(u16, u16)> = Vec::new();
        if open_ground {
            stack = self.neighbors_reversed(row, col);
        }
        let ghost first = *self;
        proof {
            self.lemma_tiles();
            assert(start[0] == (row, col));
            assert forall|x: (u16, u16)| !none.contains(x) by {}
            self.lemma_flood_step(*old(self), none, none, stack@, (row, col), open_ground);
            assert forall|i: int| 0 <= i < stack@.len() implies self.on_open_ground(
                (#[trigger] stack@[i]).0 as int,
                stack@[i].1 as int,
            ) by {
                let cell = stack@[i];
                lemma_offsets(cell.0 as int, cell.1 as int, row as int, col as int);
                let k = crate::neighbor_iter::offset_between(
                    cell.0 as int,
                    cell.1 as int,
                    row as int,
                    col as int,
                );
                assert(self.ground_at(cell.0 as int, cell.1 as int, k));
            }
        }
        while stack.len() > 0
            invariant
                self.playing(),
                self.solution().board().width == b_init.width,
                self.solution().board().height == b_init.height,
                b_init == old(self).solution().board(),
                b_init.inside(row as int, col as int),
                self.mines() == old(self).mines(),
                self.layout() == old(self).layout(),
                start == seq![(row, col)],
                count_true(revealed_flags(self.tiles())) <= self.tiles().len(),
                forall|i: int|
                    0 <= i < stack@.len() ==> b_init.inside(
                        (#[trigger] stack@[i]).0 as int,
                        stack@[i].1 as int,
                    ) && self.on_open_ground(stack@[i].0 as int, stack@[i].1 as int),
                forall|r: int, c: int|
                    b_init.inside(r, c) ==> uncovered(old(self).tile(r, c), #[trigger] self.tile(r, c)),
                forall|r: int, c: int|
                    b_init.inside(r, c) ==> #[trigger] self.flooding_at(stack@, r, c),
                forall|r: int, c: int|
                    b_init.inside(r, c) ==> #[trigger] self.reached_at(*old(self), start, r, c),
                self.revealed_after(*old(self), row as int, col as int),
            decreases self.tiles().len() - count_true(revealed_flags(self.tiles())), stack@.len(),
        {
            let ghost before = stack@;
            let ghost prev = *self;
            let cell = stack.pop().unwrap();
            let ghost left = stack@;
            proof {
                assert(cell == before[before.len() - 1]);
                assert(prev.on_open_ground(cell.0 as int, cell.1 as int));
            }
            let open_ground = self.reveal_one(cell.0, cell.1);
            if open_ground {
                let around = self.neighbors_reversed(cell.0, cell.1);
                let mut i: usize = 0;
                while i < around.len()
                    invariant
                        i <= around@.len(),
                        left.len() <= stack@.len(),
                        stack@.len() == left.len() + i,
                        forall|j: int| 0 <= j < left.len() ==> stack@[j] == left[j],
                        forall|j: int| 0 <= j < i ==> stack@[left.len() + j] == around@[j],
                    decreases around@.len() - i,
                {
                    stack.push(around[i]);
                    i = i + 1;
                }
                proof {
                    assert forall|k: int|
                        0 <= k < 8 && #[trigger] neighbor_inside(
                            b_init.width,
                            b_init.height,
                            cell.0 as int,
                            cell.1 as int,
                            k,
                        ) implies stack@.contains(
                        ((cell.0 + delta_row(k)) as u16, (cell.1 + delta_col(k)) as u16),
                    ) by {
                        let x = ((cell.0 + delta_row(k)) as u16, (cell.1 + delta_col(k)) as u16);
                        let j = choose|j: int| 0 <= j < around@.len() && around@[j] == x;
                        assert(stack@[left.len() + j] == x);
                    }
                    assert forall|j: int| left.len() <= j < stack@.len() implies b_init.inside(
                        (#[trigger] stack@[j]).0 as int,
                        stack@[j].1 as int,
                    ) && self.on_open_ground(stack@[j].0 as int, stack@[j].1 as int) by {
                        let x = stack@[j];
                        assert(x == around@[j - left.len()]);
                        lemma_offsets(x.0 as int, x.1 as int, cell.0 as int, cell.1 as int);
                        let k = crate::neighbor_iter::offset_between(
                            x.0 as int,
                            x.1 as int,
                            cell.0 as int,
                            cell.1 as int,
                        );
                        assert(self.ground_at(x.0 as int, x.1 as int, k));
                    }
                }
            }
            proof {
                self.lemma_tiles();
                assert forall|x: (u16, u16)| before.contains(x) implies left.contains(x) || x
                    == cell by {
                    let j = choose|j: int| 0 <= j < before.len() && before[j] == x;
                    if j < left.len() {
                        assert(left[j] == x);
                    }
                }
                assert forall|x: (u16, u16)| left.contains(x) implies #[trigger] stack@.contains(
                    x,
                ) by {
                    let j = choose|j: int| 0 <= j < left.len() && left[j] == x;
                    assert(stack@[j] == x);
                }
                self.lemma_flood_step(prev, before, left, stack@, cell, open_ground);
                assert forall|r: int, c: int| b_init.inside(r, c) implies uncovered(
                    old(self).tile(r, c),
                    #[trigger] self.tile(r, c),
                ) by {
                    assert(uncovered(old(self).tile(r, c), prev.tile(r, c)));
                    assert(uncovered(prev.tile(r, c), self.tile(r, c)));
                }
                assert forall|r: int, c: int| b_init.inside(r, c) implies self.on_open_ground(r, c)
                    || !prev.on_open_ground(r, c) by {
                    prev.lemma_ground_kept(*self, r, c);
                }
                assert forall|j: int| 0 <= j < left.len() implies b_init.inside(
                    (#[trigger] stack@[j]).0 as int,
                    stack@[j].1 as int,
                ) && self.on_open_ground(stack@[j].0 as int, stack@[j].1 as int) by {
                    assert(stack@[j] == left[j]);
                    assert(left[j] == before[j]);
                    prev.lemma_ground_kept(*self, before[j].0 as int, before[j].1 as int);
                }
                assert forall|r: int, c: int| b_init.inside(r, c) implies #[trigger] self.reached_at(
                    *old(self),
                    start,
                    r,
                    c,
                ) by {
                    assert(prev.reached_at(*old(self), start, r, c));
                    prev.lemma_ground_kept(*self, r, c);
                    assert(uncovered(prev.tile(r, c), self.tile(r, c)));
                    if r == cell.0 && c == cell.1 {
                        prev.lemma_ground_kept(*self, cell.0 as int, cell.1 as int);
                    }
                }
                assert(uncovered(
                    prev.tile(row as int, col as int),
                    self.tile(row as int, col as int),
                ));
            }
        }
        proof {
            assert(stack@ =~= none);
        }
    }

    /// A tile that touches a revealed tile without mines around it still does so when
    /// more tiles are revealed.
    proof fn lemma_ground_kept(&self, after: Minefield, row: int, col: int)
        requires
            self.solution().board().width == after.solution().board().width,
            self.solution().board().height == after.solution().board().height,
            forall|r: int, c: int|
                self.solution().board().inside(r, c) ==> uncovered(
                    self.tile(r, c),
                    #[trigger] after.tile(r, c),
                ),
        ensures
            self.on_open_ground(row, col) ==> after.on_open_ground(row, col),
    {
        assert forall|k: int| 0 <= k < 8 && self.ground_at(row, col, k) implies #[trigger] after.ground_at(
            row,
            col,
            k,
        ) by {
            let nr = row + delta_row(k);
            let nc = col + delta_col(k);
            assert(self.solution().board().inside(nr, nc));
            assert(uncovered(self.tile(nr, nc), after.tile(nr, nc)));
        }
    }

    /// Whether one of the tiles that a reveal at `(row, col)` is about hides a mine.
    pub open spec fn endangered(&self, row: int, col: int) -> bool {
        exists|i: int|
            0 <= i < self.targets(row, col).len() && is_mine(
                self.tile(
                    (#[trigger] self.targets(row, col)[i]).0 as int,
                    self.targets(row, col)[i].1 as int,
                ),
            )
    }

    /// Reveals the tile at `(row, col)`, or, if it is revealed already and has as many
    /// flags around it as it shows mines, the tiles around it that carry no flag. If one
    /// of the tiles to reveal hides a mine, the mines are first laid anew so that none of
    /// them does, as long as the clues shown so far allow it. Returns whether the player
    /// survived: `false` says that a mine was hit and could not be moved away.
    pub fn reveal_at(&mut self, rng: &mut Xoshiro256StarStar, row: u16, col: u16) -> (survived: bool)
        requires
            old(self).wf(),
            old(self).solution().board().inside(row as int, col as int),
        ensures
            survived <==> !old(self).endangered(row as int, col as int) || old(
                self,
            ).solution().accommodable(old(self).targets(row as int, col as int)),
            survived ==> final(self).wf(),
            final(self).shaped(),
            final(self).solution().board().width == old(self).solution().board().width,
            final(self).solution().board().height == old(self).solution().board().height,
            final(self).mines() == old(self).mines(),
            survived ==> forall|i: int|
                0 <= i < old(self).targets(row as int, col as int).len() ==> final(self).tile(
                    (#[trigger] old(self).targets(row as int, col as int)[i]).0 as int,
                    old(self).targets(row as int, col as int)[i].1 as int,
                ) is Revealed,
            survived ==> forall|r: int, c: int|
                old(self).solution().board().inside(r, c) ==> #[trigger] final(self).reached_at(
                    *old(self),
                    old(self).targets(row as int, col as int),
                    r,
                    c,
                ),
            forall|r: int, c: int|
                old(self).solution().board().inside(r, c) ==> kept(
                    old(self).tile(r, c),
                    #[trigger] final(self).tile(r, c),
                ),
            !old(self).endangered(row as int, col as int) ==> forall|r: int, c: int|
                old(self).solution().board().inside(r, c) ==> uncovered(
                    old(self).tile(r, c),
                    #[trigger] final(self).tile(r, c),
                ),
    {
        let ghost b0 = self.sol.board();
        let ghost goal = self.targets(row as int, col as int);
        proof {
            self.lemma_tiles();
            self.lemma_reach_list(row as int, col as int, 8);
        }
        let cells = self.find_revealed_cells(row, col);
        if cells.len() == 0 {
            return true;
        }
        let chord = match *self.grid.get(row, col) {
            Tile::Revealed(_) => true,
            _ => false,
        };
        let mut revealed: Vec<(u16, u16)> = Vec::new();
        let mut had_mine = false;
        let mut i: usize = 0;
        while i < cells.len()
            invariant
                i <= cells@.len(),
                revealed@.len() == i,
                forall|k: int| 0 <= k < i ==> revealed@[k] == ((#[trigger] cells@[k]).0, cells@[k].1),
                had_mine <==> exists|k: int| 0 <= k < i && (#[trigger] cells@[k]).2,
            decreases cells@.len() - i,
        {
            let cell = cells[i];
            revealed.push((cell.0, cell.1));
            if cell.2 {
                had_mine = true;
            }
            i = i + 1;
        }
        proof {
            assert forall|k: int| 0 <= k < revealed@.len() implies revealed@[k] == goal[k] by {
                assert(revealed@[k] == (cells@[k].0, cells@[k].1));
            }
            assert(revealed@ =~= goal);
            assert forall|k: int| 0 <= k < goal.len() implies b0.inside(
                (#[trigger] goal[k]).0 as int,
                goal[k].1 as int,
            ) && self.tile(goal[k].0 as int, goal[k].1 as int) is Hidden && (chord ==> adjacent(
                row as int,
                col as int,
                goal[k].0 as int,
                goal[k].1 as int,
            )) by {}
            if had_mine {
                let k = choose|k: int| 0 <= k < cells@.len() && (#[trigger] cells@[k]).2;
                assert(goal[k] == (cells@[k].0, cells@[k].1));
            }
            if self.endangered(row as int, col as int) {
                let k = choose|k: int|
                    0 <= k < goal.len() && is_mine(
                        self.tile((#[trigger] goal[k]).0 as int, goal[k].1 as int),
                    );
                assert(cells@[k].2);
            }
        }
        let survived = !had_mine || self.try_reacomodate(rng, &revealed);
        proof {
            if !survived && chord {
                // The tiles around a clue are not free, so nothing was written.
                let b1 = self.sol.board();
                let t = choose|t: int|
                    0 <= t <= revealed@.len() && emptied(b0, b1, #[trigger] revealed@.take(t));
                assert(old(self).shown_at(row as int, col as int));
                assert(b0.structural_at(row as int, col as int));
                assert forall|k: int| 0 <= k < revealed@.take(t).len() implies !(b0.at(
                    (#[trigger] revealed@.take(t)[k]).0 as int,
                    revealed@.take(t)[k].1 as int,
                ) is UnknownUnconstrained) by {
                    let cell = goal[k];
                    lemma_offsets(row as int, col as int, cell.0 as int, cell.1 as int);
                    let off = crate::neighbor_iter::offset_between(
                        row as int,
                        col as int,
                        cell.0 as int,
                        cell.1 as int,
                    );
                    assert(!b0.hit(Seq::empty(), Around::Free, row as int, col as int, off));
                }
                lemma_emptied_none(b0, b1, revealed@.take(t));
                assert forall|r: int, c: int| b1.inside(r, c) implies #[trigger] self.shown_at(r, c) by {
                    assert(old(self).shown_at(r, c));
                }
                assert forall|r: int, c: int| b1.inside(r, c) implies #[trigger] self.counted_at(
                    r,
                    c,
                ) by {
                    assert(old(self).counted_at(r, c));
                }
            }
            assert forall|r: int, c: int| b0.inside(r, c) implies (#[trigger] self.tile(r, c)
                is Revealed <==> old(self).tile(r, c) is Revealed) && (self.tile(r, c)
                == Tile::Revealed(0) ==> old(self).tile(r, c) == Tile::Revealed(0)) by {
                let t0 = old(self).tile(r, c);
                assert(recontent(t0, is_mine(self.tile(r, c))) == self.tile(r, c));
            }
            old(self).lemma_flooded_kept(*self);
            assert forall|r: int, c: int| b0.inside(r, c) implies #[trigger] self.reached_at(
                *self,
                revealed@,
                r,
                c,
            ) by {}
        }
        let ghost start = *self;
        proof {
            assert forall|r: int, c: int| b0.inside(r, c) implies kept(
                old(self).tile(r, c),
                #[trigger] start.tile(r, c),
            ) by {
                let t0 = old(self).tile(r, c);
                assert(recontent(t0, is_mine(start.tile(r, c))) == start.tile(r, c));
            }
        }
        if survived || chord {
            // Whether or not the player survived, what can be revealed is revealed.
            let mut k: usize = 0;
            while k < revealed.len()
                invariant
                    k <= revealed@.len(),
                    self.playing(),
                    self.flooded(),
                    start.playing(),
                    forall|r: int, c: int|
                        b0.inside(r, c) ==> #[trigger] self.reached_at(start, revealed@, r, c),
                    self.solution().board().width == b0.width,
                    self.solution().board().height == b0.height,
                    start.solution().board().width == b0.width,
                    start.solution().board().height == b0.height,
                    self.mines() == old(self).mines(),
                    self.layout() == start.layout(),
                    forall|j: int|
                        0 <= j < revealed@.len() ==> b0.inside(
                            (#[trigger] revealed@[j]).0 as int,
                            revealed@[j].1 as int,
                        ),
                    forall|r: int, c: int|
                        b0.inside(r, c) ==> uncovered(start.tile(r, c), #[trigger] self.tile(r, c)),
                    forall|j: int|
                        0 <= j < k && !is_mine(
                            start.tile((#[trigger] revealed@[j]).0 as int, revealed@[j].1 as int),
                        ) ==> self.tile(revealed@[j].0 as int, revealed@[j].1 as int) is Revealed,
                decreases revealed@.len() - k,
            {
                let cell = revealed[k];
                let ghost prev = *self;
                self.recursive_reveal(cell.0, cell.1);
                proof {
                    assert forall|r: int, c: int| b0.inside(r, c) implies #[trigger] self.reached_at(
                        start,
                        revealed@,
                        r,
                        c,
                    ) by {
                        assert(prev.reached_at(start, revealed@, r, c));
                        assert(self.reached_at(prev, seq![cell], r, c));
                        assert(uncovered(prev.tile(r, c), self.tile(r, c)));
                        prev.lemma_ground_kept(*self, r, c);
                        if seq![cell].contains((r as u16, c as u16)) {
                            let j = choose|j: int|
                                0 <= j < seq![cell].len() && seq![cell][j] == (r as u16, c as u16);
                            assert(revealed@[k as int] == (r as u16, c as u16));
                        }
                    }
                    assert forall|r: int, c: int| b0.inside(r, c) implies uncovered(
                        start.tile(r, c),
                        #[trigger] self.tile(r, c),
                    ) by {
                        assert(uncovered(start.tile(r, c), prev.tile(r, c)));
                        assert(uncovered(prev.tile(r, c), self.tile(r, c)));
                    }
                    assert forall|j: int|
                        0 <= j < k + 1 && !is_mine(
                            start.tile((#[trigger] revealed@[j]).0 as int, revealed@[j].1 as int),
                        ) implies self.tile(revealed@[j].0 as int, revealed@[j].1 as int)
                        is Revealed by {
                        let r = revealed@[j].0 as int;
                        let c = revealed@[j].1 as int;
                        assert(uncovered(prev.tile(r, c), self.tile(r, c)));
                        assert(uncovered(start.tile(r, c), prev.tile(r, c)));
                        if j == k {
                            assert(self.revealed_after(prev, r, c));
                        }
                    }
                }
                k = k + 1;
            }
        }
        let ghost prev = *self;
        proof {
            assert forall|r: int, c: int| b0.inside(r, c) implies kept(
                old(self).tile(r, c),
                #[trigger] prev.tile(r, c),
            ) && (!had_mine ==> uncovered(old(self).tile(r, c), prev.tile(r, c))) by {
                assert(kept(old(self).tile(r, c), start.tile(r, c)));
                assert(uncovered(start.tile(r, c), prev.tile(r, c)));
            }
        }
        if survived {
            // The groups of open cells are looked for anew.
            self.sol.find_graph_solutions();
            proof {
                assert forall|r: int, c: int| b0.inside(r, c) implies (#[trigger] self.tile(r, c)
                    is Revealed <==> prev.tile(r, c) is Revealed) && (self.tile(r, c)
                    == Tile::Revealed(0) ==> prev.tile(r, c) == Tile::Revealed(0)) by {}
                prev.lemma_flooded_kept(*self);
                assert forall|r: int, c: int| b0.inside(r, c) implies #[trigger] self.reached_at(
                    *old(self),
                    goal,
                    r,
                    c,
                ) by {
                    assert(prev.reached_at(start, revealed@, r, c));
                    assert(start.tile(r, c) is Revealed <==> old(self).tile(r, c) is Revealed);
                    prev.lemma_ground_kept(*self, r, c);
                }
                assert forall|r: int, c: int| b0.inside(r, c) implies #[trigger] self.shown_at(r, c) by {
                    assert(prev.shown_at(r, c));
                }
                assert forall|r: int, c: int| b0.inside(r, c) implies #[trigger] self.counted_at(
                    r,
                    c,
                ) by {
                    assert(prev.counted_at(r, c));
                }
            }
        }
        survived
    }

    /// Whether the tile at `(row, col)` is revealed unless it hid a mine before.
    pub open spec fn revealed_after(&self, before: Minefield, row: int, col: int) -> bool {
        is_mine(before.tile(row, col)) || self.tile(row, col) is Revealed
    }
}

/// How a tile can change while tiles are revealed: a hidden tile may become revealed, and
/// nothing else changes.
pub open spec fn uncovered(before: Tile, after: Tile) -> bool {
    after == before || (before matches Tile::Hidden(Content::Empty, _) && after is Revealed)
}

/// How a tile can change in a reveal: a revealed tile stays as it is, and a hidden tile
/// is revealed or keeps its marking.
pub open spec fn kept(before: Tile, after: Tile) -> bool {
    match before {
        Tile::Revealed(_) => after == before,
        Tile::Hidden(_, mark) => match after {
            Tile::Revealed(_) => true,
            Tile::Hidden(_, m) => m == mark,
        },
    }
}

/// The tile with its content replaced, if it is hidden.
pub open spec fn recontent(tile: Tile, mine: bool) -> Tile {
    match tile {
        Tile::Hidden(_, mark) => Tile::Hidden(
            if mine {
                Content::Mine
            } else {
                Content::Empty
            },
            mark,
        ),
        Tile::Revealed(_) => tile,
    }
}

/// Whether the tile is hidden and unmarked.
pub open spec fn plain(tile: Tile) -> bool {
    tile == Tile::Hidden(Content::Mine, UserMarking::Unmarked) || tile == Tile::Hidden(
        Content::Empty,
        UserMarking::Unmarked,
    )
}

/// Among hidden and unmarked tiles, those that hide a mine are counted alike by their
/// places and by how often such a tile occurs.
pub proof fn lemma_plain_mines(tiles: Seq<Tile>)
    requires
        forall|k: int| 0 <= k < tiles.len() ==> plain(#[trigger] tiles[k]),
    ensures
        count_true(mine_flags(tiles)) == tiles.to_multiset().count(
            Tile::Hidden(Content::Mine, UserMarking::Unmarked),
        ),
    decreases tiles.len(),
{
    let mine = Tile::Hidden(Content::Mine, UserMarking::Unmarked);
    if tiles.len() == 0 {
        vstd::seq_lib::to_multiset_len(tiles);
        vstd::multiset::lemma_multiset_empty_len(tiles.to_multiset());
    } else {
        lemma_plain_mines(tiles.drop_last());
        vstd::seq_lib::to_multiset_build(tiles.drop_last(), tiles.last());
        assert(tiles.drop_last().push(tiles.last()) =~= tiles);
        assert(mine_flags(tiles).drop_last() =~= mine_flags(tiles.drop_last()));
        assert(plain(tiles[tiles.len() - 1]));
    }
}

} // verus!
