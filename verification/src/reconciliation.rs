//! Choosing the mine layout anew before a reveal that would hit a mine.

use crate::accommodate::{
    chosen_layout, committed, emptied, fit_choice, free_mines, known_flags, lemma_chosen_admits,
    lemma_chosen_at, lemma_chosen_spares, lemma_emptied, lemma_emptied_same, lemma_emptied_step,
    lemma_narrowed_chain, lemma_narrowed_ok, lemma_pick_fits, lemma_picks_back, lemma_spares_take,
    lemma_told_open, lemma_total_mines, lemma_union_at, narrowed, no_spare, pick_counts, picked,
    picks_ok, renders, spares, told_at, union_layout,
};
use crate::bits::{Bits, bits, bits_get};
use crate::board::{Board, CellState};
use crate::components::{apart, fills, group_ok, groups_ok, tiles_ok};
use crate::counting::{
    count_true, lemma_count_diff, lemma_count_multiset, lemma_count_positive, lemma_count_take,
    lemma_count_zero,
};
use crate::grid::flat;
use crate::propagation::lemma_free_cells_shift;
use crate::random::{pick_one, shuffle};
use crate::reconcile::{
    among, buckets_ok, counts_tuple, feasible_total, has_key, lemma_total_le, listed, mine_counts,
    mines_then_empties, placed, retain_empty_at, sum_counts, surviving_combinations, total,
};
use crate::solver::PartialSolution;
use rand_xoshiro::Xoshiro256StarStar;
use std::collections::VecDeque;
use vstd::prelude::*;

verus! {

impl PartialSolution {
    /// Whether the groups stored belong to the board as it is: they split the open cells
    /// around the clues, and each alternative fills its group so that the clues count right.
    pub open spec fn groups_sound(&self) -> bool {
        groups_ok(self.board(), self.components())
    }

    /// Drops, in the group that holds the open cell `key`, the alternatives that put a
    /// mine there. Returns whether the group has an alternative left.
    fn narrow_group_for(&mut self, key: (u16, u16), Ghost(revealed): Ghost<Seq<(u16, u16)>>) -> (left: bool)
        requires
            old(self).grid_ok(),
            old(self).board().wf(),
            old(self).groups_sound(),
            old(self).board().inside(key.0 as int, key.1 as int),
        ensures
            final(self).grid == old(self).grid,
            narrowed(old(self).components(), final(self).components(), seq![key]),
            !left ==> exists|g: int|
                0 <= g < old(self).components().len() && final(self).components()[g].alternatives@.len()
                    == 0 && old(self).components()[g].tiles@.contains(key),
    {
        let ghost groups0 = self.components();
        let ghost b = self.board();
        proof {
            self.lemma_view();
        }
        let mut g: usize = 0;
        while g < self.graphs_solutions.len()
            invariant
                g <= groups0.len(),
                self.grid == old(self).grid,
                self.components() == groups0,
                groups0 == old(self).components(),
                groups_ok(b, groups0),
                b.inside(key.0 as int, key.1 as int),
                forall|g2: int| 0 <= g2 < g ==> !(#[trigger] groups0[g2]).tiles@.contains(key),
            decreases groups0.len() - g,
        {
            proof {
                self.lemma_view();
            }
            match Self::find_tile(&self.graphs_solutions[g].tiles, key) {
                Some(idx) => {
                    proof {
                        assert(group_ok(b, groups0[g as int].tiles@, groups0[g as int].alternatives@));
                        assert forall|k: int|
                            0 <= k < groups0[g as int].alternatives@.len() implies idx < bits(
                            #[trigger] groups0[g as int].alternatives@[k],
                        ).len() by {
                            assert(fills(
                                b,
                                groups0[g as int].tiles@,
                                bits(groups0[g as int].alternatives@[k]),
                            ));
                        }
                    }
                    let mut alternatives: VecDeque<Bits> = VecDeque::new();
                    std::mem::swap(&mut alternatives, &mut self.graphs_solutions[g].alternatives);
                    retain_empty_at(&mut alternatives, idx);
                    let left = alternatives.len() > 0;
                    self.graphs_solutions[g].alternatives = alternatives;
                    proof {
                        self.lemma_view();
                        let groups1 = self.components();
                        let tiles = groups0[g as int].tiles@;
                        assert forall|g2: int| 0 <= g2 < groups0.len() && g2 != g implies groups1[g2]
                            == groups0[g2] by {}
                        assert(groups1[g as int].tiles@ == tiles);
                        assert forall|g2: int, a: int|
                            0 <= g2 < groups1.len() && 0 <= a < groups1[g2].alternatives@.len() implies among(
                            groups0[g2].alternatives@,
                            #[trigger] groups1[g2].alternatives@[a],
                        ) && spares(groups1[g2].tiles@, bits(groups1[g2].alternatives@[a]), seq![key]) by {
                            let alt = groups1[g2].alternatives@[a];
                            if g2 != g {
                                assert(groups0[g2].alternatives@[a] == alt);
                                assert forall|j: int|
                                    0 <= j < groups0[g2].tiles@.len() implies #[trigger] groups0[g2].tiles@[j]
                                    != key by {
                                    assert(apart(groups0));
                                    assert(groups0[g2].tiles@[j] != groups0[g as int].tiles@[idx as int]);
                                }
                            } else {
                                assert forall|j: int| 0 <= j < tiles.len() && j != idx implies #[trigger] tiles[j]
                                    != key by {
                                    assert(tiles_ok(b, tiles));
                                    assert(tiles[j] != tiles[idx as int]);
                                }
                            }
                            assert forall|j: int|
                                0 <= j < groups1[g2].tiles@.len() && j < bits(alt).len() && seq![
                                    key,
                                ].contains(#[trigger] groups1[g2].tiles@[j]) implies !bits(alt)[j] by {
                                assert(seq![key][0] == key);
                                let i = choose|i: int|
                                    0 <= i < seq![key].len() && seq![key][i] == groups1[g2].tiles@[j];
                                assert(groups1[g2].tiles@[j] == key);
                            }
                        }
                        assert forall|g2: int, a: int|
                            0 <= g2 < groups0.len() && 0 <= a < groups0[g2].alternatives@.len()
                                && spares(
                                groups0[g2].tiles@,
                                bits(#[trigger] groups0[g2].alternatives@[a]),
                                seq![key],
                            ) implies among(groups1[g2].alternatives@, groups0[g2].alternatives@[a]) by {
                            let alt = groups0[g2].alternatives@[a];
                            if g2 != g {
                                assert(groups1[g2].alternatives@[a] == alt);
                            } else {
                                assert(fills(b, tiles, bits(alt)));
                                assert(seq![key][0] == key);
                                assert(seq![key].contains(tiles[idx as int]));
                                assert(!bits(alt)[idx as int]);
                            }
                        }
                        assert(groups1.len() == groups0.len());
                        assert forall|g2: int| 0 <= g2 < groups0.len() implies (#[trigger] groups1[g2]).tiles@
                            == groups0[g2].tiles@ by {}
                        assert(narrowed(groups0, groups1, seq![key]));
                        if !left {
                            assert(groups0[g as int].tiles@[idx as int] == key);
                            assert(groups0[g as int].tiles@.contains(key));
                            assert(groups1[g as int].alternatives@.len() == 0);
                        }
                    }
                    // A cell is a tile of one group at most.
                    return left;
                },
                None => {},
            }
            g = g + 1;
        }
        proof {
            self.lemma_view();
            let one = seq![key];
            assert forall|g2: int, a: int|
                0 <= g2 < groups0.len() && 0 <= a < groups0[g2].alternatives@.len() implies among(
                groups0[g2].alternatives@,
                #[trigger] groups0[g2].alternatives@[a],
            ) && spares(groups0[g2].tiles@, bits(groups0[g2].alternatives@[a]), one) by {
                assert forall|j: int|
                    0 <= j < groups0[g2].tiles@.len() && one.contains(
                        #[trigger] groups0[g2].tiles@[j],
                    ) implies false by {
                    let i = choose|i: int| 0 <= i < one.len() && one[i] == groups0[g2].tiles@[j];
                    assert(groups0[g2].tiles@[j] == key);
                    assert(groups0[g2].tiles@.contains(key));
                    assert(!groups0[g2].tiles@.contains(key));
                }
            }
        }
        true
    }

    /// Whether the cell to reveal numbered `t` rules out every layout: it is a known
    /// mine, or it is a tile of a group of which no alternative spares the cells to
    /// reveal up to it.
    pub open spec fn hopeless(&self, revealed: Seq<(u16, u16)>, t: int) -> bool {
        ||| self.board().at(revealed[t].0 as int, revealed[t].1 as int) is Mine
        ||| exists|g: int|
            0 <= g < self.components().len() && no_spare(
                #[trigger] self.components()[g],
                revealed.take(t + 1),
            )
    }

    /// Whether `cells` lists, each once, the cells to reveal that were free.
    pub open spec fn lists_free(&self, revealed: Seq<(u16, u16)>, cells: Seq<(u16, u16)>) -> bool {
        &&& cells.no_duplicates()
        &&& forall|k: int|
            0 <= k < cells.len() ==> revealed.contains(#[trigger] cells[k]) && self.board().inside(
                cells[k].0 as int,
                cells[k].1 as int,
            ) && self.board().at(cells[k].0 as int, cells[k].1 as int) is UnknownUnconstrained
        &&& forall|i: int|
            0 <= i < revealed.len() && self.board().at(
                (#[trigger] revealed[i]).0 as int,
                revealed[i].1 as int,
            ) is UnknownUnconstrained ==> cells.contains(revealed[i])
    }

    /// The first step of choosing a layout anew: each cell to reveal is taken for empty.
    /// In the group of an open cell, the alternatives that put a mine on it are dropped;
    /// a free cell is marked empty. Returns the free cells among those to reveal, or
    /// `None` as soon as a cell to reveal is a known mine or leaves its group without an
    /// alternative.
    pub(crate) fn rule_out(&mut self, revealed: &Vec<(u16, u16)>) -> (out: Option<Vec<(u16, u16)>>)
        requires
            old(self).wf(),
            old(self).groups_sound(),
            forall|i: int|
                0 <= i < revealed@.len() ==> old(self).board().inside(
                    (#[trigger] revealed@[i]).0 as int,
                    revealed@[i].1 as int,
                ) && !(old(self).board().at(revealed@[i].0 as int, revealed@[i].1 as int) is Clue),
        ensures
            final(self).wf(),
            final(self).groups_sound(),
            final(self).hidden_mines() == old(self).hidden_mines(),
            match out {
                Some(cells) => {
                    &&& emptied(old(self).board(), final(self).board(), revealed@)
                    &&& narrowed(old(self).components(), final(self).components(), revealed@)
                    &&& old(self).lists_free(revealed@, cells@)
                    &&& forall|i: int|
                        0 <= i < revealed@.len() ==> !(old(self).board().at(
                            (#[trigger] revealed@[i]).0 as int,
                            revealed@[i].1 as int,
                        ) is Mine)
                },
                None => exists|t: int|
                    0 <= t < revealed@.len() && emptied(
                        old(self).board(),
                        final(self).board(),
                        #[trigger] revealed@.take(t),
                    ) && old(self).hopeless(revealed@, t),
            },
    {
        let ghost b0 = self.board();
        let ghost groups0 = self.components();
        let mut unconstrained_revealed: Vec<(u16, u16)> = Vec::new();
        proof {
            self.lemma_view();
            self.lemma_board();
            assert(revealed@.take(0) =~= Seq::<(u16, u16)>::empty());
            assert forall|x: (u16, u16)| !Seq::<(u16, u16)>::empty().contains(x) by {}
        }
        let mut t: usize = 0;
        while t < revealed.len()
            invariant
                t <= revealed@.len(),
                b0 == old(self).board(),
                groups0 == old(self).components(),
                b0.wf(),
                b0.structural(),
                b0.stable(),
                b0.clued(),
                b0.width * b0.height <= crate::bits::max_bits(),
                groups_ok(b0, groups0),
                forall|i: int|
                    0 <= i < revealed@.len() ==> b0.inside(
                        (#[trigger] revealed@[i]).0 as int,
                        revealed@[i].1 as int,
                    ) && !(b0.at(revealed@[i].0 as int, revealed@[i].1 as int) is Clue),
                self.grid_ok(),
                self.hidden_mines() == old(self).hidden_mines(),
                self.free_pool() == self.board().free_cells(),
                emptied(b0, self.board(), revealed@.take(t as int)),
                narrowed(groups0, self.components(), revealed@.take(t as int)),
                old(self).lists_free(revealed@.take(t as int), unconstrained_revealed@),
                forall|i: int|
                    0 <= i < t ==> !(b0.at((#[trigger] revealed@[i]).0 as int, revealed@[i].1 as int)
                        is Mine),
            decreases revealed@.len() - t,
        {
            let key = revealed[t];
            let ghost prefix = revealed@.take(t as int);
            let ghost more = revealed@.take(t + 1);
            let ghost b1 = self.board();
            let ghost groups1 = self.components();
            let ghost listed = unconstrained_revealed@;
            proof {
                assert(more =~= prefix.push(key));
                self.lemma_view();
                lemma_emptied(b0, b1, prefix, groups0);
                lemma_narrowed_ok(b1, groups0, groups1, prefix);
                assert(b1.at(key.0 as int, key.1 as int) == if b0.at(key.0 as int, key.1 as int)
                    is UnknownUnconstrained && prefix.contains((key.0 as int as u16, key.1 as int as u16)) {
                    CellState::Empty
                } else {
                    b0.at(key.0 as int, key.1 as int)
                });
            }
            match *self.grid.get(key.0, key.1) {
                CellState::UnknownConstrained => {
                    let left = self.narrow_group_for(key, Ghost(prefix));
                    proof {
                        self.lemma_view();
                        lemma_narrowed_chain(groups0, groups1, self.components(), prefix, key);
                        lemma_emptied_step(b0, b1, b1, prefix, key);
                        lemma_narrowed_ok(b1, groups1, self.components(), seq![key]);
                    }
                    if !left {
                        proof {
                            let groups2 = self.components();
                            let g = choose|g: int|
                                0 <= g < groups1.len() && groups2[g].alternatives@.len() == 0
                                    && groups1[g].tiles@.contains(key);
                            assert forall|a: int|
                                0 <= a < groups0[g].alternatives@.len() implies !spares(
                                groups0[g].tiles@,
                                bits(#[trigger] groups0[g].alternatives@[a]),
                                more,
                            ) by {
                                if spares(groups0[g].tiles@, bits(groups0[g].alternatives@[a]), more) {
                                    assert(among(groups2[g].alternatives@, groups0[g].alternatives@[a]));
                                }
                            }
                            assert(no_spare(groups0[g], more));
                            assert(old(self).hopeless(revealed@, t as int));
                        }
                        return None;
                    }
                },
                CellState::UnknownUnconstrained => {
                    unconstrained_revealed.push(key);
                    proof {
                        b1.lemma_place(key.0 as int, key.1 as int);
                        lemma_count_positive(
                            b1.free_flags(),
                            flat(b1.width, key.0 as int, key.1 as int),
                        );
                        b1.lemma_put(key.0 as int, key.1 as int, CellState::Empty);
                    }
                    self.grid.set(key.0, key.1, CellState::Empty);
                    proof {
                        self.lemma_view();
                        let b2 = self.board();
                        assert(b2 == b1.put(key.0 as int, key.1 as int, CellState::Empty));
                        lemma_free_cells_shift(b1, b2, key.0 as int, key.1 as int);
                        lemma_emptied_step(b0, b1, b2, prefix, key);
                        crate::accommodate::lemma_narrowed_same(groups0, groups1, prefix, key);
                        assert(!listed.contains(key)) by {
                            if listed.contains(key) {
                                let k = choose|k: int| 0 <= k < listed.len() && listed[k] == key;
                                assert(prefix.contains(listed[k]));
                            }
                        }
                    }
                },
                CellState::Mine => {
                    proof {
                        assert(old(self).hopeless(revealed@, t as int));
                    }
                    return None;
                },
                _ => {
                    proof {
                        lemma_emptied_step(b0, b1, b1, prefix, key);
                        crate::accommodate::lemma_narrowed_same(groups0, groups1, prefix, key);
                    }
                },
            }
            proof {
                let cells = unconstrained_revealed@;
                assert forall|x: (u16, u16)| more.contains(x) <==> prefix.contains(x) || x == key by {
                    if more.contains(x) {
                        let i = choose|i: int| 0 <= i < more.len() && more[i] == x;
                        if i < prefix.len() {
                            assert(prefix[i] == x);
                        }
                    }
                    if prefix.contains(x) {
                        let i = choose|i: int| 0 <= i < prefix.len() && prefix[i] == x;
                        assert(more[i] == x);
                    }
                    if x == key {
                        assert(more[prefix.len() as int] == x);
                    }
                }
                assert forall|k: int| 0 <= k < cells.len() implies more.contains(#[trigger] cells[k])
                    && b0.inside(cells[k].0 as int, cells[k].1 as int) && b0.at(
                    cells[k].0 as int,
                    cells[k].1 as int,
                ) is UnknownUnconstrained by {
                    if k < listed.len() {
                        assert(cells[k] == listed[k]);
                    }
                }
                assert forall|i: int|
                    0 <= i < more.len() && b0.at((#[trigger] more[i]).0 as int, more[i].1 as int)
                        is UnknownUnconstrained implies cells.contains(more[i]) by {
                    if i < prefix.len() {
                        assert(more[i] == prefix[i]);
                        let k = choose|k: int| 0 <= k < listed.len() && listed[k] == prefix[i];
                        assert(cells[k] == more[i]);
                    } else {
                        if prefix.contains(key) {
                            let i2 = choose|i2: int| 0 <= i2 < prefix.len() && prefix[i2] == key;
                            let k = choose|k: int| 0 <= k < listed.len() && listed[k] == prefix[i2];
                            assert(cells[k] == more[i]);
                        } else {
                            assert(cells[listed.len() as int] == key);
                        }
                    }
                }
            }
            t = t + 1;
        }
        proof {
            assert(revealed@.take(t as int) =~= revealed@);
            self.lemma_view();
            lemma_emptied(b0, self.board(), revealed@, groups0);
            lemma_narrowed_ok(self.board(), groups0, self.components(), revealed@);
        }
        Some(unconstrained_revealed)
    }

    /// For each group, its alternatives sorted by the number of mines that they put on it.
    fn group_counts(&self) -> (buckets: Vec<Vec<(usize, Vec<usize>)>>)
        ensures
            buckets@.len() == self.components().len(),
            forall|g: int|
                0 <= g < buckets@.len() ==> buckets_ok(
                    self.components()[g].alternatives@,
                    (#[trigger] buckets@[g])@,
                ),
    {
        proof {
            self.lemma_view();
        }
        let mut buckets: Vec<Vec<(usize, Vec<usize>)>> = Vec::new();
        let mut g: usize = 0;
        while g < self.graphs_solutions.len()
            invariant
                g <= self.graphs_solutions@.len(),
                self.components() == self.graphs_solutions@,
                buckets@.len() == g,
                forall|g2: int|
                    0 <= g2 < g ==> buckets_ok(
                        self.components()[g2].alternatives@,
                        (#[trigger] buckets@[g2])@,
                    ),
            decreases self.graphs_solutions@.len() - g,
        {
            buckets.push(mine_counts(&self.graphs_solutions[g].alternatives));
            g = g + 1;
        }
        buckets
    }

    /// Rewrites the tiles of every group as the alternative picked for the group says.
    fn commit_groups(&self, picks: &Vec<usize>) -> (commits: Vec<(u16, u16, bool)>)
        requires
            self.grid_ok(),
            self.groups_sound(),
            picks_ok(self.components(), picks@),
        ensures
            forall|k: int|
                0 <= k < commits@.len() ==> self.board().inside(
                    (#[trigger] commits@[k]).0 as int,
                    commits@[k].1 as int,
                ) && self.board().at(commits@[k].0 as int, commits@[k].1 as int)
                    is UnknownConstrained && commits@[k].2 == self.board().mined(
                    union_layout(
                        self.board(),
                        self.components(),
                        picks@,
                        self.components().len() as int,
                    ),
                    commits@[k].0 as int,
                    commits@[k].1 as int,
                ),
            forall|g: int, j: int|
                0 <= g < self.components().len() && 0 <= j < self.components()[g].tiles@.len()
                    ==> committed(
                    commits@,
                    (#[trigger] self.components()[g].tiles@[j]).0 as int,
                    self.components()[g].tiles@[j].1 as int,
                ),
    {
        let ghost b = self.board();
        let ghost groups = self.components();
        let ghost n = groups.len() as int;
        let ghost union = union_layout(b, groups, picks@, n);
        proof {
            self.lemma_view();
            self.lemma_board();
        }
        let mut commits: Vec<(u16, u16, bool)> = Vec::new();
        let mut g: usize = 0;
        while g < self.graphs_solutions.len()
            invariant
                g <= groups.len(),
                b == self.board(),
                b.wf(),
                groups == self.components(),
                groups == self.graphs_solutions@,
                n == groups.len(),
                union == union_layout(b, groups, picks@, n),
                groups_ok(b, groups),
                picks_ok(groups, picks@),
                forall|k: int|
                    0 <= k < commits@.len() ==> b.inside(
                        (#[trigger] commits@[k]).0 as int,
                        commits@[k].1 as int,
                    ) && b.at(commits@[k].0 as int, commits@[k].1 as int) is UnknownConstrained
                        && commits@[k].2 == b.mined(union, commits@[k].0 as int, commits@[k].1 as int),
                forall|g2: int, j: int|
                    0 <= g2 < g && 0 <= j < groups[g2].tiles@.len() ==> committed(
                        commits@,
                        (#[trigger] groups[g2].tiles@[j]).0 as int,
                        groups[g2].tiles@[j].1 as int,
                    ),
            decreases groups.len() - g,
        {
            let graph = &self.graphs_solutions[g];
            let pick = picks[g];
            proof {
                assert(picks@[g as int] < groups[g as int].alternatives@.len());
                vstd::std_specs::vecdeque::axiom_spec_len(&graph.alternatives);
                assert(*graph == groups[g as int]);
                assert(pick < graph.alternatives@.len());
            }
            let sol = &graph.alternatives[pick];
            let ghost tiles = graph.tiles@;
            proof {
                assert(group_ok(b, groups[g as int].tiles@, groups[g as int].alternatives@));
                assert(fills(b, tiles, bits(*sol)));
            }
            let mut j: usize = 0;
            while j < graph.tiles.len()
                invariant
                    g < groups.len(),
                    j <= tiles.len(),
                    b.wf(),
                    n == groups.len(),
                    union == union_layout(b, groups, picks@, n),
                    groups_ok(b, groups),
                    picks_ok(groups, picks@),
                    *graph == groups[g as int],
                    tiles == graph.tiles@,
                    tiles_ok(b, tiles),
                    bits(*sol) == picked(groups, picks@, g as int),
                    bits(*sol).len() == tiles.len(),
                    forall|j2: int|
                        0 <= j2 < tiles.len() ==> b.at(
                            (#[trigger] tiles[j2]).0 as int,
                            tiles[j2].1 as int,
                        ) is UnknownConstrained,
                    forall|k: int|
                        0 <= k < commits@.len() ==> b.inside(
                            (#[trigger] commits@[k]).0 as int,
                            commits@[k].1 as int,
                        ) && b.at(commits@[k].0 as int, commits@[k].1 as int)
                            is UnknownConstrained && commits@[k].2 == b.mined(
                            union,
                            commits@[k].0 as int,
                            commits@[k].1 as int,
                        ),
                    forall|g2: int, j2: int|
                        0 <= g2 < g && 0 <= j2 < groups[g2].tiles@.len() ==> committed(
                            commits@,
                            (#[trigger] groups[g2].tiles@[j2]).0 as int,
                            groups[g2].tiles@[j2].1 as int,
                        ),
                    forall|j2: int|
                        0 <= j2 < j ==> committed(
                            commits@,
                            (#[trigger] tiles[j2]).0 as int,
                            tiles[j2].1 as int,
                        ),
                decreases tiles.len() - j,
            {
                let tile = graph.tiles[j];
                let is_mine = match bits_get(sol, j) {
                    Some(bit) => bit,
                    None => false,
                };
                let ghost before = commits@;
                commits.push((tile.0, tile.1, is_mine));
                proof {
                    lemma_union_at(b, groups, picks@, n, tile.0 as int, tile.1 as int);
                    assert(groups[g as int].tiles@[j as int] == (
                        tile.0 as int as u16,
                        tile.1 as int as u16,
                    ));
                    assert forall|r: int, c: int| committed(before, r, c) implies committed(
                        commits@,
                        r,
                        c,
                    ) by {
                        let k = choose|k: int|
                            0 <= k < before.len() && (#[trigger] before[k]).0 == r && before[k].1
                                == c;
                        assert(commits@[k].0 == r && commits@[k].1 == c);
                    }
                    assert(commits@[before.len() as int].0 == tile.0);
                    assert(committed(commits@, tile.0 as int, tile.1 as int));
                }
                j = j + 1;
            }
            g = g + 1;
        }
        commits
    }

    /// Spreads what `spread` holds over the free cells, row by row, from its last entry
    /// back, and adds each free cell with its entry to the cells to rewrite.
    fn commit_free(&self, spread: Vec<bool>, commits: &mut Vec<(u16, u16, bool)>) -> (placed: Ghost<
        Seq<bool>,
    >)
        requires
            self.grid_ok(),
            spread@.len() == self.board().free_cells(),
        ensures
            placed@.len() == self.board().cells.len(),
            count_true(free_mines(self.board(), placed@)) == count_true(spread@),
            old(commits)@.len() <= final(commits)@.len(),
            forall|k: int| 0 <= k < old(commits)@.len() ==> final(commits)@[k] == old(commits)@[k],
            forall|k: int|
                old(commits)@.len() <= k < final(commits)@.len() ==> self.board().inside(
                    (#[trigger] final(commits)@[k]).0 as int,
                    final(commits)@[k].1 as int,
                ) && self.board().at(final(commits)@[k].0 as int, final(commits)@[k].1 as int)
                    is UnknownUnconstrained && final(commits)@[k].2 == placed@[flat(
                    self.board().width,
                    final(commits)@[k].0 as int,
                    final(commits)@[k].1 as int,
                )],
            forall|row: int, col: int|
                self.board().inside(row, col) && #[trigger] self.board().at(row, col)
                    is UnknownUnconstrained ==> committed(final(commits)@, row, col),
    {
        let ghost b = self.board();
        let ghost flags = b.free_flags();
        let ghost spread0 = spread@;
        let ghost commits0 = commits@;
        let mut spread = spread;
        let ghost mut placed: Seq<bool> = Seq::new(b.cells.len(), |i: int| false);
        let h = self.grid.height();
        let w = self.grid.width();
        proof {
            self.lemma_view();
            self.lemma_board();
            lemma_count_zero(free_mines(b, placed));
            crate::grid::lemma_flat_step(b.width, 0, 0);
            assert(flags.take(0) =~= Seq::<bool>::empty());
        }
        let mut i: u16 = 0;
        while i < h
            invariant
                self.grid_ok(),
                b == self.board(),
                b.wf(),
                h == b.height,
                w == b.width,
                i <= h,
                flags == b.free_flags(),
                placed.len() == b.cells.len(),
                forall|x: int| flat(b.width, i as int, 0) <= x < placed.len() ==> !placed[x],
                0 <= flat(b.width, i as int, 0) <= b.cells.len(),
                spread@.len() + count_true(flags.take(flat(b.width, i as int, 0))) == count_true(
                    flags,
                ),
                count_true(free_mines(b, placed)) + count_true(spread@) == count_true(spread0),
                commits0.len() <= commits@.len(),
                forall|k: int| 0 <= k < commits0.len() ==> commits@[k] == commits0[k],
                forall|k: int|
                    commits0.len() <= k < commits@.len() ==> b.inside(
                        (#[trigger] commits@[k]).0 as int,
                        commits@[k].1 as int,
                    ) && b.at(commits@[k].0 as int, commits@[k].1 as int) is UnknownUnconstrained
                        && commits@[k].2 == placed[flat(
                        b.width,
                        commits@[k].0 as int,
                        commits@[k].1 as int,
                    )],
                forall|row: int, col: int|
                    b.inside(row, col) && row < i && #[trigger] b.at(row, col)
                        is UnknownUnconstrained ==> committed(commits@, row, col),
                forall|k: int|
                    commits0.len() <= k < commits@.len() ==> flat(
                        b.width,
                        (#[trigger] commits@[k]).0 as int,
                        commits@[k].1 as int,
                    ) < flat(b.width, i as int, 0),
            decreases h - i,
        {
            let mut j: u16 = 0;
            proof {
                crate::grid::lemma_flat_step(b.width, i as int, 0);
            }
            while j < w
                invariant
                    self.grid_ok(),
                    b == self.board(),
                    b.wf(),
                    h == b.height,
                    w == b.width,
                    i < h,
                    j <= w,
                    flags == b.free_flags(),
                    placed.len() == b.cells.len(),
                    forall|x: int|
                        flat(b.width, i as int, j as int) <= x < placed.len() ==> !placed[x],
                    flat(b.width, i as int, j as int) == flat(b.width, i as int, 0) + j,
                    0 <= flat(b.width, i as int, j as int) <= b.cells.len(),
                    spread@.len() + count_true(flags.take(flat(b.width, i as int, j as int)))
                        == count_true(flags),
                    count_true(free_mines(b, placed)) + count_true(spread@) == count_true(spread0),
                    commits0.len() <= commits@.len(),
                    forall|k: int| 0 <= k < commits0.len() ==> commits@[k] == commits0[k],
                    forall|k: int|
                        commits0.len() <= k < commits@.len() ==> b.inside(
                            (#[trigger] commits@[k]).0 as int,
                            commits@[k].1 as int,
                        ) && b.at(commits@[k].0 as int, commits@[k].1 as int)
                            is UnknownUnconstrained && commits@[k].2 == placed[flat(
                            b.width,
                            commits@[k].0 as int,
                            commits@[k].1 as int,
                        )],
                    forall|row: int, col: int|
                        b.inside(row, col) && (row < i || (row == i && col < j)) && #[trigger] b.at(
                            row,
                            col,
                        ) is UnknownUnconstrained ==> committed(commits@, row, col),
                    forall|k: int|
                        commits0.len() <= k < commits@.len() ==> flat(
                            b.width,
                            (#[trigger] commits@[k]).0 as int,
                            commits@[k].1 as int,
                        ) < flat(b.width, i as int, j as int),
                decreases w - j,
            {
                let ghost p = flat(b.width, i as int, j as int);
                let ghost before = commits@;
                let ghost placed0 = placed;
                proof {
                    self.lemma_view();
                    b.lemma_place(i as int, j as int);
                    crate::grid::lemma_flat_step(b.width, i as int, j as int);
                    crate::grid::lemma_flat_step(b.width, i as int, j + 1);
                    lemma_count_take(flags, p);
                    lemma_count_take(flags, p + 1);
                    assert(flags[p] == (b.at(i as int, j as int) is UnknownUnconstrained));
                }
                match *self.grid.get(i, j) {
                    CellState::UnknownUnconstrained => {
                        let is_mine = spread.pop().unwrap();
                        commits.push((i, j, is_mine));
                        proof {
                            placed = placed0.update(p, is_mine);
                            assert forall|x: int| 0 <= x < placed0.len() && x != p implies free_mines(
                                b,
                                placed0,
                            )[x] == free_mines(b, placed)[x] by {}
                            assert(!placed0[p]);
                            lemma_count_diff(free_mines(b, placed0), free_mines(b, placed), p);
                            assert forall|k: int| commits0.len() <= k < commits@.len() implies b.inside(
                                (#[trigger] commits@[k]).0 as int,
                                commits@[k].1 as int,
                            ) && b.at(commits@[k].0 as int, commits@[k].1 as int)
                                is UnknownUnconstrained && commits@[k].2 == placed[flat(
                                b.width,
                                commits@[k].0 as int,
                                commits@[k].1 as int,
                            )] by {
                                if k < before.len() {
                                    assert(commits@[k] == before[k]);
                                    let x = flat(b.width, before[k].0 as int, before[k].1 as int);
                                    b.lemma_place(before[k].0 as int, before[k].1 as int);
                                    assert(x < p);
                                    assert(placed[x] == placed0[x]);
                                } else {
                                    assert(commits@[k] == (i, j, is_mine));
                                    assert(placed[p] == is_mine);
                                }
                            }
                            assert forall|r: int, c: int| committed(before, r, c) implies committed(
                                commits@,
                                r,
                                c,
                            ) by {
                                let k = choose|k: int|
                                    0 <= k < before.len() && (#[trigger] before[k]).0 == r
                                        && before[k].1 == c;
                                assert(commits@[k].0 == r && commits@[k].1 == c);
                            }
                            assert(commits@[before.len() as int].0 == i);
                            assert(committed(commits@, i as int, j as int));
                        }
                    },
                    _ => {},
                }
                j = j + 1;
            }
            proof {
                crate::grid::lemma_flat_step(b.width, i as int, w as int);
                crate::grid::lemma_flat_step(b.width, i + 1, 0);
                crate::grid::lemma_flat_step(b.width, i as int, 0);
                assert(flat(b.width, i + 1, 0) == flat(b.width, i as int, w as int));
            }
            i = i + 1;
        }
        proof {
            crate::grid::lemma_flat_step(b.width, h as int, 0);
            assert(flat(b.width, h as int, 0) == flags.len());
            assert(flags.take(flags.len() as int) =~= flags);
            assert(spread@.len() == 0);
        }
        Ghost(placed)
    }

    /// Picks, for each group, one of the alternatives that put as many mines on the group
    /// as the combination says.
    fn choose_picks(
        &self,
        rng: &mut Xoshiro256StarStar,
        buckets: &Vec<Vec<(usize, Vec<usize>)>>,
        combination: &Vec<usize>,
    ) -> (picks: Vec<usize>)
        requires
            buckets@.len() == self.components().len(),
            forall|g: int|
                0 <= g < buckets@.len() ==> buckets_ok(
                    self.components()[g].alternatives@,
                    (#[trigger] buckets@[g])@,
                ),
            counts_tuple(buckets@, combination@),
        ensures
            picks_ok(self.components(), picks@),
            forall|g: int|
                0 <= g < picks@.len() ==> count_true(picked(self.components(), picks@, g))
                    == #[trigger] combination@[g],
    {
        let ghost groups = self.components();
        let mut picks: Vec<usize> = Vec::new();
        let mut g: usize = 0;
        while g < buckets.len()
            invariant
                g <= buckets@.len(),
                groups == self.components(),
                buckets@.len() == groups.len(),
                picks@.len() == g,
                forall|g2: int|
                    0 <= g2 < buckets@.len() ==> buckets_ok(
                        groups[g2].alternatives@,
                        (#[trigger] buckets@[g2])@,
                    ),
                counts_tuple(buckets@, combination@),
                forall|g2: int|
                    0 <= g2 < g ==> #[trigger] picks@[g2] < groups[g2].alternatives@.len()
                        && count_true(bits(groups[g2].alternatives@[picks@[g2] as int]))
                        == combination@[g2],
            decreases buckets@.len() - g,
        {
            let mine_count = combination[g];
            let ghost alts = groups[g as int].alternatives@;
            proof {
                assert(has_key(buckets@[g as int]@, combination@[g as int]));
                assert(buckets_ok(alts, buckets@[g as int]@));
            }
            let mut e: usize = 0;
            let mut pick: usize = 0;
            let mut found = false;
            while e < buckets[g].len() && !found
                invariant
                    g < buckets@.len(),
                    e <= buckets@[g as int]@.len(),
                    buckets_ok(alts, buckets@[g as int]@),
                    !found ==> forall|e2: int|
                        0 <= e2 < e ==> (#[trigger] buckets@[g as int]@[e2]).0 != mine_count,
                    found ==> pick < alts.len() && count_true(bits(alts[pick as int])) == mine_count,
                decreases buckets@[g as int]@.len() - e + (if found { 0int } else { 1int }),
            {
                if buckets[g][e].0 == mine_count {
                    let ghost members = buckets@[g as int]@[e as int].1@;
                    match pick_one(rng, buckets[g][e].1.as_slice()) {
                        Some(idx) => {
                            pick = *idx;
                            proof {
                                let k = choose|k: int| 0 <= k < members.len() && members[k] == pick;
                                assert(buckets@[g as int]@[e as int].1@[k] < alts.len());
                            }
                        },
                        None => {
                            proof {
                                assert(members.len() > 0);
                            }
                        },
                    }
                    found = true;
                }
                e = e + 1;
            }
            proof {
                let e2 = choose|e2: int|
                    0 <= e2 < buckets@[g as int]@.len() && (#[trigger] buckets@[g as int]@[e2]).0
                        == combination@[g as int];
                assert(buckets@[g as int]@[e2].0 == mine_count);
                assert(found);
            }
            picks.push(pick);
            g = g + 1;
        }
        picks
    }

    /// Whether some layout leaves all the cells to reveal empty: none of them is a known
    /// mine, and there is a way to pick one alternative for each group that puts no mine
    /// on any of them and leaves a number of mines that the free cells can take.
    pub open spec fn accommodable(&self, revealed: Seq<(u16, u16)>) -> bool {
        &&& forall|i: int|
            0 <= i < revealed.len() ==> !(self.board().at(
                (#[trigger] revealed[i]).0 as int,
                revealed[i].1 as int,
            ) is Mine)
        &&& exists|b1: Board, picks: Seq<usize>| #[trigger]
            fit_choice(
                self.board(),
                b1,
                self.components(),
                self.hidden_mines(),
                picks,
                revealed,
            )
    }

    /// Looks for a mine layout that agrees with all that is known and leaves the cells to
    /// reveal empty, and draws one at random if there is any.
    ///
    /// Each cell to reveal is taken for empty: alternatives that put a mine on it are
    /// dropped, and a free cell is marked empty. Then one count of mines is drawn for each
    /// group, among the combinations of counts that leave no more mines than the free
    /// cells can take, and for each group one alternative with that count. The mines left
    /// over are spread at random over the free cells. The result lists every cell whose
    /// content has to be written anew, with whether it holds a mine; `None` says that no
    /// such layout was found.
    pub fn find_acomodating_solution(
        &mut self,
        rng: &mut Xoshiro256StarStar,
        revealed: &Vec<(u16, u16)>,
    ) -> (commits: Option<Vec<(u16, u16, bool)>>)
        requires
            old(self).wf(),
            old(self).groups_sound(),
            forall|i: int|
                0 <= i < revealed@.len() ==> old(self).board().inside(
                    (#[trigger] revealed@[i]).0 as int,
                    revealed@[i].1 as int,
                ) && !(old(self).board().at(revealed@[i].0 as int, revealed@[i].1 as int) is Clue),
        ensures
            final(self).wf(),
            final(self).groups_sound(),
            final(self).hidden_mines() == old(self).hidden_mines(),
            commits is Some <==> old(self).accommodable(revealed@),
            commits is Some ==> final(self).accommodable(Seq::empty()),
            match commits {
                Some(list) => {
                    &&& emptied(old(self).board(), final(self).board(), revealed@)
                    &&& narrowed(old(self).components(), final(self).components(), revealed@)
                    &&& exists|layout: Seq<bool>| #[trigger]
                        final(self).admits(layout) && renders(
                            old(self).board(),
                            final(self).board(),
                            list@,
                            layout,
                        ) && forall|i: int|
                            0 <= i < revealed@.len() ==> !final(self).board().mined(
                                layout,
                                (#[trigger] revealed@[i]).0 as int,
                                revealed@[i].1 as int,
                            )
                },
                None => exists|t: int|
                    0 <= t <= revealed@.len() && emptied(
                        old(self).board(),
                        final(self).board(),
                        #[trigger] revealed@.take(t),
                    ),
            },
    {
        let ghost b0 = self.board();
        let ghost groups0 = self.components();
        proof {
            self.lemma_board();
        }
        let free_targets = match self.rule_out(revealed) {
            Some(cells) => cells,
            None => {
                proof {
                    let t = choose|t: int|
                        0 <= t < revealed@.len() && emptied(
                            b0,
                            self.board(),
                            #[trigger] revealed@.take(t),
                        ) && old(self).hopeless(revealed@, t);
                    if old(self).accommodable(revealed@) {
                        let (b1, picks) = choose|b1: Board, picks: Seq<usize>| #[trigger]
                            fit_choice(b0, b1, groups0, old(self).hidden_mines(), picks, revealed@);
                        assert(!(b0.at(revealed@[t].0 as int, revealed@[t].1 as int) is Mine));
                        let g = choose|g: int|
                            0 <= g < groups0.len() && no_spare(
                                #[trigger] groups0[g],
                                revealed@.take(t + 1),
                            );
                        lemma_spares_take(
                            groups0[g].tiles@,
                            picked(groups0, picks, g),
                            revealed@,
                            t + 1,
                        );
                        assert(picks[g] < groups0[g].alternatives@.len());
                        assert(!spares(
                            groups0[g].tiles@,
                            bits(groups0[g].alternatives@[picks[g] as int]),
                            revealed@.take(t + 1),
                        ));
                    }
                }
                return None;
            },
        };
        let ghost b1 = self.board();
        let ghost groups1 = self.components();
        let buckets = self.group_counts();
        proof {
            self.lemma_view();
            self.lemma_board();
        }
        let hidden = self.grid.counters().hidden_mines;
        let free = self.grid.counters().unconstrained_cells;
        let combos = surviving_combinations(&buckets, hidden, free);
        let combination = match pick_one(rng, combos.as_slice()) {
            Some(c) => c,
            None => {
                proof {
                    assert(revealed@.take(revealed@.len() as int) =~= revealed@);
                    if old(self).accommodable(revealed@) {
                        let (b2, picks0) = choose|b2: Board, picks0: Seq<usize>| #[trigger]
                            fit_choice(b0, b2, groups0, old(self).hidden_mines(), picks0, revealed@);
                        lemma_emptied_same(b0, b1, b2, revealed@);
                        // The alternatives picked are still there, so their counts are a
                        // combination that survives.
                        let t = pick_counts(groups0, picks0);
                        assert forall|g: int| 0 <= g < t.len() implies has_key(
                            buckets@[g]@,
                            #[trigger] t[g],
                        ) by {
                            let alt = groups0[g].alternatives@[picks0[g] as int];
                            assert(picks0[g] < groups0[g].alternatives@.len());
                            assert(spares(groups0[g].tiles@, picked(groups0, picks0, g), revealed@));
                            assert(among(groups1[g].alternatives@, alt));
                            let a = choose|a: int|
                                0 <= a < groups1[g].alternatives@.len()
                                    && #[trigger] groups1[g].alternatives@[a] == alt;
                            assert(buckets_ok(groups1[g].alternatives@, buckets@[g]@));
                            assert(placed(buckets@[g]@, a));
                            let (e, k) = choose|e: int, k: int|
                                0 <= e < buckets@[g]@.len() && 0 <= k < buckets@[g]@[e].1@.len()
                                    && #[trigger] buckets@[g]@[e].1@[k] == a;
                            crate::accommodate::lemma_pick_fits(b0, groups0, picks0, g);
                            assert(buckets@[g]@[e].0 == t[g]);
                        }
                        assert(counts_tuple(buckets@, t));
                        assert(listed(combos@, t));
                    }
                }
                return None;
            },
        };
        let picks = self.choose_picks(rng, &buckets, combination);
        let mut commits = self.commit_groups(&picks);
        let ghost group_commits = commits@;
        // The free cells that are revealed hold no mine.
        let mut t: usize = 0;
        while t < free_targets.len()
            invariant
                t <= free_targets@.len(),
                group_commits.len() <= commits@.len(),
                commits@.len() == group_commits.len() + t,
                forall|k: int| 0 <= k < group_commits.len() ==> commits@[k] == group_commits[k],
                forall|k: int|
                    group_commits.len() <= k < commits@.len() ==> (#[trigger] commits@[k]) == (
                        free_targets@[k - group_commits.len()].0,
                        free_targets@[k - group_commits.len()].1,
                        false,
                    ),
            decreases free_targets@.len() - t,
        {
            let cell = free_targets[t];
            commits.push((cell.0, cell.1, false));
            t = t + 1;
        }
        let ghost fixed_commits = commits@;
        // The mines that are left over go to the free cells, in random order.
        proof {
            assert(feasible_total(total(combination@), hidden, free));
        }
        let chosen = sum_counts(combination, hidden);
        let remaining = hidden - chosen;
        let mut shuffled_mines = mines_then_empties(remaining, free);
        proof {
            lemma_count_multiset(shuffled_mines@);
        }
        let ghost ordered = shuffled_mines@;
        shuffle(rng, &mut shuffled_mines);
        proof {
            lemma_count_multiset(shuffled_mines@);
            vstd::seq_lib::to_multiset_len(ordered);
            vstd::seq_lib::to_multiset_len(shuffled_mines@);
        }
        let Ghost(spread) = self.commit_free(shuffled_mines, &mut commits);
        proof {
            let layout = chosen_layout(b1, groups1, picks@, spread);
            let n = groups1.len() as int;
            lemma_chosen_admits(b1, groups1, picks@, spread);
            assert(pick_counts(groups1, picks@) =~= combination@) by {
                assert forall|g: int| 0 <= g < n implies pick_counts(groups1, picks@)[g]
                    == combination@[g] by {
                    crate::accommodate::lemma_pick_fits(b1, groups1, picks@, g);
                }
            }
            assert(self.admits(layout));
            // Each cell in the list holds what the layout says.
            assert forall|k: int| 0 <= k < commits@.len() implies b1.inside(
                (#[trigger] commits@[k]).0 as int,
                commits@[k].1 as int,
            ) && !(b1.at(commits@[k].0 as int, commits@[k].1 as int) is Clue) && commits@[k].2
                == b1.mined(layout, commits@[k].0 as int, commits@[k].1 as int) by {
                if k < group_commits.len() {
                    assert(commits@[k] == fixed_commits[k]);
                    assert(fixed_commits[k] == group_commits[k]);
                    lemma_chosen_at(
                        b1,
                        groups1,
                        picks@,
                        spread,
                        group_commits[k].0 as int,
                        group_commits[k].1 as int,
                    );
                } else if k < fixed_commits.len() {
                    assert(commits@[k] == fixed_commits[k]);
                    let cell = free_targets@[k - group_commits.len()];
                    assert(revealed@.contains(cell));
                    assert(b1.at(cell.0 as int, cell.1 as int) == CellState::Empty);
                    lemma_chosen_at(b1, groups1, picks@, spread, cell.0 as int, cell.1 as int);
                } else {
                    lemma_chosen_at(
                        b1,
                        groups1,
                        picks@,
                        spread,
                        commits@[k].0 as int,
                        commits@[k].1 as int,
                    );
                }
            }
            // Each cell of which the board does not say what it holds is in the list.
            assert forall|g: int, j: int|
                0 <= g < groups1.len() && 0 <= j < groups1[g].tiles@.len() implies committed(
                commits@,
                (#[trigger] groups1[g].tiles@[j]).0 as int,
                groups1[g].tiles@[j].1 as int,
            ) by {
                let cell = groups1[g].tiles@[j];
                assert(committed(group_commits, cell.0 as int, cell.1 as int));
                let k = choose|k: int|
                    0 <= k < group_commits.len() && (#[trigger] group_commits[k]).0 == cell.0
                        && group_commits[k].1 == cell.1;
                assert(commits@[k] == fixed_commits[k]);
                assert(commits@[k].0 == cell.0 && commits@[k].1 == cell.1);
            }
            assert forall|row: int, col: int| b1.inside(row, col) implies #[trigger] told_at(
                b0,
                b1,
                commits@,
                row,
                col,
            ) by {
                if b1.at(row, col) is UnknownConstrained {
                    lemma_told_open(b1, groups1, commits@, row, col);
                } else if b1.at(row, col) != b0.at(row, col) {
                    let cell = (row as u16, col as u16);
                    assert(revealed@.contains(cell));
                    let i = choose|i: int| 0 <= i < revealed@.len() && revealed@[i] == cell;
                    assert(free_targets@.contains(revealed@[i]));
                    let f = choose|f: int| 0 <= f < free_targets@.len() && free_targets@[f] == cell;
                    let k = group_commits.len() + f;
                    assert(commits@[k] == fixed_commits[k]);
                    assert(commits@[k].0 == row && commits@[k].1 == col);
                }
            }
            assert(renders(b0, b1, commits@, layout));
            assert forall|i: int| 0 <= i < revealed@.len() implies !b1.mined(
                layout,
                (#[trigger] revealed@[i]).0 as int,
                revealed@[i].1 as int,
            ) by {
                lemma_chosen_spares(b0, b1, groups1, picks@, spread, revealed@, i);
            }
            // The choice made shows that the cells to reveal could be spared.
            let old_picks = lemma_picks_back(groups0, groups1, picks@, revealed@);
            assert forall|g: int| 0 <= g < groups0.len() implies spares(
                (#[trigger] groups0[g]).tiles@,
                picked(groups0, old_picks, g),
                revealed@,
            ) by {
                assert(picked(groups0, old_picks, g) == picked(groups1, picks@, g));
            }
            assert(fit_choice(b0, b1, groups0, old(self).hidden_mines(), old_picks, revealed@));
            // The same choice fits the budget of mines as it now stands.
            let none = Seq::<(u16, u16)>::empty();
            assert(emptied(b1, b1, none));
            assert(fit_choice(b1, b1, groups1, self.hidden_mines(), picks@, none));
        }
        Some(commits)
    }

    /// Whenever cells can be spared, as they can after every layout that was found, the
    /// mines are within their number: the known mines and, for each group, the least
    /// number of mines that any of its alternatives puts on it are together no more than
    /// the mines of a layout that agrees with the board, and the known mines and the mines
    /// counted as hidden are together exactly as many.
    pub proof fn lemma_mine_budget(
        &self,
        revealed: Seq<(u16, u16)>,
        layout: Seq<bool>,
        lower: Seq<usize>,
    )
        requires
            self.wf(),
            self.groups_sound(),
            self.accommodable(revealed),
            self.admits(layout),
            lower.len() == self.components().len(),
            forall|g: int, a: int|
                0 <= g < self.components().len() && 0 <= a < self.components()[g].alternatives@.len()
                    ==> lower[g] <= count_true(bits(#[trigger] self.components()[g].alternatives@[a])),
        ensures
            count_true(known_flags(self.board())) + total(lower) <= count_true(layout),
            count_true(known_flags(self.board())) + self.hidden_mines() == count_true(layout),
    {
        let b = self.board();
        let groups = self.components();
        self.lemma_board();
        lemma_total_mines(b, layout);
        let (b1, picks) = choose|b1: Board, picks: Seq<usize>| #[trigger]
            fit_choice(b, b1, groups, self.hidden_mines(), picks, revealed);
        assert forall|g: int| 0 <= g < lower.len() implies lower[g] <= pick_counts(groups, picks)[g] by {
            lemma_pick_fits(b, groups, picks, g);
            assert(picks[g] < groups[g].alternatives@.len());
        }
        lemma_total_le(lower, pick_counts(groups, picks));
    }
}

} // verus!
