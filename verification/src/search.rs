//! Exhaustive search for the ways to fill a group of open cells so that every clue that
//! touches the group counts right.

use crate::bits::{
    bits, Bits, bits_clone, bits_get, bits_len, bits_new, bits_pop, bits_push, max_bits,
};
use crate::counting::{count_true, lemma_count_zero};
use std::collections::VecDeque;
use vstd::prelude::*;

verus! {

/// A revealed cell as the search sees it: how many mines it still counts, and which of the
/// open cells of the group it touches.
pub struct Clue {
    /// The number of mines that it still counts.
    pub mine_count: u8,
    /// The numbers of the open cells that it touches.
    pub adjacency: Vec<usize>,
}

/// A group of open cells, numbered from zero, with the clues that touch them.
pub struct Topology {
    /// The number of open cells.
    pub unknown_count: usize,
    /// The clues that touch them.
    pub clues: Vec<Clue>,
}

/// For each entry of the clue's adjacency, whether the partial assignment `prefix` has
/// decided the cell and put a mine there.
pub open spec fn decided_mines(adjacency: Seq<usize>, prefix: Seq<bool>) -> Seq<bool> {
    Seq::new(adjacency.len(), |j: int| adjacency[j] < prefix.len() && prefix[adjacency[j] as int])
}

/// For each entry of the clue's adjacency, whether `prefix` has yet to decide the cell.
pub open spec fn undecided(adjacency: Seq<usize>, prefix: Seq<bool>) -> Seq<bool> {
    Seq::new(adjacency.len(), |j: int| adjacency[j] >= prefix.len())
}

/// Whether the clue can still count right once `prefix` is completed: it has no more
/// mines than the clue counts, and enough undecided cells to reach the count.
pub open spec fn viable_clue(clue: Clue, prefix: Seq<bool>) -> bool {
    let mines = count_true(decided_mines(clue.adjacency@, prefix));
    let open = count_true(undecided(clue.adjacency@, prefix));
    mines <= clue.mine_count && clue.mine_count <= mines + open
}

/// The number of mines that a full assignment puts on the cells that the clue touches.
pub open spec fn mines_on(clue: Clue, assignment: Seq<bool>) -> nat {
    count_true(decided_mines(clue.adjacency@, assignment))
}

impl Topology {
    /// Every clue touches cells of the group only.
    pub open spec fn wf(&self) -> bool {
        forall|i: int, j: int|
            0 <= i < self.clues@.len() && 0 <= j < self.clues@[i].adjacency@.len()
                ==> #[trigger] self.clues@[i].adjacency@[j] < self.unknown_count
    }

    /// Whether every clue can still count right once `prefix` is completed.
    pub open spec fn viable(&self, prefix: Seq<bool>) -> bool {
        &&& prefix.len() <= self.unknown_count
        &&& forall|i: int| 0 <= i < self.clues@.len() ==> viable_clue(#[trigger] self.clues@[i], prefix)
    }

    /// Whether the assignment gives every cell of the group a content and every clue the
    /// number of mines that it counts.
    pub open spec fn satisfied_by(&self, assignment: Seq<bool>) -> bool {
        &&& assignment.len() == self.unknown_count
        &&& forall|i: int|
            0 <= i < self.clues@.len() ==> mines_on(#[trigger] self.clues@[i], assignment)
                == self.clues@[i].mine_count
    }

    /// A full assignment is viable just when it satisfies every clue.
    pub proof fn lemma_full(&self, assignment: Seq<bool>)
        requires
            self.wf(),
            assignment.len() == self.unknown_count,
        ensures
            self.viable(assignment) <==> self.satisfied_by(assignment),
    {
        assert forall|i: int| 0 <= i < self.clues@.len() implies (viable_clue(
            #[trigger] self.clues@[i],
            assignment,
        ) <==> mines_on(self.clues@[i], assignment) == self.clues@[i].mine_count) by {
            let adj = self.clues@[i].adjacency@;
            assert forall|j: int| 0 <= j < adj.len() implies !undecided(adj, assignment)[j] by {
                assert(self.clues@[i].adjacency@[j] < self.unknown_count);
            }
            lemma_count_zero(undecided(adj, assignment));
        }
    }

    /// What is viable stays viable when its last decision is taken back.
    pub proof fn lemma_shorter(&self, prefix: Seq<bool>)
        requires
            self.viable(prefix),
            prefix.len() > 0,
        ensures
            self.viable(prefix.drop_last()),
    {
        let shorter = prefix.drop_last();
        assert forall|i: int| 0 <= i < self.clues@.len() implies viable_clue(
            #[trigger] self.clues@[i],
            shorter,
        ) by {
            let clue = self.clues@[i];
            assert(viable_clue(clue, prefix));
            lemma_loosened(clue.adjacency@, prefix);
        }
    }
}

/// Taking back the last decision of a partial assignment leaves no more mines decided,
/// and no fewer cells that are mines or undecided.
pub proof fn lemma_loosened(adjacency: Seq<usize>, prefix: Seq<bool>)
    requires
        prefix.len() > 0,
    ensures
        count_true(decided_mines(adjacency, prefix.drop_last())) <= count_true(
            decided_mines(adjacency, prefix),
        ),
        count_true(decided_mines(adjacency, prefix)) + count_true(undecided(adjacency, prefix))
            <= count_true(decided_mines(adjacency, prefix.drop_last())) + count_true(
            undecided(adjacency, prefix.drop_last()),
        ),
    decreases adjacency.len(),
{
    let shorter = prefix.drop_last();
    if adjacency.len() > 0 {
        let rest = adjacency.drop_last();
        lemma_loosened(rest, prefix);
        assert(decided_mines(adjacency, prefix).drop_last() =~= decided_mines(rest, prefix));
        assert(decided_mines(adjacency, shorter).drop_last() =~= decided_mines(rest, shorter));
        assert(undecided(adjacency, prefix).drop_last() =~= undecided(rest, prefix));
        assert(undecided(adjacency, shorter).drop_last() =~= undecided(rest, shorter));
    }
}

/// A decision on a cell that the clue does not touch changes nothing for the clue.
pub proof fn lemma_untouched(adjacency: Seq<usize>, prefix: Seq<bool>, bit: bool)
    requires
        forall|j: int| 0 <= j < adjacency.len() ==> adjacency[j] != prefix.len(),
    ensures
        decided_mines(adjacency, prefix.push(bit)) == decided_mines(adjacency, prefix),
        undecided(adjacency, prefix.push(bit)) == undecided(adjacency, prefix),
{
    assert(decided_mines(adjacency, prefix.push(bit)) =~= decided_mines(adjacency, prefix));
    assert(undecided(adjacency, prefix.push(bit)) =~= undecided(adjacency, prefix));
}

/// The number of partial assignments that can grow out of one that has `depth` cells left
/// to decide, itself included.
pub open spec fn subtree(depth: nat) -> nat
    decreases depth,
{
    if depth == 0 {
        1
    } else {
        2 * subtree((depth - 1) as nat) + 1
    }
}

/// How much work the partial assignments of the queue can still cause.
pub open spec fn work(queue: Seq<Bits>, total: nat) -> nat
    decreases queue.len(),
{
    if queue.len() == 0 {
        0
    } else {
        work(queue.drop_last(), total) + subtree((total - bits(queue.last()).len()) as nat)
    }
}

/// Adding a partial assignment at the back adds its share of the work.
pub proof fn lemma_work_push(queue: Seq<Bits>, total: nat, item: Bits)
    ensures
        work(queue.push(item), total) == work(queue, total) + subtree(
            (total - bits(item).len()) as nat,
        ),
{
    assert(queue.push(item).drop_last() =~= queue);
}

/// Taking the partial assignment at the front off takes its share of the work off.
pub proof fn lemma_work_tail(queue: Seq<Bits>, total: nat)
    requires
        queue.len() > 0,
    ensures
        work(queue.subrange(1, queue.len() as int), total) == work(queue, total) - subtree(
            (total - bits(queue[0]).len()) as nat,
        ),
    decreases queue.len(),
{
    let rest = queue.subrange(1, queue.len() as int);
    if queue.len() == 1 {
        assert(queue.drop_last() =~= Seq::<Bits>::empty());
        assert(rest =~= Seq::<Bits>::empty());
        assert(work(queue.drop_last(), total) == 0);
        assert(queue.last() == queue[0]);
    } else {
        lemma_work_tail(queue.drop_last(), total);
        assert(rest.drop_last() =~= queue.drop_last().subrange(1, queue.len() - 1));
        assert(rest.last() == queue.last());
        assert(queue.drop_last()[0] == queue[0]);
    }
}

/// Whether the newest decision of `sol` leaves every clue listed in `to_clues` able to
/// count right.
fn is_last_possible(topology: &Topology, to_clues: &Vec<usize>, sol: &Bits) -> (possible: bool)
    requires
        forall|k: int| 0 <= k < to_clues@.len() ==> to_clues@[k] < topology.clues@.len(),
    ensures
        possible <==> forall|k: int|
            0 <= k < to_clues@.len() ==> viable_clue(
                topology.clues@[#[trigger] to_clues@[k] as int],
                bits(*sol),
            ),
{
    let mut k: usize = 0;
    while k < to_clues.len()
        invariant
            k <= to_clues@.len(),
            forall|k: int| 0 <= k < to_clues@.len() ==> to_clues@[k] < topology.clues@.len(),
            forall|i: int|
                0 <= i < k ==> viable_clue(topology.clues@[#[trigger] to_clues@[i] as int], bits(*sol)),
        decreases to_clues@.len() - k,
    {
        let clue = &topology.clues[to_clues[k]];
        let ghost adj = clue.adjacency@;
        let ghost prefix = bits(*sol);
        let mut mine_count: usize = 0;
        let mut unknown_count: usize = 0;
        let mut j: usize = 0;
        while j < clue.adjacency.len()
            invariant
                j <= adj.len(),
                adj == clue.adjacency@,
                prefix == bits(*sol),
                mine_count == count_true(decided_mines(adj.subrange(0, j as int), prefix)),
                unknown_count == count_true(undecided(adj.subrange(0, j as int), prefix)),
                mine_count + unknown_count <= j,
                mine_count <= clue.mine_count,
                k < to_clues@.len(),
                to_clues@[k as int] < topology.clues@.len(),
                *clue == topology.clues@[to_clues@[k as int] as int],
            decreases adj.len() - j,
        {
            let unk_idx = clue.adjacency[j];
            let ghost before = adj.subrange(0, j as int);
            let ghost after = adj.subrange(0, j + 1);
            proof {
                assert(after.drop_last() =~= before);
                assert(decided_mines(after, prefix).drop_last() =~= decided_mines(before, prefix));
                assert(undecided(after, prefix).drop_last() =~= undecided(before, prefix));
            }
            match bits_get(sol, unk_idx) {
                Some(is_mine) => {
                    if is_mine {
                        mine_count = mine_count + 1;
                        if mine_count > clue.mine_count as usize {
                            // More mines than the clue counts.
                            proof {
                                lemma_count_prefix(adj, prefix, j + 1);
                                assert(!viable_clue(*clue, prefix));
                            }
                            return false;
                        }
                    }
                },
                None => {
                    unknown_count = unknown_count + 1;
                },
            }
            j = j + 1;
        }
        proof {
            assert(adj.subrange(0, j as int) =~= adj);
        }
        if unknown_count + mine_count < clue.mine_count as usize {
            // Not enough cells left to reach the count.
            proof {
                assert(!viable_clue(topology.clues@[to_clues@[k as int] as int], bits(*sol)));
            }
            return false;
        }
        k = k + 1;
    }
    true
}

/// The mines decided among the first entries of an adjacency are among those decided in
/// all of it.
pub proof fn lemma_count_prefix(adjacency: Seq<usize>, prefix: Seq<bool>, n: int)
    requires
        0 <= n <= adjacency.len(),
    ensures
        count_true(decided_mines(adjacency.subrange(0, n), prefix)) <= count_true(
            decided_mines(adjacency, prefix),
        ),
    decreases adjacency.len() - n,
{
    if n < adjacency.len() {
        lemma_count_prefix(adjacency, prefix, n + 1);
        let shorter = adjacency.subrange(0, n);
        let longer = adjacency.subrange(0, n + 1);
        assert(longer.drop_last() =~= shorter);
        assert(decided_mines(longer, prefix).drop_last() =~= decided_mines(shorter, prefix));
    } else {
        assert(adjacency.subrange(0, n) =~= adjacency);
    }
}

/// Whether one of the first `ahead` entries of the queue holds the bits `a`.
pub open spec fn in_front(queue: Seq<Bits>, ahead: int, a: Seq<bool>) -> bool {
    exists|k: int| 0 <= k < ahead && k < queue.len() && bits(#[trigger] queue[k]) == a
}

/// Whether one of the entries of the queue behind the first `ahead` holds the bits `a`.
pub open spec fn in_back(queue: Seq<Bits>, ahead: int, a: Seq<bool>) -> bool {
    exists|k: int| ahead <= k < queue.len() && 0 <= k && bits(#[trigger] queue[k]) == a
}

/// Whether one of the entries of the queue holds the bits `a`.
pub open spec fn holds(queue: Seq<Bits>, a: Seq<bool>) -> bool {
    in_back(queue, 0, a)
}

/// Whether the list of clue numbers names the clue `i`.
pub open spec fn names(row: Seq<usize>, i: int) -> bool {
    exists|k: int| 0 <= k < row.len() && #[trigger] row[k] == i
}

/// For each cell, the clues that touch it are listed, and nothing else is.
pub open spec fn reverse_map(topology: &Topology, rev: Seq<Vec<usize>>, upto: int) -> bool {
    &&& rev.len() == topology.unknown_count
    &&& forall|m: int, k: int|
        0 <= m < rev.len() && 0 <= k < rev[m]@.len() ==> #[trigger] rev[m]@[k] < topology.clues@.len()
    &&& forall|i: int, j: int|
        0 <= i < upto && i < topology.clues@.len() && 0 <= j < topology.clues@[i].adjacency@.len()
            ==> names(rev[#[trigger] topology.clues@[i].adjacency@[j] as int]@, i)
}

impl Topology {
    /// The first decisions of what is viable are viable.
    pub proof fn lemma_prefix(&self, a: Seq<bool>, m: int)
        requires
            self.viable(a),
            0 <= m <= a.len(),
        ensures
            self.viable(a.take(m)),
        decreases a.len() - m,
    {
        if m < a.len() {
            self.lemma_prefix(a, m + 1);
            self.lemma_shorter(a.take(m + 1));
            assert(a.take(m + 1).drop_last() =~= a.take(m));
        } else {
            assert(a.take(m) =~= a);
        }
    }

    /// A viable partial assignment stays viable with one more decision just when the
    /// clues that touch the cell decided stay able to count right.
    pub proof fn lemma_grown(&self, rev: Seq<Vec<usize>>, prefix: Seq<bool>, bit: bool)
        requires
            self.wf(),
            reverse_map(self, rev, self.clues@.len() as int),
            self.viable(prefix),
            prefix.len() < self.unknown_count,
        ensures
            self.viable(prefix.push(bit)) <==> forall|k: int|
                0 <= k < rev[prefix.len() as int]@.len() ==> viable_clue(
                    self.clues@[#[trigger] rev[prefix.len() as int]@[k] as int],
                    prefix.push(bit),
                ),
    {
        let m = prefix.len() as int;
        let grown = prefix.push(bit);
        if forall|k: int|
            0 <= k < rev[m]@.len() ==> viable_clue(self.clues@[#[trigger] rev[m]@[k] as int], grown) {
            assert forall|i: int| 0 <= i < self.clues@.len() implies viable_clue(
                #[trigger] self.clues@[i],
                grown,
            ) by {
                let adj = self.clues@[i].adjacency@;
                if exists|j: int| 0 <= j < adj.len() && adj[j] == m {
                    let j = choose|j: int| 0 <= j < adj.len() && adj[j] == m;
                    assert(names(rev[self.clues@[i].adjacency@[j] as int]@, i));
                    let k = choose|k: int| 0 <= k < rev[m]@.len() && #[trigger] rev[m]@[k] == i;
                    assert(viable_clue(self.clues@[rev[m]@[k] as int], grown));
                } else {
                    lemma_untouched(adj, prefix, bit);
                    assert(viable_clue(self.clues@[i], prefix));
                }
            }
        }
        if self.viable(grown) {
            assert forall|k: int| 0 <= k < rev[m]@.len() implies viable_clue(
                self.clues@[#[trigger] rev[m]@[k] as int],
                grown,
            ) by {
                assert(rev[m]@[k] < self.clues@.len());
            }
        }
    }
}

/// The ways to fill the cells of the group so that every clue counts right: each of them,
/// once each. The search decides the cells in order and gives up a partial assignment as
/// soon as a clue can no longer count right.
pub fn find_solutions(topology: &Topology) -> (solutions: VecDeque<Bits>)
    requires
        topology.wf(),
        topology.unknown_count <= max_bits(),
    ensures
        forall|k: int|
            0 <= k < solutions@.len() ==> topology.satisfied_by(bits(#[trigger] solutions@[k])),
        forall|a: Seq<bool>| #[trigger] topology.satisfied_by(a) ==> holds(solutions@, a),
        forall|i: int, j: int|
            0 <= i < j < solutions@.len() ==> bits(#[trigger] solutions@[i]) != bits(
                #[trigger] solutions@[j],
            ),
{
    let n = topology.unknown_count;
    // For each cell, the clues that touch it.
    let mut unknowns_to_clues: Vec<Vec<usize>> = Vec::new();
    while unknowns_to_clues.len() < n
        invariant
            unknowns_to_clues@.len() <= n,
            forall|m: int| 0 <= m < unknowns_to_clues@.len() ==> unknowns_to_clues@[m]@.len() == 0,
        decreases n - unknowns_to_clues@.len(),
    {
        unknowns_to_clues.push(Vec::new());
    }
    let mut all_clues: Vec<usize> = Vec::new();
    let mut i: usize = 0;
    while i < topology.clues.len()
        invariant
            i <= topology.clues@.len(),
            n == topology.unknown_count,
            topology.wf(),
            reverse_map(topology, unknowns_to_clues@, i as int),
            all_clues@.len() == i,
            forall|k: int| 0 <= k < i ==> all_clues@[k] == k,
        decreases topology.clues@.len() - i,
    {
        let clue = &topology.clues[i];
        let mut j: usize = 0;
        while j < clue.adjacency.len()
            invariant
                j <= clue.adjacency@.len(),
                i < topology.clues@.len(),
                *clue == topology.clues@[i as int],
                n == topology.unknown_count,
                topology.wf(),
                reverse_map(topology, unknowns_to_clues@, i as int),
                forall|j2: int|
                    0 <= j2 < j ==> names(
                        unknowns_to_clues@[#[trigger] clue.adjacency@[j2] as int]@,
                        i as int,
                    ),
            decreases clue.adjacency@.len() - j,
        {
            let unknown = clue.adjacency[j];
            let ghost before = unknowns_to_clues@;
            assert(topology.clues@[i as int].adjacency@[j as int] < topology.unknown_count);
            let mut row: Vec<usize> = Vec::new();
            std::mem::swap(&mut row, &mut unknowns_to_clues[unknown]);
            row.push(i);
            unknowns_to_clues[unknown] = row;
            proof {
                let after = unknowns_to_clues@;
                assert(after[unknown as int]@ == before[unknown as int]@.push(i));
                assert forall|m: int, x: int|
                    0 <= m < before.len() && names(before[m]@, x) implies names(after[m]@, x) by {
                    let k = choose|k: int| 0 <= k < before[m]@.len() && #[trigger] before[m]@[k] == x;
                    assert(after[m]@[k] == x);
                }
                assert(after[unknown as int]@[before[unknown as int]@.len() as int] == i);
                assert forall|i2: int, j2: int|
                    0 <= i2 < i && 0 <= j2 < topology.clues@[i2].adjacency@.len() implies names(
                    after[#[trigger] topology.clues@[i2].adjacency@[j2] as int]@,
                    i2,
                ) by {
                    assert(names(before[topology.clues@[i2].adjacency@[j2] as int]@, i2));
                }
                assert forall|j2: int| 0 <= j2 < j + 1 implies names(
                    after[#[trigger] clue.adjacency@[j2] as int]@,
                    i as int,
                ) by {
                    if j2 < j {
                        assert(names(before[clue.adjacency@[j2] as int]@, i as int));
                    }
                }
            }
            j = j + 1;
        }
        all_clues.push(i);
        i = i + 1;
    }
    let ghost rev = unknowns_to_clues@;
    let mut solutions: VecDeque<Bits> = VecDeque::new();
    let start = bits_new();
    // Nothing is decided yet: see that every clue can count right at all.
    if !is_last_possible(topology, &all_clues, &start) {
        proof {
            assert(!topology.viable(bits(start))) by {
                if topology.viable(bits(start)) {
                    assert forall|k: int| 0 <= k < all_clues@.len() implies viable_clue(
                        topology.clues@[#[trigger] all_clues@[k] as int],
                        bits(start),
                    ) by {}
                }
            }
            assert forall|a: Seq<bool>| #[trigger] topology.satisfied_by(a) implies holds(
                solutions@,
                a,
            ) by {
                topology.lemma_full(a);
                topology.lemma_prefix(a, 0);
                assert(a.take(0) =~= bits(start));
            }
        }
        return solutions;
    }
    solutions.push_back(start);
    let ghost mut level: int = 0;
    let ghost mut ahead: int = 1;
    proof {
        assert forall|i: int| 0 <= i < topology.clues@.len() implies viable_clue(
            #[trigger] topology.clues@[i],
            bits(start),
        ) by {
            assert(all_clues@[i] == i);
        }
        assert forall|a: Seq<bool>| topology.viable(a) && a.len() == 1 implies in_front(
            solutions@,
            ahead,
            #[trigger] a.drop_last(),
        ) by {
            assert(a.drop_last() =~= bits(solutions@[0]));
        }
        if n == 0 {
            assert forall|a: Seq<bool>| topology.viable(a) && a.len() == n implies #[trigger] holds(
                solutions@,
                a,
            ) by {
                assert(a =~= bits(solutions@[0]));
            }
        }
    }
    loop
        invariant
            n == topology.unknown_count,
            n <= max_bits(),
            topology.wf(),
            rev == unknowns_to_clues@,
            reverse_map(topology, rev, topology.clues@.len() as int),
            0 <= level <= n,
            0 <= ahead <= solutions@.len(),
            forall|k: int| 0 <= k < ahead ==> bits(#[trigger] solutions@[k]).len() == level,
            forall|k: int|
                ahead <= k < solutions@.len() ==> bits(#[trigger] solutions@[k]).len() == level + 1,
            level == n ==> ahead == solutions@.len(),
            forall|k: int| 0 <= k < solutions@.len() ==> topology.viable(bits(#[trigger] solutions@[k])),
            forall|i: int, j: int|
                0 <= i < j < solutions@.len() ==> bits(#[trigger] solutions@[i]) != bits(
                    #[trigger] solutions@[j],
                ),
            forall|a: Seq<bool>|
                topology.viable(a) && a.len() == level + 1 ==> in_back(solutions@, ahead, a)
                    || in_front(solutions@, ahead, #[trigger] a.drop_last()),
            level == n ==> forall|a: Seq<bool>|
                topology.viable(a) && a.len() == n ==> #[trigger] holds(solutions@, a),
            forall|k: int|
                ahead <= k < solutions@.len() ==> !in_front(
                    solutions@,
                    ahead,
                    bits(#[trigger] solutions@[k]).drop_last(),
                ),
        ensures
            forall|k: int|
                0 <= k < solutions@.len() ==> topology.satisfied_by(bits(#[trigger] solutions@[k])),
            forall|a: Seq<bool>| #[trigger] topology.satisfied_by(a) ==> holds(solutions@, a),
            forall|i: int, j: int|
                0 <= i < j < solutions@.len() ==> bits(#[trigger] solutions@[i]) != bits(
                    #[trigger] solutions@[j],
                ),
        decreases work(solutions@, n as nat),
    {
        let ghost q0 = solutions@;
        proof {
            if ahead == 0 && q0.len() > 0 {
                // The partial assignments of one length are used up: go on to the next.
                assert forall|a: Seq<bool>| topology.viable(a) && a.len() == level + 1 implies in_back(
                    q0,
                    0,
                    a,
                ) by {
                    assert(!in_front(q0, 0, a.drop_last()));
                }
                assert forall|a: Seq<bool>| topology.viable(a) && a.len() == level + 2 implies in_front(
                    q0,
                    q0.len() as int,
                    #[trigger] a.drop_last(),
                ) by {
                    topology.lemma_shorter(a);
                    assert(in_back(q0, 0, a.drop_last()));
                }
                assert forall|k: int| q0.len() <= k < q0.len() implies !in_front(
                    q0,
                    q0.len() as int,
                    bits(#[trigger] q0[k]).drop_last(),
                ) by {}
                if level + 1 == n {
                    assert forall|a: Seq<bool>|
                        topology.viable(a) && a.len() == n implies #[trigger] holds(q0, a) by {
                        assert(in_back(q0, 0, a));
                    }
                }
                level = level + 1;
                ahead = q0.len() as int;
            }
        }
        match solutions.pop_front() {
            Some(mut sol) => {
                let ghost p = bits(sol);
                let ghost first = q0[0];
                let m = bits_len(&sol);
                if m >= n {
                    // Only finished assignments are left: they are the result.
                    solutions.push_front(sol);
                    proof {
                        assert(solutions@ =~= q0);
                        assert forall|k: int| 0 <= k < solutions@.len() implies topology.satisfied_by(
                            bits(#[trigger] solutions@[k]),
                        ) by {
                            topology.lemma_full(bits(solutions@[k]));
                        }
                        assert forall|a: Seq<bool>| #[trigger]
                            topology.satisfied_by(a) implies holds(solutions@, a) by {
                            topology.lemma_full(a);
                        }
                    }
                    break ;
                }
                let ghost rest = solutions@;
                proof {
                    lemma_work_tail(q0, n as nat);
                    assert(rest == q0.subrange(1, q0.len() as int));
                    assert(level < n);
                    assert(ahead >= 1);
                }
                let to_clues = &unknowns_to_clues[m];
                bits_push(&mut sol, false);
                let ghost with_false = bits(sol);
                let keep_false = is_last_possible(topology, to_clues, &sol);
                if keep_false {
                    solutions.push_back(bits_clone(&sol));
                }
                let ghost mid = solutions@;
                let _ = bits_pop(&mut sol);
                proof {
                    assert(with_false.drop_last() =~= p);
                }
                bits_push(&mut sol, true);
                let ghost with_true = bits(sol);
                let keep_true = is_last_possible(topology, to_clues, &sol);
                if keep_true {
                    solutions.push_back(sol);
                }
                proof {
                    let q1 = solutions@;
                    topology.lemma_grown(rev, p, false);
                    topology.lemma_grown(rev, p, true);
                    assert(with_false == p.push(false));
                    assert(with_true == p.push(true));
                    assert(with_false != with_true) by {
                        assert(with_false[m as int] != with_true[m as int]);
                    }
                    assert(with_false.drop_last() =~= p);
                    assert(with_true.drop_last() =~= p);
                    // What the queue holds now.
                    assert forall|k: int| 0 <= k < rest.len() implies q1[k] == rest[k] && rest[k]
                        == q0[k + 1] by {}
                    let added = q1.len() - rest.len();
                    assert forall|k: int| rest.len() <= k < q1.len() implies (bits(q1[k])
                        == with_false && keep_false) || (bits(q1[k]) == with_true && keep_true) by {}
                    assert forall|i: int, j: int| 0 <= i < j < q1.len() implies bits(
                        #[trigger] q1[i],
                    ) != bits(#[trigger] q1[j]) by {
                        if j < rest.len() {
                            assert(bits(q0[i + 1]) != bits(q0[j + 1]));
                        } else if i < rest.len() {
                            // An old entry against a new one: the lengths or the parents differ.
                            if i + 1 >= ahead {
                                // The old entry grew out of an entry taken off before.
                                assert(!in_front(q0, ahead, bits(q0[i + 1]).drop_last()));
                                assert(bits(q0[0]) == p);
                            }
                        }
                    }
                    if keep_false {
                        lemma_work_push(rest, n as nat, mid.last());
                    }
                    if keep_true {
                        lemma_work_push(mid, n as nat, q1.last());
                    }
                    assert(subtree((n - m) as nat) == 2 * subtree((n - m - 1) as nat) + 1);
                    ahead = ahead - 1;
                    assert forall|k: int| ahead <= k < q1.len() implies !in_front(
                        q1,
                        ahead,
                        bits(#[trigger] q1[k]).drop_last(),
                    ) by {
                        let parent = bits(q1[k]).drop_last();
                        if in_front(q1, ahead, parent) {
                            let f = choose|f: int|
                                0 <= f < ahead && f < q1.len() && bits(#[trigger] q1[f]) == parent;
                            assert(bits(q0[f + 1]) == parent);
                            if k < rest.len() {
                                assert(!in_front(q0, ahead + 1, bits(q0[k + 1]).drop_last()));
                            } else {
                                assert(bits(q0[0]) != bits(q0[f + 1]));
                            }
                        }
                    }
                    assert forall|a: Seq<bool>|
                        topology.viable(a) && a.len() == level + 1 implies in_back(q1, ahead, a)
                        || in_front(q1, ahead, #[trigger] a.drop_last()) by {
                        if in_back(q0, ahead + 1, a) {
                            let k = choose|k: int|
                                ahead + 1 <= k < q0.len() && 0 <= k && bits(#[trigger] q0[k]) == a;
                            assert(bits(q1[k - 1]) == a);
                        } else {
                            let k = choose|k: int|
                                0 <= k < ahead + 1 && k < q0.len() && bits(#[trigger] q0[k])
                                    == a.drop_last();
                            if k == 0 {
                                assert(a =~= p.push(a.last()));
                                if a.last() {
                                    assert(keep_true);
                                    assert(bits(q1[q1.len() - 1]) == a);
                                } else {
                                    assert(keep_false);
                                    assert(bits(mid[mid.len() - 1]) == a);
                                    assert(bits(q1[mid.len() - 1]) == a);
                                }
                            } else {
                                assert(bits(q1[k - 1]) == a.drop_last());
                            }
                        }
                    }
                }
            },
            None => {
                proof {
                    assert forall|a: Seq<bool>| #[trigger] topology.satisfied_by(a) implies holds(
                        solutions@,
                        a,
                    ) by {
                        topology.lemma_full(a);
                        if level < n {
                            topology.lemma_prefix(a, level + 1);
                            let short = a.take(level + 1);
                            assert(in_back(solutions@, ahead, short) || in_front(
                                solutions@,
                                ahead,
                                short.drop_last(),
                            ));
                        }
                    }
                }
                break ;
            },
        }
    }
    solutions
}

} // verus!
