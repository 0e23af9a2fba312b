//! Choosing a mine layout anew: the parts of the choice that need no board.

use crate::bits::{Bits, bits, bits_count_ones, bits_get};
use crate::counting::count_true;
use std::collections::VecDeque;
use vstd::prelude::*;

verus! {

/// Whether one of the entries of the queue is the bit string `alt` itself.
pub open spec fn among(alts: Seq<Bits>, alt: Bits) -> bool {
    exists|k: int| 0 <= k < alts.len() && #[trigger] alts[k] == alt
}

/// Drops the alternatives that put a mine on the tile numbered `idx`; the others stay, in
/// their order.
pub fn retain_empty_at(alternatives: &mut VecDeque<Bits>, idx: usize)
    requires
        forall|k: int|
            0 <= k < old(alternatives)@.len() ==> idx < bits(#[trigger] old(alternatives)@[k]).len(),
    ensures
        forall|k: int|
            0 <= k < final(alternatives)@.len() ==> !bits(#[trigger] final(alternatives)@[k])[idx as int]
                && among(old(alternatives)@, final(alternatives)@[k]),
        forall|k: int|
            0 <= k < old(alternatives)@.len() && !bits(#[trigger] old(alternatives)@[k])[idx as int]
                ==> among(final(alternatives)@, old(alternatives)@[k]),
        final(alternatives)@.len() <= old(alternatives)@.len(),
{
    let mut kept: VecDeque<Bits> = VecDeque::new();
    let ghost all = alternatives@;
    let ghost mut done: int = 0;
    while alternatives.len() > 0
        invariant
            0 <= done <= all.len(),
            alternatives@ == all.subrange(done, all.len() as int),
            forall|k: int| 0 <= k < all.len() ==> idx < bits(#[trigger] all[k]).len(),
            forall|k: int|
                0 <= k < kept@.len() ==> !bits(#[trigger] kept@[k])[idx as int] && among(all, kept@[k]),
            forall|k: int|
                0 <= k < done && !bits(#[trigger] all[k])[idx as int] ==> among(kept@, all[k]),
            kept@.len() <= done,
        decreases alternatives@.len(),
    {
        let alt = alternatives.pop_front().unwrap();
        let ghost before = kept@;
        proof {
            assert(alt == all[done]);
            assert(alternatives@ =~= all.subrange(done + 1, all.len() as int));
        }
        let mine = match bits_get(&alt, idx) {
            Some(bit) => bit,
            None => false,
        };
        if !mine {
            kept.push_back(alt);
        }
        proof {
            assert forall|k: int| 0 <= k < done + 1 && !bits(#[trigger] all[k])[idx as int] implies among(
                kept@,
                all[k],
            ) by {
                if k < done {
                    let k2 = choose|k2: int| 0 <= k2 < before.len() && #[trigger] before[k2] == all[k];
                    assert(kept@[k2] == all[k]);
                } else {
                    assert(kept@[before.len() as int] == all[k]);
                }
            }
            done = done + 1;
        }
    }
    *alternatives = kept;
}

/// Whether the alternative numbered `a` is listed under some count.
pub open spec fn placed(buckets: Seq<(usize, Vec<usize>)>, a: int) -> bool {
    exists|e: int, k: int|
        0 <= e < buckets.len() && 0 <= k < buckets[e].1@.len() && #[trigger] buckets[e].1@[k] == a
}

/// The alternatives of a group, sorted by how many mines each of them puts on the group:
/// a list of the counts that occur, each with the numbers of the alternatives that have it.
pub open spec fn buckets_ok(alts: Seq<Bits>, buckets: Seq<(usize, Vec<usize>)>) -> bool {
    &&& forall|e: int, k: int|
        0 <= e < buckets.len() && 0 <= k < buckets[e].1@.len() ==> #[trigger] buckets[e].1@[k]
            < alts.len() && count_true(bits(alts[buckets[e].1@[k] as int])) == buckets[e].0
    &&& forall|e: int| 0 <= e < buckets.len() ==> (#[trigger] buckets[e]).1@.len() > 0
    &&& forall|a: int| 0 <= a < alts.len() ==> #[trigger] placed(buckets, a)
    &&& forall|e1: int, e2: int|
        0 <= e1 < e2 < buckets.len() ==> (#[trigger] buckets[e1]).0 != (#[trigger] buckets[e2]).0
}

/// Sorts the alternatives by how many mines each of them puts on the group.
pub fn mine_counts(alternatives: &VecDeque<Bits>) -> (buckets: Vec<(usize, Vec<usize>)>)
    ensures
        buckets_ok(alternatives@, buckets@),
{
    let mut buckets: Vec<(usize, Vec<usize>)> = Vec::new();
    let mut a: usize = 0;
    while a < alternatives.len()
        invariant
            a <= alternatives@.len(),
            buckets_ok(alternatives@.subrange(0, a as int), buckets@),
        decreases alternatives@.len() - a,
    {
        let ghost seen = alternatives@.subrange(0, a as int);
        let ghost next = alternatives@.subrange(0, a + 1);
        let ghost before = buckets@;
        let count = bits_count_ones(&alternatives[a]);
        let mut e: usize = 0;
        let mut found = false;
        while e < buckets.len() && !found
            invariant
                e <= buckets@.len(),
                buckets@ == before,
                forall|e2: int|
                    0 <= e2 < e - (if found { 1int } else { 0int }) ==> (#[trigger] buckets@[e2]).0
                        != count,
                found ==> e >= 1 && buckets@[e - 1].0 == count,
            decreases buckets@.len() - e + (if found { 0int } else { 1int }),
        {
            if buckets[e].0 == count {
                found = true;
            }
            e = e + 1;
        }
        if found {
            let at = e - 1;
            let mut entry: (usize, Vec<usize>) = (count, Vec::new());
            std::mem::swap(&mut entry, &mut buckets[at]);
            entry.1.push(a);
            buckets[at] = entry;
            proof {
                let after = buckets@;
                assert(after[at as int].1@ == before[at as int].1@.push(a));
                assert(after[at as int].0 == before[at as int].0);
                assert forall|e2: int| 0 <= e2 < after.len() && e2 != at implies after[e2]
                    == before[e2] by {}
                assert forall|e2: int, k: int|
                    0 <= e2 < after.len() && 0 <= k < after[e2].1@.len() implies #[trigger] after[e2].1@[k]
                    < next.len() && count_true(bits(next[after[e2].1@[k] as int])) == after[e2].0 by {
                    if e2 == at && k == before[at as int].1@.len() {
                    } else {
                        assert(before[e2].1@[k] == after[e2].1@[k]);
                        assert(seen[before[e2].1@[k] as int] == next[before[e2].1@[k] as int]);
                    }
                }
                assert forall|x: int| 0 <= x < next.len() implies #[trigger] placed(after, x) by {
                    if x < a {
                        assert(placed(before, x));
                        let (e2, k) = choose|e2: int, k: int|
                            0 <= e2 < before.len() && 0 <= k < before[e2].1@.len()
                                && #[trigger] before[e2].1@[k] == x;
                        assert(after[e2].1@[k] == x);
                    } else {
                        assert(after[at as int].1@[before[at as int].1@.len() as int] == x);
                    }
                }
            }
        } else {
            let mut members: Vec<usize> = Vec::new();
            members.push(a);
            buckets.push((count, members));
            proof {
                let after = buckets@;
                let last = before.len() as int;
                assert forall|e2: int| 0 <= e2 < before.len() implies after[e2] == before[e2] by {}
                assert forall|e2: int, k: int|
                    0 <= e2 < after.len() && 0 <= k < after[e2].1@.len() implies #[trigger] after[e2].1@[k]
                    < next.len() && count_true(bits(next[after[e2].1@[k] as int])) == after[e2].0 by {
                    if e2 < last {
                        assert(before[e2].1@[k] == after[e2].1@[k]);
                        assert(seen[before[e2].1@[k] as int] == next[before[e2].1@[k] as int]);
                    }
                }
                assert forall|x: int| 0 <= x < next.len() implies #[trigger] placed(after, x) by {
                    if x < a {
                        assert(placed(before, x));
                        let (e2, k) = choose|e2: int, k: int|
                            0 <= e2 < before.len() && 0 <= k < before[e2].1@.len()
                                && #[trigger] before[e2].1@[k] == x;
                        assert(after[e2].1@[k] == x);
                    } else {
                        assert(after[last].1@[0] == x);
                    }
                }
            }
        }
        a = a + 1;
    }
    proof {
        assert(alternatives@.subrange(0, a as int) =~= alternatives@);
    }
    buckets
}

/// Whether `t` picks one entry from each list of the basis, in order.
pub open spec fn tuple_of(basis: Seq<Vec<usize>>, t: Seq<usize>) -> bool {
    &&& t.len() == basis.len()
    &&& forall|g: int| 0 <= g < t.len() ==> basis[g]@.contains(#[trigger] t[g])
}

/// Whether the list of combinations holds the combination `t`.
pub open spec fn listed(combos: Seq<Vec<usize>>, t: Seq<usize>) -> bool {
    exists|k: int| 0 <= k < combos.len() && (#[trigger] combos[k])@ == t
}

/// A copy of the list with one more entry.
fn extended(t: &Vec<usize>, x: usize) -> (out: Vec<usize>)
    ensures
        out@ == t@.push(x),
{
    let mut out: Vec<usize> = Vec::new();
    let mut i: usize = 0;
    while i < t.len()
        invariant
            i <= t@.len(),
            out@ == t@.subrange(0, i as int),
        decreases t@.len() - i,
    {
        out.push(t[i]);
        proof {
            assert(out@ =~= t@.subrange(0, i + 1));
        }
        i = i + 1;
    }
    proof {
        assert(t@.subrange(0, i as int) =~= t@);
    }
    out.push(x);
    out
}

/// Every way to pick one entry from each list of the basis. The first list is run
/// through fastest, the last one slowest.
pub fn cartesian_product(basis: &Vec<Vec<usize>>) -> (combos: Vec<Vec<usize>>)
    ensures
        forall|k: int| 0 <= k < combos@.len() ==> tuple_of(basis@, (#[trigger] combos@[k])@),
        forall|t: Seq<usize>| #[trigger] tuple_of(basis@, t) ==> listed(combos@, t),
{
    let mut combos: Vec<Vec<usize>> = Vec::new();
    combos.push(Vec::new());
    proof {
        assert forall|t: Seq<usize>| #[trigger]
            tuple_of(basis@.subrange(0, 0), t) implies listed(combos@, t) by {
            assert(combos@[0]@ =~= t);
        }
    }
    let mut g: usize = 0;
    while g < basis.len()
        invariant
            g <= basis@.len(),
            forall|k: int|
                0 <= k < combos@.len() ==> tuple_of(
                    basis@.subrange(0, g as int),
                    (#[trigger] combos@[k])@,
                ),
            forall|t: Seq<usize>| #[trigger]
                tuple_of(basis@.subrange(0, g as int), t) ==> listed(combos@, t),
        decreases basis@.len() - g,
    {
        let ghost shorter = basis@.subrange(0, g as int);
        let ghost longer = basis@.subrange(0, g + 1);
        let mut next: Vec<Vec<usize>> = Vec::new();
        let mut k: usize = 0;
        while k < basis[g].len()
            invariant
                g < basis@.len(),
                k <= basis@[g as int]@.len(),
                shorter == basis@.subrange(0, g as int),
                longer == basis@.subrange(0, g + 1),
                forall|i: int| 0 <= i < combos@.len() ==> tuple_of(shorter, (#[trigger] combos@[i])@),
                forall|i: int| 0 <= i < next@.len() ==> tuple_of(longer, (#[trigger] next@[i])@),
                forall|i: int, k2: int|
                    0 <= i < combos@.len() && 0 <= k2 < k ==> listed(
                        next@,
                        #[trigger] combos@[i]@.push(basis@[g as int]@[k2]),
                    ),
            decreases basis@[g as int]@.len() - k,
        {
            let key = basis[g][k];
            let mut c: usize = 0;
            while c < combos.len()
                invariant
                    g < basis@.len(),
                    k < basis@[g as int]@.len(),
                    key == basis@[g as int]@[k as int],
                    c <= combos@.len(),
                    shorter == basis@.subrange(0, g as int),
                    longer == basis@.subrange(0, g + 1),
                    forall|i: int|
                        0 <= i < combos@.len() ==> tuple_of(shorter, (#[trigger] combos@[i])@),
                    forall|i: int| 0 <= i < next@.len() ==> tuple_of(longer, (#[trigger] next@[i])@),
                    forall|i: int, k2: int|
                        0 <= i < combos@.len() && 0 <= k2 < k ==> listed(
                            next@,
                            #[trigger] combos@[i]@.push(basis@[g as int]@[k2]),
                        ),
                    forall|i: int| 0 <= i < c ==> listed(next@, (#[trigger] combos@[i])@.push(key)),
                decreases combos@.len() - c,
            {
                let ghost before = next@;
                let t = extended(&combos[c], key);
                next.push(t);
                proof {
                    let grown = combos@[c as int]@.push(key);
                    assert(tuple_of(shorter, combos@[c as int]@));
                    assert(tuple_of(longer, grown)) by {
                        assert forall|g2: int| 0 <= g2 < grown.len() implies longer[g2]@.contains(
                            #[trigger] grown[g2],
                        ) by {
                            if g2 < g {
                                assert(shorter[g2]@.contains(combos@[c as int]@[g2]));
                            }
                        }
                    }
                    assert forall|t2: Seq<usize>| listed(before, t2) implies listed(next@, t2) by {
                        let i = choose|i: int| 0 <= i < before.len() && (#[trigger] before[i])@ == t2;
                        assert(next@[i]@ == t2);
                    }
                    assert(next@[before.len() as int]@ == grown);
                }
                c = c + 1;
            }
            k = k + 1;
        }
        proof {
            assert forall|t: Seq<usize>| #[trigger] tuple_of(longer, t) implies listed(next@, t) by {
                let head = t.drop_last();
                assert(tuple_of(shorter, head)) by {
                    assert forall|g2: int| 0 <= g2 < head.len() implies shorter[g2]@.contains(
                        #[trigger] head[g2],
                    ) by {
                        assert(longer[g2]@.contains(t[g2]));
                    }
                }
                let i = choose|i: int| 0 <= i < combos@.len() && (#[trigger] combos@[i])@ == head;
                assert(longer[g as int]@.contains(t[g as int]));
                let k2 = choose|k2: int|
                    0 <= k2 < basis@[g as int]@.len() && basis@[g as int]@[k2] == t[g as int];
                assert(t =~= head.push(t[g as int]));
                assert(listed(next@, combos@[i]@.push(basis@[g as int]@[k2])));
            }
        }
        combos = next;
        g = g + 1;
    }
    proof {
        assert(basis@.subrange(0, g as int) =~= basis@);
    }
    combos
}

/// The sum of the entries.
pub open spec fn total(t: Seq<usize>) -> nat
    decreases t.len(),
{
    if t.len() == 0 {
        0
    } else {
        total(t.drop_last()) + t.last() as nat
    }
}

/// Whether as many mines as the combination puts on the groups leave a number of mines
/// that the free cells can take: no more than `hidden` in all, and no more left over than
/// there are free cells.
pub open spec fn feasible_total(sum: nat, hidden: u32, free: u32) -> bool {
    sum <= hidden && hidden - sum <= free
}

/// Adds up the mines that the combination puts on the groups and says whether the free
/// cells can take the rest.
pub fn feasible(combo: &Vec<usize>, hidden: u32, free: u32) -> (ok: bool)
    ensures
        ok == feasible_total(total(combo@), hidden, free),
{
    let mut sum: u32 = 0;
    let mut g: usize = 0;
    while g < combo.len()
        invariant
            g <= combo@.len(),
            sum == total(combo@.subrange(0, g as int)),
            sum <= hidden,
        decreases combo@.len() - g,
    {
        let ghost head = combo@.subrange(0, g as int);
        let ghost next = combo@.subrange(0, g + 1);
        proof {
            assert(next.drop_last() =~= head);
        }
        let count = combo[g];
        if count > (hidden - sum) as usize {
            proof {
                lemma_total_prefix(combo@, g + 1);
            }
            return false;
        }
        sum = sum + count as u32;
        g = g + 1;
    }
    proof {
        assert(combo@.subrange(0, g as int) =~= combo@);
    }
    hidden - sum <= free
}

/// The first entries add up to no more than all of them.
pub proof fn lemma_total_prefix(t: Seq<usize>, n: int)
    requires
        0 <= n <= t.len(),
    ensures
        total(t.subrange(0, n)) <= total(t),
    decreases t.len() - n,
{
    if n < t.len() {
        lemma_total_prefix(t, n + 1);
        assert(t.subrange(0, n + 1).drop_last() =~= t.subrange(0, n));
    } else {
        assert(t.subrange(0, n) =~= t);
    }
}

/// Whether `t` names, for each group, a count under which some of its alternatives are
/// listed.
pub open spec fn counts_tuple(buckets: Seq<Vec<(usize, Vec<usize>)>>, t: Seq<usize>) -> bool {
    &&& t.len() == buckets.len()
    &&& forall|g: int| 0 <= g < t.len() ==> has_key(buckets[g]@, #[trigger] t[g])
}

/// Whether some alternatives are listed under the count `key`.
pub open spec fn has_key(buckets: Seq<(usize, Vec<usize>)>, key: usize) -> bool {
    exists|e: int| 0 <= e < buckets.len() && (#[trigger] buckets[e]).0 == key
}

/// The counts under which the alternatives of each group are listed.
fn keys_of(buckets: &Vec<Vec<(usize, Vec<usize>)>>) -> (keys: Vec<Vec<usize>>)
    ensures
        keys@.len() == buckets@.len(),
        forall|t: Seq<usize>| tuple_of(keys@, t) <==> #[trigger] counts_tuple(buckets@, t),
{
    let mut keys: Vec<Vec<usize>> = Vec::new();
    let mut g: usize = 0;
    while g < buckets.len()
        invariant
            g <= buckets@.len(),
            keys@.len() == g,
            forall|g2: int, x: usize|
                0 <= g2 < g ==> ((#[trigger] keys@[g2])@.contains(x) <==> #[trigger] has_key(
                    buckets@[g2]@,
                    x,
                )),
        decreases buckets@.len() - g,
    {
        let mut row: Vec<usize> = Vec::new();
        let mut e: usize = 0;
        while e < buckets[g].len()
            invariant
                g < buckets@.len(),
                e <= buckets@[g as int]@.len(),
                row@.len() == e,
                forall|e2: int| 0 <= e2 < e ==> row@[e2] == (#[trigger] buckets@[g as int]@[e2]).0,
            decreases buckets@[g as int]@.len() - e,
        {
            row.push(buckets[g][e].0);
            e = e + 1;
        }
        proof {
            assert forall|x: usize| row@.contains(x) <==> #[trigger] has_key(buckets@[g as int]@, x) by {
                if row@.contains(x) {
                    let e2 = choose|e2: int| 0 <= e2 < row@.len() && row@[e2] == x;
                    assert(buckets@[g as int]@[e2].0 == x);
                }
                if has_key(buckets@[g as int]@, x) {
                    let e2 = choose|e2: int|
                        0 <= e2 < buckets@[g as int]@.len() && (#[trigger] buckets@[g as int]@[e2]).0
                            == x;
                    assert(row@[e2] == x);
                }
            }
        }
        keys.push(row);
        g = g + 1;
    }
    proof {
        assert forall|t: Seq<usize>| tuple_of(keys@, t) <==> #[trigger] counts_tuple(buckets@, t) by {
            if tuple_of(keys@, t) {
                assert forall|g2: int| 0 <= g2 < t.len() implies has_key(
                    buckets@[g2]@,
                    #[trigger] t[g2],
                ) by {
                    assert(keys@[g2]@.contains(t[g2]));
                }
            }
            if counts_tuple(buckets@, t) {
                assert forall|g2: int| 0 <= g2 < t.len() implies keys@[g2]@.contains(
                    #[trigger] t[g2],
                ) by {
                    assert(has_key(buckets@[g2]@, t[g2]));
                }
            }
        }
    }
    keys
}

/// The combinations of one count for each group that leave a number of mines that the
/// free cells can take, in the order in which the first group runs fastest.
pub fn surviving_combinations(buckets: &Vec<Vec<(usize, Vec<usize>)>>, hidden: u32, free: u32) -> (combos:
    Vec<Vec<usize>>)
    ensures
        forall|k: int|
            0 <= k < combos@.len() ==> counts_tuple(buckets@, (#[trigger] combos@[k])@)
                && feasible_total(total(combos@[k]@), hidden, free),
        forall|t: Seq<usize>|
            #[trigger] counts_tuple(buckets@, t) && feasible_total(total(t), hidden, free)
                ==> listed(combos@, t),
{
    let keys = keys_of(buckets);
    let mut product = cartesian_product(&keys);
    let ghost all = product@;
    let mut combos: Vec<Vec<usize>> = Vec::new();
    let ghost mut done: int = 0;
    // The product is taken from its end and the survivors are put back in order.
    let mut kept: Vec<Vec<usize>> = Vec::new();
    while product.len() > 0
        invariant
            product@ == all.take(all.len() - done),
            0 <= done <= all.len(),
            forall|k: int| 0 <= k < all.len() ==> tuple_of(keys@, (#[trigger] all[k])@),
            forall|k: int|
                0 <= k < kept@.len() ==> tuple_of(keys@, (#[trigger] kept@[k])@) && feasible_total(
                    total(kept@[k]@),
                    hidden,
                    free,
                ),
            forall|k: int|
                all.len() - done <= k < all.len() && feasible_total(
                    total((#[trigger] all[k])@),
                    hidden,
                    free,
                ) ==> listed(kept@, all[k]@),
        decreases product@.len(),
    {
        let combo = product.pop().unwrap();
        let ghost before = kept@;
        proof {
            assert(combo == all[all.len() - done - 1]);
            assert(product@ =~= all.take(all.len() - done - 1));
        }
        if feasible(&combo, hidden, free) {
            kept.push(combo);
        }
        proof {
            assert forall|t: Seq<usize>| listed(before, t) implies listed(kept@, t) by {
                let k = choose|k: int| 0 <= k < before.len() && (#[trigger] before[k])@ == t;
                assert(kept@[k]@ == t);
            }
            if feasible_total(total(combo@), hidden, free) {
                assert(kept@[before.len() as int]@ == combo@);
            }
            done = done + 1;
        }
    }
    while kept.len() > 0
        invariant
            forall|k: int|
                0 <= k < kept@.len() ==> tuple_of(keys@, (#[trigger] kept@[k])@) && feasible_total(
                    total(kept@[k]@),
                    hidden,
                    free,
                ),
            forall|k: int|
                0 <= k < combos@.len() ==> tuple_of(keys@, (#[trigger] combos@[k])@)
                    && feasible_total(total(combos@[k]@), hidden, free),
            forall|t: Seq<usize>|
                #[trigger] tuple_of(keys@, t) && feasible_total(total(t), hidden, free) ==> listed(
                    kept@,
                    t,
                ) || listed(combos@, t),
        decreases kept@.len(),
    {
        let ghost kept0 = kept@;
        let ghost combos0 = combos@;
        let combo = kept.pop().unwrap();
        combos.push(combo);
        proof {
            assert forall|t: Seq<usize>|
                #[trigger] tuple_of(keys@, t) && feasible_total(
                    total(t),
                    hidden,
                    free,
                ) implies listed(kept@, t) || listed(combos@, t) by {
                if listed(kept0, t) {
                    let k = choose|k: int| 0 <= k < kept0.len() && (#[trigger] kept0[k])@ == t;
                    if k < kept@.len() {
                        assert(kept@[k]@ == t);
                    } else {
                        assert(combos@[combos0.len() as int]@ == t);
                    }
                } else {
                    let k = choose|k: int| 0 <= k < combos0.len() && (#[trigger] combos0[k])@ == t;
                    assert(combos@[k]@ == t);
                }
            }
        }
    }
    proof {
        assert forall|t: Seq<usize>|
            #[trigger] counts_tuple(buckets@, t) && feasible_total(
                total(t),
                hidden,
                free,
            ) implies listed(combos@, t) by {
            assert(tuple_of(keys@, t));
            assert(!listed(kept@, t));
        }
    }
    combos
}

/// Adds up the mines that the combination puts on the groups.
pub fn sum_counts(combo: &Vec<usize>, hidden: u32) -> (sum: u32)
    requires
        total(combo@) <= hidden,
    ensures
        sum == total(combo@),
{
    let mut sum: u32 = 0;
    let mut g: usize = 0;
    while g < combo.len()
        invariant
            g <= combo@.len(),
            sum == total(combo@.subrange(0, g as int)),
            total(combo@) <= hidden,
        decreases combo@.len() - g,
    {
        proof {
            assert(combo@.subrange(0, g + 1).drop_last() =~= combo@.subrange(0, g as int));
            lemma_total_prefix(combo@, g + 1);
        }
        sum = sum + combo[g] as u32;
        g = g + 1;
    }
    proof {
        assert(combo@.subrange(0, g as int) =~= combo@);
    }
    sum
}

/// A list of `mines` times `true` followed by `false` up to the length `len`.
pub fn mines_then_empties(mines: u32, len: u32) -> (spread: Vec<bool>)
    requires
        mines <= len,
    ensures
        spread@.len() == len,
        count_true(spread@) == mines,
{
    let mut spread: Vec<bool> = Vec::new();
    let mut i: u32 = 0;
    while i < mines
        invariant
            i <= mines,
            spread@.len() == i,
            count_true(spread@) == i,
        decreases mines - i,
    {
        proof {
            crate::counting::lemma_count_push(spread@, true);
        }
        spread.push(true);
        i = i + 1;
    }
    while i < len
        invariant
            mines <= i <= len,
            spread@.len() == i,
            count_true(spread@) == mines,
        decreases len - i,
    {
        proof {
            crate::counting::lemma_count_push(spread@, false);
        }
        spread.push(false);
        i = i + 1;
    }
    spread
}

/// Counts that are no more, group by group, add up to no more.
pub proof fn lemma_total_le(lower: Seq<usize>, upper: Seq<usize>)
    requires
        lower.len() == upper.len(),
        forall|g: int| 0 <= g < lower.len() ==> lower[g] <= upper[g],
    ensures
        total(lower) <= total(upper),
    decreases lower.len(),
{
    if lower.len() > 0 {
        lemma_total_le(lower.drop_last(), upper.drop_last());
    }
}

} // verus!
