//! Counting the entries of a sequence of booleans that are `true`.

use vstd::prelude::*;

verus! {

/// One for `true`, zero for `false`.
pub open spec fn b2i(b: bool) -> int {
    if b {
        1
    } else {
        0
    }
}

/// The number of `true` entries of a sequence of booleans.
pub open spec fn count_true(s: Seq<bool>) -> nat
    decreases s.len(),
{
    if s.len() == 0 {
        0
    } else {
        count_true(s.drop_last()) + if s.last() {
            1nat
        } else {
            0nat
        }
    }
}

/// No more entries are `true` than there are entries.
pub proof fn lemma_count_bounds(s: Seq<bool>)
    ensures
        count_true(s) <= s.len(),
    decreases s.len(),
{
    if s.len() > 0 {
        lemma_count_bounds(s.drop_last());
    }
}

/// Appending an entry adds it to the count.
pub proof fn lemma_count_push(s: Seq<bool>, b: bool)
    ensures
        count_true(s.push(b)) == count_true(s) + b2i(b),
{
    assert(s.push(b).drop_last() =~= s);
}

/// Two sequences that differ at most at position `j` differ in count by that entry.
pub proof fn lemma_count_diff(s0: Seq<bool>, s1: Seq<bool>, j: int)
    requires
        s0.len() == s1.len(),
        forall|i: int| 0 <= i < s0.len() && i != j ==> s0[i] == s1[i],
    ensures
        0 <= j < s0.len() ==> count_true(s1) == count_true(s0) - b2i(s0[j]) + b2i(s1[j]),
        !(0 <= j < s0.len()) ==> count_true(s1) == count_true(s0),
    decreases s0.len(),
{
    if s0.len() > 0 {
        lemma_count_diff(s0.drop_last(), s1.drop_last(), j);
    }
}

/// A sequence without a `true` entry counts zero, and the other way round.
pub proof fn lemma_count_zero(s: Seq<bool>)
    ensures
        count_true(s) == 0 <==> forall|i: int| 0 <= i < s.len() ==> !s[i],
    decreases s.len(),
{
    if s.len() > 0 {
        lemma_count_zero(s.drop_last());
        if count_true(s) == 0 {
            assert forall|i: int| 0 <= i < s.len() implies !s[i] by {
                if i < s.len() - 1 {
                    assert(s.drop_last()[i] == s[i]);
                }
            }
        } else if forall|i: int| 0 <= i < s.len() ==> !s[i] {
            assert forall|i: int| 0 <= i < s.drop_last().len() implies !s.drop_last()[i] by {
                assert(s.drop_last()[i] == s[i]);
            }
        }
    }
}

/// A `true` entry makes the count positive.
pub proof fn lemma_count_positive(s: Seq<bool>, j: int)
    requires
        0 <= j < s.len(),
        s[j],
    ensures
        count_true(s) >= 1,
{
    lemma_count_zero(s);
}

/// Two pairs of sequences whose entries differ alike, position by position, differ alike
/// in count.
pub proof fn lemma_count_gap(a0: Seq<bool>, a1: Seq<bool>, c0: Seq<bool>, c1: Seq<bool>)
    requires
        a0.len() == a1.len(),
        a0.len() == c0.len(),
        a0.len() == c1.len(),
        forall|i: int|
            0 <= i < a0.len() ==> b2i(#[trigger] a0[i]) - b2i(a1[i]) == b2i(c0[i]) - b2i(c1[i]),
    ensures
        count_true(a0) - count_true(a1) == count_true(c0) - count_true(c1),
    decreases a0.len(),
{
    if a0.len() > 0 {
        let n = a0.len() - 1;
        assert(b2i(a0[n]) - b2i(a1[n]) == b2i(c0[n]) - b2i(c1[n]));
        assert forall|i: int| 0 <= i < n implies b2i(#[trigger] a0.drop_last()[i]) - b2i(
            a1.drop_last()[i],
        ) == b2i(c0.drop_last()[i]) - b2i(c1.drop_last()[i]) by {
            assert(b2i(a0[i]) - b2i(a1[i]) == b2i(c0[i]) - b2i(c1[i]));
        }
        lemma_count_gap(a0.drop_last(), a1.drop_last(), c0.drop_last(), c1.drop_last());
    }
}

/// A sequence of nothing but `true` counts its length.
pub proof fn lemma_count_all(s: Seq<bool>)
    requires
        forall|i: int| 0 <= i < s.len() ==> s[i],
    ensures
        count_true(s) == s.len(),
    decreases s.len(),
{
    if s.len() > 0 {
        lemma_count_all(s.drop_last());
    }
}

/// The first entries count no more than all of them.
pub proof fn lemma_count_take(s: Seq<bool>, n: int)
    requires
        0 <= n <= s.len(),
    ensures
        count_true(s.take(n)) <= count_true(s),
        n < s.len() ==> count_true(s.take(n + 1)) == count_true(s.take(n)) + b2i(s[n]),
    decreases s.len() - n,
{
    if n < s.len() {
        lemma_count_take(s, n + 1);
        assert(s.take(n + 1).drop_last() =~= s.take(n));
    } else {
        assert(s.take(n) =~= s);
    }
}

/// The count of a sequence is how often `true` occurs in it, whatever the order.
pub proof fn lemma_count_multiset(s: Seq<bool>)
    ensures
        count_true(s) == s.to_multiset().count(true),
    decreases s.len(),
{
    if s.len() == 0 {
        vstd::seq_lib::to_multiset_len(s);
        vstd::multiset::lemma_multiset_empty_len(s.to_multiset());
    } else {
        lemma_count_multiset(s.drop_last());
        vstd::seq_lib::to_multiset_build(s.drop_last(), s.last());
        assert(s.drop_last().push(s.last()) =~= s);
    }
}

} // verus!
