//! Bit strings from the `bitvec` crate, seen by the proofs as sequences of booleans.
//!
//! The functions marked `external_body` are not proved: each states what the `bitvec`
//! method it calls does to the bits. [`Bits::to_vec`] is proved from them.

use crate::counting::count_true;
use bitvec::order::Lsb0;
use bitvec::vec::BitVec;
use vstd::prelude::*;

verus! {

/// A bit string: a `BitVec` of the `bitvec` crate, whose inside the proofs do not see.
#[verifier::external_body]
pub struct Bits {
    inner: BitVec<usize, Lsb0>,
}

/// The bits that a bit string holds, first to last.
pub uninterp spec fn bits(b: Bits) -> Seq<bool>;

/// The longest bit string that `bitvec` can hold on this machine.
pub open spec fn max_bits() -> int {
    usize::MAX as int / 8
}

/// `BitVec::new`: an empty bit string.
#[verifier::external_body]
pub(crate) fn bits_new() -> (b: Bits)
    ensures
        bits(b) == Seq::<bool>::empty(),
{
    Bits { inner: BitVec::new() }
}

/// `BitVec::repeat`: a bit string of `len` copies of `bit`.
#[verifier::external_body]
pub(crate) fn bits_repeat(bit: bool, len: usize) -> (b: Bits)
    requires
        len <= max_bits(),
    ensures
        bits(b) == Seq::new(len as nat, |i: int| bit),
{
    Bits { inner: BitVec::repeat(bit, len) }
}

/// `BitVec::len`: the number of bits.
#[verifier::external_body]
pub(crate) fn bits_len(b: &Bits) -> (n: usize)
    ensures
        n == bits(*b).len(),
{
    b.inner.len()
}

/// `BitVec::push`: appends one bit. The call panics past the longest bit string.
#[verifier::external_body]
pub(crate) fn bits_push(b: &mut Bits, value: bool)
    requires
        bits(*old(b)).len() < max_bits(),
    ensures
        bits(*final(b)) == bits(*old(b)).push(value),
{
    b.inner.push(value)
}

/// `BitVec::pop`: takes the last bit off, if there is one.
#[verifier::external_body]
pub(crate) fn bits_pop(b: &mut Bits) -> (last: Option<bool>)
    ensures
        bits(*old(b)).len() == 0 ==> last is None && bits(*final(b)) == bits(*old(b)),
        bits(*old(b)).len() > 0 ==> last == Some(bits(*old(b)).last()) && bits(*final(b)) == bits(
            *old(b),
        ).drop_last(),
{
    b.inner.pop()
}

/// `BitSlice::get` with a single index: the bit at `index`, or `None` past the end.
#[verifier::external_body]
pub(crate) fn bits_get(b: &Bits, index: usize) -> (bit: Option<bool>)
    ensures
        index < bits(*b).len() ==> bit == Some(bits(*b)[index as int]),
        index >= bits(*b).len() ==> bit is None,
{
    b.inner.get(index).map(|r| *r)
}

/// `BitSlice::set`: overwrites the bit at `index`. The call panics past the end.
#[verifier::external_body]
pub(crate) fn bits_set(b: &mut Bits, index: usize, value: bool)
    requires
        index < bits(*old(b)).len(),
    ensures
        bits(*final(b)) == bits(*old(b)).update(index as int, value),
{
    b.inner.set(index, value)
}

/// `BitVec::clone`: a bit string with the same bits.
#[verifier::external_body]
pub(crate) fn bits_clone(b: &Bits) -> (copy: Bits)
    ensures
        bits(copy) == bits(*b),
{
    Bits { inner: b.inner.clone() }
}

/// `BitSlice::count_ones`: the number of bits that are set.
#[verifier::external_body]
pub(crate) fn bits_count_ones(b: &Bits) -> (n: usize)
    ensures
        n == count_true(bits(*b)),
{
    b.inner.count_ones()
}

impl Bits {
    /// The bits as a list of booleans.
    pub fn to_vec(&self) -> (out: Vec<bool>)
        ensures
            out@ == bits(*self),
    {
        let n = bits_len(self);
        let mut out: Vec<bool> = Vec::new();
        let mut i: usize = 0;
        while i < n
            invariant
                i <= n,
                n == bits(*self).len(),
                out@ == bits(*self).take(i as int),
            decreases n - i,
        {
            let bit = match bits_get(self, i) {
                Some(bit) => bit,
                None => false,
            };
            out.push(bit);
            proof {
                assert(out@ =~= bits(*self).take(i + 1));
            }
            i = i + 1;
        }
        proof {
            assert(bits(*self).take(n as int) =~= bits(*self));
        }
        out
    }
}

} // verus!
