//! A buffer for the neighbors of one cell, from the `arrayvec` crate.
//!
//! Nothing in this file is proved: each function states what the `arrayvec`
//! method it calls does to the buffer.

use arrayvec::ArrayVec;
use vstd::prelude::*;

verus! {

/// `ArrayVec` of the `arrayvec` crate, whose inside the proofs do not see.
#[verifier::external_type_specification]
#[verifier::external_body]
#[verifier::reject_recursive_types(T)]
pub struct ExArrayVec<T, const CAP: usize>(ArrayVec<T, CAP>);

/// The cells that a buffer holds, in the order in which they were pushed.
pub uninterp spec fn buffered(buf: ArrayVec<(u16, u16), 8>) -> Seq<(u16, u16)>;

/// `ArrayVec::new`: an empty buffer.
#[verifier::external_body]
pub(crate) fn cellbuf_new() -> (buf: ArrayVec<(u16, u16), 8>)
    ensures
        buffered(buf) == Seq::<(u16, u16)>::empty(),
{
    ArrayVec::new()
}

/// `ArrayVec::push`: appends a cell. The call panics on a full buffer.
#[verifier::external_body]
pub(crate) fn cellbuf_push(buf: &mut ArrayVec<(u16, u16), 8>, cell: (u16, u16))
    requires
        buffered(*old(buf)).len() < 8,
    ensures
        buffered(*final(buf)) == buffered(*old(buf)).push(cell),
{
    buf.push(cell)
}

/// `ArrayVec::as_slice`: the cells of the buffer as a slice.
#[verifier::external_body]
pub(crate) fn cellbuf_as_slice(buf: &ArrayVec<(u16, u16), 8>) -> (cells: &[(u16, u16)])
    ensures
        cells@ == buffered(*buf),
{
    buf.as_slice()
}

} // verus!
