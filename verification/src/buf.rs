//! The `bytes` crate's buffers, and what the rest of the crate relies on of
//! them.
//!
//! A [`BytesMut`] is modelled by the bytes it holds that are not yet
//! consumed, a [`Bytes`] by the bytes it holds.

use bytes::{Buf, Bytes, BytesMut};
use vstd::prelude::*;

verus! {

/// The growable buffer of the `bytes` crate.
#[verifier::external_type_specification]
#[verifier::external_body]
pub struct ExBytesMut(BytesMut);

/// The frozen buffer of the `bytes` crate.
#[verifier::external_type_specification]
#[verifier::external_body]
pub struct ExBytes(Bytes);

/// The unconsumed contents of a growable buffer.
pub uninterp spec fn buffered(b: BytesMut) -> Seq<u8>;

/// The contents of a frozen buffer.
pub uninterp spec fn frozen(b: Bytes) -> Seq<u8>;

/// `extra` more bytes keep the buffer within what one allocation may hold.
pub open spec fn has_room(b: BytesMut, extra: nat) -> bool {
    buffered(b).len() + extra <= isize::MAX
}

/// `BytesMut::new`: an empty buffer.
#[verifier::external_body]
pub(crate) fn new_buffer() -> (b: BytesMut)
    ensures
        buffered(b) == Seq::<u8>::empty(),
{
    BytesMut::new()
}

/// `BytesMut::extend_from_slice`: appends `data`. It panics when the buffer
/// would outgrow the address space, which the precondition leaves out.
#[verifier::external_body]
pub(crate) fn append(b: &mut BytesMut, data: &[u8])
    requires
        has_room(*old(b), data@.len()),
    ensures
        buffered(*final(b)) == buffered(*old(b)) + data@,
{
    b.extend_from_slice(data);
}

/// `BytesMut::deref`: the contents as a slice.
#[verifier::external_body]
pub(crate) fn contents(b: &BytesMut) -> (s: &[u8])
    ensures
        s@ == buffered(*b),
{
    &b[..]
}

/// `Buf::advance` on a `BytesMut`: drops the first `n` bytes. It panics when
/// fewer are there.
#[verifier::external_body]
pub(crate) fn consume(b: &mut BytesMut, n: usize)
    requires
        n <= buffered(*old(b)).len(),
    ensures
        buffered(*final(b)) == buffered(*old(b)).skip(n as int),
{
    b.advance(n);
}

/// `BytesMut::freeze`: the same contents, frozen.
#[verifier::external_body]
pub(crate) fn freeze(b: BytesMut) -> (f: Bytes)
    ensures
        frozen(f) == buffered(b),
{
    b.freeze()
}

/// `Bytes::clone`: another handle on the same contents.
pub assume_specification[ <Bytes as Clone>::clone ](b: &Bytes) -> (f: Bytes)
    ensures
        frozen(f) == frozen(*b),
;

/// `Bytes::copy_from_slice`: a frozen copy of `data`.
#[verifier::external_body]
pub(crate) fn copy_frozen(data: &[u8]) -> (f: Bytes)
    ensures
        frozen(f) == data@,
{
    Bytes::copy_from_slice(data)
}

/// `Bytes::deref`: the contents as a slice.
#[verifier::external_body]
pub(crate) fn frozen_slice(b: &Bytes) -> (s: &[u8])
    ensures
        s@ == frozen(*b),
{
    &b[..]
}

} // verus!
