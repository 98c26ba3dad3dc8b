//! The byte buffer of the `bytes` crate, as the decoder sees it.
use bytes::{Buf, BytesMut};
use vstd::prelude::*;

verus! {

#[verifier::external_type_specification]
#[verifier::external_body]
pub struct ExBytesMut(BytesMut);

/// The bytes that a buffer holds, from its read position on.
pub uninterp spec fn buffered(b: BytesMut) -> Seq<u8>;

/// Relies on `<BytesMut as AsRef<[u8]>>::as_ref`: a slice of exactly the bytes held.
#[verifier::external_body]
pub(crate) fn buf_bytes(b: &BytesMut) -> (r: &[u8])
    ensures
        r@ == buffered(*b),
{
    b.as_ref()
}

/// Relies on `<BytesMut as Buf>::advance`: drops the first `n` bytes (it panics past the end).
#[verifier::external_body]
pub(crate) fn buf_advance(b: &mut BytesMut, n: usize)
    requires
        n <= buffered(*old(b)).len(),
    ensures
        buffered(*final(b)) == buffered(*old(b)).subrange(n as int, buffered(*old(b)).len() as int),
{
    b.advance(n)
}

} // verus!
