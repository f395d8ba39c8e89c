//! The growable byte buffer that the transport fills and the decoder drains.

use vstd::prelude::*;

verus! {

/// `bytes::BytesMut`, taken as it is: a buffer of bytes of which nothing is
/// known here but what [`buffered`] says it holds.
#[verifier::external_type_specification]
#[verifier::external_body]
pub struct ExBytesMut(bytes::BytesMut);

/// The bytes a buffer currently holds, front first.
pub uninterp spec fn buffered(buf: bytes::BytesMut) -> Seq<u8>;

/// The buffer's contents as a slice (`BytesMut` dereferences to `[u8]`);
/// nothing is consumed.
#[verifier::external_body]
pub(crate) fn buf_bytes(buf: &bytes::BytesMut) -> (s: &[u8])
    ensures
        s@ == buffered(*buf),
{
    buf.as_ref()
}

/// `BytesMut::split_to`: removes the first `at` bytes from the buffer and
/// returns them as a buffer of their own; what follows stays behind.
#[verifier::external_body]
pub(crate) fn buf_split_to(buf: &mut bytes::BytesMut, at: usize) -> (head: bytes::BytesMut)
    requires
        at <= buffered(*old(buf)).len(),
    ensures
        buffered(head) == buffered(*old(buf)).take(at as int),
        buffered(*final(buf)) == buffered(*old(buf)).skip(at as int),
{
    buf.split_to(at)
}

} // verus!
