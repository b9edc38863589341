//! The bytes that are held and handed out, as `bytes` keeps them.
use bytes::{Buf, Bytes, BytesMut};
use vstd::prelude::*;
use vstd::slice::slice_to_vec;

verus! {

/// `bytes::Bytes`: opaque here but for its bytes.
#[verifier::external_type_specification]
#[verifier::external_body]
pub struct ExBytes(bytes::Bytes);

/// `bytes::BytesMut`: opaque here but for its bytes.
#[verifier::external_type_specification]
#[verifier::external_body]
pub struct ExBytesMut(bytes::BytesMut);

/// The bytes of a chunk.
pub uninterp spec fn bytes_content(b: Bytes) -> Seq<u8>;

/// The bytes of a buffer.
pub uninterp spec fn buffer_content(b: BytesMut) -> Seq<u8>;

/// `bytes::BytesMut::new` makes a buffer without bytes.
pub assume_specification[ bytes::BytesMut::new ]() -> (b: BytesMut)
    ensures
        buffer_content(b) == Seq::<u8>::empty(),
;

/// `bytes::BytesMut::len` is the number of bytes in the buffer.
pub assume_specification[ bytes::BytesMut::len ](b: &BytesMut) -> (n: usize)
    ensures
        n == buffer_content(*b).len(),
;

/// `bytes::BytesMut::clear` removes every byte.
pub assume_specification[ bytes::BytesMut::clear ](b: &mut BytesMut)
    ensures
        buffer_content(*final(b)) == Seq::<u8>::empty(),
;

/// `bytes::BytesMut::split_to` takes the first `at` bytes out of the buffer and
/// leaves the others in it. It panics when there are fewer than `at`.
pub assume_specification[ bytes::BytesMut::split_to ](
    b: &mut BytesMut,
    at: usize,
) -> (front: BytesMut)
    requires
        at <= buffer_content(*old(b)).len(),
    ensures
        buffer_content(front) == buffer_content(*old(b)).take(at as int),
        buffer_content(*final(b)) == buffer_content(*old(b)).skip(at as int),
;

/// `bytes::BytesMut::freeze` turns a buffer into a chunk with the same bytes.
pub assume_specification[ bytes::BytesMut::freeze ](b: BytesMut) -> (frozen: Bytes)
    ensures
        bytes_content(frozen) == buffer_content(b),
;

/// `bytes::BytesMut::extend_from_slice` puts the bytes behind those that are in
/// the buffer. It panics when their number overflows a `usize`. That there is
/// memory for them is taken for granted.
pub assume_specification[ bytes::BytesMut::extend_from_slice ](b: &mut BytesMut, extend: &[u8])
    requires
        buffer_content(*old(b)).len() + extend@.len() <= usize::MAX,
    ensures
        buffer_content(*final(b)) == buffer_content(*old(b)) + extend@,
;

/// Removes the first `count` bytes of a buffer.
///
/// Calls `bytes::Buf::advance`, which moves the start of the buffer forward. It
/// panics when there are fewer than `count` bytes.
#[verifier::external_body]
pub(crate) fn drop_front(b: &mut BytesMut, count: usize)
    requires
        count <= buffer_content(*old(b)).len(),
    ensures
        buffer_content(*final(b)) == buffer_content(*old(b)).skip(count as int),
{
    b.advance(count)
}

/// The bytes of a buffer as a slice.
///
/// Calls `bytes::BytesMut::deref`.
#[verifier::external_body]
pub(crate) fn buffer_slice(b: &BytesMut) -> (s: &[u8])
    ensures
        s@ == buffer_content(*b),
{
    b
}

/// The bytes of a chunk.
///
/// Calls `bytes::Bytes::deref`, which gives the bytes as a slice.
#[verifier::external_body]
pub(crate) fn bytes_slice(b: &Bytes) -> (s: &[u8])
    ensures
        s@ == bytes_content(*b),
{
    b
}

/// A chunk with the bytes of a vector.
///
/// Calls `bytes::Bytes::from` on the vector, which keeps its bytes.
#[verifier::external_body]
fn bytes_from_vec(v: Vec<u8>) -> (b: Bytes)
    ensures
        bytes_content(b) == v@,
{
    Bytes::from(v)
}

/// A chunk with these bytes.
pub fn chunk_of(bytes: &[u8]) -> (chunk: Bytes)
    ensures
        bytes_content(chunk) == bytes@,
{
    bytes_from_vec(slice_to_vec(bytes))
}

} // verus!
