//! The byte buffer behind a chunk: `bytes::BytesMut`, seen as a sequence of
//! bytes. Nothing here is proved; each function states what the `bytes`
//! crate does.

use vstd::prelude::*;

verus! {

/// `bytes::BytesMut`, a growable buffer of bytes. Nothing is known of a
/// value but what `contents` says.
#[verifier::external_type_specification]
#[verifier::external_body]
pub struct ExBytesMut(bytes::BytesMut);

/// The bytes that a buffer holds, in order.
pub uninterp spec fn contents(b: bytes::BytesMut) -> Seq<u8>;

/// `BytesMut::new`: an empty buffer.
#[verifier::external_body]
pub(crate) fn buf_new() -> (b: bytes::BytesMut)
    ensures
        contents(b) == Seq::<u8>::empty(),
{
    bytes::BytesMut::new()
}

/// `BytesMut::with_capacity`: an empty buffer; the capacity does not show
/// in its contents.
#[verifier::external_body]
pub(crate) fn buf_with_capacity(capacity: usize) -> (b: bytes::BytesMut)
    ensures
        contents(b) == Seq::<u8>::empty(),
{
    bytes::BytesMut::with_capacity(capacity)
}

/// `BufMut::put_u8` on a `BytesMut`: appends one byte, growing the buffer
/// as needed. It panics only when the new length overflows.
#[verifier::external_body]
pub(crate) fn buf_put_u8(b: &mut bytes::BytesMut, x: u8)
    requires
        contents(*old(b)).len() < isize::MAX,
    ensures
        contents(*final(b)) == contents(*old(b)).push(x),
{
    bytes::BufMut::put_u8(b, x)
}

/// `BytesMut::len`: the number of bytes held.
#[verifier::external_body]
pub(crate) fn buf_len(b: &bytes::BytesMut) -> (n: usize)
    ensures
        n == contents(*b).len(),
{
    b.len()
}

/// Indexing a `BytesMut` (through its `Deref` to a slice): the byte at `i`.
#[verifier::external_body]
pub(crate) fn buf_get(b: &bytes::BytesMut, i: usize) -> (x: u8)
    requires
        i < contents(*b).len(),
    ensures
        x == contents(*b)[i as int],
{
    b[i]
}

/// Assigning through an index of a `BytesMut` (its `DerefMut` to a slice):
/// replaces the byte at `i` and nothing else.
#[verifier::external_body]
pub(crate) fn buf_set(b: &mut bytes::BytesMut, i: usize, x: u8)
    requires
        i < contents(*old(b)).len(),
    ensures
        contents(*final(b)) == contents(*old(b)).update(i as int, x),
{
    b[i] = x;
}

/// `BytesMut::as_ref`: the held bytes as a slice.
#[verifier::external_body]
pub(crate) fn buf_as_slice(b: &bytes::BytesMut) -> (s: &[u8])
    ensures
        s@ == contents(*b),
{
    b.as_ref()
}

/// `BytesMut::from(&[u8])`: a fresh buffer holding a copy of the slice.
#[verifier::external_body]
pub(crate) fn buf_from_slice(s: &[u8]) -> (b: bytes::BytesMut)
    ensures
        contents(b) == s@,
{
    bytes::BytesMut::from(s)
}

/// `BytesMut::capacity`: how many bytes fit without reallocating, which is
/// never less than the length.
#[verifier::external_body]
pub(crate) fn buf_capacity(b: &bytes::BytesMut) -> (n: usize)
    ensures
        n >= contents(*b).len(),
{
    b.capacity()
}

} // verus!
