//! The byte buffer of the `bytes` crate, as the rest of the library sees it:
//! a sequence of bytes, read and cut through the functions below.

use bytes::Buf;
use bytes::BytesMut;
use vstd::prelude::*;

verus! {

/// `bytes::BytesMut`, carried through verified code as an opaque value.
#[verifier::external_type_specification]
#[verifier::external_body]
pub struct ExBytesMut(BytesMut);

/// The bytes that a `BytesMut` holds, in order.
pub uninterp spec fn buf_bytes(b: BytesMut) -> Seq<u8>;

/// Calls `BytesMut::with_capacity`: the new buffer holds no bytes.
/// Its `requires` leaves out capacities above `isize::MAX`, for which the
/// underlying `Vec::with_capacity` panics.
#[verifier::external_body]
pub(crate) fn buf_with_capacity(capacity: usize) -> (res: BytesMut)
    requires
        capacity <= isize::MAX,
    ensures
        buf_bytes(res) == Seq::<u8>::empty(),
{
    BytesMut::with_capacity(capacity)
}

/// Calls `<BytesMut as Deref>::deref`: the slice holds exactly the buffer's bytes.
#[verifier::external_body]
pub(crate) fn buf_as_slice(b: &BytesMut) -> (res: &[u8])
    ensures
        res@ == buf_bytes(*b),
{
    &**b
}

/// Calls `BytesMut::split_to`: the result holds the first `at` bytes and the
/// buffer keeps the rest. `split_to` panics when `at` exceeds the length,
/// which the `requires` leaves out.
#[verifier::external_body]
pub(crate) fn buf_split_to(b: &mut BytesMut, at: usize) -> (head: BytesMut)
    requires
        at <= buf_bytes(*old(b)).len(),
    ensures
        buf_bytes(head) == buf_bytes(*old(b)).subrange(0, at as int),
        buf_bytes(*final(b)) == buf_bytes(*old(b)).subrange(at as int, buf_bytes(*old(b)).len() as int),
{
    b.split_to(at)
}

/// Calls `<BytesMut as Buf>::advance`: the first `cnt` bytes are dropped.
/// `advance` panics when `cnt` exceeds the length, which the `requires` leaves out.
#[verifier::external_body]
pub(crate) fn buf_advance(b: &mut BytesMut, cnt: usize)
    requires
        cnt <= buf_bytes(*old(b)).len(),
    ensures
        buf_bytes(*final(b)) == buf_bytes(*old(b)).subrange(cnt as int, buf_bytes(*old(b)).len() as int),
{
    b.advance(cnt)
}

/// Calls `BytesMut::extend_from_slice`: the slice's bytes are appended.
/// Growing the buffer past `isize::MAX` bytes panics, which the `requires` leaves out.
#[verifier::external_body]
pub(crate) fn buf_extend(b: &mut BytesMut, data: &[u8])
    requires
        buf_bytes(*old(b)).len() + data@.len() <= isize::MAX,
    ensures
        buf_bytes(*final(b)) == buf_bytes(*old(b)) + data@,
{
    b.extend_from_slice(data)
}

} // verus!
