//! The byte buffers of the `bytes` crate, as the rest of the library sees them.
//!
//! A `Bytes` and a `BytesMut` stand for the bytes that they hold. Everything that the library
//! takes for granted about the crate is written down here.
use crate::endian;
use bytes::{Buf, BufMut, Bytes, BytesMut};
use vstd::prelude::*;

verus! {

/// `bytes::Bytes`: a cheaply cloned, immutable run of bytes.
#[verifier::external_type_specification]
#[verifier::external_body]
pub struct ExBytes(bytes::Bytes);

/// `bytes::BytesMut`: a growing run of bytes.
#[verifier::external_type_specification]
#[verifier::external_body]
pub struct ExBytesMut(bytes::BytesMut);

/// What a `Bytes` holds.
pub uninterp spec fn bytes_of(b: Bytes) -> Seq<u8>;

/// What a `BytesMut` holds.
pub uninterp spec fn buf_of(b: BytesMut) -> Seq<u8>;

/// The largest size to which a `BytesMut` is grown here. An allocation cannot exceed
/// `isize::MAX` bytes, and a vector that grows may double its capacity.
pub open spec fn buffer_limit() -> int {
    (usize::MAX / 4) as int
}

/// `Bytes::new`: no bytes.
pub assume_specification[ Bytes::new ]() -> (r: Bytes)
    ensures
        bytes_of(r) == Seq::<u8>::empty(),
;

/// `Bytes::len`: how many bytes are held. They form a slice, so there are at most
/// `isize::MAX` of them.
pub assume_specification[ Bytes::len ](b: &Bytes) -> (n: usize)
    ensures
        n == bytes_of(*b).len(),
        n <= isize::MAX,
;

/// `Bytes::split_to`: takes the first `at` bytes off and returns them.
pub assume_specification[ Bytes::split_to ](b: &mut Bytes, at: usize) -> (head: Bytes)
    requires
        at <= bytes_of(*old(b)).len(),
    ensures
        bytes_of(head) == bytes_of(*old(b)).take(at as int),
        bytes_of(*final(b)) == bytes_of(*old(b)).skip(at as int),
;

/// `Bytes::slice` on the range from `start` to `end`: a handle on those bytes.
#[verifier::external_body]
pub(crate) fn slice(b: &Bytes, start: usize, end: usize) -> (r: Bytes)
    requires
        start <= end <= bytes_of(*b).len(),
    ensures
        bytes_of(r) == bytes_of(*b).subrange(start as int, end as int),
{
    b.slice(start..end)
}

/// `Bytes::clone`: another handle on the same bytes.
#[verifier::external_body]
pub(crate) fn share(b: &Bytes) -> (r: Bytes)
    ensures
        bytes_of(r) == bytes_of(*b),
{
    b.clone()
}

/// `Buf::get_u8` on `Bytes`: takes one byte off the front.
#[verifier::external_body]
pub(crate) fn get_u8(b: &mut Bytes) -> (v: u8)
    requires
        bytes_of(*old(b)).len() >= 1,
    ensures
        v == bytes_of(*old(b))[0],
        bytes_of(*final(b)) == bytes_of(*old(b)).skip(1),
{
    b.get_u8()
}

/// `Buf::get_u16_le` on `Bytes`: takes a little-endian number of two bytes off the front.
#[verifier::external_body]
pub(crate) fn get_u16_le(b: &mut Bytes) -> (v: u16)
    requires
        bytes_of(*old(b)).len() >= 2,
    ensures
        v as nat == endian::le_value(bytes_of(*old(b)).take(2)),
        bytes_of(*final(b)) == bytes_of(*old(b)).skip(2),
{
    b.get_u16_le()
}

/// `Buf::get_u32_le` on `Bytes`: takes a little-endian number of four bytes off the front.
#[verifier::external_body]
pub(crate) fn get_u32_le(b: &mut Bytes) -> (v: u32)
    requires
        bytes_of(*old(b)).len() >= 4,
    ensures
        v as nat == endian::le_value(bytes_of(*old(b)).take(4)),
        bytes_of(*final(b)) == bytes_of(*old(b)).skip(4),
{
    b.get_u32_le()
}

/// `BytesMut::with_capacity`: an empty buffer. How much room it has is not stated.
pub assume_specification[ BytesMut::with_capacity ](capacity: usize) -> (r: BytesMut)
    requires
        capacity <= buffer_limit(),
    ensures
        buf_of(r) == Seq::<u8>::empty(),
;

/// `BytesMut::len`: how many bytes are held.
pub assume_specification[ BytesMut::len ](b: &BytesMut) -> (n: usize)
    ensures
        n == buf_of(*b).len(),
;

/// `BytesMut::split_to`: takes the first `at` bytes off and returns them.
pub assume_specification[ BytesMut::split_to ](b: &mut BytesMut, at: usize) -> (head: BytesMut)
    requires
        at <= buf_of(*old(b)).len(),
    ensures
        buf_of(head) == buf_of(*old(b)).take(at as int),
        buf_of(*final(b)) == buf_of(*old(b)).skip(at as int),
;

/// `BytesMut::freeze`: the same bytes, immutable.
pub assume_specification[ BytesMut::freeze ](b: BytesMut) -> (r: Bytes)
    ensures
        bytes_of(r) == buf_of(b),
;

/// `BytesMut::clear`: drops every byte.
pub assume_specification[ BytesMut::clear ](b: &mut BytesMut)
    ensures
        buf_of(*final(b)) == Seq::<u8>::empty(),
;

/// `BufMut::put_u8` on `BytesMut`: appends one byte.
#[verifier::external_body]
pub(crate) fn put_u8(b: &mut BytesMut, v: u8)
    requires
        buf_of(*old(b)).len() + 1 <= buffer_limit(),
    ensures
        buf_of(*final(b)) == buf_of(*old(b)) + seq![v],
{
    b.put_u8(v)
}

/// `BufMut::put_u16_le` on `BytesMut`: appends a number as two bytes, little-endian.
#[verifier::external_body]
pub(crate) fn put_u16_le(b: &mut BytesMut, v: u16)
    requires
        buf_of(*old(b)).len() + 2 <= buffer_limit(),
    ensures
        buf_of(*final(b)) == buf_of(*old(b)) + endian::le_bytes(v as nat, 2),
{
    b.put_u16_le(v)
}

/// `BufMut::put_u32_le` on `BytesMut`: appends a number as four bytes, little-endian.
#[verifier::external_body]
pub(crate) fn put_u32_le(b: &mut BytesMut, v: u32)
    requires
        buf_of(*old(b)).len() + 4 <= buffer_limit(),
    ensures
        buf_of(*final(b)) == buf_of(*old(b)) + endian::le_bytes(v as nat, 4),
{
    b.put_u32_le(v)
}

/// `BytesMut::extend_from_slice` on what a `Bytes` holds: appends those bytes.
#[verifier::external_body]
pub(crate) fn extend(b: &mut BytesMut, more: &Bytes)
    requires
        buf_of(*old(b)).len() + bytes_of(*more).len() <= buffer_limit(),
    ensures
        buf_of(*final(b)) == buf_of(*old(b)) + bytes_of(*more),
{
    b.extend_from_slice(more)
}

} // verus!
