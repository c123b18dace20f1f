//! Byte buffers of the `bytes` crate: what they hold, and the calls that the codec makes on them.
//!
//! Each function here hands one call to `bytes`. What its contract claims of that call is
//! taken from the crate's source and is not proved. That memory runs out is left aside.
use bytes::{Buf, BufMut, Bytes, BytesMut};
use vstd::prelude::*;

use crate::wire::{be_bytes, be_value, bits_i64, i64_bits, le_bytes, le_value};

verus! {

/// A cheaply cloned, shared run of bytes.
#[verifier::external_type_specification]
#[verifier::external_body]
pub struct ExBytes(bytes::Bytes);

/// A growable run of bytes that is read from its front and written at its back.
#[verifier::external_type_specification]
#[verifier::external_body]
pub struct ExBytesMut(bytes::BytesMut);

/// The bytes that a `Bytes` holds.
pub uninterp spec fn bytes_contents(b: Bytes) -> Seq<u8>;

/// The bytes that a `BytesMut` holds and that have not been read yet.
pub uninterp spec fn bytes_mut_contents(b: BytesMut) -> Seq<u8>;

/// What a handle on bytes holds.
pub trait Contents {
    /// The bytes, in order.
    spec fn seq(&self) -> Seq<u8>;
}

impl Contents for Bytes {
    open spec fn seq(&self) -> Seq<u8> {
        bytes_contents(*self)
    }
}

impl Contents for BytesMut {
    open spec fn seq(&self) -> Seq<u8> {
        bytes_mut_contents(*self)
    }
}

/// A run of bytes that a frame can carry as its body.
pub trait Body: Sized + Contents {
    /// How many bytes there are.
    fn body_len(&self) -> (r: usize)
        ensures
            r == self.seq().len(),
    ;

    /// Appends the bytes to `buf`.
    fn put_into(self, buf: &mut BytesMut)
        ensures
            final(buf).seq() == old(buf).seq() + self.seq(),
    ;

    /// A second handle on the same bytes.
    fn share(&self) -> (r: Self)
        ensures
            r.seq() == self.seq(),
    ;
}

impl Body for Bytes {
    fn body_len(&self) -> (r: usize) {
        bytes_len(self)
    }

    fn put_into(self, buf: &mut BytesMut) {
        put_bytes(buf, self)
    }

    fn share(&self) -> (r: Self) {
        self.clone()
    }
}

impl Body for BytesMut {
    fn body_len(&self) -> (r: usize) {
        remaining(self)
    }

    fn put_into(self, buf: &mut BytesMut) {
        put_bytes_mut(buf, self)
    }

    fn share(&self) -> (r: Self) {
        clone_bytes_mut(self)
    }
}

/// `BytesMut::new`: a buffer with nothing in it.
#[verifier::external_body]
pub(crate) fn new_buf() -> (r: BytesMut)
    ensures
        bytes_mut_contents(r) == Seq::<u8>::empty(),
{
    BytesMut::new()
}

/// `Buf::remaining` of `BytesMut`: the number of bytes left to read.
#[verifier::external_body]
pub(crate) fn remaining(buf: &BytesMut) -> (r: usize)
    ensures
        r == bytes_mut_contents(*buf).len(),
{
    buf.remaining()
}

/// `Buf::chunk` of `BytesMut`, whose storage is one piece: all the bytes left to read.
#[verifier::external_body]
pub(crate) fn chunk(buf: &BytesMut) -> (r: &[u8])
    ensures
        r@ == bytes_mut_contents(*buf),
{
    buf.chunk()
}

/// `BytesMut::clear`: drops every byte.
#[verifier::external_body]
pub(crate) fn clear(buf: &mut BytesMut)
    ensures
        bytes_mut_contents(*final(buf)) == Seq::<u8>::empty(),
{
    buf.clear()
}

/// `Buf::advance` of `BytesMut`: skips `cnt` bytes at the front. It panics where there are fewer.
#[verifier::external_body]
pub(crate) fn advance(buf: &mut BytesMut, cnt: usize)
    requires
        cnt <= bytes_mut_contents(*old(buf)).len(),
    ensures
        bytes_mut_contents(*final(buf)) == bytes_mut_contents(*old(buf)).skip(cnt as int),
{
    buf.advance(cnt)
}

/// `Buf::get_u8` of `BytesMut`: takes one byte off the front. It panics on an empty buffer.
#[verifier::external_body]
pub(crate) fn get_u8(buf: &mut BytesMut) -> (r: u8)
    requires
        bytes_mut_contents(*old(buf)).len() >= 1,
    ensures
        r == bytes_mut_contents(*old(buf))[0],
        bytes_mut_contents(*final(buf)) == bytes_mut_contents(*old(buf)).skip(1),
{
    buf.get_u8()
}

/// `Buf::get_u16` of `BytesMut`: takes 2 bytes off the front and reads them as a big-endian
/// integer. It panics where there are fewer.
#[verifier::external_body]
pub(crate) fn get_u16(buf: &mut BytesMut) -> (r: u16)
    requires
        bytes_mut_contents(*old(buf)).len() >= 2,
    ensures
        r == be_value(bytes_mut_contents(*old(buf)).take(2)),
        bytes_mut_contents(*final(buf)) == bytes_mut_contents(*old(buf)).skip(2),
{
    buf.get_u16()
}

/// `Buf::get_u32` of `BytesMut`: takes 4 bytes off the front and reads them as a big-endian
/// integer. It panics where there are fewer.
#[verifier::external_body]
pub(crate) fn get_u32(buf: &mut BytesMut) -> (r: u32)
    requires
        bytes_mut_contents(*old(buf)).len() >= 4,
    ensures
        r == be_value(bytes_mut_contents(*old(buf)).take(4)),
        bytes_mut_contents(*final(buf)) == bytes_mut_contents(*old(buf)).skip(4),
{
    buf.get_u32()
}

/// `Buf::get_u64` of `BytesMut`: takes 8 bytes off the front and reads them as a big-endian
/// integer. It panics where there are fewer.
#[verifier::external_body]
pub(crate) fn get_u64(buf: &mut BytesMut) -> (r: u64)
    requires
        bytes_mut_contents(*old(buf)).len() >= 8,
    ensures
        r == be_value(bytes_mut_contents(*old(buf)).take(8)),
        bytes_mut_contents(*final(buf)) == bytes_mut_contents(*old(buf)).skip(8),
{
    buf.get_u64()
}

/// `Buf::get_u128` of `BytesMut`: takes 16 bytes off the front and reads them as a big-endian
/// integer. It panics where there are fewer.
#[verifier::external_body]
pub(crate) fn get_u128(buf: &mut BytesMut) -> (r: u128)
    requires
        bytes_mut_contents(*old(buf)).len() >= 16,
    ensures
        r == be_value(bytes_mut_contents(*old(buf)).take(16)),
        bytes_mut_contents(*final(buf)) == bytes_mut_contents(*old(buf)).skip(16),
{
    buf.get_u128()
}

/// `Buf::get_i64` of `BytesMut`: takes 8 bytes off the front and reads them as a big-endian
/// integer in two's complement. It panics where there are fewer.
#[verifier::external_body]
pub(crate) fn get_i64(buf: &mut BytesMut) -> (r: i64)
    requires
        bytes_mut_contents(*old(buf)).len() >= 8,
    ensures
        r == bits_i64(be_value(bytes_mut_contents(*old(buf)).take(8))),
        bytes_mut_contents(*final(buf)) == bytes_mut_contents(*old(buf)).skip(8),
{
    buf.get_i64()
}

/// `Buf::get_uint_le` of `BytesMut`: takes `nbytes` bytes off the front and reads them as a
/// little-endian integer. It panics where there are fewer, or where `nbytes` is above 8.
#[verifier::external_body]
pub(crate) fn get_uint_le(buf: &mut BytesMut, nbytes: usize) -> (r: u64)
    requires
        nbytes <= 8,
        bytes_mut_contents(*old(buf)).len() >= nbytes,
    ensures
        r == le_value(bytes_mut_contents(*old(buf)).take(nbytes as int)),
        bytes_mut_contents(*final(buf)) == bytes_mut_contents(*old(buf)).skip(nbytes as int),
{
    buf.get_uint_le(nbytes)
}

/// `BytesMut::split_to`: takes the first `at` bytes off the front, as a buffer of their own. It
/// panics where there are fewer.
#[verifier::external_body]
pub(crate) fn split_to(buf: &mut BytesMut, at: usize) -> (r: BytesMut)
    requires
        at <= bytes_mut_contents(*old(buf)).len(),
    ensures
        bytes_mut_contents(r) == bytes_mut_contents(*old(buf)).take(at as int),
        bytes_mut_contents(*final(buf)) == bytes_mut_contents(*old(buf)).skip(at as int),
{
    buf.split_to(at)
}

/// `BytesMut::freeze`: the same bytes, as a shared handle.
#[verifier::external_body]
pub(crate) fn freeze(buf: BytesMut) -> (r: Bytes)
    ensures
        bytes_contents(r) == bytes_mut_contents(buf),
{
    buf.freeze()
}

/// `Clone` of `BytesMut`: a buffer with the same bytes.
#[verifier::external_body]
pub(crate) fn clone_bytes_mut(buf: &BytesMut) -> (r: BytesMut)
    ensures
        bytes_mut_contents(r) == bytes_mut_contents(*buf),
{
    buf.clone()
}

/// `BufMut::put_u8` of `BytesMut`: appends one byte.
#[verifier::external_body]
pub(crate) fn put_u8(buf: &mut BytesMut, n: u8)
    ensures
        bytes_mut_contents(*final(buf)) == bytes_mut_contents(*old(buf)).push(n),
{
    buf.put_u8(n)
}

/// `BufMut::put_u16` of `BytesMut`: appends the 2 bytes of `n`, most significant first.
#[verifier::external_body]
pub(crate) fn put_u16(buf: &mut BytesMut, n: u16)
    ensures
        bytes_mut_contents(*final(buf)) == bytes_mut_contents(*old(buf)) + be_bytes(n as nat, 2),
{
    buf.put_u16(n)
}

/// `BufMut::put_u32` of `BytesMut`: appends the 4 bytes of `n`, most significant first.
#[verifier::external_body]
pub(crate) fn put_u32(buf: &mut BytesMut, n: u32)
    ensures
        bytes_mut_contents(*final(buf)) == bytes_mut_contents(*old(buf)) + be_bytes(n as nat, 4),
{
    buf.put_u32(n)
}

/// `BufMut::put_u64` of `BytesMut`: appends the 8 bytes of `n`, most significant first.
#[verifier::external_body]
pub(crate) fn put_u64(buf: &mut BytesMut, n: u64)
    ensures
        bytes_mut_contents(*final(buf)) == bytes_mut_contents(*old(buf)) + be_bytes(n as nat, 8),
{
    buf.put_u64(n)
}

/// `BufMut::put_u128` of `BytesMut`: appends the 16 bytes of `n`, most significant first.
#[verifier::external_body]
pub(crate) fn put_u128(buf: &mut BytesMut, n: u128)
    ensures
        bytes_mut_contents(*final(buf)) == bytes_mut_contents(*old(buf)) + be_bytes(n as nat, 16),
{
    buf.put_u128(n)
}

/// `BufMut::put_i64` of `BytesMut`: appends the 8 bytes of `n` in two's complement, most
/// significant first.
#[verifier::external_body]
pub(crate) fn put_i64(buf: &mut BytesMut, n: i64)
    ensures
        bytes_mut_contents(*final(buf)) == bytes_mut_contents(*old(buf)) + be_bytes(i64_bits(n), 8),
{
    buf.put_i64(n)
}

/// `BufMut::put_uint_le` of `BytesMut`: appends the low `nbytes` bytes of `n`, least significant
/// first. It panics where `nbytes` is above 8.
#[verifier::external_body]
pub(crate) fn put_uint_le(buf: &mut BytesMut, n: u64, nbytes: usize)
    requires
        nbytes <= 8,
    ensures
        bytes_mut_contents(*final(buf)) == bytes_mut_contents(*old(buf)) + le_bytes(
            n as nat,
            nbytes as nat,
        ),
{
    buf.put_uint_le(n, nbytes)
}

/// `BufMut::put_slice` of `BytesMut`: appends the bytes of `src`.
#[verifier::external_body]
pub(crate) fn put_slice(buf: &mut BytesMut, src: &[u8])
    ensures
        bytes_mut_contents(*final(buf)) == bytes_mut_contents(*old(buf)) + src@,
{
    buf.put_slice(src)
}

/// `BufMut::put` of `BytesMut` with a `Bytes`: appends its bytes.
#[verifier::external_body]
pub(crate) fn put_bytes(buf: &mut BytesMut, src: Bytes)
    ensures
        bytes_mut_contents(*final(buf)) == bytes_mut_contents(*old(buf)) + bytes_contents(src),
{
    buf.put(src)
}

/// `BufMut::put` of `BytesMut` with a `BytesMut`: appends its bytes.
#[verifier::external_body]
pub(crate) fn put_bytes_mut(buf: &mut BytesMut, src: BytesMut)
    ensures
        bytes_mut_contents(*final(buf)) == bytes_mut_contents(*old(buf)) + bytes_mut_contents(src),
{
    buf.put(src)
}

/// `Bytes::len`: the number of bytes.
#[verifier::external_body]
pub(crate) fn bytes_len(b: &Bytes) -> (r: usize)
    ensures
        r == bytes_contents(*b).len(),
{
    b.len()
}

/// `Buf::chunk` of `Bytes`, whose storage is one piece: all its bytes.
#[verifier::external_body]
pub(crate) fn bytes_chunk(b: &Bytes) -> (r: &[u8])
    ensures
        r@ == bytes_contents(*b),
{
    b.chunk()
}

/// `Clone` of `Bytes`: a handle on the same bytes.
pub assume_specification[ <Bytes as Clone>::clone ](b: &Bytes) -> (r: Bytes)
    ensures
        bytes_contents(r) == bytes_contents(*b),
;

/// `Bytes::split_to`: takes the first `at` bytes off the front, as a handle of their own. It
/// panics where there are fewer.
#[verifier::external_body]
pub(crate) fn bytes_split_to(b: &mut Bytes, at: usize) -> (r: Bytes)
    requires
        at <= bytes_contents(*old(b)).len(),
    ensures
        bytes_contents(r) == bytes_contents(*old(b)).take(at as int),
        bytes_contents(*final(b)) == bytes_contents(*old(b)).skip(at as int),
{
    b.split_to(at)
}

/// `From<Bytes>` of `BytesMut`: a buffer with the same bytes.
#[verifier::external_body]
pub(crate) fn into_buf(b: Bytes) -> (r: BytesMut)
    ensures
        bytes_mut_contents(r) == bytes_contents(b),
{
    BytesMut::from(b)
}

} // verus!
