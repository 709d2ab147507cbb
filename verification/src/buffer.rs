//! The byte buffer that messages are read from and written to.
//!
//! The buffer is a `bytes::BytesMut`: reading consumes bytes from its front
//! (as `bytes::Buf` does) and writing appends bytes at its end (as
//! `bytes::BufMut` does). What the buffer holds is named by
//! [`buffer_contents`]; every operation below is stated over that name.

use bytes::{Buf, BufMut, BytesMut};
use vstd::prelude::*;

verus! {

/// Makes `bytes::BytesMut` usable in signatures; its insides stay opaque.
#[verifier::external_type_specification]
#[verifier::external_body]
pub struct ExBytesMut(BytesMut);

/// The bytes that a buffer holds, from its read position to its end.
pub uninterp spec fn buffer_contents(buf: BytesMut) -> Seq<u8>;

/// `Buf::remaining` of `BytesMut`: the number of bytes that can still be read,
/// which the source of `bytes` defines as the buffer's length.
#[verifier::external_body]
pub(crate) fn remaining(buf: &BytesMut) -> (n: usize)
    ensures
        n == buffer_contents(*buf).len(),
{
    buf.remaining()
}

/// `Buf::get_u8` of `BytesMut`: returns the first byte and advances past it.
/// It panics on an empty buffer, which `requires` leaves out.
#[verifier::external_body]
pub(crate) fn get_u8(buf: &mut BytesMut) -> (b: u8)
    requires
        buffer_contents(*old(buf)).len() > 0,
    ensures
        b == buffer_contents(*old(buf))[0],
        buffer_contents(*final(buf)) == buffer_contents(*old(buf)).drop_first(),
{
    buf.get_u8()
}

/// `Buf::copy_to_slice` of `BytesMut` into a fresh vector of `n` bytes: the
/// vector receives the first `n` bytes and the buffer advances past them. It
/// panics when fewer than `n` bytes remain, which `requires` leaves out.
#[verifier::external_body]
pub(crate) fn copy_to_vec(buf: &mut BytesMut, n: usize) -> (v: Vec<u8>)
    requires
        n <= buffer_contents(*old(buf)).len(),
    ensures
        v@ == buffer_contents(*old(buf)).take(n as int),
        buffer_contents(*final(buf)) == buffer_contents(*old(buf)).skip(n as int),
{
    let mut v = vec![0u8; n];
    buf.copy_to_slice(&mut v);
    v
}

/// `BufMut::put_u8` of `BytesMut`: appends one byte. Growing past
/// `isize::MAX` bytes panics in the allocation, which `requires` leaves out.
#[verifier::external_body]
pub(crate) fn put_u8(buf: &mut BytesMut, b: u8)
    requires
        buffer_contents(*old(buf)).len() + 1 <= isize::MAX,
    ensures
        buffer_contents(*final(buf)) == buffer_contents(*old(buf)).push(b),
{
    buf.put_u8(b)
}

/// `BufMut::put_slice` of `BytesMut`: appends the bytes of `src`. Growing past
/// `isize::MAX` bytes panics in the allocation, which `requires` leaves out.
#[verifier::external_body]
pub(crate) fn put_slice(buf: &mut BytesMut, src: &[u8])
    requires
        buffer_contents(*old(buf)).len() + src@.len() <= isize::MAX,
    ensures
        buffer_contents(*final(buf)) == buffer_contents(*old(buf)) + src@,
{
    buf.put_slice(src)
}

/// The number of bytes that a buffer holds, from its read position to its end.
pub fn buffer_len(buf: &BytesMut) -> (n: usize)
    ensures
        n == buffer_contents(*buf).len(),
{
    remaining(buf)
}

} // verus!
