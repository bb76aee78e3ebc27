//! Byte buffers of the `bytes` crate, and what each of their operations does
//! to the bytes they hold.

use bytes::{Buf, BufMut, Bytes, BytesMut};
use vstd::prelude::*;

use crate::wire::{be16, be64};

verus! {

/// `bytes::BytesMut`: a growable byte buffer.
#[verifier::external_type_specification]
#[verifier::external_body]
pub struct ExBytesMut(BytesMut);

/// `bytes::Bytes`: a shared, immutable slice of bytes.
#[verifier::external_type_specification]
#[verifier::external_body]
pub struct ExBytes(Bytes);

/// The bytes that a `BytesMut` holds, first to last.
pub uninterp spec fn held(buffer: BytesMut) -> Seq<u8>;

/// The bytes that a `Bytes` holds, first to last.
pub uninterp spec fn content(chunk: Bytes) -> Seq<u8>;

/// `BytesMut::new` makes an empty buffer.
pub assume_specification[ BytesMut::new ]() -> (buffer: BytesMut)
    ensures
        held(buffer) == Seq::<u8>::empty(),
;

/// `BytesMut::len` counts the bytes held.
pub assume_specification[ BytesMut::len ](buffer: &BytesMut) -> (n: usize)
    ensures
        n == held(*buffer).len(),
;

/// `BytesMut::is_empty` tells whether no byte is held.
pub assume_specification[ BytesMut::is_empty ](buffer: &BytesMut) -> (b: bool)
    ensures
        b == (held(*buffer).len() == 0),
;

/// `BytesMut::extend_from_slice` appends the slice.
pub assume_specification[ BytesMut::extend_from_slice ](buffer: &mut BytesMut, extend: &[u8])
    ensures
        held(*final(buffer)) == held(*old(buffer)) + extend@,
;

/// `BytesMut::split_to` takes the first `at` bytes out; it panics past the end.
pub assume_specification[ BytesMut::split_to ](buffer: &mut BytesMut, at: usize) -> (head: BytesMut)
    requires
        at <= held(*old(buffer)).len(),
    ensures
        held(head) == held(*old(buffer)).take(at as int),
        held(*final(buffer)) == held(*old(buffer)).skip(at as int),
;

/// `BytesMut::split` takes every byte out and leaves the buffer empty.
pub assume_specification[ BytesMut::split ](buffer: &mut BytesMut) -> (all: BytesMut)
    ensures
        held(all) == held(*old(buffer)),
        held(*final(buffer)) == Seq::<u8>::empty(),
;

/// `BytesMut::unsplit` appends the other buffer's bytes.
pub assume_specification[ BytesMut::unsplit ](buffer: &mut BytesMut, other: BytesMut)
    ensures
        held(*final(buffer)) == held(*old(buffer)) + held(other),
;

/// `BytesMut::freeze` keeps the bytes.
pub assume_specification[ BytesMut::freeze ](buffer: BytesMut) -> (chunk: Bytes)
    ensures
        content(chunk) == held(buffer),
;

/// `Bytes::new` makes an empty chunk.
pub assume_specification[ Bytes::new ]() -> (chunk: Bytes)
    ensures
        content(chunk) == Seq::<u8>::empty(),
;

/// `Bytes::copy_from_slice` copies the slice.
pub assume_specification[ Bytes::copy_from_slice ](data: &[u8]) -> (chunk: Bytes)
    ensures
        content(chunk) == data@,
;

/// `Bytes::len` counts the bytes held.
pub assume_specification[ Bytes::len ](chunk: &Bytes) -> (n: usize)
    ensures
        n == content(*chunk).len(),
;

/// `Bytes::is_empty` tells whether no byte is held.
pub assume_specification[ Bytes::is_empty ](chunk: &Bytes) -> (b: bool)
    ensures
        b == (content(*chunk).len() == 0),
;

/// `Bytes::split_to` takes the first `at` bytes out; it panics past the end.
pub assume_specification[ Bytes::split_to ](chunk: &mut Bytes, at: usize) -> (head: Bytes)
    requires
        at <= content(*old(chunk)).len(),
    ensures
        content(head) == content(*old(chunk)).take(at as int),
        content(*final(chunk)) == content(*old(chunk)).skip(at as int),
;

/// `Buf::advance` on a `BytesMut` drops the first `count` bytes; it panics
/// past the end.
#[verifier::external_body]
pub(crate) fn advance(buffer: &mut BytesMut, count: usize)
    requires
        count <= held(*old(buffer)).len(),
    ensures
        held(*final(buffer)) == held(*old(buffer)).skip(count as int),
{
    buffer.advance(count)
}

/// `Buf::advance` on a `Bytes` drops the first `count` bytes; it panics past
/// the end.
#[verifier::external_body]
pub(crate) fn advance_chunk(chunk: &mut Bytes, count: usize)
    requires
        count <= content(*old(chunk)).len(),
    ensures
        content(*final(chunk)) == content(*old(chunk)).skip(count as int),
{
    chunk.advance(count)
}

/// `Deref` of `BytesMut`: its bytes as a slice.
#[verifier::external_body]
pub(crate) fn as_slice(buffer: &BytesMut) -> (slice: &[u8])
    ensures
        slice@ == held(*buffer),
{
    &buffer[..]
}

/// `DerefMut` of `BytesMut`: one byte replaced in place; it panics past the
/// end.
#[verifier::external_body]
pub(crate) fn set_byte(buffer: &mut BytesMut, index: usize, value: u8)
    requires
        index < held(*old(buffer)).len(),
    ensures
        held(*final(buffer)) == held(*old(buffer)).update(index as int, value),
{
    buffer[index] = value;
}

/// `Deref` of `Bytes`: its bytes as a slice.
#[verifier::external_body]
pub(crate) fn chunk_slice(chunk: &Bytes) -> (slice: &[u8])
    ensures
        slice@ == content(*chunk),
{
    &chunk[..]
}

/// `BufMut::put_u8` on a `BytesMut` appends one byte.
#[verifier::external_body]
pub(crate) fn put_u8(buffer: &mut BytesMut, n: u8)
    ensures
        held(*final(buffer)) == held(*old(buffer)).push(n),
{
    buffer.put_u8(n)
}

/// `BufMut::put_u16` on a `BytesMut` appends two bytes, most significant first.
#[verifier::external_body]
pub(crate) fn put_u16(buffer: &mut BytesMut, n: u16)
    ensures
        held(*final(buffer)) == held(*old(buffer)) + be16(n),
{
    buffer.put_u16(n)
}

/// `BufMut::put_u64` on a `BytesMut` appends eight bytes, most significant
/// first.
#[verifier::external_body]
pub(crate) fn put_u64(buffer: &mut BytesMut, n: u64)
    ensures
        held(*final(buffer)) == held(*old(buffer)) + be64(n),
{
    buffer.put_u64(n)
}

} // verus!
