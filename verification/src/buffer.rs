//! The byte buffers of the `bytes` crate, as the codec and the deserializer
//! see them.
//!
//! Verus cannot look inside a `BytesMut` or a `Bytes`; the functions in this
//! file are the only places where one is touched, and their contracts are taken
//! on trust from the `bytes` sources.

use vstd::prelude::*;

verus! {

/// `bytes::BytesMut`, a growable buffer, taken as it is: nothing is known
/// of a value but what the functions below say.
#[verifier::external_type_specification]
#[verifier::external_body]
pub struct ExBytesMut(bytes::BytesMut);

/// The bytes that a `BytesMut` currently holds, first to last.
pub uninterp spec fn buffer_bytes(buf: bytes::BytesMut) -> Seq<u8>;

/// `bytes::Bytes`, a shared slice of bytes, taken as it is.
#[verifier::external_type_specification]
#[verifier::external_body]
pub struct ExBytes(bytes::Bytes);

/// The bytes that a `Bytes` holds, first to last.
pub uninterp spec fn shared_bytes(buf: bytes::Bytes) -> Seq<u8>;

/// The two bytes of `n` in network (big-endian) order.
pub open spec fn be16(n: int) -> Seq<u8> {
    seq![(n / 256) as u8, (n % 256) as u8]
}

/// `BytesMut::len`: the number of bytes held.
#[verifier::external_body]
pub(crate) fn buffer_len(buf: &bytes::BytesMut) -> (n: usize)
    ensures
        n == buffer_bytes(*buf).len(),
{
    buf.len()
}

/// Indexing through `Deref<Target = [u8]>`: the byte at position `i`.
#[verifier::external_body]
pub(crate) fn buffer_byte(buf: &bytes::BytesMut, i: usize) -> (b: u8)
    requires
        i < buffer_bytes(*buf).len(),
    ensures
        b == buffer_bytes(*buf)[i as int],
{
    buf[i]
}

/// `Buf::advance` on a `BytesMut`: drops the first `n` bytes. It panics past
/// the end, which the precondition rules out.
#[verifier::external_body]
pub(crate) fn buffer_advance(buf: &mut bytes::BytesMut, n: usize)
    requires
        n <= buffer_bytes(*old(buf)).len(),
    ensures
        buffer_bytes(*final(buf)) == buffer_bytes(*old(buf)).skip(n as int),
{
    bytes::Buf::advance(buf, n)
}

/// `BytesMut::split_to`: hands out the first `n` bytes, here copied into a
/// `Vec`, and keeps the rest. It panics past the end, which the precondition
/// rules out.
#[verifier::external_body]
pub(crate) fn buffer_split_to(buf: &mut bytes::BytesMut, n: usize) -> (head: Vec<u8>)
    requires
        n <= buffer_bytes(*old(buf)).len(),
    ensures
        head@ == buffer_bytes(*old(buf)).take(n as int),
        buffer_bytes(*final(buf)) == buffer_bytes(*old(buf)).skip(n as int),
{
    buf.split_to(n).to_vec()
}

/// `BufMut::put_u16` on a `BytesMut`: appends `n` as two big-endian bytes.
#[verifier::external_body]
pub(crate) fn buffer_put_u16(buf: &mut bytes::BytesMut, n: u16)
    ensures
        buffer_bytes(*final(buf)) == buffer_bytes(*old(buf)) + be16(n as int),
{
    bytes::BufMut::put_u16(buf, n)
}

/// `BytesMut::extend_from_slice`: appends the bytes of `src`.
#[verifier::external_body]
pub(crate) fn buffer_extend(buf: &mut bytes::BytesMut, src: &[u8])
    ensures
        buffer_bytes(*final(buf)) == buffer_bytes(*old(buf)) + src@,
{
    buf.extend_from_slice(src)
}

/// `Bytes::from` a `Vec<u8>`: the same bytes, shared.
#[verifier::external_body]
pub(crate) fn shared_from_vec(bytes: Vec<u8>) -> (buf: bytes::Bytes)
    ensures
        shared_bytes(buf) == bytes@,
{
    bytes::Bytes::from(bytes)
}

/// `Deref` of a `Bytes`: its bytes as a slice.
#[verifier::external_body]
pub(crate) fn shared_slice<'a>(buf: &'a bytes::Bytes) -> (slice: &'a [u8])
    ensures
        slice@ == shared_bytes(*buf),
{
    buf
}

/// `Buf::advance` on a `Bytes`: drops the first `n` bytes. It panics past
/// the end, which the precondition rules out.
#[verifier::external_body]
pub(crate) fn shared_advance(buf: &mut bytes::Bytes, n: usize)
    requires
        n <= shared_bytes(*old(buf)).len(),
    ensures
        shared_bytes(*final(buf)) == shared_bytes(*old(buf)).skip(n as int),
{
    bytes::Buf::advance(buf, n)
}

/// `Bytes::split_to`: hands out the first `n` bytes and keeps the rest. It
/// panics past the end, which the precondition rules out.
#[verifier::external_body]
pub(crate) fn shared_split_to(buf: &mut bytes::Bytes, n: usize) -> (head: bytes::Bytes)
    requires
        n <= shared_bytes(*old(buf)).len(),
    ensures
        shared_bytes(head) == shared_bytes(*old(buf)).take(n as int),
        shared_bytes(*final(buf)) == shared_bytes(*old(buf)).skip(n as int),
{
    buf.split_to(n)
}

/// `Bytes::clear`: drops all bytes.
#[verifier::external_body]
pub(crate) fn shared_clear(buf: &mut bytes::Bytes)
    ensures
        shared_bytes(*final(buf)) == Seq::<u8>::empty(),
{
    buf.clear()
}

/// `BufMut::put_u16` on a `Vec<u8>`: appends `n` as two big-endian bytes.
#[verifier::external_body]
pub(crate) fn vec_put_u16(out: &mut Vec<u8>, n: u16)
    ensures
        final(out)@ == old(out)@ + be16(n as int),
{
    bytes::BufMut::put_u16(out, n)
}

} // verus!
