use vstd::prelude::*;

use crate::UDP_BUFFER_SIZE;

verus! {

#[verifier::external_type_specification]
#[verifier::external_body]
pub struct ExBytesMut(bytes::BytesMut);

#[verifier::external_type_specification]
#[verifier::external_body]
pub struct ExBytes(bytes::Bytes);

/// The bytes a `bytes::BytesMut` currently holds, oldest first.
pub uninterp spec fn bytes_mut_data(b: bytes::BytesMut) -> Seq<u8>;

/// The number of bytes a `bytes::BytesMut` can hold without
/// reallocating, data already held included.
pub uninterp spec fn bytes_mut_cap(b: bytes::BytesMut) -> nat;

/// The bytes a `bytes::Bytes` view holds.
pub uninterp spec fn bytes_data(b: bytes::Bytes) -> Seq<u8>;

/// Relies on bytes::BytesMut::with_capacity: the new buffer holds no
/// data and has room for at least `c` bytes.
#[verifier::external_body]
fn buf_with_capacity(c: usize) -> (b: bytes::BytesMut)
    requires
        c <= usize::MAX / 2,
    ensures
        bytes_mut_data(b) == Seq::<u8>::empty(),
        bytes_mut_cap(b) >= c,
{
    bytes::BytesMut::with_capacity(c)
}

/// Relies on bytes::BytesMut::len: the number of bytes contained.
#[verifier::external_body]
fn buf_len(b: &bytes::BytesMut) -> (n: usize)
    ensures
        n == bytes_mut_data(*b).len(),
{
    b.len()
}

/// Relies on bytes::BytesMut::capacity: the bytes it can hold without
/// reallocating, which is never less than what it already holds.
#[verifier::external_body]
fn buf_capacity(b: &bytes::BytesMut) -> (n: usize)
    ensures
        n == bytes_mut_cap(*b),
        n >= bytes_mut_data(*b).len(),
{
    b.capacity()
}

/// Relies on bytes::BytesMut::reserve: afterwards the capacity covers
/// the data plus `additional` more bytes; the data itself is untouched.
#[verifier::external_body]
fn buf_reserve(b: &mut bytes::BytesMut, additional: usize)
    requires
        bytes_mut_data(*old(b)).len() + additional <= usize::MAX,
    ensures
        bytes_mut_data(*final(b)) == bytes_mut_data(*old(b)),
        bytes_mut_cap(*final(b)) >= bytes_mut_data(*old(b)).len() + additional,
{
    b.reserve(additional)
}

/// Relies on bytes::Buf::copy_to_bytes on BytesMut (split_to + freeze):
/// the returned view carries the first `len` bytes, the buffer keeps
/// the rest.
#[verifier::external_body]
fn buf_split(b: &mut bytes::BytesMut, len: usize) -> (chunk: bytes::Bytes)
    requires
        len <= bytes_mut_data(*old(b)).len(),
    ensures
        bytes_data(chunk) == bytes_mut_data(*old(b)).take(len as int),
        bytes_mut_data(*final(b)) == bytes_mut_data(*old(b)).skip(len as int),
{
    bytes::Buf::copy_to_bytes(b, len)
}

/// Relies on bytes::Bytes dereferencing to its byte slice: the copy
/// holds exactly the bytes of the view.
#[verifier::external_body]
fn bytes_to_vec(b: &bytes::Bytes) -> (v: Vec<u8>)
    ensures
        v@ == bytes_data(*b),
{
    b.as_ref().to_vec()
}

/// The growable receive buffer: one backing allocation per receive
/// cycle, out of which each received datagram is carved as an
/// independent immutable view. The raw buffer is exposed so that the
/// receive call can fill its unused tail directly.
pub struct PacketBuffer {
    pub buf: bytes::BytesMut,
}

impl PacketBuffer {
    /// The bytes received into the buffer and not yet carved off.
    pub open spec fn data(self) -> Seq<u8> {
        bytes_mut_data(self.buf)
    }

    /// The buffer's current capacity, held data included.
    pub open spec fn room(self) -> nat {
        bytes_mut_cap(self.buf)
    }

    /// A fresh buffer sized for several maximum-size datagrams.
    pub fn new() -> (r: PacketBuffer)
        ensures
            r.data() == Seq::<u8>::empty(),
            r.room() >= 3 * UDP_BUFFER_SIZE,
    {
        PacketBuffer { buf: buf_with_capacity(3 * UDP_BUFFER_SIZE) }
    }

    pub fn len(&self) -> (n: usize)
        ensures
            n == self.data().len(),
    {
        buf_len(&self.buf)
    }

    pub fn capacity(&self) -> (n: usize)
        ensures
            n == self.room(),
            n >= self.data().len(),
    {
        buf_capacity(&self.buf)
    }

    /// The capacity watermark of the receive loop: when the spare room
    /// falls below one receive unit, grow the buffer by several units,
    /// so that the next receive always finds room for a full datagram.
    pub fn prepare(&mut self)
        ensures
            final(self).data() == old(self).data(),
            final(self).room() >= UDP_BUFFER_SIZE,
    {
        let cap = buf_capacity(&self.buf);
        if cap < UDP_BUFFER_SIZE {
            buf_reserve(&mut self.buf, 3 * UDP_BUFFER_SIZE);
        }
    }

    /// Carves the `len` bytes just received off the front of the buffer
    /// as an independent immutable chunk, leaving the rest of the
    /// buffer for the next receive.
    pub fn carve(&mut self, len: usize) -> (chunk: bytes::Bytes)
        requires
            len <= old(self).data().len(),
        ensures
            bytes_data(chunk) == old(self).data().take(len as int),
            final(self).data() == old(self).data().skip(len as int),
    {
        buf_split(&mut self.buf, len)
    }
}

/// One read of a received chunk into a destination of capacity
/// `dest_cap`: at most `dest_cap` bytes are handed over, and whatever
/// did not fit is discarded with the chunk.
pub fn copy_truncated(chunk: &bytes::Bytes, dest_cap: usize) -> (out: Vec<u8>)
    ensures
        out@ == crate::chunkq::trunc(bytes_data(*chunk), dest_cap as nat),
{
    let mut v = bytes_to_vec(chunk);
    v.truncate(dest_cap);
    v
}

} // verus!
