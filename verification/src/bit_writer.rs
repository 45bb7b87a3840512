use crate::bits::{be_bits, bits_of, bytes_of_bits, pad_to_byte};
use bitstream_io::{BigEndian, BitWrite, BitWriter};
use vstd::arithmetic::power2::pow2;
use vstd::prelude::*;

verus! {

/// A big-endian `bitstream_io::BitWriter` over a `Vec` of bytes.
#[verifier::external_body]
pub struct BitBuffer {
    inner: BitWriter<Vec<u8>, BigEndian>,
}

/// Every bit that was written to the buffer, in the order of writing: the bits
/// of the bytes that reached the `Vec`, then the bits of the byte that is
/// still being filled.
pub uninterp spec fn written_bits(w: BitBuffer) -> Seq<bool>;

/// `BitWriter::endian` over an empty `Vec`: a writer that holds no bit.
#[verifier::external_body]
fn new_bit_buffer() -> (w: BitBuffer)
    ensures
        written_bits(w) == Seq::<bool>::empty(),
{
    BitBuffer { inner: BitWriter::endian(Vec::new(), BigEndian) }
}

/// `BitWrite::write_bit`: appends one bit. Writing to a `Vec` does not fail.
#[verifier::external_body]
pub(crate) fn put_bit(w: &mut BitBuffer, bit: bool)
    ensures
        written_bits(*final(w)) == written_bits(*old(w)).push(bit),
{
    w.inner.write_bit(bit).expect("a Vec takes every write")
}

/// `BitWrite::write` of a `u64`: appends the `width` low bits of `value`, most
/// significant first. The call fails for a width above 64 and for a value
/// that has bits beyond the width; both are left out.
#[verifier::external_body]
pub(crate) fn put_bits(w: &mut BitBuffer, width: u32, value: u64)
    requires
        width <= 64,
        value < pow2(width as nat),
    ensures
        written_bits(*final(w)) == written_bits(*old(w)) + be_bits(value as nat, width as nat),
{
    w.inner.write(width, value).expect("a Vec takes every write")
}

/// `BitWrite::write_bytes`: appends the bits of each byte, most significant
/// first, at whatever bit position the writer stands.
#[verifier::external_body]
pub(crate) fn put_bytes(w: &mut BitBuffer, bytes: &[u8])
    ensures
        written_bits(*final(w)) == written_bits(*old(w)) + bits_of(bytes@),
{
    w.inner.write_bytes(bytes).expect("a Vec takes every write")
}

/// `BitWrite::byte_align`: appends zero bits up to the next byte boundary.
#[verifier::external_body]
pub(crate) fn pad_bits(w: &mut BitBuffer)
    ensures
        written_bits(*final(w)) == pad_to_byte(written_bits(*old(w))),
{
    w.inner.byte_align().expect("a Vec takes every write")
}

/// `BitWriter::into_writer`: the bytes that were completed; the bits of a
/// byte that is still being filled are dropped.
#[verifier::external_body]
fn into_bytes(w: BitBuffer) -> (bytes: Vec<u8>)
    ensures
        bytes@ == bytes_of_bits(written_bits(w)),
{
    w.inner.into_writer()
}

impl BitBuffer {
    /// A buffer that holds no bit.
    pub fn new() -> (w: BitBuffer)
        ensures
            written_bits(w) == Seq::<bool>::empty(),
    {
        new_bit_buffer()
    }

    /// The bytes that the written bits fill, eight bits to a byte, most
    /// significant first. Bits that do not fill a byte are dropped: pad first.
    pub fn into_bytes(self) -> (bytes: Vec<u8>)
        ensures
            bytes@ == bytes_of_bits(written_bits(self)),
    {
        into_bytes(self)
    }

    /// Appends zero bits up to the next byte boundary.
    pub fn byte_align(&mut self)
        ensures
            written_bits(*final(self)) == pad_to_byte(written_bits(*old(self))),
    {
        pad_bits(self)
    }
}

} // verus!
