use crate::uvarint::uvarint_bytes;
use smallvec::SmallVec;
use vstd::prelude::*;

verus! {

/// A `smallvec::SmallVec` of bytes that keeps up to nine of them on the
/// stack: as many as the uvarint of a gap between two timestamps takes.
#[verifier::external_body]
pub struct UvarintBuffer {
    inner: SmallVec<u8, 9>,
}

/// The bytes that a buffer holds, in the order in which they were pushed.
pub uninterp spec fn buffered_bytes(buffer: UvarintBuffer) -> Seq<u8>;

/// `SmallVec::new`: a buffer that holds no byte.
#[verifier::external_body]
fn new_buffer() -> (buffer: UvarintBuffer)
    ensures
        buffered_bytes(buffer) == Seq::<u8>::empty(),
{
    UvarintBuffer { inner: SmallVec::new() }
}

/// `SmallVec::push`: appends one byte. The vector moves to the heap when
/// the stack has no room left.
#[verifier::external_body]
fn push_byte(buffer: &mut UvarintBuffer, byte: u8)
    ensures
        buffered_bytes(*final(buffer)) == buffered_bytes(*old(buffer)).push(byte),
{
    buffer.inner.push(byte)
}

/// `AsRef::<[u8]>::as_ref` of a `SmallVec`: the bytes as a slice.
#[verifier::external_body]
fn bytes_of(buffer: &UvarintBuffer) -> (bytes: &[u8])
    ensures
        bytes@ == buffered_bytes(*buffer),
{
    buffer.inner.as_ref()
}

impl UvarintBuffer {
    /// A buffer that holds the uvarint encoding of `value`.
    pub fn of(value: u64) -> (buffer: UvarintBuffer)
        ensures
            buffered_bytes(buffer) == uvarint_bytes(value),
    {
        let mut buffer = new_buffer();
        let mut x: u64 = value;
        while x >= 0x80
            invariant
                uvarint_bytes(value) == buffered_bytes(buffer) + uvarint_bytes(x),
            decreases x,
        {
            let ghost before = buffered_bytes(buffer);
            push_byte(&mut buffer, (x % 0x80 + 0x80) as u8);
            proof {
                assert(before + uvarint_bytes(x) =~= buffered_bytes(buffer) + uvarint_bytes(
                    x / 0x80,
                ));
            }
            x = x / 0x80;
        }
        let ghost before = buffered_bytes(buffer);
        push_byte(&mut buffer, x as u8);
        proof {
            assert(before + uvarint_bytes(x) =~= buffered_bytes(buffer));
        }
        buffer
    }

    /// The bytes that the buffer holds.
    pub fn as_bytes(&self) -> (bytes: &[u8])
        ensures
            bytes@ == buffered_bytes(*self),
    {
        bytes_of(self)
    }
}

} // verus!
