use crate::bytes::{be_parse, be_u32_bytes, lemma_be_value_bound, read_be, write_be_u32};
use crate::errors::ParseError;
use vstd::prelude::*;
use vstd::slice::slice_subrange;

verus! {

/// The CRC-32C (Castagnoli) checksum of a byte sequence.
pub uninterp spec fn crc32c_checksum(data: Seq<u8>) -> u32;

/// `crc32c::crc32c`: the checksum is a function of the bytes alone.
#[verifier::external_body]
fn crc32c_of(input: &[u8]) -> (crc: u32)
    ensures
        crc == crc32c_checksum(input@),
{
    ::crc32c::crc32c(input)
}

/// The CRC-32C of `input`.
pub fn compute_crc32c(input: &[u8]) -> (crc: u32)
    ensures
        crc == crc32c_checksum(input@),
{
    crc32c_of(input)
}

/// Reads a stored checksum, four bytes big-endian, from the start of `input`
/// and returns the bytes that follow it together with the checksum.
pub fn read_crc32c(input: &[u8]) -> (r: Result<(&[u8], u32), ParseError>)
    ensures
        match be_parse(input@, 4) {
            Ok((value, n)) => r matches Ok((rest, v)) && v == value && rest@ == input@.skip(4),
            Err(e) => r matches Err(err) && err == e,
        },
{
    match read_be(input, 4) {
        Ok((rest, v)) => {
            proof {
                lemma_be_value_bound(input@.take(4));
            }
            Ok((rest, v as u32))
        },
        Err(e) => Err(e),
    }
}

/// Appends the checksum of `input` to `writer`, four bytes big-endian.
pub fn write_crc32c(input: &[u8], writer: &mut Vec<u8>)
    ensures
        final(writer)@ == old(writer)@ + be_u32_bytes(crc32c_checksum(input@)),
{
    let crc: u32 = compute_crc32c(input);
    write_be_u32(crc, writer);
}

/// Checks that `data_length` bytes of `input`, from `skip_front` on, have the
/// checksum `expected_crc32c`.
pub fn assert_crc32c_on_data(
    input: &[u8],
    skip_front: usize,
    data_length: usize,
    expected_crc32c: u32,
) -> (r: Result<(), ParseError>)
    requires
        skip_front + data_length <= input@.len(),
    ensures
        r == (if expected_crc32c == crc32c_checksum(
            input@.subrange(skip_front as int, skip_front + data_length),
        ) {
            Ok::<(), ParseError>(())
        } else {
            Err::<(), ParseError>(ParseError::CrcMismatch)
        }),
{
    let len: usize = input.len();
    let data = slice_subrange(input, skip_front, skip_front + data_length);
    let computed: u32 = compute_crc32c(data);
    if expected_crc32c != computed {
        return Err(ParseError::CrcMismatch);
    }
    Ok(())
}

} // verus!
