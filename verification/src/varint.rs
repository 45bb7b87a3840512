use crate::errors::ParseError;
use crate::uvarint::{
    lemma_uvarint_roundtrip, read_uvarint, uvarint_bytes, uvarint_parse, write_uvarint,
    MAX_UVARINT_LEN,
};
use vstd::prelude::*;

verus! {

/// The zig-zag image of a signed number: 0, -1, 1, -2, ... become 0, 1, 2, 3, ...
pub open spec fn zigzag(v: i64) -> u64 {
    if v >= 0 {
        (2 * v) as u64
    } else {
        (-2 * v - 1) as u64
    }
}

/// The signed number of which `u` is the zig-zag image.
pub open spec fn unzigzag(u: u64) -> i64 {
    if u % 2 == 0 {
        (u / 2) as i64
    } else {
        (-(u / 2) - 1) as i64
    }
}

/// The encoding of a signed number: the uvarint of its zig-zag image.
pub open spec fn varint_bytes(v: i64) -> Seq<u8> {
    uvarint_bytes(zigzag(v))
}

/// The parse of a varint at the start of `input`: the value and the number of
/// bytes that it takes. It fails where the uvarint does.
pub open spec fn varint_parse(input: Seq<u8>) -> Result<(i64, nat), ParseError> {
    match uvarint_parse(input) {
        Ok((u, n)) => Ok((unzigzag(u), n)),
        Err(e) => Err(e),
    }
}

/// Reads a varint from the start of `input` and returns the bytes that follow
/// it together with the value.
pub fn read_varint(input: &[u8]) -> (r: Result<(&[u8], i64), ParseError>)
    ensures
        match varint_parse(input@) {
            Ok((value, n)) => r matches Ok((rest, v)) && v == value && rest@ == input@.skip(
                n as int,
            ),
            Err(e) => r matches Err(err) && err == e,
        },
{
    match read_uvarint(input) {
        Ok((rest, u)) => {
            let half: i64 = (u / 2) as i64;
            if u % 2 != 0 {
                Ok((rest, -half - 1))
            } else {
                Ok((rest, half))
            }
        },
        Err(e) => Err(e),
    }
}

/// Appends the varint encoding of `value` to `writer`.
pub fn write_varint(value: i64, writer: &mut Vec<u8>)
    ensures
        final(writer)@ == old(writer)@ + varint_bytes(value),
{
    let ux: u64 = if value >= 0 {
        (value as u64) * 2
    } else {
        ((-(value + 1)) as u64) * 2 + 1
    };
    write_uvarint(ux, writer)
}

/// Zig-zag is a bijection between the signed and the unsigned 64-bit numbers.
pub proof fn lemma_zigzag_inverse(v: i64, u: u64)
    ensures
        unzigzag(zigzag(v)) == v,
        zigzag(unzigzag(u)) == u,
{
}

/// Decoding an encoded value gives the value back, whatever follows it.
pub proof fn lemma_varint_roundtrip(v: i64, rest: Seq<u8>)
    ensures
        1 <= varint_bytes(v).len() <= MAX_UVARINT_LEN,
        varint_parse(varint_bytes(v) + rest) == Ok::<(i64, nat), ParseError>(
            (v, varint_bytes(v).len()),
        ),
{
    lemma_uvarint_roundtrip(zigzag(v), rest);
    lemma_zigzag_inverse(v, 0);
}

} // verus!
