use crate::errors::ParseError;
use vstd::prelude::*;
use vstd::slice::slice_subrange;

verus! {

/// The two bytes of a `u16`, most significant first.
pub open spec fn be_u16_bytes(v: u16) -> Seq<u8> {
    seq![(v / 0x100) as u8, (v % 0x100) as u8]
}

/// The four bytes of a `u32`, most significant first.
pub open spec fn be_u32_bytes(v: u32) -> Seq<u8> {
    seq![
        (v / 0x100_0000) as u8,
        (v / 0x1_0000 % 0x100) as u8,
        (v / 0x100 % 0x100) as u8,
        (v % 0x100) as u8,
    ]
}

/// The eight bytes of a `u64`, most significant first.
pub open spec fn be_u64_bytes(v: u64) -> Seq<u8> {
    be_u32_bytes((v / 0x1_0000_0000) as u32) + be_u32_bytes((v % 0x1_0000_0000) as u32)
}

/// The number that the bytes spell, most significant first.
pub open spec fn be_value(bytes: Seq<u8>) -> nat
    decreases bytes.len(),
{
    if bytes.len() == 0 {
        0
    } else {
        0x100 * be_value(bytes.drop_last()) + bytes.last() as nat
    }
}

/// The parse of a big-endian number of `width` bytes at the start of `input`.
pub open spec fn be_parse(input: Seq<u8>, width: nat) -> Result<(nat, nat), ParseError> {
    if input.len() < width {
        Err(ParseError::Truncated { needed: None })
    } else {
        Ok((be_value(input.take(width as int)), width))
    }
}

/// The number that one, two, four or eight bytes spell, written out, and
/// its bound.
pub proof fn lemma_be_value_bound(bytes: Seq<u8>)
    ensures
        bytes.len() == 0 ==> be_value(bytes) == 0,
        bytes.len() == 1 ==> be_value(bytes) == bytes[0],
        bytes.len() == 2 ==> be_value(bytes) == 0x100 * bytes[0] + bytes[1],
        bytes.len() == 4 ==> be_value(bytes) == 0x100_0000 * bytes[0] + 0x1_0000 * bytes[1] + 0x100
            * bytes[2] + bytes[3],
        bytes.len() == 8 ==> be_value(bytes) == 0x1_0000_0000 * be_value(bytes.take(4)) + be_value(
            bytes.skip(4),
        ),
        bytes.len() == 4 ==> be_value(bytes) <= u32::MAX,
        bytes.len() == 8 ==> be_value(bytes) <= u64::MAX,
{
    reveal_with_fuel(be_value, 5);
    if bytes.len() == 4 {
        assert(bytes.drop_last().drop_last().drop_last().drop_last().len() == 0);
    }
    if bytes.len() == 8 {
        let hi = bytes.take(4);
        let lo = bytes.skip(4);
        let a = bytes.drop_last();
        let b = a.drop_last();
        let c = b.drop_last();
        let d = c.drop_last();
        assert(d =~= hi);
        assert(lo.drop_last().drop_last().drop_last().drop_last().len() == 0);
        assert(lo.last() == bytes.last());
        assert(lo.drop_last().last() == a.last());
        assert(lo.drop_last().drop_last().last() == b.last());
        assert(lo.drop_last().drop_last().drop_last().last() == c.last());
        assert(hi.drop_last().drop_last().drop_last().drop_last().len() == 0);
    }
}

/// Reading the bytes of a `u32` gives the number back.
pub proof fn lemma_be_u32_roundtrip(v: u32)
    ensures
        be_u32_bytes(v).len() == 4,
        be_value(be_u32_bytes(v)) == v,
{
    lemma_be_value_bound(be_u32_bytes(v));
    let a = v as int / 0x100;
    let b = a / 0x100;
    let c = b / 0x100;
    assert(v == 0x100 * a + v as int % 0x100);
    assert(a == 0x100 * b + a % 0x100);
    assert(b == 0x100 * c + b % 0x100);
    assert(b == v as int / 0x1_0000);
    assert(c == v as int / 0x100_0000);
    assert(c < 0x100);
}

/// Four bytes are the bytes of the number that they spell.
pub proof fn lemma_be_u32_bytes_of_value(bytes: Seq<u8>)
    requires
        bytes.len() == 4,
    ensures
        be_value(bytes) <= u32::MAX,
        be_u32_bytes(be_value(bytes) as u32) == bytes,
{
    lemma_be_value_bound(bytes);
    let v = be_value(bytes) as int;
    let a = v / 0x100;
    let b = a / 0x100;
    let c = b / 0x100;
    assert(a == 0x1_0000 * bytes[0] + 0x100 * bytes[1] + bytes[2]);
    assert(b == 0x100 * bytes[0] + bytes[1]);
    assert(c == bytes[0]);
    assert(b == v / 0x1_0000);
    assert(c == v / 0x100_0000);
    assert(be_u32_bytes(v as u32) =~= bytes);
}

/// Reading the bytes of a number gives the number back.
pub proof fn lemma_be_roundtrip(a: u16, b: u32, c: u64)
    ensures
        be_u16_bytes(a).len() == 2,
        be_u32_bytes(b).len() == 4,
        be_u64_bytes(c).len() == 8,
        be_value(be_u16_bytes(a)) == a,
        be_value(be_u32_bytes(b)) == b,
        be_value(be_u64_bytes(c)) == c,
{
    lemma_be_value_bound(be_u16_bytes(a));
    lemma_be_u32_roundtrip(b);
    let hi = (c / 0x1_0000_0000) as u32;
    let lo = (c % 0x1_0000_0000) as u32;
    lemma_be_u32_roundtrip(hi);
    lemma_be_u32_roundtrip(lo);
    assert(be_u64_bytes(c).take(4) =~= be_u32_bytes(hi));
    assert(be_u64_bytes(c).skip(4) =~= be_u32_bytes(lo));
    lemma_be_value_bound(be_u64_bytes(c));
}

/// The number that at most eight bytes spell, most significant first.
pub fn be_number(bytes: &[u8]) -> (value: u64)
    requires
        bytes@.len() <= 8,
    ensures
        value == be_value(bytes@),
{
    let mut acc: u64 = 0;
    let mut i: usize = 0;
    proof {
        assert(bytes@.take(0) =~= Seq::<u8>::empty());
    }
    while i < bytes.len()
        invariant
            i <= bytes@.len() <= 8,
            acc == be_value(bytes@.take(i as int)),
            acc < pow256(i as nat),
        decreases bytes@.len() - i,
    {
        proof {
            reveal_with_fuel(pow256, 10);
            assert(bytes@.take(i + 1).drop_last() =~= bytes@.take(i as int));
        }
        acc = acc * 0x100 + bytes[i] as u64;
        i = i + 1;
    }
    proof {
        assert(bytes@.take(bytes@.len() as int) =~= bytes@);
    }
    acc
}

/// Reads a big-endian number of `width` bytes, at most eight, from the start
/// of `input` and returns the bytes that follow it together with the number.
pub fn read_be(input: &[u8], width: usize) -> (r: Result<(&[u8], u64), ParseError>)
    requires
        width <= 8,
    ensures
        match be_parse(input@, width as nat) {
            Ok((value, n)) => r matches Ok((rest, v)) && v == value && rest@ == input@.skip(
                n as int,
            ),
            Err(e) => r matches Err(err) && err == e,
        },
{
    if input.len() < width {
        return Err(ParseError::Truncated { needed: None });
    }
    let value: u64 = be_number(slice_subrange(input, 0, width));
    Ok((slice_subrange(input, width, input.len()), value))
}

/// 256 to the power `i`.
pub open spec fn pow256(i: nat) -> nat
    decreases i,
{
    if i == 0 {
        1
    } else {
        0x100 * pow256((i - 1) as nat)
    }
}

/// Appends the two bytes of `v`, most significant first.
pub fn write_be_u16(v: u16, writer: &mut Vec<u8>)
    ensures
        final(writer)@ == old(writer)@ + be_u16_bytes(v),
{
    let ghost before = writer@;
    writer.push((v / 0x100) as u8);
    writer.push((v % 0x100) as u8);
    assert(writer@ =~= before + be_u16_bytes(v));
}

/// Appends the four bytes of `v`, most significant first.
pub fn write_be_u32(v: u32, writer: &mut Vec<u8>)
    ensures
        final(writer)@ == old(writer)@ + be_u32_bytes(v),
{
    let ghost before = writer@;
    writer.push((v / 0x100_0000) as u8);
    writer.push((v / 0x1_0000 % 0x100) as u8);
    writer.push((v / 0x100 % 0x100) as u8);
    writer.push((v % 0x100) as u8);
    assert(writer@ =~= before + be_u32_bytes(v));
}

/// Appends the eight bytes of `v`, most significant first.
pub fn write_be_u64(v: u64, writer: &mut Vec<u8>)
    ensures
        final(writer)@ == old(writer)@ + be_u64_bytes(v),
{
    let ghost before = writer@;
    write_be_u32((v / 0x1_0000_0000) as u32, writer);
    write_be_u32((v % 0x1_0000_0000) as u32, writer);
    assert(writer@ =~= before + be_u64_bytes(v));
}

/// Appends `bytes` to `writer`.
pub fn append_bytes(writer: &mut Vec<u8>, bytes: &[u8])
    ensures
        final(writer)@ == old(writer)@ + bytes@,
{
    let ghost before = writer@;
    writer.extend_from_slice(bytes);
    assert(writer@ =~= before + bytes@);
}

} // verus!
