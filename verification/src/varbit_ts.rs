use crate::bit_writer::{put_bit, put_bits, written_bits, BitBuffer};
use crate::bits::{
    be_bits, bits_at, cursor_moved, lemma_be_bits_value, lemma_cursor_moved,
    lemma_cursor_moved_twice, read_bit, read_bits, take_bits,
};
use crate::errors::ParseError;
use vstd::arithmetic::power2::{lemma2_to64, lemma2_to64_rest, pow2};
use vstd::prelude::*;

verus! {

/// The bucket that the writer picks for a value: the first whose range holds it.
pub open spec fn varbit_ts_bucket(v: i64) -> nat {
    if v == 0 {
        0
    } else if -8191 <= v <= 8192 {
        1
    } else if -65535 <= v <= 65536 {
        2
    } else if -524287 <= v <= 524288 {
        3
    } else {
        4
    }
}

/// The number of payload bits of a bucket.
pub open spec fn bucket_width(bucket: nat) -> nat {
    if bucket == 0 {
        0
    } else if bucket == 1 {
        14
    } else if bucket == 2 {
        17
    } else if bucket == 3 {
        20
    } else {
        64
    }
}

/// The bits that select a bucket: as many ones as its number, then a zero,
/// which the last bucket leaves out.
pub open spec fn bucket_prefix(bucket: nat) -> Seq<bool> {
    if bucket == 0 {
        seq![false]
    } else if bucket == 1 {
        seq![true, false]
    } else if bucket == 2 {
        seq![true, true, false]
    } else if bucket == 3 {
        seq![true, true, true, false]
    } else {
        seq![true, true, true, true]
    }
}

/// The two's complement of `v` in `width` bits.
pub open spec fn twos_complement(v: i64, width: nat) -> nat {
    if v >= 0 {
        v as nat
    } else {
        (pow2(width) + v) as nat
    }
}

/// The number that a payload of `width` bits stands for. A payload above
/// `2^(width - 1)` is negative; `2^(width - 1)` itself is positive in the
/// narrow buckets, so that their ranges reach one further up than down.
pub open spec fn sign_extend(raw: nat, width: nat) -> int {
    if width == 64 {
        if raw >= pow2(63) {
            raw - pow2(64)
        } else {
            raw as int
        }
    } else if width > 0 && raw > pow2((width - 1) as nat) {
        raw - pow2(width)
    } else {
        raw as int
    }
}

/// The encoding of a timestamp delta-of-delta: the bucket's prefix, then the
/// value in two's complement of the bucket's width.
#[verifier::opaque]
pub open spec fn varbit_ts_bits(v: i64) -> Seq<bool> {
    let bucket = varbit_ts_bucket(v);
    bucket_prefix(bucket) + be_bits(twos_complement(v, bucket_width(bucket)), bucket_width(bucket))
}

/// The parse of a bucket prefix: the bucket and the number of bits taken.
pub open spec fn bucket_parse(bits: Seq<bool>) -> Result<(nat, nat), ParseError> {
    if bits.len() < 1 {
        Err(ParseError::Truncated { needed: None })
    } else if !bits[0] {
        Ok((0, 1))
    } else if bits.len() < 2 {
        Err(ParseError::Truncated { needed: None })
    } else if !bits[1] {
        Ok((1, 2))
    } else if bits.len() < 3 {
        Err(ParseError::Truncated { needed: None })
    } else if !bits[2] {
        Ok((2, 3))
    } else if bits.len() < 4 {
        Err(ParseError::Truncated { needed: None })
    } else if !bits[3] {
        Ok((3, 4))
    } else {
        Ok((4, 4))
    }
}

/// The parse of a timestamp delta-of-delta at the start of `bits`: the value
/// and the number of bits that it takes.
#[verifier::opaque]
pub open spec fn varbit_ts_parse(bits: Seq<bool>) -> Result<(i64, nat), ParseError> {
    match bucket_parse(bits) {
        Err(e) => Err(e),
        Ok((bucket, n)) => match take_bits(bits.skip(n as int), bucket_width(bucket)) {
            Err(e) => Err(e),
            Ok((raw, m)) => Ok((sign_extend(raw as nat, bucket_width(bucket)) as i64, n + m)),
        },
    }
}

/// Reads the prefix that selects a bucket.
fn read_varbit_ts_bucket<'a>(input: (&'a [u8], usize)) -> (r: Result<
    ((&'a [u8], usize), u8),
    ParseError,
>)
    ensures
        match bucket_parse(bits_at(input.0@, input.1 as nat)) {
            Ok((bucket, n)) => r matches Ok((cursor, b)) && b == bucket && cursor_moved(
                input,
                cursor,
                n,
            ),
            Err(e) => r matches Err(err) && err == e,
        },
{
    let ghost bits = bits_at(input.0@, input.1 as nat);
    let mut cursor: (&'a [u8], usize) = input;
    let mut i: u8 = 0;
    while i < 4
        invariant
            i <= 4,
            bits == bits_at(input.0@, input.1 as nat),
            cursor_moved(input, cursor, i as nat),
            i <= bits.len(),
            forall|j: int| 0 <= j < i ==> bits[j],
        decreases 4 - i,
    {
        proof {
            lemma_cursor_moved(input, cursor, i as nat);
        }
        match read_bit(cursor) {
            Ok((next, bit)) => {
                proof {
                    lemma_cursor_moved_twice(input, cursor, next, i as nat, 1);
                    lemma_cursor_moved(input, next, (i + 1) as nat);
                }
                cursor = next;
                if !bit {
                    return Ok((cursor, i));
                }
            },
            Err(e) => {
                return Err(e);
            },
        }
        i = i + 1;
    }
    Ok((cursor, 4))
}

/// The number of payload bits of a bucket.
fn varbit_ts_bucket_to_num_bits(bucket: u8) -> (width: u8)
    requires
        bucket <= 4,
    ensures
        width == bucket_width(bucket as nat),
{
    if bucket == 0 {
        0
    } else if bucket == 1 {
        14
    } else if bucket == 2 {
        17
    } else if bucket == 3 {
        20
    } else {
        64
    }
}

/// Reads a timestamp delta-of-delta at the cursor and returns the cursor
/// behind it together with the value.
pub fn read_varbit_ts<'a>(input: (&'a [u8], usize)) -> (r: Result<
    ((&'a [u8], usize), i64),
    ParseError,
>)
    ensures
        match varbit_ts_parse(bits_at(input.0@, input.1 as nat)) {
            Ok((value, n)) => r matches Ok((cursor, v)) && v == value && cursor_moved(
                input,
                cursor,
                n,
            ),
            Err(e) => r matches Err(err) && err == e,
        },
{
    reveal(varbit_ts_parse);
    let ghost bits = bits_at(input.0@, input.1 as nat);
    let (cursor, bucket) = match read_varbit_ts_bucket(input) {
        Ok(found) => found,
        Err(e) => {
            return Err(e);
        },
    };
    let num_bits: u8 = varbit_ts_bucket_to_num_bits(bucket);
    proof {
        lemma_cursor_moved(input, cursor, bucket_parse(bits).unwrap().1);
        lemma2_to64();
        lemma2_to64_rest();
    }
    let (end, raw) = match read_bits(cursor, num_bits as u32) {
        Ok(found) => found,
        Err(e) => {
            return Err(e);
        },
    };
    proof {
        lemma_cursor_moved_twice(
            input,
            cursor,
            end,
            bucket_parse(bits).unwrap().1,
            num_bits as nat,
        );
        crate::bits::lemma_bits_value_bound(
            bits.skip(bucket_parse(bits).unwrap().1 as int).take(num_bits as int),
        );
    }
    let value: i64 = if num_bits == 64 {
        if raw >= 0x8000_0000_0000_0000 {
            (raw - 0x8000_0000_0000_0000) as i64 + i64::MIN
        } else {
            raw as i64
        }
    } else if num_bits == 14 && raw > 0x2000 {
        raw as i64 - 0x4000
    } else if num_bits == 17 && raw > 0x1_0000 {
        raw as i64 - 0x2_0000
    } else if num_bits == 20 && raw > 0x8_0000 {
        raw as i64 - 0x10_0000
    } else {
        raw as i64
    };
    Ok((end, value))
}

/// Appends the encoding of a timestamp delta-of-delta to `writer`.
pub fn write_varbit_ts(value: i64, writer: &mut BitBuffer)
    ensures
        written_bits(*final(writer)) == written_bits(*old(writer)) + varbit_ts_bits(value),
{
    let ghost before = written_bits(*writer);
    proof {
        reveal(varbit_ts_bits);
        lemma2_to64();
        lemma2_to64_rest();
        lemma_prefix_bits();
    }
    if value == 0 {
        put_bit(writer, false);
        proof {
            assert(be_bits(0, 0) =~= Seq::<bool>::empty());
            assert(before.push(false) =~= before + varbit_ts_bits(value));
        }
    } else if -8191 <= value && value <= 8192 {
        put_bits(writer, 2, 0b10);
        let low: u64 = if value >= 0 {
            value as u64
        } else {
            (value + 0x4000) as u64
        };
        put_bits(writer, 14, low);
        proof {
            assert(before + be_bits(2, 2) + be_bits(low as nat, 14) =~= before + varbit_ts_bits(
                value,
            ));
        }
    } else if -65535 <= value && value <= 65536 {
        put_bits(writer, 3, 0b110);
        let low: u64 = if value >= 0 {
            value as u64
        } else {
            (value + 0x2_0000) as u64
        };
        put_bits(writer, 17, low);
        proof {
            assert(before + be_bits(6, 3) + be_bits(low as nat, 17) =~= before + varbit_ts_bits(
                value,
            ));
        }
    } else if -524287 <= value && value <= 524288 {
        put_bits(writer, 4, 0b1110);
        let low: u64 = if value >= 0 {
            value as u64
        } else {
            (value + 0x10_0000) as u64
        };
        put_bits(writer, 20, low);
        proof {
            assert(before + be_bits(14, 4) + be_bits(low as nat, 20) =~= before + varbit_ts_bits(
                value,
            ));
        }
    } else {
        put_bits(writer, 4, 0b1111);
        let low: u64 = if value >= 0 {
            value as u64
        } else {
            u64::MAX - ((-(value + 1)) as u64)
        };
        put_bits(writer, 64, low);
        proof {
            assert(before + be_bits(15, 4) + be_bits(low as nat, 64) =~= before + varbit_ts_bits(
                value,
            ));
        }
    }
}

/// Bit `i` of a number written in `width` bits.
proof fn lemma_be_bit(value: nat, width: nat, i: int)
    requires
        0 <= i < width,
    ensures
        be_bits(value, width)[i] == ((value / pow2((width - 1 - i) as nat)) % 2 == 1),
{
}

/// The bucket prefixes as numbers of two, three and four bits.
proof fn lemma_prefix_bits()
    ensures
        be_bits(2, 2) == bucket_prefix(1),
        be_bits(6, 3) == bucket_prefix(2),
        be_bits(14, 4) == bucket_prefix(3),
        be_bits(15, 4) == bucket_prefix(4),
{
    lemma2_to64();
    assert(be_bits(2, 2) =~= bucket_prefix(1)) by {
        lemma_be_bit(2, 2, 0);
        lemma_be_bit(2, 2, 1);
        assert(2nat / 2 == 1 && 2nat / 1 == 2);
        assert(bucket_prefix(1) == seq![true, false]);
    }
    assert(be_bits(6, 3) =~= bucket_prefix(2)) by {
        lemma_be_bit(6, 3, 0);
        lemma_be_bit(6, 3, 1);
        lemma_be_bit(6, 3, 2);
        assert(6nat / 4 == 1 && 6nat / 2 == 3 && 6nat / 1 == 6);
        assert(bucket_prefix(2) == seq![true, true, false]);
    }
    assert(be_bits(14, 4) =~= bucket_prefix(3)) by {
        lemma_be_bit(14, 4, 0);
        lemma_be_bit(14, 4, 1);
        lemma_be_bit(14, 4, 2);
        lemma_be_bit(14, 4, 3);
        assert(14nat / 8 == 1 && 14nat / 4 == 3 && 14nat / 2 == 7 && 14nat / 1 == 14);
        assert(bucket_prefix(3) == seq![true, true, true, false]);
    }
    assert(be_bits(15, 4) =~= bucket_prefix(4)) by {
        lemma_be_bit(15, 4, 0);
        lemma_be_bit(15, 4, 1);
        lemma_be_bit(15, 4, 2);
        lemma_be_bit(15, 4, 3);
        assert(15nat / 8 == 1 && 15nat / 4 == 3 && 15nat / 2 == 7 && 15nat / 1 == 15);
        assert(bucket_prefix(4) == seq![true, true, true, true]);
    }
}

/// An encoding has between 1 and 68 bits.
pub proof fn lemma_varbit_ts_bits_len(v: i64)
    ensures
        1 <= varbit_ts_bits(v).len() <= 68,
{
    reveal(varbit_ts_bits);
}

/// Decoding an encoded value gives the value back, whatever follows it.
pub proof fn lemma_varbit_ts_roundtrip(v: i64, rest: Seq<bool>)
    ensures
        varbit_ts_parse(varbit_ts_bits(v) + rest) == Ok::<(i64, nat), ParseError>(
            (v, varbit_ts_bits(v).len()),
        ),
{
    reveal(varbit_ts_parse);
    reveal(varbit_ts_bits);
    let bucket = varbit_ts_bucket(v);
    let width = bucket_width(bucket);
    let prefix = bucket_prefix(bucket);
    let raw = twos_complement(v, width);
    let payload = be_bits(raw, width);
    let bits = varbit_ts_bits(v) + rest;
    lemma2_to64();
    lemma2_to64_rest();
    assert forall|j: int| 0 <= j < prefix.len() implies bits[j] == prefix[j] by {}
    assert(bucket_parse(bits) == Ok::<(nat, nat), ParseError>((bucket, prefix.len())));
    assert(bits.skip(prefix.len() as int).take(width as int) =~= payload);
    lemma_be_bits_value(raw, width);
    vstd::arithmetic::div_mod::lemma_small_mod(raw, pow2(width));
}

} // verus!
