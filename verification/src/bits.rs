use crate::errors::ParseError;
use vstd::arithmetic::power2::{lemma2_to64, lemma_pow2_pos, lemma_pow2_unfold, pow2};
use vstd::bits::lemma_u8_shr_is_div;
use vstd::prelude::*;
use vstd::slice::slice_subrange;

verus! {

/// Bit `i` of a byte, counted from the most significant one.
pub open spec fn byte_bit(b: u8, i: int) -> bool {
    (b as nat / pow2((7 - i) as nat)) % 2 == 1
}

/// The bits of a byte sequence, each byte most significant bit first.
pub open spec fn bits_of(bytes: Seq<u8>) -> Seq<bool> {
    Seq::new(8 * bytes.len(), |i: int| byte_bit(bytes[i / 8], i % 8))
}

/// The `width` low bits of `value`, most significant first.
pub open spec fn be_bits(value: nat, width: nat) -> Seq<bool> {
    Seq::new(width, |i: int| (value / pow2((width - 1 - i) as nat)) % 2 == 1)
}

/// The number that a bit sequence spells, most significant bit first.
pub open spec fn bits_value(bits: Seq<bool>) -> nat
    decreases bits.len(),
{
    if bits.len() == 0 {
        0
    } else {
        2 * bits_value(bits.drop_last()) + if bits.last() {
            1nat
        } else {
            0nat
        }
    }
}

/// The bytes that hold a bit sequence, eight bits to a byte; bits beyond the
/// last whole byte are left out.
pub open spec fn bytes_of_bits(bits: Seq<bool>) -> Seq<u8> {
    Seq::new(bits.len() / 8, |i: int| bits_value(bits.subrange(8 * i, 8 * i + 8)) as u8)
}

/// How many zero bits bring a stream of `len` bits to a byte boundary.
pub open spec fn padding_len(len: nat) -> nat {
    ((8 - len % 8) % 8) as nat
}

/// `bits` followed by zero bits up to the next byte boundary.
pub open spec fn pad_to_byte(bits: Seq<bool>) -> Seq<bool> {
    bits + Seq::new(padding_len(bits.len()), |i: int| false)
}

/// The bits that lie at and after a bit cursor: `offset` bits into `bytes`.
pub open spec fn bits_at(bytes: Seq<u8>, offset: nat) -> Seq<bool> {
    if offset <= 8 * bytes.len() {
        bits_of(bytes).skip(offset as int)
    } else {
        Seq::empty()
    }
}

/// Whether `after` is the cursor `before` moved on by `n` bits: whole bytes
/// passed are dropped from the slice and the offset stays below 8. A cursor
/// that moves by no bit stays as it is.
pub open spec fn cursor_moved(before: (&[u8], usize), after: (&[u8], usize), n: nat) -> bool {
    if n == 0 {
        after.0@ == before.0@ && after.1 == before.1
    } else {
        &&& before.1 + n <= 8 * before.0@.len()
        &&& after.0@ == before.0@.skip((before.1 + n) as int / 8)
        &&& after.1 == (before.1 + n) % 8
    }
}

/// The parse of `count` bits as an unsigned number.
pub open spec fn take_bits(bits: Seq<bool>, count: nat) -> Result<(u64, nat), ParseError> {
    if bits.len() < count {
        Err(ParseError::Truncated { needed: None })
    } else {
        Ok((bits_value(bits.take(count as int)) as u64, count))
    }
}

/// A sequence of `n` bits spells a number below `2^n`.
pub proof fn lemma_bits_value_bound(bits: Seq<bool>)
    ensures
        bits_value(bits) < pow2(bits.len()),
    decreases bits.len(),
{
    if bits.len() == 0 {
        lemma2_to64();
    } else {
        lemma_bits_value_bound(bits.drop_last());
        lemma_pow2_unfold(bits.len());
    }
}

/// Moving a cursor by `n` bits drops the first `n` of the bits that lie at it.
pub proof fn lemma_cursor_moved(before: (&[u8], usize), after: (&[u8], usize), n: nat)
    requires
        cursor_moved(before, after, n),
    ensures
        n <= bits_at(before.0@, before.1 as nat).len(),
        bits_at(after.0@, after.1 as nat) == bits_at(before.0@, before.1 as nat).skip(n as int),
{
    let b = before.0@;
    let off = before.1 as int;
    if n == 0 {
        assert(bits_at(b, off as nat).skip(0) =~= bits_at(b, off as nat));
    } else {
        let k = (off + n) / 8;
        let a = b.skip(k);
        let r = (off + n) % 8;
        assert forall|i: int| 0 <= i < 8 * a.len() - r implies #[trigger] bits_at(a, r as nat)[i]
            == bits_at(b, off as nat).skip(n as int)[i] by {
            let j = r + i;
            assert(bits_of(a)[j] == byte_bit(a[j / 8], j % 8));
            assert(a[j / 8] == b[k + j / 8]);
            let g = off + n + i;
            assert(g == 8 * k + j);
            assert(g / 8 == k + j / 8);
            assert(g % 8 == j % 8);
            assert(bits_of(b)[g] == byte_bit(b[g / 8], g % 8));
        }
        assert(bits_at(a, r as nat) =~= bits_at(b, off as nat).skip(n as int));
    }
}

/// Two moves in a row are one move by the sum.
pub proof fn lemma_cursor_moved_twice(
    start: (&[u8], usize),
    mid: (&[u8], usize),
    end: (&[u8], usize),
    n: nat,
    m: nat,
)
    requires
        cursor_moved(start, mid, n),
        cursor_moved(mid, end, m),
    ensures
        cursor_moved(start, end, n + m),
{
    if n > 0 && m > 0 {
        let off = start.1 as int;
        let k = (off + n) / 8;
        let r = (off + n) % 8;
        assert((off + n + m) / 8 == k + (r + m) / 8);
        assert((off + n + m) % 8 == (r + m) % 8);
        assert(start.0@.skip(k).skip((r + m) / 8) =~= start.0@.skip(k + (r + m) / 8));
    }
}

/// Reads `count` bits at the cursor as an unsigned number, most significant
/// bit first, and returns the cursor behind them.
pub fn read_bits<'a>(input: (&'a [u8], usize), count: u32) -> (r: Result<
    ((&'a [u8], usize), u64),
    ParseError,
>)
    requires
        count <= 64,
    ensures
        match take_bits(bits_at(input.0@, input.1 as nat), count as nat) {
            Ok((value, n)) => r matches Ok((cursor, v)) && v == value && cursor_moved(
                input,
                cursor,
                n,
            ),
            Err(e) => r matches Err(err) && err == e,
        },
{
    let bytes: &[u8] = input.0;
    let offset: usize = input.1;
    let ghost bits = bits_at(bytes@, offset as nat);
    if count == 0 {
        assert(bits.take(0) =~= Seq::<bool>::empty());
        return Ok((input, 0));
    }
    let len: usize = bytes.len();
    let first: usize = offset / 8;
    let start: usize = offset % 8;
    if first >= len {
        return Err(ParseError::Truncated { needed: None });
    }
    let end: usize = start + count as usize;
    let avail: usize = len - first;
    if avail < 9 && end > 8 * avail {
        return Err(ParseError::Truncated { needed: None });
    }
    let mut acc: u64 = 0;
    let mut k: usize = 0;
    proof {
        assert(bits.take(0) =~= Seq::<bool>::empty());
        lemma2_to64();
    }
    while k < count as usize
        invariant
            k <= count <= 64,
            len == bytes@.len(),
            first == offset / 8,
            start == offset % 8,
            first < len,
            start + count <= 8 * (len - first),
            bits == bits_at(bytes@, offset as nat),
            acc == bits_value(bits.take(k as int)),
        decreases count - k,
    {
        let pos: usize = start + k;
        let byte: u8 = bytes[first + pos / 8];
        let shift: u8 = (7 - pos % 8) as u8;
        let bit: u8 = (byte >> shift) % 2;
        proof {
            lemma_u8_shr_is_div(byte, shift);
            let g = offset + k;
            assert(g == 8 * first + pos);
            assert(g / 8 == first + pos / 8);
            assert(g % 8 == pos % 8);
            assert(bits[k as int] == bits_of(bytes@)[g]);
            assert(bits[k as int] == (bit == 1));
            let next = bits.take(k + 1);
            assert(next.drop_last() =~= bits.take(k as int));
            assert(next.last() == bits[k as int]);
            lemma_bits_value_bound(bits.take(k as int));
            lemma_bits_value_bound(next);
            assert(pow2((k + 1) as nat) <= pow2(64)) by {
                lemma_pow2_le((k + 1) as nat, 64);
            }
            lemma2_to64();
        }
        acc = acc * 2 + bit as u64;
        k = k + 1;
    }
    let rest = slice_subrange(bytes, first + end / 8, len);
    proof {
        assert((offset + count) / 8 == first + end / 8);
        assert((offset + count) % 8 == end % 8);
    }
    Ok(((rest, end % 8), acc))
}

/// Reads one bit at the cursor and returns the cursor behind it.
pub fn read_bit<'a>(input: (&'a [u8], usize)) -> (r: Result<((&'a [u8], usize), bool), ParseError>)
    ensures
        match take_bits(bits_at(input.0@, input.1 as nat), 1) {
            Ok((value, n)) => r matches Ok((cursor, bit)) && bit == (value == 1) && bit
                == bits_at(input.0@, input.1 as nat)[0] && cursor_moved(input, cursor, 1),
            Err(e) => r matches Err(err) && err == e,
        },
{
    match read_bits(input, 1) {
        Ok((cursor, v)) => {
            proof {
                let bits = bits_at(input.0@, input.1 as nat);
                assert(bits.take(1).drop_last() =~= Seq::<bool>::empty());
                assert(bits_value(bits.take(1).drop_last()) == 0);
            }
            Ok((cursor, v == 1))
        },
        Err(e) => Err(e),
    }
}

/// A number of `width` bits, written most significant bit first and read back,
/// is the number itself; of a wider number its `width` low bits remain.
pub proof fn lemma_be_bits_value(value: nat, width: nat)
    ensures
        be_bits(value, width).len() == width,
        bits_value(be_bits(value, width)) == value % pow2(width),
    decreases width,
{
    let bits = be_bits(value, width);
    if width == 0 {
        lemma2_to64();
    } else {
        let shorter = be_bits(value / 2, (width - 1) as nat);
        assert forall|i: int| 0 <= i < width - 1 implies bits.drop_last()[i] == shorter[i] by {
            let k = (width - 2 - i) as nat;
            lemma_pow2_unfold(k + 1);
            lemma_pow2_pos(k);
            vstd::arithmetic::div_mod::lemma_div_denominator(value as int, 2, pow2(k) as int);
        }
        assert(bits.drop_last() =~= shorter);
        lemma_be_bits_value(value / 2, (width - 1) as nat);
        lemma2_to64();
        assert(bits[width - 1] == ((value / pow2((width - 1 - (width - 1)) as nat)) % 2 == 1));
        assert(bits.last() == (value % 2 == 1));
        lemma_pow2_unfold(width);
        lemma_pow2_pos((width - 1) as nat);
        vstd::arithmetic::div_mod::lemma_breakdown(
            value as int,
            2,
            pow2((width - 1) as nat) as int,
        );
    }
}

/// Writing the number that a bit sequence spells, in as many bits, gives the
/// sequence back.
pub proof fn lemma_bits_value_be_bits(bits: Seq<bool>)
    ensures
        be_bits(bits_value(bits), bits.len()) == bits,
    decreases bits.len(),
{
    let width = bits.len();
    let value = bits_value(bits);
    if width > 0 {
        let shorter = bits.drop_last();
        lemma_bits_value_be_bits(shorter);
        lemma2_to64();
        assert forall|i: int| 0 <= i < width implies be_bits(value, width)[i] == bits[i] by {
            if i == width - 1 {
                assert(be_bits(value, width)[i] == ((value / pow2(0)) % 2 == 1));
            } else {
                let k = (width - 2 - i) as nat;
                lemma_pow2_unfold(k + 1);
                lemma_pow2_pos(k);
                vstd::arithmetic::div_mod::lemma_div_denominator(value as int, 2, pow2(k) as int);
                assert(value / 2 == bits_value(shorter));
                assert(be_bits(bits_value(shorter), (width - 1) as nat)[i] == shorter[i]);
                assert(be_bits(bits_value(shorter), (width - 1) as nat)[i] == ((bits_value(shorter)
                    / pow2(((width - 1) - 1 - i) as nat)) % 2 == 1));
            }
        }
    }
    assert(be_bits(value, width) =~= bits);
}

/// The bits of a byte are the byte written in eight bits.
pub proof fn lemma_bits_of_byte(bytes: Seq<u8>, i: int)
    requires
        0 <= i < bytes.len(),
    ensures
        bits_of(bytes).subrange(8 * i, 8 * i + 8) == be_bits(bytes[i] as nat, 8),
{
    assert forall|j: int| 0 <= j < 8 implies bits_of(bytes).subrange(8 * i, 8 * i + 8)[j]
        == be_bits(bytes[i] as nat, 8)[j] by {
        assert((8 * i + j) / 8 == i);
        assert((8 * i + j) % 8 == j);
    }
    assert(bits_of(bytes).subrange(8 * i, 8 * i + 8) =~= be_bits(bytes[i] as nat, 8));
}

/// Packing the bits of bytes gives the bytes back.
pub proof fn lemma_bytes_of_bits_of(bytes: Seq<u8>)
    ensures
        bytes_of_bits(bits_of(bytes)) == bytes,
{
    assert forall|i: int| 0 <= i < bytes.len() implies bytes_of_bits(bits_of(bytes))[i]
        == bytes[i] by {
        lemma_bits_of_byte(bytes, i);
        lemma_be_bits_value(bytes[i] as nat, 8);
        lemma2_to64();
        vstd::arithmetic::div_mod::lemma_small_mod(bytes[i] as nat, pow2(8));
    }
    assert(bytes_of_bits(bits_of(bytes)) =~= bytes);
}

/// The bits of packed bits are the bits, where they fill whole bytes.
pub proof fn lemma_bits_of_bytes_of(bits: Seq<bool>)
    requires
        bits.len() % 8 == 0,
    ensures
        bits_of(bytes_of_bits(bits)) == bits,
{
    let bytes = bytes_of_bits(bits);
    assert forall|g: int| 0 <= g < bits.len() implies bits_of(bytes)[g] == bits[g] by {
        let i = g / 8;
        let j = g % 8;
        let chunk = bits.subrange(8 * i, 8 * i + 8);
        lemma_bits_value_bound(chunk);
        lemma2_to64();
        lemma_bits_value_be_bits(chunk);
        assert(bytes[i] as nat == bits_value(chunk));
        assert(be_bits(bits_value(chunk), 8)[j] == chunk[j]);
        assert(chunk[j] == bits[g]);
    }
    assert(bits_of(bytes) =~= bits);
}

/// The bits of two byte sequences in a row are their bits in a row.
pub proof fn lemma_bits_of_concat(a: Seq<u8>, b: Seq<u8>)
    ensures
        bits_of(a + b) == bits_of(a) + bits_of(b),
{
    assert forall|g: int| 0 <= g < 8 * (a.len() + b.len()) implies bits_of(a + b)[g] == (bits_of(a)
        + bits_of(b))[g] by {
        if g >= 8 * a.len() {
            let h = g - 8 * a.len();
            assert(g / 8 == a.len() + h / 8);
            assert(g % 8 == h % 8);
        }
    }
    assert(bits_of(a + b) =~= bits_of(a) + bits_of(b));
}

/// Byte sequences with the same bits are the same.
pub proof fn lemma_bits_of_injective(a: Seq<u8>, b: Seq<u8>)
    requires
        bits_of(a) == bits_of(b),
    ensures
        a == b,
{
    lemma_bytes_of_bits_of(a);
    lemma_bytes_of_bits_of(b);
}

/// Padding fills a stream up to whole bytes, as few of them as hold it.
pub proof fn lemma_pad_to_byte(bits: Seq<bool>)
    ensures
        pad_to_byte(bits).len() % 8 == 0,
        pad_to_byte(bits).len() / 8 == (bits.len() + 7) / 8,
        bytes_of_bits(pad_to_byte(bits)).len() == (bits.len() + 7) / 8,
{
}

/// Powers of two rise with their exponents.
pub proof fn lemma_pow2_le(a: nat, b: nat)
    requires
        a <= b,
    ensures
        pow2(a) <= pow2(b),
    decreases b,
{
    if a < b {
        lemma_pow2_le(a, (b - 1) as nat);
        lemma_pow2_unfold(b);
        lemma_pow2_pos((b - 1) as nat);
    }
}

} // verus!
