use crate::errors::ParseError;
use vstd::prelude::*;
use vstd::slice::slice_subrange;

verus! {

/// The most bytes that a uvarint of 64 bits takes.
pub const MAX_UVARINT_LEN: usize = 10;

/// The encoding of `v`: seven bits per byte, least significant group first,
/// the high bit set on every byte but the last.
pub open spec fn uvarint_bytes(v: u64) -> Seq<u8>
    decreases v,
{
    if v < 0x80 {
        seq![v as u8]
    } else {
        seq![(v % 0x80 + 0x80) as u8] + uvarint_bytes(v / 0x80)
    }
}

/// The number that the low seven bits of each byte spell, least significant
/// group first.
pub open spec fn base128_value(bytes: Seq<u8>) -> nat
    decreases bytes.len(),
{
    if bytes.len() == 0 {
        0
    } else {
        (bytes[0] % 0x80) as nat + 0x80 * base128_value(bytes.skip(1))
    }
}

/// How many bytes at the start of `bytes` have their high bit set.
pub open spec fn continuation_run(bytes: Seq<u8>) -> nat
    decreases bytes.len(),
{
    if bytes.len() == 0 || bytes[0] < 0x80 {
        0
    } else {
        1 + continuation_run(bytes.skip(1))
    }
}

/// The parse of a uvarint at the start of `input`: the value and the number
/// of bytes that it takes.
///
/// Ten bytes with the high bit set, or a tenth byte above 1, are `TooLarge`;
/// an input that ends before a byte without the high bit is `Truncated`.
#[verifier::opaque]
pub open spec fn uvarint_parse(input: Seq<u8>) -> Result<(u64, nat), ParseError> {
    let head = input.take(
        if input.len() < MAX_UVARINT_LEN as nat {
            input.len() as int
        } else {
            MAX_UVARINT_LEN as int
        },
    );
    let run = continuation_run(head);
    if run == MAX_UVARINT_LEN as nat {
        Err(ParseError::TooLarge)
    } else if run == input.len() {
        Err(ParseError::Truncated { needed: Some(1) })
    } else if run == MAX_UVARINT_LEN as nat - 1 && input[run as int] > 1 {
        Err(ParseError::TooLarge)
    } else {
        Ok((base128_value(input.take(run as int + 1)) as u64, run + 1))
    }
}

/// 128 to the power `i`.
pub open spec fn pow128(i: nat) -> nat
    decreases i,
{
    if i == 0 {
        1
    } else {
        0x80 * pow128((i - 1) as nat)
    }
}

/// The powers of 128 that the proofs reckon with.
proof fn lemma_pow128_values()
    ensures
        pow128(0) == 1,
        pow128(1) == 0x80,
        pow128(8) == 0x0100_0000_0000_0000,
        pow128(9) == 0x8000_0000_0000_0000,
        forall|i: nat| #[trigger] pow128(i + 1) == 0x80 * pow128(i),
        forall|i: nat, j: nat| i <= j ==> #[trigger] pow128(i) <= #[trigger] pow128(j),
{
    reveal_with_fuel(pow128, 11);
    assert forall|i: nat, j: nat| i <= j implies #[trigger] pow128(i) <= #[trigger] pow128(j) by {
        lemma_pow128_monotonic(i, j);
    }
}

/// Powers of 128 are positive and rise with their exponents.
proof fn lemma_pow128_monotonic(i: nat, j: nat)
    requires
        i <= j,
    ensures
        0 < pow128(i) <= pow128(j),
    decreases j,
{
    if i == 0 && j == 0 {
    } else if i < j {
        lemma_pow128_monotonic(i, (j - 1) as nat);
    } else {
        lemma_pow128_monotonic((i - 1) as nat, (j - 1) as nat);
    }
}

/// Appending a byte adds its low seven bits as the next, more significant group.
proof fn lemma_base128_push(bytes: Seq<u8>, b: u8)
    ensures
        base128_value(bytes.push(b)) == base128_value(bytes) + (b % 0x80) * pow128(bytes.len()),
        base128_value(bytes) < pow128(bytes.len()),
    decreases bytes.len(),
{
    if bytes.len() == 0 {
        assert(bytes.push(b).skip(1) =~= Seq::<u8>::empty());
        assert(base128_value(bytes.push(b).skip(1)) == 0);
        assert(pow128(0) == 1);
    } else {
        let tail = bytes.skip(1);
        lemma_base128_push(tail, b);
        assert(bytes.push(b).skip(1) =~= tail.push(b));
        assert(bytes.push(b)[0] == bytes[0]);
        assert(pow128(bytes.len()) == 0x80 * pow128(tail.len()));
        assert(0x80 * ((b % 0x80) * pow128(tail.len())) == (b % 0x80) * (0x80 * pow128(tail.len())))
            by (nonlinear_arith);
    }
}

/// `continuation_run` is the index of the first byte without the high bit, or
/// the length where there is none.
proof fn lemma_continuation_run(bytes: Seq<u8>, i: nat)
    requires
        i <= bytes.len(),
        forall|j: int| 0 <= j < i ==> bytes[j] >= 0x80,
        i == bytes.len() || bytes[i as int] < 0x80,
    ensures
        continuation_run(bytes) == i,
    decreases i,
{
    if i > 0 {
        let tail = bytes.skip(1);
        assert forall|j: int| 0 <= j < i - 1 implies tail[j] >= 0x80 by {
            assert(tail[j] == bytes[j + 1]);
        }
        lemma_continuation_run(tail, (i - 1) as nat);
    }
}

/// A uvarint that parses takes between one and ten bytes of the input.
pub proof fn lemma_uvarint_parse_len(input: Seq<u8>)
    ensures
        uvarint_parse(input) matches Ok((_, n)) ==> 1 <= n <= MAX_UVARINT_LEN && n <= input.len(),
{
    reveal(uvarint_parse);
    let head = input.take(
        if input.len() < MAX_UVARINT_LEN as nat {
            input.len() as int
        } else {
            MAX_UVARINT_LEN as int
        },
    );
    lemma_continuation_run_bound(head);
}

/// A run of bytes is no longer than the bytes.
proof fn lemma_continuation_run_bound(bytes: Seq<u8>)
    ensures
        continuation_run(bytes) <= bytes.len(),
    decreases bytes.len(),
{
    if bytes.len() > 0 && bytes[0] >= 0x80 {
        lemma_continuation_run_bound(bytes.skip(1));
    }
}

/// Reads a uvarint from the start of `input` and returns the bytes that follow
/// it together with the value.
pub fn read_uvarint(input: &[u8]) -> (r: Result<(&[u8], u64), ParseError>)
    ensures
        match uvarint_parse(input@) {
            Ok((value, n)) => r matches Ok((rest, v)) && v == value && rest@ == input@.skip(
                n as int,
            ),
            Err(e) => r matches Err(err) && err == e,
        },
{
    reveal(uvarint_parse);
    let len: usize = input.len();
    let ghost head = input@.take(
        if input@.len() < MAX_UVARINT_LEN as nat {
            input@.len() as int
        } else {
            MAX_UVARINT_LEN as int
        },
    );
    let mut x: u64 = 0;
    let mut scale: u64 = 1;
    let mut i: usize = 0;
    proof {
        lemma_pow128_values();
        assert(input@.take(0) =~= Seq::<u8>::empty());
    }
    loop
        invariant
            len == input@.len(),
            uvarint_parse(input@) == ({
                let run = continuation_run(head);
                if run == MAX_UVARINT_LEN as nat {
                    Err::<(u64, nat), ParseError>(ParseError::TooLarge)
                } else if run == input@.len() {
                    Err(ParseError::Truncated { needed: Some(1) })
                } else if run == MAX_UVARINT_LEN as nat - 1 && input@[run as int] > 1 {
                    Err(ParseError::TooLarge)
                } else {
                    Ok((base128_value(input@.take(run as int + 1)) as u64, run + 1))
                }
            }),
            i < MAX_UVARINT_LEN,
            i <= len,
            head == input@.take(
                if input@.len() < MAX_UVARINT_LEN as nat {
                    input@.len() as int
                } else {
                    MAX_UVARINT_LEN as int
                },
            ),
            forall|j: int| 0 <= j < i ==> input@[j] >= 0x80,
            x == base128_value(input@.take(i as int)),
            x < pow128(i as nat),
            scale == pow128(i as nat),
        decreases MAX_UVARINT_LEN - i,
    {
        if i >= len {
            proof {
                lemma_continuation_run(head, i as nat);
            }
            return Err(ParseError::Truncated { needed: Some(1) });
        }
        let byte: u8 = input[i];
        proof {
            lemma_pow128_values();
            lemma_base128_push(input@.take(i as int), byte);
            assert(input@.take(i as int).push(byte) =~= input@.take(i + 1));
        }
        if byte < 0x80 {
            proof {
                lemma_continuation_run(head, i as nat);
            }
            if i == MAX_UVARINT_LEN - 1 && byte > 1 {
                return Err(ParseError::TooLarge);
            }
            assert(i <= 8 ==> pow128(i as nat) <= pow128(8));
            assert(byte * scale + x <= u64::MAX) by (nonlinear_arith)
                requires
                    x < scale,
                    (byte <= 1 && scale == 0x8000_0000_0000_0000) || (byte < 0x80 && scale
                        <= 0x0100_0000_0000_0000),
            ;
            let value: u64 = x + byte as u64 * scale;
            let rest = slice_subrange(input, i + 1, len);
            return Ok((rest, value));
        }
        if i == MAX_UVARINT_LEN - 1 {
            proof {
                assert forall|j: int| 0 <= j < MAX_UVARINT_LEN implies head[j] >= 0x80 by {
                    assert(head[j] == input@[j]);
                }
                lemma_continuation_run(head, MAX_UVARINT_LEN as nat);
            }
            return Err(ParseError::TooLarge);
        }
        assert(pow128(i as nat) <= pow128(8));
        assert(pow128(i as nat + 1) == 0x80 * pow128(i as nat));
        assert((byte - 0x80) * scale + x < 0x80 * scale && (byte - 0x80) * scale <= 0x7f
            * 0x0100_0000_0000_0000) by (nonlinear_arith)
            requires
                x < scale,
                scale <= 0x0100_0000_0000_0000,
                0x80 <= byte <= 0xff,
        ;
        assert(byte % 0x80 == byte - 0x80);
        x = x + (byte - 0x80) as u64 * scale;
        scale = scale * 0x80;
        i = i + 1;
    }
}

/// Appends the uvarint encoding of `value` to `writer`.
pub fn write_uvarint(value: u64, writer: &mut Vec<u8>)
    ensures
        final(writer)@ == old(writer)@ + uvarint_bytes(value),
{
    let mut x: u64 = value;
    while x >= 0x80
        invariant
            old(writer)@ + uvarint_bytes(value) == writer@ + uvarint_bytes(x),
        decreases x,
    {
        let ghost before = writer@;
        writer.push((x % 0x80 + 0x80) as u8);
        proof {
            assert(before + uvarint_bytes(x) =~= writer@ + uvarint_bytes(x / 0x80));
        }
        x = x / 0x80;
    }
    let ghost before = writer@;
    writer.push(x as u8);
    proof {
        assert(before + uvarint_bytes(x) =~= writer@);
    }
}

/// The shape of an encoding: every byte but the last has the high bit set,
/// the bytes spell the value, and a value below `2 * 128^k` takes at most
/// `k + 1` bytes, the last of which is at most 1 when all are used.
proof fn lemma_uvarint_bytes_shape(v: u64, k: nat)
    requires
        v < 2 * pow128(k),
    ensures
        1 <= uvarint_bytes(v).len() <= k + 1,
        uvarint_bytes(v).len() == k + 1 ==> uvarint_bytes(v).last() <= 1,
        forall|j: int| 0 <= j < uvarint_bytes(v).len() - 1 ==> uvarint_bytes(v)[j] >= 0x80,
        uvarint_bytes(v).last() < 0x80,
        base128_value(uvarint_bytes(v)) == v,
    decreases v,
{
    let b = uvarint_bytes(v);
    if v < 0x80 {
        assert(b.skip(1) =~= Seq::<u8>::empty());
        assert(base128_value(b.skip(1)) == 0);
        if k > 0 {
            lemma_pow128_monotonic(1, k);
        }
        lemma_pow128_values();
    } else {
        let tail = uvarint_bytes(v / 0x80);
        if k == 0 {
            lemma_pow128_values();
            assert(false);
        }
        lemma_uvarint_bytes_shape(v / 0x80, (k - 1) as nat);
        assert(b.skip(1) =~= tail);
        assert(b.last() == tail.last());
        assert forall|j: int| 0 <= j < b.len() - 1 implies b[j] >= 0x80 by {
            if j > 0 {
                assert(b[j] == tail[j - 1]);
            }
        }
    }
}

/// Decoding an encoded value gives the value back, whatever follows it, and
/// an encoding has between one and ten bytes.
pub proof fn lemma_uvarint_roundtrip(v: u64, rest: Seq<u8>)
    ensures
        1 <= uvarint_bytes(v).len() <= MAX_UVARINT_LEN,
        uvarint_parse(uvarint_bytes(v) + rest) == Ok::<(u64, nat), ParseError>(
            (v, uvarint_bytes(v).len()),
        ),
{
    reveal(uvarint_parse);
    let b = uvarint_bytes(v);
    let input = b + rest;
    lemma_pow128_values();
    lemma_uvarint_bytes_shape(v, 9);
    let n = b.len();
    let head = input.take(
        if input.len() < MAX_UVARINT_LEN as nat {
            input.len() as int
        } else {
            MAX_UVARINT_LEN as int
        },
    );
    assert forall|j: int| 0 <= j < n - 1 implies head[j] >= 0x80 by {
        assert(head[j] == b[j]);
    }
    assert(head[n - 1] == b.last());
    lemma_continuation_run(head, (n - 1) as nat);
    assert(input[n - 1] == b.last());
    assert(input.take(n as int) =~= b);
}

} // verus!
