use crate::bit_writer::{put_bit, put_bits, written_bits, BitBuffer};
use crate::bits::{
    be_bits, bits_at, cursor_moved, lemma_be_bits_value, lemma_bits_value_bound,
    lemma_cursor_moved, lemma_cursor_moved_twice, read_bit, read_bits, take_bits,
};
use crate::errors::ParseError;
use vstd::arithmetic::power2::{lemma2_to64, lemma_pow2_pos, pow2};
use vstd::bits::lemma_u64_shr_is_div;
use vstd::prelude::*;
use vstd::std_specs::bits::{
    axiom_u64_leading_zeros, axiom_u64_trailing_zeros, u64_leading_zeros, u64_trailing_zeros,
};

verus! {

/// The leading-zero count that stands for "no window yet": with it the writer
/// always opens a new window.
pub const NO_WINDOW: u8 = 0xff;

/// The leading zeros of a difference as the writer records them: at most 31,
/// since the count has five bits.
pub open spec fn xor_leading(delta: u64) -> u8 {
    if u64_leading_zeros(delta) >= 32 {
        31
    } else {
        u64_leading_zeros(delta) as u8
    }
}

/// The trailing zeros of a difference.
pub open spec fn xor_trailing(delta: u64) -> u8 {
    u64_trailing_zeros(delta) as u8
}

/// Whether the writer keeps the window of the previous value: there is one,
/// and the difference has at least as many zeros on both sides.
pub open spec fn xor_reuses_window(delta: u64, leading: u8, trailing: u8) -> bool {
    leading != NO_WINDOW && xor_leading(delta) >= leading && xor_trailing(delta) >= trailing
}

/// The encoding of a value after `previous`, the bit patterns of two doubles,
/// under the window `(leading, trailing)` of the previous value.
///
/// An equal value is one zero bit. Otherwise a one bit follows, then either a
/// zero bit and the difference's bits inside the old window, or a one bit, the
/// new leading count in five bits, the number of significant bits in six bits
/// (64 written as 0) and the significant bits.
#[verifier::opaque]
pub open spec fn varbit_xor_bits(value: u64, previous: u64, leading: u8, trailing: u8) -> Seq<
    bool,
> {
    let delta = value ^ previous;
    if delta == 0 {
        seq![false]
    } else if xor_reuses_window(delta, leading, trailing) {
        seq![true, false] + be_bits(
            (delta >> (trailing as u64)) as nat,
            (64 - leading - trailing) as nat,
        )
    } else {
        let l = xor_leading(delta);
        let t = xor_trailing(delta);
        let significant = (64 - l - t) as nat;
        seq![true, true] + be_bits(l as nat, 5) + be_bits(significant % 64, 6) + be_bits(
            (delta >> (t as u64)) as nat,
            significant,
        )
    }
}

/// The window that the writer holds after a value.
pub open spec fn varbit_xor_window(value: u64, previous: u64, leading: u8, trailing: u8) -> (
    u8,
    u8,
) {
    let delta = value ^ previous;
    if delta == 0 || xor_reuses_window(delta, leading, trailing) {
        (leading, trailing)
    } else {
        (xor_leading(delta), xor_trailing(delta))
    }
}

/// The parse of a value at the start of `bits`, after `previous` and under
/// the window `(leading, trailing)`: the value with the window that now
/// holds, and the number of bits taken.
///
/// A window of more than 63 zero bits, kept or new, is an error: it leaves
/// no bit for the difference.
#[verifier::opaque]
pub open spec fn varbit_xor_parse(bits: Seq<bool>, previous: u64, leading: u8, trailing: u8)
    -> Result<((u64, u8, u8), nat), ParseError> {
    if bits.len() < 1 {
        Err(ParseError::Truncated { needed: None })
    } else if !bits[0] {
        Ok(((previous, leading, trailing), 1))
    } else if bits.len() < 2 {
        Err(ParseError::Truncated { needed: None })
    } else if !bits[1] {
        if leading + trailing > 63 {
            Err(ParseError::Window)
        } else {
            let width = (64 - leading - trailing) as nat;
            match take_bits(bits.skip(2), width) {
                Err(e) => Err(e),
                Ok((raw, n)) => Ok(
                    ((previous ^ (raw << (trailing as u64)), leading, trailing), 2 + width),
                ),
            }
        }
    } else {
        match take_bits(bits.skip(2), 5) {
            Err(e) => Err(e),
            Ok((l, _)) => match take_bits(bits.skip(7), 6) {
                Err(e) => Err(e),
                Ok((count, _)) => {
                    let significant = if count == 0 {
                        64
                    } else {
                        count as nat
                    };
                    if l + significant > 64 {
                        Err(ParseError::Window)
                    } else {
                        let t = (64 - l - significant) as u8;
                        match take_bits(bits.skip(13), significant) {
                            Err(e) => Err(e),
                            Ok((raw, _)) => Ok(
                                ((previous ^ (raw << (t as u64)), l as u8, t), 13 + significant),
                            ),
                        }
                    }
                },
            },
        }
    }
}

/// Reads an XOR-encoded value at the cursor, after `previous_value` and under
/// the window of the previous value, which for the first value of a stream
/// is `(0, 0)`. Returns the cursor behind the value, the value and its window.
pub fn read_varbit_xor<'a>(
    previous_value: u64,
    previous_leading_bits_count: u8,
    previous_trailing_bits_count: u8,
    input: (&'a [u8], usize),
) -> (r: Result<((&'a [u8], usize), (u64, u8, u8)), ParseError>)
    ensures
        match varbit_xor_parse(
            bits_at(input.0@, input.1 as nat),
            previous_value,
            previous_leading_bits_count,
            previous_trailing_bits_count,
        ) {
            Ok((found, n)) => r matches Ok((cursor, got)) && got == found && cursor_moved(
                input,
                cursor,
                n,
            ),
            Err(e) => r matches Err(err) && err == e,
        },
{
    reveal(varbit_xor_parse);
    let ghost bits = bits_at(input.0@, input.1 as nat);
    let (after_first, different) = match read_bit(input) {
        Ok(found) => found,
        Err(e) => {
            return Err(e);
        },
    };
    if !different {
        return Ok(
            (after_first, (previous_value, previous_leading_bits_count, previous_trailing_bits_count)),
        );
    }
    proof {
        lemma_cursor_moved(input, after_first, 1);
        lemma2_to64();
    }
    let (after_flags, new_window) = match read_bit(after_first) {
        Ok(found) => found,
        Err(e) => {
            return Err(e);
        },
    };
    proof {
        lemma_cursor_moved_twice(input, after_first, after_flags, 1, 1);
        lemma_cursor_moved(input, after_flags, 2);
    }
    if !new_window {
        if previous_leading_bits_count as u16 + previous_trailing_bits_count as u16 > 63 {
            return Err(ParseError::Window);
        }
        let width: u8 = 64 - previous_leading_bits_count - previous_trailing_bits_count;
        let (end, raw) = match read_bits(after_flags, width as u32) {
            Ok(found) => found,
            Err(e) => {
                return Err(e);
            },
        };
        proof {
            lemma_cursor_moved_twice(input, after_flags, end, 2, width as nat);
        }
        let value: u64 = previous_value ^ (raw << (previous_trailing_bits_count as u64));
        return Ok((end, (value, previous_leading_bits_count, previous_trailing_bits_count)));
    }
    let (after_leading, leading) = match read_bits(after_flags, 5) {
        Ok(found) => found,
        Err(e) => {
            return Err(e);
        },
    };
    proof {
        lemma_cursor_moved_twice(input, after_flags, after_leading, 2, 5);
        lemma_cursor_moved(input, after_leading, 7);
        lemma_bits_value_bound(bits.skip(2).take(5));
    }
    let (after_count, count) = match read_bits(after_leading, 6) {
        Ok(found) => found,
        Err(e) => {
            return Err(e);
        },
    };
    proof {
        lemma_cursor_moved_twice(input, after_leading, after_count, 7, 6);
        lemma_cursor_moved(input, after_count, 13);
        lemma_bits_value_bound(bits.skip(7).take(6));
    }
    let significant: u8 = if count == 0 {
        64
    } else {
        count as u8
    };
    if leading as u8 + significant > 64 {
        return Err(ParseError::Window);
    }
    let trailing: u8 = 64 - leading as u8 - significant;
    let (end, raw) = match read_bits(after_count, significant as u32) {
        Ok(found) => found,
        Err(e) => {
            return Err(e);
        },
    };
    proof {
        lemma_cursor_moved_twice(input, after_count, end, 13, significant as nat);
    }
    let value: u64 = previous_value ^ (raw << (trailing as u64));
    Ok((end, (value, leading as u8, trailing)))
}

/// What the zero counts of a nonzero difference give: the counts leave a bit
/// between them, the bits above the trailing zeros fit any window that is
/// no narrower than the counts, and shifting them back restores the
/// difference.
proof fn lemma_window_holds(delta: u64, leading: u8, trailing: u8)
    requires
        delta != 0,
        leading <= xor_leading(delta),
        trailing <= xor_trailing(delta),
    ensures
        xor_leading(delta) <= 31,
        xor_leading(delta) + xor_trailing(delta) <= 63,
        (delta >> (trailing as u64)) < pow2((64 - leading - trailing) as nat),
        (delta >> (trailing as u64)) << (trailing as u64) == delta,
{
    axiom_u64_leading_zeros(delta);
    axiom_u64_trailing_zeros(delta);
    let lz = u64_leading_zeros(delta) as u64;
    let tz = u64_trailing_zeros(delta) as u64;
    assert(lz + tz <= 63) by {
        let top = (63 - lz) as u64;
        if top < tz {
            assert((delta >> top) & 1u64 == 0u64);
        }
    }
    let l = leading as u64;
    let t = trailing as u64;
    let width = (64 - l - t) as u64;
    assert((delta >> t) << t == delta) by (bit_vector)
        requires
            t <= tz,
            tz <= 63,
            delta << ((64 - tz) as u64) == 0,
    ;
    let shifted = delta >> t;
    assert(width < 64 ==> shifted >> width == 0) by (bit_vector)
        requires
            l <= lz,
            lz <= 63,
            t <= 63,
            l + t <= 63,
            delta >> ((64 - lz) as u64) == 0,
            shifted == delta >> t,
            width == (64 - l - t) as u64,
    ;
    lemma2_to64();
    if width < 64 {
        lemma_u64_shr_is_div(shifted, width);
        lemma_pow2_pos(width as nat);
        vstd::arithmetic::div_mod::lemma_fundamental_div_mod(shifted as int, pow2(width as nat) as int);
    }
}

/// Appends the XOR encoding of `value` after `previous_value` to
/// `bit_writer` and returns the window that now holds. For the first value of
/// a stream the window to pass is `(NO_WINDOW, 0)`.
pub fn write_varbit_xor(
    value: u64,
    previous_value: u64,
    previous_leading_bits_count: u8,
    previous_trailing_bits_count: u8,
    bit_writer: &mut BitBuffer,
) -> (window: (u8, u8))
    ensures
        written_bits(*final(bit_writer)) == written_bits(*old(bit_writer)) + varbit_xor_bits(
            value,
            previous_value,
            previous_leading_bits_count,
            previous_trailing_bits_count,
        ),
        window == varbit_xor_window(
            value,
            previous_value,
            previous_leading_bits_count,
            previous_trailing_bits_count,
        ),
{
    reveal(varbit_xor_bits);
    let ghost before = written_bits(*bit_writer);
    let delta: u64 = value ^ previous_value;
    if delta == 0 {
        put_bit(bit_writer, false);
        proof {
            assert(before.push(false) =~= before + seq![false]);
        }
        return (previous_leading_bits_count, previous_trailing_bits_count);
    }
    put_bit(bit_writer, true);
    let leading_zeros: u32 = delta.leading_zeros();
    let new_trailing: u8 = delta.trailing_zeros() as u8;
    let new_leading: u8 = if leading_zeros >= 32 {
        31
    } else {
        leading_zeros as u8
    };
    proof {
        axiom_u64_leading_zeros(delta);
        axiom_u64_trailing_zeros(delta);
        lemma_window_holds(delta, new_leading, new_trailing);
        lemma2_to64();
    }
    if previous_leading_bits_count != NO_WINDOW && new_leading >= previous_leading_bits_count
        && new_trailing >= previous_trailing_bits_count {
        proof {
            lemma_window_holds(delta, previous_leading_bits_count, previous_trailing_bits_count);
        }
        put_bit(bit_writer, false);
        let width: u32 = 64u32 - previous_leading_bits_count as u32
            - previous_trailing_bits_count as u32;
        put_bits(bit_writer, width, delta >> (previous_trailing_bits_count as u64));
        proof {
            assert(before.push(true).push(false) + be_bits(
                (delta >> (previous_trailing_bits_count as u64)) as nat,
                width as nat,
            ) =~= before + varbit_xor_bits(
                value,
                previous_value,
                previous_leading_bits_count,
                previous_trailing_bits_count,
            ));
        }
        return (previous_leading_bits_count, previous_trailing_bits_count);
    }
    put_bit(bit_writer, true);
    put_bits(bit_writer, 5, new_leading as u64);
    let significant: u32 = 64u32 - new_leading as u32 - new_trailing as u32;
    let encoded: u64 = if significant > 63 {
        0
    } else {
        significant as u64
    };
    put_bits(bit_writer, 6, encoded);
    put_bits(bit_writer, significant, delta >> (new_trailing as u64));
    proof {
        assert(before.push(true).push(true) + be_bits(new_leading as nat, 5) + be_bits(
            encoded as nat,
            6,
        ) + be_bits((delta >> (new_trailing as u64)) as nat, significant as nat) =~= before
            + varbit_xor_bits(
            value,
            previous_value,
            previous_leading_bits_count,
            previous_trailing_bits_count,
        ));
    }
    (new_leading, new_trailing)
}

/// An encoding has between 1 and 77 bits.
pub proof fn lemma_varbit_xor_bits_len(value: u64, previous: u64, leading: u8, trailing: u8)
    ensures
        1 <= varbit_xor_bits(value, previous, leading, trailing).len() <= 77,
{
    reveal(varbit_xor_bits);
    let delta = value ^ previous;
    if delta != 0 {
        lemma_window_holds(delta, 0, 0);
        if xor_reuses_window(delta, leading, trailing) {
            lemma_window_holds(delta, leading, trailing);
        }
    }
}

/// Whether a reader that holds the window `read` follows a writer that holds
/// the window `written`: the windows are equal, or the writer has none and
/// will open one before it relies on it.
pub open spec fn windows_agree(written: (u8, u8), read: (u8, u8)) -> bool {
    written.0 == NO_WINDOW || written == read
}

/// The round trip of a value that differs from the one before and fits the
/// window of the writer, which the reader shares.
proof fn lemma_roundtrip_same_window(
    value: u64,
    previous: u64,
    window: (u8, u8),
    rest: Seq<bool>,
)
    requires
        value ^ previous != 0,
        xor_reuses_window(value ^ previous, window.0, window.1),
    ensures
        varbit_xor_parse(
            varbit_xor_bits(value, previous, window.0, window.1) + rest,
            previous,
            window.0,
            window.1,
        ) == Ok::<((u64, u8, u8), nat), ParseError>(
            (
                (value, window.0, window.1),
                varbit_xor_bits(value, previous, window.0, window.1).len(),
            ),
        ),
{
    reveal(varbit_xor_parse);
    reveal(varbit_xor_bits);
    let delta = value ^ previous;
    let bits = varbit_xor_bits(value, previous, window.0, window.1);
    let all = bits + rest;
    let width = (64 - window.0 - window.1) as nat;
    let shifted = delta >> (window.1 as u64);
    lemma_window_holds(delta, window.0, window.1);
    assert(bits.len() == 2 + width);
    assert(all[0] == bits[0] && all[1] == bits[1]);
    assert(all[0] && !all[1]);
    assert(all.skip(2).take(width as int) =~= be_bits(shifted as nat, width));
    lemma_be_bits_value(shifted as nat, width);
    vstd::arithmetic::div_mod::lemma_small_mod(shifted as nat, pow2(width));
    assert(take_bits(all.skip(2), width) == Ok::<(u64, nat), ParseError>((shifted, width)));
    let back = shifted << (window.1 as u64);
    assert(previous ^ back == value) by (bit_vector)
        requires
            back == value ^ previous,
    ;
}

/// The round trip of a value for which the writer opens a new window.
proof fn lemma_roundtrip_new_window(
    value: u64,
    previous: u64,
    written: (u8, u8),
    read: (u8, u8),
    rest: Seq<bool>,
)
    requires
        value ^ previous != 0,
        !xor_reuses_window(value ^ previous, written.0, written.1),
    ensures
        varbit_xor_parse(
            varbit_xor_bits(value, previous, written.0, written.1) + rest,
            previous,
            read.0,
            read.1,
        ) == Ok::<((u64, u8, u8), nat), ParseError>(
            (
                (value, xor_leading(value ^ previous), xor_trailing(value ^ previous)),
                varbit_xor_bits(value, previous, written.0, written.1).len(),
            ),
        ),
{
    reveal(varbit_xor_parse);
    reveal(varbit_xor_bits);
    let delta = value ^ previous;
    let bits = varbit_xor_bits(value, previous, written.0, written.1);
    let all = bits + rest;
    let l = xor_leading(delta);
    let t = xor_trailing(delta);
    lemma_window_holds(delta, l, t);
    lemma2_to64();
    let significant = (64 - l - t) as nat;
    let shifted = delta >> (t as u64);
    assert(bits.len() == 13 + significant);
    assert(all[0] == bits[0] && all[1] == bits[1]);
    assert(all[0] && all[1]);
    assert(all.skip(2).take(5) =~= be_bits(l as nat, 5));
    assert(all.skip(7).take(6) =~= be_bits(significant % 64, 6));
    assert(all.skip(13).take(significant as int) =~= be_bits(shifted as nat, significant));
    lemma_be_bits_value(l as nat, 5);
    lemma_be_bits_value(significant % 64, 6);
    lemma_be_bits_value(shifted as nat, significant);
    vstd::arithmetic::div_mod::lemma_small_mod(l as nat, pow2(5));
    vstd::arithmetic::div_mod::lemma_small_mod(significant % 64, pow2(6));
    vstd::arithmetic::div_mod::lemma_small_mod(shifted as nat, pow2(significant));
    assert(take_bits(all.skip(2), 5) == Ok::<(u64, nat), ParseError>((l as u64, 5)));
    assert(take_bits(all.skip(7), 6) == Ok::<(u64, nat), ParseError>(
        ((significant % 64) as u64, 6),
    ));
    assert(take_bits(all.skip(13), significant) == Ok::<(u64, nat), ParseError>(
        (shifted, significant),
    ));
    let back = shifted << (t as u64);
    assert(previous ^ back == value) by (bit_vector)
        requires
            back == value ^ previous,
    ;
}

/// Decoding an encoded value gives the value back, whatever follows it, and
/// leaves reader and writer with windows that agree.
pub proof fn lemma_varbit_xor_roundtrip(
    value: u64,
    previous: u64,
    written: (u8, u8),
    read: (u8, u8),
    rest: Seq<bool>,
)
    requires
        windows_agree(written, read),
    ensures
        ({
            let bits = varbit_xor_bits(value, previous, written.0, written.1);
            let window = varbit_xor_window(value, previous, written.0, written.1);
            &&& varbit_xor_parse(bits + rest, previous, read.0, read.1) matches Ok(
                ((v, l, t), n),
            )
            &&& v == value
            &&& n == bits.len()
            &&& windows_agree(window, (l, t))
        }),
{
    let delta = value ^ previous;
    if delta == 0 {
        reveal(varbit_xor_parse);
        reveal(varbit_xor_bits);
        let bits = varbit_xor_bits(value, previous, written.0, written.1);
        assert(value == previous) by (bit_vector)
            requires
                value ^ previous == 0,
        ;
        assert((bits + rest)[0] == bits[0]);
    } else if xor_reuses_window(delta, written.0, written.1) {
        lemma_roundtrip_same_window(value, previous, written, rest);
    } else {
        lemma_roundtrip_new_window(value, previous, written, read, rest);
    }
}

} // verus!
