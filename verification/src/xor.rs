use crate::bit_writer::{put_bytes, written_bits, BitBuffer};
use crate::bits::{
    bits_at, bits_of, bytes_of_bits, cursor_moved, lemma_bits_of_bytes_of, lemma_bits_of_concat,
    lemma_bits_of_injective, lemma_cursor_moved, lemma_cursor_moved_twice, lemma_pad_to_byte,
    pad_to_byte,
};
use crate::bytes::{
    append_bytes, be_parse, be_u16_bytes, be_u64_bytes, lemma_be_roundtrip, lemma_be_value_bound,
    read_be, write_be_u16, write_be_u64,
};
use crate::errors::{ParseError, WriteError};
use crate::uvarint::{
    lemma_uvarint_parse_len, lemma_uvarint_roundtrip, read_uvarint, uvarint_bytes, uvarint_parse,
};
use crate::uvarint_buffer::UvarintBuffer;
use crate::varbit_ts::{
    lemma_varbit_ts_bits_len, lemma_varbit_ts_roundtrip, read_varbit_ts, varbit_ts_bits, varbit_ts_parse, write_varbit_ts,
};
use crate::varbit_xor::{
    lemma_varbit_xor_bits_len, lemma_varbit_xor_roundtrip, read_varbit_xor, varbit_xor_bits, varbit_xor_parse,
    varbit_xor_window, windows_agree, write_varbit_xor, NO_WINDOW,
};
use crate::varint::{lemma_varint_roundtrip, read_varint, varint_bytes, varint_parse, write_varint};
use vstd::prelude::*;
use vstd::slice::slice_subrange;
use vstd::wrapping::{i64_specs, u64_specs};

verus! {

/// The most samples that a chunk holds: its count has sixteen bits.
pub const MAX_SAMPLES: usize = 65535;

/// One sample of a series: a timestamp and the bit pattern of an IEEE-754
/// double, as `f64::to_bits` gives it. Values are compared bit by bit.
#[derive(Debug, Clone, Copy, PartialEq, Eq, Structural)]
pub struct XORSample {
    pub timestamp: i64,
    pub value: u64,
}

/// What a reader or a writer remembers of the sample before the next one.
#[derive(Debug, Clone, Copy, PartialEq, Eq, Structural)]
pub struct XORIterator {
    pub timestamp: i64,
    pub value: u64,
    pub leading_bits_count: u8,
    pub trailing_bits_count: u8,
    pub timestamp_delta: u64,
}

impl XORIterator {
    /// The sample that the state stands at.
    pub open spec fn sample(self) -> XORSample {
        XORSample { timestamp: self.timestamp, value: self.value }
    }
}

// ---------------------------------------------------------------- decoding
/// The parse of the first sample: a varint timestamp, then the eight bytes
/// of the value.
#[verifier::opaque]
pub open spec fn first_sample_parse(input: Seq<u8>) -> Result<(XORSample, nat), ParseError> {
    match varint_parse(input) {
        Err(e) => Err(e),
        Ok((timestamp, n)) => match be_parse(input.skip(n as int), 8) {
            Err(e) => Err(e),
            Ok((value, m)) => Ok((XORSample { timestamp, value: value as u64 }, n + m)),
        },
    }
}

/// The parse of the second sample at bit `offset` of `bytes`: from the next
/// byte boundary on, a uvarint with the distance to the first timestamp, then
/// an XOR-encoded value under the window `(0, 0)`. Gives the state after the
/// sample and the number of bits from `offset` to its end.
///
/// A distance above `i64::MAX` is `TooLarge`. The timestamp is the sum,
/// wrapped to 64 bits.
#[verifier::opaque]
pub open spec fn second_sample_parse(bytes: Seq<u8>, offset: nat, first: XORSample) -> Result<
    (XORIterator, nat),
    ParseError,
> {
    let start = (offset + 7) / 8;
    if start > bytes.len() {
        Err(ParseError::Truncated { needed: None })
    } else {
        match uvarint_parse(bytes.skip(start as int)) {
            Err(e) => Err(e),
            Ok((delta, n)) => match varbit_xor_parse(
                bits_at(bytes, 8 * (start + n)),
                first.value,
                0,
                0,
            ) {
                Err(e) => Err(e),
                Ok(((value, leading, trailing), m)) => if delta > i64::MAX {
                    Err(ParseError::TooLarge)
                } else {
                    Ok(
                        (
                            XORIterator {
                                timestamp: i64_specs::wrapping_add_unsigned(first.timestamp, delta),
                                value,
                                leading_bits_count: leading,
                                trailing_bits_count: trailing,
                                timestamp_delta: delta,
                            },
                            (8 * (start + n) + m - offset) as nat,
                        ),
                    )
                },
            },
        }
    }
}

/// The parse of a sample after the second at the start of `bits`: the
/// delta-of-delta of the timestamp, then an XOR-encoded value under the
/// window of the sample before. The distance and the timestamp are sums
/// wrapped to 64 bits.
#[verifier::opaque]
pub open spec fn next_sample_parse(bits: Seq<bool>, previous: XORIterator) -> Result<
    (XORIterator, nat),
    ParseError,
> {
    match varbit_ts_parse(bits) {
        Err(e) => Err(e),
        Ok((delta_of_delta, n)) => match varbit_xor_parse(
            bits.skip(n as int),
            previous.value,
            previous.leading_bits_count,
            previous.trailing_bits_count,
        ) {
            Err(e) => Err(e),
            Ok(((value, leading, trailing), m)) => {
                let delta = u64_specs::wrapping_add_signed(previous.timestamp_delta, delta_of_delta);
                Ok(
                    (
                        XORIterator {
                            timestamp: i64_specs::wrapping_add_unsigned(previous.timestamp, delta),
                            value,
                            leading_bits_count: leading,
                            trailing_bits_count: trailing,
                            timestamp_delta: delta,
                        },
                        n + m,
                    ),
                )
            },
        },
    }
}

/// The parse of `count` samples in a row at the start of `bits`, each after
/// the one before it.
#[verifier::opaque]
pub open spec fn samples_parse(bits: Seq<bool>, previous: XORIterator, count: nat) -> Result<
    (Seq<XORSample>, nat),
    ParseError,
>
    decreases count,
{
    if count == 0 {
        Ok((Seq::empty(), 0))
    } else {
        match next_sample_parse(bits, previous) {
            Err(e) => Err(e),
            Ok((state, n)) => match samples_parse(bits.skip(n as int), state, (count - 1) as nat) {
                Err(e) => Err(e),
                Ok((tail, m)) => Ok((seq![state.sample()] + tail, n + m)),
            },
        }
    }
}

/// The parse of the samples that follow the first, where the chunk holds
/// `count` samples in all: the whole list, first sample included, and the
/// number of bits from `offset` to its end.
#[verifier::opaque]
pub open spec fn following_samples_parse(
    bytes: Seq<u8>,
    offset: nat,
    first: XORSample,
    count: nat,
) -> Result<(Seq<XORSample>, nat), ParseError> {
    if count <= 1 {
        Ok((seq![first], 0))
    } else {
        match second_sample_parse(bytes, offset, first) {
            Err(e) => Err(e),
            Ok((state, n)) => match samples_parse(
                bits_at(bytes, offset + n),
                state,
                (count - 2) as nat,
            ) {
                Err(e) => Err(e),
                Ok((tail, m)) => Ok((seq![first, state.sample()] + tail, n + m)),
            },
        }
    }
}

/// The parse of a chunk's payload: the count in two bytes, the first sample,
/// then the bit stream of the other samples. Gives the samples and the
/// number of bytes taken, the last of which may be filled up with padding.
///
/// A count of 0 is read as 1: the first sample is always there.
pub open spec fn xor_chunk_parse(input: Seq<u8>) -> Result<(Seq<XORSample>, nat), ParseError> {
    match be_parse(input, 2) {
        Err(e) => Err(e),
        Ok((count, _)) => match first_sample_parse(input.skip(2)) {
            Err(e) => Err(e),
            Ok((first, n)) => match following_samples_parse(
                input.skip(2 + n as int),
                0,
                first,
                count,
            ) {
                Err(e) => Err(e),
                Ok((samples, bits)) => Ok((samples, 2 + n + (bits + 7) / 8)),
            },
        },
    }
}

fn read_first_sample(input: &[u8]) -> (r: Result<(&[u8], XORSample), ParseError>)
    ensures
        match first_sample_parse(input@) {
            Ok((sample, n)) => r matches Ok((rest, s)) && s == sample && rest@ == input@.skip(
                n as int,
            ),
            Err(e) => r matches Err(err) && err == e,
        },
{
    reveal(first_sample_parse);
    let (after_timestamp, timestamp) = match read_varint(input) {
        Ok(found) => found,
        Err(e) => {
            return Err(e);
        },
    };
    let (rest, value) = match read_be(after_timestamp, 8) {
        Ok(found) => found,
        Err(e) => {
            return Err(e);
        },
    };
    proof {
        let n = varint_parse(input@).unwrap().1;
        lemma_uvarint_parse_len(input@);
        assert(input@.skip(n as int).skip(8) =~= input@.skip(n as int + 8));
    }
    Ok((rest, XORSample { timestamp, value }))
}

/// Reads the second sample of a chunk at the cursor, after a first sample
/// with the given timestamp and value.
pub fn read_second_sample<'a>(first_timestamp: i64, first_value: u64, input: (&'a [u8], usize)) -> (r:
    Result<((&'a [u8], usize), XORIterator), ParseError>)
    ensures
        match second_sample_parse(
            input.0@,
            input.1 as nat,
            XORSample { timestamp: first_timestamp, value: first_value },
        ) {
            Ok((state, n)) => r matches Ok((cursor, s)) && s == state && cursor_moved(
                input,
                cursor,
                n,
            ),
            Err(e) => r matches Err(err) && err == e,
        },
{
    reveal(second_sample_parse);
    let bytes: &'a [u8] = input.0;
    let len: usize = bytes.len();
    let start: usize = input.1 / 8 + if input.1 % 8 != 0 {
        1usize
    } else {
        0usize
    };
    if start > len {
        return Err(ParseError::Truncated { needed: None });
    }
    let aligned = slice_subrange(bytes, start, len);
    let (after_delta, timestamp_delta) = match read_uvarint(aligned) {
        Ok(found) => found,
        Err(e) => {
            return Err(e);
        },
    };
    let ghost n = uvarint_parse(bytes@.skip(start as int)).unwrap().1;
    let ghost at: nat = (8 * (start + n)) as nat;
    proof {
        lemma_uvarint_parse_len(bytes@.skip(start as int));
        assert(bytes@.skip(start as int).skip(n as int) =~= bytes@.skip(start + n));
        assert(bits_at(after_delta@, 0) =~= bits_at(bytes@, at)) by {
            let from: (&[u8], usize) = (bytes, 0);
            let to: (&[u8], usize) = (after_delta, 0);
            assert(cursor_moved(from, to, at));
            lemma_cursor_moved(from, to, at);
            assert(bits_at(bytes@, 0).skip(at as int) =~= bits_at(bytes@, at));
        }
    }
    let (end, found) = match read_varbit_xor(first_value, 0, 0, (after_delta, 0)) {
        Ok(found) => found,
        Err(e) => {
            return Err(e);
        },
    };
    if timestamp_delta > i64::MAX as u64 {
        return Err(ParseError::TooLarge);
    }
    proof {
        let m = varbit_xor_parse(bits_at(bytes@, at), first_value, 0, 0).unwrap().1;
        let total = (at + m - input.1) as nat;
        assert((at + m) / 8 == start + n + m / 8);
        assert(after_delta@.skip(m as int / 8) =~= bytes@.skip((input.1 + total) as int / 8));
        assert(cursor_moved(input, end, total));
    }
    Ok(
        (
            end,
            XORIterator {
                timestamp: first_timestamp.wrapping_add_unsigned(timestamp_delta),
                value: found.0,
                leading_bits_count: found.1,
                trailing_bits_count: found.2,
                timestamp_delta,
            },
        ),
    )
}

fn read_n_sample<'a>(previous: &XORIterator, input: (&'a [u8], usize)) -> (r: Result<
    ((&'a [u8], usize), XORIterator),
    ParseError,
>)
    ensures
        match next_sample_parse(bits_at(input.0@, input.1 as nat), *previous) {
            Ok((state, n)) => r matches Ok((cursor, s)) && s == state && cursor_moved(
                input,
                cursor,
                n,
            ),
            Err(e) => r matches Err(err) && err == e,
        },
{
    reveal(next_sample_parse);
    let ghost bits = bits_at(input.0@, input.1 as nat);
    let (after_timestamp, delta_of_delta) = match read_varbit_ts(input) {
        Ok(found) => found,
        Err(e) => {
            return Err(e);
        },
    };
    proof {
        lemma_cursor_moved(input, after_timestamp, varbit_ts_parse(bits).unwrap().1);
    }
    let (end, found) = match read_varbit_xor(
        previous.value,
        previous.leading_bits_count,
        previous.trailing_bits_count,
        after_timestamp,
    ) {
        Ok(found) => found,
        Err(e) => {
            return Err(e);
        },
    };
    proof {
        let n = varbit_ts_parse(bits).unwrap().1;
        let m = varbit_xor_parse(
            bits.skip(n as int),
            previous.value,
            previous.leading_bits_count,
            previous.trailing_bits_count,
        ).unwrap().1;
        lemma_cursor_moved_twice(input, after_timestamp, end, n, m);
    }
    let timestamp_delta: u64 = previous.timestamp_delta.wrapping_add_signed(delta_of_delta);
    Ok(
        (
            end,
            XORIterator {
                timestamp: previous.timestamp.wrapping_add_unsigned(timestamp_delta),
                value: found.0,
                leading_bits_count: found.1,
                trailing_bits_count: found.2,
                timestamp_delta,
            },
        ),
    )
}

fn read_following_samples<'a>(
    first_timestamp: i64,
    first_value: u64,
    num_samples: u16,
    input: (&'a [u8], usize),
) -> (r: Result<((&'a [u8], usize), Vec<XORSample>), ParseError>)
    ensures
        match following_samples_parse(
            input.0@,
            input.1 as nat,
            XORSample { timestamp: first_timestamp, value: first_value },
            num_samples as nat,
        ) {
            Ok((samples, n)) => r matches Ok((cursor, found)) && found@ == samples && cursor_moved(
                input,
                cursor,
                n,
            ),
            Err(e) => r matches Err(err) && err == e,
        },
{
    reveal(following_samples_parse);
    let ghost first = XORSample { timestamp: first_timestamp, value: first_value };
    let mut samples: Vec<XORSample> = Vec::with_capacity(num_samples as usize);
    samples.push(XORSample { timestamp: first_timestamp, value: first_value });
    if num_samples <= 1 {
        assert(samples@ =~= seq![first]);
        return Ok((input, samples));
    }
    let (after_second, second) = match read_second_sample(first_timestamp, first_value, input) {
        Ok(found) => found,
        Err(e) => {
            return Err(e);
        },
    };
    samples.push(XORSample { timestamp: second.timestamp, value: second.value });
    let ghost n2 = second_sample_parse(input.0@, input.1 as nat, first).unwrap().1;
    let ghost all = samples_parse(
        bits_at(input.0@, input.1 as nat + n2),
        second,
        (num_samples - 2) as nat,
    );
    let ghost goal = following_samples_parse(
        input.0@,
        input.1 as nat,
        first,
        num_samples as nat,
    );
    assert(goal == (match all {
        Ok((tail, m)) => Ok::<(Seq<XORSample>, nat), ParseError>(
            (seq![first, second.sample()] + tail, n2 + m),
        ),
        Err(e) => Err(e),
    }));
    let mut state: XORIterator = second;
    let mut cursor: (&'a [u8], usize) = after_second;
    let ghost mut moved: nat = n2;
    let mut i: u16 = 2;
    proof {
        lemma_cursor_moved(input, after_second, n2);
        lemma_skip_bits_at(input.0@, input.1 as nat, n2);
        assert(samples@.skip(2) =~= Seq::<XORSample>::empty());
        match all {
            Ok((tail, m)) => {
                assert(samples@.skip(2) + tail =~= tail);
            },
            Err(e) => {},
        }
    }
    while i < num_samples
        invariant
            2 <= i <= num_samples,
            cursor_moved(input, cursor, moved),
            all == samples_parse(
                bits_at(input.0@, input.1 as nat + n2),
                second,
                (num_samples - 2) as nat,
            ),
            match samples_parse(bits_at(cursor.0@, cursor.1 as nat), state, (num_samples - i) as nat) {
                Ok((tail, m)) => all == Ok::<(Seq<XORSample>, nat), ParseError>(
                    (samples@.skip(2) + tail, (moved - n2 + m) as nat),
                ),
                Err(e) => all == Err::<(Seq<XORSample>, nat), ParseError>(e),
            },
            moved >= n2,
            first == (XORSample { timestamp: first_timestamp, value: first_value }),
            goal == following_samples_parse(input.0@, input.1 as nat, first, num_samples as nat),
            goal == (match all {
                Ok((tail, m)) => Ok::<(Seq<XORSample>, nat), ParseError>(
                    (seq![first, second.sample()] + tail, n2 + m),
                ),
                Err(e) => Err(e),
            }),
            samples@.len() == i,
            samples@[0] == first,
            samples@[1] == second.sample(),
        decreases num_samples - i,
    {
        let ghost bits = bits_at(cursor.0@, cursor.1 as nat);
        let ghost tail_before = samples@.skip(2);
        proof {
            lemma_samples_parse_step(bits, state, (num_samples - i) as nat);
        }
        match read_n_sample(&state, cursor) {
            Ok((next_cursor, next_state)) => {
                proof {
                    let n = next_sample_parse(bits, state).unwrap().1;
                    lemma_cursor_moved(cursor, next_cursor, n);
                    lemma_cursor_moved_twice(input, cursor, next_cursor, moved, n);
                    moved = moved + n;
                    match samples_parse(bits.skip(n as int), next_state, (num_samples - i - 1) as nat) {
                        Ok((tail, m)) => {
                            assert(tail_before.push(next_state.sample()) + tail =~= tail_before + (
                            seq![next_state.sample()] + tail));
                        },
                        Err(e) => {},
                    }
                }
                cursor = next_cursor;
                state = next_state;
            },
            Err(e) => {
                return Err(e);
            },
        }
        samples.push(XORSample { timestamp: state.timestamp, value: state.value });
        proof {
            assert(samples@.skip(2) =~= tail_before.push(state.sample()));
        }
        i = i + 1;
    }
    proof {
        lemma_samples_parse_done(bits_at(cursor.0@, cursor.1 as nat), state);
        assert(samples@.skip(2) + Seq::<XORSample>::empty() =~= samples@.skip(2));
        assert(samples@ =~= seq![first, second.sample()] + samples@.skip(2));
    }
    Ok((cursor, samples))
}

/// A run of no samples takes no bit.
proof fn lemma_samples_parse_done(bits: Seq<bool>, previous: XORIterator)
    ensures
        samples_parse(bits, previous, 0) == Ok::<(Seq<XORSample>, nat), ParseError>(
            (Seq::empty(), 0),
        ),
{
    reveal_with_fuel(samples_parse, 1);
}

/// How the parse of a run of samples unfolds at its first sample.
proof fn lemma_samples_parse_step(bits: Seq<bool>, previous: XORIterator, count: nat)
    requires
        count > 0,
    ensures
        samples_parse(bits, previous, count) == (match next_sample_parse(bits, previous) {
            Err(e) => Err::<(Seq<XORSample>, nat), ParseError>(e),
            Ok((state, n)) => match samples_parse(bits.skip(n as int), state, (count - 1) as nat) {
                Err(e) => Err(e),
                Ok((tail, m)) => Ok((seq![state.sample()] + tail, n + m)),
            },
        }),
{
    reveal_with_fuel(samples_parse, 2);
}

/// The bits that lie `n` bits behind a cursor are those at the sum.
pub proof fn lemma_skip_bits_at(bytes: Seq<u8>, offset: nat, n: nat)
    requires
        n <= bits_at(bytes, offset).len(),
    ensures
        bits_at(bytes, offset).skip(n as int) == bits_at(bytes, offset + n),
{
    if offset <= 8 * bytes.len() {
        assert(bits_at(bytes, offset).skip(n as int) =~= bits_at(bytes, offset + n));
    } else {
        assert(bits_at(bytes, offset).skip(n as int) =~= bits_at(bytes, offset + n));
    }
}

/// A first sample that parses lies within the input.
proof fn lemma_first_sample_parse_len(input: Seq<u8>)
    ensures
        first_sample_parse(input) matches Ok((_, n)) ==> 9 <= n <= input.len(),
{
    reveal(first_sample_parse);
    lemma_uvarint_parse_len(input);
}

/// A chunk of samples in the XOR encoding, with the reference that locates
/// it in a block, where it was read from a chunks file of known number.
#[derive(Debug)]
pub struct XORChunk {
    samples: Vec<XORSample>,
    block_chunk_ref: Option<u64>,
}

impl View for XORChunk {
    type V = Seq<XORSample>;

    /// The samples of the chunk, in order.
    closed spec fn view(&self) -> Seq<XORSample> {
        self.samples@
    }
}

impl PartialEq for XORChunk {
    /// Chunks are equal where their samples are: the reference does not count.
    fn eq(&self, other: &Self) -> (r: bool) {
        if self.samples.len() != other.samples.len() {
            return false;
        }
        let mut i: usize = 0;
        while i < self.samples.len()
            invariant
                i <= self.samples@.len(),
                self.samples@.len() == other.samples@.len(),
                forall|j: int| 0 <= j < i ==> self.samples@[j] == other.samples@[j],
            decreases self.samples@.len() - i,
        {
            if self.samples[i] != other.samples[i] {
                return false;
            }
            i = i + 1;
        }
        assert(self.samples@ =~= other.samples@);
        true
    }
}

impl vstd::std_specs::cmp::PartialEqSpecImpl for XORChunk {
    open spec fn obeys_eq_spec() -> bool {
        true
    }

    open spec fn eq_spec(&self, other: &Self) -> bool {
        self@ == other@
    }
}

/// The reference of the chunk that starts `offset` bytes into the chunks
/// file number `file_index`: the number in the upper 32 bits, the offset
/// below.
pub open spec fn block_chunk_ref_of(file_index: u64, offset: u64) -> u64 {
    (file_index << 32) | offset
}

impl XORChunk {
    /// The reference of the chunk, where it has one.
    pub closed spec fn block_ref(&self) -> Option<u64> {
        self.block_chunk_ref
    }

    /// A chunk of the given samples, without a reference.
    pub fn new(samples: Vec<XORSample>) -> (chunk: Self)
        ensures
            chunk@ == samples@,
            chunk.block_ref() is None,
    {
        Self { samples, block_chunk_ref: None }
    }

    /// The samples of the chunk.
    pub fn samples(&self) -> (samples: &[XORSample])
        ensures
            samples@ == self@,
    {
        self.samples.as_slice()
    }

    /// The reference of the chunk, where it has one.
    pub fn block_chunk_ref(&self) -> (r: Option<u64>)
        ensures
            r == self.block_ref(),
    {
        self.block_chunk_ref
    }

    /// Gives the chunk the reference of its place in a chunks file.
    pub fn compute_block_chunk_ref(&mut self, file_index: u64, offset: u64)
        ensures
            final(self)@ == old(self)@,
            final(self).block_ref() == Some(block_chunk_ref_of(file_index, offset)),
    {
        self.block_chunk_ref = Some((file_index << 32) | offset);
    }
}

/// Reads the payload of an XOR chunk from the start of `input` and returns
/// the bytes that follow it together with the chunk. The payload has neither
/// the header of a frame nor its checksum.
pub fn read_xor_chunk_data(input: &[u8]) -> (r: Result<(&[u8], XORChunk), ParseError>)
    ensures
        match xor_chunk_parse(input@) {
            Ok((samples, n)) => r matches Ok((rest, chunk)) && chunk@ == samples
                && chunk.block_ref() is None && n <= input@.len() && rest@ == input@.skip(n as int),
            Err(e) => r matches Err(err) && err == e,
        },
{
    let (after_count, count) = match read_be(input, 2) {
        Ok(found) => found,
        Err(e) => {
            return Err(e);
        },
    };
    proof {
        lemma_be_value_bound(input@.take(2));
    }
    let (body, first) = match read_first_sample(after_count) {
        Ok(found) => found,
        Err(e) => {
            return Err(e);
        },
    };
    let ghost n = first_sample_parse(input@.skip(2)).unwrap().1;
    proof {
        lemma_first_sample_parse_len(input@.skip(2));
        assert(input@.skip(2).skip(n as int) =~= input@.skip(2 + n as int));
    }
    let (cursor, samples) = match read_following_samples(
        first.timestamp,
        first.value,
        count as u16,
        (body, 0),
    ) {
        Ok(found) => found,
        Err(e) => {
            return Err(e);
        },
    };
    let used: usize = if cursor.1 != 0 {
        1
    } else {
        0
    };
    let ghost bits = following_samples_parse(body@, 0, first, count as nat).unwrap().1;
    proof {
        lemma_cursor_moved((body, 0), cursor, bits);
        assert((bits + 7) / 8 == bits / 8 + used);
        assert(body@.skip(bits as int / 8).skip(used as int) =~= input@.skip(
            (2 + n + (bits + 7) / 8) as int,
        ));
    }
    let rest = slice_subrange(cursor.0, used, cursor.0.len());
    Ok((rest, XORChunk { samples, block_chunk_ref: None }))
}

// ---------------------------------------------------------------- encoding
/// How far the timestamp of sample `i` lies behind the one before it.
pub open spec fn timestamp_gap(samples: Seq<XORSample>, i: int) -> int {
    samples[i].timestamp - samples[i - 1].timestamp
}

/// Why a gap between two timestamps cannot be written, if it cannot.
pub open spec fn gap_error(gap: int) -> Option<WriteError> {
    if gap < 0 {
        Some(WriteError::UnsortedSamples)
    } else if gap > i64::MAX {
        Some(WriteError::TimestampGapTooLarge)
    } else {
        None
    }
}

/// The error of the first gap, from sample `from` on, that cannot be written.
pub open spec fn first_gap_error(samples: Seq<XORSample>, from: int) -> Option<WriteError>
    decreases samples.len() - from,
{
    if from >= samples.len() {
        None
    } else {
        match gap_error(timestamp_gap(samples, from)) {
            Some(e) => Some(e),
            None => first_gap_error(samples, from + 1),
        }
    }
}

/// Why a list of samples cannot be written as one chunk, if it cannot: it is
/// too long, or empty, or holds a gap that cannot be written.
pub open spec fn xor_write_error(samples: Seq<XORSample>) -> Option<WriteError> {
    if samples.len() > MAX_SAMPLES {
        Some(WriteError::TooManySamples)
    } else if samples.len() == 0 {
        Some(WriteError::NoSamples)
    } else {
        first_gap_error(samples, 1)
    }
}

/// The window that the writer holds after the first `k` samples.
pub open spec fn window_after(samples: Seq<XORSample>, k: nat) -> (u8, u8)
    decreases k,
{
    if k <= 1 {
        (NO_WINDOW, 0)
    } else {
        let window = window_after(samples, (k - 1) as nat);
        varbit_xor_window(samples[k - 1].value, samples[k - 2].value, window.0, window.1)
    }
}

/// The bits of sample `i`, which is not the first: its timestamp, as a
/// uvarint of the gap for the second sample and as the varbit of the
/// difference of two gaps from the third on, then its XOR-encoded value.
pub open spec fn sample_bits(samples: Seq<XORSample>, i: int) -> Seq<bool> {
    let window = window_after(samples, i as nat);
    let timestamp_bits = if i == 1 {
        bits_of(uvarint_bytes(timestamp_gap(samples, 1) as u64))
    } else {
        varbit_ts_bits((timestamp_gap(samples, i) - timestamp_gap(samples, i - 1)) as i64)
    };
    timestamp_bits + varbit_xor_bits(samples[i].value, samples[i - 1].value, window.0, window.1)
}

/// The bits of the samples after the first, up to the first `k` samples.
pub open spec fn stream_bits(samples: Seq<XORSample>, k: nat) -> Seq<bool>
    decreases k,
{
    if k <= 1 {
        Seq::empty()
    } else {
        stream_bits(samples, (k - 1) as nat) + sample_bits(samples, k - 1)
    }
}

/// The payload of a chunk: the count in two bytes, the first sample as a
/// varint and eight bytes, then the bit stream of the other samples, filled
/// up with zero bits to a whole byte.
pub open spec fn xor_chunk_bytes(samples: Seq<XORSample>) -> Seq<u8> {
    be_u16_bytes(samples.len() as u16) + varint_bytes(samples[0].timestamp) + be_u64_bytes(
        samples[0].value,
    ) + bytes_of_bits(pad_to_byte(stream_bits(samples, samples.len())))
}

/// What the writer remembers after the first `k` samples, two at least.
pub open spec fn iterator_after(samples: Seq<XORSample>, k: nat) -> XORIterator {
    let window = window_after(samples, k);
    XORIterator {
        timestamp: samples[k - 1].timestamp,
        value: samples[k - 1].value,
        leading_bits_count: window.0,
        trailing_bits_count: window.1,
        timestamp_delta: timestamp_gap(samples, k - 1) as u64,
    }
}

fn write_first_sample(first_sample: &XORSample, writer: &mut Vec<u8>)
    ensures
        final(writer)@ == old(writer)@ + varint_bytes(first_sample.timestamp) + be_u64_bytes(
            first_sample.value,
        ),
{
    write_varint(first_sample.timestamp, writer);
    write_be_u64(first_sample.value, writer);
}

fn write_second_sample(second_sample: &XORSample, first_sample: &XORSample, writer: &mut BitBuffer) -> (r:
    Result<XORIterator, WriteError>)
    ensures
        match gap_error(second_sample.timestamp - first_sample.timestamp) {
            Some(e) => r == Err::<XORIterator, WriteError>(e),
            None => {
                let window = varbit_xor_window(
                    second_sample.value,
                    first_sample.value,
                    NO_WINDOW,
                    0,
                );
                &&& r == Ok::<XORIterator, WriteError>(
                    XORIterator {
                        timestamp: second_sample.timestamp,
                        value: second_sample.value,
                        leading_bits_count: window.0,
                        trailing_bits_count: window.1,
                        timestamp_delta: (second_sample.timestamp - first_sample.timestamp) as u64,
                    },
                )
                &&& written_bits(*final(writer)) == written_bits(*old(writer)) + (bits_of(
                    uvarint_bytes((second_sample.timestamp - first_sample.timestamp) as u64),
                ) + varbit_xor_bits(second_sample.value, first_sample.value, NO_WINDOW, 0))
            },
        },
{
    let gap: i128 = second_sample.timestamp as i128 - first_sample.timestamp as i128;
    if gap < 0 {
        return Err(WriteError::UnsortedSamples);
    }
    if gap > i64::MAX as i128 {
        return Err(WriteError::TimestampGapTooLarge);
    }
    let timestamp_delta: u64 = gap as u64;
    let ghost before = written_bits(*writer);
    // The uvarint goes through a small buffer on the stack: the bit writer
    // takes bytes, not a sink for them.
    let gap_bytes = UvarintBuffer::of(timestamp_delta);
    put_bytes(writer, gap_bytes.as_bytes());
    let window = write_varbit_xor(second_sample.value, first_sample.value, NO_WINDOW, 0, writer);
    proof {
        let xor = varbit_xor_bits(second_sample.value, first_sample.value, NO_WINDOW, 0);
        assert(before + bits_of(uvarint_bytes(timestamp_delta)) + xor =~= before + (bits_of(
            uvarint_bytes(timestamp_delta),
        ) + xor));
    }
    Ok(
        XORIterator {
            timestamp: second_sample.timestamp,
            value: second_sample.value,
            leading_bits_count: window.0,
            trailing_bits_count: window.1,
            timestamp_delta,
        },
    )
}

fn write_n_sample(previous: &XORIterator, sample: &XORSample, writer: &mut BitBuffer) -> (r: Result<
    XORIterator,
    WriteError,
>)
    requires
        previous.timestamp_delta <= i64::MAX,
    ensures
        match gap_error(sample.timestamp - previous.timestamp) {
            Some(e) => r == Err::<XORIterator, WriteError>(e),
            None => {
                let window = varbit_xor_window(
                    sample.value,
                    previous.value,
                    previous.leading_bits_count,
                    previous.trailing_bits_count,
                );
                &&& r == Ok::<XORIterator, WriteError>(
                    XORIterator {
                        timestamp: sample.timestamp,
                        value: sample.value,
                        leading_bits_count: window.0,
                        trailing_bits_count: window.1,
                        timestamp_delta: (sample.timestamp - previous.timestamp) as u64,
                    },
                )
                &&& written_bits(*final(writer)) == written_bits(*old(writer)) + (varbit_ts_bits(
                    (sample.timestamp - previous.timestamp - previous.timestamp_delta) as i64,
                ) + varbit_xor_bits(
                    sample.value,
                    previous.value,
                    previous.leading_bits_count,
                    previous.trailing_bits_count,
                ))
            },
        },
{
    let gap: i128 = sample.timestamp as i128 - previous.timestamp as i128;
    if gap < 0 {
        return Err(WriteError::UnsortedSamples);
    }
    if gap > i64::MAX as i128 {
        return Err(WriteError::TimestampGapTooLarge);
    }
    let timestamp_delta: u64 = gap as u64;
    let delta_of_delta: i64 = (gap - previous.timestamp_delta as i128) as i64;
    let ghost before = written_bits(*writer);
    write_varbit_ts(delta_of_delta, writer);
    let window = write_varbit_xor(
        sample.value,
        previous.value,
        previous.leading_bits_count,
        previous.trailing_bits_count,
        writer,
    );
    proof {
        let xor = varbit_xor_bits(
            sample.value,
            previous.value,
            previous.leading_bits_count,
            previous.trailing_bits_count,
        );
        assert(before + varbit_ts_bits(delta_of_delta) + xor =~= before + (varbit_ts_bits(
            delta_of_delta,
        ) + xor));
    }
    Ok(
        XORIterator {
            timestamp: sample.timestamp,
            value: sample.value,
            leading_bits_count: window.0,
            trailing_bits_count: window.1,
            timestamp_delta,
        },
    )
}

impl XORChunk {
    /// Appends the payload of the chunk to `writer`, or leaves `writer` as
    /// it is and says why the samples cannot be written.
    pub fn write(&self, writer: &mut Vec<u8>) -> (r: Result<(), WriteError>)
        ensures
            match xor_write_error(self@) {
                Some(e) => r == Err::<(), WriteError>(e) && final(writer)@ == old(writer)@,
                None => r is Ok && final(writer)@ == old(writer)@ + xor_chunk_bytes(self@),
            },
    {
        let num_samples: usize = self.samples.len();
        if num_samples > MAX_SAMPLES {
            return Err(WriteError::TooManySamples);
        }
        if num_samples == 0 {
            return Err(WriteError::NoSamples);
        }
        let ghost samples = self@;
        let ghost before = writer@;
        let mut head: Vec<u8> = Vec::new();
        write_be_u16(num_samples as u16, &mut head);
        write_first_sample(&self.samples[0], &mut head);
        proof {
            assert(head@ =~= be_u16_bytes(samples.len() as u16) + varint_bytes(
                samples[0].timestamp,
            ) + be_u64_bytes(samples[0].value));
        }
        let mut bit_writer = BitBuffer::new();
        if num_samples > 1 {
            let mut iterator = match write_second_sample(
                &self.samples[1],
                &self.samples[0],
                &mut bit_writer,
            ) {
                Ok(state) => state,
                Err(e) => {
                    return Err(e);
                },
            };
            let mut i: usize = 2;
            proof {
                reveal_with_fuel(stream_bits, 3);
                reveal_with_fuel(window_after, 3);
                assert(stream_bits(samples, 2) =~= sample_bits(samples, 1));
                assert(Seq::<bool>::empty() + sample_bits(samples, 1) =~= sample_bits(samples, 1));
            }
            while i < num_samples
                invariant
                    2 <= i <= num_samples,
                    num_samples == samples.len(),
                    samples == self@,
                    num_samples <= MAX_SAMPLES,
                    first_gap_error(samples, 1) == first_gap_error(samples, i as int),
                    written_bits(bit_writer) == stream_bits(samples, i as nat),
                    iterator == iterator_after(samples, i as nat),
                    iterator.timestamp_delta <= i64::MAX,
                    timestamp_gap(samples, i - 1) == iterator.timestamp_delta,
                    writer@ == before,
                decreases num_samples - i,
            {
                iterator = match write_n_sample(&iterator, &self.samples[i], &mut bit_writer) {
                    Ok(state) => state,
                    Err(e) => {
                        return Err(e);
                    },
                };
                i = i + 1;
            }
        }
        bit_writer.byte_align();
        let body: Vec<u8> = bit_writer.into_bytes();
        append_bytes(writer, head.as_slice());
        append_bytes(writer, body.as_slice());
        proof {
            assert(writer@ =~= before + xor_chunk_bytes(samples));
        }
        Ok(())
    }
}

// ------------------------------------------------------------ round trip
/// The bits of the samples from sample `k` on.
pub open spec fn suffix_bits(samples: Seq<XORSample>, k: nat) -> Seq<bool>
    decreases samples.len() - k,
{
    if k >= samples.len() {
        Seq::empty()
    } else {
        sample_bits(samples, k as int) + suffix_bits(samples, k + 1)
    }
}

/// Whether a reader stands where the writer stood after the first `k`
/// samples: at the same sample, with the same gap and a window that agrees.
pub open spec fn follows(reader: XORIterator, samples: Seq<XORSample>, k: nat) -> bool {
    &&& reader.timestamp == samples[k - 1].timestamp
    &&& reader.value == samples[k - 1].value
    &&& reader.timestamp_delta == timestamp_gap(samples, k - 1)
    &&& windows_agree(
        window_after(samples, k),
        (reader.leading_bits_count, reader.trailing_bits_count),
    )
}

/// The stream of all samples is the stream of the first `k`, then the bits
/// of the others.
proof fn lemma_stream_split(samples: Seq<XORSample>, k: nat)
    requires
        1 <= k <= samples.len(),
    ensures
        stream_bits(samples, samples.len()) == stream_bits(samples, k) + suffix_bits(samples, k),
    decreases samples.len() - k,
{
    if k < samples.len() {
        lemma_stream_split(samples, k + 1);
        assert(stream_bits(samples, k + 1) == stream_bits(samples, k) + sample_bits(
            samples,
            k as int,
        ));
        assert(stream_bits(samples, k) + sample_bits(samples, k as int) + suffix_bits(
            samples,
            k + 1,
        ) =~= stream_bits(samples, k) + suffix_bits(samples, k));
    } else {
        assert(stream_bits(samples, k) + suffix_bits(samples, k) =~= stream_bits(samples, k));
    }
}

/// Where no gap from `from` on fails, the gap before sample `i` does not.
proof fn lemma_no_gap_error(samples: Seq<XORSample>, from: int, i: int)
    requires
        first_gap_error(samples, from) is None,
        from <= i < samples.len(),
    ensures
        gap_error(timestamp_gap(samples, i)) is None,
    decreases i - from,
{
    if from < i {
        lemma_no_gap_error(samples, from + 1, i);
    }
}

/// A reader that follows the writer after `k` samples reads the other
/// samples back from their bits, whatever comes behind them.
proof fn lemma_samples_roundtrip(
    samples: Seq<XORSample>,
    k: nat,
    reader: XORIterator,
    tail: Seq<bool>,
)
    requires
        2 <= k <= samples.len(),
        first_gap_error(samples, 1) is None,
        follows(reader, samples, k),
    ensures
        samples_parse(suffix_bits(samples, k) + tail, reader, (samples.len() - k) as nat) == Ok::<
            (Seq<XORSample>, nat),
            ParseError,
        >((samples.skip(k as int), suffix_bits(samples, k).len())),
    decreases samples.len() - k,
{
    let bits = suffix_bits(samples, k) + tail;
    reveal(next_sample_parse);
    if k == samples.len() {
        lemma_samples_parse_done(bits, reader);
        assert(samples.skip(k as int) =~= Seq::<XORSample>::empty());
    } else {
        lemma_no_gap_error(samples, 1, k as int);
        lemma_no_gap_error(samples, 1, k - 1);
        let delta_of_delta = (timestamp_gap(samples, k as int) - timestamp_gap(samples, k - 1)) as i64;
        let window = window_after(samples, k);
        let ts = varbit_ts_bits(delta_of_delta);
        let xor = varbit_xor_bits(samples[k as int].value, samples[k - 1].value, window.0, window.1);
        let after = suffix_bits(samples, k + 1) + tail;
        assert(sample_bits(samples, k as int) == ts + xor);
        assert(bits =~= ts + (xor + after));
        lemma_varbit_ts_roundtrip(delta_of_delta, xor + after);
        assert(bits.skip(ts.len() as int) =~= xor + after);
        lemma_varbit_xor_roundtrip(
            samples[k as int].value,
            samples[k - 1].value,
            window,
            (reader.leading_bits_count, reader.trailing_bits_count),
            after,
        );
        let next = next_sample_parse(bits, reader).unwrap().0;
        assert(window_after(samples, k + 1) == varbit_xor_window(
            samples[k as int].value,
            samples[k - 1].value,
            window.0,
            window.1,
        ));
        assert(follows(next, samples, k + 1));
        assert(bits.skip((ts.len() + xor.len()) as int) =~= after);
        lemma_samples_roundtrip(samples, k + 1, next, tail);
        lemma_samples_parse_step(bits, reader, (samples.len() - k) as nat);
        assert(seq![samples[k as int]] + samples.skip(k as int + 1) =~= samples.skip(k as int));
    }
}

/// The first sample is read back from its bytes, whatever follows them.
proof fn lemma_first_sample_roundtrip(first: XORSample, rest: Seq<u8>)
    ensures
        first_sample_parse(varint_bytes(first.timestamp) + be_u64_bytes(first.value) + rest) == Ok::<
            (XORSample, nat),
            ParseError,
        >((first, varint_bytes(first.timestamp).len() + 8)),
{
    reveal(first_sample_parse);
    let timestamp_bytes = varint_bytes(first.timestamp);
    let value_bytes = be_u64_bytes(first.value);
    let input = timestamp_bytes + value_bytes + rest;
    lemma_be_roundtrip(0, 0, first.value);
    assert(input =~= timestamp_bytes + (value_bytes + rest));
    lemma_varint_roundtrip(first.timestamp, value_bytes + rest);
    assert(input.skip(timestamp_bytes.len() as int).take(8) =~= value_bytes);
}

/// The samples after the first are read back from the bytes that hold their
/// padded bit stream, whatever follows those bytes.
proof fn lemma_following_samples_roundtrip(samples: Seq<XORSample>, rest: Seq<u8>)
    requires
        xor_write_error(samples) is None,
    ensures
        following_samples_parse(
            bytes_of_bits(pad_to_byte(stream_bits(samples, samples.len()))) + rest,
            0,
            samples[0],
            samples.len(),
        ) == Ok::<(Seq<XORSample>, nat), ParseError>(
            (samples, stream_bits(samples, samples.len()).len()),
        ),
{
    reveal(following_samples_parse);
    let count = samples.len();
    let first = samples[0];
    let stream = stream_bits(samples, count);
    let padded = pad_to_byte(stream);
    let body = bytes_of_bits(padded);
    let behind = body + rest;
    lemma_pad_to_byte(stream);
    if count == 1 {
        assert(stream =~= Seq::<bool>::empty());
        assert(samples =~= seq![first]);
    } else {
        lemma_bits_of_bytes_of(padded);
        lemma_bits_of_concat(body, rest);
        let padding = padded.skip(stream.len() as int);
        let tail = padding + bits_of(rest);
        assert(bits_of(behind) =~= stream + tail);
        lemma_stream_split(samples, 2);
        let others = suffix_bits(samples, 2) + tail;
        assert(stream + tail =~= stream_bits(samples, 2) + others);
        lemma_second_sample_roundtrip(samples, behind, others);
        let second = second_sample_parse(behind, 0, first).unwrap().0;
        let n2 = second_sample_parse(behind, 0, first).unwrap().1;
        lemma_samples_roundtrip(samples, 2, second, tail);
        assert(seq![first, second.sample()] + samples.skip(2) =~= samples);
        assert(stream.len() == n2 + suffix_bits(samples, 2).len());
    }
}

/// The second sample is read back from bytes whose bits start with its bits.
proof fn lemma_second_sample_roundtrip(samples: Seq<XORSample>, behind: Seq<u8>, others: Seq<bool>)
    requires
        samples.len() >= 2,
        first_gap_error(samples, 1) is None,
        bits_of(behind) == stream_bits(samples, 2) + others,
    ensures
        second_sample_parse(behind, 0, samples[0]) matches Ok((second, n)) && follows(
            second,
            samples,
            2,
        ) && second.sample() == samples[1] && n == stream_bits(samples, 2).len() && bits_at(
            behind,
            n,
        ) == others,
{
    reveal(second_sample_parse);
    let first = samples[0];
    lemma_no_gap_error(samples, 1, 1);
    let gap = timestamp_gap(samples, 1) as u64;
    let gap_bytes = uvarint_bytes(gap);
    let xor = varbit_xor_bits(samples[1].value, first.value, NO_WINDOW, 0);
    reveal_with_fuel(stream_bits, 3);
    reveal_with_fuel(window_after, 3);
    assert(stream_bits(samples, 2) =~= bits_of(gap_bytes) + xor);
    assert(bits_of(behind) =~= bits_of(gap_bytes) + (xor + others));
    let g = gap_bytes.len();
    assert(g <= behind.len()) by {
        assert(bits_of(behind).len() >= bits_of(gap_bytes).len());
    }
    lemma_uvarint_roundtrip(gap, behind.skip(g as int));
    assert(behind.take(g as int) == gap_bytes) by {
        lemma_bits_of_concat(behind.take(g as int), behind.skip(g as int));
        assert(behind.take(g as int) + behind.skip(g as int) =~= behind);
        assert(bits_of(behind.take(g as int)) =~= bits_of(behind).take(8 * g as int));
        assert(bits_of(behind).take(8 * g as int) =~= bits_of(gap_bytes));
        lemma_bits_of_injective(behind.take(g as int), gap_bytes);
    }
    assert(behind =~= gap_bytes + behind.skip(g as int));
    assert(behind.skip(0) =~= behind);
    assert(bits_at(behind, 8 * g) =~= xor + others);
    lemma_varbit_xor_roundtrip(samples[1].value, first.value, (NO_WINDOW, 0), (0, 0), others);
    let n2 = 8 * g + xor.len();
    assert(bits_at(behind, n2) =~= others);
}

/// Decoding the payload of a chunk gives its samples back, bit for bit, and
/// takes the payload and no byte of what follows it. This holds of every
/// list of samples that can be written: of 1 to 65535 samples whose
/// timestamps do not decrease, nor rise by more than `i64::MAX` at a step.
pub proof fn lemma_xor_chunk_roundtrip(samples: Seq<XORSample>, rest: Seq<u8>)
    requires
        xor_write_error(samples) is None,
    ensures
        xor_chunk_parse(xor_chunk_bytes(samples) + rest) == Ok::<(Seq<XORSample>, nat), ParseError>(
            (samples, xor_chunk_bytes(samples).len()),
        ),
{
    let count = samples.len();
    let first = samples[0];
    let count_bytes = be_u16_bytes(count as u16);
    let timestamp_bytes = varint_bytes(first.timestamp);
    let value_bytes = be_u64_bytes(first.value);
    let stream = stream_bits(samples, count);
    let body = bytes_of_bits(pad_to_byte(stream));
    let input = xor_chunk_bytes(samples) + rest;
    lemma_be_roundtrip(count as u16, 0, first.value);
    assert(input.take(2) =~= count_bytes);
    assert(input.skip(2) =~= timestamp_bytes + value_bytes + (body + rest));
    lemma_first_sample_roundtrip(first, body + rest);
    let n = timestamp_bytes.len() + 8;
    assert(input.skip(2 + n as int) =~= body + rest);
    lemma_following_samples_roundtrip(samples, rest);
    lemma_pad_to_byte(stream);
}

/// The most bytes that the payload of a chunk takes: the count, the first
/// sample, and 157 bits for each of the others.
pub const MAX_PAYLOAD_LEN: usize = 0x14_0000;

/// A payload has at least eleven bytes and no more than `MAX_PAYLOAD_LEN`.
pub proof fn lemma_xor_chunk_bytes_len(samples: Seq<XORSample>)
    requires
        xor_write_error(samples) is None,
    ensures
        11 <= xor_chunk_bytes(samples).len() <= MAX_PAYLOAD_LEN,
{
    lemma_be_roundtrip(0, 0, samples[0].value);
    lemma_varint_roundtrip(samples[0].timestamp, Seq::empty());
    lemma_stream_bits_len(samples, samples.len());
    lemma_pad_to_byte(stream_bits(samples, samples.len()));
}

/// The samples after the first take at most 157 bits each.
proof fn lemma_stream_bits_len(samples: Seq<XORSample>, k: nat)
    requires
        1 <= k <= samples.len(),
    ensures
        stream_bits(samples, k).len() <= 157 * (k - 1),
    decreases k,
{
    if k > 1 {
        lemma_stream_bits_len(samples, (k - 1) as nat);
        let i = k - 1;
        let window = window_after(samples, i as nat);
        lemma_varbit_xor_bits_len(samples[i].value, samples[i - 1].value, window.0, window.1);
        lemma_varbit_ts_bits_len(
            (timestamp_gap(samples, i) - timestamp_gap(samples, i - 1)) as i64,
        );
        lemma_uvarint_roundtrip(timestamp_gap(samples, 1) as u64, Seq::empty());
    }
}

/// The payload of a chunk of one sample is the count, the timestamp and the
/// value: no bit stream follows them.
pub proof fn lemma_single_sample_payload(sample: XORSample)
    ensures
        xor_write_error(seq![sample]) is None,
        xor_chunk_bytes(seq![sample]) == seq![0u8, 1u8] + varint_bytes(sample.timestamp)
            + be_u64_bytes(sample.value),
{
    let samples = seq![sample];
    assert(stream_bits(samples, 1) =~= Seq::<bool>::empty());
    assert(pad_to_byte(Seq::<bool>::empty()) =~= Seq::<bool>::empty());
    assert(bytes_of_bits(Seq::<bool>::empty()) =~= Seq::<u8>::empty());
    assert(be_u16_bytes(1) =~= seq![0u8, 1u8]);
    assert(xor_chunk_bytes(samples) =~= seq![0u8, 1u8] + varint_bytes(sample.timestamp)
        + be_u64_bytes(sample.value));
}

/// More than 65535 samples, 65536 for one, cannot be written as one chunk.
pub proof fn lemma_too_many_samples(samples: Seq<XORSample>)
    requires
        samples.len() > MAX_SAMPLES,
    ensures
        xor_write_error(samples) == Some(WriteError::TooManySamples),
{
}

/// Samples of which one has a lower timestamp than the one before it cannot
/// be written. Where every gap before that one can be written and the
/// samples are not too many, the error is that they are not sorted.
pub proof fn lemma_unsorted_samples_fail(samples: Seq<XORSample>, i: int)
    requires
        1 <= i < samples.len(),
        samples[i].timestamp < samples[i - 1].timestamp,
    ensures
        xor_write_error(samples) is Some,
        samples.len() <= MAX_SAMPLES && (forall|j: int|
            1 <= j < i ==> gap_error(timestamp_gap(samples, j)) is None) ==> xor_write_error(
            samples,
        ) == Some(WriteError::UnsortedSamples),
{
    lemma_first_gap_error(samples, 1, i);
}

/// A gap that cannot be written fails the list, and is the one that fails
/// it where no gap before it does.
proof fn lemma_first_gap_error(samples: Seq<XORSample>, from: int, i: int)
    requires
        1 <= from <= i < samples.len(),
        gap_error(timestamp_gap(samples, i)) is Some,
    ensures
        first_gap_error(samples, from) is Some,
        (forall|j: int| from <= j < i ==> gap_error(timestamp_gap(samples, j)) is None)
            ==> first_gap_error(samples, from) == gap_error(timestamp_gap(samples, i)),
    decreases i - from,
{
    if from < i {
        lemma_first_gap_error(samples, from + 1, i);
    }
}

/// Which samples can be written as one chunk: between 1 and 65535 of them,
/// with timestamps that do not decrease, nor rise by more than `i64::MAX`
/// from one sample to the next.
pub proof fn lemma_writable_samples(samples: Seq<XORSample>)
    ensures
        xor_write_error(samples) is None <==> 1 <= samples.len() <= MAX_SAMPLES && forall|i: int|
            1 <= i < samples.len() ==> 0 <= #[trigger] timestamp_gap(samples, i) <= i64::MAX,
{
    if 1 <= samples.len() <= MAX_SAMPLES {
        if first_gap_error(samples, 1) is None {
            assert forall|i: int| 1 <= i < samples.len() implies 0 <= #[trigger] timestamp_gap(
                samples,
                i,
            ) <= i64::MAX by {
                lemma_no_gap_error(samples, 1, i);
            }
        } else {
            lemma_some_gap_error(samples, 1);
        }
    }
}

/// Where the gaps from `from` on fail the list, one of them cannot be
/// written.
proof fn lemma_some_gap_error(samples: Seq<XORSample>, from: int)
    requires
        1 <= from,
        first_gap_error(samples, from) is Some,
    ensures
        exists|i: int|
            from <= i < samples.len() && !(0 <= #[trigger] timestamp_gap(samples, i) <= i64::MAX),
    decreases samples.len() - from,
{
    if gap_error(timestamp_gap(samples, from)) is None {
        lemma_some_gap_error(samples, from + 1);
        let i = choose|i: int|
            from + 1 <= i < samples.len() && !(0 <= #[trigger] timestamp_gap(samples, i)
                <= i64::MAX);
        assert(from <= i < samples.len() && !(0 <= timestamp_gap(samples, i) <= i64::MAX));
    } else {
        assert(!(0 <= timestamp_gap(samples, from) <= i64::MAX));
    }
}

} // verus!
