use crate::bytes::{
    append_bytes, be_u32_bytes, be_value, lemma_be_u32_bytes_of_value, lemma_be_u32_roundtrip,
};
use crate::crc32c::{assert_crc32c_on_data, crc32c_checksum, read_crc32c, write_crc32c};
use crate::errors::{ParseError, WriteError};
use crate::histogram::{
    read_float_histogram_chunk_data, read_histogram_chunk_data, FloatHistogramChunk,
    HistogramChunk,
};
use crate::uvarint::{
    lemma_uvarint_parse_len, lemma_uvarint_roundtrip, read_uvarint, uvarint_bytes, uvarint_parse,
    write_uvarint,
};
use crate::xor::{
    block_chunk_ref_of, lemma_xor_chunk_bytes_len, lemma_xor_chunk_roundtrip, read_xor_chunk_data,
    xor_chunk_bytes, xor_chunk_parse, xor_write_error, XORChunk, XORSample,
};
use vstd::prelude::*;
use vstd::slice::slice_subrange;

verus! {

/// The kind of a chunk, which the type byte of its frame names.
#[derive(Debug, Clone, Copy, PartialEq, Eq, Structural)]
pub enum ChunkType {
    XOR,
    Histogram,
    FloatHistogram,
}

/// A chunk of a series: XOR-encoded samples, or one of the two histogram
/// kinds, of which only the kind is kept.
#[derive(Debug)]
pub enum Chunk {
    XOR(XORChunk),
    Histogram(HistogramChunk),
    FloatHistogram(FloatHistogramChunk),
}

/// What a chunk holds.
pub enum ChunkContent {
    XOR(Seq<XORSample>),
    Histogram,
    FloatHistogram,
}

impl View for Chunk {
    type V = ChunkContent;

    open spec fn view(&self) -> ChunkContent {
        match self {
            Chunk::XOR(chunk) => ChunkContent::XOR(chunk@),
            Chunk::Histogram(_) => ChunkContent::Histogram,
            Chunk::FloatHistogram(_) => ChunkContent::FloatHistogram,
        }
    }
}

impl PartialEq for Chunk {
    /// Chunks are equal where they are of one kind and hold the same samples.
    fn eq(&self, other: &Self) -> (r: bool) {
        match (self, other) {
            (Chunk::XOR(a), Chunk::XOR(b)) => a == b,
            (Chunk::Histogram(_), Chunk::Histogram(_)) => true,
            (Chunk::FloatHistogram(_), Chunk::FloatHistogram(_)) => true,
            _ => false,
        }
    }
}

impl vstd::std_specs::cmp::PartialEqSpecImpl for Chunk {
    open spec fn obeys_eq_spec() -> bool {
        true
    }

    open spec fn eq_spec(&self, other: &Self) -> bool {
        self@ == other@
    }
}

impl Chunk {
    /// The reference of the chunk, where it has one.
    pub open spec fn block_ref(&self) -> Option<u64> {
        match self {
            Chunk::XOR(chunk) => chunk.block_ref(),
            _ => None,
        }
    }

    /// An XOR chunk of the given samples, without a reference.
    pub fn new_xor(samples: Vec<XORSample>) -> (chunk: Self)
        ensures
            chunk@ == ChunkContent::XOR(samples@),
            chunk.block_ref() is None,
    {
        Chunk::XOR(XORChunk::new(samples))
    }

    /// The XOR chunk, where the chunk is one.
    pub fn as_xor(self) -> (r: Option<XORChunk>)
        ensures
            r == (match self {
                Chunk::XOR(chunk) => Some(chunk),
                _ => None,
            }),
    {
        match self {
            Chunk::XOR(xor_chunk) => Some(xor_chunk),
            _ => None,
        }
    }

    /// The reference of the chunk, where it has one.
    pub fn block_chunk_ref(&self) -> (r: Option<u64>)
        ensures
            r == self.block_ref(),
    {
        match self {
            Chunk::XOR(xor_chunk) => xor_chunk.block_chunk_ref(),
            Chunk::Histogram(histogram_chunk) => histogram_chunk.block_chunk_ref(),
            Chunk::FloatHistogram(float_histogram_chunk) => float_histogram_chunk.block_chunk_ref(),
        }
    }

    /// Gives an XOR chunk the reference of its place in a chunks file. The
    /// histogram kinds have none.
    pub fn compute_chunk_ref(&mut self, file_index: u64, offset: u64)
        ensures
            final(self)@ == old(self)@,
            final(self).block_ref() == (match old(self)@ {
                ChunkContent::XOR(_) => Some(block_chunk_ref_of(file_index, offset)),
                _ => None,
            }),
    {
        match self {
            Chunk::XOR(xor_chunk) => {
                xor_chunk.compute_block_chunk_ref(file_index, offset);
            },
            Chunk::Histogram(_) => {},
            Chunk::FloatHistogram(_) => {},
        }
    }
}

// ---------------------------------------------------------------- decoding
/// The kind that a type byte names.
pub open spec fn chunk_type_of(byte: u8) -> Option<ChunkType> {
    if byte == 1 {
        Some(ChunkType::XOR)
    } else if byte == 2 {
        Some(ChunkType::Histogram)
    } else if byte == 3 {
        Some(ChunkType::FloatHistogram)
    } else {
        None
    }
}

/// The type byte of a kind.
pub open spec fn chunk_type_byte(chunk_type: ChunkType) -> u8 {
    match chunk_type {
        ChunkType::XOR => 1,
        ChunkType::Histogram => 2,
        ChunkType::FloatHistogram => 3,
    }
}

/// Whether the bytes that a payload decoder left inside a frame are
/// tolerated: none, or a single zero byte.
pub open spec fn stray_bytes_allowed(left: Seq<u8>) -> bool {
    left.len() == 0 || (left.len() == 1 && left[0] == 0)
}

/// The parse of the payload of a frame of the given kind. The XOR decoder
/// takes what the samples need, the histogram decoders take nothing; what is
/// left must be tolerated, else the frame is in breach of the framing.
pub open spec fn payload_parse(chunk_type: ChunkType, payload: Seq<u8>) -> Result<
    ChunkContent,
    ParseError,
> {
    match chunk_type {
        ChunkType::XOR => match xor_chunk_parse(payload) {
            Err(e) => Err(e),
            Ok((samples, n)) => if stray_bytes_allowed(payload.skip(n as int)) {
                Ok(ChunkContent::XOR(samples))
            } else {
                Err(ParseError::Framing)
            },
        },
        ChunkType::Histogram => if stray_bytes_allowed(payload) {
            Ok(ChunkContent::Histogram)
        } else {
            Err(ParseError::Framing)
        },
        ChunkType::FloatHistogram => if stray_bytes_allowed(payload) {
            Ok(ChunkContent::FloatHistogram)
        } else {
            Err(ParseError::Framing)
        },
    }
}

/// The parse of a frame at the start of `input`: the chunk and the number of
/// bytes of the frame.
///
/// The frame is the size of the payload as a uvarint, the type byte, the
/// payload, and the CRC-32C of type byte and payload in four bytes. The
/// checksum is verified before the type byte is looked at, and the payload is
/// decoded last.
pub open spec fn chunk_parse(input: Seq<u8>) -> Result<(ChunkContent, nat), ParseError> {
    match uvarint_parse(input) {
        Err(e) => Err(e),
        Ok((size, n)) => {
            let have = input.len() - n;
            if have < 1 {
                Err(ParseError::Truncated { needed: None })
            } else if have - 1 < size {
                Err(ParseError::Truncated { needed: Some((size - (have - 1)) as u64) })
            } else if have - 1 - size < 4 {
                Err(ParseError::Truncated { needed: None })
            } else {
                let data = input.subrange(n as int, n + 1 + size);
                let stored = be_value(input.subrange(n + 1 + size, n + 1 + size + 4));
                if stored != crc32c_checksum(data) {
                    Err(ParseError::CrcMismatch)
                } else {
                    match chunk_type_of(data[0]) {
                        None => Err(ParseError::Tag),
                        Some(chunk_type) => match payload_parse(chunk_type, data.skip(1)) {
                            Err(e) => Err(e),
                            Ok(chunk) => Ok((chunk, (n + 1 + size + 4) as nat)),
                        },
                    }
                }
            }
        },
    }
}

/// The parse of a type byte at the start of `input`.
pub open spec fn chunk_type_parse(input: Seq<u8>) -> Result<ChunkType, ParseError> {
    if input.len() == 0 {
        Err(ParseError::Truncated { needed: None })
    } else {
        match chunk_type_of(input[0]) {
            None => Err(ParseError::Tag),
            Some(chunk_type) => Ok(chunk_type),
        }
    }
}

/// Reads the type byte of a frame.
pub fn read_chunk_type(input: &[u8]) -> (r: Result<(&[u8], ChunkType), ParseError>)
    ensures
        match chunk_type_parse(input@) {
            Ok(chunk_type) => r matches Ok((rest, found)) && found == chunk_type && rest@
                == input@.skip(1),
            Err(e) => r matches Err(err) && err == e,
        },
{
    if input.len() == 0 {
        return Err(ParseError::Truncated { needed: None });
    }
    let byte: u8 = input[0];
    let chunk_type = if byte == 1 {
        ChunkType::XOR
    } else if byte == 2 {
        ChunkType::Histogram
    } else if byte == 3 {
        ChunkType::FloatHistogram
    } else {
        return Err(ParseError::Tag);
    };
    Ok((slice_subrange(input, 1, input.len()), chunk_type))
}

/// Decodes the payload of a frame of the given kind and returns the bytes
/// that the decoder left together with the chunk.
fn parse_chunk_data(chunk_type: ChunkType, chunk_data: &[u8]) -> (r: Result<
    (&[u8], Chunk),
    ParseError,
>)
    ensures
        match chunk_type {
            ChunkType::XOR => match xor_chunk_parse(chunk_data@) {
                Err(e) => r matches Err(err) && err == e,
                Ok((samples, n)) => r matches Ok((rest, chunk)) && chunk@ == ChunkContent::XOR(
                    samples,
                ) && chunk.block_ref() is None && n <= chunk_data@.len() && rest@
                    == chunk_data@.skip(n as int),
            },
            ChunkType::Histogram => r matches Ok((rest, chunk)) && chunk@
                == ChunkContent::Histogram && chunk.block_ref() is None && rest@ == chunk_data@,
            ChunkType::FloatHistogram => r matches Ok((rest, chunk)) && chunk@
                == ChunkContent::FloatHistogram && chunk.block_ref() is None && rest@
                == chunk_data@,
        },
{
    match chunk_type {
        ChunkType::XOR => {
            match read_xor_chunk_data(chunk_data) {
                Ok((rest, xor_chunk)) => Ok((rest, Chunk::XOR(xor_chunk))),
                Err(e) => Err(e),
            }
        },
        ChunkType::Histogram => {
            match read_histogram_chunk_data(chunk_data) {
                Ok((rest, histogram_chunk)) => Ok((rest, Chunk::Histogram(histogram_chunk))),
                Err(e) => Err(e),
            }
        },
        ChunkType::FloatHistogram => {
            match read_float_histogram_chunk_data(chunk_data) {
                Ok((rest, float_histogram_chunk)) => Ok(
                    (rest, Chunk::FloatHistogram(float_histogram_chunk)),
                ),
                Err(e) => Err(e),
            }
        },
    }
}

/// Reads one frame from the start of `input` and returns the bytes that
/// follow it together with its chunk, which has no reference.
pub fn read_chunk(input: &[u8]) -> (r: Result<(&[u8], Chunk), ParseError>)
    ensures
        match chunk_parse(input@) {
            Ok((content, n)) => r matches Ok((rest, chunk)) && chunk@ == content
                && chunk.block_ref() is None && n <= input@.len() && rest@ == input@.skip(n as int),
            Err(e) => r matches Err(err) && err == e,
        },
{
    let (after_size, chunk_size) = match read_uvarint(input) {
        Ok(found) => found,
        Err(e) => {
            return Err(e);
        },
    };
    let ghost n = uvarint_parse(input@).unwrap().1;
    proof {
        lemma_uvarint_parse_len(input@);
    }
    let have: usize = after_size.len();
    if have < 1 {
        return Err(ParseError::Truncated { needed: None });
    }
    let after_type = slice_subrange(after_size, 1, have);
    if ((have - 1) as u64) < chunk_size {
        return Err(ParseError::Truncated { needed: Some(chunk_size - (have - 1) as u64) });
    }
    let size: usize = chunk_size as usize;
    let chunk_data = slice_subrange(after_type, 0, size);
    let after_data = slice_subrange(after_type, size, have - 1);
    let (remaining_input, chunk_crc32c) = match read_crc32c(after_data) {
        Ok(found) => found,
        Err(e) => {
            return Err(e);
        },
    };
    let ghost data = input@.subrange(n as int, n + 1 + size);
    proof {
        assert(after_size@.subrange(0, 1 + size) =~= data);
        assert(after_data@.take(4) =~= input@.subrange(n + 1 + size, n + 1 + size + 4));
        assert(chunk_data@ =~= data.skip(1));
        assert(remaining_input@ =~= input@.skip(n + 1 + size + 4));
    }
    match assert_crc32c_on_data(after_size, 0, 1 + size, chunk_crc32c) {
        Ok(_) => {},
        Err(e) => {
            return Err(e);
        },
    }
    let chunk_type = match read_chunk_type(after_size) {
        Ok((_, chunk_type)) => chunk_type,
        Err(e) => {
            return Err(e);
        },
    };
    let (remaining_chunk_data, chunk) = match parse_chunk_data(chunk_type, chunk_data) {
        Ok(found) => found,
        Err(e) => {
            return Err(e);
        },
    };
    let left: usize = remaining_chunk_data.len();
    if left != 0 && !(left == 1 && remaining_chunk_data[0] == 0) {
        return Err(ParseError::Framing);
    }
    Ok((remaining_input, chunk))
}

// ---------------------------------------------------------------- encoding
/// A frame: the size of the payload as a uvarint, the type byte, the payload,
/// and the CRC-32C of type byte and payload, four bytes big-endian.
pub open spec fn frame_bytes(type_byte: u8, payload: Seq<u8>) -> Seq<u8> {
    uvarint_bytes(payload.len() as u64) + seq![type_byte] + payload + be_u32_bytes(
        crc32c_checksum(seq![type_byte] + payload),
    )
}

/// Why a chunk cannot be written, if it cannot: its samples cannot, or it is
/// of a histogram kind.
pub open spec fn chunk_write_error(chunk: ChunkContent) -> Option<WriteError> {
    match chunk {
        ChunkContent::XOR(samples) => xor_write_error(samples),
        _ => Some(WriteError::UnsupportedChunk),
    }
}

/// The frame of a chunk that can be written.
pub open spec fn chunk_bytes(chunk: ChunkContent) -> Seq<u8> {
    match chunk {
        ChunkContent::XOR(samples) => frame_bytes(1, xor_chunk_bytes(samples)),
        _ => Seq::empty(),
    }
}

fn write_chunk_type(chunk_type: ChunkType, writer: &mut Vec<u8>)
    ensures
        final(writer)@ == old(writer)@.push(chunk_type_byte(chunk_type)),
{
    match chunk_type {
        ChunkType::XOR => {
            writer.push(1u8);
        },
        ChunkType::Histogram => {
            writer.push(2u8);
        },
        ChunkType::FloatHistogram => {
            writer.push(3u8);
        },
    }
}

impl Chunk {
    /// Appends the frame of the chunk to `writer`, or leaves `writer` as it
    /// is and says why the chunk cannot be written.
    pub fn write(&self, writer: &mut Vec<u8>) -> (r: Result<(), WriteError>)
        ensures
            match chunk_write_error(self@) {
                Some(e) => r == Err::<(), WriteError>(e) && final(writer)@ == old(writer)@,
                None => r is Ok && final(writer)@ == old(writer)@ + chunk_bytes(self@),
            },
    {
        let mut buffer: Vec<u8> = Vec::with_capacity(32);
        match self {
            Chunk::XOR(xor_chunk) => {
                write_chunk_type(ChunkType::XOR, &mut buffer);
                match xor_chunk.write(&mut buffer) {
                    Ok(_) => {},
                    Err(e) => {
                        return Err(e);
                    },
                }
            },
            Chunk::Histogram(_) => {
                return Err(WriteError::UnsupportedChunk);
            },
            Chunk::FloatHistogram(_) => {
                return Err(WriteError::UnsupportedChunk);
            },
        }
        let ghost before = writer@;
        let ghost payload = xor_chunk_bytes(self@->XOR_0);
        proof {
            assert(buffer@ =~= seq![1u8] + payload);
        }
        let chunk_len: u64 = (buffer.len() - 1) as u64;
        write_uvarint(chunk_len, writer);
        append_bytes(writer, buffer.as_slice());
        write_crc32c(buffer.as_slice(), writer);
        proof {
            assert(writer@ =~= before + frame_bytes(1, payload));
        }
        Ok(())
    }
}

// ------------------------------------------------------------------ laws
/// A frame whose stored checksum is not the checksum of its type byte and
/// payload is refused as a CRC mismatch, whatever the type byte and the
/// payload hold.
pub proof fn lemma_checksum_guards_frame(data: Seq<u8>, stored: Seq<u8>, rest: Seq<u8>)
    requires
        1 <= data.len() <= u64::MAX,
        stored.len() == 4,
        be_value(stored) != crc32c_checksum(data),
    ensures
        chunk_parse(uvarint_bytes((data.len() - 1) as u64) + data + stored + rest) == Err::<
            (ChunkContent, nat),
            ParseError,
        >(ParseError::CrcMismatch),
{
    let size = (data.len() - 1) as u64;
    let input = uvarint_bytes(size) + data + stored + rest;
    assert(input =~= uvarint_bytes(size) + (data + stored + rest));
    lemma_uvarint_roundtrip(size, data + stored + rest);
    let n = uvarint_bytes(size).len();
    assert(input.subrange(n as int, n + 1 + size) =~= data);
    assert(input.subrange(n + 1 + size, n + 1 + size + 4) =~= stored);
}

/// A frame in which the four bytes of the checksum were changed in any way
/// is refused as a CRC mismatch.
pub proof fn lemma_changed_checksum_is_refused(
    type_byte: u8,
    payload: Seq<u8>,
    stored: Seq<u8>,
    rest: Seq<u8>,
)
    requires
        payload.len() < u64::MAX,
        stored.len() == 4,
        stored != be_u32_bytes(crc32c_checksum(seq![type_byte] + payload)),
    ensures
        chunk_parse(
            uvarint_bytes(payload.len() as u64) + (seq![type_byte] + payload) + stored + rest,
        ) == Err::<(ChunkContent, nat), ParseError>(ParseError::CrcMismatch),
{
    lemma_be_u32_bytes_of_value(stored);
    lemma_checksum_guards_frame(seq![type_byte] + payload, stored, rest);
}

/// What reading a well-formed frame gives: the checks of size and checksum
/// pass, and the outcome is that of the type byte and the payload.
pub proof fn lemma_frame_parse(type_byte: u8, payload: Seq<u8>, rest: Seq<u8>)
    requires
        payload.len() < u64::MAX,
    ensures
        chunk_parse(frame_bytes(type_byte, payload) + rest) == (match chunk_type_of(type_byte) {
            None => Err::<(ChunkContent, nat), ParseError>(ParseError::Tag),
            Some(chunk_type) => match payload_parse(chunk_type, payload) {
                Err(e) => Err(e),
                Ok(chunk) => Ok((chunk, frame_bytes(type_byte, payload).len())),
            },
        }),
{
    let size = payload.len() as u64;
    let data = seq![type_byte] + payload;
    let stored = be_u32_bytes(crc32c_checksum(data));
    let input = frame_bytes(type_byte, payload) + rest;
    assert(input =~= uvarint_bytes(size) + (data + stored + rest));
    lemma_uvarint_roundtrip(size, data + stored + rest);
    lemma_be_u32_roundtrip(crc32c_checksum(data));
    let n = uvarint_bytes(size).len();
    assert(input.subrange(n as int, n + 1 + size) =~= data);
    assert(input.subrange(n + 1 + size, n + 1 + size + 4) =~= stored);
    assert(data.skip(1) =~= payload);
    assert(frame_bytes(type_byte, payload).len() == n + 1 + size + 4);
}

/// Reading the frame of a chunk gives the chunk back and takes the frame
/// and no byte of what follows it.
pub proof fn lemma_chunk_roundtrip(chunk: ChunkContent, rest: Seq<u8>)
    requires
        chunk_write_error(chunk) is None,
    ensures
        chunk_parse(chunk_bytes(chunk) + rest) == Ok::<(ChunkContent, nat), ParseError>(
            (chunk, chunk_bytes(chunk).len()),
        ),
{
    let samples = chunk->XOR_0;
    let payload = xor_chunk_bytes(samples);
    lemma_xor_chunk_bytes_len(samples);
    lemma_xor_chunk_roundtrip(samples, Seq::empty());
    assert(payload + Seq::<u8>::empty() =~= payload);
    lemma_frame_parse(1, payload, rest);
}

/// A frame that holds the payload of an XOR chunk and, behind it and inside
/// the declared size, further bytes reads as the chunk where those bytes are
/// a single zero (or none), and is in breach of the framing otherwise.
pub proof fn lemma_stray_bytes_in_frame(samples: Seq<XORSample>, stray: Seq<u8>, rest: Seq<u8>)
    requires
        xor_write_error(samples) is None,
        stray.len() < 0x1_0000_0000,
    ensures
        chunk_parse(frame_bytes(1, xor_chunk_bytes(samples) + stray) + rest) == (
        if stray_bytes_allowed(stray) {
            Ok::<(ChunkContent, nat), ParseError>(
                (
                    ChunkContent::XOR(samples),
                    frame_bytes(1, xor_chunk_bytes(samples) + stray).len(),
                ),
            )
        } else {
            Err(ParseError::Framing)
        }),
{
    let payload = xor_chunk_bytes(samples);
    lemma_xor_chunk_bytes_len(samples);
    lemma_xor_chunk_roundtrip(samples, stray);
    assert((payload + stray).skip(payload.len() as int) =~= stray);
    lemma_frame_parse(1, payload + stray, rest);
}

/// A frame has at least six bytes.
pub proof fn lemma_frame_len(type_byte: u8, payload: Seq<u8>)
    ensures
        frame_bytes(type_byte, payload).len() >= payload.len() + 6,
{
    lemma_uvarint_roundtrip(payload.len() as u64, Seq::empty());
    lemma_be_u32_roundtrip(crc32c_checksum(seq![type_byte] + payload));
}

} // verus!
