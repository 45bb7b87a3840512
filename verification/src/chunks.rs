use crate::bytes::append_bytes;
use crate::chunk::{
    chunk_bytes, chunk_parse, chunk_write_error, lemma_chunk_roundtrip, lemma_frame_len,
    read_chunk, Chunk, ChunkContent,
};
use crate::errors::{ParseError, WriteError};
use crate::uvarint::lemma_uvarint_parse_len;
use crate::xor::block_chunk_ref_of;
use vstd::prelude::*;
use vstd::slice::slice_subrange;

verus! {

/// The length of the header of a chunks file.
pub const CHUNKS_HEADER_LEN: usize = 8;

/// The header of a chunks file: the magic number, version 1, three zero bytes.
pub open spec fn chunks_header() -> Seq<u8> {
    seq![0x85u8, 0xBDu8, 0x40u8, 0xDDu8, 1u8, 0u8, 0u8, 0u8]
}

/// A chunks file: the frames of one file of a block, with the number of the
/// file where it is known.
#[derive(Debug)]
pub struct ChunksDiskFormat {
    version: u8,
    chunks: Vec<Chunk>,
    file_index: Option<u64>,
}

impl ChunksDiskFormat {
    /// The format has one version, which is 1.
    #[verifier::type_invariant]
    spec fn version_is_one(&self) -> bool {
        self.version == 1
    }

    /// The chunks of the file, in order.
    pub closed spec fn chunks_of(&self) -> Seq<Chunk> {
        self.chunks@
    }

    /// The number of the file, where it is known.
    pub closed spec fn file_index_of(&self) -> Option<u64> {
        self.file_index
    }

    /// What the chunks of the file hold, in order.
    pub open spec fn contents(&self) -> Seq<ChunkContent> {
        Seq::new(self.chunks_of().len(), |i: int| self.chunks_of()[i]@)
    }

    /// A file of version 1 with the given chunks and file number.
    pub fn new(chunks: Vec<Chunk>, file_index: Option<u64>) -> (file: Self)
        ensures
            file.chunks_of() == chunks@,
            file.file_index_of() == file_index,
    {
        Self { version: 1, chunks, file_index }
    }

    /// The version of the format, which is always 1.
    pub fn version(&self) -> (v: u8)
        ensures
            v == 1,
    {
        proof {
            use_type_invariant(self);
        }
        self.version
    }

    /// The chunks of the file.
    pub fn chunks(&self) -> (chunks: &[Chunk])
        ensures
            chunks@ == self.chunks_of(),
    {
        self.chunks.as_slice()
    }

    /// The number of the file, where it is known.
    pub fn file_index(&self) -> (index: Option<u64>)
        ensures
            index == self.file_index_of(),
    {
        self.file_index
    }
}

impl PartialEq for ChunksDiskFormat {
    /// Files are equal where the file number and the chunks' contents are.
    fn eq(&self, other: &Self) -> (r: bool) {
        if self.file_index != other.file_index || self.chunks.len() != other.chunks.len() {
            proof {
                if self.chunks@.len() != other.chunks@.len() {
                    assert(self.contents().len() != other.contents().len());
                }
            }
            return false;
        }
        let mut i: usize = 0;
        while i < self.chunks.len()
            invariant
                i <= self.chunks@.len(),
                self.chunks@.len() == other.chunks@.len(),
                forall|j: int| 0 <= j < i ==> self.chunks@[j]@ == other.chunks@[j]@,
            decreases self.chunks@.len() - i,
        {
            if self.chunks[i] != other.chunks[i] {
                proof {
                    assert(self.contents()[i as int] != other.contents()[i as int]);
                }
                return false;
            }
            i = i + 1;
        }
        assert(self.contents() =~= other.contents());
        true
    }
}

impl vstd::std_specs::cmp::PartialEqSpecImpl for ChunksDiskFormat {
    open spec fn obeys_eq_spec() -> bool {
        true
    }

    open spec fn eq_spec(&self, other: &Self) -> bool {
        &&& self.file_index_of() == other.file_index_of()
        &&& self.contents() == other.contents()
    }
}

// ---------------------------------------------------------------- decoding
/// A frame that parses has at least six bytes and lies within the input.
pub proof fn lemma_chunk_parse_len(input: Seq<u8>)
    ensures
        chunk_parse(input) matches Ok((_, n)) ==> 6 <= n <= input.len(),
{
    lemma_uvarint_parse_len(input);
}

/// The parse of one frame after the other from `offset` to the end of
/// `input`, one frame at least: each chunk with the offset of its frame.
pub open spec fn frames_parse(input: Seq<u8>, offset: nat) -> Result<
    Seq<(ChunkContent, nat)>,
    ParseError,
>
    decreases input.len() - offset,
{
    if offset > input.len() {
        Err(ParseError::Truncated { needed: None })
    } else {
        match chunk_parse(input.skip(offset as int)) {
            Err(e) => Err(e),
            Ok((chunk, n)) => {
                proof {
                    lemma_chunk_parse_len(input.skip(offset as int));
                }
                if offset + n >= input.len() {
                    Ok(seq![(chunk, offset)])
                } else {
                    match frames_parse(input, offset + n) {
                        Err(e) => Err(e),
                        Ok(others) => Ok(seq![(chunk, offset)] + others),
                    }
                }
            },
        }
    }
}

/// The parse of a chunks file: the header, then frames to the end of the
/// input. An input that does not start with the header is refused by `Tag`;
/// a frame that does not parse fails the whole file.
pub open spec fn chunks_file_parse(input: Seq<u8>) -> Result<Seq<(ChunkContent, nat)>, ParseError> {
    if input.len() < CHUNKS_HEADER_LEN || input.take(CHUNKS_HEADER_LEN as int)
        != chunks_header() {
        Err(ParseError::Tag)
    } else {
        frames_parse(input, CHUNKS_HEADER_LEN as nat)
    }
}

/// The reference that a chunk gets when it is read from a file: that of its
/// frame's offset, where the chunk is an XOR chunk and the number of the
/// file is known.
pub open spec fn reference_of(frame: (ChunkContent, nat), file_index: Option<u64>) -> Option<u64> {
    match (frame.0, file_index) {
        (ChunkContent::XOR(_), Some(index)) => Some(block_chunk_ref_of(index, frame.1 as u64)),
        _ => None,
    }
}

/// Whether chunks are what the frames of a file of the given number hold.
pub open spec fn chunks_hold(
    chunks: Seq<Chunk>,
    frames: Seq<(ChunkContent, nat)>,
    file_index: Option<u64>,
) -> bool {
    &&& chunks.len() == frames.len()
    &&& forall|i: int|
        0 <= i < frames.len() ==> (#[trigger] chunks[i])@ == frames[i].0 && chunks[i].block_ref()
            == reference_of(frames[i], file_index)
}

fn has_chunks_header(input: &[u8]) -> (r: bool)
    ensures
        r == (input@.len() >= CHUNKS_HEADER_LEN && input@.take(CHUNKS_HEADER_LEN as int)
            == chunks_header()),
{
    if input.len() < CHUNKS_HEADER_LEN {
        return false;
    }
    let r = input[0] == 0x85 && input[1] == 0xBD && input[2] == 0x40 && input[3] == 0xDD
        && input[4] == 1 && input[5] == 0 && input[6] == 0 && input[7] == 0;
    proof {
        if r {
            assert(input@.take(CHUNKS_HEADER_LEN as int) =~= chunks_header());
        } else {
            let head = input@.take(CHUNKS_HEADER_LEN as int);
            assert(head[0] == input@[0] && head[1] == input@[1] && head[2] == input@[2] && head[3]
                == input@[3] && head[4] == input@[4] && head[5] == input@[5] && head[6]
                == input@[6] && head[7] == input@[7]);
        }
    }
    r
}

/// Reads a chunks file. Where `file_index` is given, each XOR chunk gets the
/// reference of its place in the file: the number of the file in the upper
/// 32 bits, the offset of its frame below. The bytes that are returned
/// are those behind the last frame: none.
pub fn read_chunks(input: &[u8], file_index: Option<u64>) -> (r: Result<
    (&[u8], ChunksDiskFormat),
    ParseError,
>)
    ensures
        match chunks_file_parse(input@) {
            Ok(frames) => r matches Ok((rest, file)) && rest@.len() == 0 && file.file_index_of()
                == file_index && chunks_hold(file.chunks_of(), frames, file_index),
            Err(e) => r matches Err(err) && err == e,
        },
{
    if !has_chunks_header(input) {
        return Err(ParseError::Tag);
    }
    let len: usize = input.len();
    let mut chunks: Vec<Chunk> = Vec::new();
    let mut offset: usize = CHUNKS_HEADER_LEN;
    let ghost all = frames_parse(input@, CHUNKS_HEADER_LEN as nat);
    let ghost mut found: Seq<(ChunkContent, nat)> = Seq::empty();
    proof {
        match all {
            Ok(others) => {
                assert(found + others =~= others);
            },
            Err(e) => {},
        }
    }
    loop
        invariant_except_break
            CHUNKS_HEADER_LEN <= offset <= len,
            offset < len || chunks@.len() == 0,
            match frames_parse(input@, offset as nat) {
                Ok(others) => all == Ok::<Seq<(ChunkContent, nat)>, ParseError>(found + others),
                Err(e) => all == Err::<Seq<(ChunkContent, nat)>, ParseError>(e),
            },
        invariant
            len == input@.len(),
            all == chunks_file_parse(input@),
            chunks_hold(chunks@, found, file_index),
        ensures
            all == Ok::<Seq<(ChunkContent, nat)>, ParseError>(found),
        decreases len - offset,
    {
        let ghost start = offset;
        let (remaining, mut chunk) = match read_chunk(slice_subrange(input, offset, len)) {
            Ok(frame) => frame,
            Err(e) => {
                return Err(e);
            },
        };
        proof {
            lemma_chunk_parse_len(input@.skip(offset as int));
        }
        if let Some(index) = file_index {
            chunk.compute_chunk_ref(index, offset as u64);
        }
        let ghost frame = (chunk@, offset as nat);
        let ghost before = found;
        chunks.push(chunk);
        proof {
            found = found.push(frame);
            assert(chunks_hold(chunks@, found, file_index)) by {
                assert forall|i: int| 0 <= i < found.len() implies (#[trigger] chunks@[i])@
                    == found[i].0 && chunks@[i].block_ref() == reference_of(
                    found[i],
                    file_index,
                ) by {
                    if i < before.len() {
                        assert(chunks@[i] == chunks@.drop_last()[i]);
                    }
                }
            }
        }
        offset = len - remaining.len();
        proof {
            assert(before + seq![frame] =~= found);
            if offset < len {
                match frames_parse(input@, offset as nat) {
                    Ok(others) => {
                        assert(before + (seq![frame] + others) =~= found + others);
                    },
                    Err(e) => {},
                }
            }
        }
        if offset >= len {
            break ;
        }
    }
    Ok(
        (
            slice_subrange(input, len, len),
            ChunksDiskFormat { version: 1, chunks, file_index },
        ),
    )
}

// ---------------------------------------------------------------- encoding
/// The error of the first chunk, from chunk `from` on, that cannot be written.
pub open spec fn first_chunk_error(chunks: Seq<ChunkContent>, from: int) -> Option<WriteError>
    decreases chunks.len() - from,
{
    if from >= chunks.len() {
        None
    } else {
        match chunk_write_error(chunks[from]) {
            Some(e) => Some(e),
            None => first_chunk_error(chunks, from + 1),
        }
    }
}

/// Why a list of chunks cannot be written as a file, if it cannot: it is
/// empty, or one of the chunks cannot be written.
pub open spec fn chunks_write_error(chunks: Seq<ChunkContent>) -> Option<WriteError> {
    if chunks.len() == 0 {
        Some(WriteError::NoChunks)
    } else {
        first_chunk_error(chunks, 0)
    }
}

/// The frames of the first `k` chunks, one behind the other.
pub open spec fn frames_bytes(chunks: Seq<ChunkContent>, k: nat) -> Seq<u8>
    decreases k,
{
    if k == 0 {
        Seq::empty()
    } else {
        frames_bytes(chunks, (k - 1) as nat) + chunk_bytes(chunks[k - 1])
    }
}

/// The bytes of a chunks file: the header, then the frame of each chunk.
pub open spec fn chunks_file_bytes(chunks: Seq<ChunkContent>) -> Seq<u8> {
    chunks_header() + frames_bytes(chunks, chunks.len())
}

impl ChunksDiskFormat {
    /// Appends the file to `writer`, or leaves `writer` as it is and says
    /// why the file cannot be written.
    pub fn write(&self, writer: &mut Vec<u8>) -> (r: Result<(), WriteError>)
        ensures
            match chunks_write_error(self.contents()) {
                Some(e) => r == Err::<(), WriteError>(e) && final(writer)@ == old(writer)@,
                None => r is Ok && final(writer)@ == old(writer)@ + chunks_file_bytes(
                    self.contents(),
                ),
            },
    {
        let ghost contents = self.contents();
        if self.chunks.len() == 0 {
            return Err(WriteError::NoChunks);
        }
        let mut buffer: Vec<u8> = Vec::new();
        buffer.push(0x85);
        buffer.push(0xBD);
        buffer.push(0x40);
        buffer.push(0xDD);
        buffer.push(1);
        buffer.push(0);
        buffer.push(0);
        buffer.push(0);
        assert(buffer@ =~= chunks_header() + frames_bytes(contents, 0));
        let mut i: usize = 0;
        while i < self.chunks.len()
            invariant
                i <= self.chunks@.len(),
                contents == self.contents(),
                contents.len() == self.chunks@.len(),
                first_chunk_error(contents, 0) == first_chunk_error(contents, i as int),
                buffer@ == chunks_header() + frames_bytes(contents, i as nat),
            decreases self.chunks@.len() - i,
        {
            let ghost before = buffer@;
            match self.chunks[i].write(&mut buffer) {
                Ok(_) => {},
                Err(e) => {
                    return Err(e);
                },
            }
            proof {
                assert(buffer@ =~= chunks_header() + frames_bytes(contents, (i + 1) as nat));
            }
            i = i + 1;
        }
        append_bytes(writer, buffer.as_slice());
        Ok(())
    }
}

// ------------------------------------------------------------------ laws
/// Where the frame of chunk `i` starts in the file of the chunks.
pub open spec fn frame_offset(chunks: Seq<ChunkContent>, i: nat) -> nat {
    CHUNKS_HEADER_LEN as nat + frames_bytes(chunks, i).len()
}

/// The frames of the chunks from chunk `k` on.
pub open spec fn frames_from(chunks: Seq<ChunkContent>, k: nat) -> Seq<(ChunkContent, nat)> {
    Seq::new((chunks.len() - k) as nat, |i: int| (chunks[k + i], frame_offset(chunks, (k + i) as nat)))
}

/// Where no chunk from `from` on fails, chunk `i` does not.
proof fn lemma_no_chunk_error(chunks: Seq<ChunkContent>, from: int, i: int)
    requires
        first_chunk_error(chunks, from) is None,
        0 <= from <= i < chunks.len(),
    ensures
        chunk_write_error(chunks[i]) is None,
    decreases i - from,
{
    if from < i {
        lemma_no_chunk_error(chunks, from + 1, i);
    }
}

/// The frames of the first `k` chunks are the start of the frames of all.
proof fn lemma_frames_bytes_prefix(chunks: Seq<ChunkContent>, k: nat)
    requires
        k <= chunks.len(),
    ensures
        frames_bytes(chunks, k).len() <= frames_bytes(chunks, chunks.len()).len(),
        frames_bytes(chunks, chunks.len()).take(frames_bytes(chunks, k).len() as int)
            == frames_bytes(chunks, k),
    decreases chunks.len() - k,
{
    let all = frames_bytes(chunks, chunks.len());
    if k < chunks.len() {
        lemma_frames_bytes_prefix(chunks, k + 1);
        let longer = frames_bytes(chunks, k + 1);
        assert(longer == frames_bytes(chunks, k) + chunk_bytes(chunks[k as int]));
        assert(all.take(frames_bytes(chunks, k).len() as int) =~= all.take(
            longer.len() as int,
        ).take(frames_bytes(chunks, k).len() as int));
        assert(longer.take(frames_bytes(chunks, k).len() as int) =~= frames_bytes(chunks, k));
    } else {
        assert(all.take(all.len() as int) =~= all);
    }
}

/// The frames from chunk `k` on are read back from the file of the chunks.
proof fn lemma_frames_roundtrip(chunks: Seq<ChunkContent>, k: nat)
    requires
        chunks_write_error(chunks) is None,
        k < chunks.len(),
    ensures
        frames_parse(chunks_file_bytes(chunks), frame_offset(chunks, k)) == Ok::<
            Seq<(ChunkContent, nat)>,
            ParseError,
        >(frames_from(chunks, k)),
    decreases chunks.len() - k,
{
    let input = chunks_file_bytes(chunks);
    let all = frames_bytes(chunks, chunks.len());
    let at = frame_offset(chunks, k);
    let frame = chunk_bytes(chunks[k as int]);
    let next = frame_offset(chunks, k + 1);
    lemma_no_chunk_error(chunks, 0, k as int);
    lemma_frames_bytes_prefix(chunks, k);
    lemma_frames_bytes_prefix(chunks, k + 1);
    assert(frames_bytes(chunks, k + 1) == frames_bytes(chunks, k) + frame);
    assert(next == at + frame.len());
    let rest = input.skip(next as int);
    assert(input.skip(at as int) =~= frame + rest) by {
        let behind = input.skip(at as int);
        assert(behind.take(frame.len() as int) =~= frame) by {
            assert forall|j: int| 0 <= j < frame.len() implies behind[j] == frame[j] by {
                let g = frames_bytes(chunks, k).len() + j;
                assert(behind[j] == all[g]);
                assert(all.take(frames_bytes(chunks, k + 1).len() as int)[g] == all[g]);
                assert(frames_bytes(chunks, k + 1)[g] == frame[j]);
            }
        }
        assert(behind.skip(frame.len() as int) =~= rest);
    }
    lemma_chunk_roundtrip(chunks[k as int], rest);
    match chunks[k as int] {
        ChunkContent::XOR(samples) => {
            lemma_frame_len(1, crate::xor::xor_chunk_bytes(samples));
        },
        _ => {},
    }
    if k + 1 < chunks.len() {
        lemma_frames_roundtrip(chunks, k + 1);
        assert(seq![(chunks[k as int], at)] + frames_from(chunks, k + 1) =~= frames_from(
            chunks,
            k,
        ));
    } else {
        assert(next == input.len());
        assert(seq![(chunks[k as int], at)] =~= frames_from(chunks, k));
    }
}

/// Reading a file that was written gives the chunks back, each with the
/// offset at which its frame starts, and leaves no byte.
pub proof fn lemma_chunks_file_roundtrip(chunks: Seq<ChunkContent>)
    requires
        chunks_write_error(chunks) is None,
    ensures
        chunks_file_parse(chunks_file_bytes(chunks)) == Ok::<Seq<(ChunkContent, nat)>, ParseError>(
            frames_from(chunks, 0),
        ),
{
    let input = chunks_file_bytes(chunks);
    assert(input.take(CHUNKS_HEADER_LEN as int) =~= chunks_header());
    assert(frames_bytes(chunks, 0) =~= Seq::<u8>::empty());
    lemma_frames_roundtrip(chunks, 0);
}

} // verus!
