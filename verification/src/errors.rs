use vstd::prelude::*;

verus! {

/// Why a sequence of bytes could not be decoded.
#[derive(Debug, Clone, Copy, PartialEq, Eq, Structural)]
pub enum ParseError {
    /// The input ended before a required field. `needed` is the number of
    /// further bytes that the field asks for, where that is known.
    Truncated { needed: Option<u64> },
    /// A number does not fit its type: a uvarint of more than ten bytes or of
    /// more than 64 bits; a distance between the first two timestamps of a
    /// chunk beyond `i64::MAX`; in the index, an offset that the platform
    /// cannot address, a negative length, a time or a reference that sums up
    /// beyond 64 bits.
    TooLarge,
    /// A magic number, a version or a type byte is not the expected one.
    Tag,
    /// The zero bits around an XOR-encoded value leave no bit for the value,
    /// or go beyond its 64 bits.
    Window,
    /// The stored CRC-32C differs from the one computed over the data.
    CrcMismatch,
    /// Bytes were left inside a declared size: in the frame of a chunk
    /// anything but a single zero behind the payload, in a symbol table
    /// anything behind the last symbol.
    Framing,
    /// A symbol is not valid UTF-8, a symbol count is negative, or a label
    /// refers to a symbol that the table does not hold.
    Symbol,
    /// The table of contents names a section that cannot lie where it says:
    /// inside the header of the file, or ending before it starts.
    Section,
}

impl ParseError {
    /// A short description, starting with the name of the failure.
    pub fn message(&self) -> (text: String)
        ensures
            text@ == (match *self {
                ParseError::Truncated { .. } => "Eof: the input ended too early"@,
                ParseError::TooLarge => "TooLarge: a number does not fit its type"@,
                ParseError::Tag => "Tag: unexpected magic, version or type byte"@,
                ParseError::Window => "Window: no room for the bits of an XOR-encoded value"@,
                ParseError::CrcMismatch => "Verify: the CRC-32C does not match"@,
                ParseError::Framing => "Framing: stray bytes after the payload"@,
                ParseError::Symbol => "Verify: invalid symbol or symbol reference"@,
                ParseError::Section => "Section: a section cannot lie where the table says"@,
            }),
    {
        match self {
            ParseError::Truncated { .. } => "Eof: the input ended too early".to_owned(),
            ParseError::TooLarge => "TooLarge: a number does not fit its type".to_owned(),
            ParseError::Tag => "Tag: unexpected magic, version or type byte".to_owned(),
            ParseError::Window => "Window: no room for the bits of an XOR-encoded value".to_owned(),
            ParseError::CrcMismatch => "Verify: the CRC-32C does not match".to_owned(),
            ParseError::Framing => "Framing: stray bytes after the payload".to_owned(),
            ParseError::Symbol => "Verify: invalid symbol or symbol reference".to_owned(),
            ParseError::Section => "Section: a section cannot lie where the table says".to_owned(),
        }
    }
}

/// Why a value could not be encoded.
#[derive(Debug, Clone, Copy, PartialEq, Eq, Structural)]
pub enum WriteError {
    /// A chunk holds no sample.
    NoSamples,
    /// A chunk holds more than 65535 samples.
    TooManySamples,
    /// A timestamp is lower than the one before it.
    UnsortedSamples,
    /// Two timestamps in a row lie further apart than `i64::MAX`.
    TimestampGapTooLarge,
    /// A chunks file holds no chunk.
    NoChunks,
    /// The chunk is a histogram or a float histogram, which have no encoder.
    UnsupportedChunk,
}

impl WriteError {
    /// A short description of the failure.
    pub fn message(&self) -> (text: String)
        ensures
            text@ == (match *self {
                WriteError::NoSamples => "at least one sample is required"@,
                WriteError::TooManySamples => "too many samples for one chunk"@,
                WriteError::UnsortedSamples => "samples aren't sorted by timestamp ascending"@,
                WriteError::TimestampGapTooLarge => "timestamps in a row lie too far apart"@,
                WriteError::NoChunks => "at least one chunk is required"@,
                WriteError::UnsupportedChunk => "histogram chunks cannot be written"@,
            }),
    {
        match self {
            WriteError::NoSamples => "at least one sample is required".to_owned(),
            WriteError::TooManySamples => "too many samples for one chunk".to_owned(),
            WriteError::UnsortedSamples => "samples aren't sorted by timestamp ascending".to_owned(),
            WriteError::TimestampGapTooLarge => "timestamps in a row lie too far apart".to_owned(),
            WriteError::NoChunks => "at least one chunk is required".to_owned(),
            WriteError::UnsupportedChunk => "histogram chunks cannot be written".to_owned(),
        }
    }
}

/// What can go wrong with a block of Prometheus data as a whole.
#[derive(Debug)]
pub enum RustyChunkEncError {
    /// Reading or writing a file failed. The library itself touches no
    /// file: the variant is for the code that does so on its behalf, and
    /// holds the description of the failure.
    IoError(String),
    /// Bytes could not be decoded.
    ParsingError(ParseError),
    /// A value could not be encoded.
    WritingError(WriteError),
    /// The index does not fit the chunks that it refers to.
    IncorrectIndexData,
    /// The name of a file is not text.
    InvalidFileName,
}

impl From<ParseError> for RustyChunkEncError {
    fn from(err: ParseError) -> (r: Self) {
        RustyChunkEncError::ParsingError(err)
    }
}

impl vstd::std_specs::convert::FromSpecImpl<ParseError> for RustyChunkEncError {
    open spec fn obeys_from_spec() -> bool {
        true
    }

    open spec fn from_spec(err: ParseError) -> Self {
        RustyChunkEncError::ParsingError(err)
    }
}

impl From<WriteError> for RustyChunkEncError {
    fn from(err: WriteError) -> (r: Self) {
        RustyChunkEncError::WritingError(err)
    }
}

impl vstd::std_specs::convert::FromSpecImpl<WriteError> for RustyChunkEncError {
    open spec fn obeys_from_spec() -> bool {
        true
    }

    open spec fn from_spec(err: WriteError) -> Self {
        RustyChunkEncError::WritingError(err)
    }
}

} // verus!
