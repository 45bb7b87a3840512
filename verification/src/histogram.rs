use crate::errors::ParseError;
use vstd::prelude::*;

verus! {

/// A histogram chunk. Its payload has no decoder: the chunk stands for the
/// type of a frame and holds nothing.
#[derive(Debug, Clone, Copy, PartialEq, Eq, Structural)]
pub struct HistogramChunk {}

/// A float histogram chunk. Its payload has no decoder either.
#[derive(Debug, Clone, Copy, PartialEq, Eq, Structural)]
pub struct FloatHistogramChunk {}

impl HistogramChunk {
    /// A histogram chunk has no reference into a block.
    pub fn block_chunk_ref(&self) -> (r: Option<u64>)
        ensures
            r is None,
    {
        None
    }
}

impl FloatHistogramChunk {
    /// A float histogram chunk has no reference into a block.
    pub fn block_chunk_ref(&self) -> (r: Option<u64>)
        ensures
            r is None,
    {
        None
    }
}

/// Reads the payload of a histogram chunk: takes no byte of `input`.
pub fn read_histogram_chunk_data(input: &[u8]) -> (r: Result<(&[u8], HistogramChunk), ParseError>)
    ensures
        r matches Ok((rest, _)) && rest@ == input@,
{
    Ok((input, HistogramChunk {  }))
}

/// Reads the payload of a float histogram chunk: takes no byte of `input`.
pub fn read_float_histogram_chunk_data(input: &[u8]) -> (r: Result<
    (&[u8], FloatHistogramChunk),
    ParseError,
>)
    ensures
        r matches Ok((rest, _)) && rest@ == input@,
{
    Ok((input, FloatHistogramChunk {  }))
}

} // verus!
