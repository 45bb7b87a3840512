use crate::bytes::{be_number, be_value};
use crate::crc32c::{assert_crc32c_on_data, crc32c_checksum, read_crc32c};
use crate::errors::ParseError;
use vstd::prelude::*;
use vstd::slice::slice_subrange;

verus! {

/// The length of a table of contents: six offsets of eight bytes and a
/// checksum of four.
pub const TOC_SIZE: usize = 52;

/// The length of a table of contents without its checksum.
pub const TOC_SIZE_WITHOUT_CRC32C: usize = 48;

/// The table of contents of an index file: where each section starts, in
/// bytes from the start of the file. A section that the file lacks has no
/// offset.
#[derive(Debug, Clone, Copy, PartialEq, Eq, Structural)]
pub struct IndexTableOfContent {
    pub symbols: Option<usize>,
    pub series: Option<usize>,
    pub label_indices_start: Option<usize>,
    pub label_offset_table: Option<usize>,
    pub postings_start: Option<usize>,
    pub postings_offset_table: Option<usize>,
}

/// Entry `i` of a table of contents: a number of eight bytes, big-endian.
pub open spec fn toc_entry(input: Seq<u8>, i: int) -> nat {
    be_value(input.subrange(8 * i, 8 * i + 8))
}

/// The offset that an entry stands for: none where the entry is zero.
pub open spec fn toc_offset(entry: nat) -> Option<usize> {
    if entry == 0 {
        None
    } else {
        Some(entry as usize)
    }
}

/// The parse of a table of contents at the start of `input`.
///
/// The six entries are followed by the CRC-32C of their 48 bytes. An entry
/// that the platform cannot address is `TooLarge`.
pub open spec fn toc_parse(input: Seq<u8>) -> Result<IndexTableOfContent, ParseError> {
    if input.len() < TOC_SIZE {
        Err(ParseError::Truncated { needed: None })
    } else if be_value(input.subrange(TOC_SIZE_WITHOUT_CRC32C as int, TOC_SIZE as int))
        != crc32c_checksum(input.take(TOC_SIZE_WITHOUT_CRC32C as int)) {
        Err(ParseError::CrcMismatch)
    } else if exists|i: int| 0 <= i < 6 && toc_entry(input, i) > usize::MAX {
        Err(ParseError::TooLarge)
    } else {
        Ok(
            IndexTableOfContent {
                symbols: toc_offset(toc_entry(input, 0)),
                series: toc_offset(toc_entry(input, 1)),
                label_indices_start: toc_offset(toc_entry(input, 2)),
                label_offset_table: toc_offset(toc_entry(input, 3)),
                postings_start: toc_offset(toc_entry(input, 4)),
                postings_offset_table: toc_offset(toc_entry(input, 5)),
            },
        )
    }
}

/// Reads entry `i` of a table of contents.
fn read_toc_entry(input: &[u8], i: usize) -> (entry: u64)
    requires
        i < 6,
        input@.len() >= TOC_SIZE,
    ensures
        entry == toc_entry(input@, i as int),
{
    be_number(slice_subrange(input, 8 * i, 8 * i + 8))
}

/// The offset that an entry stands for, where the platform can address it.
fn toc_offset_of(entry: u64) -> (r: Option<Option<usize>>)
    ensures
        r == (if entry > usize::MAX {
            None::<Option<usize>>
        } else {
            Some(toc_offset(entry as nat))
        }),
{
    if entry > usize::MAX as u64 {
        None
    } else if entry == 0 {
        Some(None)
    } else {
        Some(Some(entry as usize))
    }
}

/// Reads a table of contents from the start of `input` and returns the
/// bytes that follow it together with the table.
pub fn read_toc(input: &[u8]) -> (r: Result<(&[u8], IndexTableOfContent), ParseError>)
    ensures
        match toc_parse(input@) {
            Ok(toc) => r matches Ok((rest, found)) && found == toc && rest@ == input@.skip(
                TOC_SIZE as int,
            ),
            Err(e) => r matches Err(err) && err == e,
        },
{
    let len: usize = input.len();
    if len < TOC_SIZE {
        return Err(ParseError::Truncated { needed: None });
    }
    let (rest, expected_crc32c) = match read_crc32c(
        slice_subrange(input, TOC_SIZE_WITHOUT_CRC32C, len),
    ) {
        Ok(found) => found,
        Err(e) => {
            return Err(e);
        },
    };
    proof {
        assert(input@.skip(TOC_SIZE_WITHOUT_CRC32C as int).take(4) =~= input@.subrange(
            TOC_SIZE_WITHOUT_CRC32C as int,
            TOC_SIZE as int,
        ));
        assert(input@.subrange(0, TOC_SIZE_WITHOUT_CRC32C as int) =~= input@.take(
            TOC_SIZE_WITHOUT_CRC32C as int,
        ));
        assert(rest@ =~= input@.skip(TOC_SIZE as int));
    }
    match assert_crc32c_on_data(input, 0, TOC_SIZE_WITHOUT_CRC32C, expected_crc32c) {
        Ok(_) => {},
        Err(e) => {
            return Err(e);
        },
    }
    let symbols = toc_offset_of(read_toc_entry(input, 0));
    let series = toc_offset_of(read_toc_entry(input, 1));
    let label_indices_start = toc_offset_of(read_toc_entry(input, 2));
    let label_offset_table = toc_offset_of(read_toc_entry(input, 3));
    let postings_start = toc_offset_of(read_toc_entry(input, 4));
    let postings_offset_table = toc_offset_of(read_toc_entry(input, 5));
    match (
        symbols,
        series,
        label_indices_start,
        label_offset_table,
        postings_start,
        postings_offset_table,
    ) {
        (
            Some(symbols),
            Some(series),
            Some(label_indices_start),
            Some(label_offset_table),
            Some(postings_start),
            Some(postings_offset_table),
        ) => Ok(
            (
                rest,
                IndexTableOfContent {
                    symbols,
                    series,
                    label_indices_start,
                    label_offset_table,
                    postings_start,
                    postings_offset_table,
                },
            ),
        ),
        _ => Err(ParseError::TooLarge),
    }
}

/// The parse of the table of contents that ends `input`.
pub open spec fn toc_at_end_parse(input: Seq<u8>) -> Result<IndexTableOfContent, ParseError> {
    if input.len() < TOC_SIZE {
        Err(ParseError::Truncated { needed: Some(TOC_SIZE as u64) })
    } else {
        toc_parse(input.skip(input.len() - TOC_SIZE))
    }
}

/// Reads the table of contents from the last bytes of `input` and returns
/// the bytes that follow it, which are none, together with the table.
pub fn read_toc_at_end(input: &[u8]) -> (r: Result<(&[u8], IndexTableOfContent), ParseError>)
    ensures
        match toc_at_end_parse(input@) {
            Ok(toc) => r matches Ok((rest, found)) && found == toc && rest@.len() == 0,
            Err(e) => r matches Err(err) && err == e,
        },
{
    if input.len() < TOC_SIZE {
        return Err(ParseError::Truncated { needed: Some(TOC_SIZE as u64) });
    }
    let toc_index_start: usize = input.len() - TOC_SIZE;
    read_toc(slice_subrange(input, toc_index_start, input.len()))
}

} // verus!
