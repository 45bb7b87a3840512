use crate::errors::ParseError;
use crate::series::{
    labels_map, labels_resolve, read_series, resolved_labels, series_hold, series_parse, Serie,
    SerieChunk, SerieLabel, SerieTmp,
};
use crate::symbol_table::{bytes_of_strings, read_symbol_table, symbol_table_parse};
use crate::toc::{read_toc_at_end, toc_at_end_parse, IndexTableOfContent};
use vstd::prelude::*;
use vstd::slice::slice_subrange;

verus! {

/// The length of the header of an index file: the magic number and the
/// version. The offsets of the table of contents count from the start of
/// the file, header included.
pub const HEADER_LENGTH: usize = 5;

/// The magic number of an index file.
pub open spec fn index_magic() -> Seq<u8> {
    seq![0xBAu8, 0xAAu8, 0xD7u8, 0x00u8]
}

/// The series of an index file.
#[derive(Debug)]
pub struct IndexDiskFormat {
    series: Vec<Serie>,
}

impl IndexDiskFormat {
    /// The series of the index, in the order of the file.
    pub closed spec fn series_of(&self) -> Seq<Serie> {
        self.series@
    }

    /// An index of the given series.
    pub fn new(series: Vec<Serie>) -> (index: Self)
        ensures
            index.series_of() == series@,
    {
        Self { series }
    }

    /// The series of the index.
    pub fn series(&self) -> (series: &Vec<Serie>)
        ensures
            series@ == self.series_of(),
    {
        &self.series
    }
}

/// Where the series section ends: where the first of the sections behind
/// it starts, or at 0 where the file has none of them.
pub open spec fn series_end(toc: IndexTableOfContent) -> usize {
    match toc.label_indices_start {
        Some(end) => end,
        None => match toc.label_offset_table {
            Some(end) => end,
            None => match toc.postings_start {
                Some(end) => end,
                None => match toc.postings_offset_table {
                    Some(end) => end,
                    None => 0,
                },
            },
        },
    }
}

/// The bytes of a section from its start on, where `input` is the file
/// without its header and the section starts `offset` bytes into the file.
pub open spec fn section_parse(input: Seq<u8>, offset: usize) -> Result<Seq<u8>, ParseError> {
    if offset < HEADER_LENGTH {
        Err(ParseError::Section)
    } else if offset - HEADER_LENGTH > input.len() {
        Err(ParseError::Truncated { needed: Some((offset - HEADER_LENGTH - input.len()) as u64) })
    } else {
        Ok(input.skip(offset - HEADER_LENGTH))
    }
}

/// The parse of the symbols of a file: none where it has no symbol table.
pub open spec fn symbols_section_parse(input: Seq<u8>, toc: IndexTableOfContent) -> Result<
    Seq<Seq<u8>>,
    ParseError,
> {
    match toc.symbols {
        None => Ok(Seq::empty()),
        Some(offset) => match section_parse(input, offset) {
            Err(e) => Err(e),
            Ok(section) => match symbol_table_parse(section) {
                Err(e) => Err(e),
                Ok((symbols, _)) => Ok(symbols),
            },
        },
    }
}

/// The parse of the series of a file: none where it has no series section.
pub open spec fn series_section_parse(input: Seq<u8>, toc: IndexTableOfContent) -> Result<
    Seq<(Seq<SerieLabel>, Seq<SerieChunk>)>,
    ParseError,
> {
    match toc.series {
        None => Ok(Seq::empty()),
        Some(offset) => match section_parse(input, offset) {
            Err(e) => Err(e),
            Ok(section) => match series_parse(section, offset as nat, series_end(toc) as nat) {
                Err(e) => Err(e),
                Ok((series, _)) => Ok(series),
            },
        },
    }
}

/// Whether the labels of every series refer to symbols that the table holds.
pub open spec fn all_resolve(
    series: Seq<(Seq<SerieLabel>, Seq<SerieChunk>)>,
    symbols: Seq<Seq<u8>>,
) -> bool {
    forall|i: int| 0 <= i < series.len() ==> labels_resolve((#[trigger] series[i]).0, symbols)
}

/// The parse of an index file without its header: the table of contents at
/// its end, the symbols and the series where the table says. Gives the
/// symbols and the series as they are stored.
pub open spec fn simple_sections_parse(input: Seq<u8>) -> Result<
    (Seq<Seq<u8>>, Seq<(Seq<SerieLabel>, Seq<SerieChunk>)>),
    ParseError,
> {
    match toc_at_end_parse(input) {
        Err(e) => Err(e),
        Ok(toc) => match symbols_section_parse(input, toc) {
            Err(e) => Err(e),
            Ok(symbols) => match series_section_parse(input, toc) {
                Err(e) => Err(e),
                Ok(series) => if all_resolve(series, symbols) {
                    Ok((symbols, series))
                } else {
                    Err(ParseError::Symbol)
                },
            },
        },
    }
}

/// The parse of an index file from its version byte on, for a reader of
/// the given version.
pub open spec fn version_parse(input: Seq<u8>, version: u8) -> Result<
    (Seq<Seq<u8>>, Seq<(Seq<SerieLabel>, Seq<SerieChunk>)>),
    ParseError,
> {
    if input.len() < 1 || input[0] != version {
        Err(ParseError::Tag)
    } else {
        simple_sections_parse(input.skip(1))
    }
}

/// The parse of an index file: the magic number, a version of 1 or 2, and
/// the sections, which both versions lay out alike.
pub open spec fn index_parse(input: Seq<u8>) -> Result<
    (Seq<Seq<u8>>, Seq<(Seq<SerieLabel>, Seq<SerieChunk>)>),
    ParseError,
> {
    if input.len() < 4 || input.take(4) != index_magic() {
        Err(ParseError::Tag)
    } else if input.len() >= HEADER_LENGTH && input[4] == 2 {
        version_parse(input.skip(4), 2)
    } else {
        version_parse(input.skip(4), 1)
    }
}

/// Whether series are those that were parsed, their labels looked up in
/// the symbols: each is well formed, its labels are the map that its
/// stored labels stand for, and its chunks are the stored chunks.
pub open spec fn index_holds(
    series: Seq<Serie>,
    symbols: Seq<Seq<u8>>,
    parsed: Seq<(Seq<SerieLabel>, Seq<SerieChunk>)>,
) -> bool {
    &&& series.len() == parsed.len()
    &&& forall|i: int|
        0 <= i < parsed.len() ==> (#[trigger] series[i]).well_formed() && labels_map(
            series[i].labels_of(),
        ) == resolved_labels(parsed[i].0, symbols) && series[i].chunks_of() == parsed[i].1
}

/// The bytes of a section from its start on.
fn section_at(input: &[u8], offset: usize) -> (r: Result<&[u8], ParseError>)
    ensures
        match section_parse(input@, offset) {
            Ok(section) => r matches Ok(found) && found@ == section,
            Err(e) => r matches Err(err) && err == e,
        },
{
    if offset < HEADER_LENGTH {
        return Err(ParseError::Section);
    }
    let at: usize = offset - HEADER_LENGTH;
    if at > input.len() {
        return Err(ParseError::Truncated { needed: Some((at - input.len()) as u64) });
    }
    Ok(slice_subrange(input, at, input.len()))
}

/// Where the series section ends.
fn series_end_of(toc: &IndexTableOfContent) -> (end: usize)
    ensures
        end == series_end(*toc),
{
    match toc.label_indices_start {
        Some(end) => end,
        None => match toc.label_offset_table {
            Some(end) => end,
            None => match toc.postings_start {
                Some(end) => end,
                None => match toc.postings_offset_table {
                    Some(end) => end,
                    None => 0,
                },
            },
        },
    }
}

/// Looks the labels of every series up in the symbols. Fails where a label
/// refers to a symbol that the table does not hold.
fn finalise_all(series: Vec<SerieTmp>, symbols: &[String]) -> (r: Option<Vec<Serie>>)
    ensures
        r is Some <==> forall|i: int|
            0 <= i < series@.len() ==> labels_resolve(
                (#[trigger] series@[i]).labels@,
                bytes_of_strings(symbols@),
            ),
        r matches Some(found) ==> found@.len() == series@.len() && forall|i: int|
            0 <= i < series@.len() ==> (#[trigger] found@[i]).well_formed() && labels_map(
                found@[i].labels_of(),
            ) == resolved_labels(series@[i].labels@, bytes_of_strings(symbols@))
                && found@[i].chunks_of() == series@[i].chunks@,
{
    let ghost table = bytes_of_strings(symbols@);
    let ghost all = series@;
    let mut todo: Vec<SerieTmp> = series;
    let mut reversed: Vec<Serie> = Vec::new();
    while todo.len() > 0
        invariant
            table == bytes_of_strings(symbols@),
            all == series@,
            todo@ == all.take(todo@.len() as int),
            todo@.len() + reversed@.len() == all.len(),
            forall|i: int|
                todo@.len() <= i < all.len() ==> labels_resolve((#[trigger] all[i]).labels@, table),
            forall|k: int|
                0 <= k < reversed@.len() ==> (#[trigger] reversed@[k]).well_formed() && labels_map(
                    reversed@[k].labels_of(),
                ) == resolved_labels(all[all.len() - 1 - k].labels@, table)
                    && reversed@[k].chunks_of() == all[all.len() - 1 - k].chunks@,
        decreases todo@.len(),
    {
        let ghost at = todo@.len() - 1;
        let ghost done = reversed@;
        let serie = match todo.pop() {
            Some(serie) => serie,
            None => {
                return None;
            },
        };
        proof {
            assert(serie == all[at]);
            assert(todo@ =~= all.take(at));
        }
        match serie.finalise(symbols) {
            Ok(finalised) => {
                reversed.push(finalised);
                proof {
                    assert forall|k: int| 0 <= k < reversed@.len() implies (
                    #[trigger] reversed@[k]).well_formed() && labels_map(reversed@[k].labels_of())
                        == resolved_labels(all[all.len() - 1 - k].labels@, table)
                        && reversed@[k].chunks_of() == all[all.len() - 1 - k].chunks@ by {
                        if k < done.len() {
                            assert(reversed@[k] == done[k]);
                        }
                    }
                }
            },
            Err(_) => {
                return None;
            },
        }
    }
    let ghost backwards = reversed@;
    let mut found: Vec<Serie> = Vec::new();
    while reversed.len() > 0
        invariant
            reversed@ == backwards.take(reversed@.len() as int),
            reversed@.len() + found@.len() == backwards.len(),
            forall|i: int|
                0 <= i < found@.len() ==> (#[trigger] found@[i]) == backwards[backwards.len() - 1
                    - i],
        decreases reversed@.len(),
    {
        let ghost at = reversed@.len() - 1;
        let ghost done = found@;
        match reversed.pop() {
            Some(serie) => {
                found.push(serie);
                proof {
                    assert(reversed@ =~= backwards.take(at));
                    assert forall|i: int| 0 <= i < found@.len() implies (#[trigger] found@[i])
                        == backwards[backwards.len() - 1 - i] by {
                        if i < done.len() {
                            assert(found@[i] == done[i]);
                        }
                    }
                }
            },
            None => {},
        }
    }
    proof {
        assert forall|i: int| 0 <= i < all.len() implies (#[trigger] found@[i]).well_formed()
            && labels_map(found@[i].labels_of()) == resolved_labels(all[i].labels@, table)
            && found@[i].chunks_of() == all[i].chunks@ by {
            let k = all.len() - 1 - i;
            assert(found@[i] == backwards[k]);
        }
    }
    Some(found)
}

fn read_simple_sections(input: &[u8]) -> (r: Result<(&[u8], IndexDiskFormat), ParseError>)
    ensures
        match simple_sections_parse(input@) {
            Ok((symbols, parsed)) => r matches Ok((rest, index)) && rest@.len() == 0 && index_holds(
                index.series_of(),
                symbols,
                parsed,
            ),
            Err(e) => r matches Err(err) && err == e,
        },
{
    let (remaining_input, toc) = match read_toc_at_end(input) {
        Ok(found) => found,
        Err(e) => {
            return Err(e);
        },
    };
    let symbols: Vec<String> = match toc.symbols {
        Some(offset) => {
            let section = match section_at(input, offset) {
                Ok(section) => section,
                Err(e) => {
                    return Err(e);
                },
            };
            match read_symbol_table(section) {
                Ok((_, symbols)) => symbols,
                Err(e) => {
                    return Err(e);
                },
            }
        },
        None => Vec::new(),
    };
    proof {
        if toc.symbols is None {
            assert(bytes_of_strings(symbols@) =~= Seq::<Seq<u8>>::empty());
        }
    }
    let series: Vec<SerieTmp> = match toc.series {
        Some(series_start) => {
            let section = match section_at(input, series_start) {
                Ok(section) => section,
                Err(e) => {
                    return Err(e);
                },
            };
            match read_series(series_start, series_end_of(&toc), section) {
                Ok((_, series)) => series,
                Err(e) => {
                    return Err(e);
                },
            }
        },
        None => Vec::new(),
    };
    let ghost parsed = series_section_parse(input@, toc).unwrap();
    let ghost table = bytes_of_strings(symbols@);
    proof {
        if toc.series is None {
            assert(series_hold(series@, parsed));
        }
        assert(series_hold(series@, parsed));
        if all_resolve(parsed, table) {
            assert forall|i: int| 0 <= i < series@.len() implies labels_resolve(
                (#[trigger] series@[i]).labels@,
                table,
            ) by {
                assert(labels_resolve(parsed[i].0, table));
            }
        } else {
            let i = choose|i: int| 0 <= i < parsed.len() && !labels_resolve(parsed[i].0, table);
            assert(series@[i].labels@ == parsed[i].0);
        }
    }
    match finalise_all(series, symbols.as_slice()) {
        Some(series_finalised) => {
            proof {
                assert forall|i: int| 0 <= i < parsed.len() implies (
                #[trigger] series_finalised@[i]).well_formed() && labels_map(
                    series_finalised@[i].labels_of(),
                ) == resolved_labels(parsed[i].0, table) && series_finalised@[i].chunks_of()
                    == parsed[i].1 by {
                    assert(series@[i].labels@ == parsed[i].0);
                }
            }
            Ok((remaining_input, IndexDiskFormat::new(series_finalised)))
        },
        None => Err(ParseError::Symbol),
    }
}

/// Reads an index file of version 1 from its version byte on.
pub fn read_version_one(input: &[u8]) -> (r: Result<(&[u8], IndexDiskFormat), ParseError>)
    ensures
        match version_parse(input@, 1) {
            Ok((symbols, parsed)) => r matches Ok((rest, index)) && rest@.len() == 0 && index_holds(
                index.series_of(),
                symbols,
                parsed,
            ),
            Err(e) => r matches Err(err) && err == e,
        },
{
    if input.len() < 1 || input[0] != 1 {
        return Err(ParseError::Tag);
    }
    read_simple_sections(slice_subrange(input, 1, input.len()))
}

/// Reads an index file of version 2 from its version byte on.
pub fn read_version_two(input: &[u8]) -> (r: Result<(&[u8], IndexDiskFormat), ParseError>)
    ensures
        match version_parse(input@, 2) {
            Ok((symbols, parsed)) => r matches Ok((rest, index)) && rest@.len() == 0 && index_holds(
                index.series_of(),
                symbols,
                parsed,
            ),
            Err(e) => r matches Err(err) && err == e,
        },
{
    if input.len() < 1 || input[0] != 2 {
        return Err(ParseError::Tag);
    }
    read_simple_sections(slice_subrange(input, 1, input.len()))
}

/// Reads an index file and returns the bytes behind it, which are none,
/// together with its series.
pub fn read_index_disk_format(input: &[u8]) -> (r: Result<(&[u8], IndexDiskFormat), ParseError>)
    ensures
        match index_parse(input@) {
            Ok((symbols, parsed)) => r matches Ok((rest, index)) && rest@.len() == 0 && index_holds(
                index.series_of(),
                symbols,
                parsed,
            ),
            Err(e) => r matches Err(err) && err == e,
        },
{
    if input.len() < 4 || input[0] != 0xBA || input[1] != 0xAA || input[2] != 0xD7 || input[3]
        != 0x00 {
        proof {
            if input@.len() >= 4 {
                let head = input@.take(4);
                assert(head[0] == input@[0] && head[1] == input@[1] && head[2] == input@[2]
                    && head[3] == input@[3]);
            }
        }
        return Err(ParseError::Tag);
    }
    proof {
        assert(input@.take(4) =~= index_magic());
    }
    let rest = slice_subrange(input, 4, input.len());
    if rest.len() >= 1 && rest[0] == 2 {
        read_version_two(rest)
    } else {
        read_version_one(rest)
    }
}

} // verus!
