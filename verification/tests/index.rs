use rusty_chunkenc::crc32c::compute_crc32c;
use rusty_chunkenc::folder::is_chunk_file_name;
use rusty_chunkenc::index::{
    read_index_disk_format, read_version_one, read_version_two, IndexDiskFormat,
};
use rusty_chunkenc::series::{
    compare_bytes, read_serie, read_series, ByteOrder, SerieChunk, SerieLabel, SerieTmp,
};
use rusty_chunkenc::symbol_table::read_symbol_table;
use rusty_chunkenc::toc::{read_toc, read_toc_at_end, IndexTableOfContent};
use rusty_chunkenc::{
    write_uvarint, write_varint, ParseError, RustyChunkEncError, WriteError,
};

fn with_crc(data: &[u8]) -> Vec<u8> {
    let mut out = data.to_vec();
    out.extend_from_slice(&compute_crc32c(data).to_be_bytes());
    out
}

/// A symbol table of the given symbols.
fn symbol_table(symbols: &[&[u8]]) -> Vec<u8> {
    let mut data: Vec<u8> = Vec::new();
    data.extend_from_slice(&(symbols.len() as i32).to_be_bytes());
    for symbol in symbols {
        write_uvarint(symbol.len() as u64, &mut data);
        data.extend_from_slice(symbol);
    }
    let mut out: Vec<u8> = Vec::new();
    out.extend_from_slice(&(data.len() as i32).to_be_bytes());
    out.extend_from_slice(&with_crc(&data));
    out
}

/// A series of the given labels and of chunks as they are written down.
fn serie(labels: &[(u64, u64)], chunks: &[(i64, u64, u64)]) -> Vec<u8> {
    let mut data: Vec<u8> = Vec::new();
    write_uvarint(labels.len() as u64, &mut data);
    for (name, value) in labels {
        write_uvarint(*name, &mut data);
        write_uvarint(*value, &mut data);
    }
    write_uvarint(chunks.len() as u64, &mut data);
    for (mint, span, data_ref) in chunks {
        write_varint(*mint, &mut data);
        write_uvarint(*span, &mut data);
        write_uvarint(*data_ref, &mut data);
    }
    let mut out: Vec<u8> = Vec::new();
    write_uvarint(data.len() as u64, &mut out);
    out.extend_from_slice(&with_crc(&data));
    out
}

fn toc(entries: [u64; 6]) -> Vec<u8> {
    let mut data: Vec<u8> = Vec::new();
    for entry in entries {
        data.extend_from_slice(&entry.to_be_bytes());
    }
    with_crc(&data)
}

fn pad_to_16(bytes: &mut Vec<u8>) {
    while bytes.len() % 16 != 0 {
        bytes.push(0);
    }
}

/// An index file of the given version with three symbols and two series.
fn index_file(version: u8) -> Vec<u8> {
    let mut file: Vec<u8> = vec![0xBA, 0xAA, 0xD7, 0x00, version];
    let symbols_at = file.len() as u64;
    file.extend_from_slice(&symbol_table(&[b"__name__", b"job", b"up"]));
    let series_at = file.len() as u64;
    pad_to_16(&mut file);
    // job="up" and __name__="up", given out of order
    file.extend_from_slice(&serie(
        &[(1, 2), (0, 2)],
        &[(1000, 500, (1 << 32) | 8), (10, 90, 24)],
    ));
    pad_to_16(&mut file);
    file.extend_from_slice(&serie(&[(0, 1)], &[]));
    pad_to_16(&mut file);
    let series_end = file.len() as u64;
    file.extend_from_slice(&toc([symbols_at, series_at, 0, 0, series_end, 0]));
    file
}

#[test]
fn index_file_of_two_series() {
    for version in [1u8, 2] {
        let file = index_file(version);
        let (rest, index) = read_index_disk_format(&file).unwrap();
        assert!(rest.is_empty());
        let series = index.series();
        assert_eq!(series.len(), 2);

        let labels: Vec<(&str, &str)> = series[0]
            .labels()
            .iter()
            .map(|(n, v)| (n.as_str(), v.as_str()))
            .collect();
        assert_eq!(labels, [("__name__", "up"), ("job", "up")]);
        assert_eq!(
            series[0].chunks(),
            &[
                SerieChunk { mint: 1000, maxt: 1500, data_ref: (1 << 32) | 8 },
                SerieChunk { mint: 1510, maxt: 1600, data_ref: (1 << 32) | 32 },
            ]
        );
        assert_eq!(series[0].chunks()[1].file_index(), 1);
        assert_eq!(series[0].chunks()[1].file_offset(), 32);

        let labels: Vec<(&str, &str)> = series[1]
            .labels()
            .iter()
            .map(|(n, v)| (n.as_str(), v.as_str()))
            .collect();
        assert_eq!(labels, [("__name__", "job")]);
        assert!(series[1].chunks().is_empty());
        assert_eq!(
            series[1].get_xx_hash(),
            xxhash_rust::xxh64::xxh64(b"__name__\xffjob\xff", 0)
        );
    }
}

#[test]
fn index_versions_and_magic() {
    let file = index_file(1);
    assert!(read_version_one(&file[4..]).is_ok());
    assert_eq!(read_version_two(&file[4..]).unwrap_err(), ParseError::Tag);
    let file = index_file(2);
    assert!(read_version_two(&file[4..]).is_ok());
    assert_eq!(read_version_one(&file[4..]).unwrap_err(), ParseError::Tag);

    let file = index_file(3);
    assert_eq!(read_index_disk_format(&file).unwrap_err(), ParseError::Tag);
    let mut file = index_file(1);
    file[2] = 0xD8;
    assert_eq!(read_index_disk_format(&file).unwrap_err(), ParseError::Tag);
    assert_eq!(read_index_disk_format(&[0xBA, 0xAA]).unwrap_err(), ParseError::Tag);
    assert_eq!(
        read_index_disk_format(&[0xBA, 0xAA, 0xD7, 0x00]).unwrap_err(),
        ParseError::Tag
    );
    assert_eq!(
        read_index_disk_format(&[0xBA, 0xAA, 0xD7, 0x00, 1, 0]).unwrap_err(),
        ParseError::Truncated { needed: Some(52) }
    );
}

#[test]
fn index_with_a_missing_symbol() {
    let mut file: Vec<u8> = vec![0xBA, 0xAA, 0xD7, 0x00, 2];
    file.extend_from_slice(&symbol_table(&[b"a"]));
    let series_at = file.len() as u64;
    pad_to_16(&mut file);
    file.extend_from_slice(&serie(&[(0, 1)], &[]));
    pad_to_16(&mut file);
    let series_end = file.len() as u64;
    file.extend_from_slice(&toc([5, series_at, series_end, 0, 0, 0]));
    assert_eq!(read_index_disk_format(&file).unwrap_err(), ParseError::Symbol);
}

#[test]
fn index_without_sections() {
    let mut file: Vec<u8> = vec![0xBA, 0xAA, 0xD7, 0x00, 2];
    file.extend_from_slice(&toc([0; 6]));
    let (rest, index) = read_index_disk_format(&file).unwrap();
    assert!(rest.is_empty());
    assert!(index.series().is_empty());

    // sections that cannot lie where the table says
    let mut file: Vec<u8> = vec![0xBA, 0xAA, 0xD7, 0x00, 2];
    file.extend_from_slice(&toc([3, 0, 0, 0, 0, 0]));
    assert_eq!(read_index_disk_format(&file).unwrap_err(), ParseError::Section);
    let mut file: Vec<u8> = vec![0xBA, 0xAA, 0xD7, 0x00, 2];
    file.extend_from_slice(&toc([100, 0, 0, 0, 0, 0]));
    assert_eq!(
        read_index_disk_format(&file).unwrap_err(),
        ParseError::Truncated { needed: Some(43) }
    );
    // a series section that ends before it starts
    let mut file: Vec<u8> = vec![0xBA, 0xAA, 0xD7, 0x00, 2];
    file.extend_from_slice(&[0; 11]);
    file.extend_from_slice(&toc([0, 16, 0, 0, 0, 0]));
    assert_eq!(read_index_disk_format(&file).unwrap_err(), ParseError::Section);
}

#[test]
fn index_new_keeps_the_series() {
    let index = IndexDiskFormat::new(Vec::new());
    assert!(index.series().is_empty());
    let serie = SerieTmp { labels: vec![], chunks: vec![] }
        .finalise(&[])
        .unwrap();
    let index = IndexDiskFormat::new(vec![serie]);
    assert_eq!(index.series().len(), 1);
}

#[test]
fn toc_entries() {
    let bytes = toc([5, 0x1_0000, 0, 7, 0, u32::MAX as u64]);
    let (rest, found) = read_toc(&bytes).unwrap();
    assert!(rest.is_empty());
    assert_eq!(
        found,
        IndexTableOfContent {
            symbols: Some(5),
            series: Some(0x1_0000),
            label_indices_start: None,
            label_offset_table: Some(7),
            postings_start: None,
            postings_offset_table: Some(u32::MAX as usize),
        }
    );

    let mut longer = vec![9u8, 9, 9];
    longer.extend_from_slice(&bytes);
    let (rest, at_end) = read_toc_at_end(&longer).unwrap();
    assert!(rest.is_empty());
    assert_eq!(at_end, found);
    let followed = [&bytes[..], &[1, 2][..]].concat();
    let (rest, _) = read_toc(&followed).unwrap();
    assert_eq!(rest, &[1, 2]);

    assert_eq!(
        read_toc(&bytes[..51]).unwrap_err(),
        ParseError::Truncated { needed: None }
    );
    assert_eq!(
        read_toc_at_end(&bytes[..51]).unwrap_err(),
        ParseError::Truncated { needed: Some(52) }
    );
    let mut tampered = bytes.clone();
    tampered[7] = 6;
    assert_eq!(read_toc(&tampered).unwrap_err(), ParseError::CrcMismatch);
}

#[test]
fn symbol_tables() {
    let bytes = symbol_table(&[b"a", b"", "caf\u{e9}".as_bytes()]);
    let mut input = bytes.clone();
    input.push(0x77);
    let (rest, symbols) = read_symbol_table(&input).unwrap();
    assert_eq!(rest, &[0x77]);
    assert_eq!(symbols, ["a", "", "caf\u{e9}"]);

    let empty_table = symbol_table(&[]);
    let (rest, symbols) = read_symbol_table(&empty_table).unwrap();
    assert!(rest.is_empty());
    assert!(symbols.is_empty());

    // bytes that are no text
    assert_eq!(
        read_symbol_table(&symbol_table(&[b"\xff\xfe"])).unwrap_err(),
        ParseError::Symbol
    );
    // a broken checksum
    let mut tampered = bytes.clone();
    let last = tampered.len() - 1;
    tampered[last] ^= 1;
    assert_eq!(read_symbol_table(&tampered).unwrap_err(), ParseError::CrcMismatch);
    // cut short
    assert_eq!(
        read_symbol_table(&bytes[..3]).unwrap_err(),
        ParseError::Truncated { needed: None }
    );
    assert_eq!(
        read_symbol_table(&bytes[..6]).unwrap_err(),
        ParseError::Truncated { needed: Some(bytes.len() as u64 - 4 - 4 - 2) }
    );
    assert_eq!(
        read_symbol_table(&bytes[..bytes.len() - 1]).unwrap_err(),
        ParseError::Truncated { needed: None }
    );
    // a negative length
    assert_eq!(
        read_symbol_table(&[0xFF, 0xFF, 0xFF, 0xFF, 0, 0, 0, 0]).unwrap_err(),
        ParseError::TooLarge
    );
    // a negative count
    let mut out: Vec<u8> = vec![0, 0, 0, 4];
    out.extend_from_slice(&with_crc(&[0xFF, 0xFF, 0xFF, 0xFE]));
    assert_eq!(read_symbol_table(&out).unwrap_err(), ParseError::Symbol);
    // a symbol that is announced and not there
    let mut out: Vec<u8> = vec![0, 0, 0, 5];
    out.extend_from_slice(&with_crc(&[0, 0, 0, 1, 3]));
    assert_eq!(
        read_symbol_table(&out).unwrap_err(),
        ParseError::Truncated { needed: None }
    );
    // data behind the last symbol
    let mut out: Vec<u8> = vec![0, 0, 0, 5];
    out.extend_from_slice(&with_crc(&[0, 0, 0, 0, 9]));
    assert_eq!(read_symbol_table(&out).unwrap_err(), ParseError::Framing);
}

#[test]
fn series_records() {
    let bytes = serie(&[(3, 4), (0x1_0000_0005, 6)], &[(-5, 10, 100), (1, 2, 3), (0, 0, 1)]);
    let mut input = bytes.clone();
    input.extend_from_slice(&[1, 2]);
    let (rest, found) = read_serie(&input).unwrap();
    assert_eq!(rest, &[1, 2]);
    assert_eq!(
        found.labels,
        [
            SerieLabel { name_ref: 3, value_ref: 4 },
            SerieLabel { name_ref: 5, value_ref: 6 },
        ]
    );
    assert_eq!(
        found.chunks,
        [
            SerieChunk { mint: -5, maxt: 5, data_ref: 100 },
            SerieChunk { mint: 6, maxt: 8, data_ref: 103 },
            SerieChunk { mint: 8, maxt: 8, data_ref: 104 },
        ]
    );

    let mut tampered = bytes.clone();
    tampered[2] ^= 1;
    assert_eq!(read_serie(&tampered).unwrap_err(), ParseError::CrcMismatch);
    assert_eq!(
        read_serie(&bytes[..bytes.len() - 1]).unwrap_err(),
        ParseError::Truncated { needed: None }
    );
    assert_eq!(
        read_serie(&[]).unwrap_err(),
        ParseError::Truncated { needed: Some(1) }
    );
    // sums that do not fit
    assert_eq!(
        read_serie(&serie(&[], &[(i64::MAX, 1, 0)])).unwrap_err(),
        ParseError::TooLarge
    );
    assert_eq!(
        read_serie(&serie(&[], &[(0, 0, u64::MAX), (0, 0, 1)])).unwrap_err(),
        ParseError::TooLarge
    );
    assert_eq!(
        read_serie(&serie(&[], &[(0, i64::MAX as u64, 0), (1, 0, 0)])).unwrap_err(),
        ParseError::TooLarge
    );
    // a length that reaches beyond the input
    let mut wrong_len: Vec<u8> = vec![100];
    wrong_len.extend_from_slice(&bytes[1..]);
    assert_eq!(
        read_serie(&wrong_len).unwrap_err(),
        ParseError::Truncated { needed: Some(100 - (bytes.len() as u64 - 1)) }
    );
}

#[test]
fn series_sections() {
    let first = serie(&[(0, 1)], &[(1, 1, 1)]);
    let second = serie(&[], &[]);
    // the section starts at byte 21 of its file: eleven bytes of padding
    let mut section: Vec<u8> = vec![0; 11];
    section.extend_from_slice(&first);
    while (section.len() - 11) % 16 != 0 {
        section.push(0);
    }
    section.extend_from_slice(&second);
    while (section.len() - 11) % 16 != 0 {
        section.push(0);
    }
    let end = 21 + section.len();
    section.extend_from_slice(&[0xEE; 3]);

    let (rest, series) = read_series(21, end, &section).unwrap();
    assert_eq!(rest, &[0xEE; 3]);
    assert_eq!(series.len(), 2);
    assert_eq!(series[0].labels, [SerieLabel { name_ref: 0, value_ref: 1 }]);
    assert_eq!(series[0].chunks, [SerieChunk { mint: 1, maxt: 2, data_ref: 1 }]);
    assert!(series[1].labels.is_empty());

    // an empty section
    let (rest, series) = read_series(32, 32, &[1, 2, 3]).unwrap();
    assert_eq!(rest, &[1, 2, 3]);
    assert!(series.is_empty());
    let (rest, series) = read_series(30, 30, &[1, 2, 3]).unwrap();
    assert_eq!(rest, &[3]);
    assert!(series.is_empty());

    assert_eq!(read_series(32, 16, &[]).unwrap_err(), ParseError::Section);
    assert_eq!(
        read_series(30, 64, &[0]).unwrap_err(),
        ParseError::Truncated { needed: None }
    );
    // the padding behind a series is missing
    assert_eq!(
        read_series(16, 1000, &first).unwrap_err(),
        ParseError::Truncated { needed: None }
    );
}

#[test]
fn finalise_sorts_and_replaces() {
    let symbols: Vec<String> = ["zone", "b", "a", "eu", "us"]
        .iter()
        .map(|s| s.to_string())
        .collect();
    let tmp = SerieTmp {
        labels: vec![
            SerieLabel { name_ref: 0, value_ref: 3 },
            SerieLabel { name_ref: 2, value_ref: 1 },
            SerieLabel { name_ref: 1, value_ref: 1 },
            SerieLabel { name_ref: 0, value_ref: 4 },
        ],
        chunks: vec![SerieChunk { mint: 1, maxt: 2, data_ref: 3 }],
    };
    let serie = tmp.finalise(&symbols).unwrap();
    let labels: Vec<(&str, &str)> = serie
        .labels()
        .iter()
        .map(|(n, v)| (n.as_str(), v.as_str()))
        .collect();
    assert_eq!(labels, [("a", "b"), ("b", "b"), ("zone", "us")]);
    assert_eq!(serie.chunks(), &[SerieChunk { mint: 1, maxt: 2, data_ref: 3 }]);
    assert_eq!(
        serie.get_xx_hash(),
        xxhash_rust::xxh64::xxh64(b"a\xffb\xffb\xffb\xffzone\xffus\xff", 0)
    );

    let out_of_range = SerieTmp {
        labels: vec![SerieLabel { name_ref: 0, value_ref: 5 }],
        chunks: vec![],
    };
    assert_eq!(out_of_range.finalise(&symbols).map(|_| ()), Err(()));
    let out_of_range = SerieTmp {
        labels: vec![SerieLabel { name_ref: 9, value_ref: 0 }],
        chunks: vec![],
    };
    assert!(out_of_range.finalise(&symbols).is_err());
}

#[test]
fn hash_of_no_labels() {
    let serie = SerieTmp { labels: vec![], chunks: vec![] }
        .finalise(&[])
        .unwrap();
    // XXH64 of no bytes under seed 0
    assert_eq!(serie.get_xx_hash(), 0xEF46_DB37_51D8_E999);
}

#[test]
fn byte_order_is_the_order_of_strings() {
    let words: [&str; 7] = ["", "a", "aa", "ab", "b", "ba", "\u{e9}"];
    for x in words {
        for y in words {
            let expected = match x.cmp(y) {
                std::cmp::Ordering::Less => ByteOrder::Less,
                std::cmp::Ordering::Equal => ByteOrder::Equal,
                std::cmp::Ordering::Greater => ByteOrder::Greater,
            };
            assert_eq!(compare_bytes(x.as_bytes(), y.as_bytes()), expected);
        }
    }
}

#[test]
fn chunk_references_split() {
    let chunk = SerieChunk { mint: 0, maxt: 0, data_ref: (7 << 32) | 0xFFFF_FFFF };
    assert_eq!(chunk.file_index(), 7);
    assert_eq!(chunk.file_offset(), 0xFFFF_FFFF);
    let chunk = SerieChunk { mint: 0, maxt: 0, data_ref: u64::MAX };
    assert_eq!(chunk.file_index(), 0xFFFF_FFFF);
    assert_eq!(chunk.file_offset(), 0xFFFF_FFFF);
}

#[test]
fn chunk_file_names() {
    assert!(is_chunk_file_name("000001"));
    assert!(is_chunk_file_name("1234567890"));
    assert!(is_chunk_file_name(""));
    assert!(!is_chunk_file_name("00000a"));
    assert!(!is_chunk_file_name("000001.tmp"));
    assert!(!is_chunk_file_name("\u{661}"));
    assert!(!is_chunk_file_name("/"));
    assert!(!is_chunk_file_name(":"));
}

#[test]
fn library_error_from_its_parts() {
    assert!(matches!(
        RustyChunkEncError::from(ParseError::CrcMismatch),
        RustyChunkEncError::ParsingError(ParseError::CrcMismatch)
    ));
    assert!(matches!(
        RustyChunkEncError::from(WriteError::NoChunks),
        RustyChunkEncError::WritingError(WriteError::NoChunks)
    ));
}
