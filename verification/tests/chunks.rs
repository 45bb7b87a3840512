use rusty_chunkenc::chunks::read_chunks;
use rusty_chunkenc::histogram::HistogramChunk;
use rusty_chunkenc::{Chunk, ChunksDiskFormat, ParseError, WriteError, XORSample};

#[test]
fn test_write_chunks_disk_format() {
    let chunk_disk_format = ChunksDiskFormat::new(
        vec![
            Chunk::new_xor(vec![
                XORSample {
                    timestamp: 7200000,
                    value: 12000.0f64.to_bits(),
                },
                XORSample {
                    timestamp: 7201000,
                    value: 12001.0f64.to_bits(),
                },
            ]),
            Chunk::new_xor(vec![
                XORSample {
                    timestamp: 7200000,
                    value: 123.45f64.to_bits(),
                },
                XORSample {
                    timestamp: 7201000,
                    value: 123.46f64.to_bits(),
                },
            ]),
        ],
        None,
    );

    // Serialise the chunks
    let mut buffer: Vec<u8> = Vec::new();
    chunk_disk_format.write(&mut buffer).unwrap();

    // Parse a chunk from a buffer
    let (_, parsed_chunk_disk_format) = read_chunks(&buffer, None).unwrap();
    println!("parsed_chunks: {:?}", parsed_chunk_disk_format);
    assert_eq!(parsed_chunk_disk_format, chunk_disk_format);
}

#[test]
fn test_without_chunks() {
    let chunk_disk_format = ChunksDiskFormat::new(vec![], None);

    // Serialise the chunks
    let mut buffer: Vec<u8> = Vec::new();
    let error = chunk_disk_format.write(&mut buffer).unwrap_err();
    assert!(error.message().contains("at least one chunk is required"));
}

#[test]
fn chunks_example() {
    let chunk_disk_format = rusty_chunkenc::ChunksDiskFormat::new(
        vec![
            rusty_chunkenc::Chunk::new_xor(vec![
                rusty_chunkenc::XORSample {
                    timestamp: 7200000,
                    value: 12000.0f64.to_bits(),
                },
                rusty_chunkenc::XORSample {
                    timestamp: 7201000,
                    value: 12001.0f64.to_bits(),
                },
            ]),
            rusty_chunkenc::Chunk::new_xor(vec![
                rusty_chunkenc::XORSample {
                    timestamp: 7200000,
                    value: 123.45f64.to_bits(),
                },
                rusty_chunkenc::XORSample {
                    timestamp: 7201000,
                    value: 123.46f64.to_bits(),
                },
            ]),
        ],
        None,
    );

    // Serialise the chunks
    let mut buffer: Vec<u8> = Vec::new();
    chunk_disk_format.write(&mut buffer).unwrap();

    // Parse a chunk from a buffer
    let (_, parsed_chunk_disk_format) = rusty_chunkenc::read_chunks(&buffer, None).unwrap();
    println!("parsed_chunks: {:?}", parsed_chunk_disk_format);
    assert_eq!(parsed_chunk_disk_format, chunk_disk_format);
}

fn two_chunks() -> Vec<Chunk> {
    vec![
        Chunk::new_xor(vec![
            XORSample { timestamp: 7200000, value: 12000.0f64.to_bits() },
            XORSample { timestamp: 7201000, value: 12001.0f64.to_bits() },
        ]),
        Chunk::new_xor(vec![
            XORSample { timestamp: 7200000, value: 123.45f64.to_bits() },
            XORSample { timestamp: 7201000, value: 123.46f64.to_bits() },
        ]),
    ]
}

#[test]
fn multi_frame_file_layout_and_references() {
    let file = ChunksDiskFormat::new(two_chunks(), None);
    let mut buffer: Vec<u8> = vec![0x99];
    file.write(&mut buffer).unwrap();
    assert_eq!(&buffer[..9], &[0x99, 0x85, 0xBD, 0x40, 0xDD, 0x01, 0x00, 0x00, 0x00]);
    let bytes = &buffer[1..];
    // the first frame is the known one of 24 bytes
    assert_eq!(
        &bytes[8..32],
        &[
            0x12, 0x01, 0x00, 0x02, 0x80, 0xF4, 0xEE, 0x06, 0x40, 0xC7, 0x70, 0x00, 0x00, 0x00,
            0x00, 0x00, 0xE8, 0x07, 0xF0, 0x0C, 0x1F, 0xCE, 0x4F, 0xA7
        ]
    );

    let (rest, parsed) = read_chunks(bytes, None).unwrap();
    assert!(rest.is_empty());
    assert_eq!(parsed.version(), 1);
    assert_eq!(parsed.file_index(), None);
    assert_eq!(parsed.chunks().len(), 2);
    assert_eq!(parsed.chunks()[0].block_chunk_ref(), None);
    assert_eq!(parsed.chunks()[1].block_chunk_ref(), None);
    assert_eq!(parsed, file);

    let (rest, parsed) = read_chunks(bytes, Some(3)).unwrap();
    assert!(rest.is_empty());
    assert_eq!(parsed.file_index(), Some(3));
    assert_eq!(parsed.chunks()[0].block_chunk_ref(), Some((3 << 32) | 8));
    assert_eq!(parsed.chunks()[1].block_chunk_ref(), Some((3 << 32) | 32));
    assert!(parsed != file);
    assert_eq!(parsed, ChunksDiskFormat::new(two_chunks(), Some(3)));
}

#[test]
fn chunks_file_errors() {
    let file = ChunksDiskFormat::new(two_chunks(), None);
    let mut bytes: Vec<u8> = Vec::new();
    file.write(&mut bytes).unwrap();

    assert_eq!(read_chunks(&[], None).unwrap_err(), ParseError::Tag);
    assert_eq!(read_chunks(&bytes[..7], None).unwrap_err(), ParseError::Tag);
    let mut wrong_magic = bytes.clone();
    wrong_magic[0] = 0x86;
    assert_eq!(read_chunks(&wrong_magic, None).unwrap_err(), ParseError::Tag);
    let mut wrong_version = bytes.clone();
    wrong_version[4] = 2;
    assert_eq!(read_chunks(&wrong_version, None).unwrap_err(), ParseError::Tag);
    let mut wrong_padding = bytes.clone();
    wrong_padding[6] = 1;
    assert_eq!(read_chunks(&wrong_padding, None).unwrap_err(), ParseError::Tag);

    // no frame at all
    assert_eq!(
        read_chunks(&bytes[..8], None).unwrap_err(),
        ParseError::Truncated { needed: Some(1) }
    );
    // the second frame cut short
    assert!(matches!(
        read_chunks(&bytes[..bytes.len() - 1], None).unwrap_err(),
        ParseError::Truncated { .. }
    ));
    // a broken checksum in the second frame fails the whole file
    let mut tampered = bytes.clone();
    let last = tampered.len() - 1;
    tampered[last] ^= 0x10;
    assert_eq!(read_chunks(&tampered, None).unwrap_err(), ParseError::CrcMismatch);
}

#[test]
fn chunks_write_errors_leave_the_sink() {
    let mut sink: Vec<u8> = vec![5];
    assert_eq!(
        ChunksDiskFormat::new(vec![], Some(1)).write(&mut sink),
        Err(WriteError::NoChunks)
    );
    let mut chunks = two_chunks();
    chunks.push(Chunk::Histogram(HistogramChunk {}));
    assert_eq!(
        ChunksDiskFormat::new(chunks, None).write(&mut sink),
        Err(WriteError::UnsupportedChunk)
    );
    let mut chunks = two_chunks();
    chunks.insert(1, Chunk::new_xor(vec![]));
    assert_eq!(
        ChunksDiskFormat::new(chunks, None).write(&mut sink),
        Err(WriteError::NoSamples)
    );
    assert_eq!(sink, [5]);
}
