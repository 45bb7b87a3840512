use rand::{Rng, SeedableRng};
use rusty_chunkenc::chunk::{read_chunk, read_chunk_type, Chunk, ChunkType};
use rusty_chunkenc::crc32c::{assert_crc32c_on_data, compute_crc32c, read_crc32c, write_crc32c};
use rusty_chunkenc::histogram::{
    read_float_histogram_chunk_data, read_histogram_chunk_data, FloatHistogramChunk,
    HistogramChunk,
};
use rusty_chunkenc::xor::XORChunk;
use rusty_chunkenc::{ParseError, WriteError, XORSample};

fn sample(timestamp: i64, value: f64) -> XORSample {
    XORSample {
        timestamp,
        value: value.to_bits(),
    }
}

fn generate_random_test_data(seed: u64, count: usize) -> Vec<Chunk> {
    let mut rng = rand::rngs::StdRng::seed_from_u64(seed);

    let mut test_cases = Vec::with_capacity(count);
    for _ in 0..count {
        let mut timestamp: i64 = rng.gen_range(1234567890..1357908642);
        let vec_size = rng.gen_range(1..129);
        let mut vec = Vec::with_capacity(vec_size);

        let mut value: f64 = if rng.gen_bool(0.5) {
            rng.gen_range(-100000000.0..1000000.0)
        } else {
            rng.gen_range(-10000.0..10000.0)
        };
        vec.push(sample(timestamp, value));

        for _ in 1..vec_size {
            timestamp += rng.gen_range(1..30);
            if rng.gen_bool(0.33) {
                value += 1.0;
            } else if rng.gen_bool(0.33) {
                value = rng.gen();
            }
            vec.push(sample(timestamp, value));
        }
        test_cases.push(Chunk::XOR(XORChunk::new(vec)));
    }
    test_cases
}

#[test]
fn test_write_chunk() {
    let test_cases = generate_random_test_data(1234, 128);

    let mut buffer: Vec<u8> = Vec::new();

    // Write
    for test_case in &test_cases {
        test_case.write(&mut buffer).unwrap();
    }

    // Read again
    let mut cursor: &[u8] = &buffer;
    for test_case in test_cases {
        let (new_cursor, parsed_chunk) = read_chunk(cursor).unwrap();
        assert_eq!(parsed_chunk, test_case);
        cursor = new_cursor;
    }
}

#[test]
fn test_wrong_crc32c() {
    let test_cases = generate_random_test_data(1234, 1);
    let test_case = &test_cases[0];
    let mut buffer: Vec<u8> = Vec::new();
    test_case.write(&mut buffer).unwrap();
    // check that it's read correctly first
    let (_, parsed_chunk) = read_chunk(&buffer).unwrap();
    assert_eq!(&parsed_chunk, test_case);

    // Now corrupt the CRC32C
    let buffer_len = buffer.len();
    buffer[buffer_len - 4] = !buffer[buffer_len - 4];

    let error = read_chunk(&buffer).unwrap_err();
    assert!(error.message().contains("Verify"));
}

#[test]
fn single_chunk_example() {
    let chunk = rusty_chunkenc::Chunk::new_xor(vec![
        rusty_chunkenc::XORSample {
            timestamp: 7200000,
            value: 12000.0f64.to_bits(),
        },
        rusty_chunkenc::XORSample {
            timestamp: 7201000,
            value: 12001.0f64.to_bits(),
        },
    ]);

    // Serialise the chunk
    let mut buffer: Vec<u8> = Vec::new();
    chunk.write(&mut buffer).unwrap();

    assert_eq!(
        buffer,
        [
            0x12, 0x01, 0x00, 0x02, 0x80, 0xF4, 0xEE, 0x06, 0x40, 0xC7, 0x70, 0x00, 0x00, 0x00,
            0x00, 0x00, 0xE8, 0x07, 0xF0, 0x0C, 0x1F, 0xCE, 0x4F, 0xA7
        ]
    );

    // Parse a chunk from a buffer
    let (_, parsed_chunk) = rusty_chunkenc::read_chunk(&buffer).unwrap();
    println!("parsed_chunk: {:?}", parsed_chunk);
    assert_eq!(parsed_chunk, chunk);
}

const TWO_SAMPLE_FRAME: [u8; 24] = [
    0x12, 0x01, 0x00, 0x02, 0x80, 0xF4, 0xEE, 0x06, 0x40, 0xC7, 0x70, 0x00, 0x00, 0x00, 0x00,
    0x00, 0xE8, 0x07, 0xF0, 0x0C, 0x1F, 0xCE, 0x4F, 0xA7,
];

/// A frame of the given type byte and payload, with a checksum that fits.
fn frame(type_byte: u8, payload: &[u8]) -> Vec<u8> {
    let mut data = vec![type_byte];
    data.extend_from_slice(payload);
    let mut out: Vec<u8> = Vec::new();
    rusty_chunkenc::write_uvarint(payload.len() as u64, &mut out);
    out.extend_from_slice(&data);
    write_crc32c(&data, &mut out);
    out
}

#[test]
fn crc_tamper_in_the_checksum() {
    let mut buffer = TWO_SAMPLE_FRAME.to_vec();
    buffer[22] = !buffer[22];
    assert_eq!(read_chunk(&buffer).unwrap_err(), ParseError::CrcMismatch);
}

#[test]
fn crc_guards_every_bit_of_type_payload_and_checksum() {
    for byte in 1..TWO_SAMPLE_FRAME.len() {
        for bit in 0..8 {
            let mut buffer = TWO_SAMPLE_FRAME.to_vec();
            buffer[byte] ^= 1 << bit;
            assert_eq!(read_chunk(&buffer).unwrap_err(), ParseError::CrcMismatch);
        }
    }
}

#[test]
fn single_sample_frame_exact_bytes() {
    let chunk = Chunk::new_xor(vec![sample(7_200_000, 12000.0)]);
    let mut buffer: Vec<u8> = Vec::new();
    chunk.write(&mut buffer).unwrap();
    let payload = [
        0x00, 0x01, 0x80, 0xF4, 0xEE, 0x06, 0x40, 0xC7, 0x70, 0x00, 0x00, 0x00, 0x00, 0x00,
    ];
    let mut data = vec![0x01u8];
    data.extend_from_slice(&payload);
    let mut expected = vec![14u8];
    expected.extend_from_slice(&data);
    expected.extend_from_slice(&compute_crc32c(&data).to_be_bytes());
    assert_eq!(buffer, expected);
    assert_eq!(buffer.len(), 1 + 1 + 14 + 4);
}

#[test]
fn trailing_zero_inside_the_frame() {
    let payload = &TWO_SAMPLE_FRAME[2..20];
    let expected = Chunk::new_xor(vec![sample(7_200_000, 12000.0), sample(7_201_000, 12001.0)]);

    let mut with_zero = payload.to_vec();
    with_zero.push(0);
    let bytes = frame(1, &with_zero);
    let (rest, chunk) = read_chunk(&bytes).unwrap();
    assert!(rest.is_empty());
    assert_eq!(chunk, expected);

    let mut with_two = payload.to_vec();
    with_two.extend_from_slice(&[0, 0]);
    assert_eq!(
        read_chunk(&frame(1, &with_two)).unwrap_err(),
        ParseError::Framing
    );

    let mut with_one = payload.to_vec();
    with_one.push(1);
    assert_eq!(
        read_chunk(&frame(1, &with_one)).unwrap_err(),
        ParseError::Framing
    );
}

#[test]
fn legacy_chunk_with_trailing_zero() {
    let payload = b"\x00\x01\x80\xF4\xEE\x06\x40\xC7\x70\x00\x00\x00\x00\x00\x00";
    let bytes = frame(1, payload);
    let (rest, chunk) = read_chunk(&bytes).unwrap();
    assert!(rest.is_empty());
    assert_eq!(chunk, Chunk::new_xor(vec![sample(7_200_000, 12000.0)]));
}

#[test]
fn frame_errors() {
    assert_eq!(
        read_chunk(&[]).unwrap_err(),
        ParseError::Truncated { needed: Some(1) }
    );
    assert_eq!(
        read_chunk(&[0x05]).unwrap_err(),
        ParseError::Truncated { needed: None }
    );
    // five bytes of payload announced, one there
    assert_eq!(
        read_chunk(&[0x05, 0x01, 0xAA]).unwrap_err(),
        ParseError::Truncated { needed: Some(4) }
    );
    assert_eq!(
        read_chunk(&TWO_SAMPLE_FRAME[..22]).unwrap_err(),
        ParseError::Truncated { needed: None }
    );
    // an unknown type byte under a checksum that fits
    assert_eq!(read_chunk(&frame(9, &[])).unwrap_err(), ParseError::Tag);
    // an XOR payload that ends too early
    assert_eq!(
        read_chunk(&frame(1, &[0x00])).unwrap_err(),
        ParseError::Truncated { needed: None }
    );
}

#[test]
fn frame_leaves_what_follows() {
    let mut bytes = TWO_SAMPLE_FRAME.to_vec();
    bytes.extend_from_slice(&[0xAB, 0xCD]);
    let (rest, _) = read_chunk(&bytes).unwrap();
    assert_eq!(rest, &[0xAB, 0xCD]);
}

#[test]
fn histogram_frames() {
    let bytes = frame(2, &[]);
    let (rest, chunk) = read_chunk(&bytes).unwrap();
    assert!(rest.is_empty());
    assert_eq!(chunk, Chunk::Histogram(HistogramChunk {}));
    assert_eq!(chunk.block_chunk_ref(), None);
    assert!(chunk.as_xor().is_none());
    let bytes = frame(3, &[0]);
    let (_, chunk) = read_chunk(&bytes).unwrap();
    assert_eq!(chunk, Chunk::FloatHistogram(FloatHistogramChunk {}));
    assert_eq!(
        read_chunk(&frame(2, &[1, 2, 3])).unwrap_err(),
        ParseError::Framing
    );
    assert!(Chunk::Histogram(HistogramChunk {}) != Chunk::FloatHistogram(FloatHistogramChunk {}));

    let mut sink: Vec<u8> = vec![7];
    assert_eq!(
        Chunk::Histogram(HistogramChunk {}).write(&mut sink),
        Err(WriteError::UnsupportedChunk)
    );
    assert_eq!(
        Chunk::FloatHistogram(FloatHistogramChunk {}).write(&mut sink),
        Err(WriteError::UnsupportedChunk)
    );
    assert_eq!(
        Chunk::new_xor(vec![]).write(&mut sink),
        Err(WriteError::NoSamples)
    );
    assert_eq!(sink, [7]);

    let (rest, _) = read_histogram_chunk_data(&[1, 2]).unwrap();
    assert_eq!(rest, &[1, 2]);
    let (rest, _) = read_float_histogram_chunk_data(&[3]).unwrap();
    assert_eq!(rest, &[3]);
}

#[test]
fn chunk_type_bytes() {
    assert_eq!(read_chunk_type(&[1, 9]).unwrap(), (&[9u8][..], ChunkType::XOR));
    assert_eq!(read_chunk_type(&[2]).unwrap().1, ChunkType::Histogram);
    assert_eq!(read_chunk_type(&[3]).unwrap().1, ChunkType::FloatHistogram);
    assert_eq!(read_chunk_type(&[0]).unwrap_err(), ParseError::Tag);
    assert_eq!(read_chunk_type(&[4]).unwrap_err(), ParseError::Tag);
    assert_eq!(
        read_chunk_type(&[]).unwrap_err(),
        ParseError::Truncated { needed: None }
    );
}

#[test]
fn as_xor_gives_the_samples() {
    let chunk = Chunk::new_xor(vec![sample(1, 2.0)]);
    let xor = chunk.as_xor().unwrap();
    assert_eq!(xor.samples(), &[sample(1, 2.0)]);
}

#[test]
fn crc32c_known_values() {
    // the check value of CRC-32C
    assert_eq!(compute_crc32c(b"123456789"), 0xE306_9283);
    assert_eq!(compute_crc32c(b""), 0);
    assert_eq!(compute_crc32c(&TWO_SAMPLE_FRAME[1..20]), 0x1FCE_4FA7);

    let mut out: Vec<u8> = vec![0xAA];
    write_crc32c(b"123456789", &mut out);
    assert_eq!(out, [0xAA, 0xE3, 0x06, 0x92, 0x83]);

    let (rest, crc) = read_crc32c(&[0xE3, 0x06, 0x92, 0x83, 0x55]).unwrap();
    assert_eq!(crc, 0xE306_9283);
    assert_eq!(rest, &[0x55]);
    assert_eq!(
        read_crc32c(&[1, 2, 3]).unwrap_err(),
        ParseError::Truncated { needed: None }
    );

    assert_eq!(
        assert_crc32c_on_data(b"xx123456789yy", 2, 9, 0xE306_9283),
        Ok(())
    );
    assert_eq!(
        assert_crc32c_on_data(b"xx123456789yy", 2, 9, 0xE306_9284),
        Err(ParseError::CrcMismatch)
    );
    assert_eq!(
        assert_crc32c_on_data(b"xx123456789yy", 3, 9, 0xE306_9283),
        Err(ParseError::CrcMismatch)
    );
}
