use rand::{Rng, SeedableRng};
use rusty_chunkenc::uvarint::write_uvarint;
use rusty_chunkenc::xor::{read_second_sample, read_xor_chunk_data, XORChunk};
use rusty_chunkenc::{ParseError, WriteError, XORSample};

fn sample(timestamp: i64, value: f64) -> XORSample {
    XORSample {
        timestamp,
        value: value.to_bits(),
    }
}

fn generate_random_test_data(seed: u64) -> Vec<Vec<XORSample>> {
    let mut rng = rand::rngs::StdRng::seed_from_u64(seed);

    let mut test_cases = Vec::with_capacity(128);
    for _ in 0..128 {
        let mut timestamp: i64 = rng.gen_range(1234567890..1357908642);
        let vec_size = rng.gen_range(1..129);
        let mut vec = Vec::with_capacity(vec_size);

        let mut value: f64 = if rng.gen_bool(0.5) {
            rng.gen_range(-100000000.0..1000000.0)
        } else {
            rng.gen_range(-10000.0..10000.0)
        };
        vec.push(sample(timestamp, value));

        for _ in 1..vec_size {
            timestamp += rng.gen_range(1..30);
            if rng.gen_bool(0.33) {
                value += 1.0;
            } else if rng.gen_bool(0.33) {
                value = rng.gen();
            }
            vec.push(sample(timestamp, value));
        }
        test_cases.push(vec);
    }
    test_cases
}

#[test]
fn xor_encoder_test_write_xor_chunk() {
    let mut test_cases = generate_random_test_data(42);

    // add a test case with the unusually extreme values
    test_cases.push(vec![
        sample(i64::MIN + 1, f64::MAX),
        sample(0, 0.0),
        sample(2, f64::MIN),
        sample(3, f64::MAX),
        sample(i64::MAX - 1, f64::MIN),
    ]);

    // add a test with only one sample
    test_cases.push(vec![sample(1234567890, 42.0)]);

    // add a test with only two samples
    test_cases.push(vec![sample(1234567890, 42.0), sample(1234567891, 42.0)]);

    let mut buffer: Vec<u8> = Vec::new();

    let mut chunks = Vec::with_capacity(test_cases.len());

    // Write
    for test_case in &test_cases {
        let chunk = XORChunk::new(test_case.clone());
        chunk.write(&mut buffer).unwrap();
        let mut tmp_buffer = Vec::new();
        chunk.write(&mut tmp_buffer).unwrap();
        chunks.push(chunk);
    }

    // Read again
    let mut cursor: &[u8] = &buffer;
    for (i, _test_case) in test_cases.iter().enumerate() {
        let (new_cursor, parsed_chunk) = read_xor_chunk_data(cursor).unwrap();
        let test_chunk = &chunks[i];
        assert_eq!(parsed_chunk.samples(), test_chunk.samples());
        cursor = new_cursor;
    }
    assert!(cursor.is_empty());
}

#[test]
fn test_write_xor_chunk_errors() {
    let test_cases = vec![
        vec![],
        // Two samples not sorted
        vec![sample(10, 42.0), sample(-10, 42.0)],
        // Three samples not sorted
        vec![sample(9, 42.0), sample(10, 42.0), sample(9, 43.0)],
        // 65536 samples
        [0; 65536]
            .iter()
            .enumerate()
            .map(|(i, _v)| sample(i as i64, i as f64))
            .collect::<Vec<XORSample>>(),
    ];

    let mut buffer: Vec<u8> = Vec::new();

    for test_case in &test_cases {
        let chunk = XORChunk::new(test_case.clone());
        assert!(chunk.write(&mut buffer).is_err());
    }
}

#[test]
fn xor_test_read_chunk() {
    // Long chunk with the bug
    // See https://github.com/prometheus/prometheus/pull/14854
    let input = b"\x00\x01\x80\xF4\xEE\x06\x40\xC7\x70\x00\x00\x00\x00\x00\x00";
    let (_, chunk) = read_xor_chunk_data(input).unwrap();
    assert_eq!(chunk.samples().len(), 1);
    assert_eq!(chunk.samples()[0].timestamp, 7200000);
    assert_eq!(f64::from_bits(chunk.samples()[0].value), 12000.0);

    // Correct chunk
    let input = b"\x00\x01\x80\xF4\xEE\x06\x40\xC7\x70\x00\x00\x00\x00\x00";
    let (_, chunk) = read_xor_chunk_data(input).unwrap();
    assert_eq!(chunk.samples().len(), 1);
    assert_eq!(chunk.samples()[0].timestamp, 7200000);
    assert_eq!(f64::from_bits(chunk.samples()[0].value), 12000.0);
}

#[test]
fn test_too_big_timestamp_difference() {
    // create a broken chunk
    let mut buffer = Vec::new();
    write_uvarint(u64::MAX, &mut buffer);
    // Append a zero for the xor bit, so it reuses the previous value
    buffer.push(0);

    let error = read_second_sample(0, 42.0f64.to_bits(), (&buffer, 0)).unwrap_err();
    assert!(error.message().contains("TooLarge"),);
}

#[test]
fn xor_write_error_kinds_and_untouched_sink() {
    let mut sink: Vec<u8> = vec![1, 2, 3];
    assert_eq!(
        XORChunk::new(vec![]).write(&mut sink),
        Err(WriteError::NoSamples)
    );
    assert_eq!(
        XORChunk::new(vec![sample(10, 1.0), sample(9, 1.0)]).write(&mut sink),
        Err(WriteError::UnsortedSamples)
    );
    assert_eq!(
        XORChunk::new(vec![sample(1, 1.0), sample(2, 1.0), sample(3, 1.0), sample(2, 1.0)])
            .write(&mut sink),
        Err(WriteError::UnsortedSamples)
    );
    assert_eq!(
        XORChunk::new(vec![sample(i64::MIN, 1.0), sample(0, 1.0)]).write(&mut sink),
        Err(WriteError::TimestampGapTooLarge)
    );
    let too_many: Vec<XORSample> = (0..65536).map(|i| sample(i, 0.0)).collect();
    assert_eq!(
        XORChunk::new(too_many).write(&mut sink),
        Err(WriteError::TooManySamples)
    );
    assert_eq!(sink, [1, 2, 3]);
    assert!(WriteError::NoSamples
        .message()
        .contains("at least one sample is required"));
    assert!(WriteError::UnsortedSamples
        .message()
        .contains("samples aren't sorted by timestamp ascending"));
    assert!(WriteError::TooManySamples
        .message()
        .contains("too many samples for one chunk"));
}

#[test]
fn xor_most_samples_round_trip() {
    let samples: Vec<XORSample> = (0..65535).map(|i| sample(i * 15_000, (i % 7) as f64)).collect();
    let chunk = XORChunk::new(samples.clone());
    let mut buffer: Vec<u8> = Vec::new();
    chunk.write(&mut buffer).unwrap();
    assert_eq!(&buffer[..2], &[0xFF, 0xFF]);
    let (rest, parsed) = read_xor_chunk_data(&buffer).unwrap();
    assert!(rest.is_empty());
    assert_eq!(parsed.samples(), &samples[..]);
}

#[test]
fn xor_single_sample_exact_bytes() {
    let chunk = XORChunk::new(vec![sample(7_200_000, 12000.0)]);
    let mut buffer: Vec<u8> = Vec::new();
    chunk.write(&mut buffer).unwrap();
    assert_eq!(
        buffer,
        [0x00, 0x01, 0x80, 0xF4, 0xEE, 0x06, 0x40, 0xC7, 0x70, 0x00, 0x00, 0x00, 0x00, 0x00]
    );
}

#[test]
fn xor_two_samples_exact_bytes() {
    let chunk = XORChunk::new(vec![sample(7_200_000, 12000.0), sample(7_201_000, 12001.0)]);
    let mut buffer: Vec<u8> = Vec::new();
    chunk.write(&mut buffer).unwrap();
    assert_eq!(
        buffer,
        [
            0x00, 0x02, 0x80, 0xF4, 0xEE, 0x06, 0x40, 0xC7, 0x70, 0x00, 0x00, 0x00, 0x00, 0x00,
            0xE8, 0x07, 0xF0, 0x0C
        ]
    );
    let (rest, parsed) = read_xor_chunk_data(&buffer).unwrap();
    assert!(rest.is_empty());
    assert_eq!(parsed.samples(), chunk.samples());
    assert_eq!(parsed.block_chunk_ref(), None);
}

#[test]
fn xor_extreme_values_round_trip() {
    let samples = vec![
        sample(i64::MIN + 1, f64::MAX),
        sample(0, 0.0),
        sample(2, f64::MIN),
        sample(3, f64::MAX),
        sample(i64::MAX - 1, f64::MIN),
    ];
    let mut buffer: Vec<u8> = Vec::new();
    XORChunk::new(samples.clone()).write(&mut buffer).unwrap();
    let (rest, parsed) = read_xor_chunk_data(&buffer).unwrap();
    assert!(rest.is_empty());
    assert_eq!(parsed.samples(), &samples[..]);
}

#[test]
fn xor_nan_and_signed_zero_are_kept_bit_for_bit() {
    let quiet_nan: u64 = 0x7ff8_0000_0000_0001;
    let samples = vec![
        XORSample { timestamp: 1, value: quiet_nan },
        XORSample { timestamp: 1, value: f64::NAN.to_bits() },
        sample(2, -0.0),
        sample(2, 0.0),
        XORSample { timestamp: 5, value: u64::MAX },
    ];
    let mut buffer: Vec<u8> = Vec::new();
    XORChunk::new(samples.clone()).write(&mut buffer).unwrap();
    let (_, parsed) = read_xor_chunk_data(&buffer).unwrap();
    assert_eq!(parsed.samples(), &samples[..]);
}

#[test]
fn xor_truncated_and_zero_count() {
    assert_eq!(
        read_xor_chunk_data(&[0x00]).unwrap_err(),
        ParseError::Truncated { needed: None }
    );
    assert_eq!(
        read_xor_chunk_data(&[0x00, 0x01, 0x02, 0x40]).unwrap_err(),
        ParseError::Truncated { needed: None }
    );
    // two samples announced, none behind the first
    let input = b"\x00\x02\x80\xF4\xEE\x06\x40\xC7\x70\x00\x00\x00\x00\x00";
    assert_eq!(
        read_xor_chunk_data(input).unwrap_err(),
        ParseError::Truncated { needed: Some(1) }
    );
    // a count of zero still gives the first sample
    let input = b"\x00\x00\x02\x40\xC7\x70\x00\x00\x00\x00\x00";
    let (rest, chunk) = read_xor_chunk_data(input).unwrap();
    assert!(rest.is_empty());
    assert_eq!(chunk.samples(), &[sample(1, 12000.0)]);
}

#[test]
fn xor_chunks_compare_by_samples() {
    let mut a = XORChunk::new(vec![sample(1, 1.0), sample(2, 2.0)]);
    let b = XORChunk::new(vec![sample(1, 1.0), sample(2, 2.0)]);
    let c = XORChunk::new(vec![sample(1, 1.0), sample(2, 2.5)]);
    let d = XORChunk::new(vec![sample(1, 1.0)]);
    a.compute_block_chunk_ref(3, 8);
    assert_eq!(a.block_chunk_ref(), Some((3 << 32) | 8));
    assert!(a == b);
    assert!(a != c);
    assert!(a != d);
}
