use rand::{Rng, SeedableRng};
use rusty_chunkenc::uvarint::{read_uvarint, write_uvarint};
use rusty_chunkenc::ParseError;

#[test]
fn uvarint_test_with_boring_values() {
    let input = b"\x00";
    let (_, value) = read_uvarint(input).unwrap();
    assert_eq!(value, 0);

    let input = b"\x01";
    let (_, value) = read_uvarint(input).unwrap();
    assert_eq!(value, 1);

    let input = b"\x7f";
    let (_, value) = read_uvarint(input).unwrap();
    assert_eq!(value, 127);

    let input = b"\x80\x01";
    let (_, value) = read_uvarint(input).unwrap();
    assert_eq!(value, 128);

    let input = b"\xff\x01";
    let (_, value) = read_uvarint(input).unwrap();
    assert_eq!(value, 255);

    let input = b"\xac\x02";
    let (_, value) = read_uvarint(input).unwrap();
    assert_eq!(value, 300);

    let input = b"\x80\x80\x01";
    let (_, value) = read_uvarint(input).unwrap();
    assert_eq!(value, 16384);
}

#[test]
fn uvarint_test_with_weird_data() {
    let input = "hello world".as_bytes();
    let (_, value) = read_uvarint(input).unwrap();
    assert_eq!(value, 104);
}

#[test]
fn uvarint_test_with_overflows() {
    // Classic overflow
    let input = b"\x80\x80\x80\x80\x80\x80\x80\x80\x80\x80\x01";
    let result = read_uvarint(input);
    assert!(result.is_err());

    // More subtle overflow
    let input = b"\x80\x80\x80\x80\x80\x80\x80\x80\x80\x02";
    let result = read_uvarint(input);
    assert!(result.is_err());
}

#[test]
fn test_write_uvarint() {
    let mut buffer: Vec<u8> = Vec::new();

    let mut numbers = vec![
        0,
        1,
        7,
        8,
        63,
        64,
        511,
        512,
        4095,
        4096,
        262143,
        262144,
        33554431,
        33554432,
        72057594037927935,
        72057594037927936,
        u64::MAX,
    ];

    let mut rng = rand::rngs::StdRng::seed_from_u64(42);
    // Add some random numbers
    for _ in 0..100 {
        let number: u64 = rng.gen();
        numbers.push(number);
    }

    // Write
    for number in &numbers {
        write_uvarint(*number, &mut buffer);
    }

    // Read
    let mut cursor = &buffer[..];
    for number in numbers {
        let (new_cursor, read_number) = read_uvarint(cursor).unwrap();
        assert_eq!(read_number, number);
        cursor = new_cursor;
    }
    assert!(cursor.is_empty());
}

#[test]
fn uvarint_overflow_kinds() {
    let eleven = b"\x80\x80\x80\x80\x80\x80\x80\x80\x80\x80\x01";
    assert_eq!(read_uvarint(eleven).unwrap_err(), ParseError::TooLarge);
    let tenth_too_big = b"\x80\x80\x80\x80\x80\x80\x80\x80\x80\x02";
    assert_eq!(read_uvarint(tenth_too_big).unwrap_err(), ParseError::TooLarge);
    let largest = b"\xff\xff\xff\xff\xff\xff\xff\xff\xff\x01";
    let (rest, value) = read_uvarint(largest).unwrap();
    assert_eq!(value, u64::MAX);
    assert!(rest.is_empty());
}

#[test]
fn uvarint_truncated() {
    assert_eq!(
        read_uvarint(b"").unwrap_err(),
        ParseError::Truncated { needed: Some(1) }
    );
    assert_eq!(
        read_uvarint(b"\x80\x80").unwrap_err(),
        ParseError::Truncated { needed: Some(1) }
    );
}

#[test]
fn uvarint_exact_bytes_and_lengths() {
    let mut buffer: Vec<u8> = vec![0xAA];
    write_uvarint(300, &mut buffer);
    assert_eq!(buffer, [0xAA, 0xAC, 0x02]);

    for (value, len) in [
        (0u64, 1usize),
        (127, 1),
        (128, 2),
        (16383, 2),
        (16384, 3),
        (u64::MAX >> 1, 9),
        (1 << 63, 10),
        (u64::MAX, 10),
    ] {
        let mut out: Vec<u8> = Vec::new();
        write_uvarint(value, &mut out);
        assert_eq!(out.len(), len);
        let (rest, back) = read_uvarint(&out).unwrap();
        assert_eq!(back, value);
        assert!(rest.is_empty());
    }
}

#[test]
fn uvarint_leaves_what_follows() {
    let input = b"\xac\x02\x07\x08";
    let (rest, value) = read_uvarint(input).unwrap();
    assert_eq!(value, 300);
    assert_eq!(rest, &[0x07, 0x08]);
}

#[test]
fn parse_error_messages() {
    assert!(ParseError::TooLarge.message().contains("TooLarge"));
    assert!(ParseError::CrcMismatch.message().contains("Verify"));
    assert!(ParseError::Tag.message().contains("Tag"));
    assert!(ParseError::Framing.message().contains("Framing"));
    assert!(ParseError::Window.message().contains("Window"));
    assert!(ParseError::Symbol.message().contains("Verify"));
    assert!(ParseError::Truncated { needed: None }
        .message()
        .contains("Eof"));
}
