use rand::{Rng, SeedableRng};
use rusty_chunkenc::varint::{read_varint, write_varint};

#[test]
fn varint_test_with_boring_values() {
    let input = b"\x00";
    let (_, value) = read_varint(input).unwrap();
    assert_eq!(value, 0);

    let input = b"\x01";
    let (_, value) = read_varint(input).unwrap();
    assert_eq!(value, -1);

    let input = b"\x02";
    let (_, value) = read_varint(input).unwrap();
    assert_eq!(value, 1);

    let input = b"\x7f";
    let (_, value) = read_varint(input).unwrap();
    assert_eq!(value, -64);

    let input = b"\x80\x01";
    let (_, value) = read_varint(input).unwrap();
    assert_eq!(value, 64);

    let input = b"\xff\x01";
    let (_, value) = read_varint(input).unwrap();
    assert_eq!(value, -128);

    let input = b"\xac\x02";
    let (_, value) = read_varint(input).unwrap();
    assert_eq!(value, 150);

    let input = b"\x80\x80\x01";
    let (_, value) = read_varint(input).unwrap();
    assert_eq!(value, 8192);

    let input = b"\x80\x80\x02";
    let (_, value) = read_varint(input).unwrap();
    assert_eq!(value, 16384);

    let input = b"\x81\x80\x02";
    let (_, value) = read_varint(input).unwrap();
    assert_eq!(value, -16385);
}

#[test]
fn varint_test_with_weird_data() {
    let input = "hello world".as_bytes();
    let (_, value) = read_varint(input).unwrap();
    assert_eq!(value, 52);
}

#[test]
fn varint_test_with_overflows() {
    // Classic overflow
    let input = b"\x80\x80\x80\x80\x80\x80\x80\x80\x80\x80\x01";
    let result = read_varint(input);
    assert!(result.is_err());

    // More subtle overflow
    let input = b"\x80\x80\x80\x80\x80\x80\x80\x80\x80\x02";
    let result = read_varint(input);
    assert!(result.is_err());
}

#[test]
fn test_write_varint() {
    let mut buffer: Vec<u8> = Vec::new();

    let mut numbers = vec![
        i64::MIN,
        -36028797018963968,
        -36028797018963967,
        -16777216,
        -16777215,
        -131072,
        -131071,
        -2048,
        -2047,
        -256,
        -255,
        -32,
        -31,
        -4,
        -3,
        -1,
        0,
        1,
        4,
        5,
        32,
        33,
        256,
        257,
        2048,
        2049,
        131072,
        131073,
        16777216,
        16777217,
        36028797018963968,
        36028797018963969,
        i64::MAX,
    ];

    let mut rng = rand::rngs::StdRng::seed_from_u64(42);
    // Add some random numbers
    for _ in 0..100 {
        let number: i64 = rng.gen();
        numbers.push(number);
    }

    // Write
    for number in &numbers {
        write_varint(*number, &mut buffer);
    }

    // Read
    let mut cursor = &buffer[..];
    for number in numbers {
        let (new_cursor, read_number) = read_varint(cursor).unwrap();
        assert_eq!(read_number, number);
        cursor = new_cursor;
    }
}

#[test]
fn varint_exact_bytes() {
    for (value, bytes) in [
        (0i64, vec![0x00u8]),
        (-1, vec![0x01]),
        (1, vec![0x02]),
        (-64, vec![0x7f]),
        (64, vec![0x80, 0x01]),
        (7_200_000, vec![0x80, 0xF4, 0xEE, 0x06]),
        (
            i64::MIN,
            vec![0xff, 0xff, 0xff, 0xff, 0xff, 0xff, 0xff, 0xff, 0xff, 0x01],
        ),
        (
            i64::MAX,
            vec![0xfe, 0xff, 0xff, 0xff, 0xff, 0xff, 0xff, 0xff, 0xff, 0x01],
        ),
    ] {
        let mut out: Vec<u8> = Vec::new();
        write_varint(value, &mut out);
        assert_eq!(out, bytes);
        let (rest, back) = read_varint(&out).unwrap();
        assert_eq!(back, value);
        assert!(rest.is_empty());
    }
}
