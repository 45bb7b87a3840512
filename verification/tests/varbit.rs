use rand::{Rng, SeedableRng};
use rusty_chunkenc::bits::{read_bit, read_bits};
use rusty_chunkenc::varbit_ts::{read_varbit_ts, write_varbit_ts};
use rusty_chunkenc::varbit_xor::{read_varbit_xor, write_varbit_xor, NO_WINDOW};
use rusty_chunkenc::{BitBuffer, ParseError};

fn generate_random_ts_data(seed: u64) -> Vec<Vec<i64>> {
    let mut rng = rand::rngs::StdRng::seed_from_u64(seed);

    let mut test_cases = Vec::with_capacity(128);
    for _ in 0..128 {
        let vec_size = rng.gen_range(1..129);
        let mut vec = Vec::with_capacity(vec_size);

        let mut value: i64 = if rng.gen_bool(0.5) {
            rng.gen_range(-100000000..1000000)
        } else {
            rng.gen_range(-10000..10000)
        };
        vec.push(value);

        for _ in 1..vec_size {
            if rng.gen_bool(0.33) {
                value += 1;
            } else if rng.gen_bool(0.33) {
                value = rng.gen();
            }
            vec.push(value);
        }
        test_cases.push(vec);
    }
    test_cases
}

#[test]
fn test_write_varbit_ts() {
    let mut test_cases = generate_random_ts_data(42);

    // add just a test case with the weird clamping
    test_cases.push(vec![i64::MAX, 0, i64::MIN, i64::MAX, i64::MIN]);

    for test_case in test_cases {
        // Writing first
        let mut bit_writer = BitBuffer::new();

        for number in &test_case {
            write_varbit_ts(*number, &mut bit_writer);
        }

        bit_writer.byte_align();
        let buffer: Vec<u8> = bit_writer.into_bytes();

        // Read again
        let mut cursor: (&[u8], usize) = (&buffer, 0);
        for number in test_case {
            let (new_cursor, new_value) = read_varbit_ts(cursor).unwrap();
            cursor = new_cursor;
            assert_eq!(new_value, number);
        }
    }
}

fn generate_random_xor_data(seed: u64) -> Vec<Vec<f64>> {
    let mut rng = rand::rngs::StdRng::seed_from_u64(seed);

    let mut test_cases = Vec::with_capacity(128);
    for _ in 0..128 {
        let vec_size = rng.gen_range(1..129);
        let mut vec = Vec::with_capacity(vec_size);

        let mut value: f64 = rng.gen();
        vec.push(value);

        for _ in 1..vec_size {
            if rng.gen_bool(0.33) {
                value += 1.0;
            } else if rng.gen_bool(0.33) {
                value = rng.gen();
            }
            vec.push(value);
        }
        test_cases.push(vec);
    }
    test_cases
}

#[test]
fn test_write_varbit_xor() {
    let mut test_cases = generate_random_xor_data(42);

    // add just a test case with the weird clamping
    test_cases.push(vec![f64::MAX, 0.0, f64::MIN, f64::MAX, f64::MIN]);

    for test_case in test_cases {
        // Writing first
        let mut bit_writer = BitBuffer::new();

        let mut value: f64 = 0.0;
        let mut leading = 0xff;
        let mut trailing = 0;

        for number in &test_case {
            let (new_leading, new_trailing) = write_varbit_xor(
                number.to_bits(),
                value.to_bits(),
                leading,
                trailing,
                &mut bit_writer,
            );
            value = *number;
            leading = new_leading;
            trailing = new_trailing;
        }

        bit_writer.byte_align();
        let buffer: Vec<u8> = bit_writer.into_bytes();

        // Read again
        value = 0.0;
        leading = 0;
        trailing = 0;

        let mut cursor: (&[u8], usize) = (&buffer, 0);

        for number in test_case {
            let (new_cursor, (new_value, new_leading, new_trailing)) =
                read_varbit_xor(value.to_bits(), leading, trailing, cursor).unwrap();
            cursor = new_cursor;
            assert_eq!(f64::from_bits(new_value), number);
            assert_eq!(new_value, number.to_bits());
            value = f64::from_bits(new_value);
            leading = new_leading;
            trailing = new_trailing;
        }
    }
}

fn ts_bytes(value: i64) -> Vec<u8> {
    let mut w = BitBuffer::new();
    write_varbit_ts(value, &mut w);
    w.byte_align();
    w.into_bytes()
}

#[test]
fn varbit_ts_bucket_boundaries() {
    for value in [
        0i64,
        1,
        -1,
        -8191,
        8192,
        -8192,
        8193,
        -65535,
        65536,
        -65536,
        65537,
        -524287,
        524288,
        -524288,
        524289,
        i64::MIN,
        i64::MAX,
    ] {
        let bytes = ts_bytes(value);
        let (cursor, back) = read_varbit_ts((&bytes, 0)).unwrap();
        assert_eq!(back, value);
        let bits = match value {
            0 => 1,
            -8191..=8192 => 2 + 14,
            -65535..=65536 => 3 + 17,
            -524287..=524288 => 4 + 20,
            _ => 4 + 64,
        };
        assert_eq!(bytes.len(), (bits + 7) / 8);
        assert_eq!(cursor.1, bits % 8);
        assert_eq!(cursor.0.len(), bytes.len() - bits / 8);
    }
}

#[test]
fn varbit_ts_exact_bits() {
    assert_eq!(ts_bytes(0), [0b0000_0000]);
    // 10, then 1 in fourteen bits
    assert_eq!(ts_bytes(1), [0b1000_0000, 0b0000_0001]);
    // 10, then -1 in fourteen bits
    assert_eq!(ts_bytes(-1), [0b1011_1111, 0b1111_1111]);
    // 10, then 8192 = 1 followed by thirteen zeros
    assert_eq!(ts_bytes(8192), [0b1010_0000, 0b0000_0000]);
    // 110, then 8193 in seventeen bits
    assert_eq!(ts_bytes(8193), [0b1100_0010, 0b0000_0000, 0b0001_0000]);
    // 1111, then the sixty-four bits
    assert_eq!(
        ts_bytes(i64::MIN),
        [0xF8, 0x00, 0x00, 0x00, 0x00, 0x00, 0x00, 0x00, 0x00]
    );
}

#[test]
fn varbit_ts_truncated() {
    assert_eq!(
        read_varbit_ts((&[], 0)).unwrap_err(),
        ParseError::Truncated { needed: None }
    );
    // bucket of fourteen bits, one byte short
    assert_eq!(
        read_varbit_ts((&[0b1000_0000], 0)).unwrap_err(),
        ParseError::Truncated { needed: None }
    );
}

#[test]
fn varbit_xor_leading_clamp() {
    // The difference has more than 31 leading zeros: the window records 31.
    let previous: u64 = 0x4000_0000_0000_0000;
    let value: u64 = previous ^ 0x0000_0000_0000_1200;
    let mut w = BitBuffer::new();
    let window = write_varbit_xor(value, previous, NO_WINDOW, 0, &mut w);
    assert_eq!(window, (31, 9));
    w.byte_align();
    let bytes = w.into_bytes();
    // 1 1, 11111, 011000 (24 significant bits), then 9 in 24 bits, then padding
    assert_eq!(bytes, [0b1111_1110, 0b1100_0000, 0, 0, 0b0100_1000]);
    let (_, (back, leading, trailing)) = read_varbit_xor(previous, 0, 0, (&bytes, 0)).unwrap();
    assert_eq!(back, value);
    assert_eq!((leading, trailing), (31, 9));
}

#[test]
fn varbit_xor_same_value_and_window_reuse() {
    let a: u64 = 12000.0f64.to_bits();
    let b: u64 = 12001.0f64.to_bits();
    let mut w = BitBuffer::new();
    let w0 = write_varbit_xor(b, a, NO_WINDOW, 0, &mut w);
    let w1 = write_varbit_xor(b, b, w0.0, w0.1, &mut w);
    assert_eq!(w1, w0);
    let w2 = write_varbit_xor(a, b, w1.0, w1.1, &mut w);
    assert_eq!(w2, w0);
    w.byte_align();
    let bytes = w.into_bytes();
    let (c, (v, l, t)) = read_varbit_xor(a, 0, 0, (&bytes, 0)).unwrap();
    assert_eq!((v, l, t), (b, w0.0, w0.1));
    let (c, (v, l, t)) = read_varbit_xor(v, l, t, c).unwrap();
    assert_eq!((v, l, t), (b, w0.0, w0.1));
    let (_, (v, l, t)) = read_varbit_xor(v, l, t, c).unwrap();
    assert_eq!((v, l, t), (a, w0.0, w0.1));
}

#[test]
fn varbit_xor_sixty_four_significant_bits() {
    // Every bit differs: 0 leading, 0 trailing, 64 significant written as 0.
    let mut w = BitBuffer::new();
    let window = write_varbit_xor(u64::MAX, 0, NO_WINDOW, 0, &mut w);
    assert_eq!(window, (0, 0));
    w.byte_align();
    let bytes = w.into_bytes();
    assert_eq!(bytes.len(), 10);
    assert_eq!(bytes[0], 0b1100_0000);
    assert_eq!(bytes[1], 0b0000_0111);
    let (_, (v, l, t)) = read_varbit_xor(0, 0, 0, (&bytes, 0)).unwrap();
    assert_eq!((v, l, t), (u64::MAX, 0, 0));
}

#[test]
fn varbit_xor_bad_window() {
    // flags 1 0 ask for the old window, which leaves no bit
    assert_eq!(
        read_varbit_xor(0, 40, 24, (&[0b1000_0000], 0)).unwrap_err(),
        ParseError::Window
    );
    // new window: 31 leading, 63 significant bits
    assert_eq!(
        read_varbit_xor(0, 0, 0, (&[0b1111_1111, 0b1111_1000, 0, 0], 0)).unwrap_err(),
        ParseError::Window
    );
    assert_eq!(
        read_varbit_xor(0, 0, 0, (&[], 0)).unwrap_err(),
        ParseError::Truncated { needed: None }
    );
}

#[test]
fn read_bits_across_bytes() {
    let bytes = [0b1010_0101u8, 0b1100_0011, 0xFF];
    let (c, v) = read_bits((&bytes, 0), 3).unwrap();
    assert_eq!(v, 0b101);
    assert_eq!((c.0.len(), c.1), (3, 3));
    let (c, v) = read_bits(c, 9).unwrap();
    assert_eq!(v, 0b0_0101_1100);
    assert_eq!((c.0.len(), c.1), (2, 4));
    let (c, bit) = read_bit(c).unwrap();
    assert!(!bit);
    let (c, v) = read_bits(c, 11).unwrap();
    assert_eq!(v, 0b011_1111_1111);
    assert_eq!((c.0.len(), c.1), (0, 0));
    assert_eq!(
        read_bit(c).unwrap_err(),
        ParseError::Truncated { needed: None }
    );
    let (c, v) = read_bits((&bytes, 5), 0).unwrap();
    assert_eq!(v, 0);
    assert_eq!((c.0.len(), c.1), (3, 5));
    assert!(read_bits((&bytes, 1), 24).is_err());
}

#[test]
fn bit_buffer_packs_most_significant_first() {
    let mut w = BitBuffer::new();
    write_varbit_ts(0, &mut w);
    write_varbit_ts(0, &mut w);
    write_varbit_ts(1, &mut w);
    // 0 0 10 00000000000001 and padding
    w.byte_align();
    assert_eq!(w.into_bytes(), [0b0010_0000, 0b0000_0000, 0b0100_0000]);
    assert!(BitBuffer::new().into_bytes().is_empty());
}
