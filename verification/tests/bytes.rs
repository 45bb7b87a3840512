use rusty_chunkenc::bytes::{
    append_bytes, be_number, read_be, write_be_u16, write_be_u32, write_be_u64,
};
use rusty_chunkenc::uvarint_buffer::UvarintBuffer;
use rusty_chunkenc::ParseError;

#[test]
fn big_endian_numbers() {
    let mut out: Vec<u8> = vec![0xFF];
    write_be_u16(0x0102, &mut out);
    write_be_u32(0x0304_0506, &mut out);
    write_be_u64(0x0708_090A_0B0C_0D0E, &mut out);
    assert_eq!(out, [0xFF, 1, 2, 3, 4, 5, 6, 7, 8, 9, 10, 11, 12, 13, 14]);

    let (rest, v) = read_be(&out[1..], 2).unwrap();
    assert_eq!(v, 0x0102);
    let (rest, v) = read_be(rest, 4).unwrap();
    assert_eq!(v, 0x0304_0506);
    let (rest, v) = read_be(rest, 8).unwrap();
    assert_eq!(v, 0x0708_090A_0B0C_0D0E);
    assert!(rest.is_empty());
    let (rest, v) = read_be(&out, 0).unwrap();
    assert_eq!(v, 0);
    assert_eq!(rest.len(), out.len());
    assert_eq!(
        read_be(&out[..3], 4).unwrap_err(),
        ParseError::Truncated { needed: None }
    );

    assert_eq!(be_number(&[]), 0);
    assert_eq!(be_number(&[0x80]), 0x80);
    assert_eq!(be_number(&[0xFF; 8]), u64::MAX);
    assert_eq!(be_number(&12000.0f64.to_be_bytes()), 12000.0f64.to_bits());

    let mut out: Vec<u8> = Vec::new();
    write_be_u64(f64::MAX.to_bits(), &mut out);
    assert_eq!(out, f64::MAX.to_be_bytes());
    write_be_u32(u32::MAX, &mut out);
    write_be_u16(u16::MAX, &mut out);
    assert_eq!(&out[8..], &[0xFF; 6]);
}

#[test]
fn appended_bytes_follow() {
    let mut out: Vec<u8> = vec![1, 2];
    append_bytes(&mut out, &[3, 4, 5]);
    append_bytes(&mut out, &[]);
    assert_eq!(out, [1, 2, 3, 4, 5]);
}

#[test]
fn uvarint_buffer_holds_the_encoding() {
    assert_eq!(UvarintBuffer::of(0).as_bytes(), &[0x00]);
    assert_eq!(UvarintBuffer::of(300).as_bytes(), &[0xAC, 0x02]);
    assert_eq!(UvarintBuffer::of(i64::MAX as u64).as_bytes().len(), 9);
    // one byte more than has room on the stack
    assert_eq!(
        UvarintBuffer::of(u64::MAX).as_bytes(),
        &[0xFF, 0xFF, 0xFF, 0xFF, 0xFF, 0xFF, 0xFF, 0xFF, 0xFF, 0x01]
    );
}
