use node_loop::{consume_u32, safe_transmute, u32_at};
use std::io::Read;

#[test]
fn test_consume_raw() {
    let ptr: &[u8] = &[231u8, 3, 0, 0, 231u8, 3, 0, 0];

    let val = u32_at(ptr, 0);
    let val2 = u32_at(ptr, 4);

    assert_eq!(999, val);
    assert_eq!(999, val2);
}

#[test]
fn test_consume_long() {
    let ptr: &[u8] = &[231u8, 3, 0, 0, 5, 6, 7];
    let mut pos: usize = 0;

    let val = consume_u32(ptr, &mut pos).unwrap();

    assert_eq!(999, val);
    assert_eq!(4, pos);
}

#[test]
fn test_consume_short() {
    let ptr: &[u8] = &[231u8, 3, 0, 0, 5, 6, 7];
    let mut pos: usize = 0;

    let val = consume_u32(ptr, &mut pos).unwrap();

    assert_eq!(999, val);
    assert_eq!(None, consume_u32(ptr, &mut pos));
    assert_eq!(4, pos);
}

#[test]
fn test_consume_reader() {
    let ptr: &[u8] = &[231u8, 3, 0, 0, 5, 6, 7];
    let mut reader = std::io::BufReader::new(ptr);
    let mut bytes = [0u8; 4];

    reader.read_exact(&mut bytes).unwrap();
    let val = u32_at(&bytes, 0);
    assert_eq!(999, val);
}

#[test]
fn u32_at_weights_bytes_little_endian() {
    let ptr: &[u8] = &[0x78, 0x56, 0x34, 0x12];
    assert_eq!(0x1234_5678, u32_at(ptr, 0));
    let top: &[u8] = &[255, 255, 255, 255];
    assert_eq!(u32::MAX, u32_at(top, 0));
}

#[test]
fn safe_transmute_reads_two_leading_bytes() {
    let data: &[u8] = &[7, 200, 9];
    assert_eq!(Some((7, 200)), safe_transmute(data));
    let short: &[u8] = &[7];
    assert_eq!(None, safe_transmute(short));
    let empty: &[u8] = &[];
    assert_eq!(None, safe_transmute(empty));
}
