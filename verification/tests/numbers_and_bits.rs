//! Number reading and writing, field encoding and byte grouping.

use microasm::bits::{bits_to_bytes, encode_field, u64_be_bytes};
use microasm::byteops::{big_endian_u16, big_endian_u32, little_endian_u16, little_endian_u32};
use microasm::errors::ErrorKind;
use microasm::numbers::{fmt_dec, parse_u64};

#[test]
fn parse_decimal() {
    assert_eq!(parse_u64(b"1234", 10), Ok(1234));
    assert_eq!(parse_u64(b"0", 10), Ok(0));
}

#[test]
fn parse_hex_and_binary() {
    assert_eq!(parse_u64(b"1F", 16), Ok(31));
    assert_eq!(parse_u64(b"ff", 16), Ok(255));
    assert_eq!(parse_u64(b"1010", 2), Ok(10));
}

#[test]
fn parse_rejects_empty_and_bad_digits() {
    assert_eq!(parse_u64(b"", 10), Err(ErrorKind::ExpectedNumber));
    assert_eq!(parse_u64(b"12a", 10), Err(ErrorKind::ExpectedNumber));
    assert_eq!(parse_u64(b"2", 2), Err(ErrorKind::ExpectedNumber));
}

#[test]
fn parse_rejects_overflow() {
    assert_eq!(parse_u64(b"18446744073709551615", 10), Ok(u64::MAX));
    assert_eq!(
        parse_u64(b"18446744073709551616", 10),
        Err(ErrorKind::NumberTooBig)
    );
}

#[test]
fn format_decimal() {
    assert_eq!(fmt_dec(0), b"0".to_vec());
    assert_eq!(fmt_dec(7), b"7".to_vec());
    assert_eq!(fmt_dec(1234), b"1234".to_vec());
    assert_eq!(fmt_dec(u64::MAX), b"18446744073709551615".to_vec());
}

#[test]
fn field_is_exactly_width_bits() {
    assert_eq!(encode_field(15, 4), Ok(b"1111".to_vec()));
    assert_eq!(encode_field(1, 4), Ok(b"0001".to_vec()));
    assert_eq!(encode_field(0, 3), Ok(b"000".to_vec()));
    assert_eq!(encode_field(5, 8), Ok(b"00000101".to_vec()));
}

#[test]
fn field_refuses_oversized_value() {
    assert_eq!(encode_field(16, 4), Err(ErrorKind::NumberTooBig));
    assert_eq!(encode_field(2, 1), Err(ErrorKind::NumberTooBig));
    assert_eq!(encode_field(0, 0), Err(ErrorKind::NumberTooBig));
}

#[test]
fn bit_text_groups_into_growing_words() {
    assert_eq!(bits_to_bytes(b""), Ok(vec![]));
    assert_eq!(bits_to_bytes(b"101"), Ok(vec![0x05]));
    assert_eq!(bits_to_bytes(b"00010010"), Ok(vec![0x12]));
    assert_eq!(bits_to_bytes(b"100000001"), Ok(vec![0x01, 0x01]));
    assert_eq!(
        bits_to_bytes(b"11111111111111111"),
        Ok(vec![0x00, 0x01, 0xFF, 0xFF])
    );
}

#[test]
fn bit_text_longer_than_a_word_is_refused() {
    let bits = vec![b'1'; 65];
    assert_eq!(bits_to_bytes(&bits), Err(ErrorKind::TooManyBits));
}

#[test]
fn big_endian_units() {
    assert_eq!(u64_be_bytes(0x61, 2), vec![0x00, 0x61]);
    assert_eq!(u64_be_bytes(0x01020304, 4), vec![0x01, 0x02, 0x03, 0x04]);
}

#[test]
fn endian_readers() {
    assert_eq!(little_endian_u16(&[0x34, 0x12]), Some(0x1234));
    assert_eq!(little_endian_u16(&[0x34]), None);
    assert_eq!(big_endian_u16(&[0x12, 0x34]), Some(0x1234));
    assert_eq!(
        little_endian_u32(&[0x78, 0x56, 0x34, 0x12]),
        Some(0x12345678)
    );
    assert_eq!(
        big_endian_u32(&[0x12, 0x34, 0x56, 0x78]),
        Some(0x34127856)
    );
    assert_eq!(big_endian_u32(&[1, 2, 3]), None);
}
