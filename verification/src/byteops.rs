//! Generic endian readers over byte slices. They stand apart from the
//! assembly pipeline: small utilities for reading multi-byte words out of
//! raw buffers.

use vstd::prelude::*;
use vstd::slice::slice_subrange;

verus! {

/// Reads the first two bytes of `input` as a little-endian word, or
/// nothing when fewer than two bytes are there.
pub fn little_endian_u16(input: &[u8]) -> (r: Option<u16>)
    ensures
        match r {
            Some(v) => input@.len() >= 2 && v == input@[1] * 256 + input@[0],
            None => input@.len() < 2,
        },
{
    if input.len() < 2 {
        return None;
    }
    let lower_byte = input[0];
    let higher_byte = input[1];
    Some((higher_byte as u16) * 256 + lower_byte as u16)
}

/// Reads the first four bytes of `input` as a little-endian word, or
/// nothing when fewer than four bytes are there.
pub fn little_endian_u32(input: &[u8]) -> (r: Option<u32>)
    ensures
        match r {
            Some(v) => {
                &&& input@.len() >= 4
                &&& v == ((input@[3] * 256 + input@[2]) as u32) * 0x10000
                    + (input@[1] * 256 + input@[0])
            },
            None => input@.len() < 4,
        },
{
    if input.len() < 4 {
        return None;
    }
    let lower_u16 = little_endian_u16(slice_subrange(input, 0, 2)).unwrap();
    let higher_u16 = little_endian_u16(slice_subrange(input, 2, 4)).unwrap();
    Some((higher_u16 as u32) * 0x10000 + lower_u16 as u32)
}

/// Reads the first two bytes of `input` as a big-endian word, or nothing
/// when fewer than two bytes are there.
pub fn big_endian_u16(input: &[u8]) -> (r: Option<u16>)
    ensures
        match r {
            Some(v) => input@.len() >= 2 && v == input@[0] * 256 + input@[1],
            None => input@.len() < 2,
        },
{
    if input.len() < 2 {
        return None;
    }
    let lower_byte = input[1];
    let higher_byte = input[0];
    Some((higher_byte as u16) * 256 + lower_byte as u16)
}

/// Reads the first four bytes of `input` as a word whose upper half is the
/// little-endian pair at the front and whose lower half is the
/// little-endian pair behind it, or nothing when fewer than four bytes are
/// there.
pub fn big_endian_u32(input: &[u8]) -> (r: Option<u32>)
    ensures
        match r {
            Some(v) => {
                &&& input@.len() >= 4
                &&& v == ((input@[1] * 256 + input@[0]) as u32) * 0x10000
                    + (input@[3] * 256 + input@[2])
            },
            None => input@.len() < 4,
        },
{
    if input.len() < 4 {
        return None;
    }
    let lower_u16 = little_endian_u16(slice_subrange(input, 2, 4)).unwrap();
    let higher_u16 = little_endian_u16(slice_subrange(input, 0, 2)).unwrap();
    Some((higher_u16 as u32) * 0x10000 + lower_u16 as u32)
}

} // verus!
