//! Six-bit chunk arithmetic for base64 transcoding: how a group of three
//! input bytes splits into the four six-bit values that name its digits.

use vstd::prelude::*;

verus! {

/// The code point of the base64 digit for a six-bit value: `A`-`Z`, then
/// `a`-`z`, then `0`-`9`, then `+` and `/`.
pub open spec fn spec_digit_code(index: u8) -> u32
    recommends
        index < 64,
{
    if index < 26 {
        (index + 65) as u32
    } else if index < 52 {
        (index + 71) as u32
    } else if index < 62 {
        (index - 4) as u32
    } else if index == 62 {
        43
    } else {
        47
    }
}

/// The digit character for a six-bit value, or `None` for anything larger.
pub fn get_table_value(index: u8) -> (r: Option<char>)
    ensures
        index < 64 ==> (r matches Some(c) && c as u32 == spec_digit_code(index)),
        index >= 64 ==> r is None,
{
    if index < 26 {
        Some((index + 65) as char)
    } else if index < 52 {
        Some((index + 71) as char)
    } else if index < 62 {
        Some((index - 4) as char)
    } else if index == 62 {
        Some('+')
    } else if index == 63 {
        Some('/')
    } else {
        None
    }
}

/// The six-bit value whose digit a character is, or `None` for a character
/// outside the alphabet.
pub fn get_table_index(value: char) -> (r: Option<u8>)
    ensures
        (match r {
            Option::Some(i) => i < 64 && spec_digit_code(i) == value as u32,
            Option::None => forall|i: u8| i < 64 ==> spec_digit_code(i) != value as u32,
        }),
{
    let v = value as u32;
    if 65 <= v && v <= 90 {
        Some((v - 65) as u8)
    } else if 97 <= v && v <= 122 {
        Some((v - 97 + 26) as u8)
    } else if 48 <= v && v <= 57 {
        Some((v - 48 + 52) as u8)
    } else if v == 43 {
        Some(62)
    } else if v == 47 {
        Some(63)
    } else {
        None
    }
}

/// The high six bits of the first byte of a group.
pub fn get_first_chunk(byte: u8) -> (r: u8)
    ensures
        r == byte / 4,
        r < 64,
{
    proof {
        assert(((byte >> 2u8) & 0x3fu8) == byte / 4 && ((byte >> 2u8) & 0x3fu8) < 64)
            by (bit_vector);
    }
    (byte >> 2) & 0b111111
}

/// The low two bits of the first byte joined with the high four bits of the
/// second.
pub fn get_second_chunk(byte1: u8, byte2: u8) -> (r: u8)
    ensures
        r == (byte1 % 4) * 16 + byte2 / 16,
        r < 64,
{
    proof {
        assert((((byte1 << 4u8) | (byte2 >> 4u8)) & 0x3fu8) == (byte1 % 4) * 16 + byte2 / 16
            && (((byte1 << 4u8) | (byte2 >> 4u8)) & 0x3fu8) < 64) by (bit_vector);
    }
    (byte1 << 4 | byte2 >> 4) & 0b111111
}

/// The low four bits of the second byte joined with the high two bits of the
/// third.
pub fn get_third_chunk(byte2: u8, byte3: u8) -> (r: u8)
    ensures
        r == (byte2 % 16) * 4 + byte3 / 64,
        r < 64,
{
    proof {
        assert(((((byte2 & 0xfu8) << 2u8) | (byte3 >> 6u8)) & 0x3fu8) == (byte2 % 16) * 4 + byte3
            / 64 && ((((byte2 & 0xfu8) << 2u8) | (byte3 >> 6u8)) & 0x3fu8) < 64) by (bit_vector);
    }
    (((byte2 & 0b1111) << 2) | byte3 >> 6) & 0b111111
}

/// The low six bits of the third byte.
pub fn get_fourth_chunk(byte3: u8) -> (r: u8)
    ensures
        r == byte3 % 64,
        r < 64,
{
    proof {
        assert((byte3 & 0x3fu8) == byte3 % 64 && (byte3 & 0x3fu8) < 64) by (bit_vector);
    }
    byte3 & 0b111111
}

} // verus!
