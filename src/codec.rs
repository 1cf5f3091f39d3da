//! The byte layout of frame data: one byte carries one bit of each colour
//! channel for the two pixels that share a multiplex row.
//!
//! | bit | 7 | 6 | 5 | 4 | 3 | 2 | 1 | 0 |
//! |-----|---|---|---|---|---|---|---|---|
//! |     | upper B | upper G | reserved | upper R | lower B | reserved | lower G | lower R |
use vstd::prelude::*;

verus! {

/// The three channel bits of one pixel within one bitplane.
#[derive(Clone, Copy, Debug, PartialEq, Eq, Structural)]
pub struct Rgb {
    pub r: bool,
    pub g: bool,
    pub b: bool,
}

/// Red of the pixel in the upper half (sub-row `r`).
pub const UPPER_R: u8 = 0x10;
/// Green of the pixel in the upper half.
pub const UPPER_G: u8 = 0x40;
/// Blue of the pixel in the upper half.
pub const UPPER_B: u8 = 0x80;
/// Red of the pixel in the lower half (sub-row `r + rowCount`).
pub const LOWER_R: u8 = 0x01;
/// Green of the pixel in the lower half.
pub const LOWER_G: u8 = 0x02;
/// Blue of the pixel in the lower half.
pub const LOWER_B: u8 = 0x08;
/// The six bits that carry channel values; bits 2 and 5 are reserved.
pub const CHANNEL_BITS: u8 = 0xDB;

/// The upper pixel held in `byte`.
pub open spec fn upper_of(byte: u8) -> Rgb {
    Rgb { r: byte & UPPER_R != 0, g: byte & UPPER_G != 0, b: byte & UPPER_B != 0 }
}

/// The lower pixel held in `byte`.
pub open spec fn lower_of(byte: u8) -> Rgb {
    Rgb { r: byte & LOWER_R != 0, g: byte & LOWER_G != 0, b: byte & LOWER_B != 0 }
}

pub open spec fn flag(on: bool, bit: u8) -> u8 {
    if on {
        bit
    } else {
        0
    }
}

/// The byte that holds `upper` and `lower`, with the reserved bits clear.
pub open spec fn encoding_of(upper: Rgb, lower: Rgb) -> u8 {
    flag(upper.r, UPPER_R) | flag(upper.g, UPPER_G) | flag(upper.b, UPPER_B) | flag(lower.r, LOWER_R)
        | flag(lower.g, LOWER_G) | flag(lower.b, LOWER_B)
}

/// Splits a frame byte into its upper and lower pixel.
pub fn decode(byte: u8) -> (r: (Rgb, Rgb))
    ensures
        r.0 == upper_of(byte),
        r.1 == lower_of(byte),
{
    let upper = Rgb { r: byte & UPPER_R != 0, g: byte & UPPER_G != 0, b: byte & UPPER_B != 0 };
    let lower = Rgb { r: byte & LOWER_R != 0, g: byte & LOWER_G != 0, b: byte & LOWER_B != 0 };
    (upper, lower)
}

fn flag_bit(on: bool, bit: u8) -> (r: u8)
    ensures
        r == flag(on, bit),
{
    if on {
        bit
    } else {
        0
    }
}

/// Packs an upper and a lower pixel into one frame byte.
pub fn encode(upper: Rgb, lower: Rgb) -> (r: u8)
    ensures
        r == encoding_of(upper, lower),
{
    flag_bit(upper.r, UPPER_R) | flag_bit(upper.g, UPPER_G) | flag_bit(upper.b, UPPER_B)
        | flag_bit(lower.r, LOWER_R) | flag_bit(lower.g, LOWER_G) | flag_bit(lower.b, LOWER_B)
}

proof fn lemma_byte_round_trip(byte: u8)
    by (bit_vector)
    ensures
        ((if byte & 0x10 != 0 { 0x10u8 } else { 0u8 }) | (if byte & 0x40 != 0 { 0x40u8 } else { 0u8 })
            | (if byte & 0x80 != 0 { 0x80u8 } else { 0u8 }) | (if byte & 0x01 != 0 { 0x01u8 } else { 0u8 })
            | (if byte & 0x02 != 0 { 0x02u8 } else { 0u8 }) | (if byte & 0x08 != 0 { 0x08u8 } else { 0u8 }))
            == byte & 0xDB,
{
}

/// Decoding a byte and encoding the two pixels again gives back the byte,
/// up to its reserved bits.
pub proof fn lemma_decode_encode(byte: u8)
    ensures
        encoding_of(upper_of(byte), lower_of(byte)) == byte & CHANNEL_BITS,
{
    lemma_byte_round_trip(byte);
}

proof fn lemma_pixels_round_trip(ur: bool, ug: bool, ub: bool, lr: bool, lg: bool, lb: bool)
    by (bit_vector)
    ensures
        ({
            let byte = (if ur { 0x10u8 } else { 0u8 }) | (if ug { 0x40u8 } else { 0u8 }) | (if ub { 0x80u8 } else { 0u8 })
                | (if lr { 0x01u8 } else { 0u8 }) | (if lg { 0x02u8 } else { 0u8 }) | (if lb { 0x08u8 } else { 0u8 });
            &&& (byte & 0x10 != 0) == ur
            &&& (byte & 0x40 != 0) == ug
            &&& (byte & 0x80 != 0) == ub
            &&& (byte & 0x01 != 0) == lr
            &&& (byte & 0x02 != 0) == lg
            &&& (byte & 0x08 != 0) == lb
            &&& byte & 0x24 == 0
        }),
{
}

/// Encoding two pixels and decoding the byte gives back the two pixels, and
/// the reserved bits of an encoded byte are clear.
pub proof fn lemma_encode_decode(upper: Rgb, lower: Rgb)
    ensures
        upper_of(encoding_of(upper, lower)) == upper,
        lower_of(encoding_of(upper, lower)) == lower,
        encoding_of(upper, lower) & !CHANNEL_BITS == 0,
{
    lemma_pixels_round_trip(upper.r, upper.g, upper.b, lower.r, lower.g, lower.b);
    let byte = encoding_of(upper, lower);
    assert(byte & !0xDBu8 == byte & 0x24) by (bit_vector);
}

} // verus!
