use hub75::{decode, encode, Rgb};

fn rgb(r: bool, g: bool, b: bool) -> Rgb {
    Rgb { r, g, b }
}

#[test]
fn decode_all_channels_set() {
    let (upper, lower) = decode(0xDB);
    assert_eq!(upper, rgb(true, true, true));
    assert_eq!(lower, rgb(true, true, true));
}

#[test]
fn decode_single_channel_bits() {
    assert_eq!(decode(0x10), (rgb(true, false, false), rgb(false, false, false)));
    assert_eq!(decode(0x40), (rgb(false, true, false), rgb(false, false, false)));
    assert_eq!(decode(0x80), (rgb(false, false, true), rgb(false, false, false)));
    assert_eq!(decode(0x01), (rgb(false, false, false), rgb(true, false, false)));
    assert_eq!(decode(0x02), (rgb(false, false, false), rgb(false, true, false)));
    assert_eq!(decode(0x08), (rgb(false, false, false), rgb(false, false, true)));
}

#[test]
fn decode_ignores_reserved_bits() {
    let none = rgb(false, false, false);
    assert_eq!(decode(0x24), (none, none));
}

#[test]
fn encode_known_values() {
    assert_eq!(encode(rgb(true, false, false), rgb(false, false, true)), 0x18);
    assert_eq!(encode(rgb(true, true, true), rgb(true, true, true)), 0xDB);
    assert_eq!(encode(rgb(false, false, false), rgb(false, false, false)), 0x00);
    assert_eq!(encode(rgb(false, true, true), rgb(true, true, false)), 0xC3);
}

#[test]
fn every_byte_survives_decode_then_encode() {
    for byte in 0u8..=255 {
        let (upper, lower) = decode(byte);
        assert_eq!(encode(upper, lower), byte & 0xDB);
    }
}

#[test]
fn every_pixel_pair_survives_encode_then_decode() {
    for bits in 0u8..64 {
        let upper = rgb(bits & 1 != 0, bits & 2 != 0, bits & 4 != 0);
        let lower = rgb(bits & 8 != 0, bits & 16 != 0, bits & 32 != 0);
        let byte = encode(upper, lower);
        assert_eq!(byte & 0x24, 0);
        assert_eq!(decode(byte), (upper, lower));
    }
}
