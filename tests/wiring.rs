use hub75::{Line, PinError, Pins};

fn standard() -> Result<Pins, PinError> {
    Pins::new(2, 4, 5, 18, 19, 21, 12, 13, 14, 15, 22, 25, 26)
}

#[test]
fn standard_wiring_is_accepted() {
    let pins = standard().unwrap();
    let lines = pins.lines();
    assert_eq!(lines.r1, 2);
    assert_eq!(lines.b2, 21);
    assert_eq!(lines.clk, 22);
    assert_eq!(lines.lat, 25);
    assert_eq!(lines.oe, 26);
}

#[test]
fn masks_hold_exactly_their_lines() {
    let pins = standard().unwrap();
    let rgb = pins.rgb_mask();
    let addr = pins.addr_mask();
    assert_eq!(rgb, (1 << 2) | (1 << 4) | (1 << 5) | (1 << 18) | (1 << 19) | (1 << 21));
    assert_eq!(addr, 0xF << 12);
    assert_eq!(rgb.count_ones(), 6);
    assert_eq!(addr.count_ones(), 4);
    assert_eq!(rgb & addr, 0);
    for single in [22u32, 25, 26] {
        assert_eq!((rgb | addr) & (1 << single), 0);
    }
}

#[test]
fn masks_at_the_port_edges() {
    let pins = Pins::new(0, 2, 3, 28, 29, 31, 4, 5, 6, 7, 1, 8, 9).unwrap();
    assert_eq!(pins.rgb_mask(), 0b1011_0000_0000_0000_0000_0000_0000_1101);
    assert_eq!(pins.addr_mask(), 0xF0);
}

#[test]
fn d_two_above_a_is_refused() {
    let r = Pins::new(2, 4, 5, 18, 19, 21, 12, 13, 14, 14, 22, 25, 26);
    assert_eq!(r.err(), Some(PinError::Misplaced { line: Line::D, expected: 15, found: 14 }));
}

#[test]
fn line_outside_port_is_refused() {
    let r = Pins::new(2, 4, 5, 18, 19, 21, 12, 13, 14, 15, 22, 25, 32);
    assert_eq!(r.err(), Some(PinError::OutOfRange { line: Line::Oe, pin: 32 }));
    let r = Pins::new(200, 202, 203, 18, 19, 21, 12, 13, 14, 15, 22, 25, 26);
    assert_eq!(r.err(), Some(PinError::OutOfRange { line: Line::R1, pin: 200 }));
}

#[test]
fn range_is_checked_before_offsets() {
    let r = Pins::new(2, 9, 5, 18, 19, 21, 12, 13, 14, 15, 22, 25, 40);
    assert_eq!(r.err(), Some(PinError::OutOfRange { line: Line::Oe, pin: 40 }));
}

#[test]
fn address_lines_must_be_contiguous() {
    let r = Pins::new(2, 4, 5, 18, 19, 21, 12, 14, 15, 16, 22, 25, 26);
    assert_eq!(r.err(), Some(PinError::Misplaced { line: Line::B, expected: 13, found: 14 }));
}

#[test]
fn colour_offsets_are_enforced() {
    let r = Pins::new(2, 3, 4, 18, 19, 21, 12, 13, 14, 15, 22, 25, 26);
    assert_eq!(r.err(), Some(PinError::Misplaced { line: Line::G1, expected: 4, found: 3 }));
    let r = Pins::new(2, 4, 5, 18, 20, 22, 12, 13, 14, 15, 23, 25, 26);
    assert_eq!(r.err(), Some(PinError::Misplaced { line: Line::G2, expected: 19, found: 20 }));
    let r = Pins::new(2, 4, 5, 18, 19, 20, 12, 13, 14, 15, 22, 25, 26);
    assert_eq!(r.err(), Some(PinError::Misplaced { line: Line::B2, expected: 21, found: 20 }));
}

#[test]
fn shared_pins_are_refused() {
    let r = Pins::new(2, 4, 5, 18, 19, 21, 12, 13, 14, 15, 22, 22, 26);
    assert_eq!(r.err(), Some(PinError::Shared { first: Line::Clk, second: Line::Lat, pin: 22 }));
    let r = Pins::new(2, 4, 5, 3, 4, 6, 12, 13, 14, 15, 22, 25, 26);
    assert_eq!(r.err(), Some(PinError::Shared { first: Line::G1, second: Line::G2, pin: 4 }));
}
