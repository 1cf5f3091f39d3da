use hub75::{Frame, Hub75, LineOp, Pins, Scan};

const OE: u32 = 1 << 26;
const LAT: u32 = 1 << 25;
const CLK: u32 = 1 << 22;
const RGB: u32 = (1 << 2) | (1 << 4) | (1 << 5) | (1 << 18) | (1 << 19) | (1 << 21);
const ADDR: u32 = 0xF << 12;

fn panel() -> Hub75 {
    Hub75 { pins: Pins::new(2, 4, 5, 18, 19, 21, 12, 13, 14, 15, 22, 25, 26).unwrap() }
}

fn latches(ops: &[LineOp]) -> usize {
    ops.iter().filter(|op| **op == LineOp::SetBits(LAT)).count()
}

fn row_len(cols: usize) -> usize {
    2 * cols + 6
}

#[test]
fn depth_one_two_rows_one_column() {
    let hub = panel();
    let frame = Frame::new(1, 2, 1, vec![0xDB, 0xDB]).unwrap();
    let ops = hub.render(&frame);
    let expected = vec![
        LineOp::SetBits(OE),
        LineOp::ClearBits(CLK),
        LineOp::SetBits(RGB | CLK),
        LineOp::SetBits(LAT),
        LineOp::ClearBits(LAT),
        LineOp::ClearBits(ADDR),
        LineOp::SetBits(0),
        LineOp::ClearBits(OE),
        LineOp::SetBits(OE),
        LineOp::ClearBits(CLK),
        LineOp::SetBits(RGB | CLK),
        LineOp::SetBits(LAT),
        LineOp::ClearBits(LAT),
        LineOp::ClearBits(ADDR & !(1 << 12)),
        LineOp::SetBits(1 << 12),
        LineOp::ClearBits(OE),
        LineOp::SetBits(OE),
    ];
    assert_eq!(ops, expected);
    assert_eq!(latches(&ops), 2);
}

#[test]
fn depth_three_passes_are_four_two_one() {
    let hub = panel();
    let (rows, cols) = (2usize, 2usize);
    let mut data = Vec::new();
    for plane in 0..3u8 {
        for _ in 0..rows * cols {
            data.push([0x10u8, 0x01, 0x80][plane as usize]);
        }
    }
    let frame = Frame::new(3, rows, cols, data).unwrap();
    let ops = hub.render(&frame);
    let pass = rows * row_len(cols);
    assert_eq!(ops.len(), 7 * pass + 1);
    assert_eq!(latches(&ops[..4 * pass]), 4 * rows);
    assert_eq!(latches(&ops[4 * pass..6 * pass]), 2 * rows);
    assert_eq!(latches(&ops[6 * pass..7 * pass]), rows);
    assert_eq!(latches(&ops), 7 * rows);
    assert_eq!(ops[2], LineOp::SetBits((1 << 2) | CLK));
    assert_eq!(ops[4 * pass + 2], LineOp::SetBits((1 << 18) | CLK));
    assert_eq!(ops[6 * pass + 2], LineOp::SetBits((1 << 5) | CLK));
    for p in 1..4 {
        assert_eq!(ops[..pass], ops[p * pass..(p + 1) * pass]);
    }
    assert_eq!(ops[4 * pass..5 * pass], ops[5 * pass..6 * pass]);
    assert_ne!(ops[..pass], ops[4 * pass..5 * pass]);
    assert_eq!(ops[7 * pass], LineOp::SetBits(OE));
}

#[test]
fn total_latches_follow_depth() {
    let hub = panel();
    for depth in 1..=6usize {
        let rows = 3usize;
        let cols = 2usize;
        let frame = Frame::new(depth, rows, cols, vec![0u8; depth * rows * cols]).unwrap();
        let ops = hub.render(&frame);
        assert_eq!(latches(&ops), ((1usize << depth) - 1) * rows);
        assert_eq!(ops.len(), ((1usize << depth) - 1) * rows * row_len(cols) + 1);
        assert_eq!(*ops.last().unwrap(), LineOp::SetBits(OE));
    }
}

#[test]
fn clock_toggles_once_per_column_left_to_right() {
    let hub = panel();
    let frame = Frame::new(1, 1, 3, vec![0x10, 0x40, 0x80]).unwrap();
    let ops = hub.render(&frame);
    assert_eq!(
        ops[1..7].to_vec(),
        vec![
            LineOp::ClearBits((RGB & !(1 << 2)) | CLK),
            LineOp::SetBits((1 << 2) | CLK),
            LineOp::ClearBits((RGB & !(1 << 4)) | CLK),
            LineOp::SetBits((1 << 4) | CLK),
            LineOp::ClearBits((RGB & !(1 << 5)) | CLK),
            LineOp::SetBits((1 << 5) | CLK),
        ]
    );
}

#[test]
fn lower_pixel_reaches_second_triplet() {
    let hub = panel();
    let frame = Frame::new(1, 1, 1, vec![0x0B]).unwrap();
    let ops = hub.render(&frame);
    let lower = (1 << 18) | (1 << 19) | (1 << 21);
    assert_eq!(ops[1], LineOp::ClearBits((RGB & !lower) | CLK));
    assert_eq!(ops[2], LineOp::SetBits(lower | CLK));
}

#[test]
fn upper_triplet_below_bit_four() {
    let pins = Pins::new(0, 2, 3, 28, 29, 31, 4, 5, 6, 7, 1, 8, 9).unwrap();
    let hub = Hub75 { pins };
    let frame = Frame::new(1, 1, 1, vec![0xD0]).unwrap();
    let ops = hub.render(&frame);
    assert_eq!(ops[2], LineOp::SetBits(0b1101 | (1 << 1)));
}

#[test]
fn row_address_is_driven_in_binary() {
    let hub = panel();
    let frame = Frame::new(1, 6, 1, vec![0; 6]).unwrap();
    let ops = hub.render(&frame);
    let row = 5;
    let base = row * row_len(1);
    assert_eq!(ops[base + 5], LineOp::ClearBits(ADDR & !(5 << 12)));
    assert_eq!(ops[base + 6], LineOp::SetBits(5 << 12));
}

#[test]
fn output_is_blanked_while_shifting_latching_and_addressing() {
    let hub = panel();
    let frame = Frame::new(2, 2, 2, vec![0xFF; 8]).unwrap();
    let ops = hub.render(&frame);
    let len = row_len(2);
    for row_start in (0..ops.len() - 1).step_by(len) {
        assert_eq!(ops[row_start], LineOp::SetBits(OE));
        assert_eq!(ops[row_start + 2 * 2 + 1], LineOp::SetBits(LAT));
        assert_eq!(ops[row_start + 2 * 2 + 2], LineOp::ClearBits(LAT));
        assert_eq!(ops[row_start + len - 1], LineOp::ClearBits(OE));
        for op in &ops[row_start + 1..row_start + len - 1] {
            let mask = match op {
                LineOp::SetBits(m) | LineOp::ClearBits(m) => *m,
            };
            assert_eq!(mask & OE, 0);
        }
    }
}

#[test]
fn stepping_gives_the_rendered_sequence() {
    let hub = panel();
    let frame = Frame::new(2, 2, 3, (0..12u8).collect()).unwrap();
    let mut scan = Scan::new(&frame);
    let mut stepped = Vec::new();
    while let Some(op) = scan.next_op(&hub.pins, &frame) {
        stepped.push(op);
    }
    assert_eq!(scan.next_op(&hub.pins, &frame), None);
    assert_eq!(stepped, hub.render(&frame));
}

#[test]
fn frame_without_rows_only_blanks() {
    let hub = panel();
    let frame = Frame::new(4, 0, 8, Vec::new()).unwrap();
    assert_eq!(hub.render(&frame), vec![LineOp::SetBits(OE)]);
    let frame = Frame::new(0, 2, 2, Vec::new()).unwrap();
    assert_eq!(hub.render(&frame), vec![LineOp::SetBits(OE)]);
}

#[test]
fn frame_size_must_match() {
    assert!(Frame::new(2, 2, 2, vec![0; 7]).is_none());
    assert!(Frame::new(2, 2, 2, vec![0; 9]).is_none());
    assert!(Frame::new(65, 1, 1, vec![0; 65]).is_none());
    assert!(Frame::new(usize::MAX, usize::MAX, 2, Vec::new()).is_none());
    let frame = Frame::new(2, 3, 4, vec![7; 24]).unwrap();
    assert_eq!((frame.depth(), frame.rows(), frame.cols()), (2, 3, 4));
}

#[test]
fn reserved_bits_do_not_change_writes() {
    let hub = panel();
    let plain: Vec<u8> = (0..16u8).map(|i| i.wrapping_mul(37) & 0xDB).collect();
    let noisy: Vec<u8> = plain.iter().map(|b| b | 0x24).collect();
    let a = hub.render(&Frame::new(2, 2, 4, plain).unwrap());
    let b = hub.render(&Frame::new(2, 2, 4, noisy).unwrap());
    assert_eq!(a, b);
}
