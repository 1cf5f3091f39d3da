//! The scanline renderer. A frame is shown as an exact sequence of port
//! writes ([`frame_ops`]); [`Scan`] hands them out one at a time, so the
//! caller can issue each write as it comes without buffering, and
//! [`Hub75::render`] collects the whole sequence.
//!
//! Bitplanes are shown with binary coded modulation: the plane of bit `n` is
//! scanned `2^n` times. One scan visits every multiplex row in ascending
//! order and, per row: blanks the output, shifts in one byte per column
//! (colour lines plus one clock pulse), pulses the latch (set, then clear),
//! drives the row address, and only then unblanks, so the output stays off
//! while the row is shifted, latched and addressed. After the last scan the
//! output is left blanked.
use crate::codec::{lower_of, upper_of, CHANNEL_BITS};
use crate::frame::{Frame, FrameView};
use crate::pins::{addr_mask_of, bit, line_at, pin_of, rgb_mask_of, rule_holds, valid_wiring, Line, Pins, Wiring};
use vstd::arithmetic::power::lemma_pow0;
use vstd::arithmetic::power2::{lemma_pow2, lemma_pow2_pos, lemma_pow2_unfold, pow2};
use vstd::bits::{lemma_u64_pow2_no_overflow, lemma_u64_shl_is_mul};
use vstd::prelude::*;

verus! {

/// One write to the output port: drive high, or drive low, every line whose
/// bit is set in the mask. Lines outside the mask keep their level.
#[derive(Clone, Copy, Debug, PartialEq, Eq, Structural)]
pub enum LineOp {
    SetBits(u32),
    ClearBits(u32),
}

pub open spec fn on(lit: bool, n: u8) -> u32 {
    if lit {
        bit(n)
    } else {
        0
    }
}

/// The colour lines that are lit for the two pixels of `byte`.
pub open spec fn lit_bits(w: Wiring, byte: u8) -> u32 {
    let up = upper_of(byte);
    let lo = lower_of(byte);
    on(up.r, w.r1) | on(up.g, w.g1) | on(up.b, w.b1) | on(lo.r, w.r2) | on(lo.g, w.g2) | on(lo.b, w.b2)
}

/// The row-address lines that are high while multiplex row `row` is shown:
/// the binary value of `row` on lines A (lowest) to D.
pub open spec fn addr_bits(w: Wiring, row: int) -> u32 {
    ((row % 16) as u32) << w.a
}

/// Writes per row: blank, two per column, two for the latch, two for the
/// address, unblank.
pub open spec fn row_len(f: FrameView) -> int {
    2 * f.cols + 6int
}

/// Write `s` of the scan of row `row` of the bitplane stored at `plane`.
pub open spec fn row_op(w: Wiring, f: FrameView, plane: int, row: int, s: int) -> LineOp {
    if s == 0 {
        LineOp::SetBits(bit(w.oe))
    } else if s <= 2 * f.cols {
        let byte = f.byte(plane, row, (s - 1) / 2);
        if (s - 1) % 2 == 0 {
            LineOp::ClearBits((rgb_mask_of(w) & !lit_bits(w, byte)) | bit(w.clk))
        } else {
            LineOp::SetBits(lit_bits(w, byte) | bit(w.clk))
        }
    } else if s == 2 * f.cols + 1 {
        LineOp::SetBits(bit(w.lat))
    } else if s == 2 * f.cols + 2 {
        LineOp::ClearBits(bit(w.lat))
    } else if s == 2 * f.cols + 3 {
        LineOp::ClearBits(addr_mask_of(w) & !addr_bits(w, row))
    } else if s == 2 * f.cols + 4 {
        LineOp::SetBits(addr_bits(w, row))
    } else {
        LineOp::ClearBits(bit(w.oe))
    }
}

/// The writes that show row `row` of the bitplane stored at `plane`.
pub open spec fn row_ops(w: Wiring, f: FrameView, plane: int, row: int) -> Seq<LineOp> {
    Seq::new(row_len(f) as nat, |s: int| row_op(w, f, plane, row, s))
}

/// The writes for rows `row..rows` of the bitplane stored at `plane`.
pub open spec fn rows_from(w: Wiring, f: FrameView, plane: int, row: int) -> Seq<LineOp>
    decreases f.rows - row,
{
    if row < 0 || row >= f.rows {
        Seq::empty()
    } else {
        row_ops(w, f, plane, row) + rows_from(w, f, plane, row + 1)
    }
}

/// One scan pass over the bitplane stored at `plane`.
pub open spec fn pass_ops(w: Wiring, f: FrameView, plane: int) -> Seq<LineOp> {
    rows_from(w, f, plane, 0)
}

/// `s` repeated `n` times.
pub open spec fn repeat(s: Seq<LineOp>, n: nat) -> Seq<LineOp>
    decreases n,
{
    if n == 0 {
        Seq::empty()
    } else {
        s + repeat(s, (n - 1) as nat)
    }
}

/// The significance of the bitplane stored at `plane`: storage is most
/// significant first.
pub open spec fn bit_of_plane(f: FrameView, plane: int) -> nat {
    (f.depth - 1 - plane) as nat
}

/// How many passes the bitplane stored at `plane` gets.
pub open spec fn passes(f: FrameView, plane: int) -> nat {
    pow2(bit_of_plane(f, plane))
}

/// All passes over the bitplanes stored at `plane..depth`.
pub open spec fn planes_from(w: Wiring, f: FrameView, plane: int) -> Seq<LineOp>
    decreases f.depth - plane,
{
    if plane < 0 || plane >= f.depth {
        Seq::empty()
    } else {
        repeat(pass_ops(w, f, plane), passes(f, plane)) + planes_from(w, f, plane + 1)
    }
}

/// Every write that shows frame `f` once, ending with the output blanked.
pub open spec fn frame_ops(w: Wiring, f: FrameView) -> Seq<LineOp> {
    planes_from(w, f, 0) + seq![LineOp::SetBits(bit(w.oe))]
}

/// The row length fits the machine's index type.
pub open spec fn fits(f: FrameView) -> bool {
    2 * f.cols + 6 <= usize::MAX
}

/// A position in the write sequence of a frame.
pub struct Scan {
    plane: usize,
    pass: u64,
    row: usize,
    step: usize,
    finished: bool,
}

impl Scan {
    /// The position is one that the sequence of `f` has.
    pub closed spec fn wf(self, f: FrameView) -> bool {
        ||| self.finished
        ||| self.plane == f.depth
        ||| {
            &&& self.plane < f.depth
            &&& self.pass < passes(f, self.plane as int)
            &&& self.row < f.rows
            &&& self.step < row_len(f)
        }
    }

    /// The writes still to come.
    pub closed spec fn remaining(self, w: Wiring, f: FrameView) -> Seq<LineOp> {
        if self.finished {
            Seq::empty()
        } else if self.plane >= f.depth {
            seq![LineOp::SetBits(bit(w.oe))]
        } else {
            rest(w, f, self.plane as int, self.pass as int, self.row as int, self.step as int)
        }
    }
}

/// The writes from write `step` of row `row` of pass `pass` over the plane
/// stored at `plane` to the end of the frame.
pub open spec fn rest(w: Wiring, f: FrameView, plane: int, pass: int, row: int, step: int) -> Seq<LineOp> {
    row_ops(w, f, plane, row).subrange(step, row_len(f)) + rows_from(w, f, plane, row + 1) + repeat(
        pass_ops(w, f, plane),
        (passes(f, plane) - pass - 1) as nat,
    ) + planes_from(w, f, plane + 1) + seq![LineOp::SetBits(bit(w.oe))]
}

proof fn lemma_lit_shifts(byte: u8, r1: u32, r2: u32)
    by (bit_vector)
    requires
        r1 <= 28,
        r2 <= 28,
    ensures
        (if r1 >= 4 {
            ((byte & 0xD0) as u32) << ((r1 - 4) as u32)
        } else {
            ((byte & 0xD0) as u32) >> ((4 - r1) as u32)
        }) | (((byte & 0x0B) as u32) << r2) == (if byte & 0x10 != 0 {
            1u32 << r1
        } else {
            0u32
        }) | (if byte & 0x40 != 0 {
            1u32 << ((r1 + 2) as u32)
        } else {
            0u32
        }) | (if byte & 0x80 != 0 {
            1u32 << ((r1 + 3) as u32)
        } else {
            0u32
        }) | (if byte & 0x01 != 0 {
            1u32 << r2
        } else {
            0u32
        }) | (if byte & 0x02 != 0 {
            1u32 << ((r2 + 1) as u32)
        } else {
            0u32
        }) | (if byte & 0x08 != 0 {
            1u32 << ((r2 + 3) as u32)
        } else {
            0u32
        }),
{
}

/// Facts of a valid wiring that the renderer's arithmetic needs.
proof fn lemma_wiring_facts(w: Wiring)
    requires
        valid_wiring(w),
    ensures
        w.r1 <= 28 && w.g1 == w.r1 + 2 && w.b1 == w.r1 + 3,
        w.r2 <= 28 && w.g2 == w.r2 + 1 && w.b2 == w.r2 + 3,
        w.a <= 28,
        w.oe < 32 && w.clk < 32 && w.lat < 32,
        w.b == w.a + 1 && w.c == w.a + 2 && w.d == w.a + 3,
        w.lat != w.a && w.lat != w.b && w.lat != w.c && w.lat != w.d,
        w.lat != w.clk && w.lat != w.oe,
{
    assert(line_at(6) == Line::A && line_at(7) == Line::B && line_at(8) == Line::C && line_at(9) == Line::D
        && line_at(10) == Line::Clk && line_at(11) == Line::Lat && line_at(12) == Line::Oe);
    assert(rule_holds(w, 0) && rule_holds(w, 1) && rule_holds(w, 2) && rule_holds(w, 3) && rule_holds(w, 4)
        && rule_holds(w, 5) && rule_holds(w, 6));
    assert(pin_of(w, Line::B1) < 32 && pin_of(w, Line::B2) < 32 && pin_of(w, Line::D) < 32 && pin_of(w, Line::Oe)
        < 32 && pin_of(w, Line::Clk) < 32 && pin_of(w, Line::Lat) < 32);
}

/// The colour lines to light for `byte`, moved onto the port with shifts;
/// the wiring's fixed offsets make this agree with [`lit_bits`].
fn lit_bits_of(w: &Wiring, byte: u8) -> (r: u32)
    requires
        valid_wiring(*w),
    ensures
        r == lit_bits(*w, byte),
{
    proof {
        lemma_wiring_facts(*w);
        lemma_lit_shifts(byte, w.r1 as u32, w.r2 as u32);
        crate::pins::lemma_shift_width(w.r1);
        crate::pins::lemma_shift_width(w.g1);
        crate::pins::lemma_shift_width(w.b1);
        crate::pins::lemma_shift_width(w.r2);
        crate::pins::lemma_shift_width(w.g2);
        crate::pins::lemma_shift_width(w.b2);
    }
    let upper_bits = (byte & 0xD0) as u32;
    let upper = if w.r1 >= 4 {
        upper_bits << (w.r1 - 4)
    } else {
        upper_bits >> (4 - w.r1)
    };
    let lower = ((byte & 0x0B) as u32) << w.r2;
    upper | lower
}

/// How many passes the bitplane stored at `plane` gets.
fn passes_of(frame: &Frame, plane: usize) -> (r: u64)
    requires
        frame@.wf(),
        plane < frame@.depth,
    ensures
        r == passes(frame@, plane as int),
{
    let n = (frame.depth() - 1 - plane) as u64;
    proof {
        lemma_u64_pow2_no_overflow(n as nat);
        lemma_u64_shl_is_mul(1, n);
    }
    1u64 << n
}

proof fn lemma_repeat_empty(n: nat)
    ensures
        repeat(Seq::empty(), n) == Seq::<LineOp>::empty(),
    decreases n,
{
    if n > 0 {
        lemma_repeat_empty((n - 1) as nat);
        assert(Seq::<LineOp>::empty() + Seq::empty() =~= Seq::empty());
    }
}

proof fn lemma_no_rows(w: Wiring, f: FrameView, plane: int)
    requires
        f.rows == 0,
        0 <= plane <= f.depth,
    ensures
        planes_from(w, f, plane) == Seq::<LineOp>::empty(),
    decreases f.depth - plane,
{
    if plane < f.depth {
        lemma_no_rows(w, f, plane + 1);
        lemma_repeat_empty(passes(f, plane));
        assert(Seq::<LineOp>::empty() + Seq::empty() =~= Seq::empty());
    }
}

/// The first pass over the plane stored at `plane` begins with its first
/// row, and the plane's passes begin with a whole pass.
proof fn lemma_plane_start(w: Wiring, f: FrameView, plane: int)
    requires
        0 <= plane < f.depth,
        f.rows > 0,
    ensures
        planes_from(w, f, plane) == row_ops(w, f, plane, 0).subrange(0, row_len(f)) + rows_from(w, f, plane, 1)
            + repeat(pass_ops(w, f, plane), (passes(f, plane) - 1) as nat) + planes_from(w, f, plane + 1),
{
    lemma_pow2_pos(bit_of_plane(f, plane));
    let r0 = row_ops(w, f, plane, 0);
    assert(r0.subrange(0, row_len(f)) =~= r0);
    let rest = repeat(pass_ops(w, f, plane), (passes(f, plane) - 1) as nat);
    assert(planes_from(w, f, plane) =~= r0 + rows_from(w, f, plane, 1) + rest + planes_from(w, f, plane + 1));
}

impl Scan {
    /// The position before the first write of a frame.
    pub fn new(frame: &Frame) -> (s: Scan)
        requires
            frame@.wf(),
        ensures
            s.wf(frame@),
            forall|w: Wiring| #[trigger] s.remaining(w, frame@) == frame_ops(w, frame@),
    {
        if frame.depth() == 0 || frame.rows() == 0 {
            let s = Scan { plane: frame.depth(), pass: 0, row: 0, step: 0, finished: false };
            assert forall|w: Wiring| #[trigger] s.remaining(w, frame@) == frame_ops(w, frame@) by {
                if frame@.rows == 0 {
                    lemma_no_rows(w, frame@, 0);
                }
                assert(Seq::<LineOp>::empty() + seq![LineOp::SetBits(bit(w.oe))] =~= seq![LineOp::SetBits(bit(w.oe))]);
            }
            s
        } else {
            let s = Scan { plane: 0, pass: 0, row: 0, step: 0, finished: false };
            proof {
                lemma_pow2_pos(bit_of_plane(frame@, 0));
            }
            assert forall|w: Wiring| #[trigger] s.remaining(w, frame@) == frame_ops(w, frame@) by {
                lemma_plane_start(w, frame@, 0);
            }
            s
        }
    }

    /// The write at this position.
    fn op(&self, pins: &Pins, frame: &Frame) -> (r: LineOp)
        requires
            pins.wf(),
            frame@.wf(),
            fits(frame@),
            self.plane < frame@.depth,
            self.row < frame@.rows,
            self.step < row_len(frame@),
        ensures
            r == row_op(pins.wiring(), frame@, self.plane as int, self.row as int, self.step as int),
    {
        let w = pins.lines();
        proof {
            pins.lemma_valid();
            lemma_wiring_facts(w);
        }
        let cols = frame.cols();
        let s = self.step;
        if s == 0 {
            LineOp::SetBits(1u32 << w.oe)
        } else if s <= 2 * cols {
            let byte = frame.byte(self.plane, self.row, (s - 1) / 2);
            let lit = lit_bits_of(&w, byte);
            if (s - 1) % 2 == 0 {
                LineOp::ClearBits((pins.rgb_mask() & !lit) | (1u32 << w.clk))
            } else {
                LineOp::SetBits(lit | (1u32 << w.clk))
            }
        } else if s == 2 * cols + 1 {
            LineOp::SetBits(1u32 << w.lat)
        } else if s == 2 * cols + 2 {
            LineOp::ClearBits(1u32 << w.lat)
        } else if s == 2 * cols + 3 {
            LineOp::ClearBits(pins.addr_mask() & !(((self.row % 16) as u32) << w.a))
        } else if s == 2 * cols + 4 {
            LineOp::SetBits(((self.row % 16) as u32) << w.a)
        } else {
            LineOp::ClearBits(1u32 << w.oe)
        }
    }
}

proof fn lemma_row_step(w: Wiring, f: FrameView, plane: int, row: int, s: int)
    requires
        0 <= s < row_len(f),
    ensures
        row_ops(w, f, plane, row).subrange(s, row_len(f)) == seq![row_op(w, f, plane, row, s)] + row_ops(
            w,
            f,
            plane,
            row,
        ).subrange(s + 1, row_len(f)),
{
    let r = row_ops(w, f, plane, row);
    assert(r.subrange(s, row_len(f)) =~= seq![row_op(w, f, plane, row, s)] + r.subrange(s + 1, row_len(f)));
}

/// The writes of the rest of a row after its last one.
proof fn lemma_row_end(w: Wiring, f: FrameView, plane: int, pass: int, row: int, step: int)
    requires
        step + 1 == row_len(f),
    ensures
        rest(w, f, plane, pass, row, step) == seq![row_op(w, f, plane, row, step)] + (rows_from(w, f, plane, row + 1)
            + repeat(pass_ops(w, f, plane), (passes(f, plane) - pass - 1) as nat) + planes_from(w, f, plane + 1)
            + seq![LineOp::SetBits(bit(w.oe))]),
{
    lemma_row_step(w, f, plane, row, step);
    assert(row_ops(w, f, plane, row).subrange(step + 1, row_len(f)) =~= Seq::empty());
    assert(rest(w, f, plane, pass, row, step) =~= seq![row_op(w, f, plane, row, step)] + (rows_from(w, f, plane, row + 1)
        + repeat(pass_ops(w, f, plane), (passes(f, plane) - pass - 1) as nat) + planes_from(w, f, plane + 1)
        + seq![LineOp::SetBits(bit(w.oe))]));
}

proof fn lemma_next_in_row(w: Wiring, f: FrameView, plane: int, pass: int, row: int, step: int)
    requires
        0 <= step,
        step + 1 < row_len(f),
    ensures
        rest(w, f, plane, pass, row, step) == seq![row_op(w, f, plane, row, step)] + rest(w, f, plane, pass, row, step + 1),
{
    lemma_row_step(w, f, plane, row, step);
    assert(rest(w, f, plane, pass, row, step) =~= seq![row_op(w, f, plane, row, step)] + rest(w, f, plane, pass, row, step + 1));
}

proof fn lemma_next_row(w: Wiring, f: FrameView, plane: int, pass: int, row: int, step: int)
    requires
        0 <= row,
        row + 1 < f.rows,
        step + 1 == row_len(f),
    ensures
        rest(w, f, plane, pass, row, step) == seq![row_op(w, f, plane, row, step)] + rest(w, f, plane, pass, row + 1, 0),
{
    lemma_row_end(w, f, plane, pass, row, step);
    let a = row_ops(w, f, plane, row + 1);
    assert(a.subrange(0, row_len(f)) =~= a);
    assert(rows_from(w, f, plane, row + 1) == a + rows_from(w, f, plane, row + 2));
    assert(rest(w, f, plane, pass, row, step) =~= seq![row_op(w, f, plane, row, step)] + rest(w, f, plane, pass, row + 1, 0));
}

proof fn lemma_next_pass(w: Wiring, f: FrameView, plane: int, pass: int, row: int, step: int)
    requires
        0 <= pass,
        pass + 1 < passes(f, plane),
        0 <= row,
        row + 1 == f.rows,
        step + 1 == row_len(f),
    ensures
        rest(w, f, plane, pass, row, step) == seq![row_op(w, f, plane, row, step)] + rest(w, f, plane, pass + 1, 0, 0),
{
    assert(pass_ops(w, f, plane) == row_ops(w, f, plane, 0) + rows_from(w, f, plane, 1));
    lemma_row_end(w, f, plane, pass, row, step);
    let a = row_ops(w, f, plane, 0);
    let b = rows_from(w, f, plane, 1);
    let later = repeat(pass_ops(w, f, plane), (passes(f, plane) - pass - 1) as nat);
    let rest_passes = repeat(pass_ops(w, f, plane), (passes(f, plane) - pass - 2) as nat);
    assert(rows_from(w, f, plane, row + 1) =~= Seq::empty());
    assert(a.subrange(0, row_len(f)) =~= a);
    assert(later == pass_ops(w, f, plane) + rest_passes);
    assert(later =~= a + b + rest_passes);
    assert(rest(w, f, plane, pass, row, step) =~= seq![row_op(w, f, plane, row, step)] + rest(w, f, plane, pass + 1, 0, 0));
}

proof fn lemma_next_plane(w: Wiring, f: FrameView, plane: int, pass: int, row: int, step: int)
    requires
        0 <= plane < f.depth,
        pass + 1 == passes(f, plane),
        0 <= row,
        row + 1 == f.rows,
        step + 1 == row_len(f),
    ensures
        plane + 1 < f.depth ==> rest(w, f, plane, pass, row, step) == seq![row_op(w, f, plane, row, step)] + rest(
            w,
            f,
            plane + 1,
            0,
            0,
            0,
        ),
        plane + 1 == f.depth ==> rest(w, f, plane, pass, row, step) == seq![row_op(w, f, plane, row, step)]
            + seq![LineOp::SetBits(bit(w.oe))],
{
    lemma_row_end(w, f, plane, pass, row, step);
    assert(rows_from(w, f, plane, row + 1) =~= Seq::empty());
    assert(repeat(pass_ops(w, f, plane), (passes(f, plane) - pass - 1) as nat) =~= Seq::empty());
    let tail = planes_from(w, f, plane + 1) + seq![LineOp::SetBits(bit(w.oe))];
    assert(rest(w, f, plane, pass, row, step) =~= seq![row_op(w, f, plane, row, step)] + tail);
    if plane + 1 < f.depth {
        lemma_plane_start(w, f, plane + 1);
        assert(tail =~= rest(w, f, plane + 1, 0, 0, 0));
    } else {
        assert(tail =~= seq![LineOp::SetBits(bit(w.oe))]);
    }
}

impl Scan {
    /// Hands out the next write of the frame and moves past it, or returns
    /// `None` once every write has been handed out.
    pub fn next_op(&mut self, pins: &Pins, frame: &Frame) -> (r: Option<LineOp>)
        requires
            pins.wf(),
            frame@.wf(),
            fits(frame@),
            old(self).wf(frame@),
        ensures
            final(self).wf(frame@),
            r is None <==> old(self).remaining(pins.wiring(), frame@).len() == 0,
            r is None ==> final(self).remaining(pins.wiring(), frame@).len() == 0,
            r is Some ==> old(self).remaining(pins.wiring(), frame@) == seq![r->Some_0] + final(self).remaining(
                pins.wiring(),
                frame@,
            ),
    {
        let ghost w = pins.wiring();
        let ghost f = frame@;
        if self.finished {
            return None;
        }
        if self.plane >= frame.depth() {
            self.finished = true;
            proof {
                pins.lemma_valid();
                lemma_wiring_facts(w);
                assert(seq![LineOp::SetBits(bit(w.oe))] =~= seq![LineOp::SetBits(bit(w.oe))] + Seq::empty());
            }
            return Some(LineOp::SetBits(1u32 << pins.lines().oe));
        }
        let op = self.op(pins, frame);
        let ghost plane = self.plane as int;
        let ghost row = self.row as int;
        let ghost step = self.step as int;
        let ghost pass = self.pass as int;
        if self.step + 1 < 2 * frame.cols() + 6 {
            self.step = self.step + 1;
            proof {
                lemma_next_in_row(w, f, plane, pass, row, step);
            }
        } else {
            self.step = 0;
            let rows = frame.rows();
            if self.row + 1 < rows {
                self.row = self.row + 1;
                proof {
                    lemma_next_row(w, f, plane, pass, row, step);
                }
            } else {
                self.row = 0;
                let count = passes_of(frame, self.plane);
                if self.pass + 1 < count {
                    self.pass = self.pass + 1;
                    proof {
                        lemma_next_pass(w, f, plane, pass, row, step);
                    }
                } else {
                    self.pass = 0;
                    self.plane = self.plane + 1;
                    proof {
                        lemma_next_plane(w, f, plane, pass, row, step);
                        if plane + 1 < f.depth {
                            lemma_pow2_pos(bit_of_plane(f, plane + 1));
                        }
                    }
                }
            }
        }
        Some(op)
    }
}

/// A panel driven through a validated wiring.
pub struct Hub75 {
    pub pins: Pins,
}

impl Hub75 {
    /// Every port write that shows `frame` once, in order: the frame's
    /// bitplanes from most to least significant, the plane of bit `n`
    /// scanned `2^n` times, each row blanked from its first column write
    /// until after its latch pulse and address writes, and the output left
    /// blanked at the end.
    ///
    /// This collects the whole sequence into a vector, for inspection and
    /// simulation; it allocates and is not meant for the timed display path.
    /// To drive a panel, step a [`Scan`] and issue each write as it comes.
    pub fn render(&self, frame: &Frame) -> (r: Vec<LineOp>)
        requires
            self.pins.wf(),
            frame@.wf(),
            fits(frame@),
        ensures
            r@ == frame_ops(self.pins.wiring(), frame@),
    {
        let ghost w = self.pins.wiring();
        let ghost f = frame@;
        let mut scan = Scan::new(frame);
        let mut ops: Vec<LineOp> = Vec::new();
        assert(ops@ + scan.remaining(w, f) =~= frame_ops(w, f));
        loop
            invariant
                self.pins.wf(),
                w == self.pins.wiring(),
                f == frame@,
                f.wf(),
                fits(f),
                scan.wf(f),
                ops@ + scan.remaining(w, f) == frame_ops(w, f),
            ensures
                ops@ == frame_ops(w, f),
            decreases scan.remaining(w, f).len(),
        {
            let ghost before = scan.remaining(w, f);
            let ghost done = ops@;
            let next = scan.next_op(&self.pins, frame);
            match next {
                Some(op) => {
                    ops.push(op);
                    assert(ops@ + scan.remaining(w, f) =~= done + (seq![op] + scan.remaining(w, f)));
                },
                None => {
                    assert(ops@ =~= ops@ + before);
                    break ;
                },
            }
        }
        ops
    }
}

/// How many times `op` occurs in `s`.
pub open spec fn count(s: Seq<LineOp>, op: LineOp) -> nat
    decreases s.len(),
{
    if s.len() == 0 {
        0
    } else {
        count(s.drop_last(), op) + if s.last() == op {
            1nat
        } else {
            0nat
        }
    }
}

/// The write that opens the latch; each row shown latches exactly once.
pub open spec fn latch_pulse(w: Wiring) -> LineOp {
    LineOp::SetBits(bit(w.lat))
}

proof fn lemma_count_concat(a: Seq<LineOp>, b: Seq<LineOp>, op: LineOp)
    ensures
        count(a + b, op) == count(a, op) + count(b, op),
    decreases b.len(),
{
    if b.len() == 0 {
        assert(a + b =~= a);
    } else {
        lemma_count_concat(a, b.drop_last(), op);
        assert((a + b).drop_last() =~= a + b.drop_last());
    }
}

proof fn lemma_distinct_bits(x: u32, y: u32)
    by (bit_vector)
    requires
        x < 32,
        y < 32,
        x != y,
    ensures
        (1u32 << x) != (1u32 << y),
{
}

proof fn lemma_clocked_not_bit(v: u32, clk: u32, lat: u32)
    by (bit_vector)
    requires
        clk < 32,
        lat < 32,
        clk != lat,
    ensures
        (v | (1u32 << clk)) != (1u32 << lat),
{
}

proof fn lemma_addr_not_bit(v: u32, a: u32, lat: u32)
    by (bit_vector)
    requires
        v < 16,
        a <= 28,
        lat < 32,
        lat != a && lat != a + 1 && lat != a + 2 && lat != a + 3,
    ensures
        (v << a) != (1u32 << lat),
{
}

proof fn lemma_shift_by_byte(v: u32, n: u8)
    by (bit_vector)
    requires
        n < 32,
    ensures
        v << n == v << (n as u32),
{
}

/// Only write `2 * cols + 1` of a row opens the latch.
proof fn lemma_row_op_latch(w: Wiring, f: FrameView, plane: int, row: int, s: int)
    requires
        valid_wiring(w),
        0 <= s < row_len(f),
    ensures
        (row_op(w, f, plane, row, s) == latch_pulse(w)) <==> s == 2 * f.cols + 1,
{
    lemma_wiring_facts(w);
    crate::pins::lemma_shift_width(w.lat);
    crate::pins::lemma_shift_width(w.oe);
    crate::pins::lemma_shift_width(w.clk);
    if s == 0 {
        lemma_distinct_bits(w.oe as u32, w.lat as u32);
    } else if s <= 2 * f.cols {
        let byte = f.byte(plane, row, (s - 1) / 2);
        lemma_clocked_not_bit(lit_bits(w, byte), w.clk as u32, w.lat as u32);
    } else if s == 2 * f.cols + 4 {
        let v = (row % 16) as u32;
        lemma_shift_by_byte(v, w.a);
        lemma_addr_not_bit(v, w.a as u32, w.lat as u32);
    }
}

proof fn lemma_row_prefix_latches(w: Wiring, f: FrameView, plane: int, row: int, j: int)
    requires
        valid_wiring(w),
        0 <= j <= row_len(f),
    ensures
        count(row_ops(w, f, plane, row).take(j), latch_pulse(w)) == if j > 2 * f.cols + 1 {
            1nat
        } else {
            0nat
        },
    decreases j,
{
    let r = row_ops(w, f, plane, row);
    if j > 0 {
        lemma_row_prefix_latches(w, f, plane, row, j - 1);
        assert(r.take(j).drop_last() =~= r.take(j - 1));
        lemma_row_op_latch(w, f, plane, row, j - 1);
    }
}

proof fn lemma_rows_latches(w: Wiring, f: FrameView, plane: int, row: int)
    requires
        valid_wiring(w),
        0 <= row <= f.rows,
    ensures
        count(rows_from(w, f, plane, row), latch_pulse(w)) == f.rows - row,
    decreases f.rows - row,
{
    if row < f.rows {
        lemma_rows_latches(w, f, plane, row + 1);
        let r = row_ops(w, f, plane, row);
        lemma_row_prefix_latches(w, f, plane, row, row_len(f));
        assert(r.take(row_len(f)) =~= r);
        lemma_count_concat(r, rows_from(w, f, plane, row + 1), latch_pulse(w));
    }
}

proof fn lemma_repeat_count(s: Seq<LineOp>, n: nat, op: LineOp)
    ensures
        count(repeat(s, n), op) == n as int * count(s, op) as int,
    decreases n,
{
    if n > 0 {
        let m = (n - 1) as nat;
        lemma_repeat_count(s, m, op);
        lemma_count_concat(s, repeat(s, m), op);
        assert(repeat(s, n) == s + repeat(s, m));
        let c = count(s, op);
        assert(n * c == c + m * c) by (nonlinear_arith)
            requires
                m == n - 1,
        ;
        assert(count(repeat(s, n), op) == c + m * c);
    } else {
        assert(count(repeat(s, n), op) == 0);
    }
}

proof fn lemma_planes_latches(w: Wiring, f: FrameView, plane: int)
    requires
        valid_wiring(w),
        0 <= plane <= f.depth,
    ensures
        count(planes_from(w, f, plane), latch_pulse(w)) == (pow2((f.depth - plane) as nat) - 1) * f.rows,
    decreases f.depth - plane,
{
    if plane < f.depth {
        lemma_planes_latches(w, f, plane + 1);
        lemma_rows_latches(w, f, plane, 0);
        lemma_repeat_count(pass_ops(w, f, plane), passes(f, plane), latch_pulse(w));
        lemma_count_concat(
            repeat(pass_ops(w, f, plane), passes(f, plane)),
            planes_from(w, f, plane + 1),
            latch_pulse(w),
        );
        lemma_pow2_unfold((f.depth - plane) as nat);
        let p = pow2(bit_of_plane(f, plane));
        let rows = f.rows as int;
        assert(p * rows + (p - 1) * rows == (2 * p - 1) * rows) by (nonlinear_arith);
        assert(pow2((f.depth - plane) as nat) == 2 * p);
        assert(planes_from(w, f, plane) == repeat(pass_ops(w, f, plane), passes(f, plane)) + planes_from(w, f, plane + 1));
        assert(((f.depth - (plane + 1)) as nat) == bit_of_plane(f, plane));
        assert(count(planes_from(w, f, plane), latch_pulse(w)) == p * rows + (p - 1) * rows);
        let q = pow2((f.depth - plane) as nat) as int;
        assert((q - 1) * rows == (2 * p - 1) * rows) by (nonlinear_arith)
            requires
                q == 2 * p,
        ;
    } else {
        lemma_pow2(0);
        lemma_pow0(2);
        assert(count(planes_from(w, f, plane), latch_pulse(w)) == 0);
        let q = pow2((f.depth - plane) as nat) as int;
        let rows = f.rows as int;
        assert((q - 1) * rows == 0) by (nonlinear_arith)
            requires
                q == 1,
        ;
    }
}

/// Binary coded modulation: within the writes that show a frame, the
/// bitplane of bit `n` takes exactly `2^n` consecutive scan passes, each
/// pass latches every row once, so that plane emits `2^n * rows` latch
/// pulses, and the frame as a whole `(2^depth - 1) * rows`.
pub proof fn lemma_bcm_passes(w: Wiring, f: FrameView)
    requires
        valid_wiring(w),
        f.wf(),
    ensures
        forall|plane: int|
            0 <= plane < f.depth ==> #[trigger] planes_from(w, f, plane) == repeat(
                pass_ops(w, f, plane),
                pow2(bit_of_plane(f, plane)),
            ) + planes_from(w, f, plane + 1),
        forall|plane: int| 0 <= plane < f.depth ==> count(#[trigger] pass_ops(w, f, plane), latch_pulse(w)) == f.rows,
        forall|plane: int|
            0 <= plane < f.depth ==> count(
                #[trigger] repeat(pass_ops(w, f, plane), pow2(bit_of_plane(f, plane))),
                latch_pulse(w),
            ) == pow2(bit_of_plane(f, plane)) as int * f.rows as int,
        count(frame_ops(w, f), latch_pulse(w)) == (pow2(f.depth) - 1) * f.rows,
{
    assert forall|plane: int| 0 <= plane < f.depth implies count(
        #[trigger] pass_ops(w, f, plane),
        latch_pulse(w),
    ) == f.rows by {
        lemma_rows_latches(w, f, plane, 0);
    }
    assert forall|plane: int| 0 <= plane < f.depth implies count(
        #[trigger] repeat(pass_ops(w, f, plane), pow2(bit_of_plane(f, plane))),
        latch_pulse(w),
    ) == pow2(bit_of_plane(f, plane)) as int * f.rows as int by {
        lemma_rows_latches(w, f, plane, 0);
        lemma_repeat_count(pass_ops(w, f, plane), pow2(bit_of_plane(f, plane)), latch_pulse(w));
    }
    lemma_planes_latches(w, f, 0);
    assert((f.depth - 0) as nat == f.depth);
    lemma_count_concat(planes_from(w, f, 0), seq![LineOp::SetBits(bit(w.oe))], latch_pulse(w));
    lemma_row_op_latch(w, f, 0, 0, 0);
    let blank = seq![LineOp::SetBits(bit(w.oe))];
    assert(blank.drop_last() =~= Seq::<LineOp>::empty());
    assert(row_op(w, f, 0, 0, 0) == LineOp::SetBits(bit(w.oe)));
    assert(count(Seq::<LineOp>::empty(), latch_pulse(w)) == 0);
    assert(blank.len() == 1 && blank.last() == LineOp::SetBits(bit(w.oe)));
    assert(count(blank, latch_pulse(w)) == 0);
}

proof fn lemma_channel_bits_decide(x: u8, y: u8)
    by (bit_vector)
    requires
        x & 0xDB == y & 0xDB,
    ensures
        (x & 0x10 != 0) == (y & 0x10 != 0),
        (x & 0x40 != 0) == (y & 0x40 != 0),
        (x & 0x80 != 0) == (y & 0x80 != 0),
        (x & 0x01 != 0) == (y & 0x01 != 0),
        (x & 0x02 != 0) == (y & 0x02 != 0),
        (x & 0x08 != 0) == (y & 0x08 != 0),
{
}

/// `f` and `g` have the same shape and differ at most in the reserved bits
/// of their bytes.
pub open spec fn same_but_reserved(f: FrameView, g: FrameView) -> bool {
    &&& f.depth == g.depth
    &&& f.rows == g.rows
    &&& f.cols == g.cols
    &&& f.bytes.len() == g.bytes.len()
    &&& forall|i: int| 0 <= i < f.bytes.len() ==> #[trigger] f.bytes[i] & CHANNEL_BITS == g.bytes[i] & CHANNEL_BITS
}

proof fn lemma_rows_ignore_reserved(w: Wiring, f: FrameView, g: FrameView, plane: int, row: int)
    requires
        f.wf(),
        same_but_reserved(f, g),
        0 <= plane < f.depth,
    ensures
        rows_from(w, f, plane, row) == rows_from(w, g, plane, row),
    decreases f.rows - row,
{
    if 0 <= row < f.rows {
        lemma_rows_ignore_reserved(w, f, g, plane, row + 1);
        assert forall|s: int| 0 <= s < row_len(f) implies row_op(w, f, plane, row, s) == row_op(
            w,
            g,
            plane,
            row,
            s,
        ) by {
            if 1 <= s <= 2 * f.cols {
                let c = (s - 1) / 2;
                crate::frame::lemma_index_bounds(f.depth as int, f.rows as int, f.cols as int, plane, row, c);
                lemma_channel_bits_decide(f.byte(plane, row, c), g.byte(plane, row, c));
            }
        }
        assert(row_ops(w, f, plane, row) =~= row_ops(w, g, plane, row));
    }
}

proof fn lemma_planes_ignore_reserved(w: Wiring, f: FrameView, g: FrameView, plane: int)
    requires
        f.wf(),
        same_but_reserved(f, g),
        0 <= plane,
    ensures
        planes_from(w, f, plane) == planes_from(w, g, plane),
    decreases f.depth - plane,
{
    if plane < f.depth {
        lemma_planes_ignore_reserved(w, f, g, plane + 1);
        lemma_rows_ignore_reserved(w, f, g, plane, 0);
    }
}

/// The reserved bits of frame bytes never reach the port: two frames that
/// differ only there are shown by the same writes.
pub proof fn lemma_reserved_bits_ignored(w: Wiring, f: FrameView, g: FrameView)
    requires
        f.wf(),
        same_but_reserved(f, g),
    ensures
        frame_ops(w, f) == frame_ops(w, g),
{
    lemma_planes_ignore_reserved(w, f, g, 0);
}

/// The lines that a write drives.
pub open spec fn mask_of(op: LineOp) -> u32 {
    match op {
        LineOp::SetBits(m) => m,
        LineOp::ClearBits(m) => m,
    }
}

/// Whether `op` drives port line `n`.
pub open spec fn touches(op: LineOp, n: u8) -> bool {
    mask_of(op) & bit(n) != 0
}

proof fn lemma_control_distinct(w: Wiring)
    requires
        valid_wiring(w),
    ensures
        w.oe != w.r1 && w.oe != w.g1 && w.oe != w.b1 && w.oe != w.r2 && w.oe != w.g2 && w.oe != w.b2,
        w.oe != w.a && w.oe != w.b && w.oe != w.c && w.oe != w.d && w.oe != w.clk && w.oe != w.lat,
        w.lat != w.r1 && w.lat != w.g1 && w.lat != w.b1 && w.lat != w.r2 && w.lat != w.g2 && w.lat != w.b2,
{
    assert(line_at(0) == Line::R1 && line_at(1) == Line::G1 && line_at(2) == Line::B1 && line_at(3) == Line::R2
        && line_at(4) == Line::G2 && line_at(5) == Line::B2 && line_at(6) == Line::A && line_at(7) == Line::B
        && line_at(8) == Line::C && line_at(9) == Line::D && line_at(10) == Line::Clk && line_at(11) == Line::Lat
        && line_at(12) == Line::Oe);
}

proof fn lemma_colour_writes_miss(
    x: u32,
    p1: u32,
    p2: u32,
    p3: u32,
    p4: u32,
    p5: u32,
    p6: u32,
    u1: bool,
    u2: bool,
    u3: bool,
    u4: bool,
    u5: bool,
    u6: bool,
    clk: u32,
)
    by (bit_vector)
    requires
        x < 32 && p1 < 32 && p2 < 32 && p3 < 32 && p4 < 32 && p5 < 32 && p6 < 32 && clk < 32,
        x != p1 && x != p2 && x != p3 && x != p4 && x != p5 && x != p6 && x != clk,
    ensures
        ({
            let rgb = (1u32 << p1) | (1u32 << p2) | (1u32 << p3) | (1u32 << p4) | (1u32 << p5) | (1u32 << p6);
            let lit = (if u1 { 1u32 << p1 } else { 0u32 }) | (if u2 { 1u32 << p2 } else { 0u32 }) | (if u3 {
                1u32 << p3
            } else {
                0u32
            }) | (if u4 { 1u32 << p4 } else { 0u32 }) | (if u5 { 1u32 << p5 } else { 0u32 }) | (if u6 {
                1u32 << p6
            } else {
                0u32
            });
            &&& ((rgb & !lit) | (1u32 << clk)) & (1u32 << x) == 0
            &&& (lit | (1u32 << clk)) & (1u32 << x) == 0
        }),
{
}

proof fn lemma_addr_writes_miss(x: u32, a: u32, v: u32)
    by (bit_vector)
    requires
        x < 32,
        a <= 28,
        v < 16,
        x != a && x != a + 1 && x != a + 2 && x != a + 3,
    ensures
        (((1u32 << a) | (1u32 << (a + 1) as u32) | (1u32 << (a + 2) as u32) | (1u32 << (a + 3) as u32)) & !(v << a))
            & (1u32 << x) == 0,
        (v << a) & (1u32 << x) == 0,
{
}

proof fn lemma_single_bits(x: u32, y: u32)
    by (bit_vector)
    requires
        x < 32,
        y < 32,
    ensures
        ((1u32 << x) & (1u32 << y) != 0) <==> x == y,
{
}

proof fn lemma_row_touches(w: Wiring, f: FrameView, plane: int, row: int, s: int, x: u8)
    requires
        valid_wiring(w),
        0 <= s < row_len(f),
        x == w.oe || x == w.lat,
    ensures
        touches(row_op(w, f, plane, row, s), x) <==> (s == 0 && x == w.oe) || (s == row_len(f) - 1 && x == w.oe)
            || ((s == 2 * f.cols + 1 || s == 2 * f.cols + 2) && x == w.lat),
{
    lemma_wiring_facts(w);
    lemma_control_distinct(w);
    crate::pins::lemma_shift_width(x);
    crate::pins::lemma_shift_width(w.oe);
    crate::pins::lemma_shift_width(w.lat);
    crate::pins::lemma_shift_width(w.clk);
    if s == 0 || s == row_len(f) - 1 {
        lemma_single_bits(w.oe as u32, x as u32);
    } else if s <= 2 * f.cols {
        crate::pins::lemma_shift_width(w.r1);
        crate::pins::lemma_shift_width(w.g1);
        crate::pins::lemma_shift_width(w.b1);
        crate::pins::lemma_shift_width(w.r2);
        crate::pins::lemma_shift_width(w.g2);
        crate::pins::lemma_shift_width(w.b2);
        let byte = f.byte(plane, row, (s - 1) / 2);
        let up = upper_of(byte);
        let lo = lower_of(byte);
        lemma_colour_writes_miss(
            x as u32,
            w.r1 as u32,
            w.g1 as u32,
            w.b1 as u32,
            w.r2 as u32,
            w.g2 as u32,
            w.b2 as u32,
            up.r,
            up.g,
            up.b,
            lo.r,
            lo.g,
            lo.b,
            w.clk as u32,
        );
    } else if s == 2 * f.cols + 1 || s == 2 * f.cols + 2 {
        lemma_single_bits(w.lat as u32, x as u32);
    } else {
        crate::pins::lemma_shift_width(w.a);
        crate::pins::lemma_shift_width(w.b);
        crate::pins::lemma_shift_width(w.c);
        crate::pins::lemma_shift_width(w.d);
        let v = (row % 16) as u32;
        lemma_shift_by_byte(v, w.a);
        lemma_addr_writes_miss(x as u32, w.a as u32, v);
    }
}

/// Within the writes of every row, the output-enable line is driven only by
/// the first write (blank) and the last (unblank), so the output stays off
/// while the row is shifted, latched and addressed; and the latch line is
/// driven only by the latch pulse, set and then cleared. The one write after
/// the last row blanks the output and leaves the latch alone.
pub proof fn lemma_row_control_lines(w: Wiring, f: FrameView, plane: int, row: int, s: int)
    requires
        valid_wiring(w),
        0 <= s < row_len(f),
    ensures
        touches(row_op(w, f, plane, row, s), w.oe) <==> (s == 0 || s == row_len(f) - 1),
        row_op(w, f, plane, row, 0) == LineOp::SetBits(bit(w.oe)),
        row_op(w, f, plane, row, row_len(f) - 1) == LineOp::ClearBits(bit(w.oe)),
        touches(row_op(w, f, plane, row, s), w.lat) <==> (s == 2 * f.cols + 1 || s == 2 * f.cols + 2),
        row_op(w, f, plane, row, 2 * f.cols + 1int) == LineOp::SetBits(bit(w.lat)),
        row_op(w, f, plane, row, 2 * f.cols + 2int) == LineOp::ClearBits(bit(w.lat)),
        touches(LineOp::SetBits(bit(w.oe)), w.oe) && !touches(LineOp::SetBits(bit(w.oe)), w.lat),
{
    lemma_control_distinct(w);
    lemma_row_touches(w, f, plane, row, s, w.oe);
    lemma_row_touches(w, f, plane, row, s, w.lat);
    lemma_row_touches(w, f, plane, row, 0, w.lat);
    lemma_row_touches(w, f, plane, row, 0, w.oe);
}

} // verus!
