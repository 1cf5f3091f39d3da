//! Validation of how the panel's control lines are wired to the output
//! port, and the bit masks derived from that wiring.
use vstd::prelude::*;

verus! {

/// The roles of the panel's thirteen control lines.
#[derive(Clone, Copy, Debug, PartialEq, Eq, Structural)]
pub enum Line {
    R1,
    G1,
    B1,
    R2,
    G2,
    B2,
    A,
    B,
    C,
    D,
    Clk,
    Lat,
    Oe,
}

/// The port line number of each role.
#[derive(Clone, Copy, Debug, PartialEq, Eq, Structural)]
pub struct Wiring {
    pub r1: u8,
    pub g1: u8,
    pub b1: u8,
    pub r2: u8,
    pub g2: u8,
    pub b2: u8,
    pub a: u8,
    pub b: u8,
    pub c: u8,
    pub d: u8,
    pub clk: u8,
    pub lat: u8,
    pub oe: u8,
}

/// Why a wiring was refused.
#[derive(Clone, Copy, Debug, PartialEq, Eq, Structural)]
pub enum PinError {
    /// `line` is wired to `pin`, which is not one of the port's lines 0..=31.
    OutOfRange { line: Line, pin: u8 },
    /// `line` must sit `expected`, a fixed offset from another line, but sits at `found`.
    Misplaced { line: Line, expected: u8, found: u8 },
    /// `first` and `second` are both wired to `pin`.
    Shared { first: Line, second: Line, pin: u8 },
}

/// Number of control lines.
pub const LINE_COUNT: usize = 13;
/// Number of lines of the output port.
pub const PORT_WIDTH: u8 = 32;
/// Number of fixed-offset placement rules.
pub const RULE_COUNT: usize = 7;

/// The lines in the order in which they are checked.
pub open spec fn line_at(i: int) -> Line {
    if i == 0 {
        Line::R1
    } else if i == 1 {
        Line::G1
    } else if i == 2 {
        Line::B1
    } else if i == 3 {
        Line::R2
    } else if i == 4 {
        Line::G2
    } else if i == 5 {
        Line::B2
    } else if i == 6 {
        Line::A
    } else if i == 7 {
        Line::B
    } else if i == 8 {
        Line::C
    } else if i == 9 {
        Line::D
    } else if i == 10 {
        Line::Clk
    } else if i == 11 {
        Line::Lat
    } else {
        Line::Oe
    }
}

pub open spec fn pin_of(w: Wiring, l: Line) -> u8 {
    match l {
        Line::R1 => w.r1,
        Line::G1 => w.g1,
        Line::B1 => w.b1,
        Line::R2 => w.r2,
        Line::G2 => w.g2,
        Line::B2 => w.b2,
        Line::A => w.a,
        Line::B => w.b,
        Line::C => w.c,
        Line::D => w.d,
        Line::Clk => w.clk,
        Line::Lat => w.lat,
        Line::Oe => w.oe,
    }
}

/// Placement rule `i`: line `.0` sits at line `.1` plus `.2`.
/// The address lines are contiguous and ascending; each colour triplet keeps
/// the spacing that lets a frame byte be moved onto the port with shifts.
pub open spec fn rule_at(i: int) -> (Line, Line, u8) {
    if i == 0 {
        (Line::B, Line::A, 1)
    } else if i == 1 {
        (Line::C, Line::B, 1)
    } else if i == 2 {
        (Line::D, Line::C, 1)
    } else if i == 3 {
        (Line::G1, Line::R1, 2)
    } else if i == 4 {
        (Line::B1, Line::G1, 1)
    } else if i == 5 {
        (Line::G2, Line::R2, 1)
    } else {
        (Line::B2, Line::G2, 2)
    }
}

/// Where `l` stands in [`line_at`].
pub open spec fn index_of(l: Line) -> int {
    match l {
        Line::R1 => 0,
        Line::G1 => 1,
        Line::B1 => 2,
        Line::R2 => 3,
        Line::G2 => 4,
        Line::B2 => 5,
        Line::A => 6,
        Line::B => 7,
        Line::C => 8,
        Line::D => 9,
        Line::Clk => 10,
        Line::Lat => 11,
        Line::Oe => 12,
    }
}

pub open spec fn in_range(w: Wiring) -> bool {
    forall|l: Line| #[trigger] pin_of(w, l) < PORT_WIDTH
}

pub open spec fn rule_holds(w: Wiring, i: int) -> bool {
    pin_of(w, rule_at(i).0) == pin_of(w, rule_at(i).1) + rule_at(i).2
}

pub open spec fn placed(w: Wiring) -> bool {
    forall|i: int| 0 <= i < RULE_COUNT ==> #[trigger] rule_holds(w, i)
}

pub open spec fn distinct(w: Wiring) -> bool {
    forall|i: int, j: int|
        0 <= i < j < LINE_COUNT ==> pin_of(w, #[trigger] line_at(i)) != pin_of(w, #[trigger] line_at(j))
}

/// A wiring that the renderer can drive.
pub open spec fn valid_wiring(w: Wiring) -> bool {
    in_range(w) && placed(w) && distinct(w)
}

/// The first line, from `i` on, that lies outside the port.
pub open spec fn range_fault_from(w: Wiring, i: int) -> Option<PinError>
    decreases LINE_COUNT - i,
{
    if i < 0 || i >= LINE_COUNT {
        None
    } else if pin_of(w, line_at(i)) >= PORT_WIDTH {
        Some(PinError::OutOfRange { line: line_at(i), pin: pin_of(w, line_at(i)) })
    } else {
        range_fault_from(w, i + 1)
    }
}

/// The first placement rule, from `i` on, that is broken.
pub open spec fn rule_fault_from(w: Wiring, i: int) -> Option<PinError>
    decreases RULE_COUNT - i,
{
    if i < 0 || i >= RULE_COUNT {
        None
    } else if !rule_holds(w, i) {
        Some(
            PinError::Misplaced {
                line: rule_at(i).0,
                expected: (pin_of(w, rule_at(i).1) + rule_at(i).2) as u8,
                found: pin_of(w, rule_at(i).0),
            },
        )
    } else {
        rule_fault_from(w, i + 1)
    }
}

/// The first pair `(i, j)`, in lexicographic order from `(i, j)` on, of lines
/// wired to the same pin.
pub open spec fn share_fault_from(w: Wiring, i: int, j: int) -> Option<PinError>
    decreases LINE_COUNT - i, LINE_COUNT + 1 - j,
{
    if i < 0 || i >= LINE_COUNT || j <= i || j > LINE_COUNT {
        None
    } else if j == LINE_COUNT {
        share_fault_from(w, i + 1, i + 2)
    } else if pin_of(w, line_at(i)) == pin_of(w, line_at(j)) {
        Some(PinError::Shared { first: line_at(i), second: line_at(j), pin: pin_of(w, line_at(i)) })
    } else {
        share_fault_from(w, i, j + 1)
    }
}

/// What validation reports for `w`: lines outside the port first, then broken
/// placement rules, then shared pins; `None` when `w` is accepted.
pub open spec fn fault_of(w: Wiring) -> Option<PinError> {
    match range_fault_from(w, 0) {
        Some(e) => Some(e),
        None => match rule_fault_from(w, 0) {
            Some(e) => Some(e),
            None => share_fault_from(w, 0, 1),
        },
    }
}

pub open spec fn bit(n: u8) -> u32 {
    1u32 << n
}

/// Every colour line.
pub open spec fn rgb_mask_of(w: Wiring) -> u32 {
    bit(w.r1) | bit(w.g1) | bit(w.b1) | bit(w.r2) | bit(w.g2) | bit(w.b2)
}

/// Every row-address line.
pub open spec fn addr_mask_of(w: Wiring) -> u32 {
    bit(w.a) | bit(w.b) | bit(w.c) | bit(w.d)
}

/// A validated wiring with its derived masks. It can only be obtained from
/// [`Pins::new`], so holding one means the wiring satisfies every rule.
pub struct Pins {
    wiring: Wiring,
    rgb_mask: u32,
    addr_mask: u32,
}

fn line_of(i: usize) -> (l: Line)
    requires
        i < LINE_COUNT,
    ensures
        l == line_at(i as int),
{
    match i {
        0 => Line::R1,
        1 => Line::G1,
        2 => Line::B1,
        3 => Line::R2,
        4 => Line::G2,
        5 => Line::B2,
        6 => Line::A,
        7 => Line::B,
        8 => Line::C,
        9 => Line::D,
        10 => Line::Clk,
        11 => Line::Lat,
        _ => Line::Oe,
    }
}

fn rule_of(i: usize) -> (r: (Line, Line, u8))
    requires
        i < RULE_COUNT,
    ensures
        r == rule_at(i as int),
{
    match i {
        0 => (Line::B, Line::A, 1),
        1 => (Line::C, Line::B, 1),
        2 => (Line::D, Line::C, 1),
        3 => (Line::G1, Line::R1, 2),
        4 => (Line::B1, Line::G1, 1),
        5 => (Line::G2, Line::R2, 1),
        _ => (Line::B2, Line::G2, 2),
    }
}

proof fn lemma_range_fault_from(w: Wiring, i: int)
    requires
        0 <= i <= LINE_COUNT,
    ensures
        range_fault_from(w, i) is None <==> forall|j: int|
            i <= j < LINE_COUNT ==> pin_of(w, #[trigger] line_at(j)) < PORT_WIDTH,
    decreases LINE_COUNT - i,
{
    if i < LINE_COUNT {
        lemma_range_fault_from(w, i + 1);
    }
}

proof fn lemma_in_range(w: Wiring)
    ensures
        range_fault_from(w, 0) is None <==> in_range(w),
{
    lemma_range_fault_from(w, 0);
    if range_fault_from(w, 0) is None {
        assert forall|l: Line| #[trigger] pin_of(w, l) < PORT_WIDTH by {
            assert(line_at(index_of(l)) == l);
        }
    }
}

proof fn lemma_rule_fault_from(w: Wiring, i: int)
    requires
        0 <= i <= RULE_COUNT,
    ensures
        rule_fault_from(w, i) is None <==> forall|k: int| i <= k < RULE_COUNT ==> #[trigger] rule_holds(w, k),
    decreases RULE_COUNT - i,
{
    if i < RULE_COUNT {
        lemma_rule_fault_from(w, i + 1);
    }
}

proof fn lemma_share_fault_from(w: Wiring, i: int, j: int)
    requires
        0 <= i < j <= LINE_COUNT,
    ensures
        share_fault_from(w, i, j) is None <==> (forall|m: int|
            j <= m < LINE_COUNT ==> pin_of(w, line_at(i)) != pin_of(w, #[trigger] line_at(m))) && (
        forall|k: int, m: int|
            i < k < m < LINE_COUNT ==> pin_of(w, #[trigger] line_at(k)) != pin_of(w, #[trigger] line_at(m))),
    decreases LINE_COUNT - i, LINE_COUNT + 1 - j,
{
    if j == LINE_COUNT {
        if i + 1 < LINE_COUNT {
            lemma_share_fault_from(w, i + 1, i + 2);
        }
    } else {
        lemma_share_fault_from(w, i, j + 1);
    }
}

/// A wiring is accepted exactly when it is valid: every line on the port,
/// every placement rule kept, and no two lines on one pin.
pub proof fn lemma_fault_iff_invalid(w: Wiring)
    ensures
        fault_of(w) is None <==> valid_wiring(w),
{
    lemma_in_range(w);
    lemma_rule_fault_from(w, 0);
    lemma_share_fault_from(w, 0, 1);
    assert(distinct(w) <==> (forall|m: int|
        1 <= m < LINE_COUNT ==> pin_of(w, line_at(0)) != pin_of(w, #[trigger] line_at(m))) && (forall|k: int, m: int|
        0 < k < m < LINE_COUNT ==> pin_of(w, #[trigger] line_at(k)) != pin_of(w, #[trigger] line_at(m))));
}

impl Wiring {
    /// The port line that `l` is wired to.
    pub fn pin(&self, l: Line) -> (r: u8)
        ensures
            r == pin_of(*self, l),
    {
        match l {
            Line::R1 => self.r1,
            Line::G1 => self.g1,
            Line::B1 => self.b1,
            Line::R2 => self.r2,
            Line::G2 => self.g2,
            Line::B2 => self.b2,
            Line::A => self.a,
            Line::B => self.b,
            Line::C => self.c,
            Line::D => self.d,
            Line::Clk => self.clk,
            Line::Lat => self.lat,
            Line::Oe => self.oe,
        }
    }

    /// The first rule that the wiring breaks, as [`fault_of`] orders them.
    pub fn fault(&self) -> (r: Option<PinError>)
        ensures
            r == fault_of(*self),
    {
        let mut i: usize = 0;
        while i < LINE_COUNT
            invariant
                i <= LINE_COUNT,
                range_fault_from(*self, 0) == range_fault_from(*self, i as int),
            decreases LINE_COUNT - i,
        {
            let p = self.pin(line_of(i));
            if p >= PORT_WIDTH {
                return Some(PinError::OutOfRange { line: line_of(i), pin: p });
            }
            i = i + 1;
        }
        proof {
            lemma_in_range(*self);
        }
        let mut k: usize = 0;
        while k < RULE_COUNT
            invariant
                k <= RULE_COUNT,
                in_range(*self),
                range_fault_from(*self, 0) is None,
                rule_fault_from(*self, 0) == rule_fault_from(*self, k as int),
            decreases RULE_COUNT - k,
        {
            let (line, base, offset) = rule_of(k);
            let expected = self.pin(base) + offset;
            let found = self.pin(line);
            if found != expected {
                return Some(PinError::Misplaced { line, expected, found });
            }
            k = k + 1;
        }
        let mut i: usize = 0;
        while i < LINE_COUNT
            invariant
                i <= LINE_COUNT,
                fault_of(*self) == share_fault_from(*self, i as int, i as int + 1),
            decreases LINE_COUNT - i,
        {
            let mut j: usize = i + 1;
            while j < LINE_COUNT
                invariant
                    i < LINE_COUNT,
                    i < j <= LINE_COUNT,
                    fault_of(*self) == share_fault_from(*self, i as int, j as int),
                decreases LINE_COUNT - j,
            {
                let p = self.pin(line_of(i));
                if p == self.pin(line_of(j)) {
                    return Some(PinError::Shared { first: line_of(i), second: line_of(j), pin: p });
                }
                j = j + 1;
            }
            i = i + 1;
        }
        None
    }
}

} // verus!

verus! {

impl Pins {
    /// The masks are those of the wiring, and the wiring is valid.
    pub closed spec fn wf(self) -> bool {
        &&& valid_wiring(self.wiring)
        &&& self.rgb_mask == rgb_mask_of(self.wiring)
        &&& self.addr_mask == addr_mask_of(self.wiring)
    }

    /// The wiring these pins were built from.
    pub closed spec fn wiring(self) -> Wiring {
        self.wiring
    }

    /// Well-formed pins hold a valid wiring.
    pub proof fn lemma_valid(self)
        requires
            self.wf(),
        ensures
            valid_wiring(self.wiring()),
    {
    }

    /// Checks the wiring of the thirteen control lines and derives its masks.
    /// Refuses, with the first fault that [`fault_of`] finds, a line outside
    /// the port, a broken placement rule or two lines on one pin.
    pub fn new(
        r1: u8,
        g1: u8,
        b1: u8,
        r2: u8,
        g2: u8,
        b2: u8,
        a: u8,
        b: u8,
        c: u8,
        d: u8,
        clk: u8,
        lat: u8,
        oe: u8,
    ) -> (r: Result<Pins, PinError>)
        ensures
            ({
                let w = Wiring { r1, g1, b1, r2, g2, b2, a, b, c, d, clk, lat, oe };
                match fault_of(w) {
                    None => r is Ok && r->Ok_0.wf() && r->Ok_0.wiring() == w,
                    Some(e) => r == Err::<Pins, PinError>(e),
                }
            }),
    {
        let w = Wiring { r1, g1, b1, r2, g2, b2, a, b, c, d, clk, lat, oe };
        match w.fault() {
            Some(e) => Err(e),
            None => {
                proof {
                    lemma_fault_iff_invalid(w);
                    assert(pin_of(w, Line::R1) < PORT_WIDTH && pin_of(w, Line::G1) < PORT_WIDTH && pin_of(w, Line::B1)
                        < PORT_WIDTH && pin_of(w, Line::R2) < PORT_WIDTH && pin_of(w, Line::G2) < PORT_WIDTH && pin_of(
                        w,
                        Line::B2,
                    ) < PORT_WIDTH && pin_of(w, Line::A) < PORT_WIDTH && pin_of(w, Line::B) < PORT_WIDTH && pin_of(
                        w,
                        Line::C,
                    ) < PORT_WIDTH && pin_of(w, Line::D) < PORT_WIDTH);
                }
                let rgb_mask = (1u32 << r1) | (1u32 << g1) | (1u32 << b1) | (1u32 << r2) | (1u32 << g2) | (1u32
                    << b2);
                let addr_mask = (1u32 << a) | (1u32 << b) | (1u32 << c) | (1u32 << d);
                Ok(Pins { wiring: w, rgb_mask, addr_mask })
            },
        }
    }

    /// The line numbers of every role.
    pub fn lines(&self) -> (r: Wiring)
        ensures
            r == self.wiring(),
    {
        self.wiring
    }

    /// The mask of the six colour lines.
    pub fn rgb_mask(&self) -> (r: u32)
        requires
            self.wf(),
        ensures
            r == rgb_mask_of(self.wiring()),
    {
        self.rgb_mask
    }

    /// The mask of the four row-address lines.
    pub fn addr_mask(&self) -> (r: u32)
        requires
            self.wf(),
        ensures
            r == addr_mask_of(self.wiring()),
    {
        self.addr_mask
    }
}

} // verus!

verus! {

/// The port lines that are set in `m`.
pub open spec fn bits_of(m: u32) -> Set<nat> {
    Set::new(|i: nat| i < 32 && m & (1u32 << (i as u32)) != 0)
}

proof fn lemma_six_bits(x: u32, a: u32, b: u32, c: u32, d: u32, e: u32, f: u32)
    by (bit_vector)
    requires
        x < 32 && a < 32 && b < 32 && c < 32 && d < 32 && e < 32 && f < 32,
    ensures
        ((1u32 << a) | (1u32 << b) | (1u32 << c) | (1u32 << d) | (1u32 << e) | (1u32 << f)) & (1u32 << x) != 0
            <==> (x == a || x == b || x == c || x == d || x == e || x == f),
{
}

proof fn lemma_four_bits(x: u32, a: u32, b: u32, c: u32, d: u32)
    by (bit_vector)
    requires
        x < 32 && a < 32 && b < 32 && c < 32 && d < 32,
    ensures
        ((1u32 << a) | (1u32 << b) | (1u32 << c) | (1u32 << d)) & (1u32 << x) != 0 <==> (x == a || x == b || x
            == c || x == d),
{
}

pub(crate) proof fn lemma_shift_width(n: u8)
    by (bit_vector)
    requires
        n < 32,
    ensures
        1u32 << n == 1u32 << (n as u32),
{
}

/// The masks of a valid wiring are fixed by which lines it uses, whatever
/// order they are named in: the colour mask holds exactly the six colour
/// lines, the address mask exactly the four address lines, and neither
/// holds the other's lines or the clock, latch or output-enable line, which
/// are three further distinct lines.
pub proof fn lemma_masks(w: Wiring)
    requires
        valid_wiring(w),
    ensures
        bits_of(rgb_mask_of(w)) == set![w.r1 as nat, w.g1 as nat, w.b1 as nat, w.r2 as nat, w.g2 as nat, w.b2 as nat],
        bits_of(rgb_mask_of(w)).len() == 6,
        bits_of(addr_mask_of(w)) == set![w.a as nat, w.b as nat, w.c as nat, w.d as nat],
        bits_of(addr_mask_of(w)).len() == 4,
        bits_of(rgb_mask_of(w)).disjoint(bits_of(addr_mask_of(w))),
        !bits_of(rgb_mask_of(w)).contains(w.clk as nat) && !bits_of(addr_mask_of(w)).contains(w.clk as nat),
        !bits_of(rgb_mask_of(w)).contains(w.lat as nat) && !bits_of(addr_mask_of(w)).contains(w.lat as nat),
        !bits_of(rgb_mask_of(w)).contains(w.oe as nat) && !bits_of(addr_mask_of(w)).contains(w.oe as nat),
        w.clk != w.lat && w.clk != w.oe && w.lat != w.oe,
{
    assert(pin_of(w, Line::R1) < PORT_WIDTH && pin_of(w, Line::G1) < PORT_WIDTH && pin_of(w, Line::B1) < PORT_WIDTH
        && pin_of(w, Line::R2) < PORT_WIDTH && pin_of(w, Line::G2) < PORT_WIDTH && pin_of(w, Line::B2) < PORT_WIDTH
        && pin_of(w, Line::A) < PORT_WIDTH && pin_of(w, Line::B) < PORT_WIDTH && pin_of(w, Line::C) < PORT_WIDTH
        && pin_of(w, Line::D) < PORT_WIDTH);
    assert forall|i: int, j: int| 0 <= i < j < LINE_COUNT implies pin_of(w, line_at(i)) != pin_of(w, line_at(j)) by {
        assert(pin_of(w, #[trigger] line_at(i)) != pin_of(w, #[trigger] line_at(j)));
    }
    assert(line_at(0) == Line::R1 && line_at(1) == Line::G1 && line_at(2) == Line::B1 && line_at(3) == Line::R2
        && line_at(4) == Line::G2 && line_at(5) == Line::B2 && line_at(6) == Line::A && line_at(7) == Line::B
        && line_at(8) == Line::C && line_at(9) == Line::D && line_at(10) == Line::Clk && line_at(11) == Line::Lat
        && line_at(12) == Line::Oe);
    lemma_shift_width(w.r1);
    lemma_shift_width(w.g1);
    lemma_shift_width(w.b1);
    lemma_shift_width(w.r2);
    lemma_shift_width(w.g2);
    lemma_shift_width(w.b2);
    lemma_shift_width(w.a);
    lemma_shift_width(w.b);
    lemma_shift_width(w.c);
    lemma_shift_width(w.d);
    let rgb = set![w.r1 as nat, w.g1 as nat, w.b1 as nat, w.r2 as nat, w.g2 as nat, w.b2 as nat];
    let addr = set![w.a as nat, w.b as nat, w.c as nat, w.d as nat];
    assert forall|i: nat| bits_of(rgb_mask_of(w)).contains(i) <==> rgb.contains(i) by {
        if i < 32 {
            lemma_six_bits(
                i as u32,
                w.r1 as u32,
                w.g1 as u32,
                w.b1 as u32,
                w.r2 as u32,
                w.g2 as u32,
                w.b2 as u32,
            );
        }
    }
    assert forall|i: nat| bits_of(addr_mask_of(w)).contains(i) <==> addr.contains(i) by {
        if i < 32 {
            lemma_four_bits(i as u32, w.a as u32, w.b as u32, w.c as u32, w.d as u32);
        }
    }
    assert(bits_of(rgb_mask_of(w)) =~= rgb);
    assert(bits_of(addr_mask_of(w)) =~= addr);
}

} // verus!
