//! Driver logic for HUB75 LED matrix panels.
//!
//! The library validates how the panel's thirteen control lines are wired to
//! a 32-bit output port, derives the bit masks used on every write, and
//! turns a bitplane frame into the exact sequence of port writes that the
//! panel's shift/latch/row-address protocol needs, using binary coded
//! modulation for colour depth. Issuing the writes is left to the caller.
pub mod codec;
pub mod frame;
pub mod pins;
pub mod scan;

pub use codec::{decode, encode, Rgb};
pub use frame::Frame;
pub use pins::{Line, PinError, Pins, Wiring};
pub use scan::{Hub75, LineOp, Scan};
