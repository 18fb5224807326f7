//! Verified driver and animation engine for an LED cube that hangs on a
//! serial shift-register chain.
//!
//! The library computes; it never touches hardware. A [`shiftreg::Driver`]
//! holds the logical bit buffer and answers a flush with the exact sequence
//! of writes to the data, clock and latch lines. The effects of
//! [`cubes::snake::Cube`] mutate the buffer and return a timeline of line
//! writes and waits for the caller to play on the real pins.

pub mod cubes;
pub mod pcg;
pub mod shiftreg;
pub mod timeline;
