//! Music cognition patterns for synchronizing rooms that tick at different rates.
//!
//! - [`polyrhythm`] — cycle arithmetic: greatest common divisor and least common multiple
//! - [`cadence`] — resolution patterns in room state (perfect, deceptive, half cadences)
//! - [`counterpoint`] — motion between two rooms (contrary, parallel, oblique) and its tally
//! - [`history`] — bounded histories that keep the most recent items
//! - [`room_map`] — values keyed by room name
//! - [`tempo`] — tempo markings

pub mod cadence;
pub mod counterpoint;
pub mod history;
pub mod polyrhythm;
pub mod room_map;
pub mod tempo;

pub use cadence::CadenceDetector;
pub use polyrhythm::{gcd, lcm};
