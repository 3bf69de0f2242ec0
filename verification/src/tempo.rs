//! Tempo markings for adaptive tick rates.
use vstd::prelude::*;

verus! {

/// A tempo marking for a room, from slowest to fastest.
#[derive(Debug, Clone, Copy, PartialEq, Eq, Structural)]
pub enum TempoMarking {
    /// Very slow — deep stability.
    Grave,
    /// Slow — stable period.
    Adagio,
    /// Walking pace — normal operation.
    Andante,
    /// Moderate — slightly elevated activity.
    Moderato,
    /// Fast — active response.
    Allegro,
    /// Very fast — crisis mode.
    Presto,
}

} // verus!
