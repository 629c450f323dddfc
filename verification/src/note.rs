//! The note model: an instantaneous tap or a hold with a head and a tail.

use vstd::prelude::*;

verus! {

/// One note of a chart.
///
/// A note is either a tap (no tail, `tail_time == -1`) or a hold whose body
/// spans `[hit_time, tail_time]`.
#[derive(Debug, Clone, Copy, PartialEq, Eq, Structural, PartialOrd, Ord, Hash)]
pub struct Note {
    /// Column index (0-based).
    pub column: usize,
    /// Hit time in milliseconds.
    pub hit_time: i64,
    /// End time in milliseconds (-1 for taps).
    pub tail_time: i64,
}

impl Note {
    /// Creates a note with the given fields.
    pub fn new(column: usize, hit_time: i64, tail_time: i64) -> (n: Note)
        ensures
            n.column == column,
            n.hit_time == hit_time,
            n.tail_time == tail_time,
    {
        Note { column, hit_time, tail_time }
    }

    /// Creates a tap (a note with no tail).
    pub fn simple(column: usize, hit_time: i64) -> (n: Note)
        ensures
            n.column == column,
            n.hit_time == hit_time,
            n.tail_time == -1,
            !n.is_hold(),
    {
        Note { column, hit_time, tail_time: -1 }
    }

    /// Creates a hold.
    pub fn long_note(column: usize, hit_time: i64, tail_time: i64) -> (n: Note)
        ensures
            n.column == column,
            n.hit_time == hit_time,
            n.tail_time == tail_time,
    {
        Note { column, hit_time, tail_time }
    }

    /// Whether this note is a hold (has a tail).
    pub open spec fn is_hold(self) -> bool {
        self.tail_time >= 0
    }

    /// Returns true if this is a hold.
    pub fn is_long_note(&self) -> (r: bool)
        ensures
            r == self.is_hold(),
    {
        self.tail_time >= 0
    }

    /// The duration of the note in milliseconds (0 for a tap).
    pub open spec fn spec_duration(self) -> int {
        if self.is_hold() {
            self.tail_time - self.hit_time
        } else {
            0
        }
    }

    /// Returns the duration of the note in milliseconds.
    pub fn duration(&self) -> (d: i64)
        requires
            self.is_hold() ==> self.tail_time - self.hit_time <= i64::MAX,
        ensures
            d == self.spec_duration(),
    {
        if self.is_long_note() {
            self.tail_time - self.hit_time
        } else {
            0
        }
    }
}

} // verus!
