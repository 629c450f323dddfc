//! Difficulty rating support library for multi-column timed-note charts.
//!
//! The crate models a chart as a sequence of notes (taps and holds) on a
//! small number of columns, and provides the exact, integer-valued parts of
//! a difficulty ("star rating") pipeline: construction of the sparse
//! time-sampling grids ("corners"), per-column key-occupancy signals, local
//! note-density counts, a sparse piecewise-constant coverage curve for hold
//! bodies with an O(log n) interval-sum query, and the text-format chart
//! parsing that feeds all of the above.

pub mod errors;
pub mod note;
pub mod search;
pub mod corners;
pub mod key_usage;
pub mod density;
pub mod ln;
pub mod utils;
pub mod parsing;
pub mod chart;
