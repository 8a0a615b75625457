//! Levenshtein edit distance between two slices, with an optional bound on
//! the distance that lets the computation stop early.
//!
//! The distance is computed by a banded sweep over the diagonals of the edit
//! grid: for a growing number of edits, the sweep records how far along each
//! diagonal that number of edits can reach, and it skips runs of equal
//! elements with [`Mismatch::mismatch`].
pub mod distance;
pub mod edits;
pub mod engine;
mod frontier;
pub mod prefix;

pub use distance::levenshtein;
pub use engine::can_hold_frontier;
pub use engine::edit_distance;
pub use engine::edit_distance_bounded;
pub use prefix::common_prefix_len;
pub use prefix::mismatch_naive;
pub use prefix::mismatch_simd;
pub use prefix::Mismatch;
pub use prefix::SimdMismatch;
