//! A move-search engine for the two-player territory game Ataxx.
//!
//! The board is 7x7, addressed on an 8-wide stride (row `y`, column `x`
//! maps to bit `x + 8*y` of a `u64`), so that neighbour masks can be
//! computed with constant-time shifts. Placing a stone next to a friendly
//! stone clones it, placing it two cells away relocates it, and every
//! enemy stone adjacent to the destination flips to the mover's colour.

pub mod bits;
pub mod notation;
pub mod rng;
pub mod rules;
pub mod search;
