//! Solver for the generalized 8-puzzle (3x3 sliding-tile puzzle).
//!
//! A board of nine slots is packed into a single `u32`: nine 3-bit tile
//! codes occupy the 27 low bits, and the 5 high bits hold the position of
//! the blank slot so the hottest lookup of the search is a single shift.
//! Moves are bit transforms on that packed integer, and a breadth-first
//! search over the implicit state graph reconstructs a shortest slide
//! sequence from a predecessor map.

pub mod codec;
pub mod factoriadic;
pub mod moves;
pub mod search;
