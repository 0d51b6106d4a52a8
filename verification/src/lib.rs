//! Randomized tile-based dungeon layout generation.
//!
//! A dungeon is grown by a randomized depth-first search that attaches
//! rectangular rooms to the doorway cells of rooms placed earlier, rejecting
//! any candidate whose bounding rectangle would overlap a room already placed.
//! The occupied area is tracked by an insert-only discriminator tree over
//! rectangles that answers overlap queries without scanning every entry.

pub mod kd_tree;
pub mod map_gen;
pub mod rect;
