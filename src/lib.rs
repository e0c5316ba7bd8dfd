//! Density-bounded tiling over hierarchical cell codes.
//!
//! Finest-level point counts are gathered per cell code, then coarsened
//! level by level into the fewest non-overlapping tiles whose counts stay
//! under a density threshold.


pub mod aggregate;
pub mod laws;
pub mod resolve;
pub mod tile;

pub use aggregate::{count_codes, merge_counts};
pub use resolve::resolve_tiles;
pub use tile::Tile;

