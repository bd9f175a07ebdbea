//! Puzzle solvers built around a verified clustering core.
//!
//! The core (`geometry`, `union_find`, `selector`, `clustering`) joins points
//! in 3-D integer space through a disjoint-set forest, either along a bounded
//! number of closest pairs or along every pair in ascending order of
//! distance. The other modules solve the remaining puzzles of the set, each
//! from its text input: `dial`, `repeated_ids`, `joltage`, `inventory`,
//! `worksheet`, `manifold` and `tiles`; `text` holds the shared line and
//! number parsing.

pub mod clustering;
pub mod dial;
pub mod geometry;
pub mod inventory;
pub mod joltage;
pub mod manifold;
pub mod paper;
pub mod repeated_ids;
pub mod selector;
pub mod text;
pub mod tiles;
pub mod union_find;
pub mod worksheet;
