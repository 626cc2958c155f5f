//! Word search on a rectangular grid of characters.
//!
//! A [`Grid`] stores its cells in one row-major vector. Words are traced from
//! cell to adjacent cell in any of the eight compass directions.

pub mod adjacency;
pub mod grid;
pub mod search;

pub use grid::Grid;
pub use grid::GridParseError;
