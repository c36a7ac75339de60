//! Life-like cellular automata on a toroidal grid.
//!
//! The crate holds the simulation engine: the grid and its wrap-around
//! arithmetic, neighbour counting, birth/survival rules, cell ages, the two
//! pattern text formats, pattern search, and the rendering of a frame as
//! text with ANSI colours.  Every function carries a contract that Verus
//! checks; the one exception is the random bit that a random grid draws from
//! the `rand` crate for each of its cells.

pub mod error;
pub mod field;
pub mod game;
pub mod pattern;
pub mod plain;
pub mod rle;
pub mod rule;
pub mod term;
pub mod text;
pub mod torus;
