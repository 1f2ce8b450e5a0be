//! A nonogram (grid logic puzzle) core library: a dense 2-bit-per-cell grid
//! container with a URL-safe base64 codec, clue (hint) generation from a
//! solution grid, and deterministic gesture-to-cell path iterators.

pub mod board;
pub mod cell;
pub mod codec;
pub mod dragselection;
pub mod grid;
pub mod selection;
