//! Conway's Game of Life on a sparse set of live cells.
//!
//! The board is a collection of live cell positions; everything not in it is
//! dead.  `logic` holds the engine primitives (neighbour counting and the
//! bounding box of a board), `game` the generation step, the pattern parser
//! and the centering transform.

pub mod game;
pub mod logic;
