//! Exact-cover tiling of a rectangular board with polyomino pieces.
//!
//! Given a board of `rows` by `cols` cells and a list of pieces, each usable
//! once in any of its rotations and reflections, [`board::Board`] searches
//! depth first for a placement of the pieces that covers every cell exactly
//! once.
//!
//! The executable types are [`matrix::Matrix`], a grid stored row by row;
//! [`polyomino::Polyomino`], a named piece with the forms it is placed in;
//! and [`board::Board`], the occupancy grid with the placement primitives,
//! the pruning test and the search.
//!
//! The mathematics that the contracts are stated in lives beside them:
//! [`grid`] has the symmetries of the square on grids, [`cells`] a boolean
//! grid as a set of cells, [`placement`] the laying and lifting of a shape,
//! [`region`] the four-connected regions of a set of cells, [`search`] what
//! the search returns from any state, and [`tiling`] what a solution is,
//! with the proofs that the search finds an exact cover of the board
//! whenever polyominoes have one. [`flood`] holds the flood fill behind the
//! pruning test.

pub mod board;
pub mod cells;
pub mod flood;
pub mod grid;
pub mod matrix;
pub mod placement;
pub mod polyomino;
pub mod region;
pub mod search;
pub mod tiling;
