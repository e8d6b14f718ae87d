//! A perfect-maze library: a rectangular grid of walled cells, a randomized
//! depth-first generator that carves a spanning tree through the grid, and a
//! right-hand wall-following solver that walks the carved maze to its exit.

pub mod cell;
pub mod counting;
pub mod maze;
pub mod paths;
pub mod right_hand;
