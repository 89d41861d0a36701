//! Rules-and-state engine of a minesweeper-style puzzle.
//!
//! The library owns the square grid of cells, places the mines, computes
//! every cell's adjacency count, reveals cells through an iterative flood
//! fill, tracks the flag budget and derives the win or lose outcome.
//! Rendering, input handling and timers are left to the caller, which
//! drives the board through [`board::Board`] and redraws from the change
//! descriptors the board returns.

pub mod board;
pub mod cell;
pub mod counting;
pub mod geometry;
mod rng;
