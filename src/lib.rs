//! An animated maze generator: a randomized depth-first backtracker over a
//! rectangular grid of cells, advanced one step per tick.
use vstd::prelude::*;

pub mod coordinate;
pub mod generator;
pub mod laws;
pub mod maze;
pub mod policy;
mod random;
