//! Beam search for a high-value walk over a square grid of labelled tiles.
//!
//! A walk starts on a given cell, moves one cell up, down, left or right at a
//! time and never enters a cell whose tile label it has already collected.
//! The search keeps a bounded set of the best partial walks, funnels them
//! region by region through the grid where a partition is given, and
//! reports the best score seen together with the moves that reach it.
//!
//! - [`grid`]: the table of tile labels and point values.
//! - [`walk`]: what a sequence of moves means on a grid.
//! - [`state`]: partial walks and the single moves that extend them.
//! - [`frontier`]: the bounded collection of the best states of one depth.
//! - [`expand`]: generations of states and the unrestricted search.
//! - [`boundary`]: the search of one region up to a boundary line.
//! - [`schedule`]: regions, and the orders in which to pass through them.
//! - [`run`]: the search along one route, and over all routes.

pub mod grid;
pub mod walk;
pub mod state;
pub mod frontier;
pub mod expand;
pub mod boundary;
pub mod schedule;
pub mod run;
