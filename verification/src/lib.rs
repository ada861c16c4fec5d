//! A text-mode first-person maze: perfect-maze generation, a sliding 3x3
//! window of maze tiles over an unbounded world, and the shading of ray hits
//! into a character frame.

mod carver;
mod colours;
pub mod controls;
pub mod grid;
mod ledger;
pub mod maze_generator;
pub mod objects;
pub mod view;
