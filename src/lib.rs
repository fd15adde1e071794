//! A Battleship simulation: a board of cells, fleet placement, shot
//! resolution and two targeting strategies, with their rules proved.

pub mod board;
pub mod placement;
pub mod rng;
pub mod probability;
pub mod game;
