//! The tile-merging puzzle 2048 on a 4x4 grid: line resolution, moves,
//! tile spawning and loss detection, with their contracts.

pub mod line;
pub mod board;
pub mod game;
