//! A Minesweeper board and game engine: the grid of squares, mine seeding,
//! adjacency numbers, the flood-filling reveal, flags, score and undo.

pub mod board;
pub mod game;
pub mod flood;
pub mod score;
pub mod laws;
pub mod screen;
