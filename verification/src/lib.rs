//! Rules engine of a Minesweeper puzzle: the grid of tiles, lazy mine
//! placement, adjacency numbering, flood-fill reveal and win/loss tracking,
//! with every operation carrying a machine-checked contract.

pub mod board;
pub mod fill;
pub mod grid;
pub mod minefield;
mod random;
pub mod rules;
pub mod settings;
pub mod tile;

pub use board::{Board, ClickError};
pub use minefield::Minefield;
pub use rules::GameState;
pub use settings::Difficulty;
pub use tile::Tile;
