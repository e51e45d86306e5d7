//! Rules engine for a single-player grid-deduction game: a rectangular board
//! of cells, some of them mined, where the player reveals cells and marks
//! suspected mines until a mine is revealed or every mine is flagged.
pub mod cell;
pub mod command;
pub mod flood;
pub mod grid;
pub mod laws;
