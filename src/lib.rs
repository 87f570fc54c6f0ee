//! A knowledge-based deduction agent for Minesweeper, with the game board it
//! plays against.

pub mod agent;
pub mod board;
mod bound;
pub mod cells;
pub mod game_logic;
pub mod knowledge;
mod random;
pub mod sentence;
pub mod tally;
