//! The game's public items under one path.

pub use crate::agent::{Contradiction, MinesweeperAI};
pub use crate::board::Minesweeper;
pub use crate::cells::Cell;
pub use crate::sentence::Sentence;
