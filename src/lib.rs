//! Board engine of a terminal Minesweeper game: the grid model, mine
//! placement, flood-fill reveal, win detection and the per-frame input rules.

pub mod board;
pub mod count;
