//! Board engine of a Minesweeper game: the minefield grid, mine placement
//! that keeps the first click safe, flood-fill and chord reveal, flags and
//! the win check.

pub mod adjacency;
pub mod board;
pub mod config;
pub mod expand;
pub mod laws;
pub mod mines;
pub mod text;

pub use adjacency::{index_to_position, position_to_index, surrounding_indices};
pub use board::{change_flag, change_visibility, check_win, clear_grid, new_grid, Position, Tile};
pub use config::{GameConfig, GameDifficulty, GameOver, GameState, MINE_VALUE};
pub use expand::expand_selection;
pub use mines::fill_grid;
pub use text::zero_pad;
