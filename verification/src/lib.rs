//! A rectangular board of colored tiles.
//!
//! The board stores one [`tiles::TileTypes`] value per cell, gives
//! bounds-checked access to single cells, stamps rectangular shapes of
//! tiles, and keeps a per-cell cache of which of the four Manhattan
//! neighbors hold an equal tile.  The renderers turn a board and its
//! cache into terminal text.

pub mod game_board;
pub mod player_input;
pub mod tiles;
