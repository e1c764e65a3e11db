//! A two-player isolation game on a fixed 4x4 grid.
//!
//! Each player occupies one cell and slides like a chess queen (any of the
//! eight directions, any distance, no jumping). A vacated cell is blocked for
//! the rest of the game; a player who cannot move loses. `board` holds the
//! game state and move generation, `search` the exhaustive minimax engine
//! that picks the computer's move.

pub mod board;
pub mod search;
