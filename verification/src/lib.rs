//! A two-player, row-insertion, N-in-a-row game: the board engine, the
//! matchmaking tables, the per-request session coordinator, the connection
//! registry and the connection protocol, with their contracts.

use vstd::prelude::*;

pub mod board;
pub mod db;
pub mod game;
pub mod handler;
pub mod lines;
pub mod registry;
pub mod session;
pub mod ws;

verus! {

/// Side length of the square playing grid.
pub const GAME_SIZE: usize = 7;

/// Number of same-coloured cells in an unbroken line that ends the game.
pub const WIN_LENGTH: usize = 4;

} // verus!
