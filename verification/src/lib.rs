//! Rules engine for Ultimate Tic-Tac-Toe: a 3x3 grid of 3x3 sub-boards in
//! which each move routes the opponent to a particular sub-board. The crate
//! covers state representation, move legality, win detection at both nesting
//! levels, routing under two variants, and a line-oriented notation format
//! that round-trips through replay. Rendering and input handling are left to
//! the caller, which reads the grid and calls [`game::Grid::apply_turn`].

pub mod codec;
pub mod error;
pub mod game;

pub use error::UT3Error;
pub use game::{get_win, Box, Direction, Grid, Player, Turn, Variant};
