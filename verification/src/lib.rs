//! A verified rules engine for Reversi (Othello) on an 8x8 board,
//! together with two random move-selection policies.

pub mod game;
pub mod laws;
pub mod selector;

pub use game::Board;
pub use game::Coordinate;
pub use game::Direction;
pub use game::InvalidMove;
pub use game::Player;
