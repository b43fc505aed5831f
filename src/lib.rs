//! Rules engine for the game of Go: stone placement, liberties, captures,
//! suicide prevention and turn alternation, with a compact text encoding.
pub mod stone;
pub mod rules;
pub mod board;
pub mod text;
pub mod codec;
pub mod messages;

pub use board::{Game, new};
pub use codec::{decode, encode, parse};
pub use messages::{AcceptPlayerMessage, GameStateMessage, JoinMessage, PlacePieceMessage, accept_player, play_piece};
pub use stone::{Coordinate, Size, Stone};
