use vstd::prelude::*;
use crate::board::{Game, new, point};
use crate::codec::{decode, decoding, encode, encoding};
use crate::rules::{GameView, after_move, is_legal};
use crate::stone::{Coordinate, Size, Stone, extent_of};

verus! {

/// What is broadcast to the players of a game.
#[derive(Debug, PartialEq, Eq)]
pub enum GameStateMessage {
    /// A player asks to join game `id`.
    Join { id: u128 },
    /// Game `id`, of the given extent, accepted a second player.
    JoinAccepted { id: u128, size: u8 },
    /// The wire form of the board after a move.
    Update { board: String },
}

/// A request to accept a player into a game of the given size.
#[derive(Clone, Copy, Debug, PartialEq, Eq)]
pub struct AcceptPlayerMessage {
    pub size: Size,
}

/// A request to join a game.
#[derive(Clone, Copy, Debug, PartialEq, Eq)]
pub struct JoinMessage {}

/// A move: the wire form of the board it is played on (empty for a fresh
/// board of `size`), where, and by whom.
#[derive(Debug, PartialEq, Eq)]
pub struct PlacePieceMessage {
    pub board: String,
    pub coordinate: Coordinate,
    pub stone: Stone,
    pub size: Size,
}

/// The board a move message is played on: a fresh one of its size when its
/// board text is empty, else the decoded text.
pub open spec fn board_of(m: PlacePieceMessage) -> Option<GameView> {
    if m.board@.len() == 0 {
        Some(
            GameView {
                id: 0,
                stones: Map::<(int, int), Stone>::empty(),
                extent: extent_of(m.size),
                turn: Stone::Black,
            },
        )
    } else {
        decoding(m.board@)
    }
}

/// The answer to accepting a player into game `id`.
pub fn accept_player(id: u128, message: &AcceptPlayerMessage) -> (r: GameStateMessage)
    ensures
        r == (GameStateMessage::JoinAccepted { id, size: extent_of(message.size) as u8 }),
{
    GameStateMessage::JoinAccepted { id, size: message.size.extent() }
}

/// Plays the move a message carries: the update to broadcast when the board
/// is readable and the move legal, `None` otherwise.
pub fn play_piece(message: &PlacePieceMessage) -> (r: Option<GameStateMessage>)
    ensures
        r is Some <==> (board_of(*message) matches Some(g) && is_legal(
            g,
            point(message.coordinate),
            message.stone,
        )),
        r matches Some(GameStateMessage::Update { board }) ==> board@ == encoding(
            after_move(board_of(*message)->0, point(message.coordinate), message.stone),
        ),
        r matches Some(u) ==> u is Update,
{
    let mut game = if message.board.as_str().is_empty() {
        new(message.size)
    } else {
        match decode(message.board.as_str()) {
            Some(g) => g,
            None => return None,
        }
    };
    proof {
        assert(game@.stones =~= board_of(*message)->0.stones);
    }
    if game.play_stone(message.coordinate, message.stone) {
        Some(GameStateMessage::Update { board: encode(&game) })
    } else {
        None
    }
}

} // verus!
