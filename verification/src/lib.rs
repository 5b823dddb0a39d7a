//! Tak: board, rules, notation (TPS and PTN), clocks and move generation,
//! a bitboard search engine, and MQTT-style topic matching for the game server.
use vstd::prelude::*;

pub mod text;
pub mod coord;
pub mod board;
pub mod moves;
pub mod board_text;
pub mod board_query;
pub mod roads;
pub mod movegen;
pub mod tps;
pub mod action;
pub mod time;
pub mod game;
pub mod ptn;
pub mod ui;
pub mod ui_state;
pub mod history;
pub mod topic;
pub mod takumi;
pub mod takumi_road;
pub mod takumi_spread;
pub mod takumi_text;
pub mod takumi_read;
pub mod takumi_movegen;
pub mod takumi_search;
pub mod takumi_play;
pub mod client_info;
pub mod forms;
pub mod pubsub;

pub use coord::{TakCoord, TakDir};
pub use board::{TakBoard, TakPiece, TakStack};
pub use action::{TakAction, TakActionRecord};
pub use game::{TakGame, TakGameSettings, TakHand, TakKomi, TakStones};
pub use movegen::{compute_partition_memo, gen_moves};
pub use ptn::{TakPtn, TakPtnAttr};
pub use time::{TakClock, TakTimeMode, TakTimestamp};
pub use tps::TakTps;

verus! {

/// The kinds of pieces in Tak.
#[derive(Debug, Clone, Copy, PartialEq, Eq, Hash, Structural)]
pub enum TakPieceVariant {
    Flat,
    Wall,
    Capstone,
}

/// The two players of a game of Tak.
#[derive(Debug, Clone, Copy, PartialEq, Eq, Hash, Structural)]
pub enum TakPlayer {
    White,
    Black,
}

impl TakPlayer {
    /// The opponent of `p`.
    pub open spec fn opponent(p: TakPlayer) -> TakPlayer {
        match p {
            TakPlayer::White => TakPlayer::Black,
            TakPlayer::Black => TakPlayer::White,
        }
    }

    /// The index of `p` in per-player arrays: 0 for White, 1 for Black.
    pub open spec fn idx(p: TakPlayer) -> int {
        match p {
            TakPlayer::White => 0,
            TakPlayer::Black => 1,
        }
    }

    /// The opponent of this player.
    pub fn other(&self) -> (r: Self)
        ensures
            r == TakPlayer::opponent(*self),
    {
        match self {
            TakPlayer::White => TakPlayer::Black,
            TakPlayer::Black => TakPlayer::White,
        }
    }

    /// The index of this player: 0 for White, 1 for Black.
    pub fn index(&self) -> (r: usize)
        ensures
            r == TakPlayer::idx(*self),
    {
        match self {
            TakPlayer::White => 0,
            TakPlayer::Black => 1,
        }
    }
}

/// Why a placement was refused.
#[derive(Debug, Clone, Copy, PartialEq, Eq, Structural)]
pub enum TakInvalidPlaceError {
    NotAllowed,
    InvalidPosition,
    PositionOccupied,
    NotEnoughStones,
    InvalidVariant,
}

/// Why a move was refused.
#[derive(Debug, Clone, Copy, PartialEq, Eq, Structural)]
pub enum TakInvalidMoveError {
    NotAllowed,
    InvalidPosition,
    InvalidDirection,
    PositionEmpty,
    NotEnoughPieces,
    InvalidTakeCount,
    InvalidDropCount,
    Blocked,
}

/// Why undoing a placement was refused.
#[derive(Debug, Clone, Copy, PartialEq, Eq, Structural)]
pub enum TakInvalidUndoPlaceError {
    NotAllowed,
    InvalidPosition,
    PositionEmpty,
}

/// Why undoing a move was refused.
#[derive(Debug, Clone, Copy, PartialEq, Eq, Structural)]
pub enum TakInvalidUndoMoveError {
    InvalidPosition,
    InvalidTakeCount,
    InvalidDropCount,
    ActionMismatch,
}

/// Why an action was refused.
#[derive(Debug, Clone, Copy, PartialEq, Eq, Structural)]
pub enum TakInvalidActionError {
    InvalidPlace(TakInvalidPlaceError),
    InvalidMove(TakInvalidMoveError),
}

/// How a game was won.
#[derive(Debug, Clone, Copy, PartialEq, Eq, Structural)]
pub enum TakWinReason {
    Road,
    Flat,
    Timeout,
}

/// The state of a game.
#[derive(Debug, Clone, Copy, PartialEq, Eq, Structural)]
pub enum TakGameState {
    Ongoing,
    Win(TakPlayer, TakWinReason),
    Draw,
    Canceled,
}

} // verus!
