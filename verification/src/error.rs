//! The error type shared by the notation codec and the move-application
//! state machine. Every fallible operation of the crate reports one of
//! these values; nothing panics or aborts.

use vstd::prelude::*;

use crate::game::{Direction, Player};

verus! {

/// Everything that can go wrong while parsing notation or applying a move.
/// All of it is recoverable by the caller.
#[derive(Debug)]
pub enum UT3Error {
    /// The turn-number field of a notation line is not an unsigned integer
    /// (or does not fit in one); carries the offending field text.
    TurnNumberParse(String),
    /// The player field of a notation line is not `X` or `O`, or disagrees
    /// with the parity of the turn number; carries the offending field text.
    InvalidPlayer(String),
    /// A coordinate token is not one of the nine labels; carries the
    /// offending token text.
    InvalidDirection(String),
    /// The move targets a sub-board other than the required one.
    WrongTrack { required: Direction, got: Direction },
    /// The target cell is already occupied; carries the occupant.
    PositionTaken { position: (Direction, Direction), value: Player },
    /// The target sub-board is already finished.
    BoxHasWinner(Direction),
}

} // verus!
