//! The reasons for which notation is turned down.

use vstd::prelude::*;

verus! {

/// Why a piece of notation was turned down.
#[derive(Debug, PartialEq, Eq, Clone, Copy, Structural)]
pub enum FenParsingError {
    /// A rank of the placement field holds more than eight files.
    RowOverflow,
    /// Kept for a cursor that leaves the board along the other axis; no
    /// function of this crate returns it.
    ColOverflow,
    /// A character of the placement field is no digit, piece letter or `/`.
    InvalidToken,
    /// A rank ends early, a ninth rank begins, or the field stops before the
    /// board is full.
    InvalidPosition,
    /// The side to move is neither `w` nor `b`.
    InvalidPlayer,
    /// The castling field holds a character other than `K`, `Q`, `k`, `q`.
    InvalidCastlingStatus,
    /// The en passant field is not a file `a`..`h` followed by `3` or `6`.
    InvalidEnpassentTarget,
    /// A move counter is no unsigned decimal number of at most nine.
    InvalidNumericValue,
    /// The notation does not consist of six fields.
    InsufficentFields,
}

pub type FenResult<T> = Result<T, FenParsingError>;

} // verus!
