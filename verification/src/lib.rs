//! Forsyth-Edwards Notation: reading the six fields of a chess position
//! into a record and writing a record as its notation, with contracts that
//! say what is read and written, and proofs that the two agree.

pub mod castling;
pub mod counter;
pub mod enpassant;
pub mod error;
pub mod fen;
pub mod laws;
pub mod piece;
pub mod placement;
pub mod placement_laws;
pub mod text;

pub use castling::{CastlingAbility, CastlingStatus};
pub use enpassant::EnpassantTarget;
pub use error::{FenParsingError, FenResult};
pub use fen::{Fen, Position};
pub use piece::{Piece, PieceType, Player};
pub use placement::{Board, Grid};
