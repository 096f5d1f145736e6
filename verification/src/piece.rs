//! Sides, kinds of pieces, squares, and the letter of each.

use vstd::prelude::*;
use vstd::std_specs::convert::FromSpecImpl;

verus! {

/// The kind of a piece; `Empty` marks a square without one.
#[derive(Debug, PartialEq, Eq, Copy, Clone, Structural)]
pub enum PieceType {
    Pawn,
    Knight,
    Bishop,
    Rook,
    Queen,
    King,
    Empty,
}

/// A side. `Unspecified` is the side of an empty square and of a record that
/// no notation has filled yet.
#[derive(Debug, PartialEq, Eq, Copy, Clone, Structural)]
pub enum Player {
    Black,
    White,
    Unspecified,
}

/// What stands on one square.
#[derive(Debug, PartialEq, Eq, Copy, Clone, Structural)]
pub struct Piece {
    pub player: Player,
    pub piece: PieceType,
}

impl PieceType {
    /// The kind that a letter names in either case; `Empty` for every other
    /// character.
    pub open spec fn of_char(chr: char) -> PieceType {
        if chr == 'p' || chr == 'P' {
            PieceType::Pawn
        } else if chr == 'n' || chr == 'N' {
            PieceType::Knight
        } else if chr == 'b' || chr == 'B' {
            PieceType::Bishop
        } else if chr == 'r' || chr == 'R' {
            PieceType::Rook
        } else if chr == 'q' || chr == 'Q' {
            PieceType::Queen
        } else if chr == 'k' || chr == 'K' {
            PieceType::King
        } else {
            PieceType::Empty
        }
    }

    /// The lower-case letter of a kind, a space for `Empty`.
    pub open spec fn letter(self) -> char {
        match self {
            PieceType::Pawn => 'p',
            PieceType::Knight => 'n',
            PieceType::Bishop => 'b',
            PieceType::Rook => 'r',
            PieceType::Queen => 'q',
            PieceType::King => 'k',
            PieceType::Empty => ' ',
        }
    }
}

impl FromSpecImpl<char> for PieceType {
    open spec fn obeys_from_spec() -> bool {
        true
    }

    open spec fn from_spec(chr: char) -> PieceType {
        PieceType::of_char(chr)
    }
}

impl From<char> for PieceType {
    fn from(chr: char) -> (kind: PieceType) {
        match chr {
            'p' | 'P' => PieceType::Pawn,
            'n' | 'N' => PieceType::Knight,
            'b' | 'B' => PieceType::Bishop,
            'r' | 'R' => PieceType::Rook,
            'q' | 'Q' => PieceType::Queen,
            'k' | 'K' => PieceType::King,
            _ => PieceType::Empty,
        }
    }
}

impl Default for Player {
    fn default() -> (player: Player)
        ensures
            player == Player::Unspecified,
    {
        Player::Unspecified
    }
}

/// Whether `chr` is one of the six lower-case piece letters.
pub open spec fn is_black_letter(chr: char) -> bool {
    chr == 'p' || chr == 'n' || chr == 'b' || chr == 'r' || chr == 'q' || chr == 'k'
}

/// Whether `chr` is one of the six upper-case piece letters.
pub open spec fn is_white_letter(chr: char) -> bool {
    chr == 'P' || chr == 'N' || chr == 'B' || chr == 'R' || chr == 'Q' || chr == 'K'
}

/// Whether `chr` is one of the twelve piece letters.
pub open spec fn is_piece_letter(chr: char) -> bool {
    is_black_letter(chr) || is_white_letter(chr)
}

/// The upper-case form of an ASCII lower-case letter; any other character
/// as it is.
pub open spec fn ascii_upper(chr: char) -> char {
    if 'a' <= chr && chr <= 'z' {
        ((chr as u8) - 32) as char
    } else {
        chr
    }
}

impl Piece {
    /// The square without a piece: no side, no kind.
    pub open spec fn empty() -> Piece {
        Piece { player: Player::Unspecified, piece: PieceType::Empty }
    }

    /// Whether nothing stands on the square. Only the kind decides.
    pub open spec fn is_empty(self) -> bool {
        self.piece == PieceType::Empty
    }

    /// Whether the square is the empty one, or holds a piece of a kind and
    /// of one of the two sides. These are the squares that notation can
    /// describe.
    pub open spec fn is_canonical(self) -> bool {
        if self.piece == PieceType::Empty {
            self.player == Player::Unspecified
        } else {
            self.player != Player::Unspecified
        }
    }

    /// The square that a character describes: a lower-case piece letter is a
    /// black piece, an upper-case one a white piece, anything else the empty
    /// square.
    pub open spec fn of_char(chr: char) -> Piece {
        if is_black_letter(chr) {
            Piece { player: Player::Black, piece: PieceType::of_char(chr) }
        } else if is_white_letter(chr) {
            Piece { player: Player::White, piece: PieceType::of_char(chr) }
        } else {
            Piece::empty()
        }
    }

    /// The character of a square: the letter of its kind, in upper case for
    /// White and in lower case for any other side; a space for no kind.
    pub open spec fn char_repr(self) -> char {
        if self.player == Player::White {
            ascii_upper(self.piece.letter())
        } else {
            self.piece.letter()
        }
    }

    pub fn new(player: Player, piece: PieceType) -> (square: Piece)
        ensures
            square == (Piece { player, piece }),
    {
        Piece { player, piece }
    }

    pub fn get_char_repr(&self) -> (chr: char)
        ensures
            chr == self.char_repr(),
    {
        match self.piece {
            PieceType::Pawn => if self.player == Player::White { 'P' } else { 'p' },
            PieceType::Knight => if self.player == Player::White { 'N' } else { 'n' },
            PieceType::Bishop => if self.player == Player::White { 'B' } else { 'b' },
            PieceType::Rook => if self.player == Player::White { 'R' } else { 'r' },
            PieceType::Queen => if self.player == Player::White { 'Q' } else { 'q' },
            PieceType::King => if self.player == Player::White { 'K' } else { 'k' },
            PieceType::Empty => ' ',
        }
    }
}

impl FromSpecImpl<char> for Piece {
    open spec fn obeys_from_spec() -> bool {
        true
    }

    open spec fn from_spec(chr: char) -> Piece {
        Piece::of_char(chr)
    }
}

impl From<char> for Piece {
    fn from(chr: char) -> (square: Piece) {
        let kind = PieceType::from(chr);
        match kind {
            PieceType::Empty => Piece::new(Player::Unspecified, kind),
            _ => {
                let player = if 'a' <= chr && chr <= 'z' {
                    Player::Black
                } else {
                    Player::White
                };
                Piece::new(player, kind)
            },
        }
    }
}

impl Default for Piece {
    fn default() -> (square: Piece)
        ensures
            square == Piece::empty(),
    {
        Piece::new(Player::Unspecified, PieceType::Empty)
    }
}

/// The character of a canonical square, read as a square, is that square
/// again; it is a space for the empty square and a piece letter otherwise.
pub proof fn lemma_piece_of_char_repr(square: Piece)
    requires
        square.is_canonical(),
    ensures
        Piece::of_char(square.char_repr()) == square,
        square.is_empty() <==> square.char_repr() == ' ',
        !square.is_empty() ==> is_piece_letter(square.char_repr()),
{
}

/// A piece letter read as a square and written again is the same letter.
pub proof fn lemma_char_repr_of_char(chr: char)
    requires
        is_piece_letter(chr),
    ensures
        Piece::of_char(chr).char_repr() == chr,
        Piece::of_char(chr).is_canonical(),
        !Piece::of_char(chr).is_empty(),
{
}

} // verus!
