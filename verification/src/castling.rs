//! Castling rights: the four flags, the field that grants them and the
//! letters they are written as.

use vstd::prelude::*;
use vstd::std_specs::convert::FromSpecImpl;
use crate::error::{FenParsingError, FenResult};
use crate::fen::Fen;
use crate::piece::{Piece, PieceType, Player};
use crate::text::is_single_char;

verus! {

/// The two castling rights of one side.
#[derive(Debug, PartialEq, Eq, Clone, Copy, Structural)]
pub struct CastlingAbility {
    pub king: bool,
    pub queen: bool,
}

/// The castling rights of both sides: four flags, none of which depends on
/// another.
#[derive(Debug, PartialEq, Eq, Clone, Copy, Structural)]
pub struct CastlingStatus {
    pub white: CastlingAbility,
    pub black: CastlingAbility,
}

/// Whether `chr` names a castling right.
pub open spec fn is_castling_letter(chr: char) -> bool {
    chr == 'K' || chr == 'Q' || chr == 'k' || chr == 'q'
}

/// Where a castling letter stands in the order in which rights are written;
/// four for any other character.
pub open spec fn castling_order(chr: char) -> int {
    if chr == 'K' {
        0
    } else if chr == 'Q' {
        1
    } else if chr == 'k' {
        2
    } else if chr == 'q' {
        3
    } else {
        4
    }
}

/// `chr` alone if `flag` holds, nothing otherwise.
pub open spec fn letter_if(flag: bool, chr: char) -> Seq<char> {
    if flag {
        seq![chr]
    } else {
        Seq::<char>::empty()
    }
}

impl CastlingAbility {
    /// Neither right.
    pub open spec fn none() -> CastlingAbility {
        CastlingAbility { king: false, queen: false }
    }
}

impl Default for CastlingAbility {
    fn default() -> (ability: CastlingAbility)
        ensures
            ability == CastlingAbility::none(),
    {
        CastlingAbility { king: false, queen: false }
    }
}

impl CastlingStatus {
    /// No right on either side.
    pub open spec fn none() -> CastlingStatus {
        CastlingStatus { white: CastlingAbility::none(), black: CastlingAbility::none() }
    }

    /// The rights that the letters of `field` grant, each letter counted
    /// once however often it occurs.
    pub open spec fn of_letters(field: Seq<char>) -> CastlingStatus {
        CastlingStatus {
            white: CastlingAbility { king: field.contains('K'), queen: field.contains('Q') },
            black: CastlingAbility { king: field.contains('k'), queen: field.contains('q') },
        }
    }

    /// What a castling field means: `-` is no right at all; otherwise every
    /// character must name a right, and the field grants the rights named.
    pub open spec fn of_field(field: Seq<char>) -> FenResult<CastlingStatus> {
        if field == seq!['-'] {
            Ok(CastlingStatus::none())
        } else if forall|i: int| 0 <= i < field.len() ==> is_castling_letter(#[trigger] field[i]) {
            Ok(CastlingStatus::of_letters(field))
        } else {
            Err(FenParsingError::InvalidCastlingStatus)
        }
    }

    /// The rights as written: the letters of the rights held, in the order
    /// `K`, `Q`, `k`, `q`. Without any right this is the empty text.
    pub open spec fn text(self) -> Seq<char> {
        letter_if(self.white.king, 'K') + letter_if(self.white.queen, 'Q') + letter_if(
            self.black.king,
            'k',
        ) + letter_if(self.black.queen, 'q')
    }

    /// The rights after a king or queen of one of the two sides has granted
    /// its own. No other square grants anything.
    pub open spec fn grant(self, piece: Piece) -> FenResult<CastlingStatus> {
        match (piece.player, piece.piece) {
            (Player::White, PieceType::King) => Ok(
                CastlingStatus { white: CastlingAbility { king: true, ..self.white }, ..self },
            ),
            (Player::White, PieceType::Queen) => Ok(
                CastlingStatus { white: CastlingAbility { queen: true, ..self.white }, ..self },
            ),
            (Player::Black, PieceType::King) => Ok(
                CastlingStatus { black: CastlingAbility { king: true, ..self.black }, ..self },
            ),
            (Player::Black, PieceType::Queen) => Ok(
                CastlingStatus { black: CastlingAbility { queen: true, ..self.black }, ..self },
            ),
            _ => Err(FenParsingError::InvalidCastlingStatus),
        }
    }

    /// Grants White the right that a king or queen stands for.
    pub fn set_white_castling_ability(&mut self, piece: &Piece) -> (done: FenResult<()>)
        ensures
            piece.piece == PieceType::King ==> done is Ok && *final(self) == (CastlingStatus {
                white: CastlingAbility { king: true, ..old(self).white },
                ..*old(self)
            }),
            piece.piece == PieceType::Queen ==> done is Ok && *final(self) == (CastlingStatus {
                white: CastlingAbility { queen: true, ..old(self).white },
                ..*old(self)
            }),
            piece.piece != PieceType::King && piece.piece != PieceType::Queen ==> done == Err::<
                (),
                FenParsingError,
            >(FenParsingError::InvalidCastlingStatus) && *final(self) == *old(self),
    {
        match piece.piece {
            PieceType::King => {
                self.white.king = true;
            },
            PieceType::Queen => {
                self.white.queen = true;
            },
            _ => {
                return Err(FenParsingError::InvalidCastlingStatus);
            },
        }
        Ok(())
    }

    /// Grants Black the right that a king or queen stands for.
    pub fn set_black_castling_ability(&mut self, piece: &Piece) -> (done: FenResult<()>)
        ensures
            piece.piece == PieceType::King ==> done is Ok && *final(self) == (CastlingStatus {
                black: CastlingAbility { king: true, ..old(self).black },
                ..*old(self)
            }),
            piece.piece == PieceType::Queen ==> done is Ok && *final(self) == (CastlingStatus {
                black: CastlingAbility { queen: true, ..old(self).black },
                ..*old(self)
            }),
            piece.piece != PieceType::King && piece.piece != PieceType::Queen ==> done == Err::<
                (),
                FenParsingError,
            >(FenParsingError::InvalidCastlingStatus) && *final(self) == *old(self),
    {
        match piece.piece {
            PieceType::King => {
                self.black.king = true;
            },
            PieceType::Queen => {
                self.black.queen = true;
            },
            _ => {
                return Err(FenParsingError::InvalidCastlingStatus);
            },
        }
        Ok(())
    }

    /// Grants the right that `piece` stands for to the side of `piece`.
    pub fn set_enabled(&mut self, piece: Piece) -> (done: FenResult<()>)
        ensures
            match old(self).grant(piece) {
                Ok(status) => done is Ok && *final(self) == status,
                Err(error) => done == Err::<(), FenParsingError>(error) && *final(self) == *old(
                    self,
                ),
            },
    {
        match piece.player {
            Player::White => self.set_white_castling_ability(&piece),
            Player::Black => self.set_black_castling_ability(&piece),
            Player::Unspecified => Err(FenParsingError::InvalidCastlingStatus),
        }
    }

    /// Writes the rights held, in the order `K`, `Q`, `k`, `q`.
    pub fn to_string(&self) -> (text: String)
        ensures
            text@ == self.text(),
    {
        let mut string = String::new();
        if self.white.king {
            string.push('K');
        }
        if self.white.queen {
            string.push('Q');
        }
        if self.black.king {
            string.push('k');
        }
        if self.black.queen {
            string.push('q');
        }
        string
    }
}

impl Fen {
    /// Reads a castling field.
    pub fn validate_castling_status(field: &str) -> (status: FenResult<CastlingStatus>)
        ensures
            status == CastlingStatus::of_field(field@),
    {
        let mut status = CastlingStatus::default();
        if is_single_char(field, '-') {
            return Ok(status);
        }
        for chr in it: field.chars()
            invariant
                it.seq() == field@,
                field@ != seq!['-'],
                forall|i: int| 0 <= i < it.index() ==> is_castling_letter(#[trigger] field@[i]),
                status == CastlingStatus::of_letters(field@.take(it.index() as int)),
        {
            proof {
                let at = it.index() as int;
                let before = field@.take(at);
                let now = field@.take(at + 1);
                assert(now =~= before.push(chr));
                assert forall|c: char| now.contains(c) <==> (before.contains(c) || c == chr) by {
                    if before.contains(c) {
                        let i = choose|i: int| 0 <= i < before.len() && before[i] == c;
                        assert(now[i] == c);
                    }
                    if c == chr {
                        assert(now[at] == c);
                    }
                }
                if !is_castling_letter(chr) {
                    assert(!is_castling_letter(field@[at]));
                }
            }
            match status.set_enabled(Piece::from(chr)) {
                Ok(()) => {},
                Err(error) => {
                    return Err(error);
                },
            }
        }
        proof {
            assert(field@.take(field@.len() as int) =~= field@);
        }
        Ok(status)
    }
}

impl Default for CastlingStatus {
    fn default() -> (status: CastlingStatus)
        ensures
            status == CastlingStatus::none(),
    {
        CastlingStatus { white: CastlingAbility::default(), black: CastlingAbility::default() }
    }
}

impl FromSpecImpl<(bool, bool, bool, bool)> for CastlingStatus {
    open spec fn obeys_from_spec() -> bool {
        true
    }

    open spec fn from_spec(flags: (bool, bool, bool, bool)) -> CastlingStatus {
        CastlingStatus {
            white: CastlingAbility { king: flags.0, queen: flags.1 },
            black: CastlingAbility { king: flags.2, queen: flags.3 },
        }
    }
}

impl From<(bool, bool, bool, bool)> for CastlingStatus {
    /// The rights in the order white king side, white queen side, black king
    /// side, black queen side.
    fn from(flags: (bool, bool, bool, bool)) -> (status: CastlingStatus) {
        CastlingStatus {
            white: CastlingAbility { king: flags.0, queen: flags.1 },
            black: CastlingAbility { king: flags.2, queen: flags.3 },
        }
    }
}

/// Whether a castling field names its rights in the order in which they
/// are written, each of them once.
pub open spec fn is_ordered_castling(field: Seq<char>) -> bool {
    &&& forall|i: int| 0 <= i < field.len() ==> is_castling_letter(#[trigger] field[i])
    &&& forall|i: int, j: int|
        0 <= i < j < field.len() ==> castling_order(#[trigger] field[i]) < castling_order(
            #[trigger] field[j],
        )
}

/// Any castling rights, written and read again, are the same rights.
pub proof fn lemma_castling_of_text(status: CastlingStatus)
    ensures
        CastlingStatus::of_field(status.text()) == Ok::<CastlingStatus, FenParsingError>(status),
        is_ordered_castling(status.text()),
{
    let text = status.text();
    let first = letter_if(status.white.king, 'K');
    let second = letter_if(status.white.queen, 'Q');
    let third = letter_if(status.black.king, 'k');
    let fourth = letter_if(status.black.queen, 'q');
    assert(text == first + second + third + fourth);
    assert(text.len() == first.len() + second.len() + third.len() + fourth.len());
    assert forall|i: int| 0 <= i < text.len() implies {
        &&& is_castling_letter(#[trigger] text[i])
        &&& text[i] == 'K' ==> status.white.king && i == 0
        &&& text[i] == 'Q' ==> status.white.queen && i == first.len()
        &&& text[i] == 'k' ==> status.black.king && i == first.len() + second.len()
        &&& text[i] == 'q' ==> status.black.queen && i == first.len() + second.len()
            + third.len()
    } by {
        if i < first.len() {
            assert(text[i] == first[i]);
        } else if i < first.len() + second.len() {
            assert(text[i] == second[i - first.len()]);
        } else if i < first.len() + second.len() + third.len() {
            assert(text[i] == third[i - first.len() - second.len()]);
        } else {
            assert(text[i] == fourth[i - first.len() - second.len() - third.len()]);
        }
    }
    if status.white.king {
        assert(text[0] == 'K');
    }
    if status.white.queen {
        assert(text[first.len() as int] == 'Q');
    }
    if status.black.king {
        assert(text[(first.len() + second.len()) as int] == 'k');
    }
    if status.black.queen {
        assert(text[(first.len() + second.len() + third.len()) as int] == 'q');
    }
    assert(text.len() > 0 ==> text[0] != '-');
}

/// A field that names its rights in order, each once, and was read as
/// castling rights is what those rights are written as.
pub proof fn lemma_text_of_castling(field: Seq<char>)
    requires
        is_ordered_castling(field),
    ensures
        CastlingStatus::of_field(field) == Ok::<CastlingStatus, FenParsingError>(
            CastlingStatus::of_letters(field),
        ),
        CastlingStatus::of_letters(field).text() == field,
{
    let status = CastlingStatus::of_letters(field);
    let text = status.text();
    assert(field.len() > 0 ==> field[0] != '-');
    lemma_castling_of_text(status);
    assert forall|chr: char| is_castling_letter(chr) implies (field.contains(chr)
        <==> text.contains(chr)) by {
        let back = CastlingStatus::of_letters(text);
        assert(back == status);
    }
    lemma_ordered_same_letters(field, text);
}

/// Two fields in order that hold the same letters are the same field.
proof fn lemma_ordered_same_letters(first: Seq<char>, second: Seq<char>)
    requires
        is_ordered_castling(first),
        is_ordered_castling(second),
        forall|chr: char| is_castling_letter(chr) ==> (first.contains(chr) <==> second.contains(chr)),
    ensures
        first == second,
    decreases first.len(),
{
    if first.len() == 0 {
        if second.len() > 0 {
            assert(second.contains(second[0]));
        }
        assert(first =~= second);
    } else if second.len() == 0 {
        assert(first.contains(first[0]));
    } else {
        let a = first.last();
        let b = second.last();
        assert(first.contains(a));
        assert(second.contains(b));
        let i = choose|i: int| 0 <= i < second.len() && second[i] == a;
        let j = choose|j: int| 0 <= j < first.len() && first[j] == b;
        assert(a == b) by {
            if i < second.len() - 1 {
                assert(castling_order(second[i]) < castling_order(second[second.len() - 1]));
            }
            if j < first.len() - 1 {
                assert(castling_order(first[j]) < castling_order(first[first.len() - 1]));
            }
        }
        let head = first.drop_last();
        let tail = second.drop_last();
        assert forall|chr: char| is_castling_letter(chr) implies (head.contains(chr)
            <==> tail.contains(chr)) by {
            if head.contains(chr) {
                let k = choose|k: int| 0 <= k < head.len() && head[k] == chr;
                assert(first[k] == chr);
                assert(castling_order(first[k]) < castling_order(first[first.len() - 1]));
                assert(first.contains(chr));
                let m = choose|m: int| 0 <= m < second.len() && second[m] == chr;
                assert(m < second.len() - 1);
                assert(tail[m] == chr);
            }
            if tail.contains(chr) {
                let k = choose|k: int| 0 <= k < tail.len() && tail[k] == chr;
                assert(second[k] == chr);
                assert(castling_order(second[k]) < castling_order(second[second.len() - 1]));
                assert(second.contains(chr));
                let m = choose|m: int| 0 <= m < first.len() && first[m] == chr;
                assert(m < first.len() - 1);
                assert(head[m] == chr);
            }
        }
        assert(is_ordered_castling(head)) by {
            assert forall|i: int| 0 <= i < head.len() implies is_castling_letter(
                #[trigger] head[i],
            ) by {
                assert(head[i] == first[i]);
            }
            assert forall|i: int, j: int| 0 <= i < j < head.len() implies castling_order(
                #[trigger] head[i],
            ) < castling_order(#[trigger] head[j]) by {
                assert(head[i] == first[i] && head[j] == first[j]);
            }
        }
        assert(is_ordered_castling(tail)) by {
            assert forall|i: int| 0 <= i < tail.len() implies is_castling_letter(
                #[trigger] tail[i],
            ) by {
                assert(tail[i] == second[i]);
            }
            assert forall|i: int, j: int| 0 <= i < j < tail.len() implies castling_order(
                #[trigger] tail[i],
            ) < castling_order(#[trigger] tail[j]) by {
                assert(tail[i] == second[i] && tail[j] == second[j]);
            }
        }
        lemma_ordered_same_letters(head, tail);
        assert(first =~= head.push(a));
        assert(second =~= tail.push(b));
    }
}

} // verus!
