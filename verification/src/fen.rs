//! The record of a position, what a whole notation means, and the two
//! directions between them: `Fen::parse` and `Fen::to_string`.

use vstd::prelude::*;
use vstd::std_specs::convert::TryFromSpecImpl;
use vstd::string::StringExecFns;
use crate::castling::CastlingStatus;
use crate::counter::{
    counter_digits, counter_text, lemma_decimal_value_nonnegative, move_counter,
};
use crate::enpassant::{lemma_text_of_target, EnpassantTarget};
use crate::error::{FenParsingError, FenResult};
use crate::piece::Player;
use crate::placement::{
    board_text, board_view, empty_board, empty_grid, is_canonical_grid, placement, Board, Grid,
};
use crate::placement_laws::lemma_placement_is_canonical;
use crate::text::{
    count_char, count_of, digit_char, digit_to_char, is_single_char, lemma_split_len, split,
    split_at_char, trim, trimmed,
};

verus! {

/// A position as the notation describes it.
#[derive(Debug, PartialEq)]
pub struct Fen {
    pub board: Board,
    pub player: Player,
    pub castling_status: CastlingStatus,
    pub enpassent_target: Option<EnpassantTarget>,
    pub halfmove_clock: u8,
    pub fullmove_counter: u8,
}

/// A position as a mathematical value: the board as a grid of squares, the
/// other fields as they are.
pub struct Position {
    pub grid: Grid,
    pub player: Player,
    pub castling_status: CastlingStatus,
    pub enpassent_target: Option<EnpassantTarget>,
    pub halfmove_clock: u8,
    pub fullmove_counter: u8,
}

/// The character between two fields.
pub const WHITESPACE: char = ' ';

/// The number of fields.
pub const NOTATION_SEGMENT_COUNT: usize = 6;

/// What a side field means: `w` is White and `b` is Black.
pub open spec fn side_of_field(field: Seq<char>) -> FenResult<Player> {
    if field == seq!['w'] {
        Ok(Player::White)
    } else if field == seq!['b'] {
        Ok(Player::Black)
    } else {
        Err(FenParsingError::InvalidPlayer)
    }
}

/// A side as written: `w` for White, `b` for any other.
pub open spec fn side_char(player: Player) -> char {
    if player == Player::White {
        'w'
    } else {
        'b'
    }
}

/// What an en passant field means: `-` is no target, anything else must be
/// the two characters of one.
pub open spec fn target_of_field(field: Seq<char>) -> FenResult<Option<EnpassantTarget>> {
    if field == seq!['-'] {
        Ok(None)
    } else {
        match EnpassantTarget::of_field(field) {
            Ok(target) => Ok(Some(target)),
            Err(error) => Err(error),
        }
    }
}

/// An en passant target as written; `-` where there is none.
pub open spec fn target_text(target: Option<EnpassantTarget>) -> Seq<char> {
    match target {
        Some(square) => square.text(),
        None => seq!['-'],
    }
}

impl Position {
    /// The position that no notation has filled: an empty board, no side, no
    /// castling right, no target, both counters at zero.
    pub open spec fn empty() -> Position {
        Position {
            grid: empty_grid(),
            player: Player::Unspecified,
            castling_status: CastlingStatus::none(),
            enpassent_target: None,
            halfmove_clock: 0,
            fullmove_counter: 0,
        }
    }

    /// The position after the field at `index` has been read into it, or
    /// why that field cannot be read. The fields are, from 0 on: placement,
    /// side to move, castling rights, en passant target, halfmove clock and
    /// fullmove counter. A field at any other index changes nothing.
    pub open spec fn with_field(self, index: int, field: Seq<char>) -> FenResult<Position> {
        if index == 0 {
            match placement(field) {
                Ok(grid) => Ok(Position { grid, ..self }),
                Err(error) => Err(error),
            }
        } else if index == 1 {
            match side_of_field(field) {
                Ok(player) => Ok(Position { player, ..self }),
                Err(error) => Err(error),
            }
        } else if index == 2 {
            match CastlingStatus::of_field(field) {
                Ok(castling_status) => Ok(Position { castling_status, ..self }),
                Err(error) => Err(error),
            }
        } else if index == 3 {
            match target_of_field(field) {
                Ok(enpassent_target) => Ok(Position { enpassent_target, ..self }),
                Err(error) => Err(error),
            }
        } else if index == 4 {
            match move_counter(field) {
                Ok(halfmove_clock) => Ok(Position { halfmove_clock, ..self }),
                Err(error) => Err(error),
            }
        } else if index == 5 {
            match move_counter(field) {
                Ok(fullmove_counter) => Ok(Position { fullmove_counter, ..self }),
                Err(error) => Err(error),
            }
        } else {
            Ok(self)
        }
    }

    /// The position after the first `count` of `fields` have been read into
    /// it in order, or the error of the first among them that cannot be
    /// read.
    pub open spec fn with_fields(self, fields: Seq<Seq<char>>, count: int) -> FenResult<Position>
        decreases count,
    {
        if count <= 0 {
            Ok(self)
        } else {
            match self.with_fields(fields, count - 1) {
                Ok(position) => position.with_field(count - 1, fields[count - 1]),
                Err(error) => Err(error),
            }
        }
    }

    /// The position that six fields describe. The fields are read in order,
    /// and the first that cannot be read decides the error.
    pub open spec fn of_fields(fields: Seq<Seq<char>>) -> FenResult<Position> {
        match placement(fields[0]) {
            Err(error) => Err(error),
            Ok(grid) => match side_of_field(fields[1]) {
                Err(error) => Err(error),
                Ok(player) => match CastlingStatus::of_field(fields[2]) {
                    Err(error) => Err(error),
                    Ok(castling_status) => match target_of_field(fields[3]) {
                        Err(error) => Err(error),
                        Ok(enpassent_target) => match move_counter(fields[4]) {
                            Err(error) => Err(error),
                            Ok(halfmove_clock) => match move_counter(fields[5]) {
                                Err(error) => Err(error),
                                Ok(fullmove_counter) => Ok(
                                    Position {
                                        grid,
                                        player,
                                        castling_status,
                                        enpassent_target,
                                        halfmove_clock,
                                        fullmove_counter,
                                    },
                                ),
                            },
                        },
                    },
                },
            },
        }
    }

    /// What a notation means. White space around it does not count. Nothing
    /// but white space is the empty position. Anything else must be six
    /// fields with one space between each two, which is the same as to hold
    /// five spaces.
    pub open spec fn of_text(text: Seq<char>) -> FenResult<Position> {
        let inner = trimmed(text);
        if inner.len() == 0 {
            Ok(Position::empty())
        } else if count_of(inner, ' ') != 5 {
            Err(FenParsingError::InsufficentFields)
        } else {
            Position::of_fields(split(inner, ' '))
        }
    }

    /// Whether the position keeps what every position read from a notation
    /// keeps: a board of canonical squares, a target that is valid where
    /// there is one, and counters of at most nine.
    pub open spec fn is_valid(self) -> bool {
        &&& is_canonical_grid(self.grid)
        &&& self.enpassent_target matches Some(square) ==> square.is_valid()
        &&& self.halfmove_clock <= 9
        &&& self.fullmove_counter <= 9
    }

    /// Whether the position is valid and one of the two sides is to move.
    /// These are the positions that a notation of six fields describes.
    pub open spec fn is_complete(self) -> bool {
        self.is_valid() && self.player != Player::Unspecified
    }

    /// Whether each number of the position can be written as one digit.
    pub open spec fn is_writable(self) -> bool {
        &&& self.halfmove_clock <= 9
        &&& self.fullmove_counter <= 9
        &&& self.enpassent_target matches Some(square) ==> square.rank <= 9
    }

    /// The position as written: the six fields in order, with one space
    /// between each two.
    pub open spec fn text(self) -> Seq<char> {
        board_text(self.grid) + seq![' '] + seq![side_char(self.player)] + seq![' ']
            + self.castling_status.text() + seq![' '] + target_text(self.enpassent_target) + seq![
            ' ',
        ] + counter_text(self.halfmove_clock) + seq![' '] + counter_text(self.fullmove_counter)
    }
}

/// Reading six fields one after the other is reading them as one record.
pub proof fn lemma_with_fields_is_of_fields(fields: Seq<Seq<char>>)
    ensures
        Position::empty().with_fields(fields, 6) == Position::of_fields(fields),
{
    reveal_with_fuel(Position::with_fields, 7);
}

impl View for Fen {
    type V = Position;

    open spec fn view(&self) -> Position {
        Position {
            grid: board_view(self.board),
            player: self.player,
            castling_status: self.castling_status,
            enpassent_target: self.enpassent_target,
            halfmove_clock: self.halfmove_clock,
            fullmove_counter: self.fullmove_counter,
        }
    }
}

impl Default for Fen {
    fn default() -> (fen: Fen)
        ensures
            fen@ == Position::empty(),
    {
        Fen {
            board: empty_board(),
            player: Player::default(),
            castling_status: CastlingStatus::default(),
            enpassent_target: None,
            halfmove_clock: 0,
            fullmove_counter: 0,
        }
    }
}

/// Whatever a notation is read as is a valid position, and one with a side
/// to move unless the notation was nothing but white space.
pub proof fn lemma_of_text_is_valid(text: Seq<char>)
    requires
        Position::of_text(text) is Ok,
    ensures
        Position::of_text(text).unwrap().is_valid(),
        trimmed(text).len() > 0 ==> Position::of_text(text).unwrap().is_complete(),
        trimmed(text).len() == 0 ==> Position::of_text(text).unwrap() == Position::empty(),
{
    let inner = trimmed(text);
    if inner.len() > 0 {
        let fields = split(inner, ' ');
        lemma_placement_is_canonical(fields[0]);
        if fields[3] != seq!['-'] {
            lemma_text_of_target(fields[3]);
        }
        lemma_decimal_value_nonnegative(counter_digits(fields[4]));
        lemma_decimal_value_nonnegative(counter_digits(fields[5]));
    } else {
        assert(is_canonical_grid(empty_grid()));
    }
}

impl Fen {
    /// Reads one field into `fen`. `field` is the place of the field in the
    /// notation, counted from 0, and its text.
    pub fn validate(field: (usize, &str), fen: &mut Fen) -> (done: FenResult<()>)
        ensures
            match old(fen)@.with_field(field.0 as int, field.1@) {
                Ok(position) => done is Ok && final(fen)@ == position,
                Err(error) => done == Err::<(), FenParsingError>(error) && *final(fen) == *old(
                    fen,
                ),
            },
    {
        let (idx, string) = field;
        match idx {
            0 => {
                fen.board = Self::is_valid_piece_pos(string)?;
            },
            1 => {
                if is_single_char(string, 'w') {
                    fen.player = Player::White;
                } else if is_single_char(string, 'b') {
                    fen.player = Player::Black;
                } else {
                    return Err(FenParsingError::InvalidPlayer);
                }
            },
            2 => {
                fen.castling_status = Self::validate_castling_status(string)?;
            },
            3 => {
                fen.enpassent_target = if is_single_char(string, '-') {
                    None
                } else {
                    Some(EnpassantTarget::try_from(string)?)
                }
            },
            4 => {
                fen.halfmove_clock = Self::validate_move_counter(string)?;
            },
            5 => {
                fen.fullmove_counter = Self::validate_move_counter(string)?;
            },
            _ => {
                return Ok(());
            },
        }
        Ok(())
    }

    /// Reads a notation.
    pub fn parse(notation: &str) -> (fen: FenResult<Fen>)
        ensures
            match Position::of_text(notation@) {
                Ok(position) => fen is Ok && fen.unwrap()@ == position,
                Err(error) => fen is Err && fen.unwrap_err() == error,
            },
            fen is Ok ==> fen.unwrap()@.is_valid(),
            fen is Ok && trimmed(notation@).len() > 0 ==> fen.unwrap()@.is_complete(),
    {
        proof {
            if Position::of_text(notation@) is Ok {
                lemma_of_text_is_valid(notation@);
            }
        }
        let not_ref = trim(notation);
        let mut fen = Fen::default();
        if not_ref.is_empty() {
            return Ok(fen);
        }
        let whitespace_count = count_char(not_ref, WHITESPACE);
        if whitespace_count != NOTATION_SEGMENT_COUNT - 1 {
            return Err(FenParsingError::InsufficentFields);
        }
        let split_segments = split_at_char(not_ref, WHITESPACE);
        let ghost fields = split(not_ref@, ' ');
        proof {
            lemma_split_len(not_ref@, ' ');
            lemma_with_fields_is_of_fields(fields);
        }
        for i in 0..split_segments.len()
            invariant
                split_segments@.len() == 6,
                fields.len() == 6,
                forall|k: int| 0 <= k < 6 ==> (#[trigger] split_segments@[k])@ == fields[k],
                Position::empty().with_fields(fields, i as int) == Ok::<Position, FenParsingError>(
                    fen@,
                ),
                Position::empty().with_fields(fields, 6) == Position::of_text(notation@),
        {
            proof {
                reveal_with_fuel(Position::with_fields, 7);
            }
            Self::validate((i, split_segments[i]), &mut fen)?;
        }
        Ok(fen)
    }

    /// Whether each number of the record can be written as one digit, as
    /// `to_string` asks.
    pub fn is_writable(&self) -> (writable: bool)
        ensures
            writable == self@.is_writable(),
    {
        let target = match &self.enpassent_target {
            Some(square) => square.rank <= 9,
            None => true,
        };
        target && self.halfmove_clock <= 9 && self.fullmove_counter <= 9
    }

    /// Writes the position as a notation.
    pub fn to_string(&self) -> (notation: String)
        requires
            self@.is_writable(),
        ensures
            notation@ == self@.text(),
    {
        let mut notation = self.board_to_string();
        notation.push(WHITESPACE);
        notation.push(
            if self.player == Player::White {
                'w'
            } else {
                'b'
            },
        );
        notation.push(WHITESPACE);
        let rights = self.castling_status.to_string();
        notation.append(rights.as_str());
        notation.push(WHITESPACE);
        if let Some(target) = &self.enpassent_target {
            notation.push(target.file);
            notation.push(digit_to_char(target.rank as u8));
        } else {
            notation.push('-');
        }
        notation.push(WHITESPACE);
        notation.push(digit_to_char(self.halfmove_clock));
        notation.push(WHITESPACE);
        notation.push(digit_to_char(self.fullmove_counter));
        proof {
            lemma_text_by_pushes(self@);
        }
        notation
    }
}

/// The notation of a position as it comes about when it is written
/// character by character.
spec fn text_by_pushes(position: Position) -> Seq<char> {
    let rights = (board_text(position.grid).push(' ').push(side_char(position.player)).push(' ')
        + position.castling_status.text()).push(' ');
    let target = match position.enpassent_target {
        Some(square) => rights.push(square.file).push(digit_char(square.rank as int)),
        None => rights.push('-'),
    };
    target.push(' ').push(digit_char(position.halfmove_clock as int)).push(' ').push(
        digit_char(position.fullmove_counter as int),
    )
}

/// A character put behind a text is that text and the character after it.
proof fn lemma_push(text: Seq<char>, chr: char)
    ensures
        text.push(chr) == text + seq![chr],
{
    assert(text.push(chr) =~= text + seq![chr]);
}

/// Written character by character, a position is its six fields with a
/// space between each two.
proof fn lemma_text_by_pushes(position: Position)
    ensures
        text_by_pushes(position) == position.text(),
{
    let board = board_text(position.grid);
    lemma_push(board, ' ');
    lemma_push(board + seq![' '], side_char(position.player));
    let side = board + seq![' '] + seq![side_char(position.player)];
    lemma_push(side, ' ');
    let rights = side + seq![' '] + position.castling_status.text();
    lemma_push(rights, ' ');
    let gap = rights + seq![' '];
    match position.enpassent_target {
        Some(square) => {
            assert(gap.push(square.file).push(digit_char(square.rank as int)) =~= gap
                + square.text());
        },
        None => {
            lemma_push(gap, '-');
        },
    }
    let target = gap + target_text(position.enpassent_target);
    lemma_push(target, ' ');
    lemma_push(target + seq![' '], digit_char(position.halfmove_clock as int));
    let clock = target + seq![' '] + counter_text(position.halfmove_clock);
    lemma_push(clock, ' ');
    lemma_push(clock + seq![' '], digit_char(position.fullmove_counter as int));
}

/// A record is known by its view: two records with the same view are the
/// same record.
pub proof fn lemma_view_decides(first: Fen, second: Fen)
    requires
        first@ == second@,
    ensures
        first == second,
{
    assert forall|rank: int| 0 <= rank < 8 implies first.board[rank] == second.board[rank] by {
        assert(board_view(first.board)[rank] == board_view(second.board)[rank]);
        assert(first.board[rank]@ == second.board[rank]@);
        assert forall|file: int| 0 <= file < 8 implies first.board[rank][file]
            == second.board[rank][file] by {
            assert(first.board[rank]@[file] == second.board[rank]@[file]);
        }
        assert(first.board[rank] =~= second.board[rank]);
    }
    assert(first.board =~= second.board);
}

impl TryFromSpecImpl<String> for Fen {
    open spec fn obeys_try_from_spec() -> bool {
        true
    }

    open spec fn try_from_spec(notation: String) -> FenResult<Fen> {
        match Position::of_text(notation@) {
            Ok(position) => Ok(choose|fen: Fen| fen@ == position),
            Err(error) => Err(error),
        }
    }
}

impl TryFrom<String> for Fen {
    type Error = FenParsingError;

    /// Reads a notation, as `parse` does.
    fn try_from(notation: String) -> (fen: FenResult<Fen>) {
        let fen = Self::parse(notation.as_str());
        proof {
            if fen is Ok {
                let position = Position::of_text(notation@).unwrap();
                let chosen = choose|fen: Fen| fen@ == position;
                lemma_view_decides(chosen, fen.unwrap());
            }
        }
        fen
    }
}

} // verus!
