//! The placement field: the cursor that reads it square by square, the
//! run lengths that write it, and the board between the two.

use vstd::prelude::*;
use crate::error::{FenParsingError, FenResult};
use crate::fen::Fen;
use crate::piece::{is_piece_letter, Piece, PieceType};
use crate::text::{char_to_digit, digit_char, digit_to_char, digit_value};

verus! {

/// The ranks of a board.
pub const ROWS: usize = 8;

/// The files of a rank.
pub const COLS: usize = 8;

/// The board: `board[rank][file]`, rank 0 being White's first rank and file
/// 0 the a-file.
pub type Board = [[Piece; 8]; 8];

/// A board as a mathematical value: eight ranks of eight squares each.
pub type Grid = Seq<Seq<Piece>>;

/// The squares of a board.
pub open spec fn board_view(board: Board) -> Grid {
    Seq::new(8, |rank: int| board@[rank]@)
}

/// The board on which nothing stands.
pub open spec fn empty_grid() -> Grid {
    Seq::new(8, |rank: int| Seq::new(8, |file: int| Piece::empty()))
}

/// Whether `grid` has eight ranks of eight squares.
pub open spec fn is_grid(grid: Grid) -> bool {
    grid.len() == 8 && forall|rank: int| 0 <= rank < 8 ==> (#[trigger] grid[rank]).len() == 8
}

/// Whether every square of `grid` is one that notation can describe.
pub open spec fn is_canonical_grid(grid: Grid) -> bool {
    is_grid(grid) && forall|rank: int, file: int|
        0 <= rank < 8 && 0 <= file < 8 ==> (#[trigger] grid[rank][file]).is_canonical()
}

/// `grid` with `piece` put on one square.
pub open spec fn put(grid: Grid, rank: int, file: int, piece: Piece) -> Grid {
    grid.update(rank, grid[rank].update(file, piece))
}

/// Where a reader of the placement field stands: the rank it is filling,
/// the file it will fill next, and the squares filled so far.
pub struct Cursor {
    pub rank: int,
    pub file: int,
    pub grid: Grid,
}

/// Whether `chr` announces a run of empty squares.
pub open spec fn is_run_digit(chr: char) -> bool {
    '1' <= chr <= '9'
}

impl Cursor {
    /// Before the first character: at the a-file of the eighth rank, on an
    /// empty board.
    pub open spec fn start() -> Cursor {
        Cursor { rank: 7, file: 0, grid: empty_grid() }
    }

    /// The cursor after one more character, or why that character cannot
    /// stand there.
    ///
    /// A `/` ends a rank that is full, unless it is the last. A digit from
    /// `1` to `9` skips that many squares and a piece letter fills one, as
    /// long as the rank has room. No other character is accepted.
    pub open spec fn step(self, chr: char) -> FenResult<Cursor> {
        if chr == '/' {
            if self.file != 8 || self.rank == 0 {
                Err(FenParsingError::InvalidPosition)
            } else {
                Ok(Cursor { rank: self.rank - 1, file: 0, grid: self.grid })
            }
        } else if is_run_digit(chr) {
            if self.file + digit_value(chr) > 8 {
                Err(FenParsingError::RowOverflow)
            } else {
                Ok(Cursor { file: self.file + digit_value(chr), ..self })
            }
        } else if is_piece_letter(chr) {
            if self.file >= 8 {
                Err(FenParsingError::RowOverflow)
            } else {
                Ok(
                    Cursor {
                        file: self.file + 1,
                        grid: put(self.grid, self.rank, self.file, Piece::of_char(chr)),
                        ..self
                    },
                )
            }
        } else {
            Err(FenParsingError::InvalidToken)
        }
    }

    /// The cursor after the characters of `text`, read from left to right,
    /// or the error of the first character that cannot stand where it does.
    pub open spec fn scan(self, text: Seq<char>) -> FenResult<Cursor>
        decreases text.len(),
    {
        if text.len() == 0 {
            Ok(self)
        } else {
            match self.scan(text.drop_last()) {
                Ok(cursor) => cursor.step(text.last()),
                Err(error) => Err(error),
            }
        }
    }

    /// Whether the cursor is on the board, the grid is whole, every square
    /// is canonical, and nothing stands yet on the squares still to come.
    pub open spec fn is_valid(self) -> bool {
        &&& 0 <= self.rank < 8
        &&& 0 <= self.file <= 8
        &&& is_canonical_grid(self.grid)
        &&& forall|rank: int, file: int|
            0 <= rank < 8 && 0 <= file < 8 && (rank < self.rank || (rank == self.rank && file
                >= self.file)) ==> #[trigger] self.grid[rank][file] == Piece::empty()
    }
}

/// What a placement field means: the board that its characters fill, rank
/// by rank from the eighth down and file by file from `a` on. The field
/// must end exactly at the end of the first rank.
pub open spec fn placement(field: Seq<char>) -> FenResult<Grid> {
    match Cursor::start().scan(field) {
        Ok(cursor) => if cursor.file == 8 && cursor.rank == 0 {
            Ok(cursor.grid)
        } else {
            Err(FenParsingError::InvalidPosition)
        },
        Err(error) => Err(error),
    }
}

/// How many empty squares stand side by side directly before square `upto`
/// of `row`.
pub open spec fn empty_run(row: Seq<Piece>, upto: int) -> nat
    decreases upto,
{
    if upto <= 0 || !row[upto - 1].is_empty() {
        0
    } else {
        1 + empty_run(row, upto - 1)
    }
}

/// A run before `upto` is no longer than `upto`.
pub proof fn lemma_empty_run_fits(row: Seq<Piece>, upto: int)
    ensures
        upto >= 0 ==> empty_run(row, upto) <= upto,
        upto > 0 && row[upto - 1].is_empty() ==> empty_run(row, upto) >= 1,
    decreases upto,
{
    if upto > 0 && row[upto - 1].is_empty() {
        lemma_empty_run_fits(row, upto - 1);
    }
}

/// The first `upto` squares of `row` as written: a piece is its letter, and
/// empty squares side by side are one digit, their number.
pub open spec fn rank_text(row: Seq<Piece>, upto: int) -> Seq<char>
    decreases upto,
    via rank_text_decreases
{
    if upto <= 0 {
        Seq::<char>::empty()
    } else if row[upto - 1].is_empty() {
        let run = empty_run(row, upto);
        rank_text(row, upto - run) + seq![digit_char(run as int)]
    } else {
        rank_text(row, upto - 1) + seq![row[upto - 1].char_repr()]
    }
}

#[via_fn]
proof fn rank_text_decreases(row: Seq<Piece>, upto: int) {
    lemma_empty_run_fits(row, upto);
}

/// What is written before rank `rank` begins: every rank above it, each
/// followed by a `/`.
pub open spec fn ranks_above_text(grid: Grid, rank: int) -> Seq<char>
    decreases 7 - rank,
{
    if rank >= 7 {
        Seq::<char>::empty()
    } else {
        ranks_above_text(grid, rank + 1) + rank_text(grid[rank + 1], 8) + seq!['/']
    }
}

/// The board as written: the ranks from the eighth down to the first, with
/// a `/` between two ranks.
pub open spec fn board_text(grid: Grid) -> Seq<char> {
    ranks_above_text(grid, 0) + rank_text(grid[0], 8)
}

/// Reading `first` and then `second` is reading the two as one text.
pub proof fn lemma_scan_concat(cursor: Cursor, first: Seq<char>, second: Seq<char>)
    ensures
        cursor.scan(first + second) == match cursor.scan(first) {
            Ok(middle) => middle.scan(second),
            Err(error) => Err(error),
        },
    decreases second.len(),
{
    if second.len() == 0 {
        assert(first + second =~= first);
    } else {
        assert((first + second).drop_last() =~= first + second.drop_last());
        lemma_scan_concat(cursor, first, second.drop_last());
    }
}

/// An error stays: a text with a beginning that cannot be read cannot be
/// read, for the same reason.
pub proof fn lemma_scan_error_stays(cursor: Cursor, text: Seq<char>, upto: int)
    requires
        0 <= upto <= text.len(),
    ensures
        cursor.scan(text.take(upto)) is Err ==> cursor.scan(text) == cursor.scan(text.take(upto)),
{
    assert(text =~= text.take(upto) + text.skip(upto));
    lemma_scan_concat(cursor, text.take(upto), text.skip(upto));
}

/// Reading one more character is one step from where the text before it
/// has led.
pub proof fn lemma_scan_next(cursor: Cursor, text: Seq<char>, upto: int)
    requires
        0 <= upto < text.len(),
    ensures
        cursor.scan(text.take(upto + 1)) == match cursor.scan(text.take(upto)) {
            Ok(middle) => middle.step(text[upto]),
            Err(error) => Err(error),
        },
{
    assert(text.take(upto + 1).drop_last() =~= text.take(upto));
}

/// The run of empty squares before `upto` has length `run` when exactly the
/// `run` squares before `upto` are empty.
pub proof fn lemma_empty_run(row: Seq<Piece>, upto: int, run: int)
    requires
        0 <= run <= upto <= row.len(),
        forall|file: int| upto - run <= file < upto ==> (#[trigger] row[file]).is_empty(),
        upto - run > 0 ==> !row[upto - run - 1].is_empty(),
    ensures
        empty_run(row, upto) == run,
    decreases run,
{
    if run > 0 {
        assert(row[upto - 1].is_empty());
        lemma_empty_run(row, upto - 1, run - 1);
    }
}

/// Sixty-four empty squares.
fn empty_squares() -> (board: Board)
    ensures
        forall|rank: int, file: int|
            0 <= rank < 8 && 0 <= file < 8 ==> board@[rank]@[file] == Piece::empty(),
{
    let square = Piece::default();
    let row = [square, square, square, square, square, square, square, square];
    [row, row, row, row, row, row, row, row]
}

/// A board on which nothing stands.
pub fn empty_board() -> (board: Board)
    ensures
        board_view(board) == empty_grid(),
{
    let board = empty_squares();
    assert(board_view(board) =~~= empty_grid());
    board
}

impl Fen {
    /// Reads a placement field into a board.
    pub fn is_valid_piece_pos(pieces: &str) -> (board: FenResult<Board>)
        ensures
            match placement(pieces@) {
                Ok(grid) => board is Ok && board_view(board.unwrap()) == grid,
                Err(error) => board is Err && board.unwrap_err() == error,
            },
    {
        let mut file: usize = 0;
        let mut rank: usize = ROWS - 1;
        let mut board = empty_board();
        for current in it: pieces.chars()
            invariant
                it.seq() == pieces@,
                file <= 8,
                rank <= 7,
                Cursor::start().scan(pieces@.take(it.index() as int)) == Ok::<
                    Cursor,
                    FenParsingError,
                >(Cursor { rank: rank as int, file: file as int, grid: board_view(board) }),
        {
            proof {
                lemma_scan_next(Cursor::start(), pieces@, it.index() as int);
                lemma_scan_error_stays(Cursor::start(), pieces@, it.index() + 1);
            }
            if current == '/' {
                if file != COLS || rank == 0 {
                    return Err(FenParsingError::InvalidPosition);
                }
                rank -= 1;
                file = 0;
            } else if '1' <= current && current <= '9' {
                let digit = char_to_digit(current) as usize;
                let next = file + digit;
                if next > COLS {
                    return Err(FenParsingError::RowOverflow);
                }
                file = next;
            } else if current == 'P' || current == 'p' || current == 'K' || current == 'k'
                || current == 'N' || current == 'n' || current == 'R' || current == 'r' || current
                == 'Q' || current == 'q' || current == 'b' || current == 'B' {
                if file >= COLS {
                    return Err(FenParsingError::RowOverflow);
                }
                let ghost before = board_view(board);
                board[rank][file] = Piece::from(current);
                assert(board_view(board) =~~= put(
                    before,
                    rank as int,
                    file as int,
                    Piece::of_char(current),
                ));
                file += 1;
            } else {
                return Err(FenParsingError::InvalidToken);
            }
        }
        proof {
            assert(pieces@.take(pieces@.len() as int) =~= pieces@);
        }
        if file != COLS || rank > 0 {
            return Err(FenParsingError::InvalidPosition);
        }
        Ok(board)
    }

    /// Writes the board as a placement field.
    pub fn board_to_string(&self) -> (notation: String)
        ensures
            notation@ == board_text(self@.grid),
    {
        let ghost grid = board_view(self.board);
        let mut notation = String::new();
        let mut rank: usize = ROWS;
        while rank > 0
            invariant
                0 <= rank <= 8,
                grid == board_view(self.board),
                rank > 0 ==> notation@ == ranks_above_text(grid, rank - 1),
                rank == 0 ==> notation@ == board_text(grid),
            decreases rank,
        {
            rank -= 1;
            let ghost above = notation@;
            let ghost row = grid[rank as int];
            let mut space_count: u8 = 0;
            let mut file: usize = 0;
            while file < COLS
                invariant
                    0 <= rank < 8,
                    0 <= file <= 8,
                    grid == board_view(self.board),
                    row == grid[rank as int],
                    row.len() == 8,
                    space_count <= file,
                    notation@ == above + rank_text(row, file - space_count),
                    forall|other: int|
                        file - space_count <= other < file ==> (#[trigger] row[other]).is_empty(),
                    file - space_count > 0 ==> !row[file - space_count - 1].is_empty(),
                decreases 8 - file,
            {
                let current = &self.board[rank][file];
                assert(*current == row[file as int]);
                match current.piece {
                    PieceType::Empty => {
                        space_count += 1;
                    },
                    _ => {
                        if space_count > 0 {
                            proof {
                                lemma_empty_run(row, file as int, space_count as int);
                                assert(rank_text(row, file as int) == rank_text(
                                    row,
                                    file - space_count,
                                ) + seq![digit_char(space_count as int)]);
                            }
                            notation.push(digit_to_char(space_count));
                            space_count = 0;
                        }
                        assert(notation@ =~= above + rank_text(row, file as int));
                        notation.push(current.get_char_repr());
                        assert(rank_text(row, file + 1) == rank_text(row, file as int)
                            + seq![row[file as int].char_repr()]);
                        assert(notation@ =~= above + rank_text(row, file + 1));
                    },
                }
                file += 1;
            }
            if space_count > 0 {
                proof {
                    lemma_empty_run(row, 8, space_count as int);
                    assert(rank_text(row, 8) == rank_text(row, 8 - space_count) + seq![
                        digit_char(space_count as int),
                    ]);
                }
                notation.push(digit_to_char(space_count));
                space_count = 0;
            }
            assert(notation@ =~= above + rank_text(row, 8));
            if rank > 0 {
                notation.push('/');
                assert(notation@ =~= ranks_above_text(grid, rank - 1));
            }
        }
        notation
    }
}

} // verus!
