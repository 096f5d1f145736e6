//! Proofs about the placement field: reading what was written and writing
//! what was read give back what one began with, and a field that can be
//! read has eight ranks of eight files.

use vstd::prelude::*;
use crate::error::FenParsingError;
use crate::piece::{is_piece_letter, lemma_char_repr_of_char, lemma_piece_of_char_repr, Piece};
use crate::placement::{
    board_text, empty_grid, empty_run, is_canonical_grid, is_grid, is_run_digit, lemma_empty_run,
    lemma_empty_run_fits, lemma_scan_concat, placement, put, rank_text, ranks_above_text, Cursor,
    Grid,
};
use crate::text::{digit_char, digit_value, split};

verus! {

/// Whether no two run digits stand side by side in `text`, so that every
/// run of empty squares is written as one number.
pub open spec fn has_single_runs(text: Seq<char>) -> bool {
    forall|i: int|
        0 < i < text.len() ==> !(is_run_digit(#[trigger] text[i - 1]) && is_run_digit(text[i]))
}

/// `grid` with nothing on rank `rank` and on the ranks below it.
pub open spec fn ranks_above(grid: Grid, rank: int) -> Grid {
    Seq::new(
        8,
        |other: int|
            if other > rank {
                grid[other]
            } else {
                empty_grid()[other]
            },
    )
}

/// A step from a valid cursor leads to a valid cursor.
pub proof fn lemma_step_valid(cursor: Cursor, chr: char)
    requires
        cursor.is_valid(),
        cursor.step(chr) is Ok,
    ensures
        cursor.step(chr).unwrap().is_valid(),
{
    let next = cursor.step(chr).unwrap();
    if chr != '/' && !is_run_digit(chr) {
        lemma_char_repr_of_char(chr);
        let piece = Piece::of_char(chr);
        assert forall|rank: int, file: int| 0 <= rank < 8 && 0 <= file < 8 implies (
        #[trigger] next.grid[rank][file]).is_canonical() by {
            if rank == cursor.rank && file == cursor.file {
            } else {
                assert(next.grid[rank][file] == cursor.grid[rank][file]);
            }
        }
        assert forall|rank: int, file: int|
            0 <= rank < 8 && 0 <= file < 8 && (rank < next.rank || (rank == next.rank && file
                >= next.file)) implies #[trigger] next.grid[rank][file] == Piece::empty() by {
            assert(next.grid[rank][file] == cursor.grid[rank][file]);
        }
    }
}

/// Reading from a valid cursor leads to a valid cursor.
pub proof fn lemma_scan_valid(cursor: Cursor, text: Seq<char>)
    requires
        cursor.is_valid(),
        cursor.scan(text) is Ok,
    ensures
        cursor.scan(text).unwrap().is_valid(),
    decreases text.len(),
{
    if text.len() > 0 {
        lemma_scan_valid(cursor, text.drop_last());
        lemma_step_valid(cursor.scan(text.drop_last()).unwrap(), text.last());
    }
}

/// The cursor before the first character is valid.
pub proof fn lemma_start_valid()
    ensures
        Cursor::start().is_valid(),
{
}

/// A board that was read holds only squares that notation can describe.
pub proof fn lemma_placement_is_canonical(field: Seq<char>)
    requires
        placement(field) is Ok,
    ensures
        is_canonical_grid(placement(field).unwrap()),
{
    lemma_start_valid();
    lemma_scan_valid(Cursor::start(), field);
}

/// The squares of a run are empty.
pub proof fn lemma_empty_run_squares(row: Seq<Piece>, upto: int)
    requires
        0 <= upto <= row.len(),
    ensures
        forall|file: int|
            upto - empty_run(row, upto) <= file < upto ==> (#[trigger] row[file]).is_empty(),
        upto - empty_run(row, upto) > 0 ==> !row[upto - empty_run(row, upto) - 1].is_empty(),
        0 <= empty_run(row, upto) <= upto,
    decreases upto,
{
    if upto > 0 && row[upto - 1].is_empty() {
        lemma_empty_run_squares(row, upto - 1);
    }
}

/// The first `upto` squares are written alike on two rows that agree on
/// them.
pub proof fn lemma_rank_text_agrees(first: Seq<Piece>, second: Seq<Piece>, upto: int)
    requires
        0 <= upto <= first.len(),
        upto <= second.len(),
        forall|file: int| 0 <= file < upto ==> first[file] == second[file],
    ensures
        empty_run(first, upto) == empty_run(second, upto),
        rank_text(first, upto) == rank_text(second, upto),
    decreases upto,
{
    if upto > 0 {
        lemma_empty_run_squares(first, upto);
        lemma_empty_run_agrees(first, second, upto);
        if first[upto - 1].is_empty() {
            lemma_rank_text_agrees(first, second, upto - empty_run(first, upto));
        } else {
            lemma_rank_text_agrees(first, second, upto - 1);
        }
    }
}

/// The run before `upto` is the same on two rows that agree before `upto`.
pub proof fn lemma_empty_run_agrees(first: Seq<Piece>, second: Seq<Piece>, upto: int)
    requires
        0 <= upto <= first.len(),
        upto <= second.len(),
        forall|file: int| 0 <= file < upto ==> first[file] == second[file],
    ensures
        empty_run(first, upto) == empty_run(second, upto),
    decreases upto,
{
    if upto > 0 && first[upto - 1].is_empty() {
        lemma_empty_run_agrees(first, second, upto - 1);
    }
}

/// What is written before a rank is the same for two boards that agree
/// above that rank.
pub proof fn lemma_ranks_above_text_agrees(first: Grid, second: Grid, rank: int)
    requires
        0 <= rank < 8,
        forall|other: int| rank < other < 8 ==> first[other] == second[other],
    ensures
        ranks_above_text(first, rank) == ranks_above_text(second, rank),
    decreases 7 - rank,
{
    if rank < 7 {
        lemma_ranks_above_text_agrees(first, second, rank + 1);
    }
}

/// Reading what the first `upto` squares of a row are written as, from the
/// start of an empty rank, fills exactly those squares.
pub proof fn lemma_scan_rank_text(cursor: Cursor, row: Seq<Piece>, upto: int)
    requires
        cursor.is_valid(),
        cursor.file == 0,
        row.len() == 8,
        forall|file: int| 0 <= file < 8 ==> (#[trigger] row[file]).is_canonical(),
        0 <= upto <= 8,
    ensures
        cursor.scan(rank_text(row, upto)) == Ok::<Cursor, FenParsingError>(
            Cursor {
                rank: cursor.rank,
                file: upto,
                grid: cursor.grid.update(
                    cursor.rank,
                    row.take(upto) + cursor.grid[cursor.rank].skip(upto),
                ),
            },
        ),
    decreases upto,
{
    let blank = cursor.grid[cursor.rank];
    let filled = |upto: int| cursor.grid.update(cursor.rank, row.take(upto) + blank.skip(upto));
    if upto == 0 {
        assert(row.take(0) + blank.skip(0) =~= blank);
        assert(filled(0) =~= cursor.grid);
    } else if row[upto - 1].is_empty() {
        let run = empty_run(row, upto) as int;
        lemma_empty_run_squares(row, upto);
        lemma_empty_run_fits(row, upto);
        lemma_scan_rank_text(cursor, row, upto - run);
        let before = rank_text(row, upto - run);
        let chr = digit_char(run);
        let text = rank_text(row, upto);
        assert(text == before + seq![chr]);
        assert(text.drop_last() =~= before);
        assert(text.last() == chr);
        assert(is_run_digit(chr));
        assert(digit_value(chr) == run);
        assert forall|file: int| 0 <= file < 8 implies (row.take(upto - run) + blank.skip(
            upto - run,
        ))[file] == (row.take(upto) + blank.skip(upto))[file] by {
            if upto - run <= file < upto {
                assert(row[file].is_empty());
                assert(row[file].is_canonical());
                assert(cursor.grid[cursor.rank][file] == Piece::empty());
            }
        }
        assert(row.take(upto - run) + blank.skip(upto - run) =~= row.take(upto) + blank.skip(
            upto,
        ));
    } else {
        lemma_scan_rank_text(cursor, row, upto - 1);
        let before = rank_text(row, upto - 1);
        let piece = row[upto - 1];
        let chr = piece.char_repr();
        let text = rank_text(row, upto);
        lemma_piece_of_char_repr(piece);
        assert(text == before + seq![chr]);
        assert(text.drop_last() =~= before);
        assert(text.last() == chr);
        assert((row.take(upto - 1) + blank.skip(upto - 1)).update(upto - 1, piece) =~= row.take(
            upto,
        ) + blank.skip(upto));
        assert(put(filled(upto - 1), cursor.rank, upto - 1, piece) =~= filled(upto));
    }
}

/// Reading what is written before a rank leads to the start of that rank,
/// with the ranks above it filled.
pub proof fn lemma_scan_ranks_above_text(grid: Grid, rank: int)
    requires
        is_canonical_grid(grid),
        0 <= rank < 8,
    ensures
        Cursor::start().scan(ranks_above_text(grid, rank)) == Ok::<Cursor, FenParsingError>(
            Cursor { rank, file: 0, grid: ranks_above(grid, rank) },
        ),
    decreases 7 - rank,
{
    if rank == 7 {
        assert(ranks_above(grid, 7) =~= empty_grid());
    } else {
        lemma_scan_ranks_above_text(grid, rank + 1);
        let above = ranks_above_text(grid, rank + 1);
        let row = grid[rank + 1];
        let first = Cursor { rank: rank + 1, file: 0, grid: ranks_above(grid, rank + 1) };
        assert(first.is_valid()) by {
            assert forall|r: int, f: int| 0 <= r < 8 && 0 <= f < 8 implies (
            #[trigger] first.grid[r][f]).is_canonical() by {
                if r > rank + 1 {
                    assert(grid[r][f].is_canonical());
                }
            }
        }
        assert forall|file: int| 0 <= file < 8 implies (#[trigger] row[file]).is_canonical() by {
            assert(grid[rank + 1][file].is_canonical());
        }
        lemma_scan_rank_text(first, row, 8);
        lemma_scan_concat(Cursor::start(), above, rank_text(row, 8));
        let full = Cursor {
            rank: rank + 1,
            file: 8,
            grid: first.grid.update(rank + 1, row.take(8) + first.grid[rank + 1].skip(8)),
        };
        assert(row.take(8) + first.grid[rank + 1].skip(8) =~= row);
        assert(full.grid =~= ranks_above(grid, rank));
        let text = ranks_above_text(grid, rank);
        assert(text == above + rank_text(row, 8) + seq!['/']);
        assert(text.drop_last() =~= above + rank_text(row, 8));
        assert(text.last() == '/');
    }
}

/// A board of canonical squares, written and read again, is the same
/// board.
pub proof fn lemma_placement_of_board_text(grid: Grid)
    requires
        is_canonical_grid(grid),
    ensures
        placement(board_text(grid)) == Ok::<Grid, FenParsingError>(grid),
{
    lemma_scan_ranks_above_text(grid, 0);
    let first = Cursor { rank: 0, file: 0, grid: ranks_above(grid, 0) };
    let row = grid[0];
    assert(first.is_valid()) by {
        assert forall|r: int, f: int| 0 <= r < 8 && 0 <= f < 8 implies (
        #[trigger] first.grid[r][f]).is_canonical() by {
            if r > 0 {
                assert(grid[r][f].is_canonical());
            }
        }
    }
    assert forall|file: int| 0 <= file < 8 implies (#[trigger] row[file]).is_canonical() by {
        assert(grid[0][file].is_canonical());
    }
    lemma_scan_rank_text(first, row, 8);
    lemma_scan_concat(Cursor::start(), ranks_above_text(grid, 0), rank_text(row, 8));
    assert(row.take(8) + first.grid[0].skip(8) =~= row);
    assert(first.grid.update(0, row) =~= grid);
}

/// Where reading has led, the text read is what the squares passed are
/// written as, provided that the text writes every run as one number.
pub proof fn lemma_text_of_scan(text: Seq<char>)
    requires
        Cursor::start().scan(text) is Ok,
        has_single_runs(text),
    ensures
        ({
            let cursor = Cursor::start().scan(text).unwrap();
            &&& cursor.is_valid()
            &&& text == ranks_above_text(cursor.grid, cursor.rank) + rank_text(
                cursor.grid[cursor.rank],
                cursor.file,
            )
            &&& cursor.file > 0 ==> text.len() > 0 && (cursor.grid[cursor.rank][cursor.file
                - 1].is_empty() <==> is_run_digit(text.last()))
        }),
    decreases text.len(),
{
    lemma_start_valid();
    lemma_scan_valid(Cursor::start(), text);
    let cursor = Cursor::start().scan(text).unwrap();
    if text.len() == 0 {
        assert(text =~= ranks_above_text(cursor.grid, cursor.rank) + rank_text(
            cursor.grid[cursor.rank],
            cursor.file,
        ));
    } else {
        let before = text.drop_last();
        let chr = text.last();
        assert(has_single_runs(before)) by {
            assert forall|i: int| 0 < i < before.len() implies !(is_run_digit(
                #[trigger] before[i - 1],
            ) && is_run_digit(before[i])) by {
                assert(before[i - 1] == text[i - 1]);
                assert(before[i] == text[i]);
            }
        }
        lemma_text_of_scan(before);
        let prior = Cursor::start().scan(before).unwrap();
        let row = prior.grid[prior.rank];
        assert(cursor == prior.step(chr).unwrap());
        assert(text =~= before + seq![chr]);
        if chr == '/' {
            assert(ranks_above_text(cursor.grid, cursor.rank) == ranks_above_text(
                prior.grid,
                prior.rank,
            ) + rank_text(row, 8) + seq!['/']);
        } else if is_run_digit(chr) {
            let run = digit_value(chr);
            if prior.file > 0 {
                assert(before.last() == text[text.len() - 2]);
                assert(!is_run_digit(text[text.len() - 1 - 1]));
                assert(!row[prior.file - 1].is_empty());
            }
            assert forall|file: int| prior.file <= file < prior.file + run implies (
            #[trigger] row[file]).is_empty() by {
                assert(prior.grid[prior.rank][file] == Piece::empty());
            }
            lemma_empty_run(row, prior.file + run, run);
            assert(row[prior.file + run - 1].is_empty());
            assert(rank_text(row, prior.file + run) == rank_text(row, prior.file) + seq![
                digit_char(run),
            ]);
            assert(digit_char(run) == chr);
        } else {
            lemma_char_repr_of_char(chr);
            let piece = Piece::of_char(chr);
            let filled = row.update(prior.file, piece);
            assert(cursor.grid[cursor.rank] == filled);
            lemma_rank_text_agrees(row, filled, prior.file);
            lemma_ranks_above_text_agrees(prior.grid, cursor.grid, prior.rank);
            assert(rank_text(filled, prior.file + 1) == rank_text(filled, prior.file) + seq![
                chr,
            ]);
        }
    }
}

/// A field that writes every run as one number and was read as a board is
/// what that board is written as.
pub proof fn lemma_board_text_of_placement(field: Seq<char>)
    requires
        placement(field) is Ok,
        has_single_runs(field),
    ensures
        board_text(placement(field).unwrap()) == field,
{
    lemma_text_of_scan(field);
}

/// Two texts that write every run as one number do so one after the
/// other too, unless a digit ends the first and a digit begins the second.
pub proof fn lemma_single_runs_concat(first: Seq<char>, second: Seq<char>)
    requires
        has_single_runs(first),
        has_single_runs(second),
        first.len() > 0 && second.len() > 0 ==> !(is_run_digit(first.last()) && is_run_digit(
            second.first(),
        )),
    ensures
        has_single_runs(first + second),
{
    let both = first + second;
    assert forall|i: int| 0 < i < both.len() implies !(is_run_digit(#[trigger] both[i - 1])
        && is_run_digit(both[i])) by {
        if i < first.len() {
            assert(both[i - 1] == first[i - 1] && both[i] == first[i]);
        } else if i == first.len() {
            assert(both[i - 1] == first.last() && both[i] == second.first());
        } else {
            assert(both[i - 1] == second[i - first.len() - 1] && both[i] == second[i
                - first.len()]);
            assert(!(is_run_digit(#[trigger] second[i - first.len() - 1]) && is_run_digit(
                second[i - first.len()],
            )));
        }
    }
}

/// A row is written with every run as one number; what is written ends in
/// a digit exactly where the last square is empty.
pub proof fn lemma_rank_text_single_runs(row: Seq<Piece>, upto: int)
    requires
        0 <= upto <= row.len(),
        upto <= 8,
    ensures
        has_single_runs(rank_text(row, upto)),
        upto > 0 ==> rank_text(row, upto).len() > 0 && (is_run_digit(rank_text(row, upto).last())
            <==> row[upto - 1].is_empty()),
    decreases upto,
{
    if upto > 0 {
        let text = rank_text(row, upto);
        if row[upto - 1].is_empty() {
            let run = empty_run(row, upto) as int;
            lemma_empty_run_squares(row, upto);
            lemma_empty_run_fits(row, upto);
            lemma_rank_text_single_runs(row, upto - run);
            let before = rank_text(row, upto - run);
            assert(text == before + seq![digit_char(run)]);
            assert(has_single_runs(seq![digit_char(run)]));
            lemma_single_runs_concat(before, seq![digit_char(run)]);
            assert(text.last() == digit_char(run));
        } else {
            lemma_rank_text_single_runs(row, upto - 1);
            let before = rank_text(row, upto - 1);
            let chr = row[upto - 1].char_repr();
            assert(text == before + seq![chr]);
            assert(has_single_runs(seq![chr]));
            lemma_single_runs_concat(before, seq![chr]);
            assert(text.last() == chr);
        }
    }
}

/// What is written before a rank writes every run as one number, and ends
/// in a `/` if it is not empty.
pub proof fn lemma_ranks_above_text_single_runs(grid: Grid, rank: int)
    requires
        is_grid(grid),
        0 <= rank < 8,
    ensures
        has_single_runs(ranks_above_text(grid, rank)),
        ranks_above_text(grid, rank).len() > 0 ==> ranks_above_text(grid, rank).last() == '/',
    decreases 7 - rank,
{
    if rank < 7 {
        lemma_ranks_above_text_single_runs(grid, rank + 1);
        let above = ranks_above_text(grid, rank + 1);
        let row = rank_text(grid[rank + 1], 8);
        lemma_rank_text_single_runs(grid[rank + 1], 8);
        lemma_single_runs_concat(above, row);
        assert(has_single_runs(seq!['/']));
        lemma_single_runs_concat(above + row, seq!['/']);
    }
}

/// A board is written with every run of empty squares as one number.
pub proof fn lemma_board_text_single_runs(grid: Grid)
    requires
        is_grid(grid),
    ensures
        has_single_runs(board_text(grid)),
{
    lemma_ranks_above_text_single_runs(grid, 0);
    lemma_rank_text_single_runs(grid[0], 8);
    lemma_single_runs_concat(ranks_above_text(grid, 0), rank_text(grid[0], 8));
}

/// How many files a character of a placement field takes up: a digit as
/// many as it says, a piece letter one.
pub open spec fn files_of_char(chr: char) -> int {
    if is_run_digit(chr) {
        digit_value(chr)
    } else if is_piece_letter(chr) {
        1
    } else {
        0
    }
}

/// How many files the characters of `text` take up together.
pub open spec fn files_of(text: Seq<char>) -> int
    decreases text.len(),
{
    if text.len() == 0 {
        0
    } else {
        files_of(text.drop_last()) + files_of_char(text.last())
    }
}

/// Where reading has led, the cursor has come down one rank for each `/`,
/// stands as many files into its rank as the characters after the last `/`
/// take up, and every rank before has taken up eight.
pub proof fn lemma_scan_ranks(text: Seq<char>)
    requires
        Cursor::start().scan(text) is Ok,
    ensures
        ({
            let cursor = Cursor::start().scan(text).unwrap();
            let ranks = split(text, '/');
            &&& ranks.len() == 8 - cursor.rank
            &&& files_of(ranks.last()) == cursor.file
            &&& forall|k: int| 0 <= k < ranks.len() - 1 ==> files_of(#[trigger] ranks[k]) == 8
        }),
    decreases text.len(),
{
    if text.len() > 0 {
        let before = text.drop_last();
        let chr = text.last();
        lemma_scan_ranks(before);
        let prior = split(before, '/');
        let ranks = split(text, '/');
        if chr == '/' {
            assert forall|k: int| 0 <= k < ranks.len() - 1 implies files_of(#[trigger] ranks[k])
                == 8 by {
                assert(ranks[k] == prior[k]);
            }
        } else {
            let grown = prior.last().push(chr);
            assert(ranks.last() == grown);
            assert(grown.drop_last() =~= prior.last());
            assert forall|k: int| 0 <= k < ranks.len() - 1 implies files_of(#[trigger] ranks[k])
                == 8 by {
                assert(ranks[k] == prior[k]);
            }
        }
    }
}

/// Whether `text` holds nothing but run digits and piece letters, as the
/// part of a placement field between two `/` does.
pub open spec fn is_rank_text(text: Seq<char>) -> bool {
    forall|i: int|
        0 <= i < text.len() ==> is_run_digit(#[trigger] text[i]) || is_piece_letter(text[i])
}

/// Reading the text of one rank moves the cursor along its rank by the
/// files that the text takes up, if the rank has room for them, and is a
/// `RowOverflow` if it has not.
pub proof fn lemma_scan_rank(cursor: Cursor, text: Seq<char>)
    requires
        0 <= cursor.file <= 8,
        is_rank_text(text),
    ensures
        files_of(text) >= 0,
        cursor.file + files_of(text) <= 8 ==> cursor.scan(text) is Ok && cursor.scan(
            text,
        ).unwrap().rank == cursor.rank && cursor.scan(text).unwrap().file == cursor.file
            + files_of(text),
        cursor.file + files_of(text) > 8 ==> cursor.scan(text) == Err::<Cursor, FenParsingError>(
            FenParsingError::RowOverflow,
        ),
    decreases text.len(),
{
    if text.len() > 0 {
        let before = text.drop_last();
        assert(is_rank_text(before)) by {
            assert forall|i: int| 0 <= i < before.len() implies is_run_digit(
                #[trigger] before[i],
            ) || is_piece_letter(before[i]) by {
                assert(before[i] == text[i]);
            }
        }
        assert(is_run_digit(text[text.len() - 1]) || is_piece_letter(text[text.len() - 1]));
        lemma_scan_rank(cursor, before);
    }
}

/// A rank that takes up more than eight files is a `RowOverflow`, if what
/// stands before it can be read and ends a rank.
pub proof fn lemma_overfull_rank(head: Seq<char>, rank: Seq<char>, tail: Seq<char>)
    requires
        Cursor::start().scan(head) is Ok,
        Cursor::start().scan(head).unwrap().file == 0,
        is_rank_text(rank),
        files_of(rank) > 8,
    ensures
        placement(head + rank + tail) == Err::<Grid, FenParsingError>(
            FenParsingError::RowOverflow,
        ),
{
    let first = Cursor::start().scan(head).unwrap();
    lemma_scan_rank(first, rank);
    lemma_scan_concat(Cursor::start(), head, rank);
    lemma_scan_concat(Cursor::start(), head + rank, tail);
}

/// A rank that takes up less than eight files is an `InvalidPosition`,
/// whether a `/` ends it or the field ends with it, if what stands before
/// it can be read and ends a rank.
pub proof fn lemma_short_rank(head: Seq<char>, rank: Seq<char>, tail: Seq<char>)
    requires
        Cursor::start().scan(head) is Ok,
        Cursor::start().scan(head).unwrap().file == 0,
        is_rank_text(rank),
        files_of(rank) < 8,
    ensures
        placement(head + rank) == Err::<Grid, FenParsingError>(FenParsingError::InvalidPosition),
        placement(head + rank + seq!['/'] + tail) == Err::<Grid, FenParsingError>(
            FenParsingError::InvalidPosition,
        ),
{
    let first = Cursor::start().scan(head).unwrap();
    lemma_scan_rank(first, rank);
    lemma_scan_concat(Cursor::start(), head, rank);
    let ended = head + rank + seq!['/'];
    assert(ended.drop_last() =~= head + rank);
    assert(ended.last() == '/');
    lemma_scan_concat(Cursor::start(), ended, tail);
}

/// Every character of a text that can be read as a placement is a `/`, a
/// digit from `1` to `9` or a piece letter.
pub proof fn lemma_scan_chars(cursor: Cursor, text: Seq<char>)
    requires
        cursor.scan(text) is Ok,
    ensures
        forall|i: int|
            0 <= i < text.len() ==> (#[trigger] text[i]) == '/' || is_run_digit(text[i])
                || is_piece_letter(text[i]),
    decreases text.len(),
{
    if text.len() > 0 {
        lemma_scan_chars(cursor, text.drop_last());
        assert forall|i: int| 0 <= i < text.len() implies (#[trigger] text[i]) == '/'
            || is_run_digit(text[i]) || is_piece_letter(text[i]) by {
            if i < text.len() - 1 {
                assert(text[i] == text.drop_last()[i]);
            }
        }
    }
}

/// Reading a placement fails in one of three ways only.
pub proof fn lemma_scan_errors(cursor: Cursor, text: Seq<char>)
    requires
        cursor.scan(text) is Err,
    ensures
        cursor.scan(text) matches Err(error) && (error == FenParsingError::RowOverflow || error
            == FenParsingError::InvalidToken || error == FenParsingError::InvalidPosition),
    decreases text.len(),
{
    if text.len() > 0 && cursor.scan(text.drop_last()) is Err {
        lemma_scan_errors(cursor, text.drop_last());
    }
}

/// A field that can be read as a board has eight ranks, and each of them
/// takes up eight files, no more and no less.
pub proof fn lemma_placement_ranks(field: Seq<char>)
    requires
        placement(field) is Ok,
    ensures
        split(field, '/').len() == 8,
        forall|k: int| 0 <= k < 8 ==> files_of(#[trigger] split(field, '/')[k]) == 8,
{
    lemma_scan_ranks(field);
}

} // verus!
