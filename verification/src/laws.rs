//! What holds of reading and writing together: a position that is written
//! and read again is the same position, and a notation in canonical form
//! that is read and written again is the same notation.

use vstd::prelude::*;
use crate::castling::{is_ordered_castling, lemma_castling_of_text, lemma_text_of_castling};
use crate::counter::{counter_text, lemma_counter_of_text, lemma_text_of_counter};
use crate::enpassant::{lemma_target_of_text, lemma_text_of_target, EnpassantTarget};
use crate::error::FenParsingError;
use crate::fen::{
    lemma_of_text_is_valid, side_char, side_of_field, target_of_field, target_text, Position,
};
use crate::piece::Player;
use crate::placement::{board_text, Cursor};
use crate::placement_laws::{
    has_single_runs, lemma_board_text_of_placement, lemma_board_text_single_runs,
    lemma_placement_of_board_text, lemma_scan_chars, lemma_scan_errors,
};
use crate::text::{
    is_whitespace, join, lemma_join_split, lemma_split_len, lemma_split_one,
    lemma_split_push, lemma_trim_end_at, lemma_trim_start_at, split, trimmed,
};

verus! {

/// Whether a notation is written the one way in which positions are
/// written: no white space around it, six fields, every run of empty
/// squares as one number, the castling rights in order and each once, and
/// each counter as one digit.
pub open spec fn is_canonical_text(text: Seq<char>) -> bool {
    let fields = split(text, ' ');
    &&& text.len() > 0
    &&& trimmed(text) == text
    &&& fields.len() == 6
    &&& has_single_runs(fields[0])
    &&& is_ordered_castling(fields[2])
    &&& fields[4].len() == 1
    &&& fields[5].len() == 1
}

/// Nothing but white space is read as the empty position.
pub proof fn lemma_blank_text(text: Seq<char>)
    requires
        forall|i: int| 0 <= i < text.len() ==> is_whitespace(#[trigger] text[i]),
    ensures
        Position::of_text(text) == Ok::<Position, FenParsingError>(Position::empty()),
{
    lemma_trim_start_at(text, text.len() as int);
    assert(text.subrange(text.len() as int, text.len() as int) =~= Seq::<char>::empty());
}

/// A notation that does not fall into six fields is turned down for that,
/// unless it is nothing but white space.
pub proof fn lemma_field_count(text: Seq<char>)
    requires
        trimmed(text).len() > 0,
        split(trimmed(text), ' ').len() != 6,
    ensures
        Position::of_text(text) == Err::<Position, FenParsingError>(
            FenParsingError::InsufficentFields,
        ),
{
    lemma_split_len(trimmed(text), ' ');
}

/// No notation is turned down as a `ColOverflow`: that error is kept in
/// reserve.
pub proof fn lemma_no_col_overflow(text: Seq<char>)
    ensures
        Position::of_text(text) != Err::<Position, FenParsingError>(FenParsingError::ColOverflow),
{
    let fields = split(trimmed(text), ' ');
    if Cursor::start().scan(fields[0]) is Err {
        lemma_scan_errors(Cursor::start(), fields[0]);
    }
}

/// Six texts without a space, put one after the other with a space between
/// each two, are cut into the same six again.
proof fn lemma_split_six(
    one: Seq<char>,
    two: Seq<char>,
    three: Seq<char>,
    four: Seq<char>,
    five: Seq<char>,
    six: Seq<char>,
)
    requires
        !one.contains(' '),
        !two.contains(' '),
        !three.contains(' '),
        !four.contains(' '),
        !five.contains(' '),
        !six.contains(' '),
    ensures
        split(
            one + seq![' '] + two + seq![' '] + three + seq![' '] + four + seq![' '] + five + seq![
                ' ',
            ] + six,
            ' ',
        ) == seq![one, two, three, four, five, six],
{
    let gap = seq![' '];
    let first = one;
    let second = first + gap + two;
    let third = second + gap + three;
    let fourth = third + gap + four;
    let fifth = fourth + gap + five;
    let sixth = fifth + gap + six;
    lemma_split_one(one, ' ');
    lemma_split_push(first, two, ' ');
    assert(split(second, ' ') =~= seq![one, two]);
    lemma_split_push(second, three, ' ');
    assert(split(third, ' ') =~= seq![one, two, three]);
    lemma_split_push(third, four, ' ');
    assert(split(fourth, ' ') =~= seq![one, two, three, four]);
    lemma_split_push(fourth, five, ' ');
    assert(split(fifth, ' ') =~= seq![one, two, three, four, five]);
    lemma_split_push(fifth, six, ' ');
    assert(split(sixth, ' ') =~= seq![one, two, three, four, five, six]);
}

/// A text that neither begins nor ends with white space has none around
/// it.
proof fn lemma_trimmed_is_whole(text: Seq<char>)
    requires
        text.len() > 0,
        !is_whitespace(text.first()),
        !is_whitespace(text.last()),
    ensures
        trimmed(text) == text,
{
    lemma_trim_start_at(text, 0);
    assert(text.subrange(0, text.len() as int) =~= text);
    lemma_trim_end_at(text, text.len() as int);
}

/// No field of a complete position holds a space as written, the
/// placement begins with a visible character, and each field is read as
/// what it was written from.
proof fn lemma_fields_of_position(position: Position)
    requires
        position.is_complete(),
    ensures
        board_text(position.grid).len() > 0,
        !is_whitespace(board_text(position.grid).first()),
        !board_text(position.grid).contains(' '),
        !position.castling_status.text().contains(' '),
        !target_text(position.enpassent_target).contains(' '),
        has_single_runs(board_text(position.grid)),
        is_ordered_castling(position.castling_status.text()),
        Position::of_fields(
            seq![
                board_text(position.grid),
                seq![side_char(position.player)],
                position.castling_status.text(),
                target_text(position.enpassent_target),
                counter_text(position.halfmove_clock),
                counter_text(position.fullmove_counter),
            ],
        ) == Ok::<Position, FenParsingError>(position),
{
    let board = board_text(position.grid);
    let rights = position.castling_status.text();
    let target = target_text(position.enpassent_target);
    lemma_placement_of_board_text(position.grid);
    lemma_board_text_single_runs(position.grid);
    lemma_scan_chars(Cursor::start(), board);
    assert(board.len() > 0);
    assert(!board.contains(' '));
    lemma_castling_of_text(position.castling_status);
    assert(!rights.contains(' '));
    if let Some(square) = position.enpassent_target {
        lemma_target_of_text(square);
        assert(square.text().len() == 2);
    }
    assert(!target.contains(' '));
    assert(target_of_field(target) == Ok::<Option<EnpassantTarget>, FenParsingError>(
        position.enpassent_target,
    ));
    let side = seq![side_char(position.player)];
    assert(side_of_field(side) == Ok::<Player, FenParsingError>(position.player)) by {
        if position.player == Player::White {
            assert(side =~= seq!['w']);
        } else {
            assert(side =~= seq!['b']);
            assert(seq!['b'][0] != seq!['w'][0]);
        }
    }
    lemma_counter_of_text(position.halfmove_clock);
    lemma_counter_of_text(position.fullmove_counter);
}

/// A complete position, written and read again, is the same position; and
/// it is written in canonical form.
pub proof fn lemma_position_round_trip(position: Position)
    requires
        position.is_complete(),
    ensures
        Position::of_text(position.text()) == Ok::<Position, FenParsingError>(position),
        is_canonical_text(position.text()),
{
    let board = board_text(position.grid);
    let side = seq![side_char(position.player)];
    let rights = position.castling_status.text();
    let target = target_text(position.enpassent_target);
    let half = counter_text(position.halfmove_clock);
    let full = counter_text(position.fullmove_counter);
    let text = position.text();
    lemma_fields_of_position(position);
    assert(!side.contains(' '));
    assert(!half.contains(' '));
    assert(!full.contains(' '));
    lemma_split_six(board, side, rights, target, half, full);
    lemma_split_len(text, ' ');
    assert(text.first() == board.first());
    assert(text.last() == full.last());
    lemma_trimmed_is_whole(text);
}

/// A notation in canonical form that was read as a position is what that
/// position is written as.
pub proof fn lemma_text_round_trip(text: Seq<char>)
    requires
        is_canonical_text(text),
        Position::of_text(text) is Ok,
    ensures
        Position::of_text(text).unwrap().text() == text,
{
    let position = Position::of_text(text).unwrap();
    let fields = split(text, ' ');
    lemma_join_split(text, ' ');
    assert(join(fields, ' ') == ((((fields[0] + seq![' '] + fields[1]) + seq![' '] + fields[2])
        + seq![' '] + fields[3]) + seq![' '] + fields[4]) + seq![' '] + fields[5]) by {
        let five = fields.drop_last();
        let four = five.drop_last();
        let three = four.drop_last();
        let two = three.drop_last();
        let one = two.drop_last();
        assert(join(one, ' ') == fields[0]);
        assert(join(two, ' ') == join(one, ' ') + seq![' '] + fields[1]);
        assert(join(three, ' ') == join(two, ' ') + seq![' '] + fields[2]);
        assert(join(four, ' ') == join(three, ' ') + seq![' '] + fields[3]);
        assert(join(five, ' ') == join(four, ' ') + seq![' '] + fields[4]);
        assert(join(fields, ' ') == join(five, ' ') + seq![' '] + fields[5]);
    }
    lemma_board_text_of_placement(fields[0]);
    assert(seq![side_char(position.player)] =~= fields[1]);
    lemma_text_of_castling(fields[2]);
    if fields[3] != seq!['-'] {
        lemma_text_of_target(fields[3]);
    }
    lemma_text_of_counter(fields[4]);
    lemma_text_of_counter(fields[5]);
    assert(position.text() =~= join(fields, ' '));
}

/// What a notation of six fields was read as is written in canonical form,
/// and what is written is read as the same position again.
pub proof fn lemma_written_form(text: Seq<char>)
    requires
        Position::of_text(text) is Ok,
        trimmed(text).len() > 0,
    ensures
        is_canonical_text(Position::of_text(text).unwrap().text()),
        Position::of_text(Position::of_text(text).unwrap().text()) == Position::of_text(text),
{
    lemma_of_text_is_valid(text);
    lemma_position_round_trip(Position::of_text(text).unwrap());
}

} // verus!
