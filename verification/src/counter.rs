//! The two move counters: a field read as a small decimal number, and a
//! counter written as its digit.

use vstd::prelude::*;
use crate::error::{FenParsingError, FenResult};
use crate::fen::Fen;
use crate::text::{char_to_digit, digit_char, digit_value, is_digit};

verus! {

/// The digits of a counter field: the field itself, without the `+` that
/// may stand before them.
pub open spec fn counter_digits(field: Seq<char>) -> Seq<char> {
    if field.len() > 0 && field.first() == '+' {
        field.drop_first()
    } else {
        field
    }
}

/// Whether `digits` is a decimal number: at least one character, and none
/// but digits.
pub open spec fn is_decimal(digits: Seq<char>) -> bool {
    digits.len() > 0 && forall|i: int| 0 <= i < digits.len() ==> is_digit(#[trigger] digits[i])
}

/// The number that the decimal digits stand for.
pub open spec fn decimal_value(digits: Seq<char>) -> int
    decreases digits.len(),
{
    if digits.len() == 0 {
        0
    } else {
        10 * decimal_value(digits.drop_last()) + digit_value(digits.last())
    }
}

/// What a counter field means: an unsigned decimal number, with or without
/// a `+` before it, that is at most nine.
pub open spec fn move_counter(field: Seq<char>) -> FenResult<u8> {
    let digits = counter_digits(field);
    if is_decimal(digits) && decimal_value(digits) <= 9 {
        Ok(decimal_value(digits) as u8)
    } else {
        Err(FenParsingError::InvalidNumericValue)
    }
}

/// A counter as written: its one digit.
pub open spec fn counter_text(counter: u8) -> Seq<char> {
    seq![digit_char(counter as int)]
}

/// Digits never stand for a negative number.
pub proof fn lemma_decimal_value_nonnegative(digits: Seq<char>)
    requires
        forall|i: int| 0 <= i < digits.len() ==> is_digit(#[trigger] digits[i]),
    ensures
        decimal_value(digits) >= 0,
    decreases digits.len(),
{
    if digits.len() > 0 {
        lemma_decimal_value_nonnegative(digits.drop_last());
    }
}

/// A counter of at most nine, written and read again, is the same counter.
pub proof fn lemma_counter_of_text(counter: u8)
    requires
        counter <= 9,
    ensures
        move_counter(counter_text(counter)) == Ok::<u8, FenParsingError>(counter),
{
    let text = counter_text(counter);
    assert(text.drop_last() =~= Seq::<char>::empty());
    assert(decimal_value(text) == 10 * decimal_value(text.drop_last()) + digit_value(text.last()));
}

/// A field of one character that was read as a counter is what that
/// counter is written as.
pub proof fn lemma_text_of_counter(field: Seq<char>)
    requires
        field.len() == 1,
        move_counter(field) is Ok,
    ensures
        move_counter(field).unwrap() <= 9,
        counter_text(move_counter(field).unwrap()) == field,
{
    assert(field.drop_last() =~= Seq::<char>::empty());
    assert(decimal_value(field) == 10 * decimal_value(field.drop_last()) + digit_value(
        field.last(),
    ));
    assert(counter_text(move_counter(field).unwrap()) =~= field);
}

impl Fen {
    /// Reads a counter field.
    pub fn validate_move_counter(field: &str) -> (counter: FenResult<u8>)
        ensures
            counter == move_counter(field@),
    {
        let ghost lead: int = if field@.len() > 0 && field@.first() == '+' {
            1
        } else {
            0
        };
        let mut first = true;
        let mut any = false;
        let mut stray = false;
        let mut large = false;
        let mut value: u8 = 0;
        for chr in it: field.chars()
            invariant
                it.seq() == field@,
                lead == if field@.len() > 0 && field@.first() == '+' {
                    1int
                } else {
                    0int
                },
                first == (it.index() == 0),
                value <= 9,
                it.index() < lead ==> !any && !stray && !large && value == 0,
                it.index() >= lead ==> ({
                    let seen = field@.subrange(lead, it.index() as int);
                    &&& any == (seen.len() > 0)
                    &&& stray == !(forall|i: int|
                        0 <= i < seen.len() ==> is_digit(#[trigger] seen[i]))
                    &&& !stray ==> large == (decimal_value(seen) > 9)
                    &&& !stray && !large ==> value == decimal_value(seen)
                }),
        {
            proof {
                let at = it.index() as int;
                if at >= lead {
                    let seen = field@.subrange(lead, at);
                    let more = field@.subrange(lead, at + 1);
                    assert(more.drop_last() =~= seen);
                    assert(more.last() == chr);
                    assert forall|i: int| 0 <= i < seen.len() implies seen[i] == more[i] by {}
                    if is_digit(chr) && (forall|i: int|
                        0 <= i < seen.len() ==> is_digit(#[trigger] seen[i])) {
                        assert forall|i: int| 0 <= i < more.len() implies is_digit(
                            #[trigger] more[i],
                        ) by {
                            if i < seen.len() {
                                assert(is_digit(seen[i]));
                            }
                        }
                        lemma_decimal_value_nonnegative(seen);
                    }
                    if !is_digit(chr) {
                        assert(!is_digit(more[more.len() - 1]));
                    }
                } else {
                    assert(field@.subrange(lead, lead) =~= Seq::<char>::empty());
                }
            }
            if first && chr == '+' {
            } else if '0' <= chr && chr <= '9' {
                any = true;
                if value > 0 {
                    large = true;
                } else if !large {
                    value = char_to_digit(chr);
                }
            } else {
                any = true;
                stray = true;
            }
            first = false;
        }
        proof {
            let len = field@.len() as int;
            if len >= lead {
                assert(field@.subrange(lead, len) =~= counter_digits(field@));
            }
        }
        if any && !stray && !large {
            Ok(value)
        } else {
            Err(FenParsingError::InvalidNumericValue)
        }
    }
}

} // verus!
