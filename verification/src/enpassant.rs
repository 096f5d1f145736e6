//! The en passant target: a file letter and the digit of the third or the
//! sixth rank.

use vstd::prelude::*;
use vstd::std_specs::convert::TryFromSpecImpl;
use crate::error::{FenParsingError, FenResult};
use crate::text::{char_to_digit, digit_char, digit_value};

verus! {

/// The square behind a pawn that has just advanced two squares.
#[derive(Debug, PartialEq, Eq, Clone, Copy, Structural)]
pub struct EnpassantTarget {
    pub file: char,
    pub rank: usize,
}

impl EnpassantTarget {
    /// Whether the square can be such a target: a file from `a` to `h`, on
    /// the third or the sixth rank.
    pub open spec fn is_valid(self) -> bool {
        'a' <= self.file <= 'h' && (self.rank == 3 || self.rank == 6)
    }

    /// What a two-character field means: a file letter and a `3` or a `6`.
    /// Anything else is turned down.
    pub open spec fn of_field(field: Seq<char>) -> FenResult<EnpassantTarget> {
        if field.len() == 2 && 'a' <= field[0] <= 'h' && (field[1] == '3' || field[1] == '6') {
            Ok(EnpassantTarget { file: field[0], rank: digit_value(field[1]) as usize })
        } else {
            Err(FenParsingError::InvalidEnpassentTarget)
        }
    }

    /// The square as written: the file letter, then the digit of the rank.
    pub open spec fn text(self) -> Seq<char> {
        seq![self.file, digit_char(self.rank as int)]
    }
}

impl Default for EnpassantTarget {
    fn default() -> (target: EnpassantTarget)
        ensures
            target == (EnpassantTarget { file: '\0', rank: 0 }),
    {
        EnpassantTarget { file: '\0', rank: 0 }
    }
}

impl<'a> TryFromSpecImpl<&'a str> for EnpassantTarget {
    open spec fn obeys_try_from_spec() -> bool {
        true
    }

    open spec fn try_from_spec(field: &'a str) -> FenResult<EnpassantTarget> {
        EnpassantTarget::of_field(field@)
    }
}

impl<'a> TryFrom<&'a str> for EnpassantTarget {
    type Error = FenParsingError;

    fn try_from(field: &'a str) -> (target: FenResult<EnpassantTarget>) {
        let mut it = field.chars();
        let first = it.next();
        let second = it.next();
        let third = it.next();
        match (first, second, third) {
            (Some(file), Some(rank), None) => {
                let is_valid_file = 'a' <= file && file <= 'h';
                if !is_valid_file || !(rank == '3' || rank == '6') {
                    return Err(FenParsingError::InvalidEnpassentTarget);
                }
                Ok(EnpassantTarget { file, rank: char_to_digit(rank) as usize })
            },
            _ => Err(FenParsingError::InvalidEnpassentTarget),
        }
    }
}

/// A valid target, written and read again, is the same target.
pub proof fn lemma_target_of_text(target: EnpassantTarget)
    requires
        target.is_valid(),
    ensures
        EnpassantTarget::of_field(target.text()) == Ok::<EnpassantTarget, FenParsingError>(target),
{
}

/// A field that was read as a target is what that target is written as.
pub proof fn lemma_text_of_target(field: Seq<char>)
    requires
        EnpassantTarget::of_field(field) is Ok,
    ensures
        EnpassantTarget::of_field(field).unwrap().is_valid(),
        EnpassantTarget::of_field(field).unwrap().text() == field,
{
    assert(EnpassantTarget::of_field(field).unwrap().text() =~= field);
}

} // verus!
