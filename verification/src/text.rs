//! Text as a sequence of characters: white space, trimming, counting and
//! cutting at a separator, and digits.

use vstd::prelude::*;
use vstd::string::StrSliceExecFns;

verus! {

/// The characters with the Unicode property White_Space.
pub open spec fn is_whitespace(chr: char) -> bool {
    let code = chr as u32;
    ||| 0x09 <= code <= 0x0d
    ||| code == 0x20
    ||| code == 0x85
    ||| code == 0xa0
    ||| code == 0x1680
    ||| 0x2000 <= code <= 0x200a
    ||| code == 0x2028
    ||| code == 0x2029
    ||| code == 0x202f
    ||| code == 0x205f
    ||| code == 0x3000
}

/// Whether `chr` is one of the ten decimal digits.
pub open spec fn is_digit(chr: char) -> bool {
    '0' <= chr <= '9'
}

/// The number that a decimal digit stands for.
pub open spec fn digit_value(chr: char) -> int {
    chr as int - '0' as int
}

/// The decimal digit that stands for `value`, for a value of at most nine.
pub open spec fn digit_char(value: int) -> char {
    ('0' as int + value) as char
}

/// `text` without the white space it begins with.
pub open spec fn trim_start(text: Seq<char>) -> Seq<char>
    decreases text.len(),
{
    if text.len() > 0 && is_whitespace(text.first()) {
        trim_start(text.drop_first())
    } else {
        text
    }
}

/// `text` without the white space it ends with.
pub open spec fn trim_end(text: Seq<char>) -> Seq<char>
    decreases text.len(),
{
    if text.len() > 0 && is_whitespace(text.last()) {
        trim_end(text.drop_last())
    } else {
        text
    }
}

/// `text` without the white space around it.
pub open spec fn trimmed(text: Seq<char>) -> Seq<char> {
    trim_end(trim_start(text))
}

/// How often `chr` occurs in `text`.
pub open spec fn count_of(text: Seq<char>, chr: char) -> nat
    decreases text.len(),
{
    if text.len() == 0 {
        0
    } else {
        count_of(text.drop_last(), chr) + if text.last() == chr {
            1nat
        } else {
            0nat
        }
    }
}

/// The pieces into which the occurrences of `sep` cut `text`, in order. A
/// text without `sep` is one piece; two occurrences side by side, or one at
/// either end, bound an empty piece.
pub open spec fn split(text: Seq<char>, sep: char) -> Seq<Seq<char>>
    decreases text.len(),
{
    if text.len() == 0 {
        seq![Seq::<char>::empty()]
    } else {
        let before = split(text.drop_last(), sep);
        if text.last() == sep {
            before.push(Seq::<char>::empty())
        } else {
            before.drop_last().push(before.last().push(text.last()))
        }
    }
}

/// `pieces` one after the other, with `sep` between each two.
pub open spec fn join(pieces: Seq<Seq<char>>, sep: char) -> Seq<char>
    decreases pieces.len(),
{
    if pieces.len() == 0 {
        Seq::<char>::empty()
    } else if pieces.len() == 1 {
        pieces[0]
    } else {
        join(pieces.drop_last(), sep) + seq![sep] + pieces.last()
    }
}

/// Taken on trust from the standard library, whose documentation says of
/// `String::push` that it appends the given character to the end of the
/// string: afterwards the string holds what it held before, followed by
/// `chr`.
pub assume_specification[ String::push ](text: &mut String, chr: char)
    ensures
        final(text)@ == old(text)@.push(chr),
;

/// Whether `text` is the single character `chr`.
pub fn is_single_char(text: &str, chr: char) -> (same: bool)
    ensures
        same == (text@ == seq![chr]),
{
    let mut it = text.chars();
    let first = it.next();
    let second = it.next();
    proof {
        if text@.len() == 1 && text@[0] == chr {
            assert(text@ =~= seq![chr]);
        }
    }
    match (first, second) {
        (Some(only), None) => only == chr,
        _ => false,
    }
}

/// The digit that stands for `value`.
pub fn digit_to_char(value: u8) -> (chr: char)
    requires
        value <= 9,
    ensures
        chr == digit_char(value as int),
        is_digit(chr),
        digit_value(chr) == value,
{
    (value + 48u8) as char
}

/// The number that the digit `chr` stands for.
pub fn char_to_digit(chr: char) -> (value: u8)
    requires
        is_digit(chr),
    ensures
        value == digit_value(chr),
        value <= 9,
        digit_char(value as int) == chr,
{
    (chr as u32 - 48u32) as u8
}

pub fn char_is_whitespace(chr: char) -> (white: bool)
    ensures
        white == is_whitespace(chr),
{
    let code = chr as u32;
    (0x09 <= code && code <= 0x0d) || code == 0x20 || code == 0x85 || code == 0xa0 || code
        == 0x1680 || (0x2000 <= code && code <= 0x200a) || code == 0x2028 || code == 0x2029
        || code == 0x202f || code == 0x205f || code == 0x3000
}

/// Cutting always yields a piece more than there are separators.
pub proof fn lemma_split_len(text: Seq<char>, sep: char)
    ensures
        split(text, sep).len() == count_of(text, sep) + 1,
    decreases text.len(),
{
    if text.len() > 0 {
        lemma_split_len(text.drop_last(), sep);
    }
}

/// A text without `sep` is one piece.
pub proof fn lemma_split_one(piece: Seq<char>, sep: char)
    requires
        !piece.contains(sep),
    ensures
        split(piece, sep) == seq![piece],
    decreases piece.len(),
{
    if piece.len() == 0 {
        assert(piece =~= Seq::<char>::empty());
    } else {
        let before = piece.drop_last();
        assert(piece.last() != sep) by {
            assert(piece[piece.len() - 1] == sep ==> piece.contains(sep));
        }
        assert(!before.contains(sep)) by {
            if before.contains(sep) {
                let i = choose|i: int| 0 <= i < before.len() && before[i] == sep;
                assert(piece[i] == sep);
            }
        }
        lemma_split_one(before, sep);
        assert(before.push(piece.last()) =~= piece);
        assert(seq![before].drop_last().push(seq![before].last().push(piece.last()))
            =~= seq![piece]);
    }
}

/// A separator and a piece without one, put behind a text, add that piece
/// to the pieces of the text.
pub proof fn lemma_split_push(text: Seq<char>, piece: Seq<char>, sep: char)
    requires
        !piece.contains(sep),
    ensures
        split(text + seq![sep] + piece, sep) == split(text, sep).push(piece),
    decreases piece.len(),
{
    let whole = text + seq![sep] + piece;
    if piece.len() == 0 {
        assert(whole.drop_last() =~= text);
        assert(piece =~= Seq::<char>::empty());
    } else {
        let before = piece.drop_last();
        assert(piece.last() != sep) by {
            assert(piece[piece.len() - 1] == sep ==> piece.contains(sep));
        }
        assert(!before.contains(sep)) by {
            if before.contains(sep) {
                let i = choose|i: int| 0 <= i < before.len() && before[i] == sep;
                assert(piece[i] == sep);
            }
        }
        lemma_split_push(text, before, sep);
        assert(whole.drop_last() =~= text + seq![sep] + before);
        assert(whole.last() == piece.last());
        assert(before.push(piece.last()) =~= piece);
        let pieces = split(text, sep).push(before);
        assert(pieces.drop_last() =~= split(text, sep));
    }
}

/// No piece holds the separator.
pub proof fn lemma_split_pieces(text: Seq<char>, sep: char)
    ensures
        forall|k: int|
            0 <= k < split(text, sep).len() ==> !(#[trigger] split(text, sep)[k]).contains(sep),
    decreases text.len(),
{
    let pieces = split(text, sep);
    if text.len() == 0 {
    } else {
        let before = split(text.drop_last(), sep);
        lemma_split_pieces(text.drop_last(), sep);
        lemma_split_len(text.drop_last(), sep);
        assert forall|k: int| 0 <= k < pieces.len() implies !(#[trigger] pieces[k]).contains(
            sep,
        ) by {
            if k < before.len() - 1 || (text.last() == sep && k < before.len()) {
                assert(pieces[k] == before[k]);
            } else if text.last() != sep {
                let grown = before.last().push(text.last());
                assert(pieces[k] == grown);
                if grown.contains(sep) {
                    let i = choose|i: int| 0 <= i < grown.len() && grown[i] == sep;
                    assert(before.last()[i] == sep);
                    assert(before[before.len() - 1].contains(sep));
                }
            }
        }
    }
}

/// The pieces of a text, joined again, are the text.
pub proof fn lemma_join_split(text: Seq<char>, sep: char)
    ensures
        join(split(text, sep), sep) == text,
    decreases text.len(),
{
    if text.len() == 0 {
        assert(join(split(text, sep), sep) =~= text);
    } else {
        let rest = text.drop_last();
        let before = split(rest, sep);
        let pieces = split(text, sep);
        lemma_join_split(rest, sep);
        lemma_split_len(rest, sep);
        assert(text =~= rest.push(text.last()));
        if text.last() == sep {
            assert(pieces.drop_last() =~= before);
            assert(join(pieces, sep) =~= text);
        } else if before.len() == 1 {
            assert(join(pieces, sep) =~= text);
        } else {
            assert(pieces.drop_last() =~= before.drop_last());
            assert(join(pieces, sep) =~= text);
        }
    }
}

/// White space up to `from` and a visible character there: `trim_start`
/// drops exactly the first `from` characters.
pub proof fn lemma_trim_start_at(text: Seq<char>, from: int)
    requires
        0 <= from <= text.len(),
        forall|i: int| 0 <= i < from ==> is_whitespace(#[trigger] text[i]),
        from < text.len() ==> !is_whitespace(text[from]),
    ensures
        trim_start(text) == text.subrange(from, text.len() as int),
    decreases from,
{
    if from == 0 {
        assert(text.subrange(0, text.len() as int) =~= text);
    } else {
        let rest = text.drop_first();
        assert forall|i: int| 0 <= i < from - 1 implies is_whitespace(#[trigger] rest[i]) by {
            assert(rest[i] == text[i + 1]);
        }
        lemma_trim_start_at(rest, from - 1);
        assert(rest.subrange(from - 1, rest.len() as int) =~= text.subrange(
            from,
            text.len() as int,
        ));
    }
}

/// White space from `to` on and a visible character before it: `trim_end`
/// keeps exactly the first `to` characters.
pub proof fn lemma_trim_end_at(text: Seq<char>, to: int)
    requires
        0 <= to <= text.len(),
        forall|i: int| to <= i < text.len() ==> is_whitespace(#[trigger] text[i]),
        0 < to ==> !is_whitespace(text[to - 1]),
    ensures
        trim_end(text) == text.subrange(0, to),
    decreases text.len() - to,
{
    if to == text.len() {
        assert(text.subrange(0, to) =~= text);
    } else {
        let rest = text.drop_last();
        lemma_trim_end_at(rest, to);
        assert(rest.subrange(0, to) =~= text.subrange(0, to));
    }
}

/// The part of `text` between its first and its last visible character.
pub fn trim<'a>(text: &'a str) -> (inner: &'a str)
    ensures
        inner@ == trimmed(text@),
{
    let len = text.unicode_len();
    let mut start: usize = len;
    let mut end: usize = len;
    let mut seen = false;
    let mut at: usize = 0;
    for chr in it: text.chars()
        invariant
            it.seq() == text@,
            len == text@.len(),
            at == it.index(),
            !seen ==> start == len && end == len && forall|i: int|
                0 <= i < at ==> is_whitespace(#[trigger] text@[i]),
            seen ==> start < end <= at && !is_whitespace(text@[start as int]) && !is_whitespace(
                text@[end - 1],
            ) && (forall|i: int| 0 <= i < start ==> is_whitespace(#[trigger] text@[i])) && (
            forall|i: int| end <= i < at ==> is_whitespace(#[trigger] text@[i])),
    {
        if !char_is_whitespace(chr) {
            if !seen {
                start = at;
                seen = true;
            }
            end = at + 1;
        }
        at = at + 1;
    }
    proof {
        let from = start as int;
        let to = end as int;
        lemma_trim_start_at(text@, from);
        let tail = text@.subrange(from, len as int);
        assert forall|i: int| to - from <= i < tail.len() implies is_whitespace(
            #[trigger] tail[i],
        ) by {
            assert(tail[i] == text@[from + i]);
        }
        lemma_trim_end_at(tail, to - from);
        assert(tail.subrange(0, to - from) =~= text@.subrange(from, to));
    }
    text.substring_char(start, end)
}

/// How often `chr` occurs in `text`.
pub fn count_char(text: &str, chr: char) -> (count: usize)
    ensures
        count == count_of(text@, chr),
{
    let len = text.unicode_len();
    let mut count: usize = 0;
    for other in it: text.chars()
        invariant
            it.seq() == text@,
            len == text@.len(),
            count == count_of(text@.take(it.index() as int), chr),
            count <= it.index(),
    {
        proof {
            let at = it.index() as int;
            assert(text@.take(at + 1).drop_last() =~= text@.take(at));
        }
        if other == chr {
            count = count + 1;
        }
    }
    proof {
        assert(text@.take(text@.len() as int) =~= text@);
    }
    count
}

/// The pieces into which the occurrences of `sep` cut `text`.
pub fn split_at_char<'a>(text: &'a str, sep: char) -> (pieces: Vec<&'a str>)
    ensures
        pieces@.len() == split(text@, sep).len(),
        forall|k: int| 0 <= k < pieces@.len() ==> (#[trigger] pieces@[k])@ == split(text@, sep)[k],
{
    let len = text.unicode_len();
    let mut pieces: Vec<&'a str> = Vec::new();
    let mut start: usize = 0;
    let mut at: usize = 0;
    for chr in it: text.chars()
        invariant
            it.seq() == text@,
            len == text@.len(),
            at == it.index(),
            start <= at,
            pieces@.len() + 1 == split(text@.take(at as int), sep).len(),
            forall|k: int|
                0 <= k < pieces@.len() ==> (#[trigger] pieces@[k])@ == split(
                    text@.take(at as int),
                    sep,
                )[k],
            split(text@.take(at as int), sep).last() == text@.subrange(start as int, at as int),
    {
        proof {
            let before = text@.take(at as int);
            let now = text@.take(at + 1);
            assert(now.drop_last() =~= before);
            assert(now.last() == chr);
            if chr != sep {
                assert(text@.subrange(start as int, at as int).push(chr) =~= text@.subrange(
                    start as int,
                    at + 1,
                ));
            } else {
                assert(text@.subrange(at + 1, at + 1) =~= Seq::<char>::empty());
            }
        }
        if chr == sep {
            pieces.push(text.substring_char(start, at));
            start = at + 1;
        }
        at = at + 1;
    }
    proof {
        assert(text@.take(len as int) =~= text@);
    }
    pieces.push(text.substring_char(start, len));
    pieces
}

} // verus!
