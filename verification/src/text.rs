//! Text measured in characters and cut at byte offsets.
//!
//! The language rules report positions as byte offsets into the UTF-8 form of
//! a text. A text can be cut at such an offset only where a character starts.

use vstd::prelude::*;
use vstd::string::*;
use vstd::utf8::*;

verus! {

/// Whether `text` can be cut at byte offset `at`, that is, whether a character
/// of `text` starts there or `at` is the end of `text`.
pub open spec fn is_split_point(text: Seq<char>, at: int) -> bool {
    is_char_boundary(encode_utf8(text), at)
}

/// The part of `text` between the byte offsets `from` and `to`.
pub open spec fn text_between(text: Seq<char>, from: int, to: int) -> Seq<char> {
    decode_utf8(encode_utf8(text).subrange(from, to))
}

/// The part of `text` in front of byte offset `at`.
pub open spec fn text_before(text: Seq<char>, at: int) -> Seq<char> {
    text_between(text, 0, at)
}

/// The part of `text` from byte offset `at` on.
pub open spec fn text_from(text: Seq<char>, at: int) -> Seq<char> {
    text_between(text, at, encode_utf8(text).len() as int)
}

/// Cutting a text at a split point loses nothing: the two parts join to the
/// text again, the first part is exactly `at` bytes long, and a cut behind the
/// start leaves a shorter rest.
pub proof fn lemma_split_point(text: Seq<char>, at: int)
    requires
        is_split_point(text, at),
    ensures
        0 <= at <= encode_utf8(text).len(),
        text_before(text, at) + text_from(text, at) == text,
        encode_utf8(text_before(text, at)) == encode_utf8(text).subrange(0, at),
        encode_utf8(text_from(text, at)) == encode_utf8(text).subrange(
            at,
            encode_utf8(text).len() as int,
        ),
        at > 0 ==> text_from(text, at).len() < text.len(),
{
    let bytes = encode_utf8(text);
    encode_utf8_valid_utf8(text);
    encode_utf8_decode_utf8(text);
    valid_utf8_split(bytes, at);
    decode_utf8_split(bytes, at);
    decode_utf8_encode_utf8(bytes.subrange(0, at));
    decode_utf8_encode_utf8(bytes.subrange(at, bytes.len() as int));
    if at > 0 && text_before(text, at).len() == 0 {
        assert(encode_utf8(text_before(text, at)).len() == 0);
    }
}

/// Cuts `text` at byte offset `at`, if a character starts there.
pub fn split_text<'a>(text: &'a str, at: usize) -> (r: Option<(&'a str, &'a str)>)
    ensures
        r is Some <==> is_split_point(text@, at as int),
        r matches Some((head, tail)) ==> head@ == text_before(text@, at as int) && tail@
            == text_from(text@, at as int),
{
    if text.is_char_boundary(at) {
        let (head, tail) = text.split_at(at);
        proof {
            encode_utf8_decode_utf8(head@);
            encode_utf8_decode_utf8(tail@);
        }
        Some((head, tail))
    } else {
        None
    }
}

/// The part of `text` between the byte offsets `from` and `to`, if a
/// character starts at each of them and `from` does not lie behind `to`.
pub fn slice_text<'a>(text: &'a str, from: usize, to: usize) -> (r: Option<&'a str>)
    ensures
        r is Some <==> from <= to && is_split_point(text@, from as int) && is_split_point(
            text@,
            to as int,
        ),
        r matches Some(part) ==> part@ == text_between(text@, from as int, to as int),
{
    if from > to || !text.is_char_boundary(from) || !text.is_char_boundary(to) {
        return None;
    }
    let (upto, _) = text.split_at(to);
    proof {
        let bytes = encode_utf8(text@);
        encode_utf8_valid_utf8(text@);
        encode_utf8_valid_utf8(upto@);
        lemma_split_point(text@, to as int);
        if from < to {
            is_char_boundary_iff_not_is_continuation_byte(bytes, from as int);
            is_char_boundary_iff_not_is_continuation_byte(encode_utf8(upto@), from as int);
        } else {
            is_char_boundary_start_end_of_seq(encode_utf8(upto@));
        }
    }
    let (_, part) = upto.split_at(from);
    proof {
        encode_utf8_decode_utf8(part@);
        assert(encode_utf8(upto@).subrange(from as int, to as int) =~= encode_utf8(
            text@,
        ).subrange(from as int, to as int));
    }
    Some(part)
}

/// How many spaces `text` starts with.
pub open spec fn leading_spaces(text: Seq<char>) -> nat
    decreases text.len(),
{
    if text.len() > 0 && text[0] == ' ' {
        1 + leading_spaces(text.drop_first())
    } else {
        0
    }
}

/// How many spaces `text` ends with.
pub open spec fn trailing_spaces(text: Seq<char>) -> nat
    decreases text.len(),
{
    if text.len() > 0 && text.last() == ' ' {
        1 + trailing_spaces(text.drop_last())
    } else {
        0
    }
}

/// `text` without the spaces it starts and ends with. Only the space
/// character itself is removed, no other white space.
pub open spec fn trim_spaces(text: Seq<char>) -> Seq<char> {
    let rest = text.skip(leading_spaces(text) as int);
    rest.take(rest.len() - trailing_spaces(rest))
}

/// A run of `count` spaces at the start of `text` that stops at a character
/// that is no space, or at the end, is all the spaces `text` starts with.
pub proof fn lemma_leading_spaces(text: Seq<char>, count: int)
    requires
        0 <= count <= text.len(),
        forall|i: int| 0 <= i < count ==> text[i] == ' ',
        count < text.len() ==> text[count] != ' ',
    ensures
        leading_spaces(text) == count,
    decreases count,
{
    if count > 0 {
        lemma_leading_spaces(text.drop_first(), count - 1);
    }
}

/// A run of `count` spaces at the end of `text` that starts behind a character
/// that is no space, or at the start, is all the spaces `text` ends with.
pub proof fn lemma_trailing_spaces(text: Seq<char>, count: int)
    requires
        0 <= count <= text.len(),
        forall|i: int| text.len() - count <= i < text.len() ==> text[i] == ' ',
        count < text.len() ==> text[text.len() - count - 1] != ' ',
    ensures
        trailing_spaces(text) == count,
    decreases count,
{
    if count > 0 {
        lemma_trailing_spaces(text.drop_last(), count - 1);
    }
}

/// Trimming takes away spaces and nothing else: the trimmed text is a stretch
/// of the text, every character in front of it and behind it is a space,
/// and it neither starts nor ends with a space.
pub proof fn lemma_trim_spaces(text: Seq<char>)
    ensures
        leading_spaces(text) + trim_spaces(text).len() <= text.len(),
        trim_spaces(text) == text.subrange(
            leading_spaces(text) as int,
            (leading_spaces(text) + trim_spaces(text).len()) as int,
        ),
        forall|i: int| 0 <= i < leading_spaces(text) ==> text[i] == ' ',
        forall|i: int|
            leading_spaces(text) + trim_spaces(text).len() <= i < text.len() ==> text[i] == ' ',
        trim_spaces(text).len() > 0 ==> trim_spaces(text).first() != ' ' && trim_spaces(
            text,
        ).last() != ' ',
{
    lemma_leading_run(text);
    let rest = text.skip(leading_spaces(text) as int);
    lemma_trailing_run(rest);
    assert forall|i: int|
        leading_spaces(text) + trim_spaces(text).len() <= i < text.len() implies text[i]
        == ' ' by {
        assert(text[i] == rest[i - leading_spaces(text)]);
    }
}

proof fn lemma_leading_run(text: Seq<char>)
    ensures
        leading_spaces(text) <= text.len(),
        forall|i: int| 0 <= i < leading_spaces(text) ==> text[i] == ' ',
        leading_spaces(text) < text.len() ==> text[leading_spaces(text) as int] != ' ',
    decreases text.len(),
{
    if text.len() > 0 && text[0] == ' ' {
        let rest = text.drop_first();
        lemma_leading_run(rest);
        assert forall|i: int| 0 <= i < leading_spaces(text) implies text[i] == ' ' by {
            if i > 0 {
                assert(text[i] == rest[i - 1]);
            }
        }
        if leading_spaces(text) < text.len() {
            assert(text[leading_spaces(text) as int] == rest[leading_spaces(rest) as int]);
        }
    }
}

proof fn lemma_trailing_run(text: Seq<char>)
    ensures
        trailing_spaces(text) <= text.len(),
        forall|i: int| text.len() - trailing_spaces(text) <= i < text.len() ==> text[i] == ' ',
        trailing_spaces(text) < text.len() ==> text[text.len() - trailing_spaces(text) - 1]
            != ' ',
    decreases text.len(),
{
    if text.len() > 0 && text.last() == ' ' {
        let rest = text.drop_last();
        lemma_trailing_run(rest);
        assert forall|i: int|
            text.len() - trailing_spaces(text) <= i < text.len() implies text[i] == ' ' by {
            if i < text.len() - 1 {
                assert(text[i] == rest[i]);
            }
        }
        if trailing_spaces(text) < text.len() {
            assert(text[text.len() - trailing_spaces(text) - 1] == rest[rest.len()
                - trailing_spaces(rest) - 1]);
        }
    }
}

/// `text` with every space taken out.
pub open spec fn without_spaces(text: Seq<char>) -> Seq<char> {
    text.filter(|c: char| c != ' ')
}

proof fn lemma_without_leading_spaces(text: Seq<char>)
    ensures
        without_spaces(text.skip(leading_spaces(text) as int)) == without_spaces(text),
    decreases text.len(),
{
    if text.len() > 0 && text[0] == ' ' {
        let rest = text.drop_first();
        lemma_without_leading_spaces(rest);
        lemma_leading_run(rest);
        assert(text =~= seq![' '] + rest);
        Seq::filter_distributes_over_add(seq![' '], rest, |c: char| c != ' ');
        reveal_with_fuel(Seq::filter, 2);
        assert(without_spaces(seq![' ']) =~= Seq::<char>::empty());
        assert(text.skip(leading_spaces(text) as int) =~= rest.skip(leading_spaces(rest) as int));
        assert(Seq::<char>::empty() + without_spaces(rest) =~= without_spaces(rest));
    } else {
        assert(text.skip(0) =~= text);
    }
}

proof fn lemma_without_trailing_spaces(text: Seq<char>)
    ensures
        without_spaces(text.take(text.len() - trailing_spaces(text))) == without_spaces(text),
    decreases text.len(),
{
    if text.len() > 0 && text.last() == ' ' {
        let rest = text.drop_last();
        lemma_without_trailing_spaces(rest);
        lemma_trailing_run(rest);
        reveal_with_fuel(Seq::filter, 2);
        assert(without_spaces(text) == without_spaces(rest));
        assert(text.take(text.len() - trailing_spaces(text)) =~= rest.take(
            rest.len() - trailing_spaces(rest),
        ));
    } else {
        assert(text.take(text.len() as int) =~= text);
    }
}

/// Trimming drops no character but spaces, and changes the order of none:
/// with the spaces taken out, the trimmed text and the text are the same.
pub proof fn lemma_trim_keeps_all_but_spaces(text: Seq<char>)
    ensures
        without_spaces(trim_spaces(text)) == without_spaces(text),
{
    lemma_without_leading_spaces(text);
    lemma_without_trailing_spaces(text.skip(leading_spaces(text) as int));
}

/// Removes the spaces at both ends of `text`.
pub fn trim_text<'a>(text: &'a str) -> (r: &'a str)
    ensures
        r@ == trim_spaces(text@),
{
    let total: usize = text.unicode_len();
    let mut start: usize = 0;
    let mut end: usize = 0;
    let mut seen: usize = 0;
    for c in it: text.chars()
        invariant
            it.seq() == text@,
            total == text@.len(),
            seen == it.index(),
            start <= seen <= total,
            end <= seen,
            forall|i: int| 0 <= i < start ==> text@[i] == ' ',
            forall|i: int| end <= i < seen ==> text@[i] == ' ',
            end == 0 ==> start == seen,
            end > 0 ==> start < end && text@[start as int] != ' ' && text@[end - 1] != ' ',
    {
        seen = seen + 1;
        if c != ' ' {
            end = seen;
        } else if end == 0 {
            start = seen;
        }
    }
    proof {
        lemma_leading_spaces(text@, start as int);
        let rest = text@.skip(start as int);
        if end == 0 {
            lemma_trailing_spaces(rest, 0);
        } else {
            lemma_trailing_spaces(rest, total - end);
            assert(rest.take(rest.len() - (total - end)) =~= text@.subrange(
                start as int,
                end as int,
            ));
        }
    }
    if end == 0 {
        text.substring_char(start, start)
    } else {
        text.substring_char(start, end)
    }
}

} // verus!
