//! The language rules, which live in `libtqsm`, and what this crate takes on
//! trust about them.
//!
//! Every answer of the rules is a function of the language code and the text
//! handed over. Which languages are registered, and which of them let closing
//! punctuation end a sentence, is written out here. Each of the other answers
//! has a name that contracts can speak of, and nothing is assumed about it:
//! offsets that come back are checked against the text before they are used.

use crate::budget::within_scan_budget;
use libtqsm::Language;
use unicode_segmentation::UnicodeSegmentation;
use vstd::prelude::*;

verus! {

/// Whether `libtqsm` has rules registered under the language code `code`:
/// its registry holds these thirty codes and no others.
pub open spec fn language_registered(code: Seq<char>) -> bool {
    ||| code == "am"@
    ||| code == "ar"@
    ||| code == "bg"@
    ||| code == "bn"@
    ||| code == "ca"@
    ||| code == "da"@
    ||| code == "de"@
    ||| code == "el"@
    ||| code == "en"@
    ||| code == "es"@
    ||| code == "fi"@
    ||| code == "fr"@
    ||| code == "gu"@
    ||| code == "hi"@
    ||| code == "hy"@
    ||| code == "it"@
    ||| code == "kk"@
    ||| code == "kn"@
    ||| code == "ml"@
    ||| code == "mr"@
    ||| code == "my"@
    ||| code == "nl"@
    ||| code == "or"@
    ||| code == "pa"@
    ||| code == "pl"@
    ||| code == "pt"@
    ||| code == "ru"@
    ||| code == "sk"@
    ||| code == "ta"@
    ||| code == "te"@
}

/// The stretches of `text`, as byte offsets of start and end, that the rules
/// for `code` see as punctuation that may end a sentence, from left to right.
pub uninterp spec fn break_matches(code: Seq<char>, text: Seq<char>) -> Seq<(usize, usize)>;

/// The stretches of `text`, as byte offsets of start and end, that the rules
/// for `code` keep whole: quotations, bracketed spans, e-mail addresses.
pub uninterp spec fn skip_spans(code: Seq<char>, text: Seq<char>) -> Seq<(usize, usize)>;

/// Whether, under the rules for `code`, punctuation that closes a kept-whole
/// stretch ends the sentence: under the German rules only.
pub open spec fn closing_punctuation_ends_sentence(code: Seq<char>) -> bool {
    code == "de"@
}

/// The byte offsets at which the grapheme clusters of `text` start, in order.
pub uninterp spec fn grapheme_starts(text: Seq<char>) -> Seq<usize>;

/// Where the numbered reference at the very start of `tail` ends, as a byte
/// offset into `tail`, if `tail` starts with one under the rules for `code`.
pub uninterp spec fn reference_end(code: Seq<char>, tail: Seq<char>) -> Option<usize>;

/// Whether, under the rules for `code`, `tail` goes on with the sentence that
/// the punctuation in front of it seemed to end.
pub uninterp spec fn continues_sentence(code: Seq<char>, tail: Seq<char>) -> bool;

/// Whether, under the rules for `code`, `head` ends in an abbreviation that
/// `separator` belongs to.
pub uninterp spec fn ends_in_abbreviation(
    code: Seq<char>,
    head: Seq<char>,
    tail: Seq<char>,
    separator: Seq<char>,
) -> bool;

/// Whether, under the rules for `code`, `head` ends in a word that is written
/// with an exclamation mark.
pub uninterp spec fn ends_in_exclamation_word(
    code: Seq<char>,
    head: Seq<char>,
    tail: Seq<char>,
) -> bool;

/// `LANGUAGE_REGISTRY.contains_key` of `libtqsm`: whether the registry of
/// languages has an entry under `code`. The registry is a constant table,
/// built from the thirty languages of `libtqsm`, each under its own code.
#[verifier::external_body]
pub(crate) fn registry_contains(code: &str) -> (r: bool)
    ensures
        r == language_registered(code@),
{
    libtqsm::LANGUAGE_REGISTRY.contains_key(code)
}

/// `Language::sentence_break_regex` of `libtqsm`, run over `text` with
/// `Regex::find_iter`: start and end of every match, in the order found.
/// Needs a registered language, since the registry is indexed by `code`.
#[verifier::external_body]
pub(crate) fn rule_break_matches(code: &str, text: &str) -> (r: Vec<(usize, usize)>)
    requires
        language_registered(code@),
    ensures
        r@ == break_matches(code@, text@),
{
    let language = libtqsm::LANGUAGE_REGISTRY[code];
    language.sentence_break_regex().find_iter(text).map(|m| (m.start(), m.end())).collect()
}

/// `Language::get_skippable_ranges` of `libtqsm`: start and end of every
/// quotation, e-mail address and bracketed span, in the order collected. The
/// bracketed spans are searched by the backtracking engine of `fancy_regex`,
/// and the method does not return once that engine has given up on a search.
/// Only texts within the scan budget are handed over, on which it cannot give
/// up.
#[verifier::external_body]
pub(crate) fn rule_skip_spans(code: &str, text: &str) -> (r: Vec<(usize, usize)>)
    requires
        language_registered(code@),
        within_scan_budget(text@),
    ensures
        r@ == skip_spans(code@, text@),
{
    libtqsm::LANGUAGE_REGISTRY[code].get_skippable_ranges(text)
}

/// `Language::is_punctuation_between_quotes` of `libtqsm`: false unless a
/// language says otherwise, and of the registered languages only German does.
#[verifier::external_body]
pub(crate) fn rule_closing_punctuation(code: &str) -> (r: bool)
    requires
        language_registered(code@),
    ensures
        r == closing_punctuation_ends_sentence(code@),
{
    libtqsm::LANGUAGE_REGISTRY[code].is_punctuation_between_quotes()
}

/// `UnicodeSegmentation::grapheme_indices` of `unicode_segmentation`, for
/// legacy grapheme clusters: the byte offset of each cluster, in order.
#[verifier::external_body]
pub(crate) fn text_grapheme_starts(text: &str) -> (r: Vec<usize>)
    ensures
        r@ == grapheme_starts(text@),
{
    text.grapheme_indices(false).map(|(start, _)| start).collect()
}

/// `Language::numbered_reference_regex` of `libtqsm`, tried on `tail` with
/// `Regex::find`: the end of the match, if there is one.
#[verifier::external_body]
pub(crate) fn rule_reference_end(code: &str, tail: &str) -> (r: Option<usize>)
    requires
        language_registered(code@),
    ensures
        r == reference_end(code@, tail@),
{
    libtqsm::LANGUAGE_REGISTRY[code].numbered_reference_regex().find(tail).map(|m| m.end())
}

/// `Language::continue_in_next_word` of `libtqsm`.
#[verifier::external_body]
pub(crate) fn rule_continues_sentence(code: &str, tail: &str) -> (r: bool)
    requires
        language_registered(code@),
    ensures
        r == continues_sentence(code@, tail@),
{
    libtqsm::LANGUAGE_REGISTRY[code].continue_in_next_word(tail)
}

/// `Language::is_abbreviation` of `libtqsm`.
#[verifier::external_body]
pub(crate) fn rule_ends_in_abbreviation(code: &str, head: &str, tail: &str, separator: &str) -> (r:
    bool)
    requires
        language_registered(code@),
    ensures
        r == ends_in_abbreviation(code@, head@, tail@, separator@),
{
    libtqsm::LANGUAGE_REGISTRY[code].is_abbreviation(head, tail, separator)
}

/// `Language::is_exclamation_word` of `libtqsm`.
#[verifier::external_body]
pub(crate) fn rule_ends_in_exclamation_word(code: &str, head: &str, tail: &str) -> (r: bool)
    requires
        language_registered(code@),
    ensures
        r == ends_in_exclamation_word(code@, head@, tail@),
{
    libtqsm::LANGUAGE_REGISTRY[code].is_exclamation_word(head, tail)
}

} // verus!
