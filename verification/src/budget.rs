//! A bound on what a search for bracketed spans can cost.
//!
//! The language rules find bracketed spans with a pattern that only the
//! backtracking engine of `fancy_regex` can run: an opening bracket, then as
//! little as possible up to a closing bracket on the same line. That engine
//! gives up on a search after a million steps back, and the rules do not come
//! back from a search that was given up. So a text is handed to that search
//! only if a count over its bytes shows that the engine cannot run out of
//! steps on it.
//!
//! One search tries every byte as a start, at the price of one step each, until
//! it finds a span. An opening bracket with a closing bracket behind it on its
//! line is found at the price of two steps for each byte in between, whatever
//! lies there. An opening bracket with none behind it sends the search to the
//! end of the line, again at two steps a byte, and every escaped opening
//! bracket on the way can be read in two ways, which doubles the ways to get
//! there.

use crate::text::{is_split_point, lemma_split_point, text_from};
use vstd::prelude::*;
use vstd::string::*;
use vstd::utf8::*;

verus! {

/// The steps back that the pattern engine allows itself in one search: the
/// `backtrack_limit` that `fancy_regex` starts out with.
pub const SCAN_BUDGET: u64 = 1_000_000;

/// The longest text, in bytes, that can be within the budget.
pub const SCAN_LIMIT: usize = 333_332;

/// Whether an opening bracket starts at `at`: `(`, `<`, `[`, `{`, or the three
/// bytes of the full-width `（`.
pub open spec fn opens_span(bytes: Seq<u8>, at: int) -> bool {
    0 <= at < bytes.len() && (bytes[at] == 0x28 || bytes[at] == 0x3c || bytes[at] == 0x5b
        || bytes[at] == 0x7b || (at + 2 < bytes.len() && bytes[at] == 0xef && bytes[at + 1]
        == 0xbc && bytes[at + 2] == 0x88))
}

/// Whether a closing bracket starts at `at`: `)`, `]`, `}`, or the three bytes
/// of the full-width `）`.
pub open spec fn closes_span(bytes: Seq<u8>, at: int) -> bool {
    0 <= at < bytes.len() && (bytes[at] == 0x29 || bytes[at] == 0x5d || bytes[at] == 0x7d || (at
        + 2 < bytes.len() && bytes[at] == 0xef && bytes[at + 1] == 0xbc && bytes[at + 2]
        == 0x89))
}

/// Whether the line ends at `at`: with a line feed, or with the text.
pub open spec fn ends_line(bytes: Seq<u8>, at: int) -> bool {
    at >= bytes.len() || bytes[at] == 0x0a
}

/// Whether a backslash stands at `at` in front of an opening bracket.
pub open spec fn escapes_opener(bytes: Seq<u8>, at: int) -> bool {
    0 <= at < bytes.len() && bytes[at] == 0x5c && opens_span(bytes, at + 1)
}

/// How many bytes lie between `from` and the end of its line.
pub open spec fn line_rest(bytes: Seq<u8>, from: int) -> nat
    decreases bytes.len() - from,
{
    if from < 0 || ends_line(bytes, from) {
        0
    } else {
        1 + line_rest(bytes, from + 1)
    }
}

/// Whether a closing bracket starts between `from` and the end of its line.
pub open spec fn closed_ahead(bytes: Seq<u8>, from: int) -> bool
    decreases bytes.len() - from,
{
    if from < 0 || ends_line(bytes, from) {
        false
    } else {
        closes_span(bytes, from) || closed_ahead(bytes, from + 1)
    }
}

/// How many escaped opening brackets start between `from` and the end of its
/// line.
pub open spec fn escapes_ahead(bytes: Seq<u8>, from: int) -> nat
    decreases bytes.len() - from,
{
    if from < 0 || ends_line(bytes, from) {
        0
    } else {
        escapes_ahead(bytes, from + 1) + if escapes_opener(bytes, from) {
            1nat
        } else {
            0nat
        }
    }
}

/// `cost` doubled `times` times.
pub open spec fn doubled(cost: nat, times: nat) -> nat
    decreases times,
{
    if times == 0 {
        cost
    } else {
        doubled(2 * cost, (times - 1) as nat)
    }
}

/// What a start at `at` can cost beyond its one step. Only an opening bracket
/// with no closing bracket behind it on its line is charged: two steps for
/// itself and for each byte up to the end of the line and two more at the end,
/// doubled for each escaped opening bracket on the way.
pub open spec fn charge(bytes: Seq<u8>, at: int) -> nat {
    if opens_span(bytes, at) && !closed_ahead(bytes, at + 1) {
        doubled(2 * line_rest(bytes, at + 1) + 4, escapes_ahead(bytes, at + 1))
    } else {
        0
    }
}

/// The charges of all starts from `from` on.
pub open spec fn charges_from(bytes: Seq<u8>, from: int) -> nat
    decreases bytes.len() - from,
{
    if from < 0 || from >= bytes.len() {
        0
    } else {
        charge(bytes, from) + charges_from(bytes, from + 1)
    }
}

/// An upper bound on the steps back that one search for a bracketed span can
/// take on a text with these bytes: one for every start, two a byte for the
/// one span that the search may find, and the charges of all opening brackets
/// that are never closed.
pub open spec fn scan_cost(bytes: Seq<u8>) -> nat {
    3 * bytes.len() + 3 + charges_from(bytes, 0)
}

/// Whether `text` can be searched for bracketed spans within the budget.
pub open spec fn within_scan_budget(text: Seq<char>) -> bool {
    scan_cost(encode_utf8(text)) <= SCAN_BUDGET
}

proof fn lemma_doubled_grows(cost: nat, times: nat)
    ensures
        doubled(cost, times) >= cost,
    decreases times,
{
    if times > 0 {
        lemma_doubled_grows(2 * cost, (times - 1) as nat);
    }
}

proof fn lemma_charges_grow(bytes: Seq<u8>, from: int, upto: int)
    requires
        0 <= from <= upto,
    ensures
        charges_from(bytes, from) >= charges_from(bytes, upto),
    decreases upto - from,
{
    if from < upto && from < bytes.len() {
        lemma_charges_grow(bytes, from + 1, upto);
    }
}

proof fn lemma_ahead_of_rest(bytes: Seq<u8>, cut: int, from: int)
    requires
        0 <= cut <= bytes.len(),
        0 <= from,
    ensures
        line_rest(bytes.subrange(cut, bytes.len() as int), from) == line_rest(bytes, cut + from),
        closed_ahead(bytes.subrange(cut, bytes.len() as int), from) == closed_ahead(
            bytes,
            cut + from,
        ),
        escapes_ahead(bytes.subrange(cut, bytes.len() as int), from) == escapes_ahead(
            bytes,
            cut + from,
        ),
    decreases bytes.len() - cut - from,
{
    let rest = bytes.subrange(cut, bytes.len() as int);
    if !ends_line(rest, from) {
        lemma_ahead_of_rest(bytes, cut, from + 1);
    }
}

proof fn lemma_charges_of_rest(bytes: Seq<u8>, cut: int, from: int)
    requires
        0 <= cut <= bytes.len(),
        0 <= from,
    ensures
        charges_from(bytes.subrange(cut, bytes.len() as int), from) == charges_from(
            bytes,
            cut + from,
        ),
    decreases bytes.len() - cut - from,
{
    let rest = bytes.subrange(cut, bytes.len() as int);
    if from < rest.len() {
        lemma_ahead_of_rest(bytes, cut, from + 1);
        lemma_charges_of_rest(bytes, cut, from + 1);
    }
}

/// What is left behind a cut costs no more to search than the whole text.
pub proof fn lemma_rest_costs_less(bytes: Seq<u8>, cut: int)
    requires
        0 <= cut <= bytes.len(),
    ensures
        scan_cost(bytes.subrange(cut, bytes.len() as int)) <= scan_cost(bytes),
{
    lemma_charges_of_rest(bytes, cut, 0);
    lemma_charges_grow(bytes, 0, cut);
}

/// A text within the budget stays within it when its front is cut off.
pub proof fn lemma_budget_holds_behind_cut(text: Seq<char>, at: int)
    requires
        within_scan_budget(text),
        is_split_point(text, at),
    ensures
        within_scan_budget(text_from(text, at)),
{
    lemma_split_point(text, at);
    lemma_rest_costs_less(encode_utf8(text), at);
}

/// Tests whether a byte opens a bracketed span by itself.
fn is_plain_opener(byte: u8) -> (r: bool)
    ensures
        r == (byte == 0x28 || byte == 0x3c || byte == 0x5b || byte == 0x7b),
{
    byte == 0x28 || byte == 0x3c || byte == 0x5b || byte == 0x7b
}

/// Tests whether `text` can be searched for bracketed spans within the
/// budget.
pub fn fits_scan_budget(text: &str) -> (r: bool)
    ensures
        r == within_scan_budget(text@),
{
    let bytes = text.as_bytes();
    let total: usize = bytes.len();
    if total > SCAN_LIMIT {
        return false;
    }
    let mut at: usize = total;
    let mut rest: u64 = 0;
    let mut closed: bool = false;
    let mut escapes: u64 = 0;
    let mut opens: bool = false;
    let mut sum: u64 = 0;
    while at > 0
        invariant
            at <= total,
            total == bytes@.len(),
            total <= SCAN_LIMIT,
            bytes@ == encode_utf8(text@),
            rest == line_rest(bytes@, at as int),
            closed == closed_ahead(bytes@, at as int),
            escapes == escapes_ahead(bytes@, at as int),
            opens == opens_span(bytes@, at as int),
            sum == charges_from(bytes@, at as int),
            rest <= total - at,
            escapes <= total - at,
            sum <= SCAN_BUDGET,
        decreases at,
    {
        let i: usize = at - 1;
        let byte: u8 = bytes[i];
        let opens_here: bool = is_plain_opener(byte) || (byte == 0xef && i + 2 < total && bytes[i
            + 1] == 0xbc && bytes[i + 2] == 0x88);
        if opens_here && !closed {
            let mut cost: u64 = 2 * rest + 4;
            let mut left: u64 = escapes;
            while left > 0 && cost <= SCAN_BUDGET
                invariant
                    doubled(cost as nat, left as nat) == charge(bytes@, i as int),
                    cost <= 2 * SCAN_BUDGET,
                decreases left,
            {
                cost = 2 * cost;
                left = left - 1;
            }
            proof {
                lemma_doubled_grows(cost as nat, left as nat);
                lemma_charges_grow(bytes@, 0, i as int);
            }
            if cost > SCAN_BUDGET || sum + cost > SCAN_BUDGET {
                proof {
                    assert(charges_from(bytes@, i as int) == charge(bytes@, i as int)
                        + charges_from(bytes@, i + 1));
                }
                return false;
            }
            sum = sum + cost;
        }
        if byte == 0x0a {
            rest = 0;
            closed = false;
            escapes = 0;
        } else {
            rest = rest + 1;
            if byte == 0x29 || byte == 0x5d || byte == 0x7d || (byte == 0xef && i + 2 < total
                && bytes[i + 1] == 0xbc && bytes[i + 2] == 0x89) {
                closed = true;
            }
            if byte == 0x5c && opens {
                escapes = escapes + 1;
            }
        }
        opens = opens_here;
        at = i;
    }
    3 * (total as u64) + 3 + sum <= SCAN_BUDGET
}

} // verus!
