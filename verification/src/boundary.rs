//! Where the next sentence ends.
//!
//! The rules propose punctuation that may end a sentence. Each candidate is
//! weighed in turn: one inside a stretch that is kept whole is passed over, the
//! others go to the rules for a decision, and a boundary that is confirmed is
//! accepted once enough text follows it.

use crate::budget::{fits_scan_budget, within_scan_budget};
use crate::rules::{
    break_matches, closing_punctuation_ends_sentence, continues_sentence, ends_in_abbreviation,
    ends_in_exclamation_word, grapheme_starts, language_registered, reference_end,
    registry_contains, rule_break_matches, rule_closing_punctuation, rule_continues_sentence,
    rule_ends_in_abbreviation, rule_ends_in_exclamation_word, rule_reference_end, rule_skip_spans,
    skip_spans, text_grapheme_starts,
};
use crate::text::{
    is_split_point, lemma_split_point, slice_text, split_text, text_before, text_between,
    text_from,
};
use vstd::prelude::*;
use vstd::string::*;

verus! {

/// A sentence end that the rules have confirmed.
#[derive(Clone, Copy, Debug, PartialEq, Eq, Structural)]
pub struct Boundary {
    /// Byte offset into the text at which the sentence ends.
    pub end: usize,
    /// Whether the boundary is certain enough to be accepted without
    /// lookahead.
    pub exempt: bool,
}

/// What a scan of the pending text came to.
#[derive(Clone, Copy, Debug, PartialEq, Eq, Structural)]
pub enum ScanOutcome {
    /// A sentence ends at this byte offset.
    Boundary(usize),
    /// A boundary was confirmed, but too little text follows it yet.
    NeedMoreInput,
    /// No candidate is a boundary.
    NoBoundary,
}

/// What weighing one candidate came to.
#[derive(Clone, Copy, Debug, PartialEq, Eq, Structural)]
pub enum Verdict {
    /// The sentence ends at this byte offset.
    Accept(usize),
    /// The boundary has to wait for more text.
    Wait,
    /// The candidate is no boundary; the next one is looked at.
    Pass,
}

/// The first of `starts`, in the order given, that lies behind `after`.
pub open spec fn next_start(starts: Seq<usize>, after: int) -> Option<usize>
    decreases starts.len(),
{
    if starts.len() == 0 {
        None
    } else if starts[0] > after {
        Some(starts[0])
    } else {
        next_start(starts.drop_first(), after)
    }
}

/// Whether the stretch `span` holds all of `candidate`.
pub open spec fn covers(span: (usize, usize), candidate: (usize, usize)) -> bool {
    span.0 <= candidate.0 && candidate.1 <= span.1
}

/// The first of `spans`, in the order given, that holds all of `candidate`.
pub open spec fn covering_span(spans: Seq<(usize, usize)>, candidate: (usize, usize)) -> Option<
    (usize, usize),
>
    decreases spans.len(),
{
    if spans.len() == 0 {
        None
    } else if covers(spans[0], candidate) {
        Some(spans[0])
    } else {
        covering_span(spans.drop_first(), candidate)
    }
}

/// The boundary that follows from what the rules found around a candidate
/// that ends at `end`. A numbered reference right behind the candidate belongs
/// to the sentence: the boundary then lies at the first grapheme start behind
/// the end of the reference, or at that end itself if no grapheme starts behind
/// it, and is exempt from lookahead. Otherwise the candidate's end is the
/// boundary unless the rules hold it back.
pub open spec fn settled(
    end: usize,
    starts: Seq<usize>,
    reference: Option<usize>,
    held_back: bool,
) -> Option<Boundary> {
    match reference {
        Some(length) => if end + length > usize::MAX {
            None
        } else {
            let reference_end = (end + length) as usize;
            Some(
                Boundary {
                    end: match next_start(starts, reference_end as int) {
                        Some(start) => start,
                        None => reference_end,
                    },
                    exempt: true,
                },
            )
        },
        None => if held_back {
            None
        } else {
            Some(Boundary { end, exempt: false })
        },
    }
}

/// The decision of the rules for `code` on one candidate in `text`. The text
/// is parted at the candidate's start and at the next grapheme start behind
/// it: what lies between is the separator, what comes before is the head, and
/// what follows is the tail. A candidate with no grapheme start behind it, or
/// with offsets at which `text` cannot be cut, is no boundary.
pub open spec fn decision(
    code: Seq<char>,
    text: Seq<char>,
    starts: Seq<usize>,
    candidate: (usize, usize),
) -> Option<Boundary> {
    match next_start(starts, candidate.0 as int) {
        None => None,
        Some(next) => if is_split_point(text, candidate.0 as int) && is_split_point(
            text,
            next as int,
        ) {
            let head = text_before(text, candidate.0 as int);
            let separator = text_between(text, candidate.0 as int, next as int);
            let tail = text_from(text, next as int);
            settled(
                candidate.1,
                starts,
                reference_end(code, tail),
                continues_sentence(code, tail) || ends_in_abbreviation(
                    code,
                    head,
                    tail,
                    separator,
                ) || ends_in_exclamation_word(code, head, tail),
            )
        } else {
            None
        },
    }
}

/// What one candidate proposes. A candidate inside a stretch that is kept
/// whole, and that ends before the stretch does, is passed over. One that ends
/// where its stretch ends closes it: if the language lets closing punctuation
/// end the sentence, the end of the stretch is the boundary without the rules
/// being asked, and like any boundary that the rules have not exempted it
/// needs its lookahead. Every other candidate goes to the rules.
pub open spec fn proposal(
    code: Seq<char>,
    text: Seq<char>,
    starts: Seq<usize>,
    spans: Seq<(usize, usize)>,
    closing: bool,
    candidate: (usize, usize),
) -> Option<Boundary> {
    match covering_span(spans, candidate) {
        Some(span) => if candidate.1 != span.1 {
            None
        } else if closing {
            Some(Boundary { end: span.1, exempt: false })
        } else {
            decision(code, text, starts, candidate)
        },
        None => decision(code, text, starts, candidate),
    }
}

/// What becomes of a proposal. A boundary at the very start of the text, or
/// at an offset where the text cannot be cut, is passed over. A boundary that
/// is not exempt is accepted only if at least `lookahead` characters follow it.
pub open spec fn weighed(text: Seq<char>, lookahead: usize, proposed: Option<Boundary>) -> Verdict {
    match proposed {
        None => Verdict::Pass,
        Some(boundary) => if boundary.end == 0 || !is_split_point(text, boundary.end as int) {
            Verdict::Pass
        } else if boundary.exempt || text_from(text, boundary.end as int).len() >= lookahead {
            Verdict::Accept(boundary.end)
        } else {
            Verdict::Wait
        },
    }
}

/// The outcome of weighing `candidates` from left to right: the first verdict
/// that is not a pass decides.
pub open spec fn scan(
    code: Seq<char>,
    text: Seq<char>,
    lookahead: usize,
    starts: Seq<usize>,
    spans: Seq<(usize, usize)>,
    closing: bool,
    candidates: Seq<(usize, usize)>,
) -> ScanOutcome
    decreases candidates.len(),
{
    if candidates.len() == 0 {
        ScanOutcome::NoBoundary
    } else {
        match weighed(text, lookahead, proposal(code, text, starts, spans, closing, candidates[0])) {
            Verdict::Accept(end) => ScanOutcome::Boundary(end),
            Verdict::Wait => ScanOutcome::NeedMoreInput,
            Verdict::Pass => scan(
                code,
                text,
                lookahead,
                starts,
                spans,
                closing,
                candidates.drop_first(),
            ),
        }
    }
}

/// Where the first sentence of `text` ends under the rules for `code`. An
/// empty text has no boundary.
pub open spec fn next_boundary(code: Seq<char>, text: Seq<char>, lookahead: usize) -> ScanOutcome {
    if text.len() == 0 {
        ScanOutcome::NoBoundary
    } else {
        scan(
            code,
            text,
            lookahead,
            grapheme_starts(text),
            skip_spans(code, text),
            closing_punctuation_ends_sentence(code),
            break_matches(code, text),
        )
    }
}

/// A boundary that a scan comes to lies behind the start of the text, at an
/// offset where the text can be cut.
pub proof fn lemma_scan_cuts_text(
    code: Seq<char>,
    text: Seq<char>,
    lookahead: usize,
    starts: Seq<usize>,
    spans: Seq<(usize, usize)>,
    closing: bool,
    candidates: Seq<(usize, usize)>,
)
    ensures
        scan(code, text, lookahead, starts, spans, closing, candidates) matches ScanOutcome::Boundary(
            end,
        ) ==> end > 0 && is_split_point(text, end as int),
    decreases candidates.len(),
{
    if candidates.len() > 0 {
        lemma_scan_cuts_text(
            code,
            text,
            lookahead,
            starts,
            spans,
            closing,
            candidates.drop_first(),
        );
    }
}

/// The boundary of a text lies behind its start, at an offset where it can be
/// cut, so that what is left behind the boundary is shorter than the text.
pub proof fn lemma_boundary_cuts_text(code: Seq<char>, text: Seq<char>, lookahead: usize)
    ensures
        next_boundary(code, text, lookahead) matches ScanOutcome::Boundary(end) ==> end > 0
            && is_split_point(text, end as int) && text_from(text, end as int).len()
            < text.len(),
{
    if let ScanOutcome::Boundary(end) = next_boundary(code, text, lookahead) {
        lemma_scan_cuts_text(
            code,
            text,
            lookahead,
            grapheme_starts(text),
            skip_spans(code, text),
            closing_punctuation_ends_sentence(code),
            break_matches(code, text),
        );
        lemma_split_point(text, end as int);
    }
}

/// What `next_start` finds does lie behind `after`.
pub proof fn lemma_next_start_lies_behind(starts: Seq<usize>, after: int)
    ensures
        next_start(starts, after) matches Some(start) ==> start > after,
    decreases starts.len(),
{
    if starts.len() > 0 && starts[0] <= after {
        lemma_next_start_lies_behind(starts.drop_first(), after);
    }
}

/// The first of `starts`, in the order given, that lies behind `after`.
pub fn first_start_after(starts: &Vec<usize>, after: usize) -> (r: Option<usize>)
    ensures
        r == next_start(starts@, after as int),
{
    let mut i: usize = 0;
    proof {
        assert(starts@.skip(0) =~= starts@);
    }
    while i < starts.len()
        invariant
            i <= starts.len(),
            next_start(starts@, after as int) == next_start(starts@.skip(i as int), after as int),
        decreases starts.len() - i,
    {
        if starts[i] > after {
            return Some(starts[i]);
        }
        proof {
            assert(starts@.skip(i as int).drop_first() =~= starts@.skip(i + 1));
        }
        i = i + 1;
    }
    None
}

/// The first of `spans`, in the order given, that holds all of `candidate`.
pub fn find_covering_span(spans: &Vec<(usize, usize)>, candidate: (usize, usize)) -> (r: Option<
    (usize, usize),
>)
    ensures
        r == covering_span(spans@, candidate),
{
    let mut i: usize = 0;
    proof {
        assert(spans@.skip(0) =~= spans@);
    }
    while i < spans.len()
        invariant
            i <= spans.len(),
            covering_span(spans@, candidate) == covering_span(spans@.skip(i as int), candidate),
        decreases spans.len() - i,
    {
        let span = spans[i];
        if span.0 <= candidate.0 && candidate.1 <= span.1 {
            return Some(span);
        }
        proof {
            assert(spans@.skip(i as int).drop_first() =~= spans@.skip(i + 1));
        }
        i = i + 1;
    }
    None
}

/// Turns what the rules found around a candidate that ends at `end` into a
/// boundary.
pub fn settle(end: usize, starts: &Vec<usize>, reference: Option<usize>, held_back: bool) -> (r:
    Option<Boundary>)
    ensures
        r == settled(end, starts@, reference, held_back),
{
    match reference {
        Some(length) => match end.checked_add(length) {
            Some(reference_end) => {
                let end = match first_start_after(starts, reference_end) {
                    Some(start) => start,
                    None => reference_end,
                };
                Some(Boundary { end, exempt: true })
            },
            None => None,
        },
        None => if held_back {
            None
        } else {
            Some(Boundary { end, exempt: false })
        },
    }
}

/// Decides what becomes of a proposal for `text`.
pub fn weigh(text: &str, lookahead: usize, proposed: Option<Boundary>) -> (r: Verdict)
    ensures
        r == weighed(text@, lookahead, proposed),
{
    match proposed {
        None => Verdict::Pass,
        Some(boundary) => {
            if boundary.end == 0 {
                return Verdict::Pass;
            }
            match split_text(text, boundary.end) {
                None => Verdict::Pass,
                Some((_, rest)) => if boundary.exempt || rest.unicode_len() >= lookahead {
                    Verdict::Accept(boundary.end)
                } else {
                    Verdict::Wait
                },
            }
        },
    }
}

/// The segmentation rules of one language.
pub struct RuleSet {
    code: String,
}

impl RuleSet {
    #[verifier::type_invariant]
    spec fn registered(self) -> bool {
        language_registered(self.code@)
    }

    /// The language code these rules were resolved from.
    pub closed spec fn code(self) -> Seq<char> {
        self.code@
    }

    /// The rules for the language code `code`, if any are registered.
    pub fn resolve(code: &str) -> (r: Option<RuleSet>)
        ensures
            r is Some <==> language_registered(code@),
            r matches Some(rules) ==> rules.code() == code@,
    {
        if registry_contains(code) {
            Some(RuleSet { code: code.to_owned() })
        } else {
            None
        }
    }

    /// The language code these rules were resolved from.
    pub fn language_code(&self) -> (r: &str)
        ensures
            r@ == self.code(),
    {
        self.code.as_str()
    }

    /// The punctuation in `text` that may end a sentence, from left to right.
    pub fn boundary_candidates(&self, text: &str) -> (r: Vec<(usize, usize)>)
        ensures
            r@ == break_matches(self.code(), text@),
    {
        proof {
            use_type_invariant(self);
        }
        rule_break_matches(self.code.as_str(), text)
    }

    /// The stretches of `text` that are kept whole, or nothing if `text` is
    /// too tangled to be searched within the scan budget.
    pub fn skip_ranges(&self, text: &str) -> (r: Option<Vec<(usize, usize)>>)
        ensures
            r is Some <==> within_scan_budget(text@),
            r matches Some(spans) ==> spans@ == skip_spans(self.code(), text@),
    {
        proof {
            use_type_invariant(self);
        }
        if fits_scan_budget(text) {
            Some(rule_skip_spans(self.code.as_str(), text))
        } else {
            None
        }
    }

    /// Whether punctuation that closes a kept-whole stretch ends the sentence.
    pub fn treats_trailing_punctuation_as_boundary(&self) -> (r: bool)
        ensures
            r == closing_punctuation_ends_sentence(self.code()),
    {
        proof {
            use_type_invariant(self);
        }
        rule_closing_punctuation(self.code.as_str())
    }

    /// Asks the rules whether `candidate` ends a sentence of `text`.
    /// `starts` holds the grapheme starts of `text`.
    ///
    /// `libtqsm` has a method of this name, but it takes a cursor that only
    /// `libtqsm` can build. So the questions that it asks are put here in its
    /// place, in the same order: a numbered reference behind the candidate
    /// settles the matter, and after that each reason to hold the boundary
    /// back is asked for only if none was found before.
    pub fn find_boundary(&self, text: &str, starts: &Vec<usize>, candidate: (usize, usize)) -> (r:
        Option<Boundary>)
        ensures
            r == decision(self.code(), text@, starts@, candidate),
    {
        proof {
            use_type_invariant(self);
        }
        let code = self.code.as_str();
        let next = match first_start_after(starts, candidate.0) {
            Some(next) => next,
            None => {
                return None;
            },
        };
        proof {
            lemma_next_start_lies_behind(starts@, candidate.0 as int);
        }
        let separator = match slice_text(text, candidate.0, next) {
            Some(separator) => separator,
            None => {
                return None;
            },
        };
        let head = match split_text(text, candidate.0) {
            Some((head, _)) => head,
            None => {
                return None;
            },
        };
        let tail = match split_text(text, next) {
            Some((_, tail)) => tail,
            None => {
                return None;
            },
        };
        let reference = rule_reference_end(code, tail);
        if reference.is_some() {
            return settle(candidate.1, starts, reference, false);
        }
        let held_back = rule_continues_sentence(code, tail) || rule_ends_in_abbreviation(
            code,
            head,
            tail,
            separator,
        ) || rule_ends_in_exclamation_word(code, head, tail);
        settle(candidate.1, starts, reference, held_back)
    }

    /// What `candidate` proposes, given the kept-whole stretches `spans` of
    /// `text` and whether closing punctuation ends a sentence.
    pub fn propose(
        &self,
        text: &str,
        starts: &Vec<usize>,
        spans: &Vec<(usize, usize)>,
        closing: bool,
        candidate: (usize, usize),
    ) -> (r: Option<Boundary>)
        ensures
            r == proposal(self.code(), text@, starts@, spans@, closing, candidate),
    {
        match find_covering_span(spans, candidate) {
            Some(span) => if candidate.1 != span.1 {
                None
            } else if closing {
                Some(Boundary { end: span.1, exempt: false })
            } else {
                self.find_boundary(text, starts, candidate)
            },
            None => self.find_boundary(text, starts, candidate),
        }
    }

    /// Finds where the first sentence of `text` ends, or nothing if `text`
    /// is too tangled to be searched within the scan budget.
    pub fn next_boundary(&self, text: &str, lookahead: usize) -> (r: Option<ScanOutcome>)
        ensures
            r is Some <==> within_scan_budget(text@),
            r matches Some(outcome) ==> outcome == next_boundary(self.code(), text@, lookahead),
    {
        let spans = match self.skip_ranges(text) {
            Some(spans) => spans,
            None => {
                return None;
            },
        };
        if text.is_empty() {
            return Some(ScanOutcome::NoBoundary);
        }
        let starts = text_grapheme_starts(text);
        let closing = self.treats_trailing_punctuation_as_boundary();
        let candidates = self.boundary_candidates(text);
        let mut i: usize = 0;
        proof {
            assert(candidates@.skip(0) =~= candidates@);
        }
        while i < candidates.len()
            invariant
                i <= candidates.len(),
                text@.len() > 0,
                within_scan_budget(text@),
                starts@ == grapheme_starts(text@),
                spans@ == skip_spans(self.code(), text@),
                closing == closing_punctuation_ends_sentence(self.code()),
                candidates@ == break_matches(self.code(), text@),
                scan(
                    self.code(),
                    text@,
                    lookahead,
                    starts@,
                    spans@,
                    closing,
                    candidates@,
                ) == scan(
                    self.code(),
                    text@,
                    lookahead,
                    starts@,
                    spans@,
                    closing,
                    candidates@.skip(i as int),
                ),
            decreases candidates.len() - i,
        {
            let proposed = self.propose(text, &starts, &spans, closing, candidates[i]);
            proof {
                assert(candidates@.skip(i as int)[0] == candidates@[i as int]);
            }
            match weigh(text, lookahead, proposed) {
                Verdict::Accept(end) => {
                    return Some(ScanOutcome::Boundary(end));
                },
                Verdict::Wait => {
                    return Some(ScanOutcome::NeedMoreInput);
                },
                Verdict::Pass => {},
            }
            proof {
                assert(candidates@.skip(i as int).drop_first() =~= candidates@.skip(i + 1));
            }
            i = i + 1;
        }
        Some(ScanOutcome::NoBoundary)
    }
}

} // verus!
