//! The segmenter: pending text, fed in chunks, drained sentence by sentence.

use crate::boundary::{lemma_boundary_cuts_text, next_boundary, RuleSet, ScanOutcome};
use crate::budget::{lemma_budget_holds_behind_cut, within_scan_budget};
use crate::config::SegmentOptions;
use crate::error::{failure, SegmenterError};
use crate::rules::language_registered;
use crate::text::{
    is_split_point, lemma_split_point, lemma_trim_keeps_all_but_spaces, split_text, text_before,
    text_from, trim_spaces, trim_text, without_spaces,
};
use vstd::prelude::*;
use vstd::seq_lib::lemma_flatten_concat;
use vstd::string::*;
use vstd::utf8::encode_utf8;

verus! {

/// The stretches that are cut off the front of `text`, one for each sentence
/// that can be confirmed, in order. After each cut the search starts afresh on
/// what is left.
pub open spec fn pieces(code: Seq<char>, text: Seq<char>, lookahead: usize) -> Seq<Seq<char>>
    decreases text.len(),
    via pieces_decreases
{
    match next_boundary(code, text, lookahead) {
        ScanOutcome::Boundary(end) => seq![text_before(text, end as int)] + pieces(
            code,
            text_from(text, end as int),
            lookahead,
        ),
        _ => Seq::empty(),
    }
}

#[via_fn]
proof fn pieces_decreases(code: Seq<char>, text: Seq<char>, lookahead: usize) {
    lemma_boundary_cuts_text(code, text, lookahead);
}

/// What is left of `text` once every sentence that can be confirmed is cut
/// off its front.
pub open spec fn remainder(code: Seq<char>, text: Seq<char>, lookahead: usize) -> Seq<char>
    decreases text.len(),
    via remainder_decreases
{
    match next_boundary(code, text, lookahead) {
        ScanOutcome::Boundary(end) => remainder(code, text_from(text, end as int), lookahead),
        _ => text,
    }
}

#[via_fn]
proof fn remainder_decreases(code: Seq<char>, text: Seq<char>, lookahead: usize) {
    lemma_boundary_cuts_text(code, text, lookahead);
}

/// Each of `parts` without the spaces at its ends.
pub open spec fn trimmed(parts: Seq<Seq<char>>) -> Seq<Seq<char>> {
    parts.map_values(|part: Seq<char>| trim_spaces(part))
}

/// The sentences that can be confirmed at the front of `text`.
pub open spec fn sentences(code: Seq<char>, text: Seq<char>, lookahead: usize) -> Seq<Seq<char>> {
    trimmed(pieces(code, text, lookahead))
}

/// The characters of each of `strings`.
pub open spec fn texts(strings: Seq<String>) -> Seq<Seq<char>> {
    strings.map_values(|string: String| string@)
}

/// Nothing is lost and nothing is doubled when sentences are cut off: the
/// stretches cut off, joined in order, and what is left behind them are the
/// text again.
pub proof fn lemma_pieces_rejoin(code: Seq<char>, text: Seq<char>, lookahead: usize)
    ensures
        pieces(code, text, lookahead).flatten() + remainder(code, text, lookahead) == text,
        remainder(code, text, lookahead).len() <= text.len(),
    decreases text.len(),
{
    lemma_boundary_cuts_text(code, text, lookahead);
    match next_boundary(code, text, lookahead) {
        ScanOutcome::Boundary(end) => {
            let head = text_before(text, end as int);
            let rest = text_from(text, end as int);
            lemma_split_point(text, end as int);
            lemma_pieces_rejoin(code, rest, lookahead);
            let later = pieces(code, rest, lookahead);
            assert((seq![head] + later).drop_first() =~= later);
            assert(pieces(code, text, lookahead).flatten() =~= head + later.flatten());
            assert(head + later.flatten() + remainder(code, rest, lookahead) =~= head + (
            later.flatten() + remainder(code, rest, lookahead)));
        },
        _ => {
            assert(Seq::<Seq<char>>::empty().flatten() + text =~= text);
        },
    }
}

/// What is left after the cuts holds no boundary that could be accepted:
/// cutting is carried on until it comes to a stop.
pub proof fn lemma_remainder_is_settled(code: Seq<char>, text: Seq<char>, lookahead: usize)
    ensures
        !(next_boundary(code, remainder(code, text, lookahead), lookahead) is Boundary),
        pieces(code, remainder(code, text, lookahead), lookahead) == Seq::<Seq<char>>::empty(),
        remainder(code, remainder(code, text, lookahead), lookahead) == remainder(
            code,
            text,
            lookahead,
        ),
    decreases text.len(),
{
    lemma_boundary_cuts_text(code, text, lookahead);
    if let ScanOutcome::Boundary(end) = next_boundary(code, text, lookahead) {
        lemma_remainder_is_settled(code, text_from(text, end as int), lookahead);
    }
}

/// What is left of a text within the scan budget is within it too.
pub proof fn lemma_remainder_within_budget(code: Seq<char>, text: Seq<char>, lookahead: usize)
    requires
        within_scan_budget(text),
    ensures
        within_scan_budget(remainder(code, text, lookahead)),
    decreases text.len(),
{
    lemma_boundary_cuts_text(code, text, lookahead);
    if let ScanOutcome::Boundary(end) = next_boundary(code, text, lookahead) {
        lemma_budget_holds_behind_cut(text, end as int);
        lemma_remainder_within_budget(code, text_from(text, end as int), lookahead);
    }
}

/// Every cut is made on the text as it stands after the cut before it. The
/// boundary found lies inside the text it was found in, at an offset where that
/// text can be cut, and what is cut off later, and what is left in the end,
/// depend on nothing but the rest behind the boundary.
pub proof fn lemma_scan_restarts_on_rest(code: Seq<char>, text: Seq<char>, lookahead: usize)
    ensures
        next_boundary(code, text, lookahead) matches ScanOutcome::Boundary(end) ==> {
            &&& 0 < end <= encode_utf8(text).len()
            &&& is_split_point(text, end as int)
            &&& pieces(code, text, lookahead) == seq![text_before(text, end as int)] + pieces(
                code,
                text_from(text, end as int),
                lookahead,
            )
            &&& remainder(code, text, lookahead) == remainder(
                code,
                text_from(text, end as int),
                lookahead,
            )
        },
{
    lemma_boundary_cuts_text(code, text, lookahead);
    if let ScanOutcome::Boundary(end) = next_boundary(code, text, lookahead) {
        lemma_split_point(text, end as int);
    }
}

/// Trimming the stretches drops no character but spaces, and changes the
/// order of none: with the spaces taken out, the trimmed stretches joined in
/// order and the stretches joined in order are the same text.
pub proof fn lemma_trimmed_keep_all_but_spaces(parts: Seq<Seq<char>>)
    ensures
        without_spaces(trimmed(parts).flatten()) == without_spaces(parts.flatten()),
    decreases parts.len(),
{
    if parts.len() > 0 {
        let later = parts.drop_first();
        lemma_trimmed_keep_all_but_spaces(later);
        lemma_trim_keeps_all_but_spaces(parts.first());
        assert(trimmed(parts).drop_first() =~= trimmed(later));
        Seq::filter_distributes_over_add(
            trim_spaces(parts.first()),
            trimmed(later).flatten(),
            |c: char| c != ' ',
        );
        Seq::filter_distributes_over_add(parts.first(), later.flatten(), |c: char| c != ' ');
    } else {
        assert(trimmed(parts) =~= parts);
    }
}

/// Cuts every sentence that can be confirmed off the front of `buffer`.
/// Returns the sentences, trimmed, and what is left of the buffer, or nothing
/// if `buffer` is too tangled to be searched within the scan budget.
pub fn process_buffer(rules: &RuleSet, lookahead: usize, buffer: String) -> (r: Option<
    (Vec<String>, String),
>)
    ensures
        r is Some <==> within_scan_budget(buffer@),
        r matches Some((completed, rest)) ==> texts(completed@) == sentences(
            rules.code(),
            buffer@,
            lookahead,
        ) && rest@ == remainder(rules.code(), buffer@, lookahead),
{
    let mut completed: Vec<String> = Vec::new();
    let mut pending: String = buffer;
    let ghost mut cut: Seq<Seq<char>> = Seq::empty();
    let mut outcome = match rules.next_boundary(pending.as_str(), lookahead) {
        Some(outcome) => outcome,
        None => {
            return None;
        },
    };
    proof {
        assert(texts(completed@) =~= trimmed(cut));
        assert(cut + pieces(rules.code(), pending@, lookahead) =~= pieces(
            rules.code(),
            buffer@,
            lookahead,
        ));
    }
    loop
        invariant
            within_scan_budget(buffer@),
            within_scan_budget(pending@),
            outcome == next_boundary(rules.code(), pending@, lookahead),
            completed@.len() == cut.len(),
            texts(completed@) == trimmed(cut),
            cut + pieces(rules.code(), pending@, lookahead) == pieces(
                rules.code(),
                buffer@,
                lookahead,
            ),
            remainder(rules.code(), pending@, lookahead) == remainder(
                rules.code(),
                buffer@,
                lookahead,
            ),
        ensures
            texts(completed@) == sentences(rules.code(), buffer@, lookahead),
            pending@ == remainder(rules.code(), buffer@, lookahead),
        decreases pending@.len(),
    {
        proof {
            lemma_boundary_cuts_text(rules.code(), pending@, lookahead);
        }
        let rest: String = match outcome {
            ScanOutcome::Boundary(end) => match split_text(pending.as_str(), end) {
                Some((head, rest)) => {
                    let sentence = trim_text(head).to_owned();
                    proof {
                        let before = completed@;
                        assert forall|i: int| 0 <= i < before.len() + 1 implies texts(
                            before.push(sentence),
                        )[i] == trimmed(cut.push(head@))[i] by {
                            if i < before.len() {
                                assert(texts(before)[i] == before[i]@);
                                assert(trimmed(cut)[i] == trim_spaces(cut[i]));
                            }
                        }
                        assert(texts(before.push(sentence)) =~= trimmed(cut.push(head@)));
                        assert(cut.push(head@) + pieces(rules.code(), rest@, lookahead) =~= cut
                            + pieces(rules.code(), pending@, lookahead));
                        cut = cut.push(head@);
                        lemma_budget_holds_behind_cut(pending@, end as int);
                    }
                    completed.push(sentence);
                    rest.to_owned()
                },
                // A boundary is a split point, so the cut cannot fail.
                None => {
                    break ;
                },
            },
            _ => {
                proof {
                    assert(cut + Seq::<Seq<char>>::empty() =~= cut);
                }
                break ;
            },
        };
        // What is left of a text within the scan budget is within it too.
        outcome = rules.next_boundary(rest.as_str(), lookahead).unwrap();
        pending = rest;
    }
    Some((completed, pending))
}

/// What a segmenter holds of the text: what is pending, and a record, kept
/// for proofs only, of what it has taken in and handed out so far.
struct Held {
    buffer: String,
    taken: Ghost<Seq<char>>,
    released: Ghost<Seq<Seq<char>>>,
}

/// Splits text that arrives in chunks into sentences.
pub struct Segmenter {
    held: Held,
    options: SegmentOptions,
    rules: RuleSet,
}

impl Segmenter {
    #[verifier::type_invariant]
    spec fn consistent(self) -> bool {
        &&& self.held.buffer@.len() <= self.options.max_buffer
        &&& self.rules.code() == self.options.language@
        &&& within_scan_budget(self.held.buffer@)
        &&& !(next_boundary(self.rules.code(), self.held.buffer@, self.options.lookahead)
            is Boundary)
        &&& self.held.released@.flatten() + self.held.buffer@ == self.held.taken@
    }

    /// The text received and not yet emitted.
    pub closed spec fn pending(self) -> Seq<char> {
        self.held.buffer@
    }

    /// All the text taken in so far: the chunks of every feed that was
    /// accepted, in order.
    pub closed spec fn taken_in(self) -> Seq<char> {
        self.held.taken@
    }

    /// All the stretches handed out so far, as they were before trimming: one
    /// for every sentence that a feed or a flush has returned, in order.
    pub closed spec fn handed_out(self) -> Seq<Seq<char>> {
        self.held.released@
    }

    /// Whether nothing was lost and nothing doubled so far: the stretches
    /// handed out, joined in order, and the pending text behind them are the
    /// text taken in.
    pub open spec fn accounts_for_all(self) -> bool {
        self.handed_out().flatten() + self.pending() == self.taken_in()
    }

    /// How many characters must follow a boundary before it is accepted.
    pub closed spec fn lookahead(self) -> usize {
        self.options.lookahead
    }

    /// The most characters that may be pending.
    pub closed spec fn max_buffer(self) -> usize {
        self.options.max_buffer
    }

    /// The language code of the rules in use.
    pub closed spec fn language(self) -> Seq<char> {
        self.options.language@
    }

    /// A segmenter with nothing pending, if rules are registered for the
    /// language of `options`.
    ///
    /// Only the codes of the registry itself count. `libtqsm` keeps its table
    /// of fallbacks, which sends a regional code to its language and an
    /// unknown code to English, to itself.
    pub fn new(options: SegmentOptions) -> (r: Result<Segmenter, SegmenterError>)
        ensures
            r is Ok <==> language_registered(options.language@),
            r matches Ok(segmenter) ==> segmenter.pending() == Seq::<char>::empty()
                && segmenter.lookahead() == options.lookahead && segmenter.max_buffer()
                == options.max_buffer && segmenter.language() == options.language@
                && segmenter.taken_in() == Seq::<char>::empty() && segmenter.handed_out()
                == Seq::<Seq<char>>::empty() && segmenter.accounts_for_all(),
            r matches Err(error) ==> error matches SegmenterError::UnsupportedLanguage(code)
                && code@ == options.language@,
    {
        match RuleSet::resolve(options.language.as_str()) {
            Some(rules) => {
                let held = Held {
                    buffer: String::new(),
                    taken: Ghost(Seq::empty()),
                    released: Ghost(Seq::empty()),
                };
                proof {
                    assert(Seq::<Seq<char>>::empty().flatten() + Seq::<char>::empty()
                        =~= Seq::<char>::empty());
                }
                Ok(Segmenter { held, options, rules })
            },
            None => Err(SegmenterError::UnsupportedLanguage(options.language.clone())),
        }
    }

    /// Takes in the next chunk of text and returns the sentences that are now
    /// complete, in order.
    ///
    /// A chunk that would grow the pending text beyond the maximum, counted
    /// in characters, is turned down whole. So is a chunk with which the
    /// pending text would be too tangled to be searched within the scan
    /// budget. Either way nothing changes. Otherwise the chunk is added
    /// behind the pending text, and sentences are cut off its front for as
    /// long as a boundary can be accepted. An empty chunk changes nothing and
    /// yields nothing.
    pub fn feed(&mut self, chunk: &str) -> (r: Result<Vec<String>, SegmenterError>)
        ensures
            final(self).lookahead() == old(self).lookahead(),
            final(self).max_buffer() == old(self).max_buffer(),
            final(self).language() == old(self).language(),
            (r matches Err(SegmenterError::BufferOverflow(limit)) && limit == old(
                self,
            ).max_buffer()) <==> old(self).pending().len() + chunk@.len() > old(
                self,
            ).max_buffer(),
            r matches Err(SegmenterError::SegmentationError(_)) <==> old(self).pending().len()
                + chunk@.len() <= old(self).max_buffer() && !within_scan_budget(
                old(self).pending() + chunk@,
            ),
            r is Ok <==> old(self).pending().len() + chunk@.len() <= old(self).max_buffer()
                && within_scan_budget(old(self).pending() + chunk@),
            r is Err ==> final(self).pending() == old(self).pending() && final(self).taken_in()
                == old(self).taken_in() && final(self).handed_out() == old(self).handed_out(),
            r matches Ok(completed) ==> {
                let text = old(self).pending() + chunk@;
                &&& texts(completed@) == sentences(
                    old(self).language(),
                    text,
                    old(self).lookahead(),
                )
                &&& final(self).pending() == remainder(
                    old(self).language(),
                    text,
                    old(self).lookahead(),
                )
                &&& final(self).taken_in() == old(self).taken_in() + chunk@
                &&& final(self).handed_out() == old(self).handed_out() + pieces(
                    old(self).language(),
                    text,
                    old(self).lookahead(),
                )
                &&& trimmed(final(self).handed_out()) == trimmed(old(self).handed_out()) + texts(
                    completed@,
                )
            },
            final(self).pending().len() <= final(self).max_buffer(),
            old(self).accounts_for_all(),
            final(self).accounts_for_all(),
            chunk@.len() == 0 ==> final(self).pending() == old(self).pending() && (
            r matches Ok(completed) && completed@.len() == 0),
    {
        proof {
            use_type_invariant(&*self);
        }
        let held: usize = self.held.buffer.as_str().unicode_len();
        let incoming: usize = chunk.unicode_len();
        if incoming > self.options.max_buffer - held {
            return Err(SegmenterError::BufferOverflow(self.options.max_buffer));
        }
        let mut joined: String = self.held.buffer.clone();
        joined.append(chunk);
        proof {
            if chunk@.len() == 0 {
                assert(joined@ =~= self.held.buffer@);
            }
        }
        match process_buffer(&self.rules, self.options.lookahead, joined) {
            Some((completed, rest)) => {
                let ghost cut = pieces(self.rules.code(), joined@, self.options.lookahead);
                let ghost taken = self.held.taken@ + chunk@;
                let ghost released = self.held.released@ + cut;
                proof {
                    lemma_pieces_rejoin(self.rules.code(), joined@, self.options.lookahead);
                    lemma_remainder_is_settled(
                        self.rules.code(),
                        joined@,
                        self.options.lookahead,
                    );
                    lemma_remainder_within_budget(
                        self.rules.code(),
                        joined@,
                        self.options.lookahead,
                    );
                    lemma_flatten_concat(self.held.released@, cut);
                    assert(released.flatten() + rest@ =~= self.held.released@.flatten() + (
                    cut.flatten() + rest@));
                    assert(taken =~= self.held.released@.flatten() + joined@);
                    assert(trimmed(released) =~= trimmed(self.held.released@) + trimmed(cut));
                    if chunk@.len() == 0 {
                        assert(cut =~= Seq::<Seq<char>>::empty());
                        assert(rest@ == self.held.buffer@);
                        assert(texts(completed@).len() == completed@.len());
                        assert(trimmed(Seq::<Seq<char>>::empty()).len() == 0);
                    }
                }
                self.held = Held { buffer: rest, taken: Ghost(taken), released: Ghost(released) };
                Ok(completed)
            },
            None => {
                assert(chunk@.len() != 0);
                Err(
                    SegmenterError::SegmentationError(
                        failure(
                            "the pending text is too tangled to be searched for bracketed spans",
                        ),
                    ),
                )
            },
        }
    }

    /// Ends the input: returns what is pending as the last sentence, trimmed,
    /// and leaves nothing pending. No lookahead is asked for. With nothing
    /// pending there is no last sentence. After a flush all the text taken in
    /// has been handed out.
    pub fn flush(&mut self) -> (r: Result<Option<String>, SegmenterError>)
        ensures
            final(self).lookahead() == old(self).lookahead(),
            final(self).max_buffer() == old(self).max_buffer(),
            final(self).language() == old(self).language(),
            final(self).pending() == Seq::<char>::empty(),
            final(self).taken_in() == old(self).taken_in(),
            old(self).pending().len() == 0 ==> r matches Ok(None),
            old(self).pending().len() == 0 ==> final(self).handed_out() == old(
                self,
            ).handed_out(),
            old(self).pending().len() > 0 ==> (r matches Ok(Some(last)) && last@ == trim_spaces(
                old(self).pending(),
            )),
            old(self).pending().len() > 0 ==> final(self).handed_out() == old(
                self,
            ).handed_out().push(old(self).pending()),
            r matches Ok(Some(last)) ==> trimmed(final(self).handed_out()) == trimmed(
                old(self).handed_out(),
            ).push(last@),
            old(self).accounts_for_all(),
            final(self).accounts_for_all(),
            final(self).handed_out().flatten() == final(self).taken_in(),
            without_spaces(trimmed(final(self).handed_out()).flatten()) == without_spaces(
                final(self).taken_in(),
            ),
    {
        proof {
            use_type_invariant(&*self);
        }
        if self.held.buffer.as_str().is_empty() {
            proof {
                assert(self.held.buffer@ =~= Seq::<char>::empty());
                assert(self.held.released@.flatten() + Seq::<char>::empty()
                    =~= self.held.released@.flatten());
                lemma_trimmed_keep_all_but_spaces(self.held.released@);
            }
            Ok(None)
        } else {
            let last = trim_text(self.held.buffer.as_str()).to_owned();
            let ghost released = self.held.released@.push(self.held.buffer@);
            proof {
                self.held.released@.lemma_flatten_push(self.held.buffer@);
                assert(released.flatten() + Seq::<char>::empty() =~= released.flatten());
                assert(trimmed(released) =~= trimmed(self.held.released@).push(last@));
                lemma_trimmed_keep_all_but_spaces(released);
            }
            self.held = Held {
                buffer: String::new(),
                taken: Ghost(self.held.taken@),
                released: Ghost(released),
            };
            Ok(Some(last))
        }
    }
}

} // verus!
