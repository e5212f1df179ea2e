//! Driving a segmenter from a source of bytes.
//!
//! Reading is left to the caller. After every read the caller reports what
//! came of it, and is told which items to hand on and whether to go on
//! reading.

use crate::budget::within_scan_budget;
use crate::config::SegmentOptions;
use crate::error::SegmenterError;
use crate::rules::language_registered;
use crate::segmenter::{pieces, remainder, sentences, texts, Segmenter};
use crate::text::trim_spaces;
use std::str::Utf8Error;
use vstd::prelude::*;
use vstd::string::*;
use vstd::utf8::*;

verus! {

/// What a read from the source came to.
#[derive(Debug)]
pub enum SourceEvent {
    /// These bytes were read. No bytes at all means the source is exhausted.
    Read(Vec<u8>),
    /// The read failed.
    Failed(std::io::Error),
}

/// What to do after an event.
#[derive(Debug)]
pub struct StreamStep {
    /// The items to hand on, in order: sentences, and failures in their place.
    pub items: Vec<Result<String, SegmenterError>>,
    /// Whether the stream has ended. If not, the caller reads on.
    pub finished: bool,
}

/// The bytes that `event` brings; none if the read failed.
pub open spec fn bytes_read(event: SourceEvent) -> Seq<u8> {
    match event {
        SourceEvent::Read(bytes) => bytes@,
        SourceEvent::Failed(_) => Seq::empty(),
    }
}

/// Whether a step left the text that a segmenter holds, has taken in and has
/// handed out as it was.
pub open spec fn unchanged(before: Segmenter, after: Segmenter) -> bool {
    &&& after.pending() == before.pending()
    &&& after.taken_in() == before.taken_in()
    &&& after.handed_out() == before.handed_out()
}

/// Whether `items` are exactly the sentences `expected`, none of them a
/// failure.
pub open spec fn delivers(
    items: Seq<Result<String, SegmenterError>>,
    expected: Seq<Seq<char>>,
) -> bool {
    &&& items.len() == expected.len()
    &&& forall|i: int|
        0 <= i < items.len() ==> ((#[trigger] items[i]) matches Ok(sentence) && sentence@
            == expected[i])
}

/// `std::str::from_utf8`: the bytes as text if they are well-formed UTF-8, an
/// error if they are not.
#[verifier::external_body]
fn decode_chunk<'a>(bytes: &'a [u8]) -> (r: Result<&'a str, Utf8Error>)
    ensures
        r is Ok <==> valid_utf8(bytes@),
        r matches Ok(text) ==> text@ == decode_utf8(bytes@),
{
    std::str::from_utf8(bytes)
}

/// Wraps each sentence as an item of the stream.
pub fn as_items(completed: &Vec<String>) -> (items: Vec<Result<String, SegmenterError>>)
    ensures
        delivers(items@, texts(completed@)),
{
    let mut items: Vec<Result<String, SegmenterError>> = Vec::new();
    let mut i: usize = 0;
    while i < completed.len()
        invariant
            i <= completed.len(),
            items@.len() == i,
            forall|k: int|
                0 <= k < i ==> ((#[trigger] items@[k]) matches Ok(sentence) && sentence@
                    == completed@[k]@),
        decreases completed.len() - i,
    {
        items.push(Ok(completed[i].clone()));
        i = i + 1;
    }
    items
}

/// Starts a stream: the segmenter to drive, or, if no rules are registered
/// for the language of `options`, a last step that hands on this one failure.
/// Nothing is read from the source then.
pub fn start(options: SegmentOptions) -> (r: Result<Segmenter, StreamStep>)
    ensures
        r is Ok <==> language_registered(options.language@),
        r matches Ok(segmenter) ==> segmenter.pending() == Seq::<char>::empty()
            && segmenter.lookahead() == options.lookahead && segmenter.max_buffer()
            == options.max_buffer && segmenter.language() == options.language@
            && segmenter.taken_in() == Seq::<char>::empty() && segmenter.handed_out()
            == Seq::<Seq<char>>::empty() && segmenter.accounts_for_all(),
        r matches Err(step) ==> step.finished && step.items@.len() == 1 && (
        step.items@[0] matches Err(SegmenterError::UnsupportedLanguage(code)) && code@
            == options.language@),
{
    match Segmenter::new(options) {
        Ok(segmenter) => Ok(segmenter),
        Err(error) => {
            let mut items: Vec<Result<String, SegmenterError>> = Vec::new();
            items.push(Err(error));
            Err(StreamStep { items, finished: true })
        },
    }
}

/// Takes the stream one step on.
///
/// Bytes that were read are decoded and fed to the segmenter: the sentences
/// that are now complete are handed on, and a chunk that is not well-formed
/// UTF-8, or that the segmenter turns down because the pending text would be
/// too long or too tangled, is handed on as a failure in their place; either
/// way the stream goes on. No bytes end the stream with a flush:
/// the last sentence is handed on unless it is empty. A failed read ends the
/// stream at once, without a flush.
pub fn advance(segmenter: &mut Segmenter, event: SourceEvent) -> (step: StreamStep)
    ensures
        final(segmenter).lookahead() == old(segmenter).lookahead(),
        final(segmenter).max_buffer() == old(segmenter).max_buffer(),
        final(segmenter).language() == old(segmenter).language(),
        old(segmenter).accounts_for_all() ==> final(segmenter).accounts_for_all(),
        event matches SourceEvent::Failed(cause) ==> {
            &&& step.finished
            &&& step.items@.len() == 1
            &&& step.items@[0] == Err::<String, SegmenterError>(SegmenterError::IoError(cause))
            &&& unchanged(*old(segmenter), *final(segmenter))
        },
        event is Read && bytes_read(event).len() == 0 ==> {
            &&& step.finished
            &&& final(segmenter).pending() == Seq::<char>::empty()
            &&& final(segmenter).taken_in() == old(segmenter).taken_in()
            &&& final(segmenter).handed_out().flatten() == final(segmenter).taken_in()
            &&& final(segmenter).handed_out() == if old(segmenter).pending().len() == 0 {
                old(segmenter).handed_out()
            } else {
                old(segmenter).handed_out().push(old(segmenter).pending())
            }
            &&& if trim_spaces(old(segmenter).pending()).len() == 0 {
                step.items@.len() == 0
            } else {
                delivers(step.items@, seq![trim_spaces(old(segmenter).pending())])
            }
        },
        event is Read && bytes_read(event).len() > 0 && !valid_utf8(bytes_read(event)) ==> {
            &&& !step.finished
            &&& step.items@.len() == 1
            &&& step.items@[0] matches Err(SegmenterError::Utf8Error(_))
            &&& unchanged(*old(segmenter), *final(segmenter))
        },
        event is Read && bytes_read(event).len() > 0 && valid_utf8(bytes_read(event)) ==> {
            let text = old(segmenter).pending() + decode_utf8(bytes_read(event));
            &&& !step.finished
            &&& if text.len() > old(segmenter).max_buffer() {
                &&& step.items@.len() == 1
                &&& step.items@[0] matches Err(SegmenterError::BufferOverflow(limit)) && limit
                    == old(segmenter).max_buffer()
                &&& unchanged(*old(segmenter), *final(segmenter))
            } else if !within_scan_budget(text) {
                &&& step.items@.len() == 1
                &&& step.items@[0] matches Err(SegmenterError::SegmentationError(_))
                &&& unchanged(*old(segmenter), *final(segmenter))
            } else {
                &&& delivers(
                    step.items@,
                    sentences(old(segmenter).language(), text, old(segmenter).lookahead()),
                )
                &&& final(segmenter).pending() == remainder(
                    old(segmenter).language(),
                    text,
                    old(segmenter).lookahead(),
                )
                &&& final(segmenter).taken_in() == old(segmenter).taken_in() + decode_utf8(
                    bytes_read(event),
                )
                &&& final(segmenter).handed_out() == old(segmenter).handed_out() + pieces(
                    old(segmenter).language(),
                    text,
                    old(segmenter).lookahead(),
                )
            }
        },
{
    match event {
        SourceEvent::Failed(error) => {
            let mut items: Vec<Result<String, SegmenterError>> = Vec::new();
            items.push(Err(SegmenterError::IoError(error)));
            StreamStep { items, finished: true }
        },
        SourceEvent::Read(bytes) => {
            if bytes.len() == 0 {
                let mut items: Vec<Result<String, SegmenterError>> = Vec::new();
                match segmenter.flush() {
                    Ok(Some(last)) => {
                        if !last.as_str().is_empty() {
                            items.push(Ok(last));
                        }
                    },
                    Ok(None) => {},
                    Err(error) => {
                        items.push(Err(error));
                    },
                }
                StreamStep { items, finished: true }
            } else {
                let items = match decode_chunk(bytes.as_slice()) {
                    Ok(chunk) => match segmenter.feed(chunk) {
                        Ok(completed) => as_items(&completed),
                        Err(error) => {
                            let mut items: Vec<Result<String, SegmenterError>> = Vec::new();
                            items.push(Err(error));
                            items
                        },
                    },
                    Err(error) => {
                        let mut items: Vec<Result<String, SegmenterError>> = Vec::new();
                        items.push(Err(SegmenterError::Utf8Error(error)));
                        items
                    },
                };
                StreamStep { items, finished: false }
            }
        },
    }
}

} // verus!
