//! The failures a segmenter or a stream of sentences can report.

use vstd::prelude::*;

verus! {

/// `anyhow::Error`, carried through unread.
#[verifier::external_type_specification]
#[verifier::external_body]
pub struct ExAnyhowError(anyhow::Error);

/// `std::io::Error`, carried through unread.
#[verifier::external_type_specification]
#[verifier::external_body]
pub struct ExIoError(std::io::Error);

/// `std::str::Utf8Error`, carried through unread.
#[verifier::external_type_specification]
#[verifier::external_body]
pub struct ExUtf8Error(std::str::Utf8Error);

/// Everything that can go wrong between the byte source and the sentences.
#[derive(Debug)]
pub enum SegmenterError {
    /// No segmentation rules are registered for this language code.
    UnsupportedLanguage(String),
    /// The rules for this language code exist but could not be loaded.
    LanguageLoadError(String, anyhow::Error),
    /// A chunk would have grown the pending text beyond this many characters.
    BufferOverflow(usize),
    /// The byte source or sink failed.
    IoError(std::io::Error),
    /// A chunk of bytes was not well-formed UTF-8.
    Utf8Error(std::str::Utf8Error),
    /// The stream of sentences broke for another reason.
    StreamError(String),
    /// The segmentation rules could not be asked about the text: it is too
    /// tangled to be searched for bracketed spans within the scan budget.
    SegmentationError(anyhow::Error),
}

/// `anyhow::Error::msg`: an error that carries `message`.
#[verifier::external_body]
pub(crate) fn failure(message: &str) -> anyhow::Error {
    anyhow::Error::msg(message.to_owned())
}

} // verus!
