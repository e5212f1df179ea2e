//! The parameters of a segmenter, and the command line flags they come from.

use std::path::PathBuf;
use vstd::prelude::*;
use vstd::std_specs::convert::FromSpecImpl;

verus! {

/// `std::path::PathBuf`, carried through unread.
#[verifier::external_type_specification]
#[verifier::external_body]
pub struct ExPathBuf(PathBuf);

/// The flags of the command line front end.
#[derive(Debug, Clone)]
pub struct CliArgs {
    /// Minimum number of characters that must follow a boundary before the
    /// sentence in front of it is released.
    pub lookahead: usize,
    /// Largest number of characters the segmenter may hold back.
    pub max_buffer: usize,
    /// Language code that selects the segmentation rules.
    pub language: String,
    /// Where to read from; standard input when absent.
    pub input_file: Option<PathBuf>,
    /// Where to write to; standard output when absent.
    pub output_file: Option<PathBuf>,
}

/// What a segmenter is built from.
#[derive(Debug, Clone)]
pub struct SegmentOptions {
    /// Minimum number of characters that must follow a boundary before the
    /// sentence in front of it is released.
    pub lookahead: usize,
    /// Largest number of characters the segmenter may hold back.
    pub max_buffer: usize,
    /// Language code that selects the segmentation rules.
    pub language: String,
}

impl Default for SegmentOptions {
    /// Ten characters of lookahead, a buffer of 8192 characters, English rules.
    fn default() -> (r: Self)
        ensures
            r.lookahead == 10,
            r.max_buffer == 8192,
            r.language@ == "en"@,
    {
        Self { lookahead: 10, max_buffer: 8192, language: "en".to_owned() }
    }
}

impl From<CliArgs> for SegmentOptions {
    fn from(args: CliArgs) -> (r: Self) {
        Self { lookahead: args.lookahead, max_buffer: args.max_buffer, language: args.language }
    }
}

impl FromSpecImpl<CliArgs> for SegmentOptions {
    open spec fn obeys_from_spec() -> bool {
        true
    }

    open spec fn from_spec(args: CliArgs) -> Self {
        SegmentOptions {
            lookahead: args.lookahead,
            max_buffer: args.max_buffer,
            language: args.language,
        }
    }
}

} // verus!
