//! Incremental sentence segmentation for text that arrives in chunks.
//!
//! A [`Segmenter`] keeps the text it has received but not yet emitted, asks
//! the language rules where sentences end, and releases a sentence once enough
//! trailing context has arrived to trust the boundary.
//!
//! - [`config`]: the parameters of a segmenter.
//! - [`error`]: what can go wrong.
//! - [`text`]: cutting and trimming text.
//! - [`rules`]: the language rules of `libtqsm`, and the names their answers
//!   go by in contracts.
//! - [`budget`]: which texts can be searched for bracketed spans without the
//!   search being given up.
//! - [`boundary`]: finding the end of the next sentence.
//! - [`segmenter`]: feeding, draining and flushing, and the laws they obey.
//! - [`stream`]: driving a segmenter from a source of bytes.

pub mod boundary;
pub mod budget;
pub mod config;
pub mod error;
pub mod rules;
pub mod segmenter;
pub mod stream;
pub mod text;

pub use config::SegmentOptions;
pub use error::SegmenterError;
pub use segmenter::Segmenter;
