//! Decoding of the tab-and-slash delimited output of the KyTea word
//! segmenter into words, tag fields and offset-annotated tokens.
//!
//! A line of analyzer output is a run of words separated by tabs; a word is a
//! run of tag fields separated by slashes; a backslash takes the separating
//! meaning from the delimiter that follows it.

pub mod backward;
pub mod escape;
pub mod lines;
pub mod pos;
pub mod rejoin;
pub mod surface;
pub mod tag;
pub mod text;
pub mod tokenizer;
pub mod tuples;
pub mod word;
pub mod word_iterator;
pub mod words;

pub use escape::{ESCAPE, TAG_DELIM, WORD_DELIM};
pub use pos::{PoS, PosIterator};
pub use surface::Surface;
pub use tag::{TagIterator, Tags};
pub use tuples::DefaultTags;
pub use word::Word;
pub use word_iterator::WordIterator;
pub use words::Words;
