//! Hebrew normalization for Torah text: one normalizer, shared by the query
//! bar and the corpus indexer, and the variants a word might be written as.

pub mod abbrev;
pub mod ktiv;
pub mod marks;
pub mod normalize;
pub mod prefix;
pub mod variants;


pub use abbrev::{abbreviations, expansions_of, AbbreviationTable};
pub use marks::{is_hebrew_letter, is_mark, is_word_breaking_punctuation};
pub use normalize::{for_each_token, normalize, normalize_into, tokenize, Token};
pub use prefix::{peelings, PREFIX_LETTERS};
pub use variants::{variants, variants_with, VariantKind, VariantSet};

use vstd::prelude::*;

verus! {

/// Bumped whenever a transformation changes what a normalized string looks
/// like, so an index built under older rules can be told apart.
pub const NORMALIZER_VERSION: u32 = 1;

} // verus!
