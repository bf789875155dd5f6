//! Canonical refs, citation parsing, offline resolution, and the redirect
//! table.
//!
//! A ref points at a span, because a quote is a range. The one rule:
//! ambiguity is surfaced as a choice, never guessed.

pub mod address;
pub mod daf;
pub mod lexicon;
pub mod numerals;
pub mod redirect;
pub mod reference;
pub mod resolve;
