//! Which characters are marks, which are letters, and which are punctuation.
//!
//! The block `U+0591–U+05C7` is not all marks: maqaf, paseq, sof pasuq and
//! nun hafukha separate words, so they break a word rather than vanish.
use vstd::prelude::*;

verus! {

/// Hebrew punctuation that sits inside the mark block but separates words.
pub const WORD_BREAKING: [char; 4] = ['\u{05BE}', '\u{05C0}', '\u{05C3}', '\u{05C6}'];

/// Final letters, paired with the medial form they fold to.
pub const FINAL_FORMS: [(char, char); 5] = [
    ('\u{05DA}', '\u{05DB}'),
    ('\u{05DD}', '\u{05DE}'),
    ('\u{05DF}', '\u{05E0}'),
    ('\u{05E3}', '\u{05E4}'),
    ('\u{05E5}', '\u{05E6}'),
];

/// Every character the corpus uses for a geresh.
pub const GERESH_FORMS: [char; 4] = ['\u{05F3}', '\'', '\u{2018}', '\u{2019}'];

/// Every character the corpus uses for gershayim.
pub const GERSHAYIM_FORMS: [char; 4] = ['\u{05F4}', '"', '\u{201C}', '\u{201D}'];

/// The single character every geresh folds to.
pub const CANONICAL_GERESH: char = '\'';

/// The single character every gershayim folds to.
pub const CANONICAL_GERSHAYIM: char = '"';

pub open spec fn word_break(c: char) -> bool {
    c == '\u{05BE}' || c == '\u{05C0}' || c == '\u{05C3}' || c == '\u{05C6}'
}

pub open spec fn mark(c: char) -> bool {
    '\u{0591}' <= c && c <= '\u{05C7}' && !word_break(c)
}

pub open spec fn hebrew_letter(c: char) -> bool {
    '\u{05D0}' <= c && c <= '\u{05EA}'
}

pub open spec fn final_folded(c: char) -> char {
    if c == '\u{05DA}' {
        '\u{05DB}'
    } else if c == '\u{05DD}' {
        '\u{05DE}'
    } else if c == '\u{05DF}' {
        '\u{05E0}'
    } else if c == '\u{05E3}' {
        '\u{05E4}'
    } else if c == '\u{05E5}' {
        '\u{05E6}'
    } else {
        c
    }
}

pub open spec fn is_geresh_form(c: char) -> bool {
    c == '\u{05F3}' || c == '\'' || c == '\u{2018}' || c == '\u{2019}'
}

pub open spec fn is_gershayim_form(c: char) -> bool {
    c == '\u{05F4}' || c == '"' || c == '\u{201C}' || c == '\u{201D}'
}

pub open spec fn quote_folded(c: char) -> Option<char> {
    if is_geresh_form(c) {
        Some('\'')
    } else if is_gershayim_form(c) {
        Some('"')
    } else {
        None
    }
}

/// A nikud point, te'amim accent, or other Hebrew combining mark.
pub fn is_mark(c: char) -> (b: bool)
    ensures
        b == mark(c),
{
    '\u{0591}' <= c && c <= '\u{05C7}' && !is_word_breaking_punctuation(c)
}

/// Hebrew punctuation that separates two words rather than decorating one.
pub fn is_word_breaking_punctuation(c: char) -> (b: bool)
    ensures
        b == word_break(c),
{
    c == '\u{05BE}' || c == '\u{05C0}' || c == '\u{05C3}' || c == '\u{05C6}'
}

/// A Hebrew consonant, `א` through `ת`, including the five final forms.
pub fn is_hebrew_letter(c: char) -> (b: bool)
    ensures
        b == hebrew_letter(c),
{
    '\u{05D0}' <= c && c <= '\u{05EA}'
}

/// Fold a final letter to its medial form; any other character is unchanged.
pub fn fold_final(c: char) -> (r: char)
    ensures
        r == final_folded(c),
{
    if c == '\u{05DA}' {
        '\u{05DB}'
    } else if c == '\u{05DD}' {
        '\u{05DE}'
    } else if c == '\u{05DF}' {
        '\u{05E0}'
    } else if c == '\u{05E3}' {
        '\u{05E4}'
    } else if c == '\u{05E5}' {
        '\u{05E6}'
    } else {
        c
    }
}

/// Whether a character is one of the spellings of a geresh.
pub fn is_geresh(c: char) -> (b: bool)
    ensures
        b == is_geresh_form(c),
{
    c == '\u{05F3}' || c == '\'' || c == '\u{2018}' || c == '\u{2019}'
}

/// Whether a character is one of the spellings of gershayim.
pub fn is_gershayim(c: char) -> (b: bool)
    ensures
        b == is_gershayim_form(c),
{
    c == '\u{05F4}' || c == '"' || c == '\u{201C}' || c == '\u{201D}'
}

/// Fold any spelling of geresh or gershayim to its canonical character.
pub fn fold_quote_mark(c: char) -> (r: Option<char>)
    ensures
        r == quote_folded(c),
{
    if is_geresh(c) {
        Some(CANONICAL_GERESH)
    } else if is_gershayim(c) {
        Some(CANONICAL_GERSHAYIM)
    } else {
        None
    }
}

} // verus!
