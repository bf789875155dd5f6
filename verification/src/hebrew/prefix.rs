//! Stacked prefix peeling, offered and never baked in.
//!
//! `ובשבת` is `ו` + `ב` + `שבת`, and a reader who types `שבת` means to find
//! it. But `משה` is `מ` + `ש` + `ה` to a machine, and peeling it leaves a
//! single letter that matches a tenth of the corpus. So the rule is
//! structural rather than linguistic: a peeling that leaves fewer than two
//! letters is not offered.
use vstd::prelude::*;

use crate::text::{chars_of, slice_of, string_of, strings};

verus! {

/// The letters that attach to the front of a Hebrew word: conjunctive ו,
/// definite ה, and the prepositions ב כ ל מ ש ד.
pub const PREFIX_LETTERS: [char; 8] = ['ו', 'ה', 'ב', 'כ', 'ל', 'מ', 'ש', 'ד'];

/// Below this many letters, a stem is not a word but a wildcard.
pub const MIN_STEM_LETTERS: usize = 2;

pub open spec fn prefix_letter(c: char) -> bool {
    c == 'ו' || c == 'ה' || c == 'ב' || c == 'כ' || c == 'ל' || c == 'מ' || c == 'ש' || c == 'ד'
}

/// Whether a character is one of [`PREFIX_LETTERS`].
pub fn is_prefix_letter(c: char) -> (b: bool)
    ensures
        b == prefix_letter(c),
{
    let mut i: usize = 0;
    while i < PREFIX_LETTERS.len()
        invariant
            i <= 8,
            forall|j: int| 0 <= j < i ==> PREFIX_LETTERS[j] != c,
        decreases 8 - i,
    {
        if PREFIX_LETTERS[i] == c {
            return true;
        }
        i += 1;
    }
    false
}

/// How many prefix letters come off the front of a word before the stem
/// would fall under [`MIN_STEM_LETTERS`].
pub open spec fn peel_depth(w: Seq<char>) -> nat
    decreases w.len(),
{
    if w.len() >= MIN_STEM_LETTERS + 1 && prefix_letter(w[0]) {
        1 + peel_depth(w.drop_first())
    } else {
        0
    }
}

/// Every stem left by peeling prefixes: the word without its first one,
/// two, ... letters, as deep as [`peel_depth`] goes.
pub open spec fn peeled(w: Seq<char>) -> Seq<Seq<char>> {
    Seq::new(peel_depth(w), |j: int| w.skip(j + 1))
}

proof fn lemma_peel_depth(w: Seq<char>, i: int)
    requires
        0 <= i <= peel_depth(w),
    ensures
        peel_depth(w) <= w.len(),
        peel_depth(w) == i + peel_depth(w.skip(i)),
        i < peel_depth(w) ==> w.len() - i >= MIN_STEM_LETTERS + 1 && prefix_letter(w[i]),
        i == peel_depth(w) ==> !(w.len() - i >= MIN_STEM_LETTERS + 1 && prefix_letter(w[i])),
    decreases w.len(),
{
    if peel_depth(w) > 0 {
        lemma_peel_depth(w.drop_first(), 0);
    }
    if i > 0 {
        lemma_peel_depth(w.drop_first(), i - 1);
        assert(w.drop_first().skip(i - 1) =~= w.skip(i));
        if i < w.len() {
            assert(w.drop_first()[i - 1] == w[i]);
        }
    } else {
        assert(w.skip(0) =~= w);
    }
}

/// Every stem that could be left after peeling prefixes off a normalized
/// word, shallowest first: `ובשבת` gives `בשבת`, `שבת`, `בת`. No stem is
/// shorter than two letters, and none is the word itself.
pub fn peelings(word: &str) -> (out: Vec<String>)
    ensures
        strings(out@) == peeled(word@),
{
    let w = chars_of(word);
    let mut out: Vec<String> = Vec::new();
    let mut i: usize = 0;
    proof {
        lemma_peel_depth(w@, 0);
    }
    while i < w.len() && w.len() - i > MIN_STEM_LETTERS && is_prefix_letter(w[i])
        invariant
            w@ == word@,
            i <= peel_depth(w@),
            strings(out@) == peeled(w@).take(i as int),
        decreases w.len() - i,
    {
        proof {
            lemma_peel_depth(w@, i as int);
        }
        let rest = slice_of(w.as_slice(), i + 1, w.len());
        let stem = string_of(rest.as_slice());
        let ghost before = strings(out@);
        out.push(stem);
        assert(w@.subrange(i + 1, w@.len() as int) == w@.skip(i + 1));
        assert(strings(out@) =~= before.push(w@.skip(i + 1)));
        i += 1;
        proof {
            lemma_peel_depth(w@, i as int - 1);
        }
        assert(peeled(w@).take(i as int) =~= peeled(w@).take(i as int - 1).push(w@.skip(i as int)));
    }
    proof {
        lemma_peel_depth(w@, i as int);
    }
    assert(peeled(w@).take(i as int) =~= peeled(w@));
    out
}

/// Every peeled stem keeps at least two letters and is shorter than the word.
pub proof fn lemma_peelings_keep_a_stem(w: Seq<char>)
    ensures
        forall|j: int|
            0 <= j < peeled(w).len() ==> MIN_STEM_LETTERS <= #[trigger] peeled(w)[j].len()
                < w.len(),
{
    assert forall|j: int| 0 <= j < peeled(w).len() implies MIN_STEM_LETTERS <= #[trigger] peeled(
        w,
    )[j].len() < w.len() by {
        lemma_peel_depth(w, j);
    }
}

} // verus!
