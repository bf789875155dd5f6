//! Ktiv male and ktiv chaser.
//!
//! `כהן` and `כוהן` are one word spelled two ways: the `ו` is a mater
//! lectionis, a consonant standing in for a vowel that was not written.
//! Without nikud there is no telling a mater from a real `ו` (`שור`, an ox,
//! is not `שר`), so this generates candidates and never rewrites.
use vstd::prelude::*;

use crate::hebrew::marks::{hebrew_letter, is_hebrew_letter};
use crate::text::{chars_of, contains_text, eq_chars, texts, to_strings, strings};

verus! {

/// The two letters that do double duty as vowels.
pub const MATRES: [char; 2] = ['ו', 'י'];

/// Long enough that adding a letter is plausible, short enough that the
/// candidate set stays small.
pub const MAX_LETTERS: usize = 12;

pub open spec fn mater(c: char) -> bool {
    c == 'ו' || c == 'י'
}

/// The chaser candidates: an internal mater at `1..k` taken out, in order.
pub open spec fn chaser_candidates(w: Seq<char>, k: int) -> Seq<Seq<char>>
    decreases k,
{
    if k <= 1 {
        Seq::empty()
    } else {
        let p = chaser_candidates(w, k - 1);
        if mater(w[k - 1]) {
            p.push(w.remove(k - 1))
        } else {
            p
        }
    }
}

/// The male candidates at one place: `ו` then `י` put in before index `i`,
/// unless the letter on either side already is that mater.
pub open spec fn male_at(w: Seq<char>, i: int) -> Seq<Seq<char>> {
    let a = if w[i - 1] == 'ו' || w[i] == 'ו' {
        Seq::empty()
    } else {
        seq![w.insert(i, 'ו')]
    };
    let b = if w[i - 1] == 'י' || w[i] == 'י' {
        Seq::empty()
    } else {
        seq![w.insert(i, 'י')]
    };
    a + b
}

/// The male candidates at every place `1..k`, in order.
pub open spec fn male_candidates(w: Seq<char>, k: int) -> Seq<Seq<char>>
    decreases k,
{
    if k <= 1 {
        Seq::empty()
    } else {
        male_candidates(w, k - 1) + male_at(w, k - 1)
    }
}

/// Every candidate, with repeats, in the order they are generated.
pub open spec fn candidates(w: Seq<char>) -> Seq<Seq<char>> {
    chaser_candidates(w, w.len() - 1) + male_candidates(w, w.len() as int)
}

/// The first occurrence of each candidate, leaving out the word itself.
pub open spec fn first_occurrences(c: Seq<Seq<char>>, w: Seq<char>) -> Seq<Seq<char>>
    decreases c.len(),
{
    if c.len() == 0 {
        Seq::empty()
    } else {
        let p = first_occurrences(c.drop_last(), w);
        if c.last() == w || p.contains(c.last()) {
            p
        } else {
            p.push(c.last())
        }
    }
}

/// Whether a word is one this module will respell: three to twelve
/// letters, every one of them a Hebrew letter.
pub open spec fn respellable(w: Seq<char>) -> bool {
    &&& 3 <= w.len() <= MAX_LETTERS
    &&& forall|i: int| 0 <= i < w.len() ==> hebrew_letter(#[trigger] w[i])
}

/// The spellings of a word that differ only in its matres lectionis.
pub open spec fn respelled(w: Seq<char>) -> Seq<Seq<char>> {
    if respellable(w) {
        first_occurrences(candidates(w), w)
    } else {
        Seq::empty()
    }
}

/// A list of spellings never holds the word itself, nor any spelling twice.
pub proof fn lemma_first_occurrences_distinct(c: Seq<Seq<char>>, w: Seq<char>)
    ensures
        !first_occurrences(c, w).contains(w),
        forall|i: int, j: int|
            0 <= i < j < first_occurrences(c, w).len() ==> first_occurrences(c, w)[i]
                != first_occurrences(c, w)[j],
        forall|x: Seq<char>| #[trigger] first_occurrences(c, w).contains(x) ==> c.contains(x),
    decreases c.len(),
{
    if c.len() > 0 {
        let d = c.drop_last();
        lemma_first_occurrences_distinct(d, w);
        let p = first_occurrences(d, w);
        assert forall|x: Seq<char>| #[trigger] first_occurrences(c, w).contains(x) implies c.contains(
            x,
        ) by {
            if p.contains(x) {
                let k = choose|k: int| 0 <= k < p.len() && p[k] == x;
                assert(d.contains(x));
                let m = choose|m: int| 0 <= m < d.len() && d[m] == x;
                assert(c[m] == x);
            } else {
                assert(c[c.len() - 1] == x);
            }
        }
        if !(c.last() == w || p.contains(c.last())) {
            let q = p.push(c.last());
            assert forall|i: int, j: int| 0 <= i < j < q.len() implies q[i] != q[j] by {
                if j == q.len() - 1 {
                    assert(p[i] == q[i]);
                }
            }
            assert(!q.contains(w)) by {
                if q.contains(w) {
                    let k = choose|k: int| 0 <= k < q.len() && q[k] == w;
                    if k < p.len() {
                        assert(p[k] == w);
                    }
                }
            }
        }
    }
}

fn push_unique(out: &mut Vec<Vec<char>>, candidate: Vec<char>, original: &[char])
    ensures
        texts(final(out)@) == if candidate@ == original@ || texts(old(out)@).contains(candidate@) {
            texts(old(out)@)
        } else {
            texts(old(out)@).push(candidate@)
        },
{
    if !eq_chars(candidate.as_slice(), original) && !contains_text(out, candidate.as_slice()) {
        let ghost before = texts(out@);
        let ghost cv = candidate@;
        out.push(candidate);
        assert(texts(out@) =~= before.push(cv));
    }
}

/// Every spelling of a word that differs only in its matres lectionis, in
/// both directions: `כהנ` yields `כוהנ`, and `כוהנ` yields `כהנ`. The first
/// and last letters are never touched, and a word that is too short, too
/// long, or holds anything but Hebrew letters has none.
pub fn spellings(word: &str) -> (out: Vec<String>)
    ensures
        strings(out@) == respelled(word@),
{
    let letters = chars_of(word);
    let n = letters.len();
    if n < 3 || n > MAX_LETTERS {
        return Vec::new();
    }
    let mut k: usize = 0;
    while k < n
        invariant
            n == letters.len(),
            letters@ == word@,
            k <= n,
            forall|j: int| 0 <= j < k ==> hebrew_letter(#[trigger] letters@[j]),
        decreases n - k,
    {
        if !is_hebrew_letter(letters[k]) {
            assert(!hebrew_letter(word@[k as int]));
            return Vec::new();
        }
        k += 1;
    }
    let ghost w = letters@;
    let mut cands: Vec<Vec<char>> = Vec::new();
    let mut i: usize = 1;
    while i < n - 1
        invariant
            w == letters@,
            3 <= n <= MAX_LETTERS,
            n == letters.len(),
            1 <= i <= n - 1,
            texts(cands@) == chaser_candidates(w, i as int),
        decreases n - 1 - i,
    {
        let c = letters[i];
        if c == MATRES[0] || c == MATRES[1] {
            let mut candidate = letters.clone();
            assert(candidate@ == w);
            candidate.remove(i);
            let ghost before = texts(cands@);
            let ghost cv = candidate@;
            cands.push(candidate);
            assert(texts(cands@) =~= before.push(cv));
        }
        i += 1;
    }
    let ghost chaser = texts(cands@);
    let mut i: usize = 1;
    while i < n
        invariant
            w == letters@,
            3 <= n <= MAX_LETTERS,
            n == letters.len(),
            1 <= i <= n,
            texts(cands@) == chaser + male_candidates(w, i as int),
        decreases n - i,
    {
        let mut mi: usize = 0;
        let ghost at_start = texts(cands@);
        while mi < 2
            invariant
                w == letters@,
                n == letters.len(),
                1 <= i < n,
                mi <= 2,
                texts(cands@) == at_start + male_at(w, i as int).take(
                    (if mi == 0 {
                        0
                    } else if mi == 1 {
                        male_at(w, i as int).len() - (if w[i - 1] == 'י' || w[i as int] == 'י' {
                            0int
                        } else {
                            1int
                        })
                    } else {
                        male_at(w, i as int).len() as int
                    }),
                ),
            decreases 2 - mi,
        {
            let m = MATRES[mi];
            if !(letters[i - 1] == m || letters[i] == m) {
                let mut candidate = letters.clone();
                assert(candidate@ == w);
                candidate.insert(i, m);
                let ghost before = texts(cands@);
                let ghost cv = candidate@;
                cands.push(candidate);
                assert(texts(cands@) =~= before.push(cv));
            }
            proof {
                let ma = male_at(w, i as int);
                if mi == 0 {
                    assert(m == 'ו');
                } else {
                    assert(m == 'י');
                }
                assert(ma.take(ma.len() as int) == ma);
            }
            mi += 1;
            assert(texts(cands@) =~= at_start + male_at(w, i as int).take(
                (if mi == 0 {
                    0
                } else if mi == 1 {
                    male_at(w, i as int).len() - (if w[i - 1] == 'י' || w[i as int] == 'י' {
                        0int
                    } else {
                        1int
                    })
                } else {
                    male_at(w, i as int).len() as int
                }),
            ));
        }
        assert(male_at(w, i as int).take(male_at(w, i as int).len() as int) == male_at(w, i as int));
        assert(chaser + male_candidates(w, i + 1) =~= chaser + male_candidates(w, i as int)
            + male_at(w, i as int));
        i += 1;
    }
    assert(texts(cands@) == candidates(w));
    let mut out: Vec<Vec<char>> = Vec::new();
    let mut j: usize = 0;
    while j < cands.len()
        invariant
            w == letters@,
            j <= cands.len(),
            texts(out@) == first_occurrences(texts(cands@).take(j as int), w),
        decreases cands.len() - j,
    {
        let ghost t = texts(cands@).take(j + 1);
        assert(t.drop_last() == texts(cands@).take(j as int));
        assert(t.last() == cands@[j as int]@);
        let c = cands[j].clone();
        push_unique(&mut out, c, letters.as_slice());
        j += 1;
    }
    assert(texts(cands@).take(cands.len() as int) == texts(cands@));
    assert(respellable(word@));
    to_strings(&out)
}

} // verus!
