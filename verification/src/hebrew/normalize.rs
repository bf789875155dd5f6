//! The normal form: what goes in the index, and what a query is compared to.
//!
//! The smallest transformation that lets two spellings of the same thing
//! compare equal: marks nobody types are removed, characters that are one
//! character written two ways are folded, and nothing else happens.
use vstd::prelude::*;
use vstd::utf8::{encode_scalar, encode_utf8};

use crate::hebrew::marks::{
    final_folded, fold_final, fold_quote_mark, hebrew_letter, is_hebrew_letter, is_mark,
    is_word_breaking_punctuation, mark, quote_folded, word_break,
};
use crate::text::{
    ascii_lower, chars_of, clear_string, is_ascii_alnum, push_char, is_ascii_alphanumeric,
    is_whitespace, is_ws, join, string_of, to_ascii_lowercase,
};

verus! {

/// What one character becomes, or `None` if it breaks a word. A mark is
/// neither: it vanishes, and the walkers below skip it before asking this.
pub open spec fn folded(c: char) -> Option<char> {
    if word_break(c) || is_ws(c) {
        None
    } else if quote_folded(c) is Some {
        quote_folded(c)
    } else if hebrew_letter(c) {
        Some(final_folded(c))
    } else if is_ascii_alnum(c) {
        Some(ascii_lower(c))
    } else {
        None
    }
}

/// The text with its marks dropped and every other character classified:
/// `Some` of what it folds to, or `None` for a break.
pub open spec fn cleaned(s: Seq<char>) -> Seq<Option<char>>
    decreases s.len(),
{
    if s.len() == 0 {
        Seq::empty()
    } else if mark(s.last()) {
        cleaned(s.drop_last())
    } else {
        cleaned(s.drop_last()).push(folded(s.last()))
    }
}

/// The maximal runs of kept characters: the words.
pub open spec fn runs(cl: Seq<Option<char>>) -> Seq<Seq<char>>
    decreases cl.len(),
{
    if cl.len() == 0 {
        Seq::empty()
    } else {
        let p = runs(cl.drop_last());
        match cl.last() {
            None => p,
            Some(k) => if cl.len() >= 2 && cl[cl.len() - 2] is Some && p.len() > 0 {
                p.update(p.len() - 1, p.last().push(k))
            } else {
                p.push(seq![k])
            },
        }
    }
}

/// The normalized words of a text.
pub open spec fn normal_words(s: Seq<char>) -> Seq<Seq<char>> {
    runs(cleaned(s))
}

/// The normal form: the normalized words, one space between each.
pub open spec fn normalized(s: Seq<char>) -> Seq<char> {
    join(normal_words(s), seq![' '])
}

/// What one character becomes, or `None` if it is a word break.
pub fn fold_char(c: char) -> (r: Option<char>)
    ensures
        r == folded(c),
{
    if is_word_breaking_punctuation(c) || is_whitespace(c) {
        None
    } else if let Some(f) = fold_quote_mark(c) {
        Some(f)
    } else if is_hebrew_letter(c) {
        Some(fold_final(c))
    } else if is_ascii_alphanumeric(c) {
        Some(to_ascii_lowercase(c))
    } else {
        None
    }
}

pub proof fn lemma_runs_nonempty(cl: Seq<Option<char>>)
    ensures
        forall|i: int| 0 <= i < runs(cl).len() ==> #[trigger] runs(cl)[i].len() > 0,
        runs(cl).len() > 0 <==> exists|j: int| 0 <= j < cl.len() && cl[j] is Some,
    decreases cl.len(),
{
    if cl.len() > 0 {
        lemma_runs_nonempty(cl.drop_last());
        let p = runs(cl.drop_last());
        if cl.last() is Some {
            assert(cl[cl.len() - 1] is Some);
        } else {
            assert forall|j: int| 0 <= j < cl.len() && cl[j] is Some implies exists|k: int|
                0 <= k < cl.drop_last().len() && cl.drop_last()[k] is Some by {
                assert(cl.drop_last()[j] == cl[j]);
            }
            assert forall|k: int|
                0 <= k < cl.drop_last().len() && cl.drop_last()[k] is Some implies exists|j: int|
                0 <= j < cl.len() && cl[j] is Some by {
                assert(cl.drop_last()[k] == cl[k]);
            }
        }
        if cl.last() is Some && p.len() > 0 {
            assert forall|k: int|
                0 <= k < cl.drop_last().len() && cl.drop_last()[k] is Some implies exists|j: int|
                0 <= j < cl.len() && cl[j] is Some by {
                assert(cl.drop_last()[k] == cl[k]);
            }
        }
    }
}

pub proof fn lemma_join_push(p: Seq<Seq<char>>, w: Seq<char>, sep: Seq<char>)
    ensures
        join(p.push(w), sep) == if p.len() == 0 {
            w
        } else {
            join(p, sep) + sep + w
        },
{
    assert(p.push(w).drop_last() == p);
}

pub proof fn lemma_join_extend_last(p: Seq<Seq<char>>, k: char, sep: Seq<char>)
    requires
        p.len() > 0,
    ensures
        join(p.update(p.len() - 1, p.last().push(k)), sep) == join(p, sep).push(k),
{
    let q = p.update(p.len() - 1, p.last().push(k));
    assert(q.drop_last() == p.drop_last());
    if p.len() > 1 {
        assert(join(q, sep) == join(p.drop_last(), sep) + sep + p.last().push(k));
        assert(join(p.drop_last(), sep) + sep + p.last().push(k) == (join(p.drop_last(), sep)
            + sep + p.last()).push(k));
    }
}

pub proof fn lemma_join_empty_iff(p: Seq<Seq<char>>, sep: Seq<char>)
    requires
        sep.len() > 0,
        forall|i: int| 0 <= i < p.len() ==> #[trigger] p[i].len() > 0,
    ensures
        join(p, sep).len() == 0 <==> p.len() == 0,
{
    if p.len() >= 2 {
        assert(join(p, sep) == join(p.drop_last(), sep) + sep + p.last());
    }
}

/// One step of the walk: the state after `c`, given the state before it.
proof fn lemma_normalize_step(s: Seq<char>, i: int)
    requires
        0 <= i < s.len(),
    ensures
        ({
            let before = cleaned(s.take(i));
            let after = cleaned(s.take(i + 1));
            &&& mark(s[i]) ==> after == before
            &&& !mark(s[i]) ==> after == before.push(folded(s[i]))
        }),
{
    assert(s.take(i + 1).drop_last() == s.take(i));
}

/// Reduce a string to its normal form.
///
/// Nikud and te'amim are removed; maqaf, paseq, sof pasuq, nun hafukha and
/// anything that is neither a Hebrew letter, a quote mark nor ASCII
/// alphanumeric become word breaks; final letters fold to medial; every
/// geresh and gershayim folds to `'` and `"`; ASCII lowercases; words are
/// joined by one space.
pub fn normalize(input: &str) -> (r: String)
    ensures
        r@ == normalized(input@),
{
    let s = chars_of(input);
    let out = normalize_chars(s.as_slice());
    string_of(out.as_slice())
}

/// [`normalize`] on a run of characters.
pub fn normalize_chars(s: &[char]) -> (out: Vec<char>)
    ensures
        out@ == normalized(s@),
{
    let mut out: Vec<char> = Vec::new();
    let mut pending = false;
    let mut i: usize = 0;
    while i < s.len()
        invariant
            i <= s.len(),
            out@ == join(runs(cleaned(s@.take(i as int))), seq![' ']),
            pending == (cleaned(s@.take(i as int)).len() > 0 && cleaned(
                s@.take(i as int),
            ).last() is None),
        decreases s.len() - i,
    {
        let c = s[i];
        proof {
            lemma_normalize_step(s@, i as int);
        }
        let ghost cl = cleaned(s@.take(i as int));
        if is_mark(c) {
            i += 1;
            continue;
        }
        let ghost cl2 = cl.push(folded(c));
        assert(cl2.drop_last() == cl);
        match fold_char(c) {
            Some(k) => {
                proof {
                    lemma_runs_nonempty(cl);
                    lemma_join_empty_iff(runs(cl), seq![' ']);
                    if cl.len() > 0 && cl.last() is Some {
                        assert(cl[cl.len() - 1] is Some);
                        lemma_join_extend_last(runs(cl), k, seq![' ']);
                    } else {
                        lemma_join_push(runs(cl), seq![k], seq![' ']);
                    }
                }
                if pending && out.len() > 0 {
                    out.push(' ');
                }
                pending = false;
                out.push(k);
                assert(out@ =~= join(runs(cl2), seq![' ']));
            },
            None => {
                pending = true;
            },
        }
        i += 1;
    }
    assert(s@.take(s.len() as int) == s@);
    out
}

/// A character the normal form can hold: it survives and folds to itself.
pub open spec fn normal_char(c: char) -> bool {
    !mark(c) && folded(c) == Some(c)
}

/// Words that are each nonempty and made of characters the normal form holds.
pub open spec fn normal_word_list(ws: Seq<Seq<char>>) -> bool {
    &&& forall|i: int| 0 <= i < ws.len() ==> #[trigger] ws[i].len() > 0
    &&& forall|i: int, j: int|
        0 <= i < ws.len() && 0 <= j < ws[i].len() ==> normal_char(#[trigger] ws[i][j])
}

/// Every character that survives folds to a character that folds to itself.
proof fn lemma_folded_is_normal(c: char)
    ensures
        folded(c) matches Some(k) ==> normal_char(k),
{
}

proof fn lemma_cleaned_concat(a: Seq<char>, b: Seq<char>)
    ensures
        cleaned(a + b) == cleaned(a) + cleaned(b),
    decreases b.len(),
{
    if b.len() == 0 {
        assert(a + b == a);
        assert(cleaned(a) + cleaned(b) == cleaned(a));
    } else {
        lemma_cleaned_concat(a, b.drop_last());
        assert((a + b).drop_last() == a + b.drop_last());
        assert((a + b).last() == b.last());
        if !mark(b.last()) {
            assert(cleaned(a) + cleaned(b.drop_last()).push(folded(b.last())) == (cleaned(a)
                + cleaned(b.drop_last())).push(folded(b.last())));
        }
    }
}

proof fn lemma_cleaned_normal_word(w: Seq<char>)
    requires
        forall|j: int| 0 <= j < w.len() ==> normal_char(#[trigger] w[j]),
    ensures
        cleaned(w) == w.map_values(|c: char| Some(c)),
    decreases w.len(),
{
    if w.len() > 0 {
        let d = w.drop_last();
        assert forall|j: int| 0 <= j < d.len() implies normal_char(#[trigger] d[j]) by {
            assert(d[j] == w[j]);
        }
        lemma_cleaned_normal_word(d);
        assert(normal_char(w[w.len() - 1]));
        assert(w.map_values(|c: char| Some(c)) =~= d.map_values(|c: char| Some(c)).push(
            Some(w.last()),
        ));
    }
}

pub(crate) proof fn lemma_runs_extend(x: Seq<Option<char>>, w: Seq<char>)
    requires
        w.len() > 0,
        x.len() == 0 || x.last() is None,
    ensures
        runs(x + w.map_values(|c: char| Some(c))) == runs(x).push(w),
    decreases w.len(),
{
    let m = w.map_values(|c: char| Some(c));
    let cl = x + m;
    if w.len() == 1 {
        assert(cl.drop_last() == x);
        assert(cl.last() == Some(w[0]));
        if cl.len() >= 2 {
            assert(cl[cl.len() - 2] == x.last());
        }
        assert(w == seq![w[0]]);
    } else {
        let d = w.drop_last();
        lemma_runs_extend(x, d);
        let md = d.map_values(|c: char| Some(c));
        assert(cl.drop_last() == x + md);
        assert(cl.last() == Some(w.last()));
        assert(cl[cl.len() - 2] == Some(d.last()));
        let p = runs(x + md);
        assert(p == runs(x).push(d));
        assert(p.last() == d);
        assert(d.push(w.last()) =~= w);
        assert(p.update(p.len() - 1, p.last().push(w.last())) =~= runs(x).push(w));
    }
}

/// Normalizing the join of already-normal words gives the words back.
pub proof fn lemma_runs_of_join(ws: Seq<Seq<char>>)
    requires
        normal_word_list(ws),
    ensures
        runs(cleaned(join(ws, seq![' ']))) == ws,
        cleaned(join(ws, seq![' '])).len() == 0 || cleaned(join(ws, seq![' '])).last() is Some,
    decreases ws.len(),
{
    if ws.len() == 0 {
        assert(runs(cleaned(join(ws, seq![' ']))) =~= ws);
    } else {
        let w = ws.last();
        assert(ws[ws.len() - 1] == w);
        assert forall|j: int| 0 <= j < w.len() implies normal_char(#[trigger] w[j]) by {
            assert(ws[ws.len() - 1][j] == w[j]);
        }
        lemma_cleaned_normal_word(w);
        let m = w.map_values(|c: char| Some(c));
        if ws.len() == 1 {
            assert(join(ws, seq![' ']) == w);
            lemma_runs_extend(Seq::empty(), w);
            assert(Seq::<Option<char>>::empty() + m == m);
            assert(runs(Seq::<Option<char>>::empty()).push(w) =~= ws);
            assert(m.last() == Some(w.last()));
        } else {
            let d = ws.drop_last();
            assert forall|i: int, j: int|
                0 <= i < d.len() && 0 <= j < d[i].len() implies normal_char(#[trigger] d[i][j]) by {
                assert(d[i] == ws[i]);
            }
            assert forall|i: int| 0 <= i < d.len() implies #[trigger] d[i].len() > 0 by {
                assert(d[i] == ws[i]);
            }
            lemma_runs_of_join(d);
            let jd = join(d, seq![' ']);
            assert(join(ws, seq![' ']) == jd + seq![' '] + w);
            lemma_cleaned_concat(jd + seq![' '], w);
            lemma_cleaned_concat(jd, seq![' ']);
            assert(seq![' '].drop_last() == Seq::<char>::empty());
            assert(seq![' '].last() == ' ');
            assert(folded(' ') == None::<char>);
            assert(cleaned(Seq::<char>::empty()) == Seq::<Option<char>>::empty());
            assert(cleaned(seq![' ']) =~= seq![None::<char>]);
            let cd = cleaned(jd);
            assert(cd + seq![None::<char>] == cd.push(None));
            assert(cd.push(None).drop_last() == cd);
            lemma_runs_extend(cd.push(None), w);
            assert(runs(cd.push(None)) == runs(cd));
            assert(d.push(w) == ws);
            assert((cd.push(None) + m).last() == m.last());
        }
    }
}

proof fn lemma_cleaned_normal(s: Seq<char>)
    ensures
        forall|j: int|
            0 <= j < cleaned(s).len() && cleaned(s)[j] is Some ==> normal_char(
                #[trigger] cleaned(s)[j]->0,
            ),
    decreases s.len(),
{
    if s.len() > 0 {
        lemma_cleaned_normal(s.drop_last());
        lemma_folded_is_normal(s.last());
    }
}

proof fn lemma_runs_normal(cl: Seq<Option<char>>)
    requires
        forall|j: int| 0 <= j < cl.len() && cl[j] is Some ==> normal_char(#[trigger] cl[j]->0),
    ensures
        forall|i: int, j: int|
            0 <= i < runs(cl).len() && 0 <= j < runs(cl)[i].len() ==> normal_char(
                #[trigger] runs(cl)[i][j],
            ),
    decreases cl.len(),
{
    if cl.len() > 0 {
        let d = cl.drop_last();
        assert forall|j: int| 0 <= j < d.len() && d[j] is Some implies normal_char(
            #[trigger] d[j]->0,
        ) by {
            assert(d[j] == cl[j]);
        }
        lemma_runs_normal(d);
        let p = runs(d);
        assert(cl[cl.len() - 1] == cl.last());
        match cl.last() {
            None => {},
            Some(k) => {
                assert(normal_char(k));
                if cl.len() >= 2 && cl[cl.len() - 2] is Some && p.len() > 0 {
                    let q = p.update(p.len() - 1, p.last().push(k));
                    assert forall|i: int, j: int|
                        0 <= i < q.len() && 0 <= j < q[i].len() implies normal_char(
                        #[trigger] q[i][j],
                    ) by {
                        if i == p.len() - 1 && j == p.last().len() {
                        } else if i == p.len() - 1 {
                            assert(q[i][j] == p[i][j]);
                        } else {
                            assert(q[i] == p[i]);
                        }
                    }
                } else {
                    let q = p.push(seq![k]);
                    assert forall|i: int, j: int|
                        0 <= i < q.len() && 0 <= j < q[i].len() implies normal_char(
                        #[trigger] q[i][j],
                    ) by {
                        if i < p.len() {
                            assert(q[i] == p[i]);
                        }
                    }
                }
            },
        }
    }
}

/// The words of any text are nonempty and already in normal form.
pub proof fn lemma_normal_words_are_normal(s: Seq<char>)
    ensures
        normal_word_list(normal_words(s)),
{
    lemma_cleaned_normal(s);
    lemma_runs_normal(cleaned(s));
    lemma_runs_nonempty(cleaned(s));
}

/// A character that breaks words, written after a text, changes nothing
/// about its normal form.
pub proof fn lemma_normalized_break(x: Seq<char>, c: char)
    requires
        !mark(c),
        folded(c) is None,
    ensures
        normalized(x.push(c)) == normalized(x),
{
    assert(x.push(c).drop_last() == x);
    assert(cleaned(x.push(c)) == cleaned(x).push(None));
    assert(cleaned(x).push(None).drop_last() == cleaned(x));
}

/// Normalizing is idempotent: the normal form of a normal form is itself.
pub proof fn lemma_normalize_idempotent(s: Seq<char>)
    ensures
        normalized(normalized(s)) == normalized(s),
{
    lemma_normal_words_are_normal(s);
    lemma_runs_of_join(normal_words(s));
}

/// [`normalize`], into a caller-owned buffer.
pub fn normalize_into(input: &str, out: &mut String)
    ensures
        final(out)@ == normalized(input@),
{
    *out = normalize(input);
}

// ---------------------------------------------------------------------------
// Tokens
// ---------------------------------------------------------------------------

/// One word of normalized text, with where it came from in the original.
///
/// The span is into the **input**, in bytes, because that is what a
/// highlight needs: the word as printed, with its nikud.
#[derive(Debug, Clone, PartialEq, Eq)]
pub struct Token {
    /// The normalized word.
    pub text: String,
    /// Byte offset of the token's first character in the input string.
    pub start: usize,
    /// Byte offset one past the token's last character in the input string.
    pub end: usize,
}

/// Where the `i`th character of a text starts, in bytes of its UTF-8.
pub open spec fn byte_offset(s: Seq<char>, i: int) -> int {
    encode_utf8(s.take(i)).len() as int
}

/// The walk that finds the words and their spans: the words finished so
/// far, the one being read, and where it started.
pub open spec fn token_walk(s: Seq<char>) -> (Seq<(Seq<char>, int, int)>, Seq<char>, int)
    decreases s.len(),
{
    if s.len() == 0 {
        (Seq::empty(), Seq::empty(), 0)
    } else {
        let prev = token_walk(s.drop_last());
        let c = s.last();
        let off = byte_offset(s, s.len() - 1);
        if mark(c) {
            prev
        } else {
            match folded(c) {
                Some(k) => (prev.0, prev.1.push(k), if prev.1.len() == 0 {
                    off
                } else {
                    prev.2
                }),
                None => if prev.1.len() > 0 {
                    (prev.0.push((prev.1, prev.2, off)), Seq::empty(), prev.2)
                } else {
                    prev
                },
            }
        }
    }
}

/// Every word of a text, with the byte span it occupies in the text.
pub open spec fn token_spans(s: Seq<char>) -> Seq<(Seq<char>, int, int)> {
    let w = token_walk(s);
    if w.1.len() > 0 {
        w.0.push((w.1, w.2, byte_offset(s, s.len() as int)))
    } else {
        w.0
    }
}

pub open spec fn token_view(t: Token) -> (Seq<char>, int, int) {
    (t.text@, t.start as int, t.end as int)
}

pub proof fn lemma_encode_concat(a: Seq<char>, b: Seq<char>)
    ensures
        encode_utf8(a + b) == encode_utf8(a) + encode_utf8(b),
    decreases a.len(),
{
    if a.len() > 0 {
        lemma_encode_concat(a.drop_first(), b);
        assert((a + b).drop_first() == a.drop_first() + b);
        assert((a + b)[0] == a[0]);
    } else {
        assert(a + b == b);
    }
}

proof fn lemma_offset_step(s: Seq<char>, i: int)
    requires
        0 <= i < s.len(),
    ensures
        byte_offset(s, i + 1) == byte_offset(s, i) + encode_scalar(s[i] as u32).len(),
        byte_offset(s, i + 1) <= encode_utf8(s).len(),
{
    assert(s.take(i + 1) == s.take(i) + seq![s[i]]);
    lemma_encode_concat(s.take(i), seq![s[i]]);
    assert(encode_utf8(seq![s[i]]) == encode_scalar(s[i] as u32) + encode_utf8(
        seq![s[i]].drop_first(),
    ));
    assert(seq![s[i]].drop_first().len() == 0);
    assert(s == s.take(i + 1) + s.skip(i + 1));
    lemma_encode_concat(s.take(i + 1), s.skip(i + 1));
}

/// How many bytes a character takes in UTF-8.
pub fn len_utf8(c: char) -> (n: usize)
    ensures
        n == encode_scalar(c as u32).len(),
{
    let v = c as u32;
    if v <= 0x7F {
        1
    } else if v <= 0x7FF {
        2
    } else if v <= 0xFFFF {
        3
    } else {
        4
    }
}

/// The words of a list of spans.
pub open spec fn span_words(ts: Seq<(Seq<char>, int, int)>) -> Seq<Seq<char>> {
    ts.map_values(|t: (Seq<char>, int, int)| t.0)
}

proof fn lemma_span_words_push(ts: Seq<(Seq<char>, int, int)>, t: (Seq<char>, int, int))
    ensures
        span_words(ts.push(t)) == span_words(ts).push(t.0),
{
    assert(span_words(ts.push(t)) =~= span_words(ts).push(t.0));
}

/// The words and spans walk agrees with the normal form's words.
proof fn lemma_token_walk_runs(s: Seq<char>)
    ensures
        ({
            let w = token_walk(s);
            let cl = cleaned(s);
            &&& w.1.len() > 0 ==> span_words(w.0).push(w.1) == runs(cl) && cl.len() > 0
                && cl.last() is Some
            &&& w.1.len() == 0 ==> span_words(w.0) == runs(cl) && (cl.len() == 0
                || cl.last() is None)
        }),
    decreases s.len(),
{
    if s.len() > 0 {
        let d = s.drop_last();
        lemma_token_walk_runs(d);
        let p = token_walk(d);
        let pd = span_words(p.0);
        let c = s.last();
        let cl = cleaned(s);
        let cd = cleaned(d);
        let w = token_walk(s);
        let off = byte_offset(s, s.len() - 1);
        if mark(c) {
            assert(cl == cd);
            assert(w == p);
        } else {
            assert(cl == cd.push(folded(c)));
            assert(cl.drop_last() == cd);
            match folded(c) {
                Some(k) => {
                    if p.1.len() > 0 {
                        assert(w == (p.0, p.1.push(k), p.2));
                        assert(cl[cl.len() - 2] == cd.last());
                        assert(runs(cl) == runs(cd).update(
                            runs(cd).len() - 1,
                            runs(cd).last().push(k),
                        ));
                        assert(pd.push(p.1).update(pd.len() as int, p.1.push(k)) =~= pd.push(
                            p.1.push(k),
                        ));
                    } else {
                        assert(w == (p.0, p.1.push(k), off));
                        assert(p.1.push(k) =~= seq![k]);
                        if cl.len() >= 2 {
                            assert(cl[cl.len() - 2] == cd.last());
                        }
                        assert(runs(cl) == runs(cd).push(seq![k]));
                    }
                },
                None => {
                    if p.1.len() > 0 {
                        assert(w.0 == p.0.push((p.1, p.2, off)));
                        lemma_span_words_push(p.0, (p.1, p.2, off));
                    } else {
                        assert(w == p);
                    }
                    assert(runs(cl) == runs(cd));
                },
            }
        }
    }
}

/// The spans' words are the normal form's words.
pub proof fn lemma_tokens_are_words(s: Seq<char>)
    ensures
        span_words(token_spans(s)) == normal_words(s),
{
    lemma_token_walk_runs(s);
    let w = token_walk(s);
    if w.1.len() > 0 {
        lemma_span_words_push(w.0, (w.1, w.2, byte_offset(s, s.len() as int)));
    }
}

/// The words found in a prefix of a text are the first words of the text.
proof fn lemma_walk_prefix(s: Seq<char>, j: int)
    requires
        0 <= j <= s.len(),
    ensures
        token_walk(s.take(j)).0.len() <= token_spans(s).len(),
        forall|k: int| 0 <= k < token_walk(s.take(j)).0.len() ==> #[trigger] token_walk(s.take(j)).0[k] == token_spans(s)[k],
    decreases s.len() - j,
{
    if j == s.len() {
        assert(s.take(j) =~= s);
    } else {
        lemma_walk_prefix(s, j + 1);
        let t = s.take(j + 1);
        assert(t.drop_last() =~= s.take(j));
        let a = token_walk(s.take(j)).0;
        let b = token_walk(t).0;
        assert(b == a || (b.len() == a.len() + 1 && b.drop_last() == a)) by {
            if b != a {
                assert(b.drop_last() =~= a);
            }
        }
        assert forall|k: int| 0 <= k < a.len() implies #[trigger] a[k] == token_spans(s)[k] by {
            if b != a {
                assert(b[k] == b.drop_last()[k]);
            }
            assert(b[k] == a[k]);
        }
    }
}

/// `f` was handed the word `t.0` with its span from `t.1` to `t.2`.
pub open spec fn handed<F: FnMut(&str, usize, usize)>(f: F, t: (Seq<char>, int, int)) -> bool {
    exists|x: &str| x@ == t.0 && #[trigger] call_ensures(f, (x, t.1 as usize, t.2 as usize), ())
}

/// Walk the normalized words of `input` without allocating one per word.
///
/// Every word is handed to `f` as `(normalized text, start, end)`, the span
/// being into the input as printed. The text borrows one buffer that is
/// reused from word to word, so it is valid only for the call; [`tokenize`]
/// keeps the words. `f` need accept nothing but the words and spans of
/// [`token_spans`]: those are all it is handed, and each of them is handed
/// to it (see [`handed`]). The calls come in the order of the words; that
/// order, and that no word is handed twice, the contract does not state.
pub fn for_each_token<F: FnMut(&str, usize, usize)>(input: &str, mut f: F)
    requires
        forall|t: &str, a: usize, b: usize|
            token_spans(input@).contains((t@, a as int, b as int)) ==> call_requires(f, (t, a, b)),
    ensures
        forall|k: int| 0 <= k < token_spans(input@).len() ==> handed(f, #[trigger] token_spans(input@)[k]),
{
    let ghost f0 = f;
    let s = chars_of(input);
    let total = input.as_bytes().len();
    let mut current = String::new();
    let mut start: usize = 0;
    let mut offset: usize = 0;
    let mut i: usize = 0;
    while i < s.len()
        invariant
            i <= s.len(),
            s@ == input@,
            total == encode_utf8(input@).len(),
            offset == byte_offset(s@, i as int),
            offset <= total,
            f == f0,
            forall|t: &str, a: usize, b: usize|
                token_spans(input@).contains((t@, a as int, b as int)) ==> call_requires(f0, (t, a, b)),
            ({
                let w = token_walk(s@.take(i as int));
                &&& current@ == w.1
                &&& current@.len() > 0 ==> start == w.2
                &&& forall|k: int| 0 <= k < w.0.len() ==> handed(f0, #[trigger] w.0[k])
            }),
        decreases s.len() - i,
    {
        let c = s[i];
        let ghost t = s@.take(i as int + 1);
        proof {
            assert(t.drop_last() == s@.take(i as int));
            assert(t.last() == c);
            assert(t.take(i as int) == s@.take(i as int));
            lemma_offset_step(s@, i as int);
            let p = token_walk(s@.take(i as int));
            assert(byte_offset(t, t.len() - 1) == offset);
            if mark(c) {
                assert(token_walk(t) == p);
            } else if folded(c) is None {
                assert(token_walk(t) == if p.1.len() > 0 {
                    (p.0.push((p.1, p.2, offset as int)), Seq::<char>::empty(), p.2)
                } else {
                    p
                });
            }
        }
        let width = len_utf8(c);
        if !is_mark(c) {
            match fold_char(c) {
                Some(k) => {
                    proof {
                        let p = token_walk(s@.take(i as int));
                        assert(token_walk(t) == (p.0, p.1.push(k), if p.1.len() == 0 {
                            offset as int
                        } else {
                            p.2
                        }));
                    }
                    if current.as_str().is_empty() {
                        start = offset;
                    }
                    push_char(&mut current, k);
                },
                None => {
                    if !current.as_str().is_empty() {
                        proof {
                            lemma_walk_prefix(s@, i as int + 1);
                            let w = token_walk(t);
                            let p = token_walk(s@.take(i as int));
                            assert(w.0 == p.0.push((p.1, p.2, offset as int)));
                            assert(w.0[w.0.len() - 1] == token_spans(s@)[w.0.len() - 1]);
                            assert(token_spans(input@).contains((current@, start as int, offset as int)));
                        }
                        let word = current.as_str();
                        f(word, start, offset);
                        let ghost tk = (current@, start as int, offset as int);
                        assert(word@ == tk.0 && call_ensures(f0, (word, tk.1 as usize, tk.2 as usize), ()));
                        assert(handed(f0, tk));
                        proof {
                            let w = token_walk(t);
                            let p = token_walk(s@.take(i as int));
                            assert forall|k: int| 0 <= k < w.0.len() implies handed(f0, #[trigger] w.0[k]) by {
                                if k < p.0.len() {
                                    assert(w.0[k] == p.0[k]);
                                }
                            }
                        }
                        clear_string(&mut current);
                    }
                },
            }
        }
        offset = offset + width;
        i += 1;
    }
    proof {
        assert(s@.take(s.len() as int) == s@);
    }
    if !current.as_str().is_empty() {
        proof {
            let w = token_walk(s@);
            assert(token_spans(s@) == w.0.push((w.1, w.2, byte_offset(s@, s@.len() as int))));
            assert(token_spans(s@)[w.0.len() as int] == (current@, start as int, total as int));
            assert(token_spans(input@).contains((current@, start as int, total as int)));
        }
        let word = current.as_str();
        f(word, start, total);
        let ghost tk = (current@, start as int, total as int);
        assert(word@ == tk.0 && call_ensures(f0, (word, tk.1 as usize, tk.2 as usize), ()));
        assert(handed(f0, tk));
        proof {
            let w = token_walk(s@);
            assert forall|k: int| 0 <= k < token_spans(input@).len() implies handed(f0, #[trigger] token_spans(input@)[k]) by {
                if k < w.0.len() {
                    assert(token_spans(input@)[k] == w.0[k]);
                }
            }
        }
    }
}

/// Split text into normalized words, keeping each one's byte span in the
/// input as printed.
pub fn tokenize(input: &str) -> (tokens: Vec<Token>)
    ensures
        tokens@.map_values(|t: Token| token_view(t)) == token_spans(input@),
{
    let s = chars_of(input);
    let total = input.as_bytes().len();
    let mut tokens: Vec<Token> = Vec::new();
    let mut current: Vec<char> = Vec::new();
    let mut start: usize = 0;
    let mut offset: usize = 0;
    let mut i: usize = 0;
    while i < s.len()
        invariant
            i <= s.len(),
            s@ == input@,
            total == encode_utf8(input@).len(),
            offset == byte_offset(s@, i as int),
            offset <= total,
            ({
                let w = token_walk(s@.take(i as int));
                &&& tokens@.map_values(|t: Token| token_view(t)) == w.0
                &&& current@ == w.1
                &&& current@.len() > 0 ==> start == w.2
            }),
        decreases s.len() - i,
    {
        let c = s[i];
        let ghost t = s@.take(i as int + 1);
        proof {
            assert(t.drop_last() == s@.take(i as int));
            assert(t.last() == c);
            assert(t.take(i as int) == s@.take(i as int));
            lemma_offset_step(s@, i as int);
        }
        let width = len_utf8(c);
        if !is_mark(c) {
            match fold_char(c) {
                Some(k) => {
                    if current.len() == 0 {
                        start = offset;
                    }
                    current.push(k);
                },
                None => {
                    if current.len() > 0 {
                        let ghost before = tokens@.map_values(|t: Token| token_view(t));
                        let text = string_of(current.as_slice());
                        tokens.push(Token { text, start, end: offset });
                        assert(tokens@.map_values(|t: Token| token_view(t)) =~= before.push(
                            (current@, start as int, offset as int),
                        ));
                        current = Vec::new();
                    }
                },
            }
        }
        offset = offset + width;
        i += 1;
    }
    assert(s@.take(s.len() as int) == s@);
    if current.len() > 0 {
        let ghost before = tokens@.map_values(|t: Token| token_view(t));
        let text = string_of(current.as_slice());
        tokens.push(Token { text, start, end: total });
        assert(s@.take(s@.len() as int) == s@);
        assert(tokens@.map_values(|t: Token| token_view(t)) =~= before.push(
            (current@, start as int, total as int),
        ));
    }
    tokens
}

/// A character a normal form holds, other than the space between words:
/// no mark, no final letter, no ASCII capital, no whitespace.
pub open spec fn kept_char(c: char) -> bool {
    &&& !mark(c)
    &&& c != '\u{05DA}' && c != '\u{05DD}' && c != '\u{05DF}' && c != '\u{05E3}' && c != '\u{05E5}'
    &&& !('A' <= c && c <= 'Z')
    &&& !is_ws(c)
}

/// Nonempty words of normal characters, joined by single spaces: every
/// character is kept or a space, and no space leads, trails or follows
/// another.
proof fn lemma_join_normal_shape(ws: Seq<Seq<char>>)
    requires
        normal_word_list(ws),
    ensures
        forall|i: int| 0 <= i < join(ws, seq![' ']).len() ==> #[trigger] join(ws, seq![' '])[i] == ' '
            || kept_char(join(ws, seq![' '])[i]),
        join(ws, seq![' ']).len() > 0 ==> join(ws, seq![' '])[0] != ' ' && join(ws, seq![' ']).last() != ' ',
        forall|i: int| 0 <= i < join(ws, seq![' ']).len() - 1 && #[trigger] join(ws, seq![' '])[i] == ' ' ==> join(
            ws,
            seq![' '],
        )[i + 1] != ' ',
    decreases ws.len(),
{
    let x = join(ws, seq![' ']);
    if ws.len() == 1 {
        let w = ws[0];
        assert(x == w);
        assert forall|i: int| 0 <= i < w.len() implies kept_char(#[trigger] w[i]) && w[i] != ' ' by {
            assert(normal_char(ws[0][i]));
        }
    } else if ws.len() > 1 {
        let d = ws.drop_last();
        let w = ws.last();
        assert forall|i: int| 0 <= i < d.len() implies #[trigger] d[i].len() > 0 by {
            assert(d[i] == ws[i]);
        }
        assert forall|i: int, j: int| 0 <= i < d.len() && 0 <= j < d[i].len() implies normal_char(#[trigger] d[i][j]) by {
            assert(d[i] == ws[i]);
        }
        lemma_join_normal_shape(d);
        let y = join(d, seq![' ']);
        assert(x == y + seq![' '] + w);
        assert(ws[ws.len() - 1] == w);
        assert(w.len() > 0);
        assert forall|j: int| 0 <= j < w.len() implies kept_char(#[trigger] w[j]) && w[j] != ' ' by {
            assert(normal_char(ws[ws.len() - 1][j]));
        }
        assert(y.len() > 0) by {
            lemma_join_empty_iff(d, seq![' ']);
        }
        assert forall|i: int| 0 <= i < x.len() implies #[trigger] x[i] == ' ' || kept_char(x[i]) by {
            if i < y.len() {
                assert(x[i] == y[i]);
            } else if i > y.len() {
                assert(x[i] == w[i - y.len() - 1]);
            }
        }
        assert forall|i: int| 0 <= i < x.len() - 1 && #[trigger] x[i] == ' ' implies x[i + 1] != ' ' by {
            if i < y.len() - 1 {
                assert(x[i] == y[i]);
                assert(x[i + 1] == y[i + 1]);
            } else if i == y.len() - 1 {
                assert(x[i] == y.last());
            } else if i == y.len() {
                assert(x[i + 1] == w[0]);
            } else {
                assert(x[i] == w[i - y.len() - 1]);
            }
        }
        assert(x[0] == y[0]);
        assert(x.last() == w.last());
        assert(w.last() == w[w.len() - 1]);
    }
}

/// What normalizing leaves out: a normal form holds no mark, no final
/// letter, no ASCII capital and no whitespace but single spaces between
/// words, none leading or trailing.
pub proof fn lemma_normalized_shape(s: Seq<char>)
    ensures
        forall|i: int| 0 <= i < normalized(s).len() ==> #[trigger] normalized(s)[i] == ' ' || kept_char(
            normalized(s)[i],
        ),
        normalized(s).len() > 0 ==> normalized(s)[0] != ' ' && normalized(s).last() != ' ',
        forall|i: int| 0 <= i < normalized(s).len() - 1 && #[trigger] normalized(s)[i] == ' ' ==> normalized(s)[i + 1] != ' ',
{
    lemma_normal_words_are_normal(s);
    lemma_join_normal_shape(normal_words(s));
}

} // verus!
