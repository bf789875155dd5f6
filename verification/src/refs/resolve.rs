//! Turning any way a human writes a citation into a canonical ref: offline,
//! local, and never a guess.
//!
//! Ambiguity is surfaced as a choice, never resolved silently. `או"ח`
//! genuinely means the Orach Chayim of the Shulchan Arukh and of the Tur, and
//! the honest answer is all of them.
//!
//! ```text
//! שו"ע או"ח א' א'          gershayim, Hebrew numerals
//! שוע אוח סימן א סעיף א     no gershayim at all
//! רמב"ם הל' תפילה פ"ד ה"א   rabbinic shorthand, label and number in one token
//! ברכות ב.                  daf, printed notation
//! ברכות ב ע"א               daf, written out
//! Berakhot 2a               Sefaria's own
//! סעיף ה                    partial, against where the reader is standing
//! ```
use vstd::prelude::*;

use crate::hebrew::normalize::{normalize, normalized};
use crate::refs::address::{completed, level_texts, numbered, Address, Level};
use crate::refs::daf::{amud_alef, amud_beis, daf_value, parse as parse_daf};
use crate::refs::lexicon::{meanings, work_view, LexView, Lexicon, Work};
use crate::refs::numerals::{
    hebrew_value, numeral_value, parse as parse_numeral, parse_hebrew_chars,
};
use crate::refs::reference::{opt_address, ref_value, whole, Ref, RefView};
use crate::text::{
    chars_of, copy_of, decimal, decimal_of, is_blank, join, join_chars, parse_u32, parse_u32_chars,
    slice_of, split, split_char, split_once, split_once_char, split_whitespace, string_of, strings,
    texts, to_strings, trim, trim_chars, words,
};

verus! {

/// Words that name a division rather than being part of the address: the
/// distinct level names of the corpus's schemas, Hebrew and English. `תורה`,
/// `תלמוד`, `ספר`, `תפילה` and `מדרש` are deliberately absent: they are also
/// how seforim are called.
pub const SECTION_WORDS: [&'static str; 45] = [
    "סימן",
    "סעיף",
    "קטן",
    "פרק",
    "פסקה",
    "פירוש",
    "פרשנות",
    "הלכה",
    "הלכות",
    "משנה",
    "תוספתא",
    "דף",
    "עמוד",
    "שורה",
    "פסוק",
    "פרשה",
    "חלק",
    "כרך",
    "מצוה",
    "דרוש",
    "מאמר",
    "כלל",
    "תשובה",
    "שורש",
    "שער",
    "אות",
    "מזמור",
    "רמז",
    "נתיב",
    "חדר",
    "קובץ",
    "פיוט",
    "הדרן",
    "סיפור",
    "siman",
    "seif",
    "chapter",
    "halakhah",
    "halacha",
    "daf",
    "mishnah",
    "verse",
    "paragraph",
    "comment",
    "line",
];

/// Abbreviated labels, recognised only when the token carries a geresh:
/// bare, `סי'` and `פ'` are the numbers 60 and 80.
pub const SECTION_ABBREVIATIONS: [&'static str; 6] = ["סי", "סע", "הל", "מס", "עמ", "פ"];

/// Single letters that label the level they are attached to: `פ"ד` is
/// perek 4, not 84. A two-letter head is never a label: `קכ"א` is 121.
pub const LABEL_LETTERS: [char; 5] = ['פ', 'ה', 'ס', 'ד', 'מ'];

/// Whether a normal form is one of the level words.
pub open spec fn section_word(key: Seq<char>) -> bool {
    exists|i: int| 0 <= i < 45 && normalized(SECTION_WORDS[i]@) == key
}

/// Whether a bare form is one of the abbreviated labels.
pub open spec fn section_abbreviation(bare: Seq<char>) -> bool {
    exists|i: int| 0 <= i < 6 && SECTION_ABBREVIATIONS[i]@ == bare
}

pub open spec fn label_letter(c: char) -> bool {
    c == 'פ' || c == 'ה' || c == 'ס' || c == 'ד' || c == 'מ'
}

/// A text with every trailing quote mark taken off.
pub open spec fn without_trailing_quotes(s: Seq<char>) -> Seq<char>
    decreases s.len(),
{
    if s.len() > 0 && (s.last() == '\'' || s.last() == '"') {
        without_trailing_quotes(s.drop_last())
    } else {
        s
    }
}

/// The number in a token that carries its own label: `פ"ד` is 4.
pub open spec fn label_number(token: Seq<char>) -> Option<u32> {
    match split_once(normalized(token), '"') {
        Some((head, tail)) => if head.len() == 1 && label_letter(head[0]) {
            hebrew_value(tail)
        } else {
            None
        },
        None => None,
    }
}

/// Whether a token reads as a numbered level on its own.
pub open spec fn token_numbered(token: Seq<char>) -> bool {
    daf_value(token) is Some || label_number(token) is Some || numeral_value(token) is Some
}

/// Pieces of a word between colons and commas.
pub open spec fn pieces(w: Seq<char>) -> Seq<Seq<char>>
    decreases w.len(),
{
    if w.len() == 0 {
        seq![Seq::<char>::empty()]
    } else {
        let p = pieces(w.drop_last());
        if w.last() == ':' || w.last() == ',' {
            p.push(Seq::<char>::empty())
        } else {
            p.update(p.len() - 1, p.last().push(w.last()))
        }
    }
}

/// The nonempty texts of a list.
pub open spec fn nonempty(p: Seq<Seq<char>>) -> Seq<Seq<char>>
    decreases p.len(),
{
    if p.len() == 0 {
        Seq::empty()
    } else if p.last().len() > 0 {
        nonempty(p.drop_last()).push(p.last())
    } else {
        nonempty(p.drop_last())
    }
}

/// The tokens of one word: the word itself when it ends in a colon or a
/// full stop, which mark an amud, and otherwise its pieces between interior
/// colons and commas.
pub open spec fn word_tokens(w: Seq<char>) -> Seq<Seq<char>> {
    if w.len() > 0 && (w.last() == ':' || w.last() == '.') {
        seq![w]
    } else {
        nonempty(pieces(w))
    }
}

pub open spec fn all_tokens(ws: Seq<Seq<char>>) -> Seq<Seq<char>>
    decreases ws.len(),
{
    if ws.len() == 0 {
        Seq::empty()
    } else {
        all_tokens(ws.drop_last()) + word_tokens(ws.last())
    }
}

/// The tokens of an address.
pub open spec fn tokens(rest: Seq<char>) -> Seq<Seq<char>> {
    all_tokens(words(rest))
}

/// The levels so far, a pending name, and whether the address still reads.
pub type AddressState = (Seq<Seq<char>>, Seq<Seq<char>>, bool);

/// A pending name becomes one level.
pub open spec fn flushed(levels: Seq<Seq<char>>, pending: Seq<Seq<char>>) -> Seq<Seq<char>> {
    if pending.len() > 0 {
        levels.push(join(pending, seq![' ']))
    } else {
        levels
    }
}

/// Whether a token labels a level: a level word, or an abbreviated label
/// with its geresh.
pub open spec fn label_token(token: Seq<char>) -> bool {
    let normal = normalized(token);
    let had_geresh = normal.len() > 0 && (normal.last() == '\'' || normal.last() == '"');
    let bare = without_trailing_quotes(normal);
    section_word(bare) || (had_geresh && section_abbreviation(bare))
}

/// A level word labels the number after it and is dropped; with a word
/// after it, it is the head of a name.
pub open spec fn label_step(st: AddressState, t: Seq<Seq<char>>, nth: int, token: Seq<char>) -> AddressState {
    if nth + 1 >= t.len() || token_numbered(trim(t[nth + 1])) {
        st
    } else {
        (st.0, st.1.push(token), true)
    }
}

/// `ע"א` and `ע"ב` give the previous level, a daf, its amud.
pub open spec fn amud_step(st: AddressState, amud: char) -> AddressState {
    if st.0.len() == 0 {
        (st.0, st.1, false)
    } else {
        match parse_u32(st.0.last()) {
            Some(d) => if d >= 2 {
                (st.0.drop_last().push(decimal(d as nat).push(amud)), st.1, true)
            } else {
                (st.0, st.1, false)
            },
            None => (st.0, st.1, false),
        }
    }
}

/// What a token reads as on its own: a daf, a labelled number, a numeral.
pub open spec fn token_level(token: Seq<char>) -> Option<Seq<char>> {
    if daf_value(token) is Some {
        daf_value(token)
    } else if label_number(token) is Some {
        Some(decimal(label_number(token).unwrap() as nat))
    } else if numeral_value(token) is Some {
        Some(decimal(numeral_value(token).unwrap() as nat))
    } else {
        None
    }
}

/// A numbered level closes any name before it; anything else is part of a
/// name.
pub open spec fn level_step(st: AddressState, token: Seq<char>) -> AddressState {
    match token_level(token) {
        Some(l) => (flushed(st.0, st.1).push(l), Seq::empty(), true),
        None => (st.0, st.1.push(token), true),
    }
}

/// One token of an address read.
#[verifier::opaque]
pub open spec fn address_step(st: AddressState, t: Seq<Seq<char>>, nth: int) -> AddressState {
    let token = trim(t[nth]);
    if !st.2 || token.len() == 0 {
        st
    } else if label_token(token) {
        label_step(st, t, nth, token)
    } else if normalized(token) == amud_alef() {
        amud_step(st, 'a')
    } else if normalized(token) == amud_beis() {
        amud_step(st, 'b')
    } else {
        level_step(st, token)
    }
}

/// The first `k` tokens read.
pub open spec fn address_walk(t: Seq<Seq<char>>, k: int) -> AddressState
    decreases k,
{
    if k <= 0 {
        (Seq::empty(), Seq::empty(), true)
    } else {
        address_step(address_walk(t, k - 1), t, k - 1)
    }
}

/// The address left after a title is taken off, if it reads as one: no
/// name may be left with nothing numbered after it.
pub open spec fn citation_address(rest: Seq<char>) -> Option<Seq<Seq<char>>> {
    let t = tokens(rest);
    let st = address_walk(t, t.len() as int);
    if !st.2 || st.1.len() > 0 || st.0.len() == 0 {
        None
    } else {
        Some(st.0)
    }
}

/// An address every level of which is numbered.
pub open spec fn numbered_citation_address(rest: Seq<char>) -> Option<Seq<Seq<char>>> {
    match citation_address(rest) {
        Some(a) => if forall|i: int| 0 <= i < a.len() ==> numbered(#[trigger] a[i]) {
            Some(a)
        } else {
            None
        },
        None => None,
    }
}

/// An address, or a range of two, looking at the hyphens from position `k`
/// on: the first hyphen whose left side reads as an address and whose right
/// side reads as a numbered one makes a range.
pub open spec fn span_from(rest: Seq<char>, k: int) -> Option<(Seq<Seq<char>>, Option<Seq<Seq<char>>>)>
    decreases rest.len() - k,
{
    if k < 0 || k >= rest.len() {
        match citation_address(rest) {
            Some(a) => Some((a, None)),
            None => None,
        }
    } else if rest[k] == '-' && citation_address(rest.take(k)) is Some
        && numbered_citation_address(rest.skip(k + 1)) is Some {
        let f = citation_address(rest.take(k)).unwrap();
        let t = numbered_citation_address(rest.skip(k + 1)).unwrap();
        if f == t {
            Some((f, None))
        } else {
            Some((f, Some(t)))
        }
    } else {
        span_from(rest, k + 1)
    }
}

pub open spec fn span_value(rest: Seq<char>) -> Option<(Seq<Seq<char>>, Option<Seq<Seq<char>>>)> {
    span_from(rest, 0)
}

fn in_section_words(key: &[char]) -> (b: bool)
    ensures
        b == section_word(key@),
{
    let mut i: usize = 0;
    while i < 45
        invariant
            i <= 45,
            forall|j: int| 0 <= j < i ==> normalized(SECTION_WORDS[j]@) != key@,
        decreases 45 - i,
    {
        let w = chars_of(normalize(SECTION_WORDS[i]).as_str());
        if crate::text::eq_chars(w.as_slice(), key) {
            return true;
        }
        i += 1;
    }
    false
}

/// Whether a word labels a level, such as `סימן`, `חלק` or `daf`, rather
/// than naming anything. The word is compared in normal form, so a final
/// letter or nikud does not change the answer.
pub fn is_section_word(word: &str) -> (b: bool)
    ensures
        b == section_word(normalized(word@)),
{
    let key = chars_of(normalize(word).as_str());
    in_section_words(key.as_slice())
}

fn is_section_abbreviation(bare: &[char]) -> (b: bool)
    ensures
        b == section_abbreviation(bare@),
{
    let mut i: usize = 0;
    while i < 6
        invariant
            i <= 6,
            forall|j: int| 0 <= j < i ==> SECTION_ABBREVIATIONS[j]@ != bare@,
        decreases 6 - i,
    {
        let w = chars_of(SECTION_ABBREVIATIONS[i]);
        if crate::text::eq_chars(w.as_slice(), bare) {
            return true;
        }
        i += 1;
    }
    false
}

fn strip_trailing_quotes(s: &[char]) -> (r: Vec<char>)
    ensures
        r@ == without_trailing_quotes(s@),
{
    let mut n = s.len();
    assert(s@.take(n as int) =~= s@);
    while n > 0 && (s[n - 1] == '\'' || s[n - 1] == '"')
        invariant
            n <= s.len(),
            without_trailing_quotes(s@.take(n as int)) == without_trailing_quotes(s@),
        decreases n,
    {
        assert(s@.take(n as int).drop_last() =~= s@.take(n - 1));
        n -= 1;
    }
    assert(without_trailing_quotes(s@.take(n as int)) == s@.take(n as int));
    slice_of(s, 0, n)
}

/// The number in a token that carries its own label: `פ"ד` is 4, and
/// `קכ"א` is none, because its head is two letters and it is 121.
pub fn split_label_and_number(token: &str) -> (n: Option<u32>)
    ensures
        n == label_number(token@),
{
    let normal = chars_of(normalize(token).as_str());
    match split_once_char(normal.as_slice(), '"') {
        Some((head, tail)) => {
            if head.len() == 1 && (head[0] == LABEL_LETTERS[0] || head[0] == LABEL_LETTERS[1]
                || head[0] == LABEL_LETTERS[2] || head[0] == LABEL_LETTERS[3] || head[0]
                == LABEL_LETTERS[4]) {
                parse_hebrew_chars(tail.as_slice())
            } else {
                None
            }
        },
        None => None,
    }
}

fn token_is_numbered(token: &[char]) -> (b: bool)
    ensures
        b == token_numbered(token@),
{
    let text = string_of(token);
    parse_daf(text.as_str()).is_some() || split_label_and_number(text.as_str()).is_some()
        || parse_numeral(text.as_str()).is_some()
}

proof fn lemma_nonempty_push(p: Seq<Seq<char>>, x: Seq<char>)
    ensures
        nonempty(p.push(x)) == if x.len() > 0 {
            nonempty(p).push(x)
        } else {
            nonempty(p)
        },
{
    assert(p.push(x).drop_last() =~= p);
}

fn word_pieces(w: &[char]) -> (r: Vec<Vec<char>>)
    ensures
        texts(r@) == word_tokens(w@),
{
    if w.len() > 0 && (w[w.len() - 1] == ':' || w[w.len() - 1] == '.') {
        let mut r: Vec<Vec<char>> = Vec::new();
        r.push(copy_of(w));
        assert(texts(r@) =~= seq![w@]);
        return r;
    }
    let mut out: Vec<Vec<char>> = Vec::new();
    let mut cur: Vec<char> = Vec::new();
    let mut i: usize = 0;
    while i < w.len()
        invariant
            i <= w.len(),
            pieces(w@.take(i as int)) == pieces(w@.take(i as int)).drop_last().push(cur@),
            pieces(w@.take(i as int)).len() >= 1,
            texts(out@) == nonempty(pieces(w@.take(i as int)).drop_last()),
        decreases w.len() - i,
    {
        let ghost p = pieces(w@.take(i as int));
        assert(w@.take(i + 1).drop_last() =~= w@.take(i as int));
        if w[i] == ':' || w[i] == ',' {
            proof {
                lemma_nonempty_push(p.drop_last(), cur@);
            }
            let ghost before = texts(out@);
            if cur.len() > 0 {
                out.push(cur);
                assert(texts(out@) =~= before.push(p.last()));
            }
            assert(p =~= p.drop_last().push(p.last()));
            cur = Vec::new();
            assert(pieces(w@.take(i + 1)).drop_last() =~= p);
            assert(pieces(w@.take(i + 1)) =~= p.push(cur@));
        } else {
            cur.push(w[i]);
            assert(pieces(w@.take(i + 1)).drop_last() =~= p.drop_last());
            assert(pieces(w@.take(i + 1)) =~= p.drop_last().push(cur@));
        }
        i += 1;
    }
    assert(w@.take(w.len() as int) =~= w@);
    let ghost p = pieces(w@);
    proof {
        lemma_nonempty_push(p.drop_last(), cur@);
    }
    let ghost before = texts(out@);
    if cur.len() > 0 {
        out.push(cur);
        assert(texts(out@) =~= before.push(p.last()));
    }
    assert(p =~= p.drop_last().push(p.last()));
    out
}

/// Split an address into tokens, keeping a word-final colon or full stop
/// attached: `2a:1` is two levels, but the colon of `ב:` is an amud.
fn split_tokens(rest: &[char]) -> (r: Vec<Vec<char>>)
    ensures
        texts(r@) == tokens(rest@),
{
    let ws = split_whitespace(rest);
    let mut out: Vec<Vec<char>> = Vec::new();
    let mut i: usize = 0;
    while i < ws.len()
        invariant
            i <= ws.len(),
            texts(out@) == all_tokens(texts(ws@).take(i as int)),
        decreases ws.len() - i,
    {
        let ps = word_pieces(ws[i].as_slice());
        let ghost before = texts(out@);
        let mut k: usize = 0;
        while k < ps.len()
            invariant
                k <= ps.len(),
                texts(out@) == before + texts(ps@).take(k as int),
            decreases ps.len() - k,
        {
            let ghost b2 = texts(out@);
            out.push(copy_of(ps[k].as_slice()));
            assert(texts(out@) =~= b2.push(ps@[k as int]@));
            assert(texts(ps@).take(k + 1) =~= texts(ps@).take(k as int).push(ps@[k as int]@));
            assert(texts(out@) =~= before + texts(ps@).take(k + 1));
            k += 1;
        }
        assert(texts(ps@).take(ps.len() as int) =~= texts(ps@));
        assert(texts(ws@).take(i + 1).drop_last() =~= texts(ws@).take(i as int));
        i += 1;
    }
    assert(texts(ws@).take(ws.len() as int) =~= texts(ws@));
    out
}

proof fn lemma_walk_stays_failed(t: Seq<Seq<char>>, k: int, j: int)
    requires
        0 <= k <= j,
        !address_walk(t, k).2,
    ensures
        !address_walk(t, j).2,
        address_walk(t, j) == address_walk(t, k),
    decreases j - k,
{
    reveal(address_step);
    if j > k {
        lemma_walk_stays_failed(t, k, j - 1);
    }
}

fn flush(levels: &mut Vec<Vec<char>>, pending: &mut Vec<Vec<char>>)
    ensures
        texts(final(levels)@) == flushed(texts(old(levels)@), texts(old(pending)@)),
        texts(final(pending)@) == Seq::<Seq<char>>::empty(),
{
    if pending.len() > 0 {
        let sep = vec![' '];
        let name = join_chars(pending.as_slice(), 0, pending.len(), sep.as_slice());
        assert(texts(pending@).subrange(0, pending.len() as int) =~= texts(pending@));
        assert(sep@ == seq![' ']);
        let ghost before = texts(levels@);
        levels.push(name);
        assert(texts(levels@) =~= before.push(join(texts(old(pending)@), seq![' '])));
        *pending = Vec::new();
    } else {
        assert(texts(pending@) =~= Seq::<Seq<char>>::empty());
    }
    assert(texts(pending@) =~= Seq::<Seq<char>>::empty());
}

fn push_text_to(v: &mut Vec<Vec<char>>, x: Vec<char>)
    ensures
        texts(final(v)@) == texts(old(v)@).push(x@),
{
    let ghost before = texts(v@);
    let ghost xv = x@;
    v.push(x);
    assert(texts(v@) =~= before.push(xv));
}

fn levels_of(v: &Vec<Vec<char>>) -> (a: Address)
    ensures
        a@ == texts(v@),
{
    let mut out: Vec<Level> = Vec::new();
    let mut i: usize = 0;
    while i < v.len()
        invariant
            i <= v.len(),
            level_texts(out@) == texts(v@).take(i as int),
        decreases v.len() - i,
    {
        let ghost before = level_texts(out@);
        out.push(Level::of_chars(v[i].as_slice()));
        assert(level_texts(out@) =~= before.push(v@[i as int]@));
        assert(texts(v@).take(i + 1) =~= texts(v@).take(i as int).push(v@[i as int]@));
        i += 1;
    }
    assert(texts(v@).take(v.len() as int) =~= texts(v@));
    Address::new(out)
}

fn is_label_token(token: &[char]) -> (b: bool)
    ensures
        b == label_token(token@),
{
    let text = string_of(token);
    let normal = chars_of(normalize(text.as_str()).as_str());
    let had_geresh = normal.len() > 0 && (normal[normal.len() - 1] == '\'' || normal[normal.len()
        - 1] == '"');
    let bare = strip_trailing_quotes(normal.as_slice());
    in_section_words(bare.as_slice()) || (had_geresh && is_section_abbreviation(bare.as_slice()))
}

fn read_token_level(token: &[char]) -> (r: Option<Vec<char>>)
    ensures
        match r {
            Some(l) => token_level(token@) == Some(l@),
            None => token_level(token@) is None,
        },
{
    let text = string_of(token);
    if let Some(daf) = parse_daf(text.as_str()) {
        return Some(chars_of(daf.as_str()));
    }
    if let Some(n) = split_label_and_number(text.as_str()) {
        return Some(decimal_of(n as u64));
    }
    if let Some(n) = parse_numeral(text.as_str()) {
        return Some(decimal_of(n as u64));
    }
    None
}

fn apply_amud(levels: &mut Vec<Vec<char>>, pending: &Vec<Vec<char>>, amud: char) -> (ok: bool)
    ensures
        (texts(final(levels)@), texts(pending@), ok) == amud_step(
            (texts(old(levels)@), texts(pending@), true),
            amud,
        ),
{
    if levels.len() == 0 {
        return false;
    }
    assert(texts(levels@).last() == levels@[levels.len() - 1]@);
    let d = match parse_u32_chars(levels[levels.len() - 1].as_slice()) {
        Some(d) => d,
        None => return false,
    };
    if d < 2 {
        return false;
    }
    let ghost before = texts(levels@);
    levels.pop();
    assert(texts(levels@) =~= before.drop_last());
    let mut level = decimal_of(d as u64);
    level.push(amud);
    push_text_to(levels, level);
    true
}

fn read_step(levels: &mut Vec<Vec<char>>, pending: &mut Vec<Vec<char>>, toks: &Vec<Vec<char>>, nth: usize) -> (ok: bool)
    requires
        nth < toks.len(),
    ensures
        (texts(final(levels)@), texts(final(pending)@), ok) == address_step(
            (texts(old(levels)@), texts(old(pending)@), true),
            texts(toks@),
            nth as int,
        ),
{
    reveal(address_step);
    let ghost t = texts(toks@);
    assert(t[nth as int] == toks@[nth as int]@);
    let token = trim_chars(toks[nth].as_slice());
    if token.len() == 0 {
        return true;
    }
    if is_label_token(token.as_slice()) {
        let next_numbered = if nth + 1 >= toks.len() {
            true
        } else {
            assert(t[nth + 1] == toks@[nth + 1]@);
            let next = trim_chars(toks[nth + 1].as_slice());
            token_is_numbered(next.as_slice())
        };
        if !next_numbered {
            push_text_to(pending, token);
        }
        return true;
    }
    let text = string_of(token.as_slice());
    let normal = chars_of(normalize(text.as_str()).as_str());
    let alef = vec!['ע', '"', 'א'];
    let beis = vec!['ע', '"', 'ב'];
    assert(alef@ == amud_alef());
    assert(beis@ == amud_beis());
    if crate::text::eq_chars(normal.as_slice(), alef.as_slice()) {
        return apply_amud(levels, pending, 'a');
    }
    if crate::text::eq_chars(normal.as_slice(), beis.as_slice()) {
        return apply_amud(levels, pending, 'b');
    }
    match read_token_level(token.as_slice()) {
        Some(l) => {
            flush(levels, pending);
            push_text_to(levels, l);
        },
        None => {
            push_text_to(pending, token);
        },
    }
    true
}

/// Read whatever address is left after the title has been taken off.
fn parse_address(rest: &[char]) -> (r: Option<Address>)
    ensures
        match r {
            Some(a) => citation_address(rest@) == Some(a@),
            None => citation_address(rest@) is None,
        },
{
    let toks = split_tokens(rest);
    let ghost t = texts(toks@);
    let mut levels: Vec<Vec<char>> = Vec::new();
    let mut pending: Vec<Vec<char>> = Vec::new();
    let mut nth: usize = 0;
    assert(texts(levels@) =~= Seq::<Seq<char>>::empty());
    assert(texts(pending@) =~= Seq::<Seq<char>>::empty());
    while nth < toks.len()
        invariant
            t == texts(toks@),
            t == tokens(rest@),
            nth <= toks.len(),
            address_walk(t, nth as int) == (texts(levels@), texts(pending@), true),
        decreases toks.len() - nth,
    {
        let ok = read_step(&mut levels, &mut pending, &toks, nth);
        assert(address_walk(t, nth + 1) == address_step(address_walk(t, nth as int), t, nth as int));
        if !ok {
            proof {
                lemma_walk_stays_failed(t, nth + 1, t.len() as int);
            }
            return None;
        }
        nth += 1;
    }
    if pending.len() > 0 {
        return None;
    }
    if levels.len() == 0 {
        return None;
    }
    Some(levels_of(&levels))
}

fn numbered_address(rest: &[char]) -> (r: Option<Address>)
    ensures
        match r {
            Some(a) => numbered_citation_address(rest@) == Some(a@),
            None => numbered_citation_address(rest@) is None,
        },
{
    let a = match parse_address(rest) {
        Some(a) => a,
        None => return None,
    };
    let levels = a.levels();
    let mut i: usize = 0;
    while i < levels.len()
        invariant
            i <= levels.len(),
            citation_address(rest@) == Some(a@),
            crate::refs::address::level_texts(levels@) == a@,
            forall|j: int| 0 <= j < i ==> numbered(#[trigger] a@[j]),
        decreases levels.len() - i,
    {
        assert(a@[i as int] == levels@[i as int]@);
        if !levels[i].is_numbered() {
            return None;
        }
        i += 1;
    }
    Some(a)
}

/// Read an address, or a range of two: `Exodus 1:1-6:1` is one citation
/// covering a parsha. A hyphen is a range separator only when the side after
/// it reads as a numbered address; it is also an ordinary character in a
/// section name, and the reading falls back rather than fails.
fn parse_span(rest: &[char]) -> (r: Option<(Address, Option<Address>)>)
    ensures
        match r {
            Some((f, t)) => span_value(rest@) == Some((f@, opt_address(t))),
            None => span_value(rest@) is None,
        },
{
    let mut k: usize = 0;
    while k < rest.len()
        invariant
            k <= rest.len(),
            span_value(rest@) == span_from(rest@, k as int),
        decreases rest.len() - k,
    {
        if rest[k] == '-' {
            let head = slice_of(rest, 0, k);
            let tail = slice_of(rest, k + 1, rest.len());
            assert(head@ == rest@.take(k as int));
            assert(tail@ == rest@.skip(k + 1));
            if let Some(from) = parse_address(head.as_slice()) {
                if let Some(to) = numbered_address(tail.as_slice()) {
                    if from.same(&to) {
                        return Some((from, None));
                    }
                    return Some((from, Some(to)));
                }
            }
        }
        k += 1;
    }
    match parse_address(rest) {
        Some(a) => Some((a, None)),
        None => None,
    }
}

/// What a citation turned out to be.
#[derive(Debug, Clone, PartialEq, Eq)]
pub enum Resolution {
    /// One work, one place. Safe to follow without asking.
    Exact(Ref),
    /// Several places it could equally be. Always shown to the reader as a
    /// choice; never narrowed by picking the first.
    Ambiguous(Vec<Ref>),
    /// Nothing in the lexicon matched. Better than a wrong answer.
    Unresolved,
}

/// Every candidate a resolution holds.
pub open spec fn candidates_view(r: Resolution) -> Seq<RefView> {
    match r {
        Resolution::Exact(x) => seq![x@],
        Resolution::Ambiguous(v) => v@.map_values(|x: Ref| x@),
        Resolution::Unresolved => Seq::empty(),
    }
}

/// A list with each run of equal refs kept once.
pub open spec fn deduped(v: Seq<RefView>) -> Seq<RefView>
    decreases v.len(),
{
    if v.len() == 0 {
        Seq::empty()
    } else {
        let p = deduped(v.drop_last());
        if p.len() > 0 && p.last() == v.last() {
            p
        } else {
            p.push(v.last())
        }
    }
}

/// How many candidates decide the arm: none is unresolved, one is exact,
/// more is a choice.
pub open spec fn arm_matches(r: Resolution) -> bool {
    &&& (r is Exact <==> candidates_view(r).len() == 1)
    &&& (r is Unresolved <==> candidates_view(r).len() == 0)
}

impl Resolution {
    /// The single ref, if there is exactly one.
    pub fn exact(&self) -> (r: Option<&Ref>)
        ensures
            match r {
                Some(x) => self is Exact && candidates_view(*self) == seq![x@],
                None => !(self is Exact),
            },
    {
        match self {
            Resolution::Exact(r) => Some(r),
            _ => None,
        }
    }

    /// Every candidate, however many there are.
    pub fn candidates(&self) -> (c: Vec<&Ref>)
        ensures
            c@.map_values(|x: &Ref| x@) == candidates_view(*self),
    {
        let mut out: Vec<&Ref> = Vec::new();
        match self {
            Resolution::Exact(r) => {
                out.push(r);
                assert(out@.map_values(|x: &Ref| x@) =~= seq![r@]);
            },
            Resolution::Ambiguous(rs) => {
                let mut i: usize = 0;
                while i < rs.len()
                    invariant
                        i <= rs.len(),
                        out@.map_values(|x: &Ref| x@) == rs@.map_values(|x: Ref| x@).take(i as int),
                    decreases rs.len() - i,
                {
                    let ghost before = out@.map_values(|x: &Ref| x@);
                    out.push(&rs[i]);
                    assert(out@.map_values(|x: &Ref| x@) =~= before.push(rs@[i as int]@));
                    assert(rs@.map_values(|x: Ref| x@).take(i + 1) =~= rs@.map_values(|x: Ref| x@).take(
                        i as int,
                    ).push(rs@[i as int]@));
                    i += 1;
                }
                assert(rs@.map_values(|x: Ref| x@).take(rs.len() as int) =~= rs@.map_values(
                    |x: Ref| x@,
                ));
            },
            Resolution::Unresolved => {
                assert(out@.map_values(|x: &Ref| x@) =~= Seq::<RefView>::empty());
            },
        }
        out
    }

    /// The resolution a list of candidates makes, each run of equal ones
    /// kept once.
    pub fn from_candidates(refs: Vec<Ref>) -> (r: Resolution)
        ensures
            candidates_view(r) == deduped(refs@.map_values(|x: Ref| x@)),
            arm_matches(r),
    {
        let ghost v = refs@.map_values(|x: Ref| x@);
        let mut out: Vec<Ref> = Vec::new();
        let mut i: usize = 0;
        while i < refs.len()
            invariant
                i <= refs.len(),
                v == refs@.map_values(|x: Ref| x@),
                out@.map_values(|x: Ref| x@) == deduped(v.take(i as int)),
            decreases refs.len() - i,
        {
            let ghost before = out@.map_values(|x: Ref| x@);
            assert(v.take(i + 1).drop_last() =~= v.take(i as int));
            assert(v[i as int] == refs@[i as int]@);
            let keep = out.len() == 0 || !out[out.len() - 1].same(&refs[i]);
            if out.len() > 0 {
                assert(before.last() == out@[out.len() - 1]@);
            }
            if keep {
                out.push(refs[i].copied());
                assert(out@.map_values(|x: Ref| x@) =~= before.push(v[i as int]));
            }
            i += 1;
        }
        assert(v.take(refs.len() as int) =~= v);
        if out.len() == 0 {
            assert(out@.map_values(|x: Ref| x@).len() == 0);
            return Resolution::Unresolved;
        }
        if out.len() == 1 {
            let r = out.pop().unwrap();
            assert(out@.len() == 0);
            return Resolution::Exact(r);
        }
        Resolution::Ambiguous(out)
    }
}

/// Where the reader currently is, for completing a partial citation: the
/// only context the resolver is allowed to use.
#[derive(Debug, Clone)]
pub struct Context {
    pub work: Option<Vec<String>>,
    pub address: Option<Address>,
}

impl Default for Context {
    fn default() -> (c: Context)
        ensures
            c.work is None,
            c.address is None,
    {
        Context { work: None, address: None }
    }
}

/// An address, and where the range ends if it is one.
pub type Span = (Seq<Seq<char>>, Option<Seq<Seq<char>>>);

/// The ref a work path and a span make.
pub open spec fn ref_for(path: Seq<Seq<char>>, sp: Option<Span>) -> RefView {
    match sp {
        Some((f, Some(t))) => (path, f, if f == t {
            None
        } else {
            Some(t)
        }),
        Some((f, None)) => (path, f, None),
        None => whole(path),
    }
}

/// A span with its start completed against where the reader stands.
pub open spec fn completed_span(sp: Option<Span>, here: Option<Seq<Seq<char>>>) -> Option<Span> {
    match (sp, here) {
        (Some((f, t)), Some(h)) => Some((completed(f, h), t)),
        _ => sp,
    }
}

/// The refs a span makes into each of the works a title means.
pub open spec fn refs_for(lex: LexView, found: Seq<usize>, sp: Option<Span>) -> Seq<RefView> {
    found.map_values(|i: usize| ref_for(split(lex.0[i as int].0, '/'), sp))
}

/// The first `take` words tried as a title: nothing when no work has that
/// title or what follows it is not an address.
pub open spec fn title_attempt(lex: LexView, ws: Seq<Seq<char>>, take: int, here: Option<Seq<Seq<char>>>) -> Option<Seq<RefView>> {
    let found = meanings(lex, normalized(join(ws.take(take), seq![' '])));
    let rest = join(ws.skip(take), seq![' ']);
    if found.len() == 0 {
        None
    } else if trim(rest).len() == 0 {
        Some(refs_for(lex, found, None))
    } else {
        match span_value(rest) {
            Some(sp) => Some(refs_for(lex, found, completed_span(Some(sp), here))),
            None => None,
        }
    }
}

/// Titles tried longest first, from `take` words down to one.
pub open spec fn titles_from(lex: LexView, ws: Seq<Seq<char>>, take: int, here: Option<Seq<Seq<char>>>) -> Option<Seq<RefView>>
    decreases take,
{
    if take < 1 {
        None
    } else {
        match title_attempt(lex, ws, take, here) {
            Some(r) => Some(r),
            None => titles_from(lex, ws, take - 1, here),
        }
    }
}

/// Every candidate a citation resolves to.
///
/// A canonical ref resolves to itself. Otherwise the longest title that
/// the lexicon knows and that leaves an address (or nothing) after it
/// decides, with one candidate per work it may mean. With no title, a bare
/// address completes against where the reader is standing, if anywhere.
pub open spec fn resolution(lex: LexView, citation: Seq<char>, work: Option<Seq<Seq<char>>>, here: Option<Seq<Seq<char>>>) -> Seq<RefView> {
    let c = trim(citation);
    let ws = words(c);
    let longest: int = if lex.2 > 1 {
        lex.2 as int
    } else {
        1
    };
    let max: int = if ws.len() < longest {
        ws.len() as int
    } else {
        longest
    };
    if c.len() == 0 {
        Seq::empty()
    } else if ref_value(c) is Ok {
        seq![ref_value(c)->Ok_0]
    } else if ws.len() == 0 {
        Seq::empty()
    } else {
        match titles_from(lex, ws, max, here) {
            Some(refs) => deduped(refs),
            None => match (work, here) {
                (Some(w), Some(h)) => match span_value(c) {
                    Some(sp) => seq![(w, completed(sp.0, h), None::<Seq<Seq<char>>>)],
                    None => Seq::empty(),
                },
                _ => Seq::empty(),
            },
        }
    }
}

pub open spec fn span_view(s: Option<(Address, Option<Address>)>) -> Option<Span> {
    match s {
        Some((f, t)) => Some((f@, opt_address(t))),
        None => None,
    }
}

pub open spec fn opt_strings(w: Option<Vec<String>>) -> Option<Seq<Seq<char>>> {
    match w {
        Some(v) => Some(strings(v@)),
        None => None,
    }
}

fn path_of(slug: &String) -> (p: Vec<String>)
    ensures
        strings(p@) == split(slug@, '/'),
{
    let v = chars_of(slug.as_str());
    let parts = split_char(v.as_slice(), '/');
    to_strings(&parts)
}

fn join_words(ws: &Vec<Vec<char>>, from: usize, to: usize) -> (r: Vec<char>)
    requires
        from <= to <= ws.len(),
    ensures
        r@ == join(texts(ws@).subrange(from as int, to as int), seq![' ']),
{
    let sep = vec![' '];
    assert(sep@ == seq![' ']);
    join_chars(ws.as_slice(), from, to, sep.as_slice())
}

fn attempt(lexicon: &Lexicon, ws: &Vec<Vec<char>>, take: usize, here: &Option<Address>) -> (r: Option<Vec<Ref>>)
    requires
        lexicon.wf(),
        1 <= take <= ws.len(),
    ensures
        match r {
            Some(v) => title_attempt(lexicon@, texts(ws@), take as int, opt_address(*here)) == Some(
                v@.map_values(|x: Ref| x@),
            ),
            None => title_attempt(lexicon@, texts(ws@), take as int, opt_address(*here)) is None,
        },
{
    let ghost w = texts(ws@);
    let title = join_words(ws, 0, take);
    assert(w.subrange(0, take as int) =~= w.take(take as int));
    let title_text = string_of(title.as_slice());
    let works = lexicon.lookup(title_text.as_str());
    let ghost found = meanings(lexicon@, normalized(title_text@));
    assert(title_text@ == join(w.take(take as int), seq![' ']));
    assert(works@.len() == works@.map_values(|x: &Work| work_view(*x)).len());
    assert(works@.len() == found.len());
    if works.len() == 0 {
        return None;
    }
    let rest = join_words(ws, take, ws.len());
    assert(w.subrange(take as int, ws.len() as int) =~= w.skip(take as int));
    let span: Option<(Address, Option<Address>)> = if is_blank(rest.as_slice()) {
        None
    } else {
        match parse_span(rest.as_slice()) {
            Some((from, to)) => match here {
                Some(h) => Some((from.completed_against(h), to)),
                None => Some((from, to)),
            },
            None => return None,
        }
    };
    let ghost sp: Option<Span> = span_view(span);
    assert(trim(rest@).len() == 0 ==> sp is None);
    let mut refs: Vec<Ref> = Vec::new();
    let mut k: usize = 0;
    while k < works.len()
        invariant
            k <= works.len(),
            works@.len() == found.len(),
            works@.map_values(|x: &Work| work_view(*x)) == found.map_values(|i: usize| lexicon@.0[i as int]),
            refs@.map_values(|x: Ref| x@) == refs_for(lexicon@, found, sp).take(k as int),
            sp == span_view(span),
        decreases works.len() - k,
    {
        assert(works@.map_values(|x: &Work| work_view(*x))[k as int] == work_view(*works@[k as int]));
        assert(work_view(*works@[k as int]) == lexicon@.0[found[k as int] as int]);
        let path = path_of(&works[k].slug);
        let ghost pv = strings(path@);
        assert(pv == split(lexicon@.0[found[k as int] as int].0, '/'));
        let r = match &span {
            Some((from, Some(to))) => Ref::span(path, from.copied(), to.copied()),
            Some((from, None)) => Ref::point(path, from.copied()),
            None => Ref::whole_work(path),
        };
        assert(r@ == ref_for(pv, sp));
        assert(refs_for(lexicon@, found, sp)[k as int] == ref_for(pv, sp));
        let ghost before = refs@.map_values(|x: Ref| x@);
        refs.push(r);
        assert(refs@.map_values(|x: Ref| x@) =~= before.push(refs_for(lexicon@, found, sp)[k as int]));
        assert(refs_for(lexicon@, found, sp).take(k + 1) =~= refs_for(lexicon@, found, sp).take(k as int).push(refs_for(lexicon@, found, sp)[k as int]));
        k += 1;
    }
    assert(refs_for(lexicon@, found, sp).take(works.len() as int) =~= refs_for(lexicon@, found, sp));
    Some(refs)
}

/// Resolve a citation as written.
pub fn resolve(lexicon: &Lexicon, citation: &str) -> (r: Resolution)
    requires
        lexicon.wf(),
    ensures
        candidates_view(r) == resolution(lexicon@, citation@, None, None),
        arm_matches(r),
{
    let context = Context::default();
    resolve_in_context(lexicon, citation, &context)
}

/// Resolve a citation, completing a partial one against where the reader
/// is: "see se'if 5" while standing in siman 121 means `121:5`.
pub fn resolve_in_context(lexicon: &Lexicon, citation: &str, context: &Context) -> (r: Resolution)
    requires
        lexicon.wf(),
    ensures
        candidates_view(r) == resolution(
            lexicon@,
            citation@,
            opt_strings(context.work),
            opt_address(context.address),
        ),
        arm_matches(r),
{
    let c = trim_chars(chars_of(citation).as_slice());
    if c.len() == 0 {
        return Resolution::Unresolved;
    }
    match Ref::parse_chars(c.as_slice()) {
        Ok(parsed) => {
            return Resolution::Exact(parsed);
        },
        Err(_) => {},
    }
    let ws = split_whitespace(c.as_slice());
    if ws.len() == 0 {
        return Resolution::Unresolved;
    }
    let longest = lexicon.longest_variant_words();
    let max = if ws.len() < longest {
        ws.len()
    } else {
        longest
    };
    let ghost here = opt_address(context.address);
    let mut take = max;
    proof {
        let longest_spec: int = if lexicon@.2 > 1 {
            lexicon@.2 as int
        } else {
            1
        };
        assert(longest == longest_spec);
    }
    while take >= 1
        invariant
            lexicon.wf(),
            c@ == trim(citation@),
            c@.len() > 0,
            ref_value(c@) is Err,
            texts(ws@) == words(c@),
            ws@.len() > 0,
            max == (if ws@.len() < longest {
                ws@.len() as int
            } else {
                longest as int
            }),
            longest == (if lexicon@.2 > 1 {
                lexicon@.2 as int
            } else {
                1
            }),
            take <= max <= ws.len(),
            here == opt_address(context.address),
            titles_from(lexicon@, texts(ws@), max as int, here) == titles_from(lexicon@, texts(ws@), take as int, here),
        decreases take,
    {
        match attempt(lexicon, &ws, take, &context.address) {
            Some(refs) => {
                return Resolution::from_candidates(refs);
            },
            None => {},
        }
        take -= 1;
    }
    if let (Some(work), Some(here)) = (&context.work, &context.address) {
        if let Some((partial, _)) = parse_span(c.as_slice()) {
            let r = Ref::point(copy_work(work), partial.completed_against(here));
            return Resolution::Exact(r);
        }
    }
    Resolution::Unresolved
}

fn copy_work(v: &Vec<String>) -> (r: Vec<String>)
    ensures
        strings(r@) == strings(v@),
{
    let mut r: Vec<String> = Vec::new();
    let mut i: usize = 0;
    while i < v.len()
        invariant
            i <= v.len(),
            strings(r@) == strings(v@).take(i as int),
        decreases v.len() - i,
    {
        let ghost before = strings(r@);
        r.push(v[i].clone());
        assert(strings(r@) =~= before.push(v@[i as int]@));
        assert(strings(v@).take(i + 1) =~= strings(v@).take(i as int).push(v@[i as int]@));
        i += 1;
    }
    assert(strings(v@).take(v.len() as int) =~= strings(v@));
    r
}

} // verus!
