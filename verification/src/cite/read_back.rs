//! The English style's levels, printed as they stand and read back as
//! they stand.
//!
//! An English citation prints an address as its levels joined by colons,
//! and the resolver takes that word apart at the colons again. This is
//! that half of the round trip, for the levels the English style prints
//! without translation: numbers, and dafim with their amud. The level
//! words the resolver drops are shown here to be no such level.
use vstd::prelude::*;

use crate::cite::spacing::{lemma_join_first, lemma_one_word};
use crate::cite::{printed_levels, CiteStyle};
use crate::hebrew::marks::{hebrew_letter, mark};
use crate::hebrew::normalize::{cleaned, folded, normal_words, normalized, runs};
use crate::refs::daf::{amud_alef, amud_beis, daf_value, english_daf};
use crate::refs::resolve::{
    address_step, address_walk, citation_address, label_token, pieces, section_word, token_level,
    tokens, SECTION_WORDS,
};
use crate::text::{decimal, is_digit, is_ws, join, parse_u32, trim};

verus! {

proof fn lemma_cleaned_head(s: Seq<char>)
    requires
        s.len() > 0,
        !mark(s[0]),
    ensures
        cleaned(s).len() > 0,
        cleaned(s)[0] == folded(s[0]),
    decreases s.len(),
{
    let d = s.drop_last();
    if s.len() > 1 {
        assert(d[0] == s[0]);
        lemma_cleaned_head(d);
        if !mark(s.last()) {
            assert(cleaned(d).push(folded(s.last()))[0] == cleaned(d)[0]);
        }
    } else {
        assert(d.len() == 0);
        assert(s.last() == s[0]);
        assert(cleaned(d) == Seq::<Option<char>>::empty());
        assert(cleaned(d).push(folded(s.last())) =~= seq![folded(s[0])]);
    }
}

proof fn lemma_runs_head(cl: Seq<Option<char>>)
    requires
        cl.len() > 0,
        cl[0] is Some,
    ensures
        runs(cl).len() > 0,
        runs(cl)[0].len() > 0,
        runs(cl)[0][0] == cl[0]->0,
    decreases cl.len(),
{
    let d = cl.drop_last();
    if cl.len() > 1 {
        assert(d[0] == cl[0]);
        lemma_runs_head(d);
        let p = runs(d);
        match cl.last() {
            None => {},
            Some(k) => {
                if cl.len() >= 2 && cl[cl.len() - 2] is Some && p.len() > 0 {
                    let q = p.update(p.len() - 1, p.last().push(k));
                    if p.len() - 1 == 0 {
                        assert(q[0] == p[0].push(k));
                    } else {
                        assert(q[0] == p[0]);
                    }
                } else {
                    assert(p.push(seq![k])[0] == p[0]);
                }
            },
        }
    } else {
        assert(cl.last() == cl[0]);
        assert(runs(d) == Seq::<Seq<char>>::empty());
    }
}

/// The normal form of a text starts with what its first character folds
/// to, when that character is kept.
proof fn lemma_normalized_head(s: Seq<char>)
    requires
        s.len() > 0,
        !mark(s[0]),
        folded(s[0]) is Some,
    ensures
        normalized(s).len() > 0,
        normalized(s)[0] == folded(s[0])->0,
{
    lemma_cleaned_head(s);
    lemma_runs_head(cleaned(s));
    lemma_join_first(normal_words(s), seq![' ']);
}

proof fn lemma_section_word_head(i: int)
    requires
        0 <= i < 45,
    ensures
        SECTION_WORDS[i]@.len() > 0,
        hebrew_letter(SECTION_WORDS[i]@[0]) || ('a' <= SECTION_WORDS[i]@[0] <= 'z'),
{
    reveal_strlit("סימן");
    reveal_strlit("סעיף");
    reveal_strlit("קטן");
    reveal_strlit("פרק");
    reveal_strlit("פסקה");
    reveal_strlit("פירוש");
    reveal_strlit("פרשנות");
    reveal_strlit("הלכה");
    reveal_strlit("הלכות");
    reveal_strlit("משנה");
    reveal_strlit("תוספתא");
    reveal_strlit("דף");
    reveal_strlit("עמוד");
    reveal_strlit("שורה");
    reveal_strlit("פסוק");
    reveal_strlit("פרשה");
    reveal_strlit("חלק");
    reveal_strlit("כרך");
    reveal_strlit("מצוה");
    reveal_strlit("דרוש");
    reveal_strlit("מאמר");
    reveal_strlit("כלל");
    reveal_strlit("תשובה");
    reveal_strlit("שורש");
    reveal_strlit("שער");
    reveal_strlit("אות");
    reveal_strlit("מזמור");
    reveal_strlit("רמז");
    reveal_strlit("נתיב");
    reveal_strlit("חדר");
    reveal_strlit("קובץ");
    reveal_strlit("פיוט");
    reveal_strlit("הדרן");
    reveal_strlit("סיפור");
    reveal_strlit("siman");
    reveal_strlit("seif");
    reveal_strlit("chapter");
    reveal_strlit("halakhah");
    reveal_strlit("halacha");
    reveal_strlit("daf");
    reveal_strlit("mishnah");
    reveal_strlit("verse");
    reveal_strlit("paragraph");
    reveal_strlit("comment");
    reveal_strlit("line");
    assert(i == 0 ==> SECTION_WORDS[i]@[0] == '\u{05E1}' && SECTION_WORDS[i]@.len() > 0);
    assert(i == 1 ==> SECTION_WORDS[i]@[0] == '\u{05E1}' && SECTION_WORDS[i]@.len() > 0);
    assert(i == 2 ==> SECTION_WORDS[i]@[0] == '\u{05E7}' && SECTION_WORDS[i]@.len() > 0);
    assert(i == 3 ==> SECTION_WORDS[i]@[0] == '\u{05E4}' && SECTION_WORDS[i]@.len() > 0);
    assert(i == 4 ==> SECTION_WORDS[i]@[0] == '\u{05E4}' && SECTION_WORDS[i]@.len() > 0);
    assert(i == 5 ==> SECTION_WORDS[i]@[0] == '\u{05E4}' && SECTION_WORDS[i]@.len() > 0);
    assert(i == 6 ==> SECTION_WORDS[i]@[0] == '\u{05E4}' && SECTION_WORDS[i]@.len() > 0);
    assert(i == 7 ==> SECTION_WORDS[i]@[0] == '\u{05D4}' && SECTION_WORDS[i]@.len() > 0);
    assert(i == 8 ==> SECTION_WORDS[i]@[0] == '\u{05D4}' && SECTION_WORDS[i]@.len() > 0);
    assert(i == 9 ==> SECTION_WORDS[i]@[0] == '\u{05DE}' && SECTION_WORDS[i]@.len() > 0);
    assert(i == 10 ==> SECTION_WORDS[i]@[0] == '\u{05EA}' && SECTION_WORDS[i]@.len() > 0);
    assert(i == 11 ==> SECTION_WORDS[i]@[0] == '\u{05D3}' && SECTION_WORDS[i]@.len() > 0);
    assert(i == 12 ==> SECTION_WORDS[i]@[0] == '\u{05E2}' && SECTION_WORDS[i]@.len() > 0);
    assert(i == 13 ==> SECTION_WORDS[i]@[0] == '\u{05E9}' && SECTION_WORDS[i]@.len() > 0);
    assert(i == 14 ==> SECTION_WORDS[i]@[0] == '\u{05E4}' && SECTION_WORDS[i]@.len() > 0);
    assert(i == 15 ==> SECTION_WORDS[i]@[0] == '\u{05E4}' && SECTION_WORDS[i]@.len() > 0);
    assert(i == 16 ==> SECTION_WORDS[i]@[0] == '\u{05D7}' && SECTION_WORDS[i]@.len() > 0);
    assert(i == 17 ==> SECTION_WORDS[i]@[0] == '\u{05DB}' && SECTION_WORDS[i]@.len() > 0);
    assert(i == 18 ==> SECTION_WORDS[i]@[0] == '\u{05DE}' && SECTION_WORDS[i]@.len() > 0);
    assert(i == 19 ==> SECTION_WORDS[i]@[0] == '\u{05D3}' && SECTION_WORDS[i]@.len() > 0);
    assert(i == 20 ==> SECTION_WORDS[i]@[0] == '\u{05DE}' && SECTION_WORDS[i]@.len() > 0);
    assert(i == 21 ==> SECTION_WORDS[i]@[0] == '\u{05DB}' && SECTION_WORDS[i]@.len() > 0);
    assert(i == 22 ==> SECTION_WORDS[i]@[0] == '\u{05EA}' && SECTION_WORDS[i]@.len() > 0);
    assert(i == 23 ==> SECTION_WORDS[i]@[0] == '\u{05E9}' && SECTION_WORDS[i]@.len() > 0);
    assert(i == 24 ==> SECTION_WORDS[i]@[0] == '\u{05E9}' && SECTION_WORDS[i]@.len() > 0);
    assert(i == 25 ==> SECTION_WORDS[i]@[0] == '\u{05D0}' && SECTION_WORDS[i]@.len() > 0);
    assert(i == 26 ==> SECTION_WORDS[i]@[0] == '\u{05DE}' && SECTION_WORDS[i]@.len() > 0);
    assert(i == 27 ==> SECTION_WORDS[i]@[0] == '\u{05E8}' && SECTION_WORDS[i]@.len() > 0);
    assert(i == 28 ==> SECTION_WORDS[i]@[0] == '\u{05E0}' && SECTION_WORDS[i]@.len() > 0);
    assert(i == 29 ==> SECTION_WORDS[i]@[0] == '\u{05D7}' && SECTION_WORDS[i]@.len() > 0);
    assert(i == 30 ==> SECTION_WORDS[i]@[0] == '\u{05E7}' && SECTION_WORDS[i]@.len() > 0);
    assert(i == 31 ==> SECTION_WORDS[i]@[0] == '\u{05E4}' && SECTION_WORDS[i]@.len() > 0);
    assert(i == 32 ==> SECTION_WORDS[i]@[0] == '\u{05D4}' && SECTION_WORDS[i]@.len() > 0);
    assert(i == 33 ==> SECTION_WORDS[i]@[0] == '\u{05E1}' && SECTION_WORDS[i]@.len() > 0);
    assert(i == 34 ==> SECTION_WORDS[i]@[0] == '\u{0073}' && SECTION_WORDS[i]@.len() > 0);
    assert(i == 35 ==> SECTION_WORDS[i]@[0] == '\u{0073}' && SECTION_WORDS[i]@.len() > 0);
    assert(i == 36 ==> SECTION_WORDS[i]@[0] == '\u{0063}' && SECTION_WORDS[i]@.len() > 0);
    assert(i == 37 ==> SECTION_WORDS[i]@[0] == '\u{0068}' && SECTION_WORDS[i]@.len() > 0);
    assert(i == 38 ==> SECTION_WORDS[i]@[0] == '\u{0068}' && SECTION_WORDS[i]@.len() > 0);
    assert(i == 39 ==> SECTION_WORDS[i]@[0] == '\u{0064}' && SECTION_WORDS[i]@.len() > 0);
    assert(i == 40 ==> SECTION_WORDS[i]@[0] == '\u{006D}' && SECTION_WORDS[i]@.len() > 0);
    assert(i == 41 ==> SECTION_WORDS[i]@[0] == '\u{0076}' && SECTION_WORDS[i]@.len() > 0);
    assert(i == 42 ==> SECTION_WORDS[i]@[0] == '\u{0070}' && SECTION_WORDS[i]@.len() > 0);
    assert(i == 43 ==> SECTION_WORDS[i]@[0] == '\u{0063}' && SECTION_WORDS[i]@.len() > 0);
    assert(i == 44 ==> SECTION_WORDS[i]@[0] == '\u{006C}' && SECTION_WORDS[i]@.len() > 0);
}

/// No level word reads as something that starts with a digit.
pub(crate) proof fn lemma_section_words_not_digits(key: Seq<char>)
    requires
        key.len() > 0,
        is_digit(key[0]),
    ensures
        !section_word(key),
{
    if section_word(key) {
        let i = choose|i: int| 0 <= i < 45 && normalized(SECTION_WORDS[i]@) == key;
        lemma_section_word_head(i);
        let w = SECTION_WORDS[i]@;
        lemma_normalized_head(w);
        assert(normalized(w)[0] == key[0]);
        assert(false);
    }
}

/// A level the English style prints as it is and the resolver reads as it
/// is: a number written the way numbers are written, or a daf of two or
/// more with its amud.
pub open spec fn plain_level(l: Seq<char>) -> bool {
    (parse_u32(l) matches Some(n) && decimal(n as nat) == l) || english_daf(l) == Some(l)
}

/// A character of a plain level: a digit, or the amud letter at its end.
pub open spec fn level_char(c: char) -> bool {
    is_digit(c) || c == 'a' || c == 'b'
}

pub(crate) proof fn lemma_plain_level_chars(l: Seq<char>)
    requires
        plain_level(l),
    ensures
        l.len() > 0,
        is_digit(l[0]),
        forall|i: int| 0 <= i < l.len() ==> level_char(#[trigger] l[i]),
        forall|i: int| 0 <= i < l.len() - 1 ==> is_digit(#[trigger] l[i]),
{
    if parse_u32(l) is Some && decimal(parse_u32(l)->Some_0 as nat) == l {
        let n = parse_u32(l)->Some_0;
        crate::text::lemma_decimal_digits(n as nat);
    } else {
        let amud = crate::text::ascii_lower(l.last());
        let m = parse_u32(trim(l.drop_last()))->Some_0;
        crate::text::lemma_decimal_digits(m as nat);
        let d = decimal(m as nat);
        assert(l == d.push(amud));
        assert forall|i: int| 0 <= i < l.len() implies level_char(#[trigger] l[i]) by {
            if i < d.len() {
                assert(l[i] == d[i]);
            }
        }
        assert forall|i: int| 0 <= i < l.len() - 1 implies is_digit(#[trigger] l[i]) by {
            assert(l[i] == d[i]);
        }
        assert(l[0] == d[0]);
    }
}

proof fn lemma_plain_level_normal(l: Seq<char>)
    requires
        plain_level(l),
    ensures
        normalized(l) == l,
{
    lemma_plain_level_chars(l);
    let ws = seq![l];
    assert forall|i: int, j: int| 0 <= i < ws.len() && 0 <= j < ws[i].len() implies crate::hebrew::normalize::normal_char(#[trigger] ws[i][j]) by {
        assert(ws[i] == l);
        assert(level_char(l[j]));
    }
    assert(crate::hebrew::normalize::normal_word_list(ws));
    crate::hebrew::normalize::lemma_runs_of_join(ws);
    assert(join(ws, seq![' ']) == l);
}

/// A plain level is read as a level, and as that level.
pub(crate) proof fn lemma_plain_level_reads(l: Seq<char>)
    requires
        plain_level(l),
    ensures
        trim(l) == l,
        !label_token(l),
        normalized(l) != amud_alef(),
        normalized(l) != amud_beis(),
        token_level(l) == Some(l),
{
    lemma_plain_level_chars(l);
    lemma_plain_level_normal(l);
    assert(level_char(l.last()));
    crate::text::lemma_trim_plain(l);
    assert(crate::refs::resolve::without_trailing_quotes(l) == l);
    lemma_section_words_not_digits(l);
    assert(amud_alef()[0] != l[0]);
    assert(amud_beis()[0] != l[0]);
    if parse_u32(l) is Some && decimal(parse_u32(l)->Some_0 as nat) == l {
        let n = parse_u32(l)->Some_0;
        assert(english_daf(l) is None) by {
            assert(is_digit(l.last()));
        }
        assert(!crate::text::ends_with(l, amud_alef())) by {
            if crate::text::ends_with(l, amud_alef()) {
                assert(l.skip(l.len() - 3)[2] == l.last());
            }
        }
        assert(!crate::text::ends_with(l, amud_beis())) by {
            if crate::text::ends_with(l, amud_beis()) {
                assert(l.skip(l.len() - 3)[2] == l.last());
            }
        }
        crate::text::lemma_rfind(l, ',');
        assert(crate::text::rfind(l, ',') is None);
        assert(daf_value(l) is None);
        crate::text::lemma_find(l, '"');
        assert(crate::text::find(l, '"') is None);
        assert(crate::refs::resolve::label_number(l) is None);
        assert(crate::refs::numerals::numeral_value(l) == Some(n));
    }
}

pub(crate) proof fn lemma_english_printed(sections: Seq<Seq<char>>, levels: Seq<Seq<char>>, k: int)
    requires
        0 <= k <= levels.len(),
        forall|i: int| 0 <= i < levels.len() ==> (#[trigger] levels[i]).len() > 0,
    ensures
        printed_levels(sections, levels, CiteStyle::English, k) == join(levels.take(k), seq![':']),
    decreases k,
{
    if k > 0 {
        lemma_english_printed(sections, levels, k - 1);
        assert(levels.take(k).drop_last() =~= levels.take(k - 1));
        assert(levels.take(k).last() == levels[k - 1]);
        let out = printed_levels(sections, levels, CiteStyle::English, k - 1);
        if k - 1 > 0 {
            lemma_join_first(levels.take(k - 1), seq![':']);
            assert(levels.take(k - 1)[0] == levels[0]);
        } else {
            assert(levels.take(0) =~= Seq::<Seq<char>>::empty());
        }
        assert(crate::cite::level_word(sections, k - 1, false) =~= Seq::<char>::empty());
        assert(Seq::<char>::empty() + levels[k - 1] =~= levels[k - 1]);
    } else {
        assert(levels.take(0) =~= Seq::<Seq<char>>::empty());
    }
}

proof fn lemma_pieces_len(x: Seq<char>)
    ensures
        pieces(x).len() >= 1,
    decreases x.len(),
{
    if x.len() > 0 {
        lemma_pieces_len(x.drop_last());
    }
}

proof fn lemma_pieces_append(x: Seq<char>, y: Seq<char>)
    requires
        forall|i: int| 0 <= i < y.len() ==> y[i] != ':' && y[i] != ',',
    ensures
        pieces(x + y) == pieces(x).update(pieces(x).len() - 1, pieces(x).last() + y),
        pieces(x + y).len() == pieces(x).len(),
    decreases y.len(),
{
    lemma_pieces_len(x);
    if y.len() == 0 {
        assert(x + y =~= x);
        assert(pieces(x).last() + y =~= pieces(x).last());
        assert(pieces(x).update(pieces(x).len() - 1, pieces(x).last()) =~= pieces(x));
    } else {
        let d = y.drop_last();
        assert forall|i: int| 0 <= i < d.len() implies d[i] != ':' && d[i] != ',' by {
            assert(d[i] == y[i]);
        }
        lemma_pieces_append(x, d);
        assert((x + y).drop_last() =~= x + d);
        assert((x + y).last() == y.last());
        let p = pieces(x + d);
        assert(p.last() == pieces(x).last() + d);
        assert((pieces(x).last() + d).push(y.last()) =~= pieces(x).last() + y);
        assert(p.update(p.len() - 1, p.last().push(y.last())) =~~= pieces(x).update(
            pieces(x).len() - 1,
            pieces(x).last() + y,
        ));
    }
}

proof fn lemma_pieces_of_join(ls: Seq<Seq<char>>)
    requires
        ls.len() > 0,
        forall|i: int, j: int| 0 <= i < ls.len() && 0 <= j < ls[i].len() ==> #[trigger] ls[i][j] != ':'
            && ls[i][j] != ',',
    ensures
        pieces(join(ls, seq![':'])) == ls,
    decreases ls.len(),
{
    let last = ls.last();
    assert forall|j: int| 0 <= j < last.len() implies last[j] != ':' && last[j] != ',' by {
        assert(ls[ls.len() - 1][j] == last[j]);
    }
    if ls.len() == 1 {
        lemma_pieces_append(Seq::empty(), last);
        assert(Seq::<char>::empty() + last =~= last);
        assert(join(ls, seq![':']) == last);
        assert(pieces(Seq::<char>::empty()) == seq![Seq::<char>::empty()]);
        assert(seq![Seq::<char>::empty()].update(0, Seq::<char>::empty() + last) =~= ls);
    } else {
        let d = ls.drop_last();
        assert forall|i: int, j: int| 0 <= i < d.len() && 0 <= j < d[i].len() implies #[trigger] d[i][j] != ':'
            && d[i][j] != ',' by {
            assert(d[i] == ls[i]);
        }
        lemma_pieces_of_join(d);
        let jd = join(d, seq![':']);
        let x = jd + seq![':'];
        assert(x.drop_last() =~= jd);
        assert(x.last() == ':');
        assert(pieces(x) == d.push(Seq::<char>::empty()));
        lemma_pieces_append(x, last);
        assert(join(ls, seq![':']) =~= x + last);
        assert(d.push(Seq::<char>::empty()).update(d.len() as int, Seq::<char>::empty() + last) =~= ls);
    }
}

proof fn lemma_nonempty_all(ls: Seq<Seq<char>>)
    requires
        forall|i: int| 0 <= i < ls.len() ==> (#[trigger] ls[i]).len() > 0,
    ensures
        crate::refs::resolve::nonempty(ls) == ls,
    decreases ls.len(),
{
    if ls.len() > 0 {
        let d = ls.drop_last();
        assert forall|i: int| 0 <= i < d.len() implies (#[trigger] d[i]).len() > 0 by {
            assert(d[i] == ls[i]);
        }
        lemma_nonempty_all(d);
        assert(ls[ls.len() - 1] == ls.last());
        assert(d.push(ls.last()) =~= ls);
    }
}

proof fn lemma_walk_plain(t: Seq<Seq<char>>, k: int)
    requires
        0 <= k <= t.len(),
        forall|i: int| 0 <= i < t.len() ==> plain_level(#[trigger] t[i]),
    ensures
        address_walk(t, k) == (t.take(k), Seq::<Seq<char>>::empty(), true),
    decreases k,
{
    if k > 0 {
        lemma_walk_plain(t, k - 1);
        reveal(address_step);
        assert(plain_level(t[k - 1]));
        lemma_plain_level_reads(t[k - 1]);
        lemma_plain_level_chars(t[k - 1]);
        assert(t.take(k - 1).push(t[k - 1]) =~= t.take(k));
    } else {
        assert(t.take(0) =~= Seq::<Seq<char>>::empty());
    }
}

/// Plain levels joined by colons, as the English style prints an address,
/// read back as those levels.
pub(crate) proof fn lemma_english_address(levels: Seq<Seq<char>>)
    requires
        levels.len() > 0,
        forall|i: int| 0 <= i < levels.len() ==> plain_level(#[trigger] levels[i]),
    ensures
        citation_address(join(levels, seq![':'])) == Some(levels),
{
    let a = join(levels, seq![':']);
    assert forall|i: int| 0 <= i < levels.len() implies (#[trigger] levels[i]).len() > 0 by {
        lemma_plain_level_chars(levels[i]);
    }
    assert forall|i: int, j: int| 0 <= i < levels.len() && 0 <= j < levels[i].len() implies #[trigger] levels[i][j]
        != ':' && levels[i][j] != ',' && levels[i][j] != '-' && !is_ws(levels[i][j]) && levels[i][j] != '.' by {
        lemma_plain_level_chars(levels[i]);
        assert(level_char(levels[i][j]));
    }
    lemma_pieces_of_join(levels);
    lemma_nonempty_all(levels);
    lemma_join_chars(levels);
    assert(a.len() > 0);
    lemma_one_word(a);
    let last = levels.last();
    lemma_plain_level_chars(last);
    assert(level_char(last.last()));
    assert(a.last() == last.last());
    assert(crate::refs::resolve::word_tokens(a) == levels);
    assert(seq![a].drop_last() =~= Seq::<Seq<char>>::empty());
    assert(seq![a].last() == a);
    assert(crate::refs::resolve::all_tokens(Seq::<Seq<char>>::empty()) == Seq::<Seq<char>>::empty());
    assert(crate::refs::resolve::all_tokens(seq![a]) =~= crate::refs::resolve::word_tokens(a));
    assert(tokens(a) == levels);
    lemma_walk_plain(levels, levels.len() as int);
    assert(levels.take(levels.len() as int) =~= levels);
    assert(citation_address(a) == Some(levels));
}

/// Every character of the join is a level's character or a colon.
pub(crate) proof fn lemma_join_chars(levels: Seq<Seq<char>>)
    requires
        levels.len() > 0,
        forall|i: int| 0 <= i < levels.len() ==> (#[trigger] levels[i]).len() > 0,
        forall|i: int, j: int| 0 <= i < levels.len() && 0 <= j < levels[i].len() ==> #[trigger] levels[i][j]
            != '-' && !is_ws(levels[i][j]),
    ensures
        join(levels, seq![':']).len() > 0,
        join(levels, seq![':']).last() == levels.last().last(),
        forall|k: int| 0 <= k < join(levels, seq![':']).len() ==> #[trigger] join(levels, seq![':'])[k] != '-'
            && !is_ws(join(levels, seq![':'])[k]),
    decreases levels.len(),
{
    let a = join(levels, seq![':']);
    let last = levels.last();
    assert(levels[levels.len() - 1] == last);
    if levels.len() == 1 {
        assert(a == last);
        assert forall|k: int| 0 <= k < a.len() implies #[trigger] a[k] != '-' && !is_ws(a[k]) by {
            assert(levels[0][k] == a[k]);
        }
    } else {
        let d = levels.drop_last();
        assert forall|i: int| 0 <= i < d.len() implies (#[trigger] d[i]).len() > 0 by {
            assert(d[i] == levels[i]);
        }
        assert forall|i: int, j: int| 0 <= i < d.len() && 0 <= j < d[i].len() implies #[trigger] d[i][j] != '-'
            && !is_ws(d[i][j]) by {
            assert(d[i] == levels[i]);
        }
        lemma_join_chars(d);
        let jd = join(d, seq![':']);
        assert(a == jd + seq![':'] + last);
        assert forall|k: int| 0 <= k < a.len() implies #[trigger] a[k] != '-' && !is_ws(a[k]) by {
            if k < jd.len() {
                assert(a[k] == jd[k]);
            } else if k > jd.len() {
                assert(a[k] == last[k - jd.len() - 1]);
                assert(levels[levels.len() - 1][k - jd.len() - 1] == a[k]);
            }
        }
    }
}

} // verus!
