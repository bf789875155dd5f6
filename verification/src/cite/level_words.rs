//! What the level words are, letter by letter: none of them holds a quote
//! mark, none is a single letter, and only one of them, `רמז`, is a number
//! written in letters.
use vstd::prelude::*;

use crate::hebrew::marks::{final_folded, hebrew_letter, mark};
use crate::hebrew::normalize::{cleaned, folded, lemma_runs_extend, normalized, runs};
use crate::refs::numerals::{bare, descending, letter_value, total, values};
use crate::refs::resolve::{section_word, SECTION_WORDS};
use crate::text::join;

verus! {

/// A letter of a level word: Hebrew, or lower-case Latin.
pub open spec fn word_letter(c: char) -> bool {
    hebrew_letter(c) || ('a' <= c && c <= 'z')
}

/// What a letter of a level word folds to.
pub open spec fn letter_folded(c: char) -> char {
    if hebrew_letter(c) {
        final_folded(c)
    } else {
        c
    }
}

proof fn lemma_cleaned_letters(s: Seq<char>)
    requires
        forall|j: int| 0 <= j < s.len() ==> word_letter(#[trigger] s[j]),
    ensures
        cleaned(s) == s.map_values(|c: char| Some(letter_folded(c))),
    decreases s.len(),
{
    if s.len() > 0 {
        let d = s.drop_last();
        assert forall|j: int| 0 <= j < d.len() implies word_letter(#[trigger] d[j]) by {
            assert(d[j] == s[j]);
        }
        lemma_cleaned_letters(d);
        assert(word_letter(s[s.len() - 1]));
        assert(!mark(s.last()));
        assert(folded(s.last()) == Some(letter_folded(s.last())));
        assert(s.map_values(|c: char| Some(letter_folded(c))) =~= d.map_values(
            |c: char| Some(letter_folded(c)),
        ).push(Some(letter_folded(s.last()))));
    }
}

/// A word of letters normalizes letter by letter.
pub proof fn lemma_normalized_letters(s: Seq<char>)
    requires
        s.len() > 0,
        forall|j: int| 0 <= j < s.len() ==> word_letter(#[trigger] s[j]),
    ensures
        normalized(s) == s.map_values(|c: char| letter_folded(c)),
{
    lemma_cleaned_letters(s);
    let w = s.map_values(|c: char| letter_folded(c));
    assert(w.map_values(|c: char| Some(c)) =~= s.map_values(|c: char| Some(letter_folded(c))));
    lemma_runs_extend(Seq::<Option<char>>::empty(), w);
    assert(Seq::<Option<char>>::empty() + w.map_values(|c: char| Some(c)) =~= w.map_values(
        |c: char| Some(c),
    ));
    assert(runs(Seq::<Option<char>>::empty()) == Seq::<Seq<char>>::empty());
    assert(Seq::<Seq<char>>::empty().push(w) =~= seq![w]);
    assert(join(seq![w], seq![' ']) == w);
}

/// A level word's shape: two letters or more, every one a letter.
pub open spec fn word_shape(w: Seq<char>) -> bool {
    w.len() >= 2 && forall|j: int| 0 <= j < w.len() ==> word_letter(#[trigger] w[j])
}

/// Where a word's letters, read as numbers, go up: no number written in
/// letters does that.
pub open spec fn rises(w: Seq<char>, p: int) -> bool {
    &&& 0 <= p
    &&& p + 1 < w.len()
    &&& letter_value(letter_folded(w[p])) is Some
    &&& letter_value(letter_folded(w[p + 1])) is Some
    &&& letter_value(letter_folded(w[p])).unwrap() < letter_value(letter_folded(w[p + 1])).unwrap()
}
proof fn lemma_level_words_0_to_12(i: int)
    requires
        0 <= i < 12,
    ensures
        word_shape(SECTION_WORDS[i]@),
        i < 34 && i != 12 && i != 27 ==> exists|p: int| rises(SECTION_WORDS[i]@, p),
        i >= 34 ==> forall|j: int| 0 <= j < SECTION_WORDS[i]@.len() ==> 'a' <= #[trigger] SECTION_WORDS[i]@[j] <= 'z',
{
    reveal_strlit("סימן");
    reveal_strlit("סעיף");
    reveal_strlit("קטן");
    reveal_strlit("פרק");
    reveal_strlit("פסקה");
    reveal_strlit("פירוש");
    reveal_strlit("פרשנות");
    reveal_strlit("הלכה");
    reveal_strlit("הלכות");
    reveal_strlit("משנה");
    reveal_strlit("תוספתא");
    reveal_strlit("דף");
    if i == 0 {
        let w = SECTION_WORDS[i]@;
        assert(w =~= seq!['\u{05E1}', '\u{05D9}', '\u{05DE}', '\u{05DF}']);
        assert(rises(w, 1));
    }
    if i == 1 {
        let w = SECTION_WORDS[i]@;
        assert(w =~= seq!['\u{05E1}', '\u{05E2}', '\u{05D9}', '\u{05E3}']);
        assert(rises(w, 0));
    }
    if i == 2 {
        let w = SECTION_WORDS[i]@;
        assert(w =~= seq!['\u{05E7}', '\u{05D8}', '\u{05DF}']);
        assert(rises(w, 1));
    }
    if i == 3 {
        let w = SECTION_WORDS[i]@;
        assert(w =~= seq!['\u{05E4}', '\u{05E8}', '\u{05E7}']);
        assert(rises(w, 0));
    }
    if i == 4 {
        let w = SECTION_WORDS[i]@;
        assert(w =~= seq!['\u{05E4}', '\u{05E1}', '\u{05E7}', '\u{05D4}']);
        assert(rises(w, 1));
    }
    if i == 5 {
        let w = SECTION_WORDS[i]@;
        assert(w =~= seq!['\u{05E4}', '\u{05D9}', '\u{05E8}', '\u{05D5}', '\u{05E9}']);
        assert(rises(w, 1));
    }
    if i == 6 {
        let w = SECTION_WORDS[i]@;
        assert(w =~= seq!['\u{05E4}', '\u{05E8}', '\u{05E9}', '\u{05E0}', '\u{05D5}', '\u{05EA}']);
        assert(rises(w, 0));
    }
    if i == 7 {
        let w = SECTION_WORDS[i]@;
        assert(w =~= seq!['\u{05D4}', '\u{05DC}', '\u{05DB}', '\u{05D4}']);
        assert(rises(w, 0));
    }
    if i == 8 {
        let w = SECTION_WORDS[i]@;
        assert(w =~= seq!['\u{05D4}', '\u{05DC}', '\u{05DB}', '\u{05D5}', '\u{05EA}']);
        assert(rises(w, 0));
    }
    if i == 9 {
        let w = SECTION_WORDS[i]@;
        assert(w =~= seq!['\u{05DE}', '\u{05E9}', '\u{05E0}', '\u{05D4}']);
        assert(rises(w, 0));
    }
    if i == 10 {
        let w = SECTION_WORDS[i]@;
        assert(w =~= seq!['\u{05EA}', '\u{05D5}', '\u{05E1}', '\u{05E4}', '\u{05EA}', '\u{05D0}']);
        assert(rises(w, 1));
    }
    if i == 11 {
        let w = SECTION_WORDS[i]@;
        assert(w =~= seq!['\u{05D3}', '\u{05E3}']);
        assert(rises(w, 0));
    }
}

proof fn lemma_level_words_12_to_24(i: int)
    requires
        12 <= i < 24,
    ensures
        word_shape(SECTION_WORDS[i]@),
        i < 34 && i != 12 && i != 27 ==> exists|p: int| rises(SECTION_WORDS[i]@, p),
        i >= 34 ==> forall|j: int| 0 <= j < SECTION_WORDS[i]@.len() ==> 'a' <= #[trigger] SECTION_WORDS[i]@[j] <= 'z',
{
    reveal_strlit("עמוד");
    reveal_strlit("שורה");
    reveal_strlit("פסוק");
    reveal_strlit("פרשה");
    reveal_strlit("חלק");
    reveal_strlit("כרך");
    reveal_strlit("מצוה");
    reveal_strlit("דרוש");
    reveal_strlit("מאמר");
    reveal_strlit("כלל");
    reveal_strlit("תשובה");
    reveal_strlit("שורש");
    if i == 12 {
        let w = SECTION_WORDS[i]@;
        assert(w =~= seq!['\u{05E2}', '\u{05DE}', '\u{05D5}', '\u{05D3}']);
    }
    if i == 13 {
        let w = SECTION_WORDS[i]@;
        assert(w =~= seq!['\u{05E9}', '\u{05D5}', '\u{05E8}', '\u{05D4}']);
        assert(rises(w, 1));
    }
    if i == 14 {
        let w = SECTION_WORDS[i]@;
        assert(w =~= seq!['\u{05E4}', '\u{05E1}', '\u{05D5}', '\u{05E7}']);
        assert(rises(w, 2));
    }
    if i == 15 {
        let w = SECTION_WORDS[i]@;
        assert(w =~= seq!['\u{05E4}', '\u{05E8}', '\u{05E9}', '\u{05D4}']);
        assert(rises(w, 0));
    }
    if i == 16 {
        let w = SECTION_WORDS[i]@;
        assert(w =~= seq!['\u{05D7}', '\u{05DC}', '\u{05E7}']);
        assert(rises(w, 0));
    }
    if i == 17 {
        let w = SECTION_WORDS[i]@;
        assert(w =~= seq!['\u{05DB}', '\u{05E8}', '\u{05DA}']);
        assert(rises(w, 0));
    }
    if i == 18 {
        let w = SECTION_WORDS[i]@;
        assert(w =~= seq!['\u{05DE}', '\u{05E6}', '\u{05D5}', '\u{05D4}']);
        assert(rises(w, 0));
    }
    if i == 19 {
        let w = SECTION_WORDS[i]@;
        assert(w =~= seq!['\u{05D3}', '\u{05E8}', '\u{05D5}', '\u{05E9}']);
        assert(rises(w, 0));
    }
    if i == 20 {
        let w = SECTION_WORDS[i]@;
        assert(w =~= seq!['\u{05DE}', '\u{05D0}', '\u{05DE}', '\u{05E8}']);
        assert(rises(w, 1));
    }
    if i == 21 {
        let w = SECTION_WORDS[i]@;
        assert(w =~= seq!['\u{05DB}', '\u{05DC}', '\u{05DC}']);
        assert(rises(w, 0));
    }
    if i == 22 {
        let w = SECTION_WORDS[i]@;
        assert(w =~= seq!['\u{05EA}', '\u{05E9}', '\u{05D5}', '\u{05D1}', '\u{05D4}']);
        assert(rises(w, 3));
    }
    if i == 23 {
        let w = SECTION_WORDS[i]@;
        assert(w =~= seq!['\u{05E9}', '\u{05D5}', '\u{05E8}', '\u{05E9}']);
        assert(rises(w, 1));
    }
}

proof fn lemma_level_words_24_to_34(i: int)
    requires
        24 <= i < 34,
    ensures
        word_shape(SECTION_WORDS[i]@),
        i < 34 && i != 12 && i != 27 ==> exists|p: int| rises(SECTION_WORDS[i]@, p),
        i >= 34 ==> forall|j: int| 0 <= j < SECTION_WORDS[i]@.len() ==> 'a' <= #[trigger] SECTION_WORDS[i]@[j] <= 'z',
{
    reveal_strlit("שער");
    reveal_strlit("אות");
    reveal_strlit("מזמור");
    reveal_strlit("רמז");
    reveal_strlit("נתיב");
    reveal_strlit("חדר");
    reveal_strlit("קובץ");
    reveal_strlit("פיוט");
    reveal_strlit("הדרן");
    reveal_strlit("סיפור");
    if i == 24 {
        let w = SECTION_WORDS[i]@;
        assert(w =~= seq!['\u{05E9}', '\u{05E2}', '\u{05E8}']);
        assert(rises(w, 1));
    }
    if i == 25 {
        let w = SECTION_WORDS[i]@;
        assert(w =~= seq!['\u{05D0}', '\u{05D5}', '\u{05EA}']);
        assert(rises(w, 0));
    }
    if i == 26 {
        let w = SECTION_WORDS[i]@;
        assert(w =~= seq!['\u{05DE}', '\u{05D6}', '\u{05DE}', '\u{05D5}', '\u{05E8}']);
        assert(rises(w, 1));
    }
    if i == 27 {
        let w = SECTION_WORDS[i]@;
        assert(w =~= seq!['\u{05E8}', '\u{05DE}', '\u{05D6}']);
    }
    if i == 28 {
        let w = SECTION_WORDS[i]@;
        assert(w =~= seq!['\u{05E0}', '\u{05EA}', '\u{05D9}', '\u{05D1}']);
        assert(rises(w, 0));
    }
    if i == 29 {
        let w = SECTION_WORDS[i]@;
        assert(w =~= seq!['\u{05D7}', '\u{05D3}', '\u{05E8}']);
        assert(rises(w, 1));
    }
    if i == 30 {
        let w = SECTION_WORDS[i]@;
        assert(w =~= seq!['\u{05E7}', '\u{05D5}', '\u{05D1}', '\u{05E5}']);
        assert(rises(w, 2));
    }
    if i == 31 {
        let w = SECTION_WORDS[i]@;
        assert(w =~= seq!['\u{05E4}', '\u{05D9}', '\u{05D5}', '\u{05D8}']);
        assert(rises(w, 2));
    }
    if i == 32 {
        let w = SECTION_WORDS[i]@;
        assert(w =~= seq!['\u{05D4}', '\u{05D3}', '\u{05E8}', '\u{05DF}']);
        assert(rises(w, 1));
    }
    if i == 33 {
        let w = SECTION_WORDS[i]@;
        assert(w =~= seq!['\u{05E1}', '\u{05D9}', '\u{05E4}', '\u{05D5}', '\u{05E8}']);
        assert(rises(w, 1));
    }
}

proof fn lemma_level_words_34_to_45(i: int)
    requires
        34 <= i < 45,
    ensures
        word_shape(SECTION_WORDS[i]@),
        i < 34 && i != 12 && i != 27 ==> exists|p: int| rises(SECTION_WORDS[i]@, p),
        i >= 34 ==> forall|j: int| 0 <= j < SECTION_WORDS[i]@.len() ==> 'a' <= #[trigger] SECTION_WORDS[i]@[j] <= 'z',
{
    reveal_strlit("siman");
    reveal_strlit("seif");
    reveal_strlit("chapter");
    reveal_strlit("halakhah");
    reveal_strlit("halacha");
    reveal_strlit("daf");
    reveal_strlit("mishnah");
    reveal_strlit("verse");
    reveal_strlit("paragraph");
    reveal_strlit("comment");
    reveal_strlit("line");
    if i == 34 {
        let w = SECTION_WORDS[i]@;
        assert(w =~= seq!['\u{0073}', '\u{0069}', '\u{006D}', '\u{0061}', '\u{006E}']);
    }
    if i == 35 {
        let w = SECTION_WORDS[i]@;
        assert(w =~= seq!['\u{0073}', '\u{0065}', '\u{0069}', '\u{0066}']);
    }
    if i == 36 {
        let w = SECTION_WORDS[i]@;
        assert(w =~= seq!['\u{0063}', '\u{0068}', '\u{0061}', '\u{0070}', '\u{0074}', '\u{0065}', '\u{0072}']);
    }
    if i == 37 {
        let w = SECTION_WORDS[i]@;
        assert(w =~= seq!['\u{0068}', '\u{0061}', '\u{006C}', '\u{0061}', '\u{006B}', '\u{0068}', '\u{0061}', '\u{0068}']);
    }
    if i == 38 {
        let w = SECTION_WORDS[i]@;
        assert(w =~= seq!['\u{0068}', '\u{0061}', '\u{006C}', '\u{0061}', '\u{0063}', '\u{0068}', '\u{0061}']);
    }
    if i == 39 {
        let w = SECTION_WORDS[i]@;
        assert(w =~= seq!['\u{0064}', '\u{0061}', '\u{0066}']);
    }
    if i == 40 {
        let w = SECTION_WORDS[i]@;
        assert(w =~= seq!['\u{006D}', '\u{0069}', '\u{0073}', '\u{0068}', '\u{006E}', '\u{0061}', '\u{0068}']);
    }
    if i == 41 {
        let w = SECTION_WORDS[i]@;
        assert(w =~= seq!['\u{0076}', '\u{0065}', '\u{0072}', '\u{0073}', '\u{0065}']);
    }
    if i == 42 {
        let w = SECTION_WORDS[i]@;
        assert(w =~= seq!['\u{0070}', '\u{0061}', '\u{0072}', '\u{0061}', '\u{0067}', '\u{0072}', '\u{0061}', '\u{0070}', '\u{0068}']);
    }
    if i == 43 {
        let w = SECTION_WORDS[i]@;
        assert(w =~= seq!['\u{0063}', '\u{006F}', '\u{006D}', '\u{006D}', '\u{0065}', '\u{006E}', '\u{0074}']);
    }
    if i == 44 {
        let w = SECTION_WORDS[i]@;
        assert(w =~= seq!['\u{006C}', '\u{0069}', '\u{006E}', '\u{0065}']);
    }
}

proof fn lemma_level_word_facts(i: int)
    requires
        0 <= i < 45,
    ensures
        word_shape(SECTION_WORDS[i]@),
        i < 34 && i != 12 && i != 27 ==> exists|p: int| rises(SECTION_WORDS[i]@, p),
        i >= 34 ==> forall|j: int| 0 <= j < SECTION_WORDS[i]@.len() ==> 'a' <= #[trigger] SECTION_WORDS[i]@[j] <= 'z',
{
    if i < 12 {
        lemma_level_words_0_to_12(i);
    } else if i < 24 {
        lemma_level_words_12_to_24(i);
    } else if i < 34 {
        lemma_level_words_24_to_34(i);
    } else {
        lemma_level_words_34_to_45(i);
    }
}

/// A level word, normalized, is two letters or more and holds no quote
/// mark.
pub proof fn lemma_level_word_shape(key: Seq<char>)
    requires
        section_word(key),
    ensures
        key.len() >= 2,
        forall|j: int| 0 <= j < key.len() ==> #[trigger] key[j] != '\'' && key[j] != '"',
{
    let i = choose|i: int| 0 <= i < 45 && normalized(SECTION_WORDS[i]@) == key;
    let w = SECTION_WORDS[i]@;
    lemma_level_word_facts(i);
    lemma_normalized_letters(w);
    assert forall|j: int| 0 <= j < key.len() implies #[trigger] key[j] != '\'' && key[j] != '"' by {
        assert(key[j] == letter_folded(w[j]));
        assert(word_letter(w[j]));
    }
}

/// Of the level words, only `רמז` is a number written in letters: 247.
pub proof fn lemma_level_word_not_a_number(key: Seq<char>, d: nat)
    requires
        section_word(key),
        d > 0,
        key == bare(d),
    ensures
        d == 247,
{
    let i = choose|i: int| 0 <= i < 45 && normalized(SECTION_WORDS[i]@) == key;
    let w = SECTION_WORDS[i]@;
    lemma_level_word_facts(i);
    lemma_normalized_letters(w);
    crate::refs::numerals::lemma_bare_letters(d);
    crate::refs::numerals::lemma_bare_reads_back(d);
    assert(key[0] == letter_folded(w[0]));
    if i >= 34 {
        assert('a' <= w[0] <= 'z');
        assert(crate::refs::numerals::numeral_letter(key[0]));
        assert(false);
    } else if i == 12 || i == 27 {
        reveal_strlit("עמוד");
        reveal_strlit("רמז");
        let v = values(key);
        reveal_with_fuel(total, 5);
        if i == 12 {
            assert(w =~= seq!['\u{05E2}', '\u{05DE}', '\u{05D5}', '\u{05D3}']);
            assert(key =~= w);
            assert(v =~= seq![70u32, 40u32, 6u32, 4u32]);
            assert(d == 120);
            assert(bare(0) == Seq::<char>::empty());
            assert(bare(20) =~= seq!['\u{05DB}']);
            assert(bare(120).len() == 2);
            assert(false);
        } else {
            assert(w =~= seq!['\u{05E8}', '\u{05DE}', '\u{05D6}']);
            assert(key =~= w);
            assert(v =~= seq![200u32, 40u32, 7u32]);
        }
    } else {
        let p = choose|p: int| rises(w, p);
        let v = values(key);
        assert(v[p] == letter_value(letter_folded(w[p])).unwrap());
        assert(v[p + 1] == letter_value(letter_folded(w[p + 1])).unwrap());
        assert(descending(v));
        assert(v[p + 1] <= v[p]);
        assert(false);
    }
}

} // verus!
