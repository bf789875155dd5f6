//! Which levels the Hebrew styles print in a form the resolver reads back
//! as the same level, and the proof that they do.
//!
//! A number is printed in letters, and a few numbers' letters read as
//! something else: `מ"א` (41) as the label `מ` before 1, `פ'` (80) as the
//! abbreviation of perek, and anything ending in `ע"א` or `ע"ב` (71, 72) as
//! an amud. A daf is printed as its letters and a mark, and the letters of
//! 247, `רמז`, are a level word.
use vstd::prelude::*;

use crate::cite::level_words::{lemma_level_word_not_a_number, lemma_level_word_shape};
use crate::cite::printed::{reads_alone, reads_as, token_shaped};
use crate::cite::read_back::{
    lemma_plain_level_chars, lemma_plain_level_reads, lemma_section_words_not_digits, plain_level,
};
use crate::cite::{written_level, CiteStyle};
use crate::hebrew::normalize::{normal_char, normalized};
use crate::refs::numerals::{
    bare, greatest, in_digits, lemma_bare_letters, lemma_bare_reads_back, lemma_numeral_letter_normal,
    lemma_find_at, lemma_numeral_round_trip, lemma_one_word_normal, marked, numeral_letter,
    total, values, writing_letter, written,
};
use crate::refs::resolve::{
    label_letter, label_number, label_token, section_abbreviation, token_level, section_word, without_trailing_quotes,
    SECTION_ABBREVIATIONS,
};
use crate::refs::daf::{
    amud_alef, amud_beis, amud_split, canonical_daf, daf_letters, daf_value, english_daf,
    lemma_daf_round_trip, printed_daf,
};
use crate::text::{
    decimal, ends_with, find, is_digit, is_ws, lemma_decimal_digits, lemma_decimal_parses, lemma_find,
    lemma_rfind, parse_u32, rfind, trim,
};

verus! {

/// A number whose value is the largest letter not above it is one letter.
proof fn lemma_bare_one_letter(n: nat)
    requires
        1 <= n,
        n != 15 && n != 16,
        greatest(n) == n,
    ensures
        bare(n) == seq![writing_letter(n)],
{
    assert(bare(0) == Seq::<char>::empty());
    assert(seq![writing_letter(n)] + Seq::<char>::empty() =~= seq![writing_letter(n)]);
}

/// Below ten, a number is one letter, and which letter says which number.
proof fn lemma_bare_unit(r: nat)
    requires
        1 <= r <= 9,
    ensures
        bare(r) == seq![writing_letter(r)],
        writing_letter(r) == '\u{05D0}' ==> r == 1,
        writing_letter(r) == '\u{05D1}' ==> r == 2,
{
    lemma_bare_one_letter(r);
}

/// A number's letters that end in `עא` or `עב` belong to a number ending
/// in 71 or 72.
pub proof fn lemma_bare_ends_in_amud(n: nat)
    requires
        n >= 1,
        bare(n).len() >= 2,
        bare(n)[bare(n).len() - 2] == '\u{05E2}',
        bare(n).last() == '\u{05D0}' || bare(n).last() == '\u{05D1}',
    ensures
        n % 100 == 71 || n % 100 == 72,
    decreases n,
{
    let b = bare(n);
    if n == 15 || n == 16 {
        assert(b[0] == '\u{05D8}');
        assert(b.len() == 2);
        assert(false);
    } else {
        let g = greatest(n);
        let r = (n - g) as nat;
        let t = bare(r);
        assert(b == seq![writing_letter(g)] + t);
        if t.len() >= 2 {
            assert(t[t.len() - 2] == b[b.len() - 2]);
            assert(t.last() == b.last());
            assert(r >= 10) by {
                if r < 10 {
                    if r >= 1 {
                        lemma_bare_unit(r);
                    } else {
                        assert(t == Seq::<char>::empty());
                    }
                }
            }
            lemma_bare_ends_in_amud(r);
            assert(g >= 100);
        } else if t.len() == 1 {
            assert(b[0] == writing_letter(g));
            assert(g == 70);
            assert(1 <= r <= 9) by {
                if r == 0 {
                    assert(t == Seq::<char>::empty());
                }
            }
            lemma_bare_unit(r);
            assert(t[0] == b.last());
        } else {
            assert(b.len() == 1);
        }
    }
}

/// A number of two letters whose first letter labels a level is in the
/// forties, sixties or eighties.
pub proof fn lemma_bare_label_head(n: nat)
    requires
        n >= 1,
        bare(n).len() == 2,
        label_letter(bare(n)[0]),
    ensures
        (41 <= n <= 49) || (61 <= n <= 69) || (81 <= n <= 89),
{
    let b = bare(n);
    if n == 15 || n == 16 {
        assert(b[0] == '\u{05D8}');
    } else {
        let g = greatest(n);
        let r = (n - g) as nat;
        assert(b == seq![writing_letter(g)] + bare(r));
        assert(b[0] == writing_letter(g));
        if g == 4 || g == 5 {
            lemma_bare_one_letter(n);
        }
        assert(g == 40 || g == 60 || g == 80);
        assert(r >= 1) by {
            if r == 0 {
                assert(bare(r) == Seq::<char>::empty());
            }
        }
    }
}

/// A number of one letter, `פ`, is eighty.
pub proof fn lemma_bare_pe(n: nat)
    requires
        n >= 1,
        bare(n) == seq!['\u{05E4}'],
    ensures
        n == 80,
{
    lemma_bare_reads_back(n);
    let v = values(bare(n));
    assert(v =~= seq![80u32]);
    assert(v.drop_last() =~= Seq::<u32>::empty());
    assert(total(Seq::<u32>::empty()) == 0);
}

/// How a number below a thousand is printed: its letters, a geresh after
/// one letter, gershayim before the last of more.
proof fn lemma_marked_shape(n: nat)
    requires
        1 <= n < 1000,
    ensures
        bare(n).len() >= 1,
        marked(bare(n)).len() == bare(n).len() + 1,
        forall|j: int|
            0 <= j < marked(bare(n)).len() ==> numeral_letter(#[trigger] marked(bare(n))[j]) || marked(bare(n))[j]
                == '\'' || marked(bare(n))[j] == '"',
        bare(n).len() == 1 ==> marked(bare(n)) == seq![bare(n)[0], '\''],
        bare(n).len() >= 2 ==> marked(bare(n))[bare(n).len() - 1] == '"',
        bare(n).len() >= 2 ==> marked(bare(n)).last() == bare(n).last(),
        bare(n).len() >= 2 ==> forall|j: int| 0 <= j < bare(n).len() - 1 ==> #[trigger] marked(bare(n))[j] == bare(n)[j],
{
    let b = bare(n);
    lemma_bare_letters(n);
    let w = marked(b);
    if b.len() == 1 {
        assert(w =~= seq![b[0], '\'']);
    } else {
        let d = b.drop_last();
        assert(w == d.push('"').push(b.last()));
        assert forall|j: int| 0 <= j < w.len() implies numeral_letter(#[trigger] w[j]) || w[j] == '\'' || w[j]
            == '"' by {
            if j < d.len() {
                assert(w[j] == b[j]);
            } else if j == b.len() {
                assert(w[j] == b.last());
                assert(numeral_letter(b[b.len() - 1]));
            }
        }
    }
}

/// A number printed in letters is one token of characters the normal
/// form holds, and is its own normal form.
proof fn lemma_marked_token(n: nat)
    requires
        1 <= n < 1000,
    ensures
        token_shaped(marked(bare(n))),
        normalized(marked(bare(n))) == marked(bare(n)),
        trim(marked(bare(n))) == marked(bare(n)),
{
    lemma_marked_shape(n);
    let w = marked(bare(n));
    assert forall|j: int| 0 <= j < w.len() implies normal_char(#[trigger] w[j]) && !is_ws(w[j]) by {
        lemma_numeral_letter_normal(w[j]);
    }
    assert forall|j: int| 0 <= j < w.len() implies #[trigger] w[j] != ',' && w[j] != '-' && w[j] != ':' by {
        assert(numeral_letter(w[j]) || w[j] == '\'' || w[j] == '"');
    }
    lemma_one_word_normal(w);
    crate::text::lemma_trim_plain(w);
}

/// A number printed in letters is not taken for a label, save eighty.
proof fn lemma_marked_not_label(n: nat)
    requires
        1 <= n < 1000,
        n != 80,
    ensures
        !label_token(marked(bare(n))),
{
    lemma_marked_shape(n);
    lemma_marked_token(n);
    let b = bare(n);
    let w = marked(b);
    let key = without_trailing_quotes(w);
    if b.len() == 1 {
        assert(w.drop_last() =~= seq![b[0]]);
        assert(numeral_letter(w[0]));
        assert(without_trailing_quotes(seq![b[0]]) == seq![b[0]]);
        assert(key == seq![b[0]]);
        if section_word(key) {
            lemma_level_word_shape(key);
        }
        if section_abbreviation(key) {
            reveal_strlit("\u{05E1}\u{05D9}");
            reveal_strlit("\u{05E1}\u{05E2}");
            reveal_strlit("\u{05D4}\u{05DC}");
            reveal_strlit("\u{05DE}\u{05E1}");
            reveal_strlit("\u{05E2}\u{05DE}");
            reveal_strlit("\u{05E4}");
            let i = choose|i: int| 0 <= i < 6 && SECTION_ABBREVIATIONS[i]@ == key;
            assert(i == 5);
            assert(b =~= seq!['\u{05E4}']);
            lemma_bare_pe(n);
        }
    } else {
        lemma_bare_letters(n);
        assert(numeral_letter(b[b.len() - 1]));
        assert(w[w.len() - 1] == b.last());
        assert(key == w);
        if section_word(key) {
            lemma_level_word_shape(key);
            assert(key[b.len() - 1] == '"');
        }
    }
}

/// A number printed in letters ends in no amud, save those ending in 71
/// or 72.
proof fn lemma_marked_no_amud(n: nat)
    requires
        1 <= n < 1000,
        n % 100 != 71,
        n % 100 != 72,
    ensures
        !ends_with(marked(bare(n)), amud_alef()),
        !ends_with(marked(bare(n)), amud_beis()),
        marked(bare(n)) != amud_alef(),
        marked(bare(n)) != amud_beis(),
{
    lemma_marked_shape(n);
    let b = bare(n);
    let w = marked(b);
    assert forall|p: Seq<char>| p == amud_alef() || p == amud_beis() implies !ends_with(w, p) by {
        if ends_with(w, p) {
            assert(w.skip(w.len() - 3)[0] == p[0]);
            assert(w.skip(w.len() - 3)[1] == p[1]);
            assert(w.skip(w.len() - 3)[2] == p[2]);
            if b.len() == 1 {
                assert(w.len() == 2);
            } else {
                assert(w[w.len() - 3] == b[b.len() - 2]);
                assert(w[w.len() - 1] == b.last());
                lemma_bare_ends_in_amud(n);
            }
        }
    }
    assert(ends_with(amud_alef(), amud_alef())) by {
        assert(amud_alef().skip(0) =~= amud_alef());
    }
    assert(ends_with(amud_beis(), amud_beis())) by {
        assert(amud_beis().skip(0) =~= amud_beis());
    }
}

/// A number printed in letters is read as that number: not a daf, not a
/// label with a number, just the numeral.
proof fn lemma_marked_level(n: nat)
    requires
        1 <= n < 1000,
        n % 100 != 71,
        n % 100 != 72,
        !(41 <= n <= 49),
        !(61 <= n <= 69),
        !(81 <= n <= 89),
    ensures
        token_level(marked(bare(n))) == Some(decimal(n)),
{
    lemma_marked_shape(n);
    lemma_marked_token(n);
    lemma_marked_no_amud(n);
    let b = bare(n);
    let w = marked(b);
    lemma_bare_letters(n);
    // Not a daf.
    assert(english_daf(w) is None) by {
        assert(numeral_letter(w[w.len() - 1]) || w[w.len() - 1] == '\'' || w[w.len() - 1] == '"');
    }
    lemma_rfind(w, ',');
    assert(rfind(w, ',') is None) by {
        if rfind(w, ',') is Some {
            let k = rfind(w, ',').unwrap();
            assert(numeral_letter(w[k]) || w[k] == '\'' || w[k] == '"');
        }
    }
    assert(w.last() != '.' && w.last() != ':') by {
        assert(numeral_letter(w[w.len() - 1]) || w[w.len() - 1] == '\'' || w[w.len() - 1] == '"');
    }
    assert(amud_split(w, w) is None);
    assert(daf_value(w) is None);
    // Not a label with its number.
    lemma_find(w, '"');
    if b.len() == 1 {
        assert(find(w, '"') is None) by {
            if find(w, '"') is Some {
                let k = find(w, '"').unwrap();
                assert(w[k] == '"');
                if k == 0 {
                    assert(numeral_letter(b[0]));
                }
            }
        }
    } else {
        assert forall|j: int| 0 <= j < b.len() - 1 implies w[j] != '"' by {
            assert(w[j] == b[j]);
            assert(numeral_letter(b[j]));
        }
        lemma_find_at(w, '"', b.len() - 1);
        let head = w.take(b.len() - 1);
        if head.len() == 1 && label_letter(head[0]) {
            assert(head[0] == b[0]);
            lemma_bare_label_head(n);
        }
    }
    assert(label_number(w) is None);
    // The numeral.
    lemma_numeral_round_trip(n as u32);
    assert(written(n) == w);
}

/// A number the Hebrew styles print in a form that the resolver reads back
/// as that number: one written in digits, or one whose letters read as
/// nothing else. Those are the forties, sixties and eighties of two letters
/// and eighty itself, and every number ending in 71 or 72 whose letters
/// before the `ע` still read as a daf of two or more (all but 71, 72, 1071
/// and 1072 themselves, the first two an amud on their own).
pub open spec fn number_reads_back(n: nat) -> bool {
    &&& 1 <= n <= u32::MAX
    &&& in_digits(n) || ((n % 100 != 71 && n % 100 != 72 || n == 1071 || n == 1072) && !(41 <= n <= 49) && !(61
        <= n <= 69) && !(80 <= n <= 89))
}

/// A daf the Hebrew styles print in a form that the resolver reads back as
/// that daf: below a thousand, or written in digits, and not 247.
pub open spec fn daf_reads_back(n: nat) -> bool {
    &&& 2 <= n <= u32::MAX
    &&& n < 1000 || in_digits(n)
    &&& n != 247
}

/// A level the Hebrew styles print in a form that the resolver reads back
/// as the same level: such a number, or such a daf with its amud.
pub open spec fn hebrew_level(l: Seq<char>) -> bool {
    ||| (parse_u32(l) matches Some(n) && decimal(n as nat) == l && number_reads_back(n as nat))
    ||| (l.len() >= 2 && (l.last() == 'a' || l.last() == 'b') && (parse_u32(l.drop_last()) matches Some(n)
        && decimal(n as nat) == l.drop_last() && daf_reads_back(n as nat)))
}

/// The letters a daf is printed with: numeral letters or digits, at least
/// one.
proof fn lemma_daf_letters(d: nat)
    requires
        d >= 1,
    ensures
        daf_letters(d).len() > 0,
        forall|j: int|
            0 <= j < daf_letters(d).len() ==> (numeral_letter(#[trigger] daf_letters(d)[j]) || is_digit(
                daf_letters(d)[j],
            )),
{
    if in_digits(d) {
        lemma_decimal_digits(d);
    } else {
        lemma_bare_letters(d);
    }
}

/// A daf's letters are no level word and no amud, save 247.
proof fn lemma_daf_not_label(d: nat, p: Seq<char>)
    requires
        d >= 1,
        d != 247,
        d < 1000 || in_digits(d),
        normalized(p) == daf_letters(d),
    ensures
        !label_token(p),
        normalized(p) != amud_alef(),
        normalized(p) != amud_beis(),
{
    let letters = daf_letters(d);
    lemma_daf_letters(d);
    assert(numeral_letter(letters[letters.len() - 1]) || is_digit(letters[letters.len() - 1]));
    assert(without_trailing_quotes(letters) == letters);
    assert(!section_word(letters)) by {
        if section_word(letters) {
            if in_digits(d) {
                lemma_decimal_digits(d);
                assert(letters == decimal(d));
                assert(is_digit(letters[0]));
                lemma_section_words_not_digits(letters);
            } else {
                lemma_level_word_not_a_number(letters, d);
            }
        }
    }
    assert(letters != amud_alef() && letters != amud_beis()) by {
        if letters == amud_alef() || letters == amud_beis() {
            assert(numeral_letter(letters[1]) || is_digit(letters[1]));
        }
    }
}

/// A daf, printed in a Hebrew style, reads alone as that daf.
proof fn lemma_daf_reads(d: u32, amud: char)
    requires
        daf_reads_back(d as nat),
        amud == 'a' || amud == 'b',
    ensures
        printed_daf(canonical_daf(d as nat, amud)) is Some,
        reads_alone(printed_daf(canonical_daf(d as nat, amud)).unwrap(), canonical_daf(d as nat, amud)),
{
    lemma_daf_round_trip(d, amud);
    let l = canonical_daf(d as nat, amud);
    let p = printed_daf(l).unwrap();
    let letters = daf_letters(d as nat);
    lemma_daf_letters(d as nat);
    assert forall|j: int| 0 <= j < p.len() implies !is_ws(#[trigger] p[j]) && p[j] != ',' && p[j] != '-' && (p[j]
        == ':' ==> j == p.len() - 1) by {
        if j < letters.len() {
            assert(p[j] == letters[j]);
            assert(numeral_letter(letters[j]) || is_digit(letters[j]));
        }
    }
    assert(token_shaped(p));
    lemma_daf_not_label(d as nat, p);
    reveal(reads_as);
}

/// A number written in digits reads alone as itself.
proof fn lemma_digits_read(n: u32)
    ensures
        reads_alone(decimal(n as nat), decimal(n as nat)),
{
    let l = decimal(n as nat);
    lemma_decimal_parses(n as nat);
    lemma_decimal_digits(n as nat);
    assert(parse_u32(l) == Some(n));
    assert(plain_level(l));
    lemma_plain_level_reads(l);
    lemma_plain_level_chars(l);
    assert forall|j: int| 0 <= j < l.len() implies !is_ws(#[trigger] l[j]) && l[j] != ',' && l[j] != '-' && l[j]
        != ':' by {
        assert(is_digit(l[j]));
    }
    reveal(reads_as);
}

/// Every level in the Hebrew styles' domain, printed, reads alone as
/// itself.
pub proof fn lemma_hebrew_level_reads(l: Seq<char>, style: CiteStyle)
    requires
        hebrew_level(l),
        style != CiteStyle::English,
    ensures
        reads_alone(written_level(l, style), l),
{
    if parse_u32(l) is Some && decimal(parse_u32(l).unwrap() as nat) == l && number_reads_back(
        parse_u32(l).unwrap() as nat,
    ) {
        let n = parse_u32(l).unwrap();
        lemma_decimal_digits(n as nat);
        assert(is_digit(l.last()));
        assert(printed_daf(l) is None);
        assert(written_level(l, style) == written(n as nat));
        if in_digits(n as nat) {
            lemma_digits_read(n);
        } else if n >= 1000 {
            lemma_thousands_token(n as nat);
            lemma_thousands_not_label(n as nat);
            lemma_thousands_level(n as nat);
            reveal(reads_as);
        } else {
            lemma_marked_token(n as nat);
            lemma_marked_not_label(n as nat);
            lemma_marked_no_amud(n as nat);
            lemma_marked_level(n as nat);
            reveal(reads_as);
        }
    } else {
        let n = parse_u32(l.drop_last()).unwrap();
        let amud = l.last();
        assert(l == canonical_daf(n as nat, amud));
        lemma_daf_reads(n, amud);
    }
}

/// How a number in the thousands is printed: the thousands in letters, a
/// geresh, then the rest as a number below a thousand.
proof fn lemma_thousands_shape(n: nat)
    requires
        n >= 1000,
        !in_digits(n),
    ensures
        1 <= n / 1000 < 1000,
        1 <= n % 1000 < 1000,
        written(n) == bare(n / 1000) + seq!['\''] + marked(bare(n % 1000)),
        bare(n / 1000).len() >= 1,
        forall|j: int|
            0 <= j < written(n).len() ==> numeral_letter(#[trigger] written(n)[j]) || written(n)[j] == '\''
                || written(n)[j] == '"',
        written(n)[bare(n / 1000).len() as int] == '\'',
        forall|j: int| 0 <= j < bare(n / 1000).len() ==> #[trigger] written(n)[j] == bare(n / 1000)[j],
{
    let a = n / 1000;
    let b = n % 1000;
    lemma_bare_letters(a);
    lemma_marked_shape(b);
    let ba = bare(a);
    let mb = marked(bare(b));
    let w = written(n);
    assert(w == ba + seq!['\''] + mb);
    assert forall|j: int| 0 <= j < w.len() implies numeral_letter(#[trigger] w[j]) || w[j] == '\'' || w[j] == '"' by {
        if j < ba.len() {
            assert(w[j] == ba[j]);
        } else if j > ba.len() {
            assert(w[j] == mb[j - ba.len() - 1]);
        }
    }
}

/// A number in the thousands, printed, is one token and its own normal
/// form.
proof fn lemma_thousands_token(n: nat)
    requires
        n >= 1000,
        !in_digits(n),
    ensures
        token_shaped(written(n)),
        normalized(written(n)) == written(n),
        trim(written(n)) == written(n),
{
    lemma_thousands_shape(n);
    let w = written(n);
    assert forall|j: int| 0 <= j < w.len() implies normal_char(#[trigger] w[j]) && !is_ws(w[j]) by {
        lemma_numeral_letter_normal(w[j]);
    }
    assert forall|j: int| 0 <= j < w.len() implies #[trigger] w[j] != ',' && w[j] != '-' && w[j] != ':' by {
        assert(numeral_letter(w[j]) || w[j] == '\'' || w[j] == '"');
    }
    lemma_one_word_normal(w);
    crate::text::lemma_trim_plain(w);
}

/// A word in its normal form with a geresh inside it, a letter after, is
/// no label: whatever trailing marks come off, that geresh stays, and no
/// level word or abbreviation holds one.
proof fn lemma_inner_geresh_not_label(w: Seq<char>, k: int)
    requires
        normalized(w) == w,
        0 <= k,
        k + 1 < w.len(),
        w[k] == '\'',
        w[k + 1] != '\'' && w[k + 1] != '"',
    ensures
        !label_token(w),
{
    lemma_keeps_inner_mark(w, k);
    let key = without_trailing_quotes(w);
    assert(key[k] == '\'');
    if section_word(key) {
        lemma_level_word_shape(key);
    }
    if section_abbreviation(key) {
        reveal_strlit("\u{05E1}\u{05D9}");
        reveal_strlit("\u{05E1}\u{05E2}");
        reveal_strlit("\u{05D4}\u{05DC}");
        reveal_strlit("\u{05DE}\u{05E1}");
        reveal_strlit("\u{05E2}\u{05DE}");
        reveal_strlit("\u{05E4}");
        let i = choose|i: int| 0 <= i < 6 && SECTION_ABBREVIATIONS[i]@ == key;
        assert(SECTION_ABBREVIATIONS[i]@[k] == '\'');
    }
}

/// A number in the thousands, printed, is no label: the geresh after the
/// thousands has the rest's first letter after it.
proof fn lemma_thousands_not_label(n: nat)
    requires
        n >= 1000,
        !in_digits(n),
    ensures
        !label_token(written(n)),
{
    lemma_thousands_shape(n);
    lemma_thousands_token(n);
    let w = written(n);
    let k = bare(n / 1000).len() as int;
    let b = n % 1000;
    let mb = marked(bare(b));
    lemma_marked_shape(b);
    lemma_bare_letters(b);
    assert(w[k + 1] == mb[0]);
    assert(mb[0] == bare(b)[0]);
    assert(numeral_letter(bare(b)[0]));
    lemma_inner_geresh_not_label(w, k);
}

/// Taking trailing marks off keeps a mark that has a letter after it.
proof fn lemma_keeps_inner_mark(w: Seq<char>, k: int)
    requires
        0 <= k < w.len(),
        exists|j: int| k < j < w.len() && w[j] != '\'' && w[j] != '"',
    ensures
        k < without_trailing_quotes(w).len() <= w.len(),
        without_trailing_quotes(w)[k] == w[k],
        without_trailing_quotes(w) == w.take(without_trailing_quotes(w).len() as int),
    decreases w.len(),
{
    if w.last() == '\'' || w.last() == '"' {
        let j = choose|j: int| k < j < w.len() && w[j] != '\'' && w[j] != '"';
        assert(j < w.len() - 1);
        assert(w.drop_last()[j] == w[j]);
        lemma_keeps_inner_mark(w.drop_last(), k);
        let x = without_trailing_quotes(w.drop_last());
        assert(x == w.drop_last().take(x.len() as int));
        assert(w.drop_last().take(x.len() as int) =~= w.take(x.len() as int));
    } else {
        assert(w.take(w.len() as int) =~= w);
    }
}

/// A number in the thousands, printed, is read as that number.
proof fn lemma_thousands_level(n: nat)
    requires
        n >= 1000,
        !in_digits(n),
        n <= u32::MAX,
        n % 100 != 71 && n % 100 != 72 || n == 1071 || n == 1072,
    ensures
        token_level(written(n)) == Some(decimal(n)),
        written(n) != amud_alef(),
        written(n) != amud_beis(),
{
    lemma_thousands_shape(n);
    lemma_thousands_token(n);
    if n == 1071 || n == 1072 {
        lemma_thousand_and_amud_not_daf(n);
    } else {
        lemma_thousands_not_daf(n);
    }
    let w = written(n);
    let a = n / 1000;
    let b = n % 1000;
    let ba = bare(a);
    lemma_marked_shape(b);
    assert(w.len() >= 4);
    // Not a label with its number: anything before gershayim holds the
    // thousands and their geresh.
    lemma_find(w, '"');
    if find(w, '"') is Some {
        let k = find(w, '"').unwrap();
        assert(k > ba.len()) by {
            if k < ba.len() {
                assert(w[k] == ba[k]);
                lemma_bare_letters(a);
                assert(numeral_letter(ba[k]));
            }
        }
    }
    assert(label_number(w) is None);
    lemma_numeral_round_trip(n as u32);
    assert(w != amud_alef() && w != amud_beis()) by {
        if w == amud_alef() || w == amud_beis() {
            assert(w.len() == 3);
        }
    }
}

/// A number in the thousands, printed, is no daf, save those ending in 71
/// or 72.
proof fn lemma_thousands_not_daf(n: nat)
    requires
        n >= 1000,
        !in_digits(n),
        n % 100 != 71,
        n % 100 != 72,
    ensures
        daf_value(written(n)) is None,
{
    lemma_thousands_shape(n);
    lemma_thousands_token(n);
    let w = written(n);
    let b = n % 1000;
    let mb = marked(bare(b));
    lemma_marked_shape(b);
    assert(b % 100 == n % 100);
    lemma_marked_no_amud(b);
    assert(w.len() >= 4);
    assert(english_daf(w) is None) by {
        assert(numeral_letter(w[w.len() - 1]) || w[w.len() - 1] == '\'' || w[w.len() - 1] == '"');
    }
    assert forall|p: Seq<char>| p == amud_alef() || p == amud_beis() implies !ends_with(w, p) by {
        if ends_with(w, p) {
            assert(w.skip(w.len() - 3)[2] == p[2]);
            assert(w.last() == mb.last());
            if mb.len() == 2 {
                assert(mb.last() == '\'');
            } else {
                assert(mb.skip(mb.len() - 3) =~= w.skip(w.len() - 3));
                assert(ends_with(mb, p));
            }
        }
    }
    lemma_rfind(w, ',');
    assert(rfind(w, ',') is None) by {
        if rfind(w, ',') is Some {
            let k = rfind(w, ',').unwrap();
            assert(numeral_letter(w[k]) || w[k] == '\'' || w[k] == '"');
        }
    }
    assert(w.last() != '.' && w.last() != ':') by {
        assert(numeral_letter(w[w.len() - 1]) || w[w.len() - 1] == '\'' || w[w.len() - 1] == '"');
    }
    assert(amud_split(w, w) is None);
}

/// A thousand and seventy-one or seventy-two ends in an amud's letters,
/// but what comes before them is one, and one is no daf.
proof fn lemma_thousand_and_amud_not_daf(n: nat)
    requires
        n == 1071 || n == 1072,
    ensures
        daf_value(written(n)) is None,
{
    lemma_thousands_shape(n);
    lemma_thousands_token(n);
    let w = written(n);
    assert(bare(0) == Seq::<char>::empty());
    assert(bare(1) =~= seq!['\u{05D0}']);
    assert(bare(2) =~= seq!['\u{05D1}']);
    assert(bare(71) =~= seq!['\u{05E2}', '\u{05D0}']);
    assert(bare(72) =~= seq!['\u{05E2}', '\u{05D1}']);
    let last: char = if n == 1071 {
        '\u{05D0}'
    } else {
        '\u{05D1}'
    };
    assert(w =~= seq!['\u{05D0}', '\'', '\u{05E2}', '"', last]);
    assert(english_daf(w) is None);
    let one = w.take(2);
    assert(one =~= written(1));
    lemma_numeral_round_trip(1);
    lemma_marked_token(1);
    if n == 1071 {
        assert(w.skip(2) =~= amud_alef());
        assert(amud_split(w, w) == Some((trim(one), 'a')));
    } else {
        assert(w.skip(2) =~= amud_beis());
        assert(!ends_with(w, amud_alef())) by {
            assert(w.skip(2)[2] != amud_alef()[2]);
        }
        assert(amud_split(w, w) == Some((trim(one), 'b')));
    }
}

} // verus!
