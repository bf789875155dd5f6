//! Daf and amud, in every notation the corpus uses.
//!
//! A page of Gemara has two sides, and at least six ways are in circulation
//! to say which one: `ב.` and `ב:`, `ב ע"א` and `ב ע"ב`, `ב, א` and `ב, ב`,
//! and `2a` and `2b`. The canonical form is `2a`.
use vstd::prelude::*;

use crate::hebrew::normalize::{normalize, normalized};
use crate::hebrew::variants::{drop_quote_marks, without_quote_marks};
use crate::hebrew::normalize::{lemma_normalized_break, normal_char};
use crate::refs::numerals::{
    bare, hebrew_value, in_digits, lemma_bare_letters, lemma_bare_reads_back,
    lemma_numeral_letter_normal, lemma_one_word_normal, lemma_unmarked_plain, marked,
    numeral_letter, numeral_value, parse as parse_numeral, read_numeral, to_hebrew_chars, written,
};
use crate::text::{
    ascii_lower, chars_of, decimal, decimal_of, ends_with, has_suffix, opt_text, parse_u32,
    parse_u32_chars, rsplit_once, rsplit_once_char, slice_of, string_of, to_ascii_lowercase, trim,
    trim_chars, find, is_digit, lemma_decimal_digits, lemma_decimal_parses, lemma_find, lemma_rfind,
    lemma_trim_plain, rfind, split_once,
};

verus! {

/// The canonical name of a page: the daf in digits, then `a` or `b`.
pub open spec fn canonical_daf(n: nat, amud: char) -> Seq<char> {
    decimal(n).push(amud)
}

/// `2a`, `2B`, `14b`: the daf in digits, then the amud in either case.
pub open spec fn english_daf(raw: Seq<char>) -> Option<Seq<char>> {
    if raw.len() == 0 {
        None
    } else {
        let amud = ascii_lower(raw.last());
        if amud != 'a' && amud != 'b' {
            None
        } else {
            match parse_u32(trim(raw.drop_last())) {
                Some(n) => if n >= 2 {
                    Some(canonical_daf(n as nat, amud))
                } else {
                    None
                },
                None => None,
            }
        }
    }
}

pub open spec fn amud_alef() -> Seq<char> {
    seq!['ע', '"', 'א']
}

pub open spec fn amud_beis() -> Seq<char> {
    seq!['ע', '"', 'ב']
}

/// The number text and the amud, from whatever marks the amud.
pub open spec fn amud_split(normal: Seq<char>, raw: Seq<char>) -> Option<(Seq<char>, char)> {
    if ends_with(normal, amud_alef()) {
        Some((trim(normal.take(normal.len() - 3)), 'a'))
    } else if ends_with(normal, amud_beis()) {
        Some((trim(normal.take(normal.len() - 3)), 'b'))
    } else {
        let comma = match rsplit_once(raw, ',') {
            Some((head, tail)) => if trim(normalized(tail)) == seq!['א'] {
                Some((head, 'a'))
            } else if trim(normalized(tail)) == seq!['ב'] {
                Some((head, 'b'))
            } else {
                None
            },
            None => None,
        };
        if comma is Some {
            comma
        } else if raw.len() > 0 && raw.last() == '.' {
            Some((raw.drop_last(), 'a'))
        } else if raw.len() > 0 && raw.last() == ':' {
            Some((raw.drop_last(), 'b'))
        } else {
            None
        }
    }
}

/// A daf read however it was written, in canonical form.
pub open spec fn daf_value(raw: Seq<char>) -> Option<Seq<char>> {
    let r = trim(raw);
    if r.len() == 0 {
        None
    } else if english_daf(r) is Some {
        english_daf(r)
    } else {
        match amud_split(normalized(r), r) {
            Some((number, amud)) => match numeral_value(trim(number)) {
                Some(d) => if d >= 2 {
                    Some(canonical_daf(d as nat, amud))
                } else {
                    None
                },
                None => None,
            },
            None => None,
        }
    }
}

/// A canonical daf as a sefer prints it: `2a` is `ב.`, `2b` is `ב:`.
pub open spec fn printed_daf(canonical: Seq<char>) -> Option<Seq<char>> {
    if canonical.len() == 0 {
        None
    } else {
        match parse_u32(canonical.drop_last()) {
            Some(n) => {
                let letters = without_quote_marks(written(n as nat));
                if canonical.last() == 'a' {
                    Some(letters.push('.'))
                } else if canonical.last() == 'b' {
                    Some(letters.push(':'))
                } else {
                    None
                }
            },
            None => None,
        }
    }
}

fn canonical_of(n: u32, amud: char) -> (r: String)
    ensures
        r@ == canonical_daf(n as nat, amud),
{
    let mut v = decimal_of(n as u64);
    v.push(amud);
    string_of(v.as_slice())
}

fn parse_english(raw: &[char]) -> (r: Option<String>)
    ensures
        opt_text(r) == english_daf(raw@),
{
    if raw.len() == 0 {
        return None;
    }
    let amud = to_ascii_lowercase(raw[raw.len() - 1]);
    if amud != 'a' && amud != 'b' {
        return None;
    }
    let digits = slice_of(raw, 0, raw.len() - 1);
    assert(digits@ == raw@.drop_last());
    let t = trim_chars(digits.as_slice());
    match parse_u32_chars(t.as_slice()) {
        Some(n) => if n >= 2 {
            Some(canonical_of(n, amud))
        } else {
            None
        },
        None => None,
    }
}

fn split_amud(normal: &[char], raw: &[char]) -> (r: Option<(Vec<char>, char)>)
    ensures
        match r {
            Some((x, a)) => amud_split(normal@, raw@) == Some((x@, a)),
            None => amud_split(normal@, raw@) is None,
        },
{
    let alef = vec!['ע', '"', 'א'];
    let beis = vec!['ע', '"', 'ב'];
    assert(alef@ == amud_alef());
    assert(beis@ == amud_beis());
    if has_suffix(normal, alef.as_slice()) {
        let head = slice_of(normal, 0, normal.len() - 3);
        return Some((trim_chars(head.as_slice()), 'a'));
    }
    if has_suffix(normal, beis.as_slice()) {
        let head = slice_of(normal, 0, normal.len() - 3);
        return Some((trim_chars(head.as_slice()), 'b'));
    }
    if let Some((head, tail)) = rsplit_once_char(raw, ',') {
        let tail_text = string_of(tail.as_slice());
        let t = trim_chars(chars_of(normalize(tail_text.as_str()).as_str()).as_slice());
        if t.len() == 1 && t[0] == 'א' {
            assert(t@ =~= seq!['א']);
            return Some((head, 'a'));
        }
        if t.len() == 1 && t[0] == 'ב' {
            assert(t@ =~= seq!['ב']);
            return Some((head, 'b'));
        }
        assert(t@ != seq!['א'] && t@ != seq!['ב']) by {
            if t@.len() == 1 {
                assert(t@[0] == t[0]);
            }
        }
    }
    if raw.len() > 0 && raw[raw.len() - 1] == '.' {
        return Some((slice_of(raw, 0, raw.len() - 1), 'a'));
    }
    if raw.len() > 0 && raw[raw.len() - 1] == ':' {
        return Some((slice_of(raw, 0, raw.len() - 1), 'b'));
    }
    None
}

/// Read a daf however it was written and return the canonical `2a` or
/// `2b`. A bare number is not a daf: `2` is a siman or a perek far more
/// often. There is no daf 1, because the first leaf is the title page.
pub fn parse(raw: &str) -> (r: Option<String>)
    ensures
        opt_text(r) == daf_value(raw@),
{
    let v = chars_of(raw);
    let r = trim_chars(v.as_slice());
    if r.len() == 0 {
        return None;
    }
    if let Some(canonical) = parse_english(r.as_slice()) {
        return Some(canonical);
    }
    let text = string_of(r.as_slice());
    let normal = chars_of(normalize(text.as_str()).as_str());
    let (number, amud) = match split_amud(normal.as_slice(), r.as_slice()) {
        Some(p) => p,
        None => return None,
    };
    let number_text = string_of(trim_chars(number.as_slice()).as_slice());
    let daf = match parse_numeral(number_text.as_str()) {
        Some(d) => d,
        None => return None,
    };
    if daf < 2 {
        return None;
    }
    Some(canonical_of(daf, amud))
}

/// Write a daf the way a sefer prints it: `2a` is `ב.`, `2b` is `ב:`.
pub fn to_hebrew(canonical: &str) -> (r: Option<String>)
    ensures
        opt_text(r) == printed_daf(canonical@),
{
    let c = chars_of(canonical);
    if c.len() == 0 {
        return None;
    }
    let amud = c[c.len() - 1];
    let digits = slice_of(c.as_slice(), 0, c.len() - 1);
    assert(digits@ == c@.drop_last());
    let n = match parse_u32_chars(digits.as_slice()) {
        Some(n) => n,
        None => return None,
    };
    let w = to_hebrew_chars(n);
    let mut letters = drop_quote_marks(w.as_slice());
    if amud == 'a' {
        letters.push('.');
        Some(string_of(letters.as_slice()))
    } else if amud == 'b' {
        letters.push(':');
        Some(string_of(letters.as_slice()))
    } else {
        None
    }
}

proof fn lemma_unquoted_plain(l: Seq<char>)
    requires
        forall|i: int| 0 <= i < l.len() ==> l[i] != '\'' && l[i] != '"',
    ensures
        without_quote_marks(l) == l,
    decreases l.len(),
{
    if l.len() > 0 {
        let d = l.drop_last();
        assert forall|i: int| 0 <= i < d.len() implies d[i] != '\'' && d[i] != '"' by {
            assert(d[i] == l[i]);
        }
        lemma_unquoted_plain(d);
        assert(l[l.len() - 1] == l.last());
        assert(d.push(l.last()) =~= l);
    }
}

proof fn lemma_unquoted_marked(l: Seq<char>)
    requires
        forall|i: int| 0 <= i < l.len() ==> numeral_letter(#[trigger] l[i]),
    ensures
        without_quote_marks(marked(l)) == l,
{
    assert forall|i: int| 0 <= i < l.len() implies l[i] != '\'' && l[i] != '"' by {
        assert(numeral_letter(l[i]));
    }
    lemma_unquoted_plain(l);
    if l.len() == 1 {
        assert(l.push('\'').drop_last() =~= l);
        assert(l.push('\'').last() == '\'');
        assert(marked(l) == l.push('\''));
    } else if l.len() > 1 {
        let d = l.drop_last();
        assert forall|i: int| 0 <= i < d.len() implies d[i] != '\'' && d[i] != '"' by {
            assert(d[i] == l[i]);
        }
        lemma_unquoted_plain(d);
        let m = marked(l);
        assert(m.drop_last() =~= d.push('"'));
        assert(d.push('"').drop_last() =~= d);
        assert(d.push('"').last() == '"');
        assert(without_quote_marks(d.push('"')) == d);
        assert(m.last() == l.last());
        assert(numeral_letter(l[l.len() - 1]));
        assert(without_quote_marks(m) == without_quote_marks(m.drop_last()).push(l.last()));
        assert(d.push(l.last()) =~= l);
    }
}

/// The letters a daf is printed with: its number in letters, or in digits
/// where a number is written in digits.
pub open spec fn daf_letters(n: nat) -> Seq<char> {
    if in_digits(n) {
        decimal(n)
    } else {
        bare(n)
    }
}

/// Every canonical daf below a thousand, and every one written in digits,
/// survives a round trip through the way it is printed: [`parse`] reads
/// back what [`to_hebrew`] prints.
pub proof fn lemma_daf_round_trip(n: u32, amud: char)
    requires
        n >= 2,
        amud == 'a' || amud == 'b',
        n < 1000 || in_digits(n as nat),
    ensures
        printed_daf(canonical_daf(n as nat, amud)) is Some,
        daf_value(printed_daf(canonical_daf(n as nat, amud)).unwrap()) == Some(
            canonical_daf(n as nat, amud),
        ),
        printed_daf(canonical_daf(n as nat, amud)).unwrap() == daf_letters(n as nat).push(
            if amud == 'a' {
                '.'
            } else {
                ':'
            },
        ),
        normalized(printed_daf(canonical_daf(n as nat, amud)).unwrap()) == daf_letters(n as nat),
{
    let c = canonical_daf(n as nat, amud);
    lemma_decimal_parses(n as nat);
    lemma_decimal_digits(n as nat);
    assert(c.drop_last() =~= decimal(n as nat));
    let d = decimal(n as nat);
    let letters = without_quote_marks(written(n as nat));
    assert forall|i: int| 0 <= i < d.len() implies d[i] != '\'' && d[i] != '"' by {
        assert(is_digit(d[i]));
    }
    if in_digits(n as nat) {
        lemma_unquoted_plain(d);
        assert(letters == d);
    } else {
        lemma_bare_letters(n as nat);
        lemma_unquoted_marked(bare(n as nat));
        assert(letters == bare(n as nat));
    }
    let punct = if amud == 'a' {
        '.'
    } else {
        ':'
    };
    let p = letters.push(punct);
    assert(printed_daf(c) == Some(p));
    assert(letters.len() > 0);
    // The printed form is its own trim and is not written the English way.
    assert(forall|i: int| 0 <= i < letters.len() ==> (numeral_letter(#[trigger] letters[i]) || is_digit(letters[i])));
    assert(p[0] == letters[0]);
    lemma_numeral_letter_normal(letters[0]);
    lemma_trim_plain(p);
    assert(english_daf(p) is None);
    // Its normal form is the letters alone.
    assert forall|i: int| 0 <= i < letters.len() implies normal_char(#[trigger] letters[i]) && letters[i] != '"' && letters[i] != ',' by {
        lemma_numeral_letter_normal(letters[i]);
    }
    lemma_normalized_break(letters, punct);
    lemma_one_word_normal(letters);
    assert(normalized(p) == letters);
    assert(!ends_with(letters, amud_alef())) by {
        if ends_with(letters, amud_alef()) {
            assert(letters.skip(letters.len() - 3)[1] == letters[letters.len() - 2]);
        }
    }
    assert(!ends_with(letters, amud_beis())) by {
        if ends_with(letters, amud_beis()) {
            assert(letters.skip(letters.len() - 3)[1] == letters[letters.len() - 2]);
        }
    }
    lemma_rfind(p, ',');
    assert(rfind(p, ',') is None) by {
        if rfind(p, ',') is Some {
            let k = rfind(p, ',').unwrap();
            if k < letters.len() {
                assert(p[k] == letters[k]);
            }
        }
    }
    assert(p.drop_last() =~= letters);
    assert(amud_split(letters, p) == Some((letters, amud)));
    // The number reads back.
    lemma_numeral_letter_normal(letters.last());
    lemma_trim_plain(letters);
    if in_digits(n as nat) {
        assert(numeral_value(letters) == Some(n));
    } else {
        let b = bare(n as nat);
        lemma_bare_reads_back(n as nat);
        lemma_unmarked_plain(b);
        assert(parse_u32(b) is None) by {
            assert(!is_digit(b[0]));
        }
        lemma_find(b, '\'');
        assert(split_once(b, '\'') is None) by {
            if find(b, '\'') is Some {
                let k = find(b, '\'').unwrap();
                assert(numeral_letter(b[k]));
            }
        }
        assert(read_numeral(b) == Some(n));
        assert(hebrew_value(b) == Some(n));
        assert(numeral_value(letters) == Some(n));
    }
}

} // verus!
