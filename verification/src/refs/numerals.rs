//! Hebrew numerals, both directions.
//!
//! Seforim number their own divisions in letters: `סימן קכ"א` is siman 121.
//! The rule is addition, each letter worth something and the word the sum,
//! which is why `טו` is 15 and not `יה`: the obvious spelling of fifteen
//! would be two letters of the Name.
use vstd::prelude::*;

use crate::hebrew::normalize::{
    cleaned, lemma_runs_of_join, normal_char, normalize, normalized, runs,
};
use crate::text::{
    chars_of, decimal, decimal_of, find, is_blank, is_digit, is_whitespace, is_ws, join,
    lemma_decimal_digits, lemma_decimal_parses, lemma_find, parse_u32, parse_u32_chars, split_once,
    split_once_char, string_of, trim, trim_chars, trim_start, lemma_trim_plain,
};

verus! {

/// Letter values. Finals are worth what their medial form is worth.
pub const VALUES: [(char, u32); 27] = [
    ('א', 1),
    ('ב', 2),
    ('ג', 3),
    ('ד', 4),
    ('ה', 5),
    ('ו', 6),
    ('ז', 7),
    ('ח', 8),
    ('ט', 9),
    ('י', 10),
    ('כ', 20),
    ('ך', 20),
    ('ל', 30),
    ('מ', 40),
    ('ם', 40),
    ('נ', 50),
    ('ן', 50),
    ('ס', 60),
    ('ע', 70),
    ('פ', 80),
    ('ף', 80),
    ('צ', 90),
    ('ץ', 90),
    ('ק', 100),
    ('ר', 200),
    ('ש', 300),
    ('ת', 400),
];

/// Descending, for writing a number out.
pub const WRITING: [(u32, char); 22] = [
    (400, 'ת'),
    (300, 'ש'),
    (200, 'ר'),
    (100, 'ק'),
    (90, 'צ'),
    (80, 'פ'),
    (70, 'ע'),
    (60, 'ס'),
    (50, 'נ'),
    (40, 'מ'),
    (30, 'ל'),
    (20, 'כ'),
    (10, 'י'),
    (9, 'ט'),
    (8, 'ח'),
    (7, 'ז'),
    (6, 'ו'),
    (5, 'ה'),
    (4, 'ד'),
    (3, 'ג'),
    (2, 'ב'),
    (1, 'א'),
];

/// The value at which the thousands notation starts.
pub const THOUSAND: u32 = 1000;

/// What a letter is worth, if it is a letter that counts.
pub open spec fn letter_value(c: char) -> Option<u32> {
    if c == 'א' { Some(1u32) }
    else if c == 'ב' { Some(2u32) }
    else if c == 'ג' { Some(3u32) }
    else if c == 'ד' { Some(4u32) }
    else if c == 'ה' { Some(5u32) }
    else if c == 'ו' { Some(6u32) }
    else if c == 'ז' { Some(7u32) }
    else if c == 'ח' { Some(8u32) }
    else if c == 'ט' { Some(9u32) }
    else if c == 'י' { Some(10u32) }
    else if c == 'כ' || c == 'ך' { Some(20u32) }
    else if c == 'ל' { Some(30u32) }
    else if c == 'מ' || c == 'ם' { Some(40u32) }
    else if c == 'נ' || c == 'ן' { Some(50u32) }
    else if c == 'ס' { Some(60u32) }
    else if c == 'ע' { Some(70u32) }
    else if c == 'פ' || c == 'ף' { Some(80u32) }
    else if c == 'צ' || c == 'ץ' { Some(90u32) }
    else if c == 'ק' { Some(100u32) }
    else if c == 'ר' { Some(200u32) }
    else if c == 'ש' { Some(300u32) }
    else if c == 'ת' { Some(400u32) }
    else { None }
}

/// The largest value a single letter is written for that fits in `n`.
pub open spec fn greatest(n: nat) -> nat {
    if n >= 400 { 400 }
    else if n >= 300 { 300 }
    else if n >= 200 { 200 }
    else if n >= 100 { 100 }
    else if n >= 90 { 90 }
    else if n >= 80 { 80 }
    else if n >= 70 { 70 }
    else if n >= 60 { 60 }
    else if n >= 50 { 50 }
    else if n >= 40 { 40 }
    else if n >= 30 { 30 }
    else if n >= 20 { 20 }
    else if n >= 10 { 10 }
    else if n >= 1 { n }
    else { 1 }
}

/// The letter a value is written with.
pub open spec fn writing_letter(v: nat) -> char {
    if v == 400 { 'ת' }
    else if v == 300 { 'ש' }
    else if v == 200 { 'ר' }
    else if v == 100 { 'ק' }
    else if v == 90 { 'צ' }
    else if v == 80 { 'פ' }
    else if v == 70 { 'ע' }
    else if v == 60 { 'ס' }
    else if v == 50 { 'נ' }
    else if v == 40 { 'מ' }
    else if v == 30 { 'ל' }
    else if v == 20 { 'כ' }
    else if v == 10 { 'י' }
    else if v == 9 { 'ט' }
    else if v == 8 { 'ח' }
    else if v == 7 { 'ז' }
    else if v == 6 { 'ו' }
    else if v == 5 { 'ה' }
    else if v == 4 { 'ד' }
    else if v == 3 { 'ג' }
    else if v == 2 { 'ב' }
    else { 'א' }
}

/// A number in letters with no marks: greedy, largest letter first, except
/// that 15 and 16 are written from nine.
pub open spec fn bare(n: nat) -> Seq<char>
    decreases n,
{
    if n == 0 {
        Seq::empty()
    } else if n == 15 {
        seq!['ט', 'ו']
    } else if n == 16 {
        seq!['ט', 'ז']
    } else {
        seq![writing_letter(greatest(n))] + bare((n - greatest(n)) as nat)
    }
}

/// The mark that tells a numeral from a word: gershayim before the last
/// letter, or a geresh after a single one.
pub open spec fn marked(l: Seq<char>) -> Seq<char> {
    if l.len() == 0 {
        Seq::empty()
    } else if l.len() == 1 {
        l.push('\'')
    } else {
        l.drop_last().push('"').push(l.last())
    }
}

/// Whether a number is written in digits: a round thousand, which would
/// read as its own count of thousands, or a million and up.
pub open spec fn in_digits(n: nat) -> bool {
    n >= 1000 && (n % 1000 == 0 || n / 1000 >= 1000)
}

/// How a sefer writes a number.
pub open spec fn written(n: nat) -> Seq<char> {
    if n == 0 {
        Seq::empty()
    } else if in_digits(n) {
        decimal(n)
    } else if n < 1000 {
        marked(bare(n))
    } else {
        bare(n / 1000) + seq!['\''] + marked(bare(n % 1000))
    }
}

/// The letters of a text, with quote marks and whitespace left out.
pub open spec fn unmarked(s: Seq<char>) -> Seq<char>
    decreases s.len(),
{
    if s.len() == 0 {
        Seq::empty()
    } else {
        let p = unmarked(s.drop_last());
        let c = s.last();
        if c == '\'' || c == '"' || is_ws(c) {
            p
        } else {
            p.push(c)
        }
    }
}

pub open spec fn all_valued(l: Seq<char>) -> bool {
    forall|i: int| 0 <= i < l.len() ==> (#[trigger] letter_value(l[i])) is Some
}

/// The value of each letter.
pub open spec fn values(l: Seq<char>) -> Seq<u32> {
    l.map_values(|c: char| letter_value(c)->0)
}

/// Never going back up.
pub open spec fn descending(v: Seq<u32>) -> bool {
    forall|i: int, j: int| 0 <= i <= j < v.len() ==> v[j] <= v[i]
}

pub open spec fn total(v: Seq<u32>) -> nat
    decreases v.len(),
{
    if v.len() == 0 {
        0
    } else {
        total(v.drop_last()) + (v.last() as nat)
    }
}

/// A numeral read without its thousands: the letters must all count, must
/// never go back up, and must be the canonical spelling of their own sum.
pub open spec fn read_numeral(s: Seq<char>) -> Option<u32> {
    let l = unmarked(s);
    let v = values(l);
    if l.len() > 0 && all_valued(l) && descending(v) && total(v) <= u32::MAX && values(
        bare(total(v)),
    ) == v {
        Some(total(v) as u32)
    } else {
        None
    }
}

/// A Hebrew numeral, thousands and all.
pub open spec fn hebrew_value(s: Seq<char>) -> Option<u32> {
    let n = normalized(s);
    match split_once(n, '\'') {
        Some((a, b)) if trim(b).len() > 0 => match (read_numeral(a), read_numeral(b)) {
            (Some(x), Some(y)) => if x * 1000 + y <= u32::MAX {
                Some((x * 1000 + y) as u32)
            } else {
                None
            },
            _ => None,
        },
        _ => read_numeral(n),
    }
}

/// A number written either way.
pub open spec fn numeral_value(s: Seq<char>) -> Option<u32> {
    let t = trim(s);
    match parse_u32(t) {
        Some(n) => Some(n),
        None => hebrew_value(t),
    }
}

fn value_of(c: char) -> (r: Option<u32>)
    ensures
        r == letter_value(c),
{
    let mut i: usize = 0;
    while i < 27
        invariant
            i <= 27,
            forall|j: int| 0 <= j < i ==> VALUES[j].0 != c,
        decreases 27 - i,
    {
        if VALUES[i].0 == c {
            return Some(VALUES[i].1);
        }
        i += 1;
    }
    None
}

fn greatest_letter(n: u32) -> (r: (u32, char))
    requires
        n >= 1,
    ensures
        r.0 == greatest(n as nat),
        r.1 == writing_letter(r.0 as nat),
{
    let mut i: usize = 0;
    while i < 21
        invariant
            i <= 21,
            forall|j: int| 0 <= j < i ==> WRITING[j].0 > n,
        decreases 21 - i,
    {
        if WRITING[i].0 <= n {
            return WRITING[i];
        }
        i += 1;
    }
    WRITING[21]
}

/// A number in bare letters.
fn to_bare_letters(n: u32) -> (out: Vec<char>)
    ensures
        out@ == bare(n as nat),
{
    let mut out: Vec<char> = Vec::new();
    let mut m = n;
    while m > 0
        invariant
            out@ + bare(m as nat) == bare(n as nat),
        decreases m,
    {
        if m == 15 || m == 16 {
            let ghost before = out@;
            out.push('ט');
            out.push(if m == 15 { 'ו' } else { 'ז' });
            assert(out@ =~= before + bare(m as nat));
            return out;
        }
        let (v, letter) = greatest_letter(m);
        let ghost before = out@;
        out.push(letter);
        assert(out@ + bare((m - v) as nat) =~= before + bare(m as nat));
        m -= v;
    }
    assert(out@ + bare(0) =~= out@);
    out
}

/// The marks on a run of bare letters.
fn with_marks(letters: &[char]) -> (out: Vec<char>)
    ensures
        out@ == marked(letters@),
{
    let mut out: Vec<char> = Vec::new();
    if letters.len() == 0 {
        return out;
    }
    let mut i: usize = 0;
    while i + 1 < letters.len()
        invariant
            letters.len() >= 1,
            i + 1 <= letters.len(),
            out@ == letters@.take(i as int),
        decreases letters.len() - i,
    {
        out.push(letters[i]);
        assert(letters@.take(i + 1) =~= letters@.take(i as int).push(letters@[i as int]));
        i += 1;
    }
    if letters.len() == 1 {
        out.push(letters[0]);
        out.push('\'');
        assert(out@ =~= marked(letters@));
    } else {
        out.push('"');
        out.push(letters[letters.len() - 1]);
        assert(letters@.drop_last() =~= letters@.take(letters.len() - 1));
        assert(out@ =~= marked(letters@));
    }
    out
}

/// Whether a number comes out as digits rather than as letters: a round
/// thousand reads as its own thousands count (1,000 and 1 are both `א'`),
/// and from a million up the count would need the notation itself.
pub fn is_written_in_digits(n: u32) -> (b: bool)
    ensures
        b == in_digits(n as nat),
{
    n >= THOUSAND && (n % THOUSAND == 0 || n / THOUSAND >= THOUSAND)
}

/// Write a number the way a sefer does: 121 is `קכ"א`, 1,999 is
/// `א'תתקצ"ט`, 0 is nothing, and a round thousand or a million and up is
/// written in digits.
pub fn to_hebrew(n: u32) -> (s: String)
    ensures
        s@ == written(n as nat),
{
    let v = to_hebrew_chars(n);
    string_of(v.as_slice())
}

pub fn to_hebrew_chars(n: u32) -> (v: Vec<char>)
    ensures
        v@ == written(n as nat),
{
    if n == 0 {
        return Vec::new();
    }
    if is_written_in_digits(n) {
        return decimal_of(n as u64);
    }
    if n < THOUSAND {
        let b = to_bare_letters(n);
        return with_marks(b.as_slice());
    }
    let mut out = to_bare_letters(n / THOUSAND);
    out.push('\'');
    let rest = to_bare_letters(n % THOUSAND);
    let tail = with_marks(rest.as_slice());
    let ghost head = out@;
    let mut i: usize = 0;
    while i < tail.len()
        invariant
            i <= tail.len(),
            out@ == head + tail@.take(i as int),
        decreases tail.len() - i,
    {
        out.push(tail[i]);
        assert(tail@.take(i + 1) =~= tail@.take(i as int).push(tail@[i as int]));
        i += 1;
    }
    assert(tail@.take(tail.len() as int) =~= tail@);
    out
}

/// A letter of a numeral as this crate writes it: it counts, and it is
/// none of a final form, a quote mark, whitespace or a mark.
pub open spec fn numeral_letter(c: char) -> bool {
    c == 'ת' || c == 'ש' || c == 'ר' || c == 'ק' || c == 'צ' || c == 'פ' || c == 'ע' || c == 'ס'
        || c == 'נ' || c == 'מ' || c == 'ל' || c == 'כ' || c == 'י' || c == 'ט' || c == 'ח'
        || c == 'ז' || c == 'ו' || c == 'ה' || c == 'ד' || c == 'ג' || c == 'ב' || c == 'א'
}

pub(crate) proof fn lemma_bare_letters(n: nat)
    ensures
        forall|i: int| 0 <= i < bare(n).len() ==> numeral_letter(#[trigger] bare(n)[i]),
        forall|i: int| 0 <= i < bare(n).len() ==> (#[trigger] letter_value(bare(n)[i])) is Some,
        n > 0 ==> bare(n).len() > 0,
    decreases n,
{
    if n > 0 && n != 15 && n != 16 {
        let g = greatest(n);
        lemma_bare_letters((n - g) as nat);
        let b = bare(n);
        let r = bare((n - g) as nat);
        assert forall|i: int| 0 <= i < b.len() implies numeral_letter(#[trigger] b[i]) by {
            if i > 0 {
                assert(b[i] == r[i - 1]);
            }
        }
        assert forall|i: int| 0 <= i < b.len() implies (#[trigger] letter_value(b[i])) is Some by {
            if i > 0 {
                assert(b[i] == r[i - 1]);
                assert(numeral_letter(r[i - 1]));
            } else {
                assert(numeral_letter(b[0]));
            }
        }
    }
}

proof fn lemma_total_monotone(v: Seq<u32>, k: int)
    requires
        0 <= k <= v.len(),
    ensures
        total(v.take(k)) <= total(v),
    decreases v.len() - k,
{
    if k < v.len() {
        lemma_total_monotone(v.drop_last(), k);
        assert(v.drop_last().take(k) =~= v.take(k));
    } else {
        assert(v.take(k) =~= v);
    }
}

/// Sum the letters, refusing anything that is not written the way a
/// numeral is: a letter that does not count, a value that goes back up, an
/// overflow, or a spelling that is not the canonical one for its sum.
fn read_descending(s: &[char]) -> (r: Option<u32>)
    ensures
        r == read_numeral(s@),
{
    let mut letters: Vec<char> = Vec::new();
    let mut i: usize = 0;
    while i < s.len()
        invariant
            i <= s.len(),
            letters@ == unmarked(s@.take(i as int)),
        decreases s.len() - i,
    {
        let c = s[i];
        assert(s@.take(i + 1).drop_last() =~= s@.take(i as int));
        if c != '\'' && c != '"' && !is_whitespace(c) {
            letters.push(c);
        }
        i += 1;
    }
    assert(s@.take(s.len() as int) =~= s@);
    let ghost l = letters@;
    if letters.len() == 0 {
        return None;
    }
    let mut said: Vec<u32> = Vec::new();
    let mut sum: u32 = 0;
    let mut previous: u32 = u32::MAX;
    let mut k: usize = 0;
    while k < letters.len()
        invariant
            l == letters@,
            l == unmarked(s@),
            k <= letters.len(),
            said@ == values(l.take(k as int)),
            all_valued(l.take(k as int)),
            descending(said@),
            k > 0 ==> previous == said@[k - 1],
            k == 0 ==> previous == u32::MAX,
            sum == total(said@),
        decreases letters.len() - k,
    {
        let c = letters[k];
        let ghost t = l.take(k + 1);
        assert(t.drop_last() =~= l.take(k as int));
        assert(values(t) =~= values(l.take(k as int)).push(letter_value(c)->0));
        let value = match value_of(c) {
            Some(v) => v,
            None => {
                assert(!all_valued(l)) by {
                    assert(letter_value(l[k as int]) is None);
                }
                assert(read_numeral(s@) is None);
                return None;
            },
        };
        if value > previous {
            assert(!descending(values(l))) by {
                assert(values(l)[k - 1] == said@[k - 1]);
                assert(values(l)[k as int] == value);
            }
            assert(read_numeral(s@) is None);
            return None;
        }
        if sum > u32::MAX - value {
            assert(total(values(l)) > u32::MAX) by {
                assert(values(l).take(k + 1) =~= values(t));
                assert(values(t).drop_last() =~= said@);
                assert(total(values(t)) == sum + value);
                lemma_total_monotone(values(l), k + 1);
            }
            assert(read_numeral(s@) is None);
            return None;
        }
        previous = value;
        sum = sum + value;
        said.push(value);
        assert(total(said@) == total(said@.drop_last()) + value);
        assert(said@.drop_last() =~= values(l.take(k as int)));
        k += 1;
    }
    assert(l.take(l.len() as int) =~= l);
    let canonical_letters = to_bare_letters(sum);
    let mut canonical: Vec<u32> = Vec::new();
    let mut j: usize = 0;
    while j < canonical_letters.len()
        invariant
            canonical_letters@ == bare(sum as nat),
            j <= canonical_letters.len(),
            canonical@ == values(canonical_letters@.take(j as int)),
            all_valued(canonical_letters@.take(j as int)),
        decreases canonical_letters.len() - j,
    {
        let ghost t = canonical_letters@.take(j + 1);
        assert(t.drop_last() =~= canonical_letters@.take(j as int));
        match value_of(canonical_letters[j]) {
            Some(v) => {
                canonical.push(v);
                assert(canonical@ =~= values(t));
            },
            None => {
                proof {
                    lemma_bare_letters(sum as nat);
                    assert(canonical_letters@[j as int] == bare(sum as nat)[j as int]);
                }
                return None;
            },
        }
        j += 1;
    }
    assert(canonical_letters@.take(canonical_letters.len() as int) =~= canonical_letters@);
    assert(said@ == values(l));
    assert(sum == total(values(l)));
    assert(l == unmarked(s@));
    if canonical.len() != said.len() {
        assert(values(bare(total(values(l)))) != values(l));
        return None;
    }
    let mut m: usize = 0;
    while m < said.len()
        invariant
            canonical.len() == said.len(),
            canonical@ == values(bare(total(values(l)))),
            said@ == values(l),
            l == unmarked(s@),
            sum == total(values(l)),
            m <= said.len(),
            forall|q: int| 0 <= q < m ==> canonical@[q] == said@[q],
        decreases said.len() - m,
    {
        if canonical[m] != said[m] {
            assert(values(bare(total(values(l))))[m as int] != values(l)[m as int]);
            return None;
        }
        m += 1;
    }
    assert(canonical@ =~= said@);
    Some(sum)
}

/// [`parse_hebrew`] on a run of characters.
pub fn parse_hebrew_chars(s: &[char]) -> (r: Option<u32>)
    ensures
        r == hebrew_value(s@),
{
    let text = string_of(s);
    let n = chars_of(normalize(text.as_str()).as_str());
    match split_once_char(n.as_slice(), '\'') {
        Some((thousands, rest)) => {
            if !is_blank(rest.as_slice()) {
                let t = match read_descending(thousands.as_slice()) {
                    Some(t) => t,
                    None => return None,
                };
                let r = match read_descending(rest.as_slice()) {
                    Some(r) => r,
                    None => return None,
                };
                if t > (u32::MAX - r) / 1000 {
                    assert(t * 1000 + r > u32::MAX) by (nonlinear_arith)
                        requires
                            t > (u32::MAX - r) / 1000,
                            r <= u32::MAX,
                    ;
                    return None;
                }
                assert(t * 1000 + r <= u32::MAX) by (nonlinear_arith)
                    requires
                        t <= (u32::MAX - r) / 1000,
                        r <= u32::MAX,
                ;
                return Some(t * 1000 + r);
            }
            read_descending(n.as_slice())
        },
        None => read_descending(n.as_slice()),
    }
}

/// Read a Hebrew numeral: `קכ"א` is 121, `ב` is 2, `טו` is 15, `א'תתקצ"ט`
/// is 1,999.
///
/// Every Hebrew word sums to something, so summing is not enough. A
/// numeral is written high to low and never goes back up, and it is the
/// canonical spelling of its own value: `יו"ד` sums to 20 but twenty is
/// written `כ`, so it is not a numeral. Thousands are the count of
/// thousands, a geresh, then the rest, each half read on its own.
pub fn parse_hebrew(s: &str) -> (r: Option<u32>)
    ensures
        r == hebrew_value(s@),
{
    let v = chars_of(s);
    parse_hebrew_chars(v.as_slice())
}

/// Read whichever way the number was written: `121`, `קכא`, `קכ"א`.
pub fn parse(s: &str) -> (r: Option<u32>)
    ensures
        r == numeral_value(s@),
{
    let v = chars_of(s);
    let t = trim_chars(v.as_slice());
    match parse_u32_chars(t.as_slice()) {
        Some(n) => Some(n),
        None => parse_hebrew_chars(t.as_slice()),
    }
}

/// The first value a number's letters start with.
pub open spec fn head_value(n: nat) -> nat {
    if n == 15 || n == 16 {
        9
    } else {
        greatest(n)
    }
}

proof fn lemma_total_concat(a: Seq<u32>, b: Seq<u32>)
    ensures
        total(a + b) == total(a) + total(b),
    decreases b.len(),
{
    if b.len() == 0 {
        assert(a + b =~= a);
    } else {
        lemma_total_concat(a, b.drop_last());
        assert((a + b).drop_last() =~= a + b.drop_last());
    }
}

/// The letters of a number count, never go back up, and add up to it.
pub(crate) proof fn lemma_bare_reads_back(n: nat)
    requires
        n > 0,
    ensures
        bare(n).len() > 0,
        all_valued(bare(n)),
        descending(values(bare(n))),
        total(values(bare(n))) == n,
        values(bare(n))[0] == head_value(n),
        head_value(n) <= n,
    decreases n,
{
    lemma_bare_letters(n);
    let b = bare(n);
    if n == 15 || n == 16 {
        assert(values(b) =~= seq![9u32, (n - 9) as u32]);
        assert(values(b).drop_last() =~= seq![9u32]);
        assert(seq![9u32].drop_last() =~= Seq::<u32>::empty());
        assert(total(Seq::<u32>::empty()) == 0);
        assert(total(seq![9u32]) == 9);
    } else {
        let g = greatest(n);
        let r = (n - g) as nat;
        let head = seq![writing_letter(g)];
        assert(values(head) =~= seq![g as u32]);
        assert(values(b) =~= values(head) + values(bare(r)));
        assert(seq![g as u32].drop_last() =~= Seq::<u32>::empty());
        assert(total(Seq::<u32>::empty()) == 0);
        assert(total(seq![g as u32]) == g);
        lemma_total_concat(values(head), values(bare(r)));
        if r > 0 {
            lemma_bare_reads_back(r);
            assert(g == 400 || r < g);
            let v = values(b);
            assert forall|i: int, j: int| 0 <= i <= j < v.len() implies v[j] <= v[i] by {
                if i > 0 {
                    assert(v[i] == values(bare(r))[i - 1]);
                    assert(v[j] == values(bare(r))[j - 1]);
                } else if j > 0 {
                    assert(v[j] == values(bare(r))[j - 1]);
                    assert(values(bare(r))[j - 1] <= values(bare(r))[0]);
                }
            }
        } else {
            assert(bare(r) =~= Seq::<char>::empty());
            assert(values(bare(r)) =~= Seq::<u32>::empty());
        }
    }
}

pub(crate) proof fn lemma_unmarked_plain(l: Seq<char>)
    requires
        forall|i: int| 0 <= i < l.len() ==> numeral_letter(#[trigger] l[i]),
    ensures
        unmarked(l) == l,
    decreases l.len(),
{
    if l.len() > 0 {
        let d = l.drop_last();
        assert forall|i: int| 0 <= i < d.len() implies numeral_letter(#[trigger] d[i]) by {
            assert(d[i] == l[i]);
        }
        lemma_unmarked_plain(d);
        assert(numeral_letter(l[l.len() - 1]));
        assert(d.push(l.last()) =~= l);
    }
}

pub(crate) proof fn lemma_unmarked_marked(l: Seq<char>)
    requires
        forall|i: int| 0 <= i < l.len() ==> numeral_letter(#[trigger] l[i]),
    ensures
        unmarked(marked(l)) == l,
{
    lemma_unmarked_plain(l);
    if l.len() == 1 {
        assert(l.push('\'').drop_last() =~= l);
        assert(l.push('\'').last() == '\'');
        assert(marked(l) == l.push('\''));
    } else if l.len() > 1 {
        let d = l.drop_last();
        assert forall|i: int| 0 <= i < d.len() implies numeral_letter(#[trigger] d[i]) by {
            assert(d[i] == l[i]);
        }
        lemma_unmarked_plain(d);
        let m = marked(l);
        assert(m.drop_last() =~= d.push('"'));
        assert(d.push('"').drop_last() =~= d);
        assert(d.push('"').last() == '"');
        assert(unmarked(d.push('"')) == d);
        assert(m.last() == l.last());
        assert(numeral_letter(l[l.len() - 1]));
        assert(!is_ws(l.last()));
        assert(unmarked(m) == unmarked(m.drop_last()).push(l.last()));
        assert(d.push(l.last()) =~= l);
    }
}

/// What this crate writes for a number below a thousand reads back as it.
proof fn lemma_marked_reads_back(n: nat)
    requires
        0 < n <= u32::MAX,
    ensures
        read_numeral(marked(bare(n))) == Some(n as u32),
{
    lemma_bare_reads_back(n);
    lemma_bare_letters(n);
    lemma_unmarked_marked(bare(n));
}

/// A single word of characters the normal form holds is its own normal form.
pub(crate) proof fn lemma_one_word_normal(x: Seq<char>)
    requires
        x.len() > 0,
        forall|i: int| 0 <= i < x.len() ==> normal_char(#[trigger] x[i]),
    ensures
        normalized(x) == x,
{
    let ws = seq![x];
    assert(ws[0] == x);
    assert forall|i: int, j: int| 0 <= i < ws.len() && 0 <= j < ws[i].len() implies normal_char(
        #[trigger] ws[i][j],
    ) by {
        assert(ws[i] == x);
    }
    lemma_runs_of_join(ws);
    assert(join(ws, seq![' ']) == x);
    assert(join(runs(cleaned(x)), seq![' ']) == join(ws, seq![' ']));
}

pub(crate) proof fn lemma_numeral_letter_normal(c: char)
    requires
        numeral_letter(c) || c == '\'' || c == '"' || is_digit(c),
    ensures
        normal_char(c),
        !is_ws(c),
{
}

pub(crate) proof fn lemma_find_at(s: Seq<char>, c: char, i: int)
    requires
        0 <= i < s.len(),
        s[i] == c,
        forall|j: int| 0 <= j < i ==> s[j] != c,
    ensures
        find(s, c) == Some(i),
{
    lemma_find(s, c);
}

/// Every number this crate writes reads back as itself: `parse` undoes
/// `to_hebrew` for every number from one up. (Zero is written as nothing,
/// and nothing is not a number.)
pub proof fn lemma_numeral_round_trip(n: u32)
    requires
        n > 0,
    ensures
        numeral_value(written(n as nat)) == Some(n),
{
    let w = written(n as nat);
    if in_digits(n as nat) {
        lemma_decimal_digits(n as nat);
        lemma_decimal_parses(n as nat);
        let d = decimal(n as nat);
        assert(is_digit(d[0]) && is_digit(d.last()));
        lemma_trim_plain(d);
        return;
    }
    let (a, b) = if n < 1000 {
        (0nat, n as nat)
    } else {
        ((n / 1000) as nat, (n % 1000) as nat)
    };
    lemma_bare_letters(b);
    lemma_bare_reads_back(b);
    lemma_marked_reads_back(b);
    let m = marked(bare(b));
    let bb = bare(b);
    assert forall|i: int| 0 <= i < m.len() implies (numeral_letter(#[trigger] m[i]) || m[i]
        == '\'' || m[i] == '"') by {
        if bb.len() == 1 {
            if i == 0 {
                assert(m[i] == bb[0]);
            }
        } else if i < bb.len() - 1 {
            assert(m[i] == bb[i]);
        } else if i == bb.len() {
            assert(m[i] == bb.last());
            assert(numeral_letter(bb[bb.len() - 1]));
        }
    }
    assert(m.len() == bb.len() + 1);
    if n < 1000 {
        assert(w == m);
        assert forall|i: int| 0 <= i < w.len() implies normal_char(#[trigger] w[i]) by {
            lemma_numeral_letter_normal(w[i]);
        }
        lemma_one_word_normal(w);
        assert(numeral_letter(w[0]));
        lemma_numeral_letter_normal(w[0]);
        lemma_numeral_letter_normal(w.last());
        lemma_trim_plain(w);
        assert(parse_u32(w) is None) by {
            assert(!is_digit(w[0]));
        }
        lemma_find(w, '\'');
        match split_once(w, '\'') {
            Some((x, y)) => {
                let k = find(w, '\'').unwrap();
                assert(bb.len() == 1 && k == 1) by {
                    if bb.len() > 1 {
                        assert(w[k] == '\'');
                        if k < bb.len() - 1 {
                            assert(w[k] == bb[k]);
                        } else if k == bb.len() {
                            assert(w[k] == bb.last());
                            assert(numeral_letter(bb[bb.len() - 1]));
                        }
                    } else {
                        assert(w[0] == bb[0]);
                    }
                }
                assert(y.len() == 0);
                assert(trim(y).len() == 0);
            },
            None => {},
        }
    } else {
        lemma_bare_letters(a);
        lemma_bare_reads_back(a);
        let ba = bare(a);
        lemma_unmarked_plain(ba);
        assert(read_numeral(ba) == Some(a as u32)) by {
            assert(unmarked(ba) == ba);
        }
        assert(w == ba + seq!['\''] + m);
        assert forall|i: int| 0 <= i < w.len() implies normal_char(#[trigger] w[i]) by {
            if i < ba.len() {
                assert(w[i] == ba[i]);
                lemma_numeral_letter_normal(ba[i]);
            } else if i == ba.len() {
                lemma_numeral_letter_normal('\'');
            } else {
                assert(w[i] == m[i - ba.len() - 1]);
                lemma_numeral_letter_normal(m[i - ba.len() - 1]);
            }
        }
        lemma_one_word_normal(w);
        assert(w[0] == ba[0]);
        lemma_numeral_letter_normal(w[0]);
        assert(w.last() == m.last());
        lemma_numeral_letter_normal(w.last());
        lemma_trim_plain(w);
        assert(parse_u32(w) is None) by {
            assert(!is_digit(w[0]));
        }
        assert forall|j: int| 0 <= j < ba.len() implies w[j] != '\'' by {
            assert(w[j] == ba[j]);
        }
        lemma_find_at(w, '\'', ba.len() as int);
        assert(w.take(ba.len() as int) =~= ba);
        assert(w.skip(ba.len() as int + 1) =~= m);
        assert(m[0] == bb[0]);
        lemma_numeral_letter_normal(m[0]);
        assert(trim(m).len() > 0) by {
            assert(trim_start(m) == m);
            lemma_numeral_letter_normal(m.last());
        }
        assert(a * 1000 + b == n);
    }
}

} // verus!
