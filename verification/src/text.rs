//! Strings as sequences of characters: the few operations the library needs,
//! each with the meaning std gives it stated as a spec function.
use vstd::prelude::*;

verus! {

// ---------------------------------------------------------------------------
// Characters
// ---------------------------------------------------------------------------

/// Unicode `White_Space`, which is what `char::is_whitespace` answers.
pub open spec fn is_ws(c: char) -> bool {
    ||| ('\u{0009}' <= c && c <= '\u{000D}')
    ||| c == ' '
    ||| c == '\u{0085}'
    ||| c == '\u{00A0}'
    ||| c == '\u{1680}'
    ||| ('\u{2000}' <= c && c <= '\u{200A}')
    ||| c == '\u{2028}'
    ||| c == '\u{2029}'
    ||| c == '\u{202F}'
    ||| c == '\u{205F}'
    ||| c == '\u{3000}'
}

pub fn is_whitespace(c: char) -> (b: bool)
    ensures
        b == is_ws(c),
{
    ('\u{0009}' <= c && c <= '\u{000D}') || c == ' ' || c == '\u{0085}' || c == '\u{00A0}'
        || c == '\u{1680}' || ('\u{2000}' <= c && c <= '\u{200A}') || c == '\u{2028}' || c
        == '\u{2029}' || c == '\u{202F}' || c == '\u{205F}' || c == '\u{3000}'
}

pub open spec fn is_digit(c: char) -> bool {
    '0' <= c && c <= '9'
}

pub open spec fn is_ascii_alnum(c: char) -> bool {
    is_digit(c) || ('a' <= c && c <= 'z') || ('A' <= c && c <= 'Z')
}

pub open spec fn ascii_lower(c: char) -> char {
    if 'A' <= c && c <= 'Z' {
        ((c as u32) + 32) as char
    } else {
        c
    }
}

pub fn is_ascii_digit(c: char) -> (b: bool)
    ensures
        b == is_digit(c),
{
    '0' <= c && c <= '9'
}

pub fn is_ascii_alphanumeric(c: char) -> (b: bool)
    ensures
        b == is_ascii_alnum(c),
{
    ('0' <= c && c <= '9') || ('a' <= c && c <= 'z') || ('A' <= c && c <= 'Z')
}

pub fn to_ascii_lowercase(c: char) -> (r: char)
    ensures
        r == ascii_lower(c),
{
    if 'A' <= c && c <= 'Z' {
        let cv: u32 = c as u32;
        let b: u8 = (cv + 32) as u8;
        let r = b as char;
        r
    } else {
        c
    }
}

/// The texts held by a list of character vectors.
pub open spec fn texts(v: Seq<Vec<char>>) -> Seq<Seq<char>> {
    v.map_values(|x: Vec<char>| x@)
}

// ---------------------------------------------------------------------------
// Conversions
// ---------------------------------------------------------------------------

/// The text an optional string holds.
pub open spec fn opt_text(o: Option<String>) -> Option<Seq<char>> {
    match o {
        Some(s) => Some(s@),
        None => None,
    }
}

/// The text of each string in a list.
pub open spec fn strings(v: Seq<String>) -> Seq<Seq<char>> {
    v.map_values(|s: String| s@)
}

/// Append one character to a string: `String::push`, which the standard
/// library documents as appending the character to the end.
#[verifier::external_body]
pub(crate) fn push_char(s: &mut String, c: char)
    ensures
        final(s)@ == old(s)@.push(c),
{
    s.push(c);
}

/// Empty a string, keeping its allocation: `String::clear`, which the
/// standard library documents as truncating the string to length zero.
#[verifier::external_body]
pub(crate) fn clear_string(s: &mut String)
    ensures
        final(s)@ == Seq::<char>::empty(),
{
    s.clear();
}

/// Append a text to a string.
pub fn push_text(s: &mut String, t: &str)
    ensures
        final(s)@ == old(s)@ + t@,
{
    let v = chars_of(t);
    let mut i: usize = 0;
    while i < v.len()
        invariant
            i <= v.len(),
            v@ == t@,
            s@ == old(s)@ + v@.take(i as int),
        decreases v.len() - i,
    {
        push_char(s, v[i]);
        assert(v@.take(i + 1) =~= v@.take(i as int).push(v@[i as int]));
        i += 1;
    }
    assert(v@.take(v.len() as int) =~= v@);
}

/// The characters of a string, in order.
pub fn chars_of(s: &str) -> (v: Vec<char>)
    ensures
        v@ == s@,
{
    let mut v: Vec<char> = Vec::new();
    for c in it: s.chars()
        invariant
            v@ == it.seq().take(it.index() as int),
    {
        v.push(c);
    }
    v
}

/// A string holding exactly these characters.
pub fn string_of(v: &[char]) -> (s: String)
    ensures
        s@ == v@,
{
    let mut s = String::new();
    let mut i: usize = 0;
    while i < v.len()
        invariant
            i <= v.len(),
            s@ == v@.take(i as int),
        decreases v.len() - i,
    {
        push_char(&mut s, v[i]);
        assert(v@.take(i as int + 1) == v@.take(i as int).push(v@[i as int]));
        i += 1;
    }
    assert(v@.take(v.len() as int) == v@);
    s
}

/// Append a run of characters to a vector.
pub fn push_all(out: &mut Vec<char>, v: &[char])
    ensures
        final(out)@ == old(out)@ + v@,
{
    let mut i: usize = 0;
    while i < v.len()
        invariant
            i <= v.len(),
            out@ == old(out)@ + v@.take(i as int),
        decreases v.len() - i,
    {
        out.push(v[i]);
        assert(v@.take(i as int + 1) == v@.take(i as int).push(v@[i as int]));
        i += 1;
    }
    assert(v@.take(v.len() as int) == v@);
}

/// A copy of a run of characters.
pub fn copy_of(v: &[char]) -> (r: Vec<char>)
    ensures
        r@ == v@,
{
    let mut r: Vec<char> = Vec::new();
    push_all(&mut r, v);
    r
}

/// The characters `from..to` of a run.
pub fn slice_of(v: &[char], from: usize, to: usize) -> (r: Vec<char>)
    requires
        from <= to <= v.len(),
    ensures
        r@ == v@.subrange(from as int, to as int),
{
    let mut r: Vec<char> = Vec::new();
    let mut i = from;
    while i < to
        invariant
            from <= i <= to <= v.len(),
            r@ == v@.subrange(from as int, i as int),
        decreases to - i,
    {
        r.push(v[i]);
        assert(v@.subrange(from as int, i + 1) == v@.subrange(from as int, i as int).push(
            v@[i as int],
        ));
        i += 1;
    }
    r
}

pub fn eq_chars(a: &[char], b: &[char]) -> (r: bool)
    ensures
        r == (a@ == b@),
{
    if a.len() != b.len() {
        return false;
    }
    let mut i: usize = 0;
    while i < a.len()
        invariant
            a.len() == b.len(),
            i <= a.len(),
            forall|j: int| 0 <= j < i ==> a@[j] == b@[j],
        decreases a.len() - i,
    {
        if a[i] != b[i] {
            return false;
        }
        i += 1;
    }
    assert(a@ == b@);
    true
}

pub fn contains_char(v: &[char], c: char) -> (r: bool)
    ensures
        r == v@.contains(c),
{
    let mut i: usize = 0;
    while i < v.len()
        invariant
            i <= v.len(),
            forall|j: int| 0 <= j < i ==> v@[j] != c,
        decreases v.len() - i,
    {
        if v[i] == c {
            return true;
        }
        i += 1;
    }
    false
}

/// Whether two strings hold the same text.
pub fn same_text(a: &str, b: &str) -> (r: bool)
    ensures
        r == (a@ == b@),
{
    let x = chars_of(a);
    let y = chars_of(b);
    eq_chars(x.as_slice(), y.as_slice())
}

/// Whether a list of texts holds this one.
pub fn contains_text(list: &Vec<Vec<char>>, t: &[char]) -> (r: bool)
    ensures
        r == texts(list@).contains(t@),
{
    let mut i: usize = 0;
    while i < list.len()
        invariant
            i <= list.len(),
            forall|j: int| 0 <= j < i ==> texts(list@)[j] != t@,
        decreases list.len() - i,
    {
        assert(texts(list@)[i as int] == list@[i as int]@);
        if eq_chars(list[i].as_slice(), t) {
            return true;
        }
        i += 1;
    }
    false
}

/// Each text of a list, as a string.
pub fn to_strings(list: &Vec<Vec<char>>) -> (r: Vec<String>)
    ensures
        strings(r@) == texts(list@),
{
    let mut r: Vec<String> = Vec::new();
    let mut i: usize = 0;
    while i < list.len()
        invariant
            i <= list.len(),
            strings(r@) == texts(list@).take(i as int),
        decreases list.len() - i,
    {
        let ghost before = strings(r@);
        r.push(string_of(list[i].as_slice()));
        assert(strings(r@) =~= before.push(list@[i as int]@));
        assert(texts(list@).take(i + 1) =~= texts(list@).take(i as int).push(list@[i as int]@));
        i += 1;
    }
    assert(texts(list@).take(list.len() as int) =~= texts(list@));
    r
}

// ---------------------------------------------------------------------------
// Searching
// ---------------------------------------------------------------------------

/// The first place `c` occurs.
pub open spec fn find(s: Seq<char>, c: char) -> Option<int>
    decreases s.len(),
{
    if s.len() == 0 {
        None
    } else if s[0] == c {
        Some(0)
    } else {
        match find(s.drop_first(), c) {
            Some(i) => Some(i + 1),
            None => None,
        }
    }
}

/// The last place `c` occurs.
pub open spec fn rfind(s: Seq<char>, c: char) -> Option<int>
    decreases s.len(),
{
    if s.len() == 0 {
        None
    } else if s.last() == c {
        Some(s.len() - 1)
    } else {
        rfind(s.drop_last(), c)
    }
}

pub proof fn lemma_find(s: Seq<char>, c: char)
    ensures
        match find(s, c) {
            Some(i) => 0 <= i < s.len() && s[i] == c && forall|j: int| 0 <= j < i ==> s[j] != c,
            None => forall|j: int| 0 <= j < s.len() ==> s[j] != c,
        },
    decreases s.len(),
{
    if s.len() > 0 && s[0] != c {
        lemma_find(s.drop_first(), c);
        match find(s.drop_first(), c) {
            Some(i) => {
                assert forall|j: int| 0 <= j < i + 1 implies s[j] != c by {
                    if j > 0 {
                        assert(s[j] == s.drop_first()[j - 1]);
                    }
                }
            },
            None => {
                assert forall|j: int| 0 <= j < s.len() implies s[j] != c by {
                    if j > 0 {
                        assert(s[j] == s.drop_first()[j - 1]);
                    }
                }
            },
        }
    }
}

pub proof fn lemma_rfind(s: Seq<char>, c: char)
    ensures
        match rfind(s, c) {
            Some(i) => 0 <= i < s.len() && s[i] == c && forall|j: int| i < j < s.len() ==> s[j] != c,
            None => forall|j: int| 0 <= j < s.len() ==> s[j] != c,
        },
    decreases s.len(),
{
    if s.len() > 0 && s.last() != c {
        lemma_rfind(s.drop_last(), c);
        assert forall|j: int| 0 <= j < s.len() - 1 implies s[j] == s.drop_last()[j] by {}
    }
}

/// The first index of `c` at or after `from`.
pub fn find_from(s: &[char], c: char, from: usize) -> (r: Option<usize>)
    requires
        from <= s.len(),
    ensures
        match r {
            Some(i) => from <= i < s.len() && s@[i as int] == c && forall|j: int|
                from <= j < i ==> s@[j] != c,
            None => forall|j: int| from <= j < s.len() ==> s@[j] != c,
        },
{
    let mut i = from;
    while i < s.len()
        invariant
            from <= i <= s.len(),
            forall|j: int| from <= j < i ==> s@[j] != c,
        decreases s.len() - i,
    {
        if s[i] == c {
            return Some(i);
        }
        i += 1;
    }
    None
}

pub fn find_char(s: &[char], c: char) -> (r: Option<usize>)
    ensures
        r matches Some(i) ==> find(s@, c) == Some(i as int),
        r is None ==> find(s@, c) is None,
{
    proof {
        lemma_find(s@, c);
    }
    let r = find_from(s, c, 0);
    match r {
        Some(i) => {
            assert(find(s@, c) == Some(i as int)) by {
                match find(s@, c) {
                    Some(k) => {
                        if k < i {
                        } else if i < k {
                            assert(s@[i as int] == c);
                        }
                    },
                    None => {
                        assert(s@[i as int] == c);
                    },
                }
            }
        },
        None => {},
    }
    r
}

pub fn rfind_char(s: &[char], c: char) -> (r: Option<usize>)
    ensures
        r matches Some(i) ==> rfind(s@, c) == Some(i as int),
        r is None ==> rfind(s@, c) is None,
{
    proof {
        lemma_rfind(s@, c);
    }
    let mut i = s.len();
    while i > 0
        invariant
            i <= s.len(),
            forall|j: int| i <= j < s.len() ==> s@[j] != c,
        decreases i,
    {
        if s[i - 1] == c {
            proof {
                lemma_rfind(s@, c);
                match rfind(s@, c) {
                    Some(k) => {
                        if k < i - 1 {
                            assert(s@[i - 1] == c);
                        } else if k > i - 1 {
                            assert(s@[k] == c);
                        }
                    },
                    None => {
                        assert(s@[i - 1] == c);
                    },
                }
            }
            return Some(i - 1);
        }
        i -= 1;
    }
    proof {
        lemma_rfind(s@, c);
        match rfind(s@, c) {
            Some(k) => {
                assert(s@[k] == c);
            },
            None => {},
        }
    }
    None
}

/// `split_once`: around the first `c`.
pub open spec fn split_once(s: Seq<char>, c: char) -> Option<(Seq<char>, Seq<char>)> {
    match find(s, c) {
        Some(i) => Some((s.take(i), s.skip(i + 1))),
        None => None,
    }
}

/// `rsplit_once`: around the last `c`.
pub open spec fn rsplit_once(s: Seq<char>, c: char) -> Option<(Seq<char>, Seq<char>)> {
    match rfind(s, c) {
        Some(i) => Some((s.take(i), s.skip(i + 1))),
        None => None,
    }
}

pub fn split_once_char(s: &[char], c: char) -> (r: Option<(Vec<char>, Vec<char>)>)
    ensures
        match r {
            Some((a, b)) => split_once(s@, c) == Some((a@, b@)),
            None => split_once(s@, c) is None,
        },
{
    match find_char(s, c) {
        Some(i) => {
            proof {
                lemma_find(s@, c);
            }
            assert(i < s.len());
            let a = slice_of(s, 0, i);
            let b = slice_of(s, i + 1, s.len());
            assert(a@ == s@.take(i as int));
            assert(b@ == s@.skip(i + 1));
            Some((a, b))
        },
        None => None,
    }
}

pub fn rsplit_once_char(s: &[char], c: char) -> (r: Option<(Vec<char>, Vec<char>)>)
    ensures
        match r {
            Some((a, b)) => rsplit_once(s@, c) == Some((a@, b@)),
            None => rsplit_once(s@, c) is None,
        },
{
    match rfind_char(s, c) {
        Some(i) => {
            proof {
                lemma_rfind(s@, c);
            }
            let a = slice_of(s, 0, i);
            assert(i < s.len());
            let b = slice_of(s, i + 1, s.len());
            assert(a@ == s@.take(i as int));
            assert(b@ == s@.skip(i + 1));
            Some((a, b))
        },
        None => None,
    }
}

pub open spec fn starts_with(s: Seq<char>, p: Seq<char>) -> bool {
    p.len() <= s.len() && s.take(p.len() as int) == p
}

pub open spec fn ends_with(s: Seq<char>, p: Seq<char>) -> bool {
    p.len() <= s.len() && s.skip(s.len() - p.len()) == p
}

pub fn has_prefix_at(s: &[char], at: usize, p: &[char]) -> (r: bool)
    requires
        at <= s.len(),
    ensures
        r == starts_with(s@.skip(at as int), p@),
{
    if s.len() - at < p.len() {
        return false;
    }
    let mut i: usize = 0;
    while i < p.len()
        invariant
            at + p.len() <= s.len(),
            i <= p.len(),
            forall|j: int| 0 <= j < i ==> s@[at + j] == p@[j],
        decreases p.len() - i,
    {
        if s[at + i] != p[i] {
            assert(s@.skip(at as int).take(p.len() as int)[i as int] != p@[i as int]);
            return false;
        }
        i += 1;
    }
    assert(s@.skip(at as int).take(p.len() as int) == p@);
    true
}

pub fn has_prefix(s: &[char], p: &[char]) -> (r: bool)
    ensures
        r == starts_with(s@, p@),
{
    let r = has_prefix_at(s, 0, p);
    assert(s@.skip(0) == s@);
    r
}

pub fn has_suffix(s: &[char], p: &[char]) -> (r: bool)
    ensures
        r == ends_with(s@, p@),
{
    if p.len() > s.len() {
        return false;
    }
    let r = has_prefix_at(s, s.len() - p.len(), p);
    assert(s@.skip(s.len() - p.len()).take(p.len() as int) == s@.skip(s.len() - p.len()));
    r
}

// ---------------------------------------------------------------------------
// Trimming
// ---------------------------------------------------------------------------

pub open spec fn trim_start(s: Seq<char>) -> Seq<char>
    decreases s.len(),
{
    if s.len() > 0 && is_ws(s[0]) {
        trim_start(s.drop_first())
    } else {
        s
    }
}

pub open spec fn trim_end(s: Seq<char>) -> Seq<char>
    decreases s.len(),
{
    if s.len() > 0 && is_ws(s.last()) {
        trim_end(s.drop_last())
    } else {
        s
    }
}

/// `str::trim`.
pub open spec fn trim(s: Seq<char>) -> Seq<char> {
    trim_end(trim_start(s))
}

/// Text that neither starts nor ends with whitespace is its own trim.
pub proof fn lemma_trim_plain(s: Seq<char>)
    requires
        s.len() > 0,
        !is_ws(s[0]),
        !is_ws(s.last()),
    ensures
        trim(s) == s,
{
}

/// What `str::trim` leaves, when anything, starts and ends with a
/// character that is not whitespace.
pub proof fn lemma_trim_ends(s: Seq<char>)
    ensures
        trim(s).len() > 0 ==> !is_ws(trim(s)[0]) && !is_ws(trim(s).last()),
{
    lemma_trim_start_head(s);
    lemma_trim_end_prefix(trim_start(s));
    if trim(s).len() > 0 {
        assert(trim(s)[0] == trim_start(s)[0]);
    }
}

proof fn lemma_trim_start_head(s: Seq<char>)
    ensures
        trim_start(s).len() > 0 ==> !is_ws(trim_start(s)[0]),
    decreases s.len(),
{
    if s.len() > 0 && is_ws(s[0]) {
        lemma_trim_start_head(s.drop_first());
    }
}

proof fn lemma_trim_end_prefix(t: Seq<char>)
    ensures
        trim_end(t).len() <= t.len(),
        trim_end(t) == t.take(trim_end(t).len() as int),
        trim_end(t).len() > 0 ==> !is_ws(trim_end(t).last()),
    decreases t.len(),
{
    if t.len() > 0 && is_ws(t.last()) {
        lemma_trim_end_prefix(t.drop_last());
        assert(t.drop_last().take(trim_end(t).len() as int) == t.take(trim_end(t).len() as int));
    } else {
        assert(t.take(t.len() as int) == t);
    }
}

proof fn lemma_trim_start_skip(s: Seq<char>, i: int)
    requires
        0 <= i <= s.len(),
        forall|j: int| 0 <= j < i ==> is_ws(s[j]),
        i == s.len() || !is_ws(s[i]),
    ensures
        trim_start(s) == s.skip(i),
    decreases i,
{
    if i > 0 {
        assert forall|j: int| 0 <= j < i - 1 implies is_ws(s.drop_first()[j]) by {
            assert(s.drop_first()[j] == s[j + 1]);
        }
        if i - 1 < s.drop_first().len() {
            assert(s.drop_first()[i - 1] == s[i]);
        }
        lemma_trim_start_skip(s.drop_first(), i - 1);
        assert(s.drop_first().skip(i - 1) == s.skip(i));
    } else {
        assert(s.skip(0) == s);
    }
}

proof fn lemma_trim_end_take(s: Seq<char>, i: int)
    requires
        0 <= i <= s.len(),
        forall|j: int| i <= j < s.len() ==> is_ws(s[j]),
        i == 0 || !is_ws(s[i - 1]),
    ensures
        trim_end(s) == s.take(i),
    decreases s.len() - i,
{
    if i < s.len() {
        assert(s.drop_last().len() == s.len() - 1);
        lemma_trim_end_take(s.drop_last(), i);
        assert(s.drop_last().take(i) == s.take(i));
    } else {
        assert(s.take(i) == s);
    }
}

pub fn trim_chars(s: &[char]) -> (r: Vec<char>)
    ensures
        r@ == trim(s@),
{
    let mut a: usize = 0;
    while a < s.len() && is_whitespace(s[a])
        invariant
            a <= s.len(),
            forall|j: int| 0 <= j < a ==> is_ws(s@[j]),
        decreases s.len() - a,
    {
        a += 1;
    }
    proof {
        lemma_trim_start_skip(s@, a as int);
    }
    let mut b: usize = s.len();
    while b > a && is_whitespace(s[b - 1])
        invariant
            a <= b <= s.len(),
            forall|j: int| b <= j < s.len() ==> is_ws(s@[j]),
        decreases b,
    {
        b -= 1;
    }
    let ghost t = s@.skip(a as int);
    proof {
        assert forall|j: int| b - a <= j < t.len() implies is_ws(t[j]) by {
            assert(t[j] == s@[j + a]);
        }
        if b > a {
            assert(t[b - a - 1] == s@[b - 1]);
        }
        lemma_trim_end_take(t, b - a);
        assert(t.take(b - a) == s@.subrange(a as int, b as int));
    }
    slice_of(s, a, b)
}

/// Whether a run is nothing but whitespace.
pub fn is_blank(s: &[char]) -> (r: bool)
    ensures
        r == (trim(s@).len() == 0),
        r == (forall|j: int| 0 <= j < s@.len() ==> is_ws(s@[j])),
{
    let mut i: usize = 0;
    while i < s.len()
        invariant
            i <= s.len(),
            forall|j: int| 0 <= j < i ==> is_ws(s@[j]),
        decreases s.len() - i,
    {
        if !is_whitespace(s[i]) {
            proof {
                lemma_trim_nonempty(s@, i as int);
            }
            return false;
        }
        i += 1;
    }
    proof {
        lemma_trim_start_skip(s@, s.len() as int);
    }
    true
}

proof fn lemma_trim_nonempty(s: Seq<char>, k: int)
    requires
        0 <= k < s.len(),
        !is_ws(s[k]),
    ensures
        trim(s).len() > 0,
    decreases s.len(),
{
    if is_ws(s[0]) {
        assert(s.drop_first()[k - 1] == s[k]);
        lemma_trim_nonempty(s.drop_first(), k - 1);
    } else {
        lemma_trim_end_keeps(s, k);
    }
}

proof fn lemma_trim_end_keeps(t: Seq<char>, k: int)
    requires
        0 <= k < t.len(),
        !is_ws(t[k]),
    ensures
        trim_end(t).len() > k,
    decreases t.len(),
{
    if is_ws(t.last()) {
        lemma_trim_end_keeps(t.drop_last(), k);
    }
}

// ---------------------------------------------------------------------------
// Splitting and joining
// ---------------------------------------------------------------------------

/// `str::split(c)`.
pub open spec fn split(s: Seq<char>, c: char) -> Seq<Seq<char>>
    decreases s.len(),
{
    if s.len() == 0 {
        seq![Seq::<char>::empty()]
    } else {
        let p = split(s.drop_last(), c);
        if s.last() == c {
            p.push(Seq::<char>::empty())
        } else {
            p.update(p.len() - 1, p.last().push(s.last()))
        }
    }
}

pub proof fn lemma_split_len(s: Seq<char>, c: char)
    ensures
        split(s, c).len() >= 1,
    decreases s.len(),
{
    if s.len() > 0 {
        lemma_split_len(s.drop_last(), c);
    }
}

pub fn split_char(s: &[char], c: char) -> (r: Vec<Vec<char>>)
    ensures
        texts(r@) == split(s@, c),
{
    let mut out: Vec<Vec<char>> = Vec::new();
    let mut cur: Vec<char> = Vec::new();
    let mut i: usize = 0;
    while i < s.len()
        invariant
            i <= s.len(),
            texts(out@).push(cur@) =~= split(s@.take(i as int), c),
        decreases s.len() - i,
    {
        let ghost before = texts(out@);
        assert(s@.take(i as int + 1).drop_last() == s@.take(i as int));
        proof {
            lemma_split_len(s@.take(i as int), c);
        }
        if s[i] == c {
            let done = cur;
            out.push(done);
            cur = Vec::new();
            assert(texts(out@) =~= before.push(done@));
        } else {
            cur.push(s[i]);
        }
        assert(texts(out@).push(cur@) =~= split(s@.take(i as int + 1), c));
        i += 1;
    }
    out.push(cur);
    assert(s@.take(s.len() as int) == s@);
    out
}

/// `str::split_whitespace`.
pub open spec fn words(s: Seq<char>) -> Seq<Seq<char>>
    decreases s.len(),
{
    if s.len() == 0 {
        Seq::empty()
    } else {
        let p = words(s.drop_last());
        if is_ws(s.last()) {
            p
        } else if s.len() >= 2 && !is_ws(s[s.len() - 2]) && p.len() > 0 {
            p.update(p.len() - 1, p.last().push(s.last()))
        } else {
            p.push(seq![s.last()])
        }
    }
}

pub fn split_whitespace(s: &[char]) -> (r: Vec<Vec<char>>)
    ensures
        texts(r@) == words(s@),
{
    let mut out: Vec<Vec<char>> = Vec::new();
    let mut cur: Vec<char> = Vec::new();
    let mut i: usize = 0;
    while i < s.len()
        invariant
            i <= s.len(),
            cur@.len() > 0 ==> i > 0 && !is_ws(s@[i - 1]),
            cur@.len() == 0 ==> (i == 0 || is_ws(s@[i - 1])),
            (if cur@.len() > 0 {
                texts(out@).push(cur@)
            } else {
                texts(out@)
            }) == words(s@.take(i as int)),
        decreases s.len() - i,
    {
        let ghost before = texts(out@);
        let ghost t = s@.take(i as int + 1);
        assert(t.drop_last() == s@.take(i as int));
        assert(t.last() == s@[i as int]);
        if i > 0 {
            assert(t[t.len() - 2] == s@[i - 1]);
        }
        if is_whitespace(s[i]) {
            if cur.len() > 0 {
                let done = cur;
                out.push(done);
                cur = Vec::new();
                assert(texts(out@) =~= before.push(done@));
            }
        } else {
            let ghost old_cur = cur@;
            cur.push(s[i]);
            proof {
                if old_cur.len() > 0 {
                    assert(before.push(old_cur).update(
                        before.len() as int,
                        old_cur.push(s@[i as int]),
                    ) =~= before.push(cur@));
                } else {
                    assert(cur@ =~= seq![s@[i as int]]);
                }
            }
        }
        assert((if cur@.len() > 0 {
            texts(out@).push(cur@)
        } else {
            texts(out@)
        }) =~= words(t));
        i += 1;
    }
    if cur.len() > 0 {
        out.push(cur);
    }
    assert(s@.take(s.len() as int) == s@);
    out
}

/// `join` of texts with a separator.
pub open spec fn join(parts: Seq<Seq<char>>, sep: Seq<char>) -> Seq<char>
    decreases parts.len(),
{
    if parts.len() == 0 {
        Seq::empty()
    } else if parts.len() == 1 {
        parts[0]
    } else {
        join(parts.drop_last(), sep) + sep + parts.last()
    }
}

pub fn join_chars(parts: &[Vec<char>], from: usize, to: usize, sep: &[char]) -> (r: Vec<char>)
    requires
        from <= to <= parts.len(),
    ensures
        r@ == join(texts(parts@).subrange(from as int, to as int), sep@),
{
    let mut out: Vec<char> = Vec::new();
    let mut i = from;
    while i < to
        invariant
            from <= i <= to <= parts.len(),
            out@ == join(texts(parts@).subrange(from as int, i as int), sep@),
        decreases to - i,
    {
        let ghost p = texts(parts@).subrange(from as int, i as int + 1);
        assert(p.drop_last() == texts(parts@).subrange(from as int, i as int));
        assert(p.last() == parts[i as int]@);
        if i > from {
            push_all(&mut out, sep);
        }
        push_all(&mut out, parts[i].as_slice());
        i += 1;
    }
    out
}

// ---------------------------------------------------------------------------
// Decimal numbers
// ---------------------------------------------------------------------------

pub open spec fn digit_char(d: nat) -> char {
    ((d + 48) as u32) as char
}

/// How `u32::to_string` and friends write a number.
pub open spec fn decimal(n: nat) -> Seq<char>
    decreases n,
{
    if n < 10 {
        seq![digit_char(n)]
    } else {
        decimal(n / 10).push(digit_char(n % 10))
    }
}

/// The value of a run of ASCII digits.
pub open spec fn digits_value(s: Seq<char>) -> nat
    decreases s.len(),
{
    if s.len() == 0 {
        0
    } else {
        digits_value(s.drop_last()) * 10 + ((s.last() as nat) - 48) as nat
    }
}

pub open spec fn all_digits(s: Seq<char>) -> bool {
    forall|i: int| 0 <= i < s.len() ==> is_digit(#[trigger] s[i])
}

/// What `str::parse` reads as an unsigned number, before the bound of its
/// type is applied: an optional `+`, then one or more ASCII digits.
pub open spec fn parse_decimal(s: Seq<char>) -> Option<nat> {
    let body = if s.len() > 0 && s[0] == '+' {
        s.drop_first()
    } else {
        s
    };
    if body.len() > 0 && all_digits(body) {
        Some(digits_value(body))
    } else {
        None
    }
}

/// `u32::from_str`.
pub open spec fn parse_u32(s: Seq<char>) -> Option<u32> {
    match parse_decimal(s) {
        Some(n) => if n <= u32::MAX {
            Some(n as u32)
        } else {
            None
        },
        None => None,
    }
}

/// `usize::from_str`.
pub open spec fn parse_usize(s: Seq<char>) -> Option<usize> {
    match parse_decimal(s) {
        Some(n) => if n <= usize::MAX {
            Some(n as usize)
        } else {
            None
        },
        None => None,
    }
}

/// `u8::from_str`.
pub open spec fn parse_u8(s: Seq<char>) -> Option<u8> {
    match parse_decimal(s) {
        Some(n) => if n <= u8::MAX {
            Some(n as u8)
        } else {
            None
        },
        None => None,
    }
}

proof fn lemma_digits_value_bound(s: Seq<char>, k: int)
    requires
        all_digits(s),
        0 <= k <= s.len(),
    ensures
        digits_value(s.take(k)) <= digits_value(s),
    decreases s.len() - k,
{
    if k < s.len() {
        lemma_digits_value_bound(s.drop_last(), k);
        assert(s.drop_last().take(k) == s.take(k));
        assert(all_digits(s.drop_last()));
    } else {
        assert(s.take(k) == s);
    }
}

/// Read an unsigned decimal, refusing anything above `max`.
fn parse_bounded(s: &[char], max: u64) -> (r: Option<u64>)
    requires
        max >= 255,
    ensures
        match r {
            Some(n) => parse_decimal(s@) == Some(n as nat) && n <= max,
            None => parse_decimal(s@) is None || parse_decimal(s@).unwrap() > max,
        },
{
    let start: usize = if s.len() > 0 && s[0] == '+' {
        1
    } else {
        0
    };
    let ghost body = if s@.len() > 0 && s@[0] == '+' {
        s@.drop_first()
    } else {
        s@
    };
    assert(body == s@.skip(start as int));
    if start >= s.len() {
        return None;
    }
    let mut v: u64 = 0;
    let mut i = start;
    while i < s.len()
        invariant
            start <= i <= s.len(),
            body == s@.skip(start as int),
            all_digits(body.take(i - start)),
            v as nat == digits_value(body.take(i - start)),
            v <= max,
            max >= 255,
            body == (if s@.len() > 0 && s@[0] == '+' {
                s@.drop_first()
            } else {
                s@
            }),
        decreases s.len() - i,
    {
        let c = s[i];
        let ghost t = body.take(i - start + 1);
        assert(t.drop_last() == body.take(i - start));
        assert(t.last() == c);
        if !is_ascii_digit(c) {
            assert(body[i - start] == c);
            assert(!all_digits(body));
            assert(parse_decimal(s@) is None);
            return None;
        }
        let d: u64 = (c as u32 - 48) as u64;
        assert(all_digits(t)) by {
            assert forall|j: int| 0 <= j < t.len() implies is_digit(#[trigger] t[j]) by {
                if j < t.len() - 1 {
                    assert(t[j] == body.take(i - start)[j]);
                }
            }
        }
        if v > (max - d) / 10 {
            proof {
                assert(digits_value(t) == v * 10 + d);
                assert(v * 10 + d > max) by (nonlinear_arith)
                    requires
                        v > (max - d) / 10,
                        d <= max || true,
                        d <= 9,
                ;
                if all_digits(body) {
                    lemma_digits_value_bound(body, i - start + 1);
                }
            }
            return None;
        }
        assert(v * 10 + d <= max) by (nonlinear_arith)
            requires
                v <= (max - d) / 10,
                d <= 9,
        ;
        v = v * 10 + d;
        i += 1;
    }
    assert(body.take(s.len() - start) == body);
    Some(v)
}

pub fn parse_u32_chars(s: &[char]) -> (r: Option<u32>)
    ensures
        r == parse_u32(s@),
{
    match parse_bounded(s, 0xFFFF_FFFFu64) {
        Some(n) => Some(n as u32),
        None => None,
    }
}

pub fn parse_usize_chars(s: &[char]) -> (r: Option<usize>)
    ensures
        r == parse_usize(s@),
{
    match parse_bounded(s, usize::MAX as u64) {
        Some(n) => Some(n as usize),
        None => None,
    }
}

pub fn parse_u8_chars(s: &[char]) -> (r: Option<u8>)
    ensures
        r == parse_u8(s@),
{
    match parse_bounded(s, 255u64) {
        Some(n) => Some(n as u8),
        None => None,
    }
}

pub fn digit_of(d: u64) -> (c: char)
    requires
        d < 10,
    ensures
        c == digit_char(d as nat),
{
    let b: u8 = (d as u8) + 48;
    let c = b as char;
    c
}

/// A number written the way `to_string` writes it.
pub fn decimal_of(n: u64) -> (r: Vec<char>)
    ensures
        r@ == decimal(n as nat),
    decreases n,
{
    if n < 10 {
        let mut r: Vec<char> = Vec::new();
        r.push(digit_of(n));
        r
    } else {
        let mut r = decimal_of(n / 10);
        r.push(digit_of(n % 10));
        r
    }
}

pub proof fn lemma_decimal_digits(n: nat)
    ensures
        all_digits(decimal(n)),
        decimal(n).len() > 0,
        digits_value(decimal(n)) == n,
        decimal(n)[0] != '+',
    decreases n,
{
    if n >= 10 {
        lemma_decimal_digits(n / 10);
        let d = decimal(n);
        assert(d.drop_last() == decimal(n / 10));
        assert(d[0] == decimal(n / 10)[0]);
        assert(all_digits(d)) by {
            assert forall|i: int| 0 <= i < d.len() implies is_digit(#[trigger] d[i]) by {
                if i < d.len() - 1 {
                    assert(d[i] == decimal(n / 10)[i]);
                }
            }
        }
    } else {
        assert(digits_value(decimal(n).drop_last()) == 0);
    }
}

/// What `to_string` writes, `parse` reads back.
pub proof fn lemma_decimal_parses(n: nat)
    ensures
        parse_decimal(decimal(n)) == Some(n),
{
    lemma_decimal_digits(n);
}

} // verus!
