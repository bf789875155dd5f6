//! `girsa://` and `ksav://`: a citation you can click, anywhere.
//!
//! The operating system registers the scheme and hands the application the
//! whole URL; this turns that string into an errand. There are two shapes of
//! open, and the short one is the important one: a ref such as
//! `girsa:bavli/berakhot/2a:1` is already a `girsa:` URI, so the string a
//! document has been storing all along is a link that works. The long form
//! `girsa://open?ref=…` reads too.
//!
//! Anything that is not one of these errands is refused with `None`: a URL
//! handler is an entry point the whole machine can reach, and the errands it
//! accepts, show me a place and insert a source, touch no file.

use vstd::prelude::*;
use vstd::utf8::{decode_utf8, encode_utf8, valid_utf8};

use crate::post::{app_name, utf8_text, App};
use crate::text::{
    ascii_lower, push_all, to_ascii_lowercase,
    chars_of, eq_chars, find, has_prefix, is_ws, opt_text, slice_of, split, split_char, split_once,
    split_once_char, starts_with, string_of, texts, trim, trim_chars,
};

verus! {

/// What a link asks for.
#[derive(Debug, Clone, PartialEq, Eq)]
pub enum Errand {
    /// Show this place. The payload is a ref, unparsed.
    Open { reference: String },
    /// Insert this source into the open document.
    Insert { packet: String },
}

/// An errand as a pair: whether it is an open, and its payload.
pub open spec fn errand_view(e: Option<Errand>) -> Option<(bool, Seq<char>)> {
    match e {
        Some(Errand::Open { reference }) => Some((true, reference@)),
        Some(Errand::Insert { packet }) => Some((false, packet@)),
        None => None,
    }
}

/// The value of one hexadecimal digit, in either case.
pub open spec fn hex_value(b: u8) -> Option<u8> {
    if 48 <= b <= 57 {
        Some((b - 48) as u8)
    } else if 97 <= b <= 102 {
        Some((b - 87) as u8)
    } else if 65 <= b <= 70 {
        Some((b - 55) as u8)
    } else {
        None
    }
}

/// The byte two characters after a `%` stand for, read as base-16 digits
/// the way the standard library's `u8::from_str_radix` reads them: two
/// digits, or a `+` sign and one digit.
pub open spec fn escape_value(hi: u8, lo: u8) -> Option<u8> {
    match (hex_value(hi), hex_value(lo)) {
        (Some(h), Some(l)) => Some((h * 16 + l) as u8),
        (None, Some(l)) => if hi == 43 {
            Some(l)
        } else {
            None
        },
        _ => None,
    }
}

/// Percent-decoding, and `+` for a space: `%` with two more bytes after it
/// that read as a number is that byte; any other `%` is itself.
pub open spec fn percent_decoded(b: Seq<u8>) -> Seq<u8>
    decreases b.len(),
{
    if b.len() == 0 {
        Seq::empty()
    } else if b[0] == 37 && 2 < b.len() && escape_value(b[1], b[2]) is Some {
        seq![escape_value(b[1], b[2])->0] + percent_decoded(b.skip(3))
    } else if b[0] == 43 {
        seq![32u8] + percent_decoded(b.skip(1))
    } else {
        seq![b[0]] + percent_decoded(b.skip(1))
    }
}

/// The text a percent-encoded value stands for, when its bytes are UTF-8;
/// bytes that are not are no text, rather than a repaired one.
pub open spec fn decoded(v: Seq<char>) -> Option<Seq<char>> {
    let b = percent_decoded(encode_utf8(v));
    if valid_utf8(b) {
        Some(decode_utf8(b))
    } else {
        None
    }
}

fn hex_digit(b: u8) -> (r: Option<u8>)
    ensures
        r == hex_value(b),
{
    if 48 <= b && b <= 57 {
        Some(b - 48)
    } else if 97 <= b && b <= 102 {
        Some(b - 87)
    } else if 65 <= b && b <= 70 {
        Some(b - 55)
    } else {
        None
    }
}

fn escape_of(hi: u8, lo: u8) -> (r: Option<u8>)
    ensures
        r == escape_value(hi, lo),
{
    match (hex_digit(hi), hex_digit(lo)) {
        (Some(h), Some(l)) => {
            assert(h * 16 + l < 256);
            Some(h * 16 + l)
        },
        (None, Some(l)) => if hi == 43 {
            Some(l)
        } else {
            None
        },
        _ => None,
    }
}

proof fn lemma_decoded_step(b: Seq<u8>, at: int, k: int)
    requires
        0 <= at < b.len(),
        k == 1 || k == 3,
        at + k <= b.len(),
        k == 3 ==> b[at] == 37 && 2 < b.len() - at && escape_value(b[at + 1], b[at + 2]) is Some,
        k == 1 ==> !(b[at] == 37 && 2 < b.len() - at && escape_value(b[at + 1], b[at + 2]) is Some),
    ensures
        percent_decoded(b.skip(at)) == percent_decoded(b.skip(at).take(k)) + percent_decoded(
            b.skip(at + k),
        ),
        k == 3 ==> percent_decoded(b.skip(at).take(k)) == seq![escape_value(b[at + 1], b[at + 2])->0],
        k == 1 && b[at] == 43 ==> percent_decoded(b.skip(at).take(k)) == seq![32u8],
        k == 1 && b[at] != 43 ==> percent_decoded(b.skip(at).take(k)) == seq![b[at]],
{
    let s = b.skip(at);
    let t = s.take(k);
    assert(s.skip(k) == b.skip(at + k));
    assert(s[0] == b[at]);
    if k == 3 {
        assert(s[1] == b[at + 1]);
        assert(s[2] == b[at + 2]);
        assert(t.skip(3) =~= Seq::<u8>::empty());
        assert(percent_decoded(t.skip(3)) =~= Seq::<u8>::empty());
    } else {
        assert(t.skip(1) =~= Seq::<u8>::empty());
        assert(percent_decoded(t.skip(1)) =~= Seq::<u8>::empty());
        if s.len() > 2 {
            assert(s[1] == b[at + 1]);
            assert(s[2] == b[at + 2]);
        }
    }
}

/// Percent-decode a value and read the bytes as text; `None` when they are
/// not UTF-8.
fn decode(raw: &[char]) -> (r: Option<String>)
    ensures
        opt_text(r) == decoded(raw@),
{
    let s = string_of(raw);
    let bytes = s.as_str().as_bytes();
    let ghost b = bytes@;
    assert(b == encode_utf8(raw@));
    let mut out: Vec<u8> = Vec::new();
    let mut at: usize = 0;
    assert(b.skip(0) =~= b);
    while at < bytes.len()
        invariant
            b == bytes@,
            at <= bytes.len(),
            out@ + percent_decoded(b.skip(at as int)) == percent_decoded(b),
        decreases bytes.len() - at,
    {
        let c = bytes[at];
        let escaped = if c == 37 && bytes.len() - at > 2 {
            escape_of(bytes[at + 1], bytes[at + 2])
        } else {
            None
        };
        let ghost before = out@;
        match escaped {
            Some(v) => {
                proof {
                    lemma_decoded_step(b, at as int, 3);
                }
                out.push(v);
                at += 3;
            },
            None => {
                proof {
                    lemma_decoded_step(b, at as int, 1);
                }
                if c == 43 {
                    out.push(32);
                } else {
                    out.push(c);
                }
                at += 1;
            },
        }
        assert(out@ + percent_decoded(b.skip(at as int)) == percent_decoded(b)) by {
            assert(before + percent_decoded(b.skip(at as int)) =~= before + percent_decoded(b.skip(at as int)));
        }
    }
    assert(percent_decoded(b.skip(bytes.len() as int)) =~= Seq::<u8>::empty());
    assert(out@ =~= percent_decoded(b));
    utf8_text(out.as_slice())
}

/// The value of a `key=value` pair when the key is `name`.
pub open spec fn pair_value(pair: Seq<char>, name: Seq<char>) -> Option<Seq<char>> {
    match split_once(pair, '=') {
        Some((k, v)) => if k == name {
            Some(v)
        } else {
            None
        },
        None => None,
    }
}

/// The value of the first pair that is keyed `name`.
pub open spec fn first_value(pairs: Seq<Seq<char>>, name: Seq<char>) -> Option<Seq<char>>
    decreases pairs.len(),
{
    if pairs.len() == 0 {
        None
    } else {
        match pair_value(pairs[0], name) {
            Some(v) => Some(v),
            None => first_value(pairs.drop_first(), name),
        }
    }
}

/// One field out of a query string, percent-decoded; a field that decodes
/// to nothing, or to bytes that are not text, is no field.
pub open spec fn field_value(query: Seq<char>, name: Seq<char>) -> Option<Seq<char>> {
    match first_value(split(query, '&'), name) {
        Some(v) => match decoded(v) {
            Some(d) => if d.len() > 0 {
                Some(d)
            } else {
                None
            },
            None => None,
        },
        None => None,
    }
}

fn field(query: &[char], name: &str) -> (r: Option<String>)
    ensures
        opt_text(r) == field_value(query@, name@),
{
    let pairs = split_char(query, '&');
    let n = chars_of(name);
    let ghost ps = texts(pairs@);
    assert(ps.skip(0) =~= ps);
    let mut i: usize = 0;
    while i < pairs.len()
        invariant
            ps == texts(pairs@),
            ps == split(query@, '&'),
            n@ == name@,
            i <= pairs.len(),
            first_value(ps, n@) == first_value(ps.skip(i as int), n@),
        decreases pairs.len() - i,
    {
        assert(ps.skip(i as int)[0] == pairs@[i as int]@);
        assert(ps.skip(i as int).drop_first() =~= ps.skip(i as int + 1));
        match split_once_char(pairs[i].as_slice(), '=') {
            Some((k, v)) => {
                if eq_chars(k.as_slice(), n.as_slice()) {
                    match decode(v.as_slice()) {
                        Some(d) => {
                            if d.as_str().is_empty() {
                                return None;
                            }
                            return Some(d);
                        },
                        None => return None,
                    }
                }
            },
            None => {},
        }
        i += 1;
    }
    assert(ps.skip(pairs.len() as int) =~= Seq::<Seq<char>>::empty());
    None
}

/// `str::trim_end_matches('/')`.
pub open spec fn trim_slashes(s: Seq<char>) -> Seq<char>
    decreases s.len(),
{
    if s.len() > 0 && s.last() == '/' {
        trim_slashes(s.drop_last())
    } else {
        s
    }
}

fn trim_slashes_of(s: &[char]) -> (r: Vec<char>)
    ensures
        r@ == trim_slashes(s@),
{
    let mut end = s.len();
    assert(s@.take(end as int) =~= s@);
    while end > 0 && s[end - 1] == '/'
        invariant
            end <= s.len(),
            trim_slashes(s@.take(end as int)) == trim_slashes(s@),
        decreases end,
    {
        assert(s@.take(end as int).drop_last() =~= s@.take(end - 1));
        end -= 1;
    }
    slice_of(s, 0, end)
}

/// Text with its ASCII capitals made small.
pub open spec fn ascii_lowered(s: Seq<char>) -> Seq<char> {
    s.map_values(|c: char| ascii_lower(c))
}

/// Whether text starts with a scheme written in any case.
pub open spec fn starts_with_scheme(u: Seq<char>, head: Seq<char>) -> bool {
    head.len() <= u.len() && ascii_lowered(u.take(head.len() as int)) == head
}

/// What a link reads as, for `app`: the URL trimmed; then the app's name and
/// a colon, in any case, as a URI's scheme is; then either a bare ref
/// (Girsa only, and not empty), given with its scheme in small letters, or
/// `//`, the errand, and its query.
pub open spec fn link_errand(app: App, url: Seq<char>) -> Option<(bool, Seq<char>)> {
    let u = trim(url);
    let head = app_name(app).push(':');
    if !starts_with_scheme(u, head) {
        None
    } else {
        let rest = u.skip(head.len() as int);
        if !starts_with(rest, seq!['/', '/']) {
            if app == App::Girsa && rest.len() > 0 {
                Some((true, head + rest))
            } else {
                None
            }
        } else {
            let after = rest.skip(2);
            let (errand, query) = match split_once(after, '?') {
                Some(p) => p,
                None => (after, Seq::empty()),
            };
            let e = trim_slashes(errand);
            if app == App::Girsa && e == seq!['o', 'p', 'e', 'n'] {
                match field_value(query, seq!['r', 'e', 'f']) {
                    Some(v) => Some((true, v)),
                    None => None,
                }
            } else if app == App::Ksav && e == seq!['i', 'n', 's', 'e', 'r', 't'] {
                match field_value(query, seq!['p', 'a', 'c', 'k', 'e', 't']) {
                    Some(v) => Some((false, v)),
                    None => None,
                }
            } else {
                None
            }
        }
    }
}

fn has_scheme(u: &[char], head: &[char]) -> (b: bool)
    ensures
        b == starts_with_scheme(u@, head@),
{
    if head.len() > u.len() {
        return false;
    }
    let mut i: usize = 0;
    while i < head.len()
        invariant
            head.len() <= u.len(),
            i <= head.len(),
            forall|j: int| 0 <= j < i ==> ascii_lower(#[trigger] u@[j]) == head@[j],
        decreases head.len() - i,
    {
        if to_ascii_lowercase(u[i]) != head[i] {
            assert(ascii_lowered(u@.take(head.len() as int))[i as int] != head@[i as int]);
            return false;
        }
        i += 1;
    }
    assert(ascii_lowered(u@.take(head.len() as int)) =~= head@);
    true
}

/// Read a URL the operating system handed over. `None` for anything this
/// does not recognise, including a scheme belonging to the other
/// application.
pub fn deep_link(app: App, url: &str) -> (r: Option<Errand>)
    ensures
        errand_view(r) == link_errand(app, url@),
{
    let all = chars_of(url);
    let u = trim_chars(all.as_slice());
    let mut head = chars_of(app.as_str());
    head.push(':');
    assert(head@ == app_name(app).push(':'));
    if !has_scheme(u.as_slice(), head.as_slice()) {
        return None;
    }
    let rest = slice_of(u.as_slice(), head.len(), u.len());
    assert(rest@ == u@.skip(head@.len() as int));
    let slashes = vec!['/', '/'];
    assert(slashes@ =~= seq!['/', '/']);
    if !has_prefix(rest.as_slice(), slashes.as_slice()) {
        if app == App::Girsa && rest.len() > 0 {
            let mut r = head.clone();
            push_all(&mut r, rest.as_slice());
            assert(r@ == head@ + rest@);
            return Some(Errand::Open { reference: string_of(r.as_slice()) });
        }
        return None;
    }
    let after = slice_of(rest.as_slice(), 2, rest.len());
    assert(after@ == rest@.skip(2));
    let (errand, query) = match split_once_char(after.as_slice(), '?') {
        Some(p) => p,
        None => (after, Vec::new()),
    };
    assert(match split_once(after@, '?') {
        Some(p) => p,
        None => (after@, Seq::<char>::empty()),
    } == (errand@, query@));
    let e = trim_slashes_of(errand.as_slice());
    proof {
        reveal_strlit("open");
        reveal_strlit("insert");
        reveal_strlit("ref");
        reveal_strlit("packet");
    }
    let open = chars_of("open");
    let insert = chars_of("insert");
    assert(open@ == seq!['o', 'p', 'e', 'n']);
    assert(insert@ == seq!['i', 'n', 's', 'e', 'r', 't']);
    assert("ref"@ == seq!['r', 'e', 'f']);
    assert("packet"@ == seq!['p', 'a', 'c', 'k', 'e', 't']);
    if app == App::Girsa && eq_chars(e.as_slice(), open.as_slice()) {
        match field(query.as_slice(), "ref") {
            Some(v) => Some(Errand::Open { reference: v }),
            None => None,
        }
    } else if app == App::Ksav && eq_chars(e.as_slice(), insert.as_slice()) {
        match field(query.as_slice(), "packet") {
            Some(v) => Some(Errand::Insert { packet: v }),
            None => None,
        }
    } else {
        None
    }
}

/// An uppercase hexadecimal digit, as a link writes one.
pub open spec fn upper_hex(d: u8) -> char {
    if d < 10 {
        ((d + 48) as u8) as char
    } else {
        ((d + 55) as u8) as char
    }
}

/// Bytes percent-encoded, every one of them: `%` and two digits.
pub open spec fn percent_encoded_bytes(b: Seq<u8>) -> Seq<char>
    decreases b.len(),
{
    if b.len() == 0 {
        Seq::empty()
    } else {
        seq!['%', upper_hex(b[0] / 16), upper_hex(b[0] % 16)] + percent_encoded_bytes(b.drop_first())
    }
}

/// Text percent-encoded the way a link carries it: each of its UTF-8 bytes.
pub open spec fn percent_encoded(s: Seq<char>) -> Seq<char> {
    percent_encoded_bytes(encode_utf8(s))
}

/// The same, as the bytes those characters are.
spec fn percent_bytes(b: Seq<u8>) -> Seq<u8>
    decreases b.len(),
{
    if b.len() == 0 {
        Seq::empty()
    } else {
        seq![37u8, upper_hex(b[0] / 16) as u8, upper_hex(b[0] % 16) as u8] + percent_bytes(b.drop_first())
    }
}

spec fn link_char(c: char) -> bool {
    c == '%' || ('0' <= c <= '9') || ('A' <= c <= 'F')
}

proof fn lemma_utf8_nonempty(v: Seq<char>)
    requires
        v.len() > 0,
    ensures
        encode_utf8(v).len() > 0,
{
    vstd::utf8::encode_utf8_decode_utf8(v);
}

proof fn lemma_upper_hex(d: u8)
    requires
        d < 16,
    ensures
        '\0' <= upper_hex(d) <= '\u{7f}',
        link_char(upper_hex(d)),
        hex_value(upper_hex(d) as u8) == Some(d),
{
}

proof fn lemma_encoded_bytes(b: Seq<u8>)
    ensures
        encode_utf8(percent_encoded_bytes(b)) == percent_bytes(b),
        percent_encoded_bytes(b).len() == 3 * b.len(),
        forall|i: int| 0 <= i < percent_encoded_bytes(b).len() ==> link_char(
            #[trigger] percent_encoded_bytes(b)[i],
        ),
        b.len() > 0 ==> percent_encoded_bytes(b).last() != '%',
    decreases b.len(),
{
    if b.len() > 0 {
        let x = b[0];
        lemma_upper_hex(x / 16);
        lemma_upper_hex(x % 16);
        let chunk = seq!['%', upper_hex(x / 16), upper_hex(x % 16)];
        let rest = percent_encoded_bytes(b.drop_first());
        lemma_encoded_bytes(b.drop_first());
        assert(vstd::utf8::is_ascii_chars(chunk));
        vstd::utf8::is_ascii_chars_encode_utf8(chunk);
        assert(encode_utf8(chunk) =~= seq![37u8, upper_hex(x / 16) as u8, upper_hex(x % 16) as u8]);
        crate::hebrew::normalize::lemma_encode_concat(chunk, rest);
        let whole = chunk + rest;
        assert forall|i: int| 0 <= i < whole.len() implies link_char(#[trigger] whole[i]) by {
            if i >= 3 {
                assert(whole[i] == rest[i - 3]);
            }
        }
        if b.drop_first().len() == 0 {
            assert(whole.last() == upper_hex(x % 16));
        } else {
            assert(whole.last() == rest.last());
        }
    }
}

proof fn lemma_decodes_back(b: Seq<u8>)
    ensures
        percent_decoded(percent_bytes(b)) == b,
    decreases b.len(),
{
    if b.len() > 0 {
        let x = b[0];
        lemma_upper_hex(x / 16);
        lemma_upper_hex(x % 16);
        let p = percent_bytes(b);
        lemma_decodes_back(b.drop_first());
        assert(p[0] == 37u8);
        assert(p[1] == upper_hex(x / 16) as u8);
        assert(p[2] == upper_hex(x % 16) as u8);
        assert(x == (x / 16) * 16 + x % 16);
        assert(escape_value(p[1], p[2]) == Some(x));
        assert(p.skip(3) =~= percent_bytes(b.drop_first()));
        assert(b =~= seq![x] + b.drop_first());
    }
}

/// Any text, percent-encoded byte by byte, decodes back to itself: a packet
/// or a Hebrew ref arrives whole through a URL.
pub proof fn lemma_link_round_trip(s: Seq<char>)
    ensures
        decoded(percent_encoded(s)) == Some(s),
{
    let b = encode_utf8(s);
    lemma_encoded_bytes(b);
    lemma_decodes_back(b);
    vstd::utf8::encode_utf8_valid_utf8(s);
    vstd::utf8::encode_utf8_decode_utf8(s);
}

/// A byte with an ASCII capital made small; any other byte as it is.
pub open spec fn byte_lower(b: u8) -> u8 {
    if 65 <= b <= 90 {
        (b + 32) as u8
    } else {
        b
    }
}

/// The sixteen digits of base 16, in order, as a link writes them.
pub open spec fn hex_digits() -> Seq<char> {
    seq!['0', '1', '2', '3', '4', '5', '6', '7', '8', '9', 'A', 'B', 'C', 'D', 'E', 'F']
}

/// The digits a link writes are the sixteen digits in order, and each
/// reads back as its value, written in capitals or in small letters; no
/// other byte is a digit, and a digit is worth the same in either case.
pub proof fn lemma_hex_digits(d: u8, b: u8)
    ensures
        d < 16 ==> upper_hex(d) == hex_digits()[d as int],
        d < 16 ==> hex_value(hex_digits()[d as int] as u8) == Some(d),
        d < 16 ==> hex_value(byte_lower(hex_digits()[d as int] as u8)) == Some(d),
        hex_value(byte_lower(b)) == hex_value(b),
        hex_value(b) matches Some(v) ==> v < 16 && (b == hex_digits()[v as int] as u8 || b == byte_lower(
            hex_digits()[v as int] as u8,
        )),
{
}

/// An escape's two digits read the same in either case.
pub proof fn lemma_escape_case(hi: u8, lo: u8)
    ensures
        escape_value(byte_lower(hi), byte_lower(lo)) == escape_value(hi, lo),
{
    lemma_hex_digits(0, hi);
    lemma_hex_digits(0, lo);
}

proof fn lemma_lower_decodes_back(b: Seq<u8>)
    ensures
        percent_decoded(percent_bytes(b).map_values(|x: u8| byte_lower(x))) == b,
    decreases b.len(),
{
    if b.len() > 0 {
        let x = b[0];
        lemma_upper_hex(x / 16);
        lemma_upper_hex(x % 16);
        let q = percent_bytes(b);
        let p = q.map_values(|y: u8| byte_lower(y));
        lemma_lower_decodes_back(b.drop_first());
        assert(q[0] == 37u8);
        assert(q[1] == upper_hex(x / 16) as u8);
        assert(q[2] == upper_hex(x % 16) as u8);
        assert(p[0] == 37u8);
        assert(x == (x / 16) * 16 + x % 16);
        assert(escape_value(q[1], q[2]) == Some(x));
        lemma_escape_case(q[1], q[2]);
        assert(escape_value(p[1], p[2]) == Some(x));
        assert(p.skip(3) =~= percent_bytes(b.drop_first()).map_values(|y: u8| byte_lower(y)));
        assert(b =~= seq![x] + b.drop_first());
    }
}

/// Percent-escapes are read whatever the case of their digits: any text,
/// percent-encoded and then written with small letters, decodes back to
/// itself.
pub proof fn lemma_small_escapes_round_trip(s: Seq<char>)
    ensures
        decoded(ascii_lowered(percent_encoded(s))) == Some(s),
{
    let b = encode_utf8(s);
    let e = percent_encoded(s);
    let l = e.map_values(|c: char| ascii_lower(c));
    lemma_encoded_bytes(b);
    assert forall|i: int| 0 <= i < e.len() implies '\0' <= #[trigger] e[i] <= '\u{7f}' by {
        assert(link_char(e[i]));
    }
    assert forall|i: int| 0 <= i < l.len() implies '\0' <= #[trigger] l[i] <= '\u{7f}' by {
        assert(link_char(e[i]));
    }
    assert(vstd::utf8::is_ascii_chars(e));
    assert(vstd::utf8::is_ascii_chars(l));
    vstd::utf8::is_ascii_chars_encode_utf8(e);
    vstd::utf8::is_ascii_chars_encode_utf8(l);
    let q = percent_bytes(b);
    assert(encode_utf8(e) == q);
    assert(encode_utf8(l) =~= q.map_values(|y: u8| byte_lower(y))) by {
        assert forall|i: int| 0 <= i < l.len() implies encode_utf8(l)[i] == byte_lower(q[i]) by {
            assert(link_char(e[i]));
            assert(encode_utf8(l)[i] == l[i] as u8);
            assert(q[i] == e[i] as u8);
        }
    }
    lemma_lower_decodes_back(b);
    vstd::utf8::encode_utf8_valid_utf8(s);
    vstd::utf8::encode_utf8_decode_utf8(s);
}

proof fn lemma_split_without(s: Seq<char>, c: char)
    requires
        forall|i: int| 0 <= i < s.len() ==> s[i] != c,
    ensures
        split(s, c) == seq![s],
    decreases s.len(),
{
    if s.len() > 0 {
        lemma_split_without(s.drop_last(), c);
        assert(s.drop_last().push(s.last()) =~= s);
        let p = split(s.drop_last(), c);
        assert(p.update(p.len() - 1, p.last().push(s.last())) =~~= seq![s]);
    } else {
        assert(s =~= Seq::<char>::empty());
        assert(split(s, c) =~~= seq![s]);
    }
}

proof fn lemma_find_at(s: Seq<char>, c: char, k: int)
    requires
        0 <= k < s.len(),
        s[k] == c,
        forall|j: int| 0 <= j < k ==> s[j] != c,
    ensures
        find(s, c) == Some(k),
{
    crate::text::lemma_find(s, c);
}

/// `name=` and an encoded value, as the only field of a query, reads as the
/// value's text when there is any.
proof fn lemma_field_of_encoded(name: Seq<char>, v: Seq<char>)
    requires
        v.len() > 0,
        forall|i: int| 0 <= i < name.len() ==> name[i] != '=' && name[i] != '&',
    ensures
        field_value(name + seq!['='] + percent_encoded(v), name) == Some(v),
{
    let p = percent_encoded(v);
    lemma_encoded_bytes(encode_utf8(v));
    lemma_link_round_trip(v);
    let q = name + seq!['='] + p;
    assert forall|i: int| 0 <= i < q.len() implies q[i] != '&' by {
        if i > name.len() {
            assert(q[i] == p[i - name.len() - 1]);
            assert(link_char(p[i - name.len() - 1]));
        }
    }
    lemma_split_without(q, '&');
    lemma_find_at(q, '=', name.len() as int);
    assert(q.take(name.len() as int) =~= name);
    assert(q.skip(name.len() as int + 1) =~= p);
    assert(seq![q].drop_first() =~= Seq::<Seq<char>>::empty());
}

/// The prefix of the long form of an open.
pub open spec fn open_link_head() -> Seq<char> {
    seq!['g', 'i', 'r', 's', 'a', ':', '/', '/', 'o', 'p', 'e', 'n', '?', 'r', 'e', 'f', '=']
}

/// The prefix of an insert.
pub open spec fn insert_link_head() -> Seq<char> {
    seq!['k', 's', 'a', 'v', ':', '/', '/', 'i', 'n', 's', 'e', 'r', 't', '?', 'p', 'a', 'c', 'k', 'e', 't', '=']
}

proof fn lemma_long_form(app: App, head: Seq<char>, errand: Seq<char>, name: Seq<char>, v: Seq<char>)
    requires
        v.len() > 0,
        head == app_name(app) + seq![':', '/', '/'] + errand + seq!['?'] + name + seq!['='],
        errand.len() > 0,
        errand.last() != '/',
        forall|i: int| 0 <= i < errand.len() ==> errand[i] != '?',
        forall|i: int| 0 <= i < name.len() ==> name[i] != '=' && name[i] != '&' && name[i] != '?',
        !is_ws(app_name(app)[0]),
    ensures
        ({
            let u = head + percent_encoded(v);
            let rest = u.skip(app_name(app).push(':').len() as int);
            let after = rest.skip(2);
            &&& trim(u) == u
            &&& starts_with_scheme(u, app_name(app).push(':'))
            &&& starts_with(rest, seq!['/', '/'])
            &&& split_once(after, '?') == Some((errand, name + seq!['='] + percent_encoded(v)))
            &&& trim_slashes(errand) == errand
            &&& field_value(name + seq!['='] + percent_encoded(v), name) == Some(v)
        }),
{
    let p = percent_encoded(v);
    lemma_encoded_bytes(encode_utf8(v));
    lemma_utf8_nonempty(v);
    let u = head + p;
    let n = app_name(app).len() as int;
    assert(u[0] == app_name(app)[0]);
    assert(u.last() == p.last());
    assert(link_char(p[p.len() - 1]));
    crate::text::lemma_trim_plain(u);
    assert(u.take(n + 1) =~= app_name(app).push(':'));
    assert(ascii_lowered(app_name(app).push(':')) =~= app_name(app).push(':'));
    let rest = u.skip(n + 1);
    assert(rest.take(2) =~= seq!['/', '/']);
    let after = rest.skip(2);
    assert(after =~= errand + seq!['?'] + name + seq!['='] + p);
    assert forall|j: int| 0 <= j < errand.len() implies after[j] != '?' by {
        assert(after[j] == errand[j]);
    }
    lemma_find_at(after, '?', errand.len() as int);
    assert(after.take(errand.len() as int) =~= errand);
    assert(after.skip(errand.len() as int + 1) =~= name + seq!['='] + p);
    lemma_field_of_encoded(name, v);
}

/// A ref percent-encoded into Girsa's long form opens exactly that ref.
pub proof fn lemma_open_link(v: Seq<char>)
    requires
        v.len() > 0,
    ensures
        link_errand(App::Girsa, open_link_head() + percent_encoded(v)) == Some((true, v)),
{
    let errand = seq!['o', 'p', 'e', 'n'];
    let name = seq!['r', 'e', 'f'];
    assert(open_link_head() =~= app_name(App::Girsa) + seq![':', '/', '/'] + errand + seq!['?'] + name + seq!['=']);
    lemma_long_form(App::Girsa, open_link_head(), errand, name, v);
}

/// A packet percent-encoded into Ksav's insert link inserts exactly that
/// packet.
pub proof fn lemma_insert_link(v: Seq<char>)
    requires
        v.len() > 0,
    ensures
        link_errand(App::Ksav, insert_link_head() + percent_encoded(v)) == Some((false, v)),
{
    let errand = seq!['i', 'n', 's', 'e', 'r', 't'];
    let name = seq!['p', 'a', 'c', 'k', 'e', 't'];
    assert(insert_link_head() =~= app_name(App::Ksav) + seq![':', '/', '/'] + errand + seq!['?'] + name + seq!['=']);
    lemma_long_form(App::Ksav, insert_link_head(), errand, name, v);
}

/// Each application reads only its own errands: Girsa's links only ever
/// open, Ksav's only ever insert.
pub proof fn lemma_own_errands(url: Seq<char>)
    ensures
        link_errand(App::Girsa, url) matches Some((is_open, _)) ==> is_open,
        link_errand(App::Ksav, url) matches Some((is_open, _)) ==> !is_open,
{
}

} // verus!
