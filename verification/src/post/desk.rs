//! The listening half: what a desk answers a request, decided before any
//! handler sees it.
//!
//! | | |
//! |---|---|
//! | no token, or the wrong one | `401`, before the path is even looked at |
//! | `OPTIONS` | `405`, with no CORS headers, so a browser preflight fails |
//! | a body of unknown length | `411` |
//! | a body over [`MAX_BODY`], declared or read | `413`: a quote is a passage, not a file |
//! | a body that is not text | `400` |
//! | `/health` | who this is, and which version |
//!
//! Anything else goes to the application's own handler.

use vstd::prelude::*;

use crate::post::{app_name, utf8_text, App};
use vstd::utf8::{decode_utf8, valid_utf8};
use crate::text::{chars_of, find, find_char, push_all, slice_of, string_of};

verus! {

/// The largest request body accepted: a megabyte is far more than any
/// passage and small enough that a stuck sender cannot fill memory.
pub const MAX_BODY: usize = 1048576;

/// What a handler decided.
pub struct Reply {
    pub status: u16,
    pub body: String,
}

/// A lower-case hexadecimal digit.
pub open spec fn hex_digit_lower(d: u32) -> char {
    if d < 10 {
        ((d + 48) as u8) as char
    } else {
        ((d + 87) as u8) as char
    }
}

/// One character as a JSON string writes it: `"` and `\` escaped,
/// backspace, form feed, newline, return and tab by their letters, any other
/// character below a space as `\u00` and two lower-case hex digits, and
/// everything else as it is.
pub open spec fn json_char(c: char) -> Seq<char> {
    if c == '"' {
        seq!['\\', '"']
    } else if c == '\\' {
        seq!['\\', '\\']
    } else if c == '\u{8}' {
        seq!['\\', 'b']
    } else if c == '\u{c}' {
        seq!['\\', 'f']
    } else if c == '\n' {
        seq!['\\', 'n']
    } else if c == '\r' {
        seq!['\\', 'r']
    } else if c == '\t' {
        seq!['\\', 't']
    } else if (c as u32) < 0x20 {
        seq!['\\', 'u', '0', '0', hex_digit_lower((c as u32) / 16), hex_digit_lower((c as u32) % 16)]
    } else {
        seq![c]
    }
}

/// The characters of a text, each as a JSON string writes it.
pub open spec fn json_escaped(s: Seq<char>) -> Seq<char>
    decreases s.len(),
{
    if s.len() == 0 {
        Seq::empty()
    } else {
        json_escaped(s.drop_last()) + json_char(s.last())
    }
}

/// A string as a JSON string literal: in double quotes, escaped.
pub open spec fn json_string(s: Seq<char>) -> Seq<char> {
    seq!['"'] + json_escaped(s) + seq!['"']
}

/// `serde_json::to_string` on a string slice, which writes it in double
/// quotes with the escapes of its escape table: `"` and `\`, the five
/// control characters that have a letter, and any other below a space as
/// `\u00xx` in lower-case hex. Serialising a `str` into memory cannot fail,
/// so the error arm is never taken.
#[verifier::external_body]
fn json_quoted(s: &str) -> (r: String)
    ensures
        r@ == json_string(s@),
{
    match serde_json::to_string(s) {
        Ok(t) => t,
        Err(_) => String::new(),
    }
}

/// `{"error":…}`, the body of a refusal.
pub open spec fn refusal_body(why: Seq<char>) -> Seq<char> {
    seq!['{', '"', 'e', 'r', 'r', 'o', 'r', '"', ':'] + json_string(why) + seq!['}']
}

impl Reply {
    pub fn ok(body: &str) -> (r: Reply)
        ensures
            r.status == 200,
            r.body@ == body@,
    {
        Reply { status: 200, body: string_of(chars_of(body).as_slice()) }
    }

    /// A refusal that says why, in words the other side can show a reader.
    pub fn refused(status: u16, why: &str) -> (r: Reply)
        ensures
            r.status == status,
            r.body@ == refusal_body(why@),
    {
        let mut out = chars_of("{\"error\":");
        let quoted = json_quoted(why);
        let q = chars_of(quoted.as_str());
        push_all(&mut out, q.as_slice());
        out.push('}');
        proof {
            reveal_strlit("{\"error\":");
        }
        let body = string_of(out.as_slice());
        assert(body@ =~= refusal_body(why@));
        Reply { status, body }
    }
}

/// Compare two tokens without giving away how much of one is right: every
/// byte is looked at whatever the earlier ones were.
pub fn constant_time_eq(a: &str, b: &str) -> (r: bool)
    ensures
        r == (a@ == b@),
{
    let x = a.as_bytes();
    let y = b.as_bytes();
    proof {
        vstd::utf8::encode_utf8_decode_utf8(a@);
        vstd::utf8::encode_utf8_decode_utf8(b@);
    }
    if x.len() != y.len() {
        return false;
    }
    let mut acc: u8 = 0;
    let mut i: usize = 0;
    assert(x@.take(0) =~= y@.take(0));
    while i < x.len()
        invariant
            x.len() == y.len(),
            i <= x.len(),
            (acc == 0) == (x@.take(i as int) == y@.take(i as int)),
        decreases x.len() - i,
    {
        let p = x[i];
        let q = y[i];
        let d = p ^ q;
        let next = acc | d;
        assert((next == 0) == (acc == 0 && p == q)) by (bit_vector)
            requires
                d == p ^ q,
                next == acc | d,
        ;
        assert(x@.take(i as int + 1) == x@.take(i as int).push(p));
        assert(y@.take(i as int + 1) == y@.take(i as int).push(q));
        proof {
            if x@.take(i as int) == y@.take(i as int) && p == q {
                assert(x@.take(i as int + 1) =~= y@.take(i as int + 1));
            }
            if x@.take(i as int + 1) == y@.take(i as int + 1) {
                assert(x@.take(i as int + 1)[i as int] == p);
                assert(x@.take(i as int) =~= x@.take(i as int + 1).drop_last());
                assert(y@.take(i as int) =~= y@.take(i as int + 1).drop_last());
            }
        }
        acc = next;
        i += 1;
    }
    assert(x@.take(x.len() as int) =~= x@);
    assert(y@.take(y.len() as int) =~= y@);
    acc == 0
}

/// What the desk says to a request, before its body is read: the wrong
/// token first, then a preflight, then a body whose length was not given,
/// then a body declared over the cap; `None` lets it in.
pub open spec fn gate(token_right: bool, is_options: bool, length: Option<usize>) -> Option<(u16, Seq<char>)> {
    if !token_right {
        Some((401, seq!['w', 'r', 'o', 'n', 'g', ' ', 't', 'o', 'k', 'e', 'n']))
    } else if is_options {
        Some((405, seq!['n', 'o']))
    } else if length is None {
        Some((411, seq!['l', 'e', 'n', 'g', 't', 'h', ' ', 'r', 'e', 'q', 'u', 'i', 'r', 'e', 'd']))
    } else if length->0 > MAX_BODY {
        Some((413, seq!['t', 'h', 'a', 't', ' ', 'i', 's', ' ', 'n', 'o', 't', ' ', 'a', ' ', 'q', 'u', 'o', 't', 'e']))
    } else {
        None
    }
}

/// The refusal, if any, for a request that offered `offered` as its token
/// to a desk whose token is `token`, with this method and declared length
/// (`None` where the request gave none, as a chunked one does). The token
/// is checked before anything else, the path included: an endpoint that
/// answers `/health` without one tells a stranger which port is Girsa.
pub fn check_request(offered: &str, token: &str, is_options: bool, length: Option<usize>) -> (r: Option<Reply>)
    ensures
        match gate(offered@ == token@, is_options, length) {
            Some((status, why)) => r matches Some(reply) && reply.status == status
                && reply.body@ == refusal_body(why),
            None => r is None,
        },
{
    proof {
        reveal_strlit("wrong token");
        reveal_strlit("no");
        reveal_strlit("length required");
        reveal_strlit("that is not a quote");
    }
    assert("wrong token"@ == seq!['w', 'r', 'o', 'n', 'g', ' ', 't', 'o', 'k', 'e', 'n']);
    assert("no"@ == seq!['n', 'o']);
    assert("length required"@ == seq!['l', 'e', 'n', 'g', 't', 'h', ' ', 'r', 'e', 'q', 'u', 'i', 'r', 'e', 'd']);
    assert("that is not a quote"@ == seq!['t', 'h', 'a', 't', ' ', 'i', 's', ' ', 'n', 'o', 't', ' ', 'a', ' ', 'q', 'u', 'o', 't', 'e']);
    if !constant_time_eq(offered, token) {
        return Some(Reply::refused(401, "wrong token"));
    }
    if is_options {
        return Some(Reply::refused(405, "no"));
    }
    match length {
        None => Some(Reply::refused(411, "length required")),
        Some(n) => if n > MAX_BODY {
            Some(Reply::refused(413, "that is not a quote"))
        } else {
            None
        },
    }
}

/// Where an admitted request goes.
pub enum Dispatch {
    /// Answered here and now.
    Reply(Reply),
    /// `/health`, which every desk answers itself.
    Health,
    /// The application's own errand, with its path and body.
    Errand { path: String, body: String },
}

/// The path of a request's URL: what comes before any `?`.
pub open spec fn url_path(url: Seq<char>) -> Seq<char> {
    match find(url, '?') {
        Some(i) => url.take(i),
        None => url,
    }
}

/// Where an admitted request goes, given its URL and the bytes of its body
/// as read, up to one past the cap (`None` when the read failed). A body
/// that reaches past the cap is refused whatever its length said, so that
/// one cut short is never passed on as whole.
pub fn dispatch(url: &str, body: Option<Vec<u8>>) -> (d: Dispatch)
    ensures
        body is None ==> (d matches Dispatch::Reply(r) && r.status == 400 && r.body@
            == refusal_body("the body is not text"@)),
        body is Some && body->0@.len() > MAX_BODY ==> (d matches Dispatch::Reply(r) && r.status == 413
            && r.body@ == refusal_body("that is not a quote"@)),
        body is Some && body->0@.len() <= MAX_BODY && !valid_utf8(body->0@) ==> (d matches Dispatch::Reply(r)
            && r.status == 400 && r.body@ == refusal_body("the body is not text"@)),
        body is Some && body->0@.len() <= MAX_BODY && valid_utf8(body->0@) && url_path(url@) == "/health"@ ==> d is Health,
        body is Some && body->0@.len() <= MAX_BODY && valid_utf8(body->0@) && url_path(url@) != "/health"@ ==> (
        d matches Dispatch::Errand { path, body: t } && path@ == url_path(url@) && t@ == decode_utf8(body->0@)),
{
    let bytes = match body {
        Some(b) => b,
        None => {
            return Dispatch::Reply(Reply::refused(400, "the body is not text"));
        },
    };
    if bytes.len() > MAX_BODY {
        return Dispatch::Reply(Reply::refused(413, "that is not a quote"));
    }
    let text = match utf8_text(bytes.as_slice()) {
        Some(t) => t,
        None => {
            return Dispatch::Reply(Reply::refused(400, "the body is not text"));
        },
    };
    let chars = chars_of(url);
    proof {
        crate::text::lemma_find(chars@, '?');
    }
    let path = match find_char(chars.as_slice(), '?') {
        Some(i) => slice_of(chars.as_slice(), 0, i),
        None => chars,
    };
    let health = chars_of("/health");
    proof {
        reveal_strlit("/health");
    }
    if crate::text::eq_chars(path.as_slice(), health.as_slice()) {
        Dispatch::Health
    } else {
        Dispatch::Errand { path: string_of(path.as_slice()), body: text }
    }
}

/// `/health`'s answer: `{"app":…,"version":…}`, which is who this is and
/// the application's own version.
pub open spec fn health_body(app: App, version: Seq<char>) -> Seq<char> {
    seq!['{', '"', 'a', 'p', 'p', '"', ':'] + json_string(app_name(app)) + seq![',', '"', 'v', 'e', 'r', 's', 'i', 'o', 'n', '"', ':']
        + json_string(version) + seq!['}']
}

/// The reply to `/health`.
pub fn health_reply(app: App, version: &str) -> (r: Reply)
    ensures
        r.status == 200,
        r.body@ == health_body(app, version@),
{
    let mut out = chars_of("{\"app\":");
    let name = json_quoted(app.as_str());
    push_all(&mut out, chars_of(name.as_str()).as_slice());
    push_all(&mut out, chars_of(",\"version\":").as_slice());
    let v = json_quoted(version);
    push_all(&mut out, chars_of(v.as_str()).as_slice());
    out.push('}');
    proof {
        reveal_strlit("{\"app\":");
        reveal_strlit(",\"version\":");
    }
    let body = string_of(out.as_slice());
    assert(body@ =~= health_body(app, version@));
    Reply { status: 200, body }
}

} // verus!
