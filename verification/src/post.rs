//! The post between the two applications: loopback, token-gated, no network
//! beyond the machine.
//!
//! Girsa is the library and Ksav is the pen, and this is how one hands
//! something to the other while both are running: `POST /insert` carries a
//! source into a document, `POST /open` a citation to the page it names,
//! `POST /cite` a ref to print, and `GET /health` asks whether the sibling is
//! there. The method is not a choice either side makes: an errand that
//! carries a body is a `POST`, one that only asks is a `GET`.
//!
//! What is decided here is the protocol: which application is which, what a
//! request says on the wire, how an answer's status line and body are judged,
//! what presence a health answer amounts to, and the token minted per run.
//! Sockets and files are the applications' own business.

pub mod desk;
pub mod link;
pub mod routes;

use vstd::prelude::*;

use vstd::utf8::{decode_utf8, encode_utf8, valid_utf8};

use crate::text::{
    chars_of, decimal, decimal_of, parse_u32, parse_u32_chars, push_all, split_whitespace,
    string_of, texts, trim, trim_chars, words,
};

pub use link::{deep_link, Errand};

verus! {

/// The header every request carries its token in.
pub const TOKEN_HEADER: &'static str = "X-Girsa-Token";

/// The largest answer a client will read: an errand between these two
/// applications carries a passage of a sefer, not a file.
pub const MAX_ANSWER: usize = 1048576;

/// The two applications.
#[derive(Debug, Clone, Copy, PartialEq, Eq, Structural)]
pub enum App {
    Girsa,
    Ksav,
}

/// An application's name, as it is written in a link and a file name.
pub open spec fn app_name(app: App) -> Seq<char> {
    match app {
        App::Girsa => seq!['g', 'i', 'r', 's', 'a'],
        App::Ksav => seq!['k', 's', 'a', 'v'],
    }
}

impl App {
    pub fn as_str(self) -> (s: &'static str)
        ensures
            s@ == app_name(self),
    {
        proof {
            reveal_strlit("girsa");
            reveal_strlit("ksav");
        }
        match self {
            App::Girsa => "girsa",
            App::Ksav => "ksav",
        }
    }

    /// The other one.
    pub fn sibling(self) -> (o: App)
        ensures
            o != self,
    {
        match self {
            App::Girsa => App::Ksav,
            App::Ksav => App::Girsa,
        }
    }
}

/// The name of an application's endpoint file: `girsa-endpoint.json`.
pub open spec fn endpoint_file(app: App) -> Seq<char> {
    app_name(app) + seq!['-', 'e', 'n', 'd', 'p', 'o', 'i', 'n', 't', '.', 'j', 's', 'o', 'n']
}

/// `name` under the directory `home`, as a path joins a relative name: with
/// a `/` between them unless `home` is empty or already ends in one.
pub open spec fn joined_path(home: Seq<char>, name: Seq<char>) -> Seq<char> {
    if home.len() == 0 {
        name
    } else if home.last() == '/' {
        home + name
    } else {
        home + seq!['/'] + name
    }
}

/// Where a running application can be reached, and what to say to it.
/// Written to a file the moment the listener is up and deleted when it
/// stops: the file is the only discovery there is.
#[derive(Debug, Clone, PartialEq, Eq)]
pub struct Endpoint {
    pub app: App,
    pub port: u16,
    /// Minted per run.
    pub token: String,
    /// So a stale file can be told from a live one before anything is sent.
    pub pid: u32,
    /// The application's own version, shown in the presence chip.
    pub version: String,
}

impl Endpoint {
    /// Where the endpoint file for an application lives, under the user's
    /// own data directory `home`.
    pub fn path(app: App, home: &str) -> (p: String)
        ensures
            p@ == joined_path(home@, endpoint_file(app)),
    {
        let mut out = chars_of(home);
        if out.len() > 0 && out[out.len() - 1] != '/' {
            out.push('/');
        }
        let name = chars_of(app.as_str());
        push_all(&mut out, name.as_slice());
        let suffix = chars_of("-endpoint.json");
        proof {
            reveal_strlit("-endpoint.json");
        }
        push_all(&mut out, suffix.as_slice());
        let p = string_of(out.as_slice());
        assert(p@ =~= joined_path(home@, endpoint_file(app)));
        p
    }
}

/// Whether the sibling is there.
#[derive(Debug, Clone, PartialEq, Eq)]
pub enum Presence {
    /// Answering, and this is what it says it is.
    Live { version: String },
    /// No endpoint file: it has not been started.
    NotRunning,
    /// There is a file and nothing behind it: a crash, or a port something
    /// else has taken since. Shown rather than hidden.
    Stale { why: String },
}

impl Presence {
    pub fn is_live(&self) -> (b: bool)
        ensures
            b == (self is Live),
    {
        match self {
            Presence::Live { .. } => true,
            _ => false,
        }
    }
}

/// What `/health` answers.
#[derive(Debug, Clone)]
pub struct Health {
    pub app: App,
    pub version: String,
}

/// What asking the sibling came to, before it is judged: no endpoint file,
/// a transport that failed with these words, or an answer that did or did
/// not read as a [`Health`].
pub enum Heard {
    NoEndpoint,
    Unreachable(String),
    Answered(Result<Health, String>),
}

/// The presence that what was heard amounts to.
pub open spec fn presence_of(app: App, heard: Heard) -> (bool, bool, Seq<char>) {
    // (live, not running, the version or the reason)
    match heard {
        Heard::NoEndpoint => (false, true, Seq::empty()),
        Heard::Unreachable(e) => (false, false, e@),
        Heard::Answered(Ok(h)) => if h.app == app {
            (true, false, h.version@)
        } else {
            (
                false,
                false,
                seq!['s', 'o', 'm', 'e', 't', 'h', 'i', 'n', 'g', ' ', 'c', 'a', 'l', 'l', 'i', 'n', 'g', ' ', 'i', 't', 's', 'e', 'l', 'f', ' ']
                    + app_name(h.app) + seq![' ', 'a', 'n', 's', 'w', 'e', 'r', 'e', 'd'],
            )
        },
        Heard::Answered(Err(e)) => (
            false,
            false,
            seq!['t', 'h', 'e', ' ', 'a', 'n', 's', 'w', 'e', 'r', ' ', 'w', 'a', 's', ' ', 'n', 'o', 't', ' ']
                + app_name(app) + seq!['\'', 's', ':', ' '] + e@,
        ),
    }
}

pub open spec fn presence_view(p: Presence) -> (bool, bool, Seq<char>) {
    match p {
        Presence::Live { version } => (true, false, version@),
        Presence::NotRunning => (false, true, Seq::empty()),
        Presence::Stale { why } => (false, false, why@),
    }
}

/// Judge what was heard: live only when the answer is a health answer from
/// the application that was asked for; a file with nothing behind it, or
/// with something else behind it, is stale and says why.
pub fn presence_after(app: App, heard: Heard) -> (p: Presence)
    ensures
        presence_view(p) == presence_of(app, heard),
{
    match heard {
        Heard::NoEndpoint => Presence::NotRunning,
        Heard::Unreachable(e) => Presence::Stale { why: e },
        Heard::Answered(Ok(h)) => {
            if h.app == app {
                Presence::Live { version: h.version }
            } else {
                let mut why = chars_of("something calling itself ");
                let name = chars_of(h.app.as_str());
                push_all(&mut why, name.as_slice());
                let tail = chars_of(" answered");
                push_all(&mut why, tail.as_slice());
                proof {
                    reveal_strlit("something calling itself ");
                    reveal_strlit(" answered");
                }
                let w = string_of(why.as_slice());
                assert(w@ =~= presence_of(app, heard).2);
                Presence::Stale { why: w }
            }
        },
        Heard::Answered(Err(e)) => {
            let mut why = chars_of("the answer was not ");
            let name = chars_of(app.as_str());
            push_all(&mut why, name.as_slice());
            let tail = chars_of("'s: ");
            push_all(&mut why, tail.as_slice());
            let reason = chars_of(e.as_str());
            push_all(&mut why, reason.as_slice());
            proof {
                reveal_strlit("the answer was not ");
                reveal_strlit("'s: ");
            }
            let w = string_of(why.as_slice());
            assert(w@ =~= presence_of(app, heard).2);
            Presence::Stale { why: w }
        },
    }
}

/// The method an errand goes by: `POST` when it carries a body, `GET` when
/// it only asks.
pub open spec fn method_of(has_body: bool) -> Seq<char> {
    if has_body {
        seq!['P', 'O', 'S', 'T']
    } else {
        seq!['G', 'E', 'T']
    }
}

pub open spec fn crlf() -> Seq<char> {
    seq!['\r', '\n']
}

/// One request as it goes over loopback: HTTP/1.1, a fixed set of headers,
/// the token in its header, a body whose length is counted in UTF-8 bytes,
/// and `Connection: close` so the answer's end is the connection's.
pub open spec fn request_of(port: u16, token: Seq<char>, path: Seq<char>, body: Option<Seq<char>>) -> Seq<char> {
    let b = match body {
        Some(t) => t,
        None => Seq::empty(),
    };
    method_of(body is Some) + seq![' '] + path + seq![' ', 'H', 'T', 'T', 'P', '/', '1', '.', '1'] + crlf()
        + seq!['H', 'o', 's', 't', ':', ' ', '1', '2', '7', '.', '0', '.', '0', '.', '1', ':'] + decimal(port as nat) + crlf()
        + seq!['X', '-', 'G', 'i', 'r', 's', 'a', '-', 'T', 'o', 'k', 'e', 'n', ':', ' '] + token + crlf()
        + seq!['C', 'o', 'n', 't', 'e', 'n', 't', '-', 'T', 'y', 'p', 'e', ':', ' ', 'a', 'p', 'p', 'l', 'i', 'c', 'a', 't', 'i', 'o', 'n', '/', 'j', 's', 'o', 'n'] + crlf()
        + seq!['C', 'o', 'n', 't', 'e', 'n', 't', '-', 'L', 'e', 'n', 'g', 't', 'h', ':', ' '] + decimal(encode_utf8(b).len()) + crlf()
        + seq!['C', 'o', 'n', 'n', 'e', 'c', 't', 'i', 'o', 'n', ':', ' ', 'c', 'l', 'o', 's', 'e'] + crlf() + crlf() + b
}

fn push_str(out: &mut Vec<char>, s: &str)
    ensures
        final(out)@ == old(out)@ + s@,
{
    let v = chars_of(s);
    push_all(out, v.as_slice());
}

/// The request that goes to `endpoint` for `path`, carrying `body`.
pub fn request(endpoint: &Endpoint, path: &str, body: Option<&str>) -> (r: String)
    requires
        body matches Some(b) ==> encode_utf8(b@).len() <= usize::MAX,
    ensures
        r@ == request_of(endpoint.port, endpoint.token@, path@, match body {
            Some(b) => Some(b@),
            None => None,
        }),
{
    let text: &str = match body {
        Some(b) => b,
        None => "",
    };
    proof {
        reveal_strlit("");
    }
    let mut out: Vec<char> = Vec::new();
    if body.is_some() {
        push_str(&mut out, "POST");
    } else {
        push_str(&mut out, "GET");
    }
    out.push(' ');
    push_str(&mut out, path);
    push_str(&mut out, " HTTP/1.1\r\nHost: 127.0.0.1:");
    let port = decimal_of(endpoint.port as u64);
    push_all(&mut out, port.as_slice());
    push_str(&mut out, "\r\nX-Girsa-Token: ");
    push_str(&mut out, endpoint.token.as_str());
    push_str(&mut out, "\r\nContent-Type: application/json\r\nContent-Length: ");
    let len = decimal_of(text.len() as u64);
    push_all(&mut out, len.as_slice());
    push_str(&mut out, "\r\nConnection: close\r\n\r\n");
    push_str(&mut out, text);
    proof {
        reveal_strlit("POST");
        reveal_strlit("GET");
        reveal_strlit(" HTTP/1.1\r\nHost: 127.0.0.1:");
        reveal_strlit("\r\nX-Girsa-Token: ");
        reveal_strlit("\r\nContent-Type: application/json\r\nContent-Length: ");
        reveal_strlit("\r\nConnection: close\r\n\r\n");
    }
    let r = string_of(out.as_slice());
    assert(r@ =~= request_of(endpoint.port, endpoint.token@, path@, match body {
        Some(b) => Some(b@),
        None => None,
    }));
    r
}

/// `u16::from_str`.
pub open spec fn parse_u16(s: Seq<char>) -> Option<u16> {
    match parse_u32(s) {
        Some(n) => if n <= 65535 {
            Some(n as u16)
        } else {
            None
        },
        None => None,
    }
}

/// The status an answer's first line gives: its second word as a number,
/// or `0` where there is none.
pub open spec fn status_in(line: Seq<char>) -> u16 {
    let w = words(line);
    if w.len() >= 2 {
        match parse_u16(w[1]) {
            Some(n) => n,
            None => 0,
        }
    } else {
        0
    }
}

/// Read the status out of an answer's status line.
pub fn status_of(line: &str) -> (s: u16)
    ensures
        s == status_in(line@),
{
    let chars = chars_of(line);
    let w = split_whitespace(chars.as_slice());
    if w.len() >= 2 {
        assert(texts(w@)[1] == w@[1]@);
        match parse_u32_chars(w[1].as_slice()) {
            Some(n) => if n <= 65535 {
                n as u16
            } else {
                0
            },
            None => 0,
        }
    } else {
        0
    }
}

/// What an answer comes to, once it has all arrived.
#[derive(Debug, Clone, PartialEq, Eq)]
pub enum Verdict {
    /// A 2xx, with the answer.
    Accepted(String),
    /// Any other status, with what the other side said, trimmed.
    Refused { status: u16, body: String },
    /// More than [`MAX_ANSWER`] bytes arrived.
    TooLarge,
    /// The answer is not UTF-8 text.
    NotText,
}

/// `String::from_utf8`, which the standard library documents as succeeding
/// exactly on valid UTF-8, with the text the bytes encode.
#[verifier::external_body]
pub(crate) fn utf8_text(bytes: &[u8]) -> (r: Option<String>)
    ensures
        r is Some <==> valid_utf8(bytes@),
        r matches Some(s) ==> s@ == decode_utf8(bytes@),
{
    match String::from_utf8(bytes.to_vec()) {
        Ok(s) => Some(s),
        Err(_) => None,
    }
}

/// Judge a whole answer: too large, not text, accepted (2xx) or refused.
/// A quote silently repaired with replacement characters would look whole
/// and not be, so text that is not UTF-8 is a fault and not a repair.
pub fn judge(status: u16, bytes: &[u8]) -> (v: Verdict)
    ensures
        bytes@.len() > MAX_ANSWER ==> v is TooLarge,
        bytes@.len() <= MAX_ANSWER && !valid_utf8(bytes@) ==> v is NotText,
        bytes@.len() <= MAX_ANSWER && valid_utf8(bytes@) && 200 <= status < 300 ==> (v
            matches Verdict::Accepted(a) && a@ == decode_utf8(bytes@)),
        bytes@.len() <= MAX_ANSWER && valid_utf8(bytes@) && !(200 <= status < 300) ==> (v
            matches Verdict::Refused { status: s, body } && s == status && body@ == trim(
            decode_utf8(bytes@),
        )),
{
    if bytes.len() > MAX_ANSWER {
        return Verdict::TooLarge;
    }
    match utf8_text(bytes) {
        None => Verdict::NotText,
        Some(text) => {
            if 200 <= status && status < 300 {
                Verdict::Accepted(text)
            } else {
                let chars = chars_of(text.as_str());
                let t = trim_chars(chars.as_slice());
                Verdict::Refused { status, body: string_of(t.as_slice()) }
            }
        },
    }
}

/// The message a refusal for an answer over the cap carries.
pub open spec fn too_large_words() -> Seq<char> {
    seq!['t', 'h', 'e', ' ', 'a', 'n', 's', 'w', 'e', 'r', ' ', 'i', 's', ' ', 'o', 'v', 'e', 'r', ' ']
        + decimal(MAX_ANSWER as nat) + seq![' ', 'b', 'y', 't', 'e', 's']
}

/// What a refusal for an answer over the cap says: the cap, in bytes.
pub fn too_large_message() -> (s: String)
    ensures
        s@ == too_large_words(),
{
    let mut out = chars_of("the answer is over ");
    let n = decimal_of(MAX_ANSWER as u64);
    push_all(&mut out, n.as_slice());
    push_str(&mut out, " bytes");
    proof {
        reveal_strlit("the answer is over ");
        reveal_strlit(" bytes");
    }
    let s = string_of(out.as_slice());
    assert(s@ =~= too_large_words());
    s
}

/// The error of the operating system's randomness source.
#[verifier::external_type_specification]
#[verifier::external_body]
pub struct ExRandomError(getrandom::Error);

/// `getrandom::fill`: fills the buffer from the operating system's
/// randomness, or fails. Nothing is stated of the bytes, which are chance.
#[verifier::external_body]
fn fill_random(buf: &mut [u8; 16]) -> (r: Result<(), getrandom::Error>)
{
    getrandom::fill(buf)
}

/// A lowercase hexadecimal digit.
pub open spec fn hex_digit(d: u8) -> char {
    if d < 10 {
        ((d + 48) as u8) as char
    } else {
        ((d + 87) as u8) as char
    }
}

/// Bytes as lowercase hexadecimal, two digits a byte, high digit first.
pub open spec fn hex_text(bytes: Seq<u8>) -> Seq<char>
    decreases bytes.len(),
{
    if bytes.len() == 0 {
        Seq::empty()
    } else {
        hex_text(bytes.drop_last()) + seq![hex_digit(bytes.last() / 16), hex_digit(bytes.last() % 16)]
    }
}

fn hex_char(d: u8) -> (c: char)
    requires
        d < 16,
    ensures
        c == hex_digit(d),
{
    if d < 10 {
        (d + 48) as char
    } else {
        (d + 87) as char
    }
}

/// The token sixteen bytes make: 32 lowercase hexadecimal characters.
pub fn token_text(bytes: &[u8; 16]) -> (t: String)
    ensures
        t@ == hex_text(bytes@),
        t@.len() == 32,
{
    let mut out: Vec<char> = Vec::new();
    let mut i: usize = 0;
    assert(bytes@.take(0) =~= Seq::<u8>::empty());
    while i < 16
        invariant
            i <= 16,
            bytes@.len() == 16,
            out@ == hex_text(bytes@.take(i as int)),
            out@.len() == 2 * i,
        decreases 16 - i,
    {
        let b = bytes[i];
        out.push(hex_char(b / 16));
        out.push(hex_char(b % 16));
        assert(bytes@.take(i as int + 1).drop_last() =~= bytes@.take(i as int));
        i += 1;
    }
    assert(bytes@.take(16) =~= bytes@);
    string_of(out.as_slice())
}

/// A token nobody can guess: 32 hex characters from the operating system's
/// own randomness, sixteen bytes of it. Not from the clock and not from the
/// pid, which another process knows. Fails, with no fallback, when the
/// operating system has no randomness to give.
pub fn mint_token() -> (r: Result<String, getrandom::Error>)
    ensures
        r matches Ok(t) ==> t@.len() == 32 && exists|b: Seq<u8>| b.len() == 16 && t@ == hex_text(b),
{
    let mut bytes = [0u8; 16];
    match fill_random(&mut bytes) {
        Ok(()) => {
            let t = token_text(&bytes);
            assert(bytes@.len() == 16 && t@ == hex_text(bytes@));
            Ok(t)
        },
        Err(e) => Err(e),
    }
}

} // verus!
