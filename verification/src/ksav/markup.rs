//! The writers, the escaper, and the scan for the citations a document
//! stores.
use vstd::prelude::*;

use crate::source::{Range, SourcePacket};
use crate::text::{
    opt_text,
    chars_of, decimal, decimal_of, find, has_prefix_at, is_blank, is_digit, parse_usize,
    parse_usize_chars, push_all, slice_of, split_once, split_once_char, starts_with, string_of,
    trim, trim_chars,
};

verus! {

/// Every character Typst reads as markup inside a `[…]` body.
pub const MARKUP: [char; 10] = ['#', '[', ']', '\\', '$', '*', '_', '<', '>', '@'];

/// Every character Typst reads as markup only at the start of a line: a
/// heading, a list item, an enum item, a term.
pub const LINE_STARTS: [char; 4] = ['=', '-', '+', '/'];

pub open spec fn markup_char(c: char) -> bool {
    c == '#' || c == '[' || c == ']' || c == '\\' || c == '$' || c == '*' || c == '_' || c == '<'
        || c == '>' || c == '@'
}

pub open spec fn line_start_char(c: char) -> bool {
    c == '=' || c == '-' || c == '+' || c == '/'
}

/// The escaper's state: what it has written, whether it is still at the
/// start of a line (spaces and tabs keep it there), and how many digits
/// the line opened with.
pub type EscapeState = (Seq<char>, bool, nat);

/// One character escaped: a backslash before a character that is markup
/// anywhere, before one that is markup at the start of a line when it is
/// there, and before the full stop that would close a leading run of digits
/// into an enum marker.
pub open spec fn escape_step(st: EscapeState, c: char) -> EscapeState {
    let (out, start, digits) = st;
    let (out1, start1, digits1): (Seq<char>, bool, nat) = if c == '\n' {
        (out, true, 0)
    } else if (c == ' ' || c == '\t') && start {
        (out, start, digits)
    } else {
        let a = if start && line_start_char(c) {
            out.push('\\')
        } else {
            out
        };
        if is_digit(c) && (start || digits > 0) {
            (a, false, digits + 1)
        } else if c == '.' && digits > 0 {
            (a.push('\\'), false, 0)
        } else {
            (a, false, 0)
        }
    };
    let out2 = if markup_char(c) {
        out1.push('\\')
    } else {
        out1
    };
    (out2.push(c), start1, digits1)
}

pub open spec fn escape_state(s: Seq<char>) -> EscapeState
    decreases s.len(),
{
    if s.len() == 0 {
        (Seq::empty(), true, 0)
    } else {
        escape_step(escape_state(s.drop_last()), s.last())
    }
}

/// Text escaped for a Typst content body.
pub open spec fn escaped(s: Seq<char>) -> Seq<char> {
    escape_state(s).0
}

/// How Typst reads escaped text: a backslash stands for the character
/// after it.
pub open spec fn unescaped(t: Seq<char>) -> Seq<char>
    decreases t.len(),
{
    if t.len() == 0 {
        Seq::empty()
    } else if t[0] == '\\' && t.len() >= 2 {
        seq![t[1]] + unescaped(t.skip(2))
    } else {
        seq![t[0]] + unescaped(t.drop_first())
    }
}

fn is_markup(c: char) -> (b: bool)
    ensures
        b == markup_char(c),
{
    let mut i: usize = 0;
    while i < 10
        invariant
            i <= 10,
            forall|j: int| 0 <= j < i ==> MARKUP[j] != c,
        decreases 10 - i,
    {
        if MARKUP[i] == c {
            return true;
        }
        i += 1;
    }
    false
}

fn is_line_start(c: char) -> (b: bool)
    ensures
        b == line_start_char(c),
{
    let mut i: usize = 0;
    while i < 4
        invariant
            i <= 4,
            forall|j: int| 0 <= j < i ==> LINE_STARTS[j] != c,
        decreases 4 - i,
    {
        if LINE_STARTS[i] == c {
            return true;
        }
        i += 1;
    }
    false
}

fn escape_chars(s: &[char]) -> (out: Vec<char>)
    ensures
        out@ == escaped(s@),
{
    let mut out: Vec<char> = Vec::new();
    let mut at_line_start = true;
    let mut digits: usize = 0;
    let mut i: usize = 0;
    while i < s.len()
        invariant
            i <= s.len(),
            digits <= i,
            escape_state(s@.take(i as int)) == (out@, at_line_start, digits as nat),
        decreases s.len() - i,
    {
        let c = s[i];
        assert(s@.take(i + 1).drop_last() =~= s@.take(i as int));
        let ghost before = out@;
        if c == '\n' {
            at_line_start = true;
            digits = 0;
        } else if (c == ' ' || c == '\t') && at_line_start {
        } else {
            if at_line_start && is_line_start(c) {
                out.push('\\');
            }
            if '0' <= c && c <= '9' && (at_line_start || digits > 0) {
                digits += 1;
            } else {
                if c == '.' && digits > 0 {
                    out.push('\\');
                }
                digits = 0;
            }
            at_line_start = false;
        }
        if is_markup(c) {
            out.push('\\');
        }
        out.push(c);
        i += 1;
    }
    assert(s@.take(s.len() as int) =~= s@);
    out
}

/// Escape the characters Typst reads as markup: those special anywhere,
/// those special in the first column, and the full stop after a line's
/// leading digits.
pub fn escape(s: &str) -> (r: String)
    ensures
        r@ == escaped(s@),
{
    let v = chars_of(s);
    string_of(escape_chars(v.as_slice()).as_slice())
}

/// Text read pair by pair from the start never ends on a lone backslash.
pub open spec fn closed(t: Seq<char>) -> bool
    decreases t.len(),
{
    if t.len() == 0 {
        true
    } else if t[0] == '\\' {
        t.len() >= 2 && closed(t.skip(2))
    } else {
        closed(t.drop_first())
    }
}

proof fn lemma_unescaped_concat(p: Seq<char>, q: Seq<char>)
    requires
        closed(p),
    ensures
        unescaped(p + q) == unescaped(p) + unescaped(q),
        closed(q) ==> closed(p + q),
    decreases p.len(),
{
    if p.len() == 0 {
        assert(p + q =~= q);
        assert(unescaped(p) + unescaped(q) =~= unescaped(q));
    } else if p[0] == '\\' {
        lemma_unescaped_concat(p.skip(2), q);
        assert((p + q).skip(2) =~= p.skip(2) + q);
        assert((p + q)[0] == '\\' && (p + q)[1] == p[1]);
        assert(seq![p[1]] + unescaped(p.skip(2)) + unescaped(q) =~= seq![p[1]] + (unescaped(
            p.skip(2),
        ) + unescaped(q)));
    } else {
        lemma_unescaped_concat(p.drop_first(), q);
        assert((p + q).drop_first() =~= p.drop_first() + q);
        assert((p + q)[0] == p[0]);
        assert(seq![p[0]] + unescaped(p.drop_first()) + unescaped(q) =~= seq![p[0]] + (unescaped(
            p.drop_first(),
        ) + unescaped(q)));
    }
}

proof fn lemma_escape_piece(st: EscapeState, c: char)
    ensures
        ({
            let next = escape_step(st, c).0;
            let piece = next.skip(st.0.len() as int);
            &&& next == st.0 + piece
            &&& closed(piece)
            &&& unescaped(piece) == seq![c]
        }),
{
    let next = escape_step(st, c).0;
    let piece = next.skip(st.0.len() as int);
    assert(next =~= st.0 + piece);
    if piece.len() == 1 {
        assert(piece[0] == c);
        assert(c != '\\');
        assert(piece.drop_first() =~= Seq::<char>::empty());
        assert(unescaped(Seq::<char>::empty()) =~= Seq::<char>::empty());
        assert(unescaped(piece) == seq![piece[0]] + unescaped(piece.drop_first()));
        assert(unescaped(piece) =~= seq![c]);
        assert(closed(Seq::<char>::empty()));
        assert(closed(piece) == closed(piece.drop_first()));
    } else {
        assert(piece.len() == 2);
        assert(piece[0] == '\\' && piece[1] == c);
        assert(piece.skip(2) =~= Seq::<char>::empty());
        assert(unescaped(Seq::<char>::empty()) =~= Seq::<char>::empty());
        assert(unescaped(piece) == seq![piece[1]] + unescaped(piece.skip(2)));
        assert(unescaped(piece) =~= seq![c]);
        assert(closed(Seq::<char>::empty()));
        assert(closed(piece) == closed(piece.skip(2)));
    }
}

/// Escaping loses nothing: Typst reads escaped text back as the text that
/// was escaped, character for character.
pub proof fn lemma_escape_round_trip(s: Seq<char>)
    ensures
        unescaped(escaped(s)) == s,
        closed(escaped(s)),
    decreases s.len(),
{
    if s.len() == 0 {
        assert(unescaped(Seq::<char>::empty()) =~= Seq::<char>::empty());
    } else {
        let d = s.drop_last();
        lemma_escape_round_trip(d);
        let st = escape_state(d);
        lemma_escape_piece(st, s.last());
        let piece = escape_step(st, s.last()).0.skip(st.0.len() as int);
        lemma_unescaped_concat(st.0, piece);
        assert(d.push(s.last()) =~= s);
        assert(d + seq![s.last()] =~= s);
    }
}

/// How the citation is placed relative to the quote.
#[derive(Debug, Clone, Copy, PartialEq, Eq, Structural)]
pub enum CitationPlacement {
    /// A mekor footnote: what a sefer does.
    Mekor,
    /// Inline after the quote, in small type.
    Inline,
}

impl Default for CitationPlacement {
    fn default() -> (p: CitationPlacement)
        ensures
            p == CitationPlacement::Mekor,
    {
        CitationPlacement::Mekor
    }
}

/// A command with a content body: `#` then the name, then the text escaped
/// inside brackets.
pub open spec fn command_text(name: Seq<char>, body: Seq<char>) -> Seq<char> {
    seq!['#'] + name + seq!['['] + escaped(body) + seq![']']
}

pub open spec fn quote_name() -> Seq<char> {
    seq!['צ', 'י', 'ט', 'ו', 'ט']
}

pub open spec fn mekor_name() -> Seq<char> {
    seq!['מ', 'ר', 'א', 'ה', '_', 'מ', 'ק', 'ו', 'ם']
}

pub open spec fn source_name() -> Seq<char> {
    seq!['מ', 'ק', 'ו', 'ר']
}

pub open spec fn live_name() -> Seq<char> {
    seq!['מ', 'ק', 'ו', 'ר', '_', 'ח', 'י']
}

pub open spec fn editor_name() -> Seq<char> {
    seq!['ה', 'ע', 'ר', 'ת', '_', 'ע', 'ו', 'ר', 'ך']
}

pub open spec fn heading_name() -> Seq<char> {
    seq!['כ', 'ו', 'ת', 'ר', 'ת']
}

/// `מקור: "` before a stored ref.
pub open spec fn key_text() -> Seq<char> {
    seq!['מ', 'ק', 'ו', 'ר', ':']
}

pub open spec fn chars_key() -> Seq<char> {
    seq!['ת', 'ו', 'ו', 'י', 'ם', ':']
}

/// Text escaped for a Typst string: a backslash before each backslash and
/// each quote mark.
pub open spec fn string_escaped(s: Seq<char>) -> Seq<char>
    decreases s.len(),
{
    if s.len() == 0 {
        Seq::empty()
    } else {
        let p = string_escaped(s.drop_last());
        if s.last() == '\\' || s.last() == '"' {
            p.push('\\').push(s.last())
        } else {
            p.push(s.last())
        }
    }
}

/// The named argument that carries a range, or nothing for the whole place.
pub open spec fn characters_text(range: Option<Range>) -> Seq<char> {
    match range {
        Some(r) => if r.from == 0 && r.to is None {
            Seq::empty()
        } else {
            let head = seq![',', ' '] + chars_key() + seq![' ', '"'] + decimal(r.from as nat)
                + seq!['-'];
            match r.to {
                Some(t) => head + decimal(t as nat) + seq!['"'],
                None => head + seq!['"'],
            }
        },
        None => Seq::empty(),
    }
}

/// `#מראה_מקום(מקור: "girsa:…", תווים: "4-19")[…]`, or without a ref
/// `#מראה_מקום[…]`.
pub open spec fn mekor_text(citation: Seq<char>, reference: Option<Seq<char>>, range: Option<Range>) -> Seq<char> {
    match reference {
        Some(r) => seq!['#'] + mekor_name() + seq!['('] + key_text() + seq![' ', '"']
            + string_escaped(r) + seq!['"'] + characters_text(range) + seq![')', '['] + escaped(
            citation,
        ) + seq![']'],
        None => command_text(mekor_name(), citation),
    }
}

fn string_escape(s: &[char]) -> (out: Vec<char>)
    ensures
        out@ == string_escaped(s@),
{
    let mut out: Vec<char> = Vec::new();
    let mut i: usize = 0;
    while i < s.len()
        invariant
            i <= s.len(),
            out@ == string_escaped(s@.take(i as int)),
        decreases s.len() - i,
    {
        assert(s@.take(i + 1).drop_last() =~= s@.take(i as int));
        if s[i] == '\\' || s[i] == '"' {
            out.push('\\');
        }
        out.push(s[i]);
        i += 1;
    }
    assert(s@.take(s.len() as int) =~= s@);
    out
}

fn command(name: &[char], body: &str) -> (out: Vec<char>)
    ensures
        out@ == command_text(name@, body@),
{
    let mut out = vec!['#'];
    push_all(&mut out, name);
    out.push('[');
    let e = escape_chars(chars_of(body).as_slice());
    push_all(&mut out, e.as_slice());
    out.push(']');
    out
}

/// `#ציטוט[…]`: a block quote.
pub fn quote_block(text: &str) -> (r: String)
    ensures
        r@ == command_text(quote_name(), text@),
{
    let name = vec!['צ', 'י', 'ט', 'ו', 'ט'];
    string_of(command(name.as_slice(), text).as_slice())
}

/// `#מקור[…]`: the citation inline, in small grey type.
pub fn inline_citation(citation: &str) -> (r: String)
    ensures
        r@ == command_text(source_name(), citation@),
{
    let name = vec!['מ', 'ק', 'ו', 'ר'];
    string_of(command(name.as_slice(), citation).as_slice())
}

/// `#הערת_עורך[…]`: a note about the text, never part of it.
pub fn editor_note(note: &str) -> (r: String)
    ensures
        r@ == command_text(editor_name(), note@),
{
    let name = vec!['ה', 'ע', 'ר', 'ת', '_', 'ע', 'ו', 'ר', 'ך'];
    string_of(command(name.as_slice(), note).as_slice())
}

/// `#כותרת1[…]` to `#כותרת6[…]`, the level clamped to the six that exist,
/// and a newline after it.
pub fn heading(level: u8, text: &str) -> (r: String)
    ensures
        r@ == command_text(
            heading_name() + decimal(
                (if level < 1 {
                    1
                } else if level > 6 {
                    6
                } else {
                    level
                }) as nat,
            ),
            text@,
        ).push('\n'),
{
    let l: u8 = if level < 1 {
        1
    } else if level > 6 {
        6
    } else {
        level
    };
    let mut name = vec!['כ', 'ו', 'ת', 'ר', 'ת'];
    let d = decimal_of(l as u64);
    push_all(&mut name, d.as_slice());
    let mut out = command(name.as_slice(), text);
    out.push('\n');
    string_of(out.as_slice())
}

fn characters(range: Option<Range>) -> (out: Vec<char>)
    ensures
        out@ == characters_text(range),
{
    match range {
        Some(r) => {
            if r.is_all() {
                return Vec::new();
            }
            let mut out = vec![',', ' ', 'ת', 'ו', 'ו', 'י', 'ם', ':', ' ', '"'];
            let f = decimal_of(r.from as u64);
            push_all(&mut out, f.as_slice());
            out.push('-');
            if let Some(t) = r.to {
                let tv = decimal_of(t as u64);
                push_all(&mut out, tv.as_slice());
            }
            out.push('"');
            out
        },
        None => Vec::new(),
    }
}

fn mekor_chars(citation: &str, reference: Option<&str>, range: Option<Range>) -> (out: Vec<char>)
    ensures
        out@ == mekor_text(
            citation@,
            match reference {
                Some(r) => Some(r@),
                None => None,
            },
            range,
        ),
{
    let name = vec!['מ', 'ר', 'א', 'ה', '_', 'מ', 'ק', 'ו', 'ם'];
    match reference {
        Some(r) => {
            let mut out = vec!['#'];
            push_all(&mut out, name.as_slice());
            let head = vec!['(', 'מ', 'ק', 'ו', 'ר', ':', ' ', '"'];
            push_all(&mut out, head.as_slice());
            let e = string_escape(chars_of(r).as_slice());
            push_all(&mut out, e.as_slice());
            out.push('"');
            let c = characters(range);
            push_all(&mut out, c.as_slice());
            out.push(')');
            out.push('[');
            let b = escape_chars(chars_of(citation).as_slice());
            push_all(&mut out, b.as_slice());
            out.push(']');
            out
        },
        None => command(name.as_slice(), citation),
    }
}

/// `#מראה_מקום(מקור: "girsa:…")[…]`: the citation as a footnote, carrying
/// the ref, which is stored and not printed. A range that is the whole place,
/// or none, is written as nothing at all.
pub fn mekor(citation: &str, reference: Option<&str>, range: Option<Range>) -> (r: String)
    ensures
        r@ == mekor_text(
            citation@,
            match reference {
                Some(x) => Some(x@),
                None => None,
            },
            range,
        ),
{
    string_of(mekor_chars(citation, reference, range).as_slice())
}

/// `#מקור_חי(מקור: "girsa:…")[…]`: a citation in the flow of the prose that
/// keeps its ref.
pub fn live_citation(citation: &str, reference: &str) -> (r: String)
    ensures
        r@ == seq!['#'] + live_name() + seq!['('] + key_text() + seq![' ', '"'] + string_escaped(
            reference@,
        ) + seq!['"', ')', '['] + escaped(citation@) + seq![']'],
{
    let mut out = vec!['#', 'מ', 'ק', 'ו', 'ר', '_', 'ח', 'י', '(', 'מ', 'ק', 'ו', 'ר', ':', ' ', '"'];
    let e = string_escape(chars_of(reference).as_slice());
    push_all(&mut out, e.as_slice());
    out.push('"');
    out.push(')');
    out.push('[');
    let b = escape_chars(chars_of(citation).as_slice());
    push_all(&mut out, b.as_slice());
    out.push(']');
    string_of(out.as_slice())
}

/// A packet as Ksav markup: the quote, then the citation (a mekor, or
/// inline after a quote), then a note that travelled with it, then a
/// newline. A packet with no words is a mareh makom alone.
pub open spec fn ksav_text(p: SourcePacket, placement: CitationPlacement) -> Seq<char> {
    let quoting = trim(p.text@).len() > 0;
    let quote = if quoting {
        command_text(quote_name(), p.text@)
    } else {
        Seq::empty()
    };
    let cite = if placement == CitationPlacement::Inline && quoting {
        seq![' '] + command_text(source_name(), p.display@)
    } else {
        mekor_text(p.display@, Some(p.reference@), p.range)
    };
    let note = match p.note {
        Some(n) => command_text(editor_name(), n@),
        None => Seq::empty(),
    };
    (quote + cite + note).push('\n')
}

/// Turn a packet into real Ksav markup.
pub fn to_ksav(packet: &SourcePacket, placement: CitationPlacement) -> (r: String)
    ensures
        r@ == ksav_text(*packet, placement),
{
    let mut out: Vec<char> = Vec::new();
    let quoting = !is_blank(chars_of(packet.text.as_str()).as_slice());
    if quoting {
        let name = vec!['צ', 'י', 'ט', 'ו', 'ט'];
        let q = command(name.as_slice(), packet.text.as_str());
        push_all(&mut out, q.as_slice());
    }
    if placement == CitationPlacement::Inline && quoting {
        out.push(' ');
        let name = vec!['מ', 'ק', 'ו', 'ר'];
        let c = command(name.as_slice(), packet.display.as_str());
        push_all(&mut out, c.as_slice());
    } else {
        let m = mekor_chars(packet.display.as_str(), Some(packet.reference.as_str()), packet.range);
        push_all(&mut out, m.as_slice());
    }
    if let Some(note) = &packet.note {
        let name = vec!['ה', 'ע', 'ר', 'ת', '_', 'ע', 'ו', 'ר', 'ך'];
        let n = command(name.as_slice(), note.as_str());
        push_all(&mut out, n.as_slice());
    }
    out.push('\n');
    string_of(out.as_slice())
}

/// Where the named argument `מקור:` stands as a citation's argument, from
/// position `i` on: inside parentheses, outside a string, and not behind a
/// backslash, which covers whatever follows it.
pub open spec fn keys_from(m: Seq<char>, i: int, parens: nat, in_string: bool) -> Seq<int>
    decreases m.len() - i,
{
    if i < 0 || i >= m.len() {
        Seq::empty()
    } else {
        let c = m[i];
        if c == '\\' {
            if i + 2 >= m.len() {
                Seq::empty()
            } else {
                keys_from(m, i + 2, parens, in_string)
            }
        } else if c == '"' {
            keys_from(m, i + 1, parens, !in_string)
        } else if c == '(' && !in_string {
            keys_from(m, i + 1, parens + 1, in_string)
        } else if c == ')' && !in_string {
            keys_from(m, i + 1, if parens > 0 {
                (parens - 1) as nat
            } else {
                0
            }, in_string)
        } else if parens > 0 && !in_string && starts_with(m.skip(i), key_text()) {
            seq![i] + keys_from(m, i + 5, parens, in_string)
        } else {
            keys_from(m, i + 1, parens, in_string)
        }
    }
}

pub open spec fn keys(m: Seq<char>) -> Seq<int> {
    keys_from(m, 0, 0, false)
}

fn keys_in(m: &[char]) -> (r: Vec<usize>)
    ensures
        r@.map_values(|k: usize| k as int) == keys(m@),
        forall|j: int| 0 <= j < r@.len() ==> r@[j] + 5 <= m@.len(),
{
    let key = vec!['מ', 'ק', 'ו', 'ר', ':'];
    assert(key@ == key_text());
    let mut out: Vec<usize> = Vec::new();
    let mut parens: usize = 0;
    let mut in_string = false;
    let mut at: usize = 0;
    while at < m.len()
        invariant
            key@ == key_text(),
            at <= m.len(),
            parens <= at,
            forall|j: int| 0 <= j < out@.len() ==> out@[j] + 5 <= m@.len(),
            out@.map_values(|k: usize| k as int) + keys_from(m@, at as int, parens as nat, in_string)
                == keys(m@),
        decreases m.len() - at,
    {
        let c = m[at];
        if c == '\\' {
            if m.len() - at <= 2 {
                assert(keys_from(m@, at as int, parens as nat, in_string) =~= Seq::<int>::empty());
                assert(keys_from(m@, m.len() as int, parens as nat, in_string) =~= Seq::<int>::empty());
                at = m.len();
                continue;
            }
            at += 2;
            continue;
        }
        if c == '"' {
            in_string = !in_string;
        } else if c == '(' && !in_string {
            parens += 1;
        } else if c == ')' && !in_string {
            if parens > 0 {
                parens -= 1;
            }
        } else if parens > 0 && !in_string && has_prefix_at(m, at, key.as_slice()) {
            let ghost before = out@.map_values(|k: usize| k as int);
            out.push(at);
            assert(out@.map_values(|k: usize| k as int) =~= before.push(at as int));
            assert(before.push(at as int) + keys_from(m@, at + 5, parens as nat, in_string) =~= before
                + (seq![at as int] + keys_from(m@, at + 5, parens as nat, in_string)));
            at += 5;
            continue;
        }
        at += 1;
    }
    assert(keys_from(m@, at as int, parens as nat, in_string) =~= Seq::<int>::empty());
    assert(out@.map_values(|k: usize| k as int) + Seq::<int>::empty() =~= out@.map_values(|k: usize| k as int));
    out
}

/// One `מקור:` a document stores: the place, and which characters of it.
#[derive(Debug, Clone, PartialEq, Eq)]
pub struct Cited {
    /// The `girsa:` ref.
    pub reference: String,
    /// The characters of it this citation quoted, if the document said;
    /// `None` is the whole of what the ref names.
    pub range: Option<Range>,
}

pub open spec fn girsa_prefix() -> Seq<char> {
    seq!['g', 'i', 'r', 's', 'a', ':']
}

/// The text of a string value after a key at `k`, and where it ends: the
/// first quoted run after the key.
pub open spec fn value_after(m: Seq<char>, k: int) -> Option<(int, int)> {
    let tail = m.skip(k + 5);
    match find(tail, '"') {
        Some(open) => match find(tail.skip(open + 1), '"') {
            Some(close) => Some((k + 5 + open + 1, k + 5 + open + 1 + close)),
            None => None,
        },
        None => None,
    }
}

/// The text up to the first occurrence of `p`, or none.
pub open spec fn find_text(s: Seq<char>, p: Seq<char>) -> Option<int>
    decreases s.len(),
{
    if starts_with(s, p) {
        Some(0)
    } else if s.len() == 0 {
        None
    } else {
        match find_text(s.drop_first(), p) {
            Some(i) => Some(i + 1),
            None => None,
        }
    }
}

/// `תווים: "4-19"` read back off a citation's arguments: an empty end is
/// to the end of the place.
pub open spec fn range_value(args: Seq<char>) -> Option<Range> {
    match find_text(args, chars_key()) {
        Some(at) => {
            let rest = args.skip(at + 6);
            match find(rest, '"') {
                Some(open) => {
                    let after = rest.skip(open + 1);
                    match find(after, '"') {
                        Some(close) => match split_once(after.take(close), '-') {
                            Some((from, to)) => match parse_usize(trim(from)) {
                                Some(f) => if trim(to).len() == 0 {
                                    Some(Range { from: f, to: None })
                                } else {
                                    match parse_usize(trim(to)) {
                                        Some(t) => Some(Range { from: f, to: Some(t) }),
                                        None => None,
                                    }
                                },
                                None => None,
                            },
                            None => None,
                        },
                        None => None,
                    }
                },
                None => None,
            }
        },
        None => None,
    }
}

/// The citations behind the keys `ks`, in order: a key with no value after
/// it ends the scan, and a value that is not a `girsa:` ref is passed over.
/// A citation's range is read only up to the `]` that ends it.
pub open spec fn cited_from(m: Seq<char>, ks: Seq<int>) -> Seq<(Seq<char>, Option<Range>)>
    decreases ks.len(),
{
    if ks.len() == 0 {
        Seq::empty()
    } else {
        match value_after(m, ks[0]) {
            Some((start, end)) => {
                let found = m.subrange(start, end);
                let rest = m.skip(end + 1);
                let args = match find(rest, ']') {
                    Some(b) => rest.take(b),
                    None => rest,
                };
                let here = if starts_with(found, girsa_prefix()) {
                    seq![(found, range_value(args))]
                } else {
                    Seq::empty()
                };
                here + cited_from(m, ks.drop_first())
            },
            None => Seq::empty(),
        }
    }
}

/// Every citation a document stores, in the order they appear.
pub open spec fn citations(m: Seq<char>) -> Seq<(Seq<char>, Option<Range>)> {
    cited_from(m, keys(m))
}

pub open spec fn cited_view(c: Cited) -> (Seq<char>, Option<Range>) {
    (c.reference@, c.range)
}

pub open spec fn shifted(r: Option<int>, by: int) -> Option<int> {
    match r {
        Some(j) => Some(j + by),
        None => None,
    }
}

fn find_text_at(s: &[char], p: &[char]) -> (r: Option<usize>)
    ensures
        match r {
            Some(i) => find_text(s@, p@) == Some(i as int) && i <= s.len(),
            None => find_text(s@, p@) is None,
        },
{
    let mut i: usize = 0;
    assert(s@.skip(0) =~= s@);
    loop
        invariant
            i <= s.len(),
            find_text(s@, p@) == shifted(find_text(s@.skip(i as int), p@), i as int),
        decreases s.len() - i,
    {
        if has_prefix_at(s, i, p) {
            return Some(i);
        }
        if i == s.len() {
            return None;
        }
        assert(s@.skip(i as int).drop_first() =~= s@.skip(i + 1));
        i += 1;
    }
}

fn range_in(args: &[char]) -> (r: Option<Range>)
    ensures
        r == range_value(args@),
{
    let key = vec!['ת', 'ו', 'ו', 'י', 'ם', ':'];
    assert(key@ == chars_key());
    let at = match find_text_at(args, key.as_slice()) {
        Some(a) => a,
        None => return None,
    };
    if args.len() - at < 6 {
        proof {
            lemma_find_text_fits(args@, key@);
        }
        return None;
    }
    let rest = slice_of(args, at + 6, args.len());
    assert(rest@ == args@.skip(at + 6));
    proof {
        crate::text::lemma_find(rest@, '"');
    }
    let open = match crate::text::find_char(rest.as_slice(), '"') {
        Some(o) => o,
        None => return None,
    };
    let after = slice_of(rest.as_slice(), open + 1, rest.len());
    assert(after@ == rest@.skip(open + 1));
    proof {
        crate::text::lemma_find(after@, '"');
    }
    let close = match crate::text::find_char(after.as_slice(), '"') {
        Some(c) => c,
        None => return None,
    };
    let inner = slice_of(after.as_slice(), 0, close);
    assert(inner@ == after@.take(close as int));
    let (from, to) = match split_once_char(inner.as_slice(), '-') {
        Some(p) => p,
        None => return None,
    };
    let f = match parse_usize_chars(trim_chars(from.as_slice()).as_slice()) {
        Some(f) => f,
        None => return None,
    };
    let t = trim_chars(to.as_slice());
    if t.len() == 0 {
        return Some(Range { from: f, to: None });
    }
    match parse_usize_chars(t.as_slice()) {
        Some(v) => Some(Range { from: f, to: Some(v) }),
        None => None,
    }
}

proof fn lemma_find_text_fits(s: Seq<char>, p: Seq<char>)
    ensures
        match find_text(s, p) {
            Some(i) => 0 <= i && i + p.len() <= s.len(),
            None => true,
        },
    decreases s.len(),
{
    if !starts_with(s, p) && s.len() > 0 {
        lemma_find_text_fits(s.drop_first(), p);
    }
}

fn value_at(m: &[char], k: usize) -> (r: Option<(usize, usize)>)
    requires
        k + 5 <= m.len(),
    ensures
        match r {
            Some((a, b)) => value_after(m@, k as int) == Some((a as int, b as int)) && a <= b < m.len(),
            None => value_after(m@, k as int) is None,
        },
{
    let tail = slice_of(m, k + 5, m.len());
    assert(tail@ == m@.skip(k + 5));
    proof {
        crate::text::lemma_find(tail@, '"');
    }
    let open = match crate::text::find_char(tail.as_slice(), '"') {
        Some(o) => o,
        None => return None,
    };
    let after = slice_of(tail.as_slice(), open + 1, tail.len());
    assert(after@ == tail@.skip(open + 1));
    proof {
        crate::text::lemma_find(after@, '"');
    }
    let close = match crate::text::find_char(after.as_slice(), '"') {
        Some(c) => c,
        None => return None,
    };
    Some((k + 5 + open + 1, k + 5 + open + 1 + close))
}

/// Every citation the document stores, in the order they appear: the
/// value of each `מקור:` that is a `girsa:` ref, with the characters it
/// quoted if the citation said.
pub fn cited_in(markup: &str) -> (r: Vec<Cited>)
    ensures
        r@.map_values(|c: Cited| cited_view(c)) == citations(markup@),
{
    let m = chars_of(markup);
    let ks = keys_in(m.as_slice());
    let ghost kv = ks@.map_values(|k: usize| k as int);
    let mut out: Vec<Cited> = Vec::new();
    let mut i: usize = 0;
    assert(kv.skip(0) =~= kv);
    assert(out@.map_values(|c: Cited| cited_view(c)) + cited_from(m@, kv) =~= cited_from(m@, kv));
    while i < ks.len()
        invariant
            m@ == markup@,
            kv == ks@.map_values(|k: usize| k as int),
            kv == keys(m@),
            forall|j: int| 0 <= j < ks@.len() ==> ks@[j] + 5 <= m@.len(),
            i <= ks.len(),
            out@.map_values(|c: Cited| cited_view(c)) + cited_from(m@, kv.skip(i as int)) == citations(m@),
        decreases ks.len() - i,
    {
        let ghost rest_k = kv.skip(i as int);
        assert(rest_k[0] == ks@[i as int] as int);
        assert(rest_k.drop_first() =~= kv.skip(i + 1));
        let (start, end) = match value_at(m.as_slice(), ks[i]) {
            Some(p) => p,
            None => {
                assert(cited_from(m@, rest_k) =~= Seq::<(Seq<char>, Option<Range>)>::empty());
                assert(out@.map_values(|c: Cited| cited_view(c)) + Seq::<(Seq<char>, Option<Range>)>::empty() =~= out@.map_values(|c: Cited| cited_view(c)));
                return out;
            },
        };
        let found = slice_of(m.as_slice(), start, end);
        let girsa = vec!['g', 'i', 'r', 's', 'a', ':'];
        assert(girsa@ == girsa_prefix());
        let rest = slice_of(m.as_slice(), end + 1, m.len());
        assert(rest@ == m@.skip(end + 1));
        proof {
            crate::text::lemma_find(rest@, ']');
        }
        let ghost before = out@.map_values(|c: Cited| cited_view(c));
        if crate::text::has_prefix(found.as_slice(), girsa.as_slice()) {
            let args = match crate::text::find_char(rest.as_slice(), ']') {
                Some(b) => slice_of(rest.as_slice(), 0, b),
                None => rest,
            };
            let range = range_in(args.as_slice());
            out.push(Cited { reference: string_of(found.as_slice()), range });
            assert(out@.map_values(|c: Cited| cited_view(c)) =~= before.push((found@, range)));
            assert(before.push((found@, range)) + cited_from(m@, kv.skip(i + 1)) =~= before + (seq![(found@, range)] + cited_from(m@, kv.skip(i + 1))));
        } else {
            assert(Seq::<(Seq<char>, Option<Range>)>::empty() + cited_from(m@, kv.skip(i + 1)) =~= cited_from(m@, kv.skip(i + 1)));
        }
        i += 1;
    }
    assert(kv.skip(ks.len() as int) =~= Seq::<int>::empty());
    assert(out@.map_values(|c: Cited| cited_view(c)) + Seq::<(Seq<char>, Option<Range>)>::empty() =~= out@.map_values(|c: Cited| cited_view(c)));
    out
}

/// The references of a list of citations, each once, in first-seen order.
pub open spec fn distinct_refs(c: Seq<(Seq<char>, Option<Range>)>) -> Seq<Seq<char>>
    decreases c.len(),
{
    if c.len() == 0 {
        Seq::empty()
    } else {
        let p = distinct_refs(c.drop_last());
        if p.contains(c.last().0) {
            p
        } else {
            p.push(c.last().0)
        }
    }
}

/// Every ref the document stores: the citations with their ranges dropped
/// and repeats removed.
pub fn refs_in(markup: &str) -> (r: Vec<String>)
    ensures
        crate::text::strings(r@) == distinct_refs(citations(markup@)),
{
    let cited = cited_in(markup);
    let ghost cv = cited@.map_values(|c: Cited| cited_view(c));
    let mut out: Vec<String> = Vec::new();
    let mut i: usize = 0;
    while i < cited.len()
        invariant
            i <= cited.len(),
            cv == cited@.map_values(|c: Cited| cited_view(c)),
            crate::text::strings(out@) == distinct_refs(cv.take(i as int)),
        decreases cited.len() - i,
    {
        assert(cv.take(i + 1).drop_last() =~= cv.take(i as int));
        assert(cv.take(i + 1).last() == cited_view(cited@[i as int]));
        let mut seen = false;
        let mut j: usize = 0;
        while j < out.len()
            invariant
                i < cited.len(),
                j <= out.len(),
                seen == exists|q: int| 0 <= q < j && out@[q]@ == cited@[i as int].reference@,
            decreases out.len() - j,
        {
            if crate::text::same_text(out[j].as_str(), cited[i].reference.as_str()) {
                seen = true;
            }
            j += 1;
        }
        let ghost before = crate::text::strings(out@);
        assert(seen == before.contains(cited@[i as int].reference@)) by {
            if seen {
                let q = choose|q: int| 0 <= q < out.len() && out@[q]@ == cited@[i as int].reference@;
                assert(before[q] == out@[q]@);
            }
            if before.contains(cited@[i as int].reference@) {
                let q = choose|q: int| 0 <= q < before.len() && before[q] == cited@[i as int].reference@;
                assert(before[q] == out@[q]@);
            }
        }
        if !seen {
            out.push(cited[i].reference.clone());
            assert(crate::text::strings(out@) =~= before.push(cited@[i as int].reference@));
        }
        i += 1;
    }
    assert(cv.take(cited.len() as int) =~= cv);
    out
}

/// The document after the citations behind the keys `ks` are offered for
/// rewriting, given the answers in the order they are asked: only the value
/// of a `מקור:` that is a `girsa:` ref is asked about, a value inside what
/// was already rewritten is passed over, and a key with no value ends the
/// scan. An answer of `None`, or no answer left, leaves the value alone.
pub open spec fn retarget_from(m: Seq<char>, ks: Seq<int>, answers: Seq<Option<Seq<char>>>, written: int, out: Seq<char>) -> Seq<char>
    decreases ks.len(),
{
    if ks.len() == 0 {
        out + m.skip(written)
    } else {
        match value_after(m, ks[0]) {
            None => out + m.skip(written),
            Some((start, end)) => if start < written {
                retarget_from(m, ks.drop_first(), answers, written, out)
            } else if starts_with(m.subrange(start, end), girsa_prefix()) {
                let a = if answers.len() > 0 {
                    answers[0]
                } else {
                    None
                };
                let rest = if answers.len() > 0 {
                    answers.drop_first()
                } else {
                    answers
                };
                match a {
                    Some(now) => retarget_from(
                        m,
                        ks.drop_first(),
                        rest,
                        end,
                        out + m.subrange(written, start) + now,
                    ),
                    None => retarget_from(m, ks.drop_first(), rest, written, out),
                }
            } else {
                retarget_from(m, ks.drop_first(), answers, written, out)
            }
        }
    }
}

pub open spec fn retargeted_text(m: Seq<char>, answers: Seq<Option<Seq<char>>>) -> Seq<char> {
    retarget_from(m, keys(m), answers, 0, Seq::empty())
}

pub open spec fn answers_view(a: Seq<Option<String>>) -> Seq<Option<Seq<char>>> {
    a.map_values(|x: Option<String>| match x {
        Some(s) => Some(s@),
        None => None,
    })
}

/// The document with each citation's ref replaced by the answer given for
/// it, the answers taken in the order the citations are asked about.
pub fn retarget_with(markup: &str, answers: &[Option<String>]) -> (r: String)
    ensures
        r@ == retargeted_text(markup@, answers_view(answers@)),
{
    let m = chars_of(markup);
    let ks = keys_in(m.as_slice());
    let ghost kv = ks@.map_values(|k: usize| k as int);
    let ghost av = answers_view(answers@);
    let mut out: Vec<char> = Vec::new();
    let mut written: usize = 0;
    let mut next: usize = 0;
    let mut i: usize = 0;
    let mut done = false;
    assert(kv.skip(0) =~= kv);
    assert(av.skip(0) =~= av);
    assert(m@.skip(0) =~= m@);
    while i < ks.len() && !done
        invariant
            done ==> retarget_from(m@, kv.skip(i as int), av.skip(next as int), written as int, out@)
                == out@ + m@.skip(written as int),
            m@ == markup@,
            kv == ks@.map_values(|k: usize| k as int),
            kv == keys(m@),
            av == answers_view(answers@),
            forall|j: int| 0 <= j < ks@.len() ==> ks@[j] + 5 <= m@.len(),
            i <= ks.len(),
            next <= answers.len(),
            written <= m.len(),
            retarget_from(m@, kv.skip(i as int), av.skip(next as int), written as int, out@)
                == retargeted_text(m@, av),
        decreases ks.len() - i + (if done { 0int } else { 1int }),
    {
        let ghost rest_k = kv.skip(i as int);
        assert(rest_k[0] == ks@[i as int] as int);
        assert(rest_k.drop_first() =~= kv.skip(i + 1));
        let (start, end) = match value_at(m.as_slice(), ks[i]) {
            Some(p) => p,
            None => {
                done = true;
                continue;
            },
        };
        if start < written {
            i += 1;
            continue;
        }
        let found = slice_of(m.as_slice(), start, end);
        let girsa = vec!['g', 'i', 'r', 's', 'a', ':'];
        assert(girsa@ == girsa_prefix());
        if crate::text::has_prefix(found.as_slice(), girsa.as_slice()) {
            let ghost ar = av.skip(next as int);
            if next < answers.len() {
                assert(ar[0] == av[next as int]);
                assert(ar.drop_first() =~= av.skip(next + 1));
                match &answers[next] {
                    Some(now) => {
                        let piece = slice_of(m.as_slice(), written, start);
                        push_all(&mut out, piece.as_slice());
                        let nv = chars_of(now.as_str());
                        push_all(&mut out, nv.as_slice());
                        written = end;
                    },
                    None => {},
                }
                next += 1;
            }
        }
        i += 1;
    }
    if !done {
        assert(kv.skip(i as int) =~= Seq::<int>::empty());
    }
    let tail = slice_of(m.as_slice(), written, m.len());
    assert(tail@ == m@.skip(written as int));
    push_all(&mut out, tail.as_slice());
    string_of(out.as_slice())
}

/// The refs that rewriting asks about, given the answers: each `מקור:`
/// value that is a `girsa:` ref, in order, save one inside what an earlier
/// answer already rewrote; a key with no value ends the scan.
pub open spec fn asked_from(m: Seq<char>, ks: Seq<int>, answers: Seq<Option<Seq<char>>>, written: int) -> Seq<
    Seq<char>,
>
    decreases ks.len(),
{
    if ks.len() == 0 {
        Seq::empty()
    } else {
        match value_after(m, ks[0]) {
            None => Seq::empty(),
            Some((start, end)) => if start < written {
                asked_from(m, ks.drop_first(), answers, written)
            } else if starts_with(m.subrange(start, end), girsa_prefix()) {
                let a = if answers.len() > 0 {
                    answers[0]
                } else {
                    None
                };
                let rest = if answers.len() > 0 {
                    answers.drop_first()
                } else {
                    answers
                };
                seq![m.subrange(start, end)] + match a {
                    Some(_) => asked_from(m, ks.drop_first(), rest, end),
                    None => asked_from(m, ks.drop_first(), rest, written),
                }
            } else {
                asked_from(m, ks.drop_first(), answers, written)
            }
        }
    }
}

/// The refs a document's rewriting asks about, given the answers.
pub open spec fn asked(m: Seq<char>, answers: Seq<Option<Seq<char>>>) -> Seq<Seq<char>> {
    asked_from(m, keys(m), answers, 0)
}

/// `f`, asked about the ref `v`, may answer `o`.
pub open spec fn answers_to<F: FnMut(&str) -> Option<String>>(f: F, v: Seq<char>, o: Option<Seq<char>>) -> bool {
    exists|x: &str, y: Option<String>| x@ == v && opt_text(y) == o && call_ensures(f, (x,), y)
}

/// The same document, with every citation's ref sent through `moved`, which
/// answers with where it should point now or `None` to leave it alone. Only
/// the value of a `מקור:` is touched; a `girsa:` ref in the prose is not a
/// citation and is not rewritten. `moved` is asked once about each ref that
/// [`asked`] lists, in order, and the document is rewritten with exactly
/// what it answered.
pub fn retargeted<F: FnMut(&str) -> Option<String>>(markup: &str, mut moved: F) -> (r: String)
    requires
        forall|g: F, v: &str| call_requires(g, (v,)),
    ensures
        exists|a: Seq<Option<Seq<char>>>|
            {
                &&& r@ == retargeted_text(markup@, a)
                &&& a.len() == asked(markup@, a).len()
                &&& forall|i: int| 0 <= i < a.len() ==> answers_to(moved, #[trigger] asked(markup@, a)[i], a[i])
            },
{
    let ghost moved0 = moved;
    let m = chars_of(markup);
    let ks = keys_in(m.as_slice());
    let ghost kv = ks@.map_values(|k: usize| k as int);
    let mut answers: Vec<Option<String>> = Vec::new();
    let ghost mut qs: Seq<Seq<char>> = Seq::empty();
    let mut written: usize = 0;
    let mut i: usize = 0;
    assert(kv.skip(0) =~= kv);
    assert forall|fut: Seq<Option<Seq<char>>>| asked_from(m@, kv, answers_view(answers@) + fut, 0) == qs
        + asked_from(m@, kv.skip(0), fut, written as int) by {
        assert(answers_view(answers@) + fut =~= fut);
        assert(qs + asked_from(m@, kv.skip(0), fut, 0) =~= asked_from(m@, kv, fut, 0));
    }
    while i < ks.len()
        invariant_except_break
            forall|fut: Seq<Option<Seq<char>>>| asked_from(m@, kv, answers_view(answers@) + fut, 0) == qs
                + asked_from(m@, kv.skip(i as int), fut, written as int),
        invariant
            m@ == markup@,
            kv == ks@.map_values(|k: usize| k as int),
            kv == keys(m@),
            forall|j: int| 0 <= j < ks@.len() ==> ks@[j] + 5 <= m@.len(),
            forall|g: F, v: &str| call_requires(g, (v,)),
            i <= ks.len(),
            moved == moved0,
            qs.len() == answers@.len(),
            forall|j: int| 0 <= j < qs.len() ==> answers_to(moved0, #[trigger] qs[j], answers_view(answers@)[j]),
        ensures
            m@ == markup@,
            moved == moved0,
            qs.len() == answers@.len(),
            forall|j: int| 0 <= j < qs.len() ==> answers_to(moved0, #[trigger] qs[j], answers_view(answers@)[j]),
            forall|fut: Seq<Option<Seq<char>>>| asked_from(m@, kv, answers_view(answers@) + fut, 0) == qs
                + asked_from(m@, kv.skip(i as int), fut, written as int),
            asked_from(m@, kv.skip(i as int), Seq::empty(), written as int) == Seq::<Seq<char>>::empty(),
        decreases ks.len() - i,
    {
        let ghost rest_k = kv.skip(i as int);
        assert(rest_k[0] == ks@[i as int] as int);
        assert(rest_k.drop_first() =~= kv.skip(i + 1));
        let (start, end) = match value_at(m.as_slice(), ks[i]) {
            Some(p) => p,
            None => {
                break;
            },
        };
        let ghost av0 = answers_view(answers@);
        let ghost w0 = written as int;
        if start >= written {
            let found = slice_of(m.as_slice(), start, end);
            let girsa = vec!['g', 'i', 'r', 's', 'a', ':'];
            assert(girsa@ == girsa_prefix());
            if crate::text::has_prefix(found.as_slice(), girsa.as_slice()) {
                let value = string_of(found.as_slice());
                let answer = moved(value.as_str());
                let ghost o = match &answer {
                    Some(x) => Some(x@),
                    None => None::<Seq<char>>,
                };
                proof {
                    assert(opt_text(answer) == o);
                    assert(answers_to(moved0, found@, o));
                }
                if answer.is_some() {
                    written = end;
                }
                answers.push(answer);
                proof {
                    let v = found@;
                    assert(answers_view(answers@) =~= av0.push(o));
                    assert forall|j: int| 0 <= j < qs.len() + 1 implies answers_to(
                        moved0,
                        #[trigger] qs.push(v)[j],
                        answers_view(answers@)[j],
                    ) by {
                        if j < qs.len() {
                            assert(qs.push(v)[j] == qs[j]);
                            assert(answers_view(answers@)[j] == av0[j]);
                        }
                    }
                    assert forall|fut: Seq<Option<Seq<char>>>| asked_from(m@, kv, answers_view(answers@) + fut, 0)
                        == qs.push(v) + asked_from(m@, kv.skip(i + 1), fut, written as int) by {
                        assert(answers_view(answers@) + fut =~= av0 + (seq![o] + fut));
                        let f2 = seq![o] + fut;
                        assert(f2[0] == o);
                        assert(f2.drop_first() =~= fut);
                        assert(qs + (seq![v] + asked_from(m@, kv.skip(i + 1), fut, written as int)) =~= qs.push(v)
                            + asked_from(m@, kv.skip(i + 1), fut, written as int));
                    }
                    qs = qs.push(v);
                }
            }
        }
        i += 1;
    }
    let r = retarget_with(markup, answers.as_slice());
    proof {
        let a = answers_view(answers@);
        assert(a + Seq::<Option<Seq<char>>>::empty() =~= a);
        assert(qs + Seq::<Seq<char>>::empty() =~= qs);
        assert(asked(markup@, a) == qs);
    }
    r
}

proof fn lemma_retarget_unmoved(m: Seq<char>, ks: Seq<int>, a: Seq<Option<Seq<char>>>, w: int, out: Seq<char>)
    requires
        forall|j: int| 0 <= j < a.len() ==> a[j] is None,
    ensures
        retarget_from(m, ks, a, w, out) == out + m.skip(w),
    decreases ks.len(),
{
    if ks.len() > 0 {
        match value_after(m, ks[0]) {
            None => {},
            Some((start, end)) => {
                let rest = if a.len() > 0 {
                    a.drop_first()
                } else {
                    a
                };
                assert forall|j: int| 0 <= j < rest.len() implies rest[j] is None by {
                    if a.len() > 0 {
                        assert(rest[j] == a[j + 1]);
                    }
                }
                lemma_retarget_unmoved(m, ks.drop_first(), rest, w, out);
                lemma_retarget_unmoved(m, ks.drop_first(), a, w, out);
            },
        }
    }
}

/// Moving nothing returns the document character for character.
pub proof fn lemma_retarget_nothing(m: Seq<char>, a: Seq<Option<Seq<char>>>)
    requires
        forall|j: int| 0 <= j < a.len() ==> a[j] is None,
    ensures
        retargeted_text(m, a) == m,
{
    lemma_retarget_unmoved(m, keys(m), a, 0, Seq::empty());
    assert(Seq::<char>::empty() + m.skip(0) =~= m);
}

// ---------------------------------------------------------------------------
// What the writer writes, the scanner reads
// ---------------------------------------------------------------------------

/// A ref as a citation stores it: a `girsa:` ref, with no quote mark or
/// backslash in it, which no ref has.
pub open spec fn storable_ref(r: Seq<char>) -> bool {
    &&& starts_with(r, girsa_prefix())
    &&& forall|i: int| 0 <= i < r.len() ==> r[i] != '"' && r[i] != '\\'
}

/// The range a citation reads back as: what was written, except that the
/// whole place and no range at all are both written as nothing.
pub open spec fn range_read_back(range: Option<Range>) -> Option<Range> {
    match range {
        Some(x) => if x.from == 0 && x.to is None {
            None
        } else {
            Some(x)
        },
        None => None,
    }
}

proof fn lemma_string_escaped_plain(r: Seq<char>)
    requires
        forall|i: int| 0 <= i < r.len() ==> r[i] != '"' && r[i] != '\\',
    ensures
        string_escaped(r) == r,
    decreases r.len(),
{
    if r.len() > 0 {
        let d = r.drop_last();
        assert forall|i: int| 0 <= i < d.len() implies d[i] != '"' && d[i] != '\\' by {
            assert(d[i] == r[i]);
        }
        lemma_string_escaped_plain(d);
        assert(d.push(r.last()) =~= r);
    }
}

/// The keys found from a position on are those of the text from there,
/// moved along.
proof fn lemma_keys_shift(m: Seq<char>, k: int, i: int, p: nat, s: bool)
    requires
        0 <= k <= m.len(),
        0 <= i,
    ensures
        keys_from(m, k + i, p, s) == keys_from(m.skip(k), i, p, s).map_values(|j: int| j + k),
    decreases m.len() - k - i,
{
    let x = m.skip(k);
    if i >= x.len() {
        assert(keys_from(x, i, p, s).map_values(|j: int| j + k) =~= Seq::<int>::empty());
    } else {
        assert(x[i] == m[k + i]);
        assert(x.skip(i) =~= m.skip(k + i));
        let c = m[k + i];
        if c == '\\' {
            if i + 2 >= x.len() {
                assert(keys_from(x, i, p, s).map_values(|j: int| j + k) =~= Seq::<int>::empty());
            } else {
                lemma_keys_shift(m, k, i + 2, p, s);
            }
        } else if c == '"' {
            lemma_keys_shift(m, k, i + 1, p, !s);
        } else if c == '(' && !s {
            lemma_keys_shift(m, k, i + 1, p + 1, s);
        } else if c == ')' && !s {
            lemma_keys_shift(m, k, i + 1, if p > 0 {
                (p - 1) as nat
            } else {
                0
            }, s);
        } else if p > 0 && !s && starts_with(m.skip(k + i), key_text()) {
            lemma_keys_shift(m, k, i + 5, p, s);
            assert((seq![i] + keys_from(x, i + 5, p, s)).map_values(|j: int| j + k) =~= seq![k + i]
                + keys_from(x, i + 5, p, s).map_values(|j: int| j + k));
        } else {
            lemma_keys_shift(m, k, i + 1, p, s);
        }
    }
}

/// A stretch with nothing the scan reacts to is passed over: no backslash
/// and no quote mark, and outside a string no parenthesis, and no `מ` where
/// a key could start.
proof fn lemma_keys_pass(m: Seq<char>, a: int, b: int, p: nat, s: bool)
    requires
        0 <= a <= b <= m.len(),
        forall|i: int| a <= i < b ==> m[i] != '\\' && m[i] != '"' && (!s ==> m[i] != '(' && m[i] != ')'
            && (p > 0 ==> m[i] != 'מ')),
    ensures
        keys_from(m, a, p, s) == keys_from(m, b, p, s),
    decreases b - a,
{
    if a < b {
        assert(m[a] != '\\' && m[a] != '"');
        if !s && p > 0 {
            assert(m.skip(a)[0] == m[a]);
            assert(!starts_with(m.skip(a), key_text()));
        }
        lemma_keys_pass(m, a + 1, b, p, s);
    }
}

/// The head of a footnote citation, up to the opening quote of its ref.
pub open spec fn mekor_head() -> Seq<char> {
    seq!['#'] + mekor_name() + seq!['('] + key_text() + seq![' ', '"']
}

proof fn lemma_mekor_head()
    ensures
        mekor_head() == seq!['#', 'מ', 'ר', 'א', 'ה', '_', 'מ', 'ק', 'ו', 'ם', '(', 'מ', 'ק', 'ו', 'ר', ':', ' ', '"'],
{
    assert(mekor_head() =~= seq!['#', 'מ', 'ר', 'א', 'ה', '_', 'מ', 'ק', 'ו', 'ם', '(', 'מ', 'ק', 'ו', 'ר', ':', ' ', '"']);
}

/// The range argument is passed over by the key scan: it holds no
/// parenthesis, no backslash and no key, and its quote marks pair up.
proof fn lemma_range_keys(m: Seq<char>, a: int, range: Option<Range>)
    requires
        0 <= a,
        a + characters_text(range).len() <= m.len(),
        m.subrange(a, a + characters_text(range).len()) == characters_text(range),
    ensures
        keys_from(m, a, 1, false) == keys_from(m, a + characters_text(range).len(), 1, false),
{
    let t = characters_text(range);
    if t.len() > 0 {
        let x = range->Some_0;
        let df = decimal(x.from as nat);
        crate::text::lemma_decimal_digits(x.from as nat);
        let tail: Seq<char> = match x.to {
            Some(v) => decimal(v as nat) + seq!['"'],
            None => seq!['"'],
        };
        let lead = seq![',', ' '] + chars_key() + seq![' ', '"'];
        assert(lead =~= seq![',', ' ', 'ת', 'ו', 'ו', 'י', 'ם', ':', ' ', '"']);
        assert(t =~= lead + df + seq!['-'] + tail);
        assert forall|i: int| a <= i < a + 9 implies m[i] != '\\' && m[i] != '"' && m[i] != '(' && m[i] != ')'
            && m[i] != 'מ' by {
            assert(m[i] == m.subrange(a, a + t.len())[i - a]);
            assert(t[i - a] == lead[i - a]);
        }
        lemma_keys_pass(m, a, a + 9, 1, false);
        assert(m[a + 9] == m.subrange(a, a + t.len())[9]);
        assert(m[a + 9] == '"');
        let dt: Seq<char> = match x.to {
            Some(v) => decimal(v as nat),
            None => Seq::empty(),
        };
        if x.to is Some {
            crate::text::lemma_decimal_digits(x.to->Some_0 as nat);
        }
        assert(tail =~= dt + seq!['"']);
        let e: int = a + 10 + df.len() + 1 + dt.len();
        assert(e == a + t.len() - 1);
        assert forall|i: int| a + 10 <= i < e implies m[i] != '\\' && m[i] != '"' by {
            assert(m[i] == m.subrange(a, a + t.len())[i - a]);
            let j = i - a - 10;
            if j < df.len() {
                assert(t[i - a] == df[j]);
                assert(crate::text::is_digit(df[j]));
            } else if j == df.len() {
                assert(t[i - a] == '-');
            } else {
                assert(t[i - a] == dt[j - df.len() - 1]);
                assert(crate::text::is_digit(dt[j - df.len() - 1]));
            }
        }
        lemma_keys_pass(m, a + 10, e, 1, true);
        assert(m[e] == m.subrange(a, a + t.len())[e - a]);
        assert(m[e] == '"');
    }
}

/// The one key a footnote citation holds is its own, so long as the words
/// it prints hold none.
proof fn lemma_mekor_keys(c: Seq<char>, r: Seq<char>, range: Option<Range>)
    requires
        storable_ref(r),
        keys(escaped(c) + seq![']']).len() == 0,
    ensures
        keys(mekor_text(c, Some(r), range)) == seq![11int],
{
    let t = characters_text(range);
    let body = escaped(c) + seq![']'];
    let m = mekor_text(c, Some(r), range);
    lemma_string_escaped_plain(r);
    lemma_mekor_head();
    let h = mekor_head();
    assert(m =~= h + r + seq!['"'] + t + seq![')', '['] + body);
    let q: int = 18 + r.len() as int;
    let u: int = q + 1 + t.len();
    assert forall|i: int| 0 <= i < 10 implies m[i] != '\\' && m[i] != '"' && m[i] != '(' && m[i] != ')' by {
        assert(m[i] == h[i]);
    }
    lemma_keys_pass(m, 0, 10, 0, false);
    assert(m[10] == '(');
    assert(m[11] == 'מ');
    assert(m.skip(11).take(5) =~= key_text());
    assert(keys_from(m, 11, 1, false) == seq![11int] + keys_from(m, 16, 1, false));
    assert(m[16] == ' ');
    lemma_keys_pass(m, 16, 17, 1, false);
    assert(m[17] == '"');
    assert forall|i: int| 18 <= i < q implies m[i] != '\\' && m[i] != '"' by {
        assert(m[i] == r[i - 18]);
    }
    lemma_keys_pass(m, 18, q, 1, true);
    assert(m[q] == '"');
    assert(m.subrange(q + 1, q + 1 + t.len()) =~= t);
    lemma_range_keys(m, q + 1, range);
    assert(m[u] == ')');
    assert(m[u + 1] == '[');
    lemma_keys_pass(m, u + 1, u + 2, 0, false);
    lemma_keys_shift(m, u + 2, 0, 0, false);
    assert(m.skip(u + 2) =~= body);
    assert(keys_from(body, 0, 0, false).map_values(|j: int| j + (u + 2)) =~= Seq::<int>::empty());
    assert(seq![11int] + Seq::<int>::empty() =~= seq![11int]);
}

proof fn lemma_find_char_at(s: Seq<char>, c: char, k: int)
    requires
        0 <= k < s.len(),
        s[k] == c,
        forall|j: int| 0 <= j < k ==> s[j] != c,
    ensures
        find(s, c) == Some(k),
{
    crate::text::lemma_find(s, c);
}

proof fn lemma_find_text_prefix(s: Seq<char>, p: Seq<char>, k: int)
    requires
        find_text(s, p) is None,
        0 <= k <= s.len(),
        p.len() > 0,
    ensures
        find_text(s.take(k), p) is None,
    decreases s.len(),
{
    let t = s.take(k);
    if starts_with(t, p) {
        assert(s.take(p.len() as int) =~= t.take(p.len() as int));
    }
    if t.len() > 0 {
        assert(!starts_with(s, p));
        assert(s.len() > 0);
        assert(t.drop_first() =~= s.drop_first().take(k - 1));
        lemma_find_text_prefix(s.drop_first(), p, k - 1);
    }
}

proof fn lemma_find_text_past(x: char, s: Seq<char>, p: Seq<char>)
    requires
        p.len() > 0,
        p[0] != x,
    ensures
        find_text(seq![x] + s, p) == (match find_text(s, p) {
            Some(i) => Some(i + 1),
            None => None::<int>,
        }),
{
    let t = seq![x] + s;
    assert(t[0] == x);
    if starts_with(t, p) {
        assert(t.take(p.len() as int)[0] == p[0]);
    }
    assert(t.drop_first() =~= s);
}

/// The range a footnote citation was written with, read back off its
/// arguments.
#[verifier::spinoff_prover]
#[verifier::rlimit(50)]
proof fn lemma_range_reads_back(c: Seq<char>, range: Option<Range>, k: int)
    requires
        range_read_back(range) is None ==> find_text(escaped(c), chars_key()) is None,
        0 <= k <= escaped(c).len(),
    ensures
        range_value(characters_text(range) + seq![')', '['] + escaped(c).take(k)) == range_read_back(range),
{
    let t = characters_text(range);
    let p = escaped(c).take(k);
    let args = t + seq![')', '['] + p;
    assert(chars_key() =~= seq!['ת', 'ו', 'ו', 'י', 'ם', ':']);
    if t.len() == 0 {
        lemma_find_text_prefix(escaped(c), chars_key(), k);
        assert(args =~= seq![')'] + (seq!['['] + p));
        lemma_find_text_past('[', p, chars_key());
        lemma_find_text_past(')', seq!['['] + p, chars_key());
    } else {
        let x = range->Some_0;
        let df = decimal(x.from as nat);
        crate::text::lemma_decimal_digits(x.from as nat);
        crate::text::lemma_decimal_parses(x.from as nat);
        let dt: Seq<char> = match x.to {
            Some(v) => decimal(v as nat),
            None => Seq::empty(),
        };
        if x.to is Some {
            crate::text::lemma_decimal_digits(x.to->Some_0 as nat);
            crate::text::lemma_decimal_parses(x.to->Some_0 as nat);
        }
        let lead = seq![',', ' '] + chars_key() + seq![' ', '"'];
        assert(t =~= lead + df + seq!['-'] + dt + seq!['"']);
        let after_key = seq![' ', '"'] + df + seq!['-'] + dt + seq!['"', ')', '['] + p;
        assert(args =~= seq![','] + (seq![' '] + (chars_key() + after_key)));
        assert(starts_with(chars_key() + after_key, chars_key())) by {
            assert((chars_key() + after_key).take(6) =~= chars_key());
        }
        lemma_find_text_past(' ', chars_key() + after_key, chars_key());
        lemma_find_text_past(',', seq![' '] + (chars_key() + after_key), chars_key());
        assert(find_text(args, chars_key()) == Some(2int));
        let rest = args.skip(8);
        assert(rest =~= after_key);
        lemma_find_char_at(rest, '"', 1);
        let after = rest.skip(2);
        assert(after =~= df + seq!['-'] + dt + seq!['"', ')', '['] + p);
        let close: int = df.len() as int + 1 + dt.len();
        assert forall|j: int| 0 <= j < close implies after[j] != '"' by {
            if j < df.len() {
                assert(after[j] == df[j]);
                assert(crate::text::is_digit(df[j]));
            } else if j > df.len() {
                assert(after[j] == dt[j - df.len() - 1]);
                assert(crate::text::is_digit(dt[j - df.len() - 1]));
            }
        }
        lemma_find_char_at(after, '"', close);
        let inner = after.take(close);
        assert(inner =~= df + seq!['-'] + dt);
        assert forall|j: int| 0 <= j < df.len() implies inner[j] != '-' by {
            assert(inner[j] == df[j]);
            assert(crate::text::is_digit(df[j]));
        }
        lemma_find_char_at(inner, '-', df.len() as int);
        assert(inner.take(df.len() as int) =~= df);
        assert(inner.skip(df.len() as int + 1) =~= dt);
        assert(crate::text::is_digit(df[0]) && crate::text::is_digit(df.last()));
        crate::text::lemma_trim_plain(df);
        if x.to is Some {
            assert(crate::text::is_digit(dt[0]) && crate::text::is_digit(dt.last()));
            crate::text::lemma_trim_plain(dt);
        } else {
            assert(dt =~= Seq::<char>::empty());
            assert(trim(dt) =~= Seq::<char>::empty());
        }
    }
}

proof fn lemma_range_text_plain(range: Option<Range>)
    ensures
        forall|i: int| 0 <= i < characters_text(range).len() ==> characters_text(range)[i] != ']',
{
    let t = characters_text(range);
    if t.len() > 0 {
        let x = range->Some_0;
        let df = decimal(x.from as nat);
        crate::text::lemma_decimal_digits(x.from as nat);
        let dt: Seq<char> = match x.to {
            Some(v) => decimal(v as nat),
            None => Seq::empty(),
        };
        if x.to is Some {
            crate::text::lemma_decimal_digits(x.to->Some_0 as nat);
        }
        let lead = seq![',', ' ', 'ת', 'ו', 'ו', 'י', 'ם', ':', ' ', '"'];
        assert(chars_key() =~= seq!['ת', 'ו', 'ו', 'י', 'ם', ':']);
        assert(t =~= lead + df + seq!['-'] + dt + seq!['"']);
        assert forall|i: int| 0 <= i < t.len() implies t[i] != ']' by {
            if i < 10 {
                assert(t[i] == lead[i]);
            } else if i < 10 + df.len() {
                assert(t[i] == df[i - 10]);
                assert(crate::text::is_digit(df[i - 10]));
            } else if i == 10 + df.len() {
            } else if i < 11 + df.len() + dt.len() {
                assert(t[i] == dt[i - 11 - df.len()]);
                assert(crate::text::is_digit(dt[i - 11 - df.len()]));
            }
        }
    }
}

#[verifier::rlimit(40)]
proof fn lemma_mekor_citations(c: Seq<char>, r: Seq<char>, range: Option<Range>)
    requires
        storable_ref(r),
        keys(escaped(c) + seq![']']).len() == 0,
        range_read_back(range) is None ==> find_text(escaped(c), chars_key()) is None,
    ensures
        citations(mekor_text(c, Some(r), range)) == seq![(r, range_read_back(range))],
{
    let t = characters_text(range);
    let body = escaped(c) + seq![']'];
    let m = mekor_text(c, Some(r), range);
    lemma_mekor_keys(c, r, range);
    lemma_string_escaped_plain(r);
    lemma_mekor_head();
    let h = mekor_head();
    assert(m =~= h + r + seq!['"'] + t + seq![')', '['] + body);
    let q: int = 18 + r.len() as int;
    let tail = m.skip(16);
    assert(tail[0] == ' ' && tail[1] == '"');
    lemma_find_char_at(tail, '"', 1);
    let second = tail.skip(2);
    assert forall|j: int| 0 <= j < r.len() implies second[j] != '"' by {
        assert(second[j] == r[j]);
    }
    assert(second[r.len() as int] == '"');
    lemma_find_char_at(second, '"', r.len() as int);
    assert(value_after(m, 11) == Some((18int, q)));
    assert(m.subrange(18, q) =~= r);
    let rest = m.skip(q + 1);
    assert(rest =~= t + seq![')', '['] + body);
    crate::text::lemma_find(body, ']');
    assert(body[body.len() - 1] == ']');
    let j = find(body, ']')->Some_0;
    assert(find(body, ']') is Some);
    lemma_range_text_plain(range);
    let b: int = t.len() + 2 + j;
    assert forall|i: int| 0 <= i < b implies rest[i] != ']' by {
        if i < t.len() {
            assert(rest[i] == t[i]);
        } else if i >= t.len() + 2 {
            assert(rest[i] == body[i - t.len() - 2]);
        }
    }
    assert(rest[b] == body[j]);
    lemma_find_char_at(rest, ']', b);
    assert(j <= escaped(c).len());
    assert(rest.take(b) =~= t + seq![')', '['] + escaped(c).take(j));
    lemma_range_reads_back(c, range, j);
    assert(starts_with(r, girsa_prefix()));
    let ks = keys(m);
    assert(ks == seq![11int]);
    assert(ks[0] == 11);
    assert(ks.drop_first() =~= Seq::<int>::empty());
    assert(cited_from(m, ks.drop_first()) == Seq::<(Seq<char>, Option<Range>)>::empty());
    let found = m.subrange(18, q);
    let args = rest.take(b);
    assert(find(rest, ']') == Some(b));
    assert(range_value(args) == range_read_back(range));
    assert(cited_from(m, ks) == seq![(found, range_value(args))] + cited_from(m, ks.drop_first()));
    assert(citations(m) =~= seq![(r, range_read_back(range))]);
}

/// What a footnote citation writes, the scan for citations reads back: the
/// ref, and the range it was written with (the whole place and no range
/// both reading as none). This holds for every ref a citation can store,
/// and for every citation text whose printed words do not themselves carry
/// a `מקור:` argument, or, where no range is written, a `תווים:` one.
pub proof fn lemma_mekor_reads_back(c: Seq<char>, r: Seq<char>, range: Option<Range>)
    requires
        storable_ref(r),
        keys(escaped(c) + seq![']']).len() == 0,
        range_read_back(range) is None ==> find_text(escaped(c), chars_key()) is None,
    ensures
        citations(mekor_text(c, Some(r), range)) == seq![(r, range_read_back(range))],
        distinct_refs(citations(mekor_text(c, Some(r), range))) == seq![r],
{
    lemma_mekor_citations(c, r, range);
    let one = seq![(r, range_read_back(range))];
    assert(one.drop_last() =~= Seq::<(Seq<char>, Option<Range>)>::empty());
    assert(one.last().0 == r);
    assert(distinct_refs(one.drop_last()) =~= Seq::<Seq<char>>::empty());
    assert(Seq::<Seq<char>>::empty().push(r) =~= seq![r]);
}

/// The refs a document stores: none twice, each the ref of one of its
/// citations and every citation's ref among them, and no more of them than
/// there are citations.
pub proof fn lemma_distinct_refs(c: Seq<(Seq<char>, Option<Range>)>)
    ensures
        forall|i: int, j: int| 0 <= i < j < distinct_refs(c).len() ==> distinct_refs(c)[i] != distinct_refs(c)[j],
        forall|x: Seq<char>| #[trigger] distinct_refs(c).contains(x) <==> exists|k: int| 0 <= k < c.len() && c[k].0 == x,
        distinct_refs(c).len() <= c.len(),
    decreases c.len(),
{
    if c.len() > 0 {
        let d = c.drop_last();
        lemma_distinct_refs(d);
        let p = distinct_refs(d);
        assert forall|x: Seq<char>| #[trigger] distinct_refs(c).contains(x) <==> exists|k: int| 0 <= k < c.len() && c[k].0 == x by {
            if distinct_refs(c).contains(x) {
                if p.contains(x) {
                    let k = choose|k: int| 0 <= k < d.len() && d[k].0 == x;
                    assert(c[k] == d[k]);
                } else {
                    assert(c[c.len() - 1].0 == x);
                }
            }
            if exists|k: int| 0 <= k < c.len() && c[k].0 == x {
                let k = choose|k: int| 0 <= k < c.len() && c[k].0 == x;
                if k < d.len() {
                    assert(d[k] == c[k]);
                    assert(p.contains(x));
                    if !p.contains(c.last().0) {
                        let i = choose|i: int| 0 <= i < p.len() && p[i] == x;
                        assert(p.push(c.last().0)[i] == x);
                    }
                } else if !p.contains(c.last().0) {
                    assert(p.push(c.last().0)[p.len() as int] == x);
                }
            }
        }
    }
}

} // verus!
