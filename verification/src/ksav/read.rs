//! Reading a Ksav document back: its structure, not only its words.
//!
//! The markup is read into [`Block`]s, flat and in reading order: a heading
//! is a heading, a list's items and a table's rows (which live in the
//! arguments) come out, and a footnote is lifted out of the sentence that
//! carried it, leaving its number behind. It is a reading and not an
//! evaluation. Every command is bound twice, `#כותרת1` and `#h1`, so names
//! go through [`ALIASES`] before anything is decided; an unknown command is
//! inline and keeps its words.
use vstd::prelude::*;

use crate::text::{
    chars_of, decimal, decimal_of, is_whitespace, is_ws, join, join_chars, parse_u8, parse_u8_chars,
    parse_usize, parse_usize_chars, push_all, slice_of, split_char, split_whitespace, string_of, strings,
    texts, trim, trim_chars, starts_with, ends_with, split, words,
};

verus! {

/// One thing in a document, in the order it was written.
#[derive(Debug, Clone, PartialEq, Eq)]
pub enum Block {
    /// `#כותרת1[…]`, `#כותרת(רמה: 4)[…]`, `#שער[…]`.
    Heading { level: u8, text: String },
    /// A run of body text; notes that were in it left their marker behind.
    Paragraph(String),
    /// `#ציטוט[…]`, set apart from the text that quotes it.
    Quote(String),
    /// One `פריט[…]` of a list; `depth` is 0 for the outermost.
    Item { depth: u8, ordinal: Option<String>, text: String },
    /// One row of a `#טבלה`; a header row is built from `כותרת_תא`.
    Row { cells: Vec<String>, header: bool },
    /// A footnote of any of Ksav's kinds, lifted out of its sentence.
    Note { kind: NoteKind, marker: usize, text: String },
}

/// A block as values: what [`Block`] holds, each text as its characters.
pub enum BlockView {
    Heading { level: u8, text: Seq<char> },
    Paragraph(Seq<char>),
    Quote(Seq<char>),
    Item { depth: u8, ordinal: Option<Seq<char>>, text: Seq<char> },
    Row { cells: Seq<Seq<char>>, header: bool },
    Note { kind: NoteKind, marker: usize, text: Seq<char> },
}

pub open spec fn block_view(b: Block) -> BlockView {
    match b {
        Block::Heading { level, text } => BlockView::Heading { level, text: text@ },
        Block::Paragraph(t) => BlockView::Paragraph(t@),
        Block::Quote(t) => BlockView::Quote(t@),
        Block::Item { depth, ordinal, text } => BlockView::Item {
            depth,
            ordinal: match ordinal {
                Some(o) => Some(o@),
                None => None,
            },
            text: text@,
        },
        Block::Row { cells, header } => BlockView::Row { cells: strings(cells@), header },
        Block::Note { kind, marker, text } => BlockView::Note { kind, marker, text: text@ },
    }
}

pub open spec fn blocks_view(s: Seq<Block>) -> Seq<BlockView> {
    s.map_values(|b: Block| block_view(b))
}

/// Which of Ksav's many footnotes this is.
#[derive(Debug, Clone, Copy, PartialEq, Eq, Structural)]
pub enum NoteKind {
    /// The ordinary footnote at the foot of the page.
    Foot,
    /// A note beside the text.
    Side,
    /// A note at the back.
    End,
    /// A citation, which is what a sefer does.
    Mekor,
    /// About the text, and never part of it.
    Editor,
    /// A note on a note.
    OnNote,
}

pub open spec fn note_kind_name(k: NoteKind) -> &'static str {
    match k {
        NoteKind::Foot => "foot",
        NoteKind::Side => "side",
        NoteKind::End => "end",
        NoteKind::Mekor => "mekor",
        NoteKind::Editor => "editor",
        NoteKind::OnNote => "on-note",
    }
}

impl NoteKind {
    pub fn as_str(self) -> (s: &'static str)
        ensures
            s == note_kind_name(self),
    {
        match self {
            NoteKind::Foot => "foot",
            NoteKind::Side => "side",
            NoteKind::End => "end",
            NoteKind::Mekor => "mekor",
            NoteKind::Editor => "editor",
            NoteKind::OnNote => "on-note",
        }
    }

    /// Whether this note is part of the text or a remark about it: an
    /// editor's note is the one that is not.
    pub fn is_the_text(self) -> (b: bool)
        ensures
            b == (self != NoteKind::Editor),
    {
        !matches!(self, NoteKind::Editor)
    }
}

/// What a command does to the shape of the document.
#[derive(Debug, Clone, Copy, PartialEq, Eq, Structural)]
enum Role {
    Heading(u8),
    List(Option<char>),
    Table,
    Note(NoteKind),
    Quote,
    Break,
    Setting,
    Inline,
}

/// Every structural command this file keys on, in both spellings: the
/// Hebrew name, then the English one.
pub const ALIASES: [(&'static str, &'static str); 38] = [
    ("שער", "title"),
    ("תת_שער", "subtitle"),
    ("כותרת1", "h1"),
    ("כותרת2", "h2"),
    ("כותרת3", "h3"),
    ("כותרת4", "h4"),
    ("כותרת5", "h5"),
    ("כותרת6", "h6"),
    ("כותרת", "hlevel"),
    ("רשימה", "bullets"),
    ("ממוספרת", "numbered"),
    ("ממוספרת_עברית", "henum"),
    ("רשימת_הגדרות", "deflist"),
    ("טבלה", "mktable"),
    ("הערה", "fnote"),
    ("הערה_א", "tier1"),
    ("הערה_ב", "tier2"),
    ("הערה_ג", "tier3"),
    ("הערה_בדרגה", "tier"),
    ("הערה_זרם", "stream_note"),
    ("הערת_צד", "callout"),
    ("הערת_ימין", "noteright"),
    ("הערת_שמאל", "noteleft"),
    ("הערת_גיליון", "sidenote"),
    ("הערת_תוכן", "contentnote"),
    ("הערתסיום", "endnote"),
    ("מראה_מקום", "sourcenote"),
    ("הערת_מקור", "sourcenote_stream"),
    ("הערת_עורך", "comment_"),
    ("הערה_על_הערה", "subnote"),
    ("ציטוט", "blockquote"),
    ("מעבר_עמוד", "pbreak"),
    ("מעבר_טור", "cbreak"),
    ("מעבר_שורה", "lbreak"),
    ("קו_מפריד", "hrule"),
    ("מקטע_עמוד", "page_section"),
    ("חסר", "blank"),
    ("כותרת_תא", "headcell"),
];

/// The two argument names this file reads, in both spellings.
pub const PARAM_ALIASES: [(&'static str, &'static str); 2] = [("עמודות", "columns"), ("רמה", "level")];

/// Whether a character is alphabetic or numeric in Unicode:
/// `char::is_alphanumeric`.
pub uninterp spec fn alphanumeric(c: char) -> bool;

/// `char::is_alphanumeric`, which the standard library defines by the
/// Unicode `Alphabetic` and `Numeric` properties; its result is named, not
/// stated.
#[verifier::external_body]
fn is_alphanumeric(c: char) -> (b: bool)
    ensures
        b == alphanumeric(c),
{
    c.is_alphanumeric()
}

/// The Hebrew spelling of a name: the Hebrew half of the first entry whose
/// English half it is, or the name itself.
pub open spec fn hebrew_of(table: Seq<(Seq<char>, Seq<char>)>, name: Seq<char>) -> Seq<char>
    decreases table.len(),
{
    if table.len() == 0 {
        name
    } else if table[0].1 == name {
        table[0].0
    } else {
        hebrew_of(table.drop_first(), name)
    }
}

pub open spec fn aliases_view() -> Seq<(Seq<char>, Seq<char>)> {
    ALIASES@.map_values(|p: (&'static str, &'static str)| (p.0@, p.1@))
}

pub open spec fn params_view() -> Seq<(Seq<char>, Seq<char>)> {
    PARAM_ALIASES@.map_values(|p: (&'static str, &'static str)| (p.0@, p.1@))
}

fn hebrew_name(commands: bool, name: &[char]) -> (r: Vec<char>)
    ensures
        r@ == hebrew_of(if commands { aliases_view() } else { params_view() }, name@),
{
    let n = if commands { 38 } else { 2 };
    let ghost t = if commands { aliases_view() } else { params_view() };
    let mut i: usize = 0;
    assert(t.skip(0) =~= t);
    while i < n
        invariant
            n == t.len(),
            t == (if commands { aliases_view() } else { params_view() }),
            i <= n,
            hebrew_of(t, name@) == hebrew_of(t.skip(i as int), name@),
        decreases n - i,
    {
        let pair = if commands {
            ALIASES[i]
        } else {
            PARAM_ALIASES[i]
        };
        assert(t[i as int] == (pair.0@, pair.1@));
        assert(t.skip(i as int)[0] == t[i as int]);
        let en = chars_of(pair.1);
        if crate::text::eq_chars(en.as_slice(), name) {
            return chars_of(pair.0);
        }
        assert(t.skip(i as int).drop_first() =~= t.skip(i + 1));
        i += 1;
    }
    assert(t.skip(n as int) =~= Seq::<(Seq<char>, Seq<char>)>::empty());
    crate::text::copy_of(name)
}

fn is_named(name: &[char], literal: &str) -> (b: bool)
    ensures
        b == (name@ == literal@),
{
    let l = chars_of(literal);
    crate::text::eq_chars(name, l.as_slice())
}

/// What a command name does. Unknown is inline on purpose: a reader that
/// dropped what it did not recognise would lose a sentence for a font
/// change.
/// What a command does, by its Hebrew name: a heading at its level, a
/// list and how it numbers, a table, a note of its kind, a quote, a break,
/// a setting, or else inline.
spec fn role_of(n: Seq<char>) -> Role {
    if n == "שער"@ {
        Role::Heading(1)
    } else if n == "תת_שער"@ {
        Role::Heading(2)
    } else if n == "כותרת1"@ {
        Role::Heading(1)
    } else if n == "כותרת2"@ {
        Role::Heading(2)
    } else if n == "כותרת3"@ {
        Role::Heading(3)
    } else if n == "כותרת4"@ {
        Role::Heading(4)
    } else if n == "כותרת5"@ {
        Role::Heading(5)
    } else if n == "כותרת6"@ {
        Role::Heading(6)
    } else if n == "כותרת"@ {
        Role::Heading(4)
    } else if n == "רשימה"@ {
        Role::List(None)
    } else if n == "ממוספרת"@ {
        Role::List(Some('1'))
    } else if n == "ממוספרת_עברית"@ {
        Role::List(Some('א'))
    } else if n == "רשימת_הגדרות"@ {
        Role::List(None)
    } else if n == "טבלה"@ {
        Role::Table
    } else if n == "הערה"@ || n == "הערה_א"@ || n == "הערה_ב"@ || n == "הערה_ג"@ || n == "הערה_בדרגה"@ || n == "הערה_זרם"@ {
        Role::Note(NoteKind::Foot)
    } else if n == "הערת_צד"@ || n == "הערת_ימין"@ || n == "הערת_שמאל"@ || n == "הערת_גיליון"@ || n == "הערת_תוכן"@ {
        Role::Note(NoteKind::Side)
    } else if n == "הערתסיום"@ {
        Role::Note(NoteKind::End)
    } else if n == "מראה_מקום"@ || n == "הערת_מקור"@ {
        Role::Note(NoteKind::Mekor)
    } else if n == "הערת_עורך"@ {
        Role::Note(NoteKind::Editor)
    } else if n == "הערה_על_הערה"@ {
        Role::Note(NoteKind::OnNote)
    } else if n == "ציטוט"@ {
        Role::Quote
    } else if n == "מעבר_עמוד"@ || n == "מעבר_טור"@ || n == "מעבר_שורה"@ || n == "קו_מפריד"@ || n == "מקטע_עמוד"@ || n == "חסר"@ {
        Role::Break
    } else if starts_with(n, "הגדרות_"@) || ends_with(n, "_config"@) {
        Role::Setting
    } else {
        Role::Inline
    }
}

fn role(name: &[char]) -> (r: Role)
    ensures
        r == role_of(hebrew_of(aliases_view(), name@)),
        r is Heading ==> 1 <= r->Heading_0 <= 6,
{
    let h = hebrew_name(true, name);
    let n = h.as_slice();
    if is_named(n, "שער") { return Role::Heading(1); }
    if is_named(n, "תת_שער") { return Role::Heading(2); }
    if is_named(n, "כותרת1") { return Role::Heading(1); }
    if is_named(n, "כותרת2") { return Role::Heading(2); }
    if is_named(n, "כותרת3") { return Role::Heading(3); }
    if is_named(n, "כותרת4") { return Role::Heading(4); }
    if is_named(n, "כותרת5") { return Role::Heading(5); }
    if is_named(n, "כותרת6") { return Role::Heading(6); }
    if is_named(n, "כותרת") { return Role::Heading(4); }
    if is_named(n, "רשימה") { return Role::List(None); }
    if is_named(n, "ממוספרת") { return Role::List(Some('1')); }
    if is_named(n, "ממוספרת_עברית") { return Role::List(Some('א')); }
    if is_named(n, "רשימת_הגדרות") { return Role::List(None); }
    if is_named(n, "טבלה") { return Role::Table; }
    if is_named(n, "הערה") || is_named(n, "הערה_א") || is_named(n, "הערה_ב") || is_named(n, "הערה_ג")
        || is_named(n, "הערה_בדרגה") || is_named(n, "הערה_זרם") {
        return Role::Note(NoteKind::Foot);
    }
    if is_named(n, "הערת_צד") || is_named(n, "הערת_ימין") || is_named(n, "הערת_שמאל") || is_named(
        n,
        "הערת_גיליון",
    ) || is_named(n, "הערת_תוכן") {
        return Role::Note(NoteKind::Side);
    }
    if is_named(n, "הערתסיום") { return Role::Note(NoteKind::End); }
    if is_named(n, "מראה_מקום") || is_named(n, "הערת_מקור") { return Role::Note(NoteKind::Mekor); }
    if is_named(n, "הערת_עורך") { return Role::Note(NoteKind::Editor); }
    if is_named(n, "הערה_על_הערה") { return Role::Note(NoteKind::OnNote); }
    if is_named(n, "ציטוט") { return Role::Quote; }
    if is_named(n, "מעבר_עמוד") || is_named(n, "מעבר_טור") || is_named(n, "מעבר_שורה") || is_named(
        n,
        "קו_מפריד",
    ) || is_named(n, "מקטע_עמוד") || is_named(n, "חסר") {
        return Role::Break;
    }
    let prefix = chars_of("הגדרות_");
    let suffix = chars_of("_config");
    if crate::text::has_prefix(n, prefix.as_slice()) || crate::text::has_suffix(n, suffix.as_slice()) {
        return Role::Setting;
    }
    Role::Inline
}

/// How many content commands deep the reader follows before it reads the
/// rest as words: the input is not trusted, and the depth bounds the stack.
pub const NESTING_LIMIT: u8 = 64;

/// A block as it is allowed to come out: a heading at a level that exists,
/// and no heading, paragraph, quote, item or note without words.
pub open spec fn wf_block(b: Block) -> bool {
    match b {
        Block::Heading { level, text } => 1 <= level <= 6 && text@.len() > 0,
        Block::Paragraph(t) => t@.len() > 0,
        Block::Quote(t) => t@.len() > 0,
        Block::Item { text, .. } => text@.len() > 0,
        Block::Row { .. } => true,
        Block::Note { marker, text, .. } => marker >= 1 && text@.len() > 0,
    }
}

pub open spec fn wf_blocks(s: Seq<Block>) -> bool {
    forall|i: int| 0 <= i < s.len() ==> wf_block(#[trigger] s[i])
}

proof fn lemma_wf_append(a: Seq<Block>, b: Seq<Block>)
    requires
        wf_blocks(a),
        wf_blocks(b),
    ensures
        wf_blocks(a + b),
{
    assert forall|i: int| 0 <= i < (a + b).len() implies wf_block(#[trigger] (a + b)[i]) by {
        if i < a.len() {
            assert((a + b)[i] == a[i]);
        } else {
            assert((a + b)[i] == b[i - a.len()]);
        }
    }
}

fn append_blocks(to: &mut Vec<Block>, from: &mut Vec<Block>)
    requires
        wf_blocks(old(to)@),
        wf_blocks(old(from)@),
    ensures
        wf_blocks(final(to)@),
        final(to)@ == old(to)@ + old(from)@,
        blocks_view(final(to)@) == blocks_view(old(to)@) + blocks_view(old(from)@),
        final(from)@.len() == 0,
{
    proof {
        lemma_wf_append(to@, from@);
    }
    let ghost a = to@;
    let ghost b = from@;
    to.append(from);
    assert(blocks_view(a + b) =~= blocks_view(a) + blocks_view(b));
}

fn push_block(to: &mut Vec<Block>, b: Block)
    requires
        wf_blocks(old(to)@),
        wf_block(b),
    ensures
        wf_blocks(final(to)@),
        final(to)@ == old(to)@.push(b),
        blocks_view(final(to)@) == blocks_view(old(to)@).push(block_view(b)),
{
    let ghost before = to@;
    to.push(b);
    assert forall|i: int| 0 <= i < to@.len() implies wf_block(#[trigger] to@[i]) by {
        if i < before.len() {
            assert(to@[i] == before[i]);
        }
    }
    assert(blocks_view(to@) =~= blocks_view(before).push(block_view(b)));
}

/// One line of a reading, tidied: a carriage return at its end dropped,
/// its words joined by one space.
spec fn tidy_line(l: Seq<char>) -> Seq<char> {
    let l2 = if l.len() > 0 && l.last() == '\r' {
        l.drop_last()
    } else {
        l
    };
    let ws = words(l2);
    if ws.len() > 0 {
        trim(join(ws, seq![' ']))
    } else {
        Seq::empty()
    }
}

/// The tidied lines that keep any words, in order.
spec fn kept_lines(ls: Seq<Seq<char>>) -> Seq<Seq<char>>
    decreases ls.len(),
{
    if ls.len() == 0 {
        Seq::empty()
    } else {
        let k = kept_lines(ls.drop_last());
        let t = tidy_line(ls.last());
        if t.len() > 0 {
            k.push(t)
        } else {
            k
        }
    }
}

/// Collapse the whitespace a reading leaves behind, keeping line breaks:
/// each line's words joined by one space, empty lines dropped, the lines
/// joined by newlines.
pub closed spec fn tidied(text: Seq<char>) -> Seq<char> {
    join(kept_lines(split(text, '\n')), seq!['\n'])
}

fn tidy(text: &[char]) -> (r: Vec<char>)
    ensures
        r@ == tidied(text@),
{
    let lines = split_char(text, '\n');
    let mut kept: Vec<Vec<char>> = Vec::new();
    let mut i: usize = 0;
    while i < lines.len()
        invariant
            i <= lines.len(),
            texts(kept@) == kept_lines(texts(lines@).take(i as int)),
        decreases lines.len() - i,
    {
        let ghost ls = texts(lines@).take(i as int + 1);
        assert(ls.drop_last() == texts(lines@).take(i as int));
        assert(ls.last() == lines@[i as int]@);
        let mut line = crate::text::copy_of(lines[i].as_slice());
        if line.len() > 0 && line[line.len() - 1] == '\r' {
            line.pop();
            assert(line@ == lines@[i as int]@.drop_last());
        }
        let words = split_whitespace(line.as_slice());
        if words.len() > 0 {
            let sep = vec![' '];
            assert(sep@ =~= seq![' ']);
            assert(texts(words@).subrange(0, words.len() as int) =~= texts(words@));
            let joined = join_chars(words.as_slice(), 0, words.len(), sep.as_slice());
            let t = trim_chars(joined.as_slice());
            assert(t@ == tidy_line(ls.last()));
            if t.len() > 0 {
                let ghost before = kept@;
                kept.push(t);
                assert(texts(kept@) =~= texts(before).push(t@));
            }
        } else {
            assert(tidy_line(ls.last()).len() == 0);
        }
        i += 1;
    }
    assert(texts(lines@).take(lines.len() as int) =~= texts(lines@));
    let nl = vec!['\n'];
    assert(nl@ =~= seq!['\n']);
    assert(texts(kept@).subrange(0, kept.len() as int) =~= texts(kept@));
    join_chars(kept.as_slice(), 0, kept.len(), nl.as_slice())
}

/// The letters a Hebrew list counts with, in order.
spec fn ordinal_letters() -> Seq<char> {
    seq!['א', 'ב', 'ג', 'ד', 'ה', 'ו', 'ז', 'ח', 'ט', 'י', 'כ', 'ל', 'מ', 'נ', 'ס', 'ע', 'פ', 'צ', 'ק', 'ר', 'ש', 'ת']
}

/// The ordinal of the `n`th item, counting from nought.
spec fn ordinal_text(kind: char, n: nat) -> Seq<char> {
    if kind != 'א' || n >= 22 {
        decimal(n + 1)
    } else {
        seq![ordinal_letters()[n as int]]
    }
}

/// `1`, `2`, `3` … or `א`, `ב`, `ג` …, falling back to a number past כ"ב.
fn ordinal_at(kind: char, n: usize) -> (s: String)
    requires
        n < usize::MAX,
    ensures
        s@ == ordinal_text(kind, n as nat),
{
    let letters = ['א', 'ב', 'ג', 'ד', 'ה', 'ו', 'ז', 'ח', 'ט', 'י', 'כ', 'ל', 'מ', 'נ', 'ס', 'ע',
        'פ', 'צ', 'ק', 'ר', 'ש', 'ת'];
    if kind != 'א' || n >= 22 {
        let d = decimal_of((n + 1) as u64);
        return string_of(d.as_slice());
    }
    let v = vec![letters[n]];
    assert(letters@ == ordinal_letters());
    assert(v@ =~= seq![ordinal_letters()[n as int]]);
    string_of(v.as_slice())
}

/// One `פריט[…]` or `תא[…]`, still as markup.
struct Part {
    header: bool,
    body: Vec<char>,
}

/// The settings and bodies of one `(…)`.
struct Args {
    columns: Option<usize>,
    level: Option<u8>,
    parts: Vec<Part>,
}

/// A character of a command name.
spec fn name_char(c: char) -> bool {
    c == '_' || alphanumeric(c)
}

/// Where a command name starting at `i` ends.
spec fn name_end(s: Seq<char>, i: int) -> int
    decreases s.len() - i,
{
    if i < 0 || i >= s.len() || !name_char(s[i]) {
        i
    } else {
        name_end(s, i + 1)
    }
}

/// Bracket depth after one character of a setting's value, counted the way
/// a machine word wraps.
spec fn setting_depth(c: char, depth: usize) -> usize {
    if c == '(' || c == '[' {
        if depth == usize::MAX {
            0
        } else {
            (depth + 1) as usize
        }
    } else if c == ')' || c == ']' {
        if depth == 0 {
            usize::MAX
        } else {
            (depth - 1) as usize
        }
    } else {
        depth
    }
}

/// Where a setting's value starting at `i` ends: at the first comma or
/// closing parenthesis outside brackets, or at the end.
spec fn setting_end(s: Seq<char>, i: int, depth: usize) -> int
    decreases s.len() - i,
{
    if i < 0 || i >= s.len() || ((s[i] == ',' || s[i] == ')') && depth == 0) {
        i
    } else {
        setting_end(s, i + 1, setting_depth(s[i], depth))
    }
}

/// Where raw markup up to the `close` that matches ends: the position after
/// it, and the end of what is kept (the closer left out). A backslash takes
/// the character after it along.
spec fn raw_walk(s: Seq<char>, i: int, depth: nat, to: int, open: char, close: char) -> (int, int)
    decreases s.len() - i,
{
    if i < 0 || i >= s.len() {
        (i, to)
    } else if s[i] == '\\' {
        let j = if s.len() - i >= 2 {
            i + 2
        } else {
            s.len() as int
        };
        raw_walk(s, j, depth, j, open, close)
    } else if s[i] == close {
        if depth == 0 {
            (i + 1, to)
        } else {
            raw_walk(s, i + 1, (depth - 1) as nat, i + 1, open, close)
        }
    } else if s[i] == open {
        raw_walk(s, i + 1, depth + 1, i + 1, open, close)
    } else {
        raw_walk(s, i + 1, depth, i + 1, open, close)
    }
}

/// The bracket that a closer closes.
spec fn opener(close: char) -> char {
    if close == ']' {
        '['
    } else if close == ')' {
        '('
    } else {
        close
    }
}


/// The settings and bodies of one `(…)` as values: the column count, the
/// level, and each body with whether it is a header cell.
type ArgsView = (Option<usize>, Option<u8>, Seq<(bool, Seq<char>)>);

spec fn args_view(a: Args) -> ArgsView {
    (a.columns, a.level, a.parts@.map_values(|p: Part| (p.header, p.body@)))
}

/// Where a quoted string whose first character is at `j` ends: after its
/// closing quote, a backslash taking the character after it along.
spec fn quote_end(s: Seq<char>, j: int) -> int
    decreases s.len() - j,
{
    if j < 0 || j >= s.len() {
        j
    } else if s[j] == '\\' {
        quote_end(s, if j + 1 < s.len() {
            j + 2
        } else {
            j + 1
        })
    } else if s[j] == '"' {
        j + 1
    } else {
        quote_end(s, j + 1)
    }
}

/// A name with the `#` marks in front of it taken off.
spec fn strip_hashes(t: Seq<char>) -> Seq<char>
    decreases t.len(),
{
    if t.len() > 0 && t[0] == '#' {
        strip_hashes(t.drop_first())
    } else {
        t
    }
}

proof fn lemma_quote_end_bounds(s: Seq<char>, j: int)
    requires
        0 <= j <= s.len(),
    ensures
        j <= quote_end(s, j) <= s.len(),
    decreases s.len() - j,
{
    if j < s.len() {
        if s[j] == '\\' {
            lemma_quote_end_bounds(s, if j + 1 < s.len() {
                j + 2
            } else {
                j + 1
            });
        } else if s[j] != '"' {
            lemma_quote_end_bounds(s, j + 1);
        }
    }
}

proof fn lemma_setting_end_bounds(s: Seq<char>, j: int, depth: usize)
    requires
        0 <= j <= s.len(),
    ensures
        j <= setting_end(s, j, depth) <= s.len(),
    decreases s.len() - j,
{
    if j < s.len() && !((s[j] == ',' || s[j] == ')') && depth == 0) {
        lemma_setting_end_bounds(s, j + 1, setting_depth(s[j], depth));
    }
}

proof fn lemma_raw_walk_bounds(s: Seq<char>, j: int, depth: nat, to: int, open: char, close: char)
    requires
        0 <= j <= s.len(),
    ensures
        j <= raw_walk(s, j, depth, to, open, close).0 <= s.len(),
    decreases s.len() - j,
{
    if j < s.len() {
        if s[j] == '\\' {
            let k = if s.len() - j >= 2 {
                j + 2
            } else {
                s.len() as int
            };
            lemma_raw_walk_bounds(s, k, depth, k, open, close);
        } else if s[j] == close {
            if depth > 0 {
                lemma_raw_walk_bounds(s, j + 1, (depth - 1) as nat, j + 1, open, close);
            }
        } else if s[j] == open {
            lemma_raw_walk_bounds(s, j + 1, depth + 1, j + 1, open, close);
        } else {
            lemma_raw_walk_bounds(s, j + 1, depth, j + 1, open, close);
        }
    }
}

/// What a setting sets: `עמודות: n` the columns, `רמה: n` the level, in
/// either spelling; anything else nothing.
spec fn with_setting(a: ArgsView, key: Seq<char>, value: Seq<char>) -> ArgsView {
    let name = hebrew_of(params_view(), trim(key));
    if name == "עמודות"@ {
        (parse_usize(trim(value)), a.1, a.2)
    } else if name == "רמה"@ {
        (a.0, parse_u8(trim(value)), a.2)
    } else {
        a
    }
}

/// The arguments read from `i` on, `word` being what has been read of the
/// current name: up to the `)` that closes them, or the end.
spec fn args_walk(s: Seq<char>, i: int, word: Seq<char>, a: ArgsView) -> (int, ArgsView)
    decreases s.len() - i,
{
    if i < 0 || i >= s.len() {
        (i, a)
    } else {
        let c = s[i];
        if c == ')' {
            (i + 1, a)
        } else if c == '"' {
            let e = quote_end(s, i + 1);
            proof {
                lemma_quote_end_bounds(s, i + 1);
            }
            args_walk(s, e, Seq::empty(), a)
        } else if c == ':' {
            let e = setting_end(s, i + 1, 0);
            proof {
                lemma_setting_end_bounds(s, i + 1, 0);
            }
            args_walk(s, e, Seq::empty(), with_setting(a, word, s.subrange(i + 1, e)))
        } else if c == '[' {
            let w = raw_walk(s, i + 1, 0, i + 1, '[', ']');
            proof {
                lemma_raw_walk_bounds(s, i + 1, 0, i + 1, '[', ']');
            }
            let header = hebrew_of(aliases_view(), strip_hashes(trim(word))) == "כותרת_תא"@;
            args_walk(s, w.0, Seq::empty(), (a.0, a.1, a.2.push((header, s.subrange(i + 1, w.1)))))
        } else if c == '(' {
            let w = raw_walk(s, i + 1, 0, i + 1, '(', ')');
            proof {
                lemma_raw_walk_bounds(s, i + 1, 0, i + 1, '(', ')');
            }
            args_walk(s, w.0, word, a)
        } else if c == ',' {
            args_walk(s, i + 1, Seq::empty(), a)
        } else {
            args_walk(s, i + 1, word.push(c), a)
        }
    }
}

/// The reader's state as values: the characters, the position, the blocks
/// written and the notes held back, the last note number, how deep.
struct ReadState {
    chars: Seq<char>,
    at: int,
    out: Seq<BlockView>,
    pending: Seq<BlockView>,
    notes: usize,
    nesting: nat,
}

spec fn moved(st: ReadState, at: int) -> ReadState {
    ReadState { at, ..st }
}

/// What a call left behind, with the characters and the depth the caller
/// holds.
spec fn after(st: ReadState, next: ReadState) -> ReadState {
    ReadState { chars: st.chars, nesting: st.nesting, ..next }
}

/// A paragraph finished: its tidied words, if any, then the notes it held.
spec fn flushed(st: ReadState, text: Seq<char>) -> ReadState {
    let t = tidied(text);
    ReadState {
        out: (if t.len() > 0 {
            st.out.push(BlockView::Paragraph(t))
        } else {
            st.out
        }) + st.pending,
        pending: Seq::empty(),
        ..st
    }
}

/// `text` with a space after it if it ends in anything but whitespace.
spec fn spaced(text: Seq<char>) -> Seq<char> {
    if text.len() > 0 && !is_ws(text.last()) {
        text.push(' ')
    } else {
        text
    }
}

/// Reading on from `st` until `close` or the end, `text` being the
/// paragraph so far: the paragraph's words and the state after.
spec fn run_walk(st: ReadState, close: Option<char>, depth: u8, text: Seq<char>) -> (Seq<char>, ReadState)
    decreases NESTING_LIMIT - st.nesting, 4int, st.chars.len() - st.at,
{
    if st.at < 0 || st.at >= st.chars.len() {
        (text, st)
    } else {
        let c = st.chars[st.at];
        let st1 = moved(st, st.at + 1);
        if close == Some(c) {
            (text, st1)
        } else if c == '\\' {
            if st.at + 1 < st.chars.len() {
                run_walk(moved(st, st.at + 2), close, depth, text.push(st.chars[st.at + 1]))
            } else {
                run_walk(st1, close, depth, text)
            }
        } else if c == '#' {
            let r = command_walk(st1, text, depth);
            if st.at < r.1.at <= st.chars.len() {
                run_walk(after(st, r.1), close, depth, r.0)
            } else {
                r
            }
        } else if c == '\n' {
            if st.at + 1 < st.chars.len() && st.chars[st.at + 1] == '\n' && close is None {
                run_walk(flushed(st1, text), close, depth, Seq::empty())
            } else {
                run_walk(st1, close, depth, text.push('\n'))
            }
        } else if c == '[' || c == ']' {
            run_walk(st1, close, depth, spaced(text))
        } else {
            run_walk(st1, close, depth, text.push(c))
        }
    }
}

/// The arguments of a command whose name ends at `e`, if a `(` follows.
spec fn args_at(s: Seq<char>, e: int) -> Option<(int, ArgsView)> {
    if 0 <= e < s.len() && s[e] == '(' {
        Some(args_walk(s, e + 1, Seq::empty(), (None, None, Seq::empty())))
    } else {
        None
    }
}

/// A command, its `#` read: the paragraph handed back and the state after.
spec fn command_walk(st: ReadState, text: Seq<char>, depth: u8) -> (Seq<char>, ReadState)
    decreases NESTING_LIMIT - st.nesting, 3int, 0int,
{
    let e = name_end(st.chars, st.at);
    let role = role_of(hebrew_of(aliases_view(), st.chars.subrange(st.at, e)));
    let found = args_at(st.chars, e);
    let st2 = match found {
        Some(w) => moved(st, w.0),
        None => moved(st, e),
    };
    let args: Option<ArgsView> = match found {
        Some(w) => Some(w.1),
        None => None,
    };
    match role {
        Role::Setting | Role::Break => {
            let st3 = if 0 <= st2.at < st.chars.len() && st.chars[st2.at] == '[' {
                if st.nesting >= NESTING_LIMIT {
                    moved(st, raw_walk(st.chars, st2.at + 1, 0, st2.at + 1, '[', ']').0)
                } else {
                    let inner = ReadState { at: st2.at + 1, nesting: st.nesting + 1, ..st2 };
                    after(st, run_walk(inner, Some(']'), depth, Seq::empty()).1)
                }
            } else {
                st2
            };
            (Seq::empty(), flushed(st3, text))
        },
        Role::Heading(default_level) => {
            let asked = match args {
                Some(a) => match a.1 {
                    Some(l) => l,
                    None => default_level,
                },
                None => default_level,
            };
            let level: u8 = if asked < 1 {
                1
            } else if asked > 6 {
                6
            } else {
                asked
            };
            let c = content_walk(st2, depth);
            let st4 = flushed(after(st, c.1), text);
            let out = if c.0.0.len() > 0 {
                st4.out.push(BlockView::Heading { level, text: c.0.0 })
            } else {
                st4.out
            };
            (Seq::empty(), ReadState { out: out + c.0.1, ..st4 })
        },
        Role::Quote => {
            let c = content_walk(st2, depth);
            let st4 = flushed(after(st, c.1), text);
            let out = if c.0.0.len() > 0 {
                st4.out.push(BlockView::Quote(c.0.0))
            } else {
                st4.out
            };
            (Seq::empty(), ReadState { out: out + c.0.1, ..st4 })
        },
        Role::List(numbering) => {
            let st3 = flushed(st2, text);
            match args {
                Some(a) => {
                    let item_depth: u8 = if depth < 255 {
                        (depth + 1) as u8
                    } else {
                        255
                    };
                    (Seq::empty(), items_walk(st3, a.2, 0, depth, item_depth, numbering))
                },
                None => (Seq::empty(), st3),
            }
        },
        Role::Table => {
            let st3 = flushed(st2, text);
            match args {
                Some(a) => {
                    let columns: usize = match a.0 {
                        Some(n) => n,
                        None => 0,
                    };
                    (Seq::empty(), table_walk(st3, a.2, 0, columns, Seq::empty(), false, Seq::empty(), depth))
                },
                None => (Seq::empty(), st3),
            }
        },
        Role::Note(kind) => {
            let c = content_walk(st2, depth);
            let st3 = after(st, c.1);
            if c.0.0.len() > 0 {
                let n: usize = if st3.notes < usize::MAX {
                    (st3.notes + 1) as usize
                } else {
                    st3.notes
                };
                (
                    text + decimal(n as nat),
                    ReadState {
                        notes: n,
                        pending: st3.pending.push(BlockView::Note { kind, marker: n, text: c.0.0 }) + c.0.1,
                        ..st3
                    },
                )
            } else {
                (text, ReadState { pending: st3.pending + c.0.1, ..st3 })
            }
        },
        Role::Inline => {
            let c = content_walk(st2, depth);
            let st3 = after(st, c.1);
            let t = if c.0.0.len() > 0 {
                spaced(text) + c.0.0
            } else {
                text
            };
            (t, ReadState { pending: st3.pending + c.0.1, ..st3 })
        },
    }
}

/// `[…]`, if it is there, read as its own piece of markup: its words, the
/// blocks found in it, and the state after.
spec fn content_walk(st: ReadState, depth: u8) -> ((Seq<char>, Seq<BlockView>), ReadState)
    decreases NESTING_LIMIT - st.nesting, 2int, 0int,
{
    if 0 <= st.at < st.chars.len() && st.chars[st.at] == '[' {
        let w = raw_walk(st.chars, st.at + 1, 0, st.at + 1, '[', ']');
        sub_walk(moved(st, w.0), st.chars.subrange(st.at + 1, w.1), depth)
    } else {
        ((Seq::empty(), Seq::empty()), st)
    }
}

/// The items of a list from the `n`th on.
spec fn items_walk(
    st: ReadState,
    parts: Seq<(bool, Seq<char>)>,
    n: int,
    depth: u8,
    item_depth: u8,
    numbering: Option<char>,
) -> ReadState
    decreases NESTING_LIMIT - st.nesting, 2int, parts.len() - n,
{
    if n < 0 || n >= parts.len() {
        st
    } else {
        let ordinal = match numbering {
            Some(k) => Some(ordinal_text(k, n as nat)),
            None => None,
        };
        let c = sub_walk(st, parts[n].1, item_depth);
        let st2 = after(st, c.1);
        let out = if c.0.0.len() > 0 {
            st2.out.push(BlockView::Item { depth, ordinal, text: c.0.0 })
        } else {
            st2.out
        };
        items_walk(ReadState { out: out + c.0.1, ..st2 }, parts, n + 1, depth, item_depth, numbering)
    }
}

/// The rows of a table from the `k`th cell on, `row` being the cells read
/// of the row begun and `held` the blocks found in cells so far.
spec fn table_walk(
    st: ReadState,
    parts: Seq<(bool, Seq<char>)>,
    k: int,
    columns: usize,
    row: Seq<Seq<char>>,
    header: bool,
    held: Seq<BlockView>,
    depth: u8,
) -> ReadState
    decreases NESTING_LIMIT - st.nesting, 2int, parts.len() - k,
{
    if k < 0 || k >= parts.len() {
        let out = if row.len() > 0 {
            st.out.push(BlockView::Row { cells: row, header })
        } else {
            st.out
        };
        ReadState { out: out + held, ..st }
    } else {
        let header2 = if row.len() == 0 {
            parts[k].0
        } else {
            header
        };
        let c = sub_walk(st, parts[k].1, depth);
        let st2 = after(st, c.1);
        let row2 = row.push(c.0.0);
        if columns > 0 && row2.len() >= columns {
            let st3 = ReadState { out: st2.out.push(BlockView::Row { cells: row2, header: header2 }), ..st2 };
            table_walk(st3, parts, k + 1, columns, Seq::empty(), header2, held + c.0.1, depth)
        } else {
            table_walk(st2, parts, k + 1, columns, row2, header2, held + c.0.1, depth)
        }
    }
}

/// A slice of markup read as its own document, one level deeper, sharing
/// the note numbers: its words, the blocks found in it (a first paragraph
/// standing for the words when there are no others), and the state after.
spec fn sub_walk(st: ReadState, markup: Seq<char>, depth: u8) -> ((Seq<char>, Seq<BlockView>), ReadState)
    decreases NESTING_LIMIT - st.nesting, 1int, 0int,
{
    if st.nesting >= NESTING_LIMIT {
        ((tidied(markup), Seq::empty()), st)
    } else {
        let inner = ReadState {
            chars: markup,
            at: 0,
            out: Seq::empty(),
            pending: Seq::empty(),
            notes: st.notes,
            nesting: st.nesting + 1,
        };
        let r = run_walk(inner, None, depth, Seq::empty());
        let blocks = r.1.out + r.1.pending;
        let text = tidied(r.0);
        let st2 = ReadState { notes: r.1.notes, ..st };
        if text.len() == 0 && blocks.len() > 0 && blocks[0] is Paragraph {
            ((blocks[0]->Paragraph_0, blocks.drop_first()), st2)
        } else {
            ((text, blocks), st2)
        }
    }
}

/// What [`read`] gives for a document, as values: read from its first
/// character with nothing written, held back or numbered yet, the last
/// paragraph finished at the end.
pub closed spec fn reading(markup: Seq<char>) -> Seq<BlockView> {
    let st = ReadState {
        chars: markup,
        at: 0,
        out: Seq::empty(),
        pending: Seq::empty(),
        notes: 0,
        nesting: 0,
    };
    let r = run_walk(st, None, 0, Seq::empty());
    flushed(r.1, r.0).out
}

struct Reader {
    chars: Vec<char>,
    at: usize,
    out: Vec<Block>,
    pending: Vec<Block>,
    notes: usize,
    nesting: u8,
}

impl Reader {
    spec fn state(&self) -> ReadState {
        ReadState {
            chars: self.chars@,
            at: self.at as int,
            out: blocks_view(self.out@),
            pending: blocks_view(self.pending@),
            notes: self.notes,
            nesting: self.nesting as nat,
        }
    }

    spec fn inv(&self) -> bool {
        &&& self.at <= self.chars.len()
        &&& self.nesting <= NESTING_LIMIT
        &&& wf_blocks(self.out@)
        &&& wf_blocks(self.pending@)
    }

    spec fn keeps(&self, before: &Reader) -> bool {
        &&& self.inv()
        &&& self.chars@ == before.chars@
        &&& self.nesting == before.nesting
        &&& self.notes >= before.notes
        &&& self.at >= before.at
    }

    fn peek(&self) -> (c: Option<char>)
        ensures
            self.at < self.chars.len() ==> c == Some(self.chars@[self.at as int]),
            self.at >= self.chars.len() ==> c is None,
    {
        if self.at < self.chars.len() {
            Some(self.chars[self.at])
        } else {
            None
        }
    }

    fn step(&mut self)
        requires
            old(self).inv(),
        ensures
            final(self).keeps(old(self)),
            final(self).out@ == old(self).out@,
            final(self).pending@ == old(self).pending@,
            final(self).notes == old(self).notes,
            final(self).at == if old(self).at < old(self).chars.len() {
                old(self).at + 1
            } else {
                old(self).at as int
            },
    {
        if self.at < self.chars.len() {
            self.at += 1;
        }
    }

    fn next(&mut self) -> (c: Option<char>)
        requires
            old(self).inv(),
        ensures
            final(self).keeps(old(self)),
            final(self).out@ == old(self).out@,
            final(self).pending@ == old(self).pending@,
            final(self).notes == old(self).notes,
            old(self).at < old(self).chars.len() ==> c == Some(old(self).chars@[old(self).at as int])
                && final(self).at == old(self).at + 1,
            old(self).at >= old(self).chars.len() ==> c is None && final(self).at == old(self).at,
    {
        let c = self.peek();
        if c.is_some() {
            self.at += 1;
        }
        c
    }

    /// Finish a paragraph, and let its notes out behind it.
    fn flush(&mut self, text: &[char])
        requires
            old(self).inv(),
        ensures
            final(self).keeps(old(self)),
            final(self).at == old(self).at,
            final(self).notes == old(self).notes,
            final(self).pending@.len() == 0,
            final(self).state() == flushed(old(self).state(), text@),
    {
        let t = tidy(text);
        if t.len() > 0 {
            push_block(&mut self.out, Block::Paragraph(string_of(t.as_slice())));
        }
        append_blocks(&mut self.out, &mut self.pending);
        assert(blocks_view(self.pending@) =~= Seq::<BlockView>::empty());
    }

    /// Read markup until `close`, returning the words in it and emitting
    /// every block it meets.
    fn run(&mut self, close: Option<char>, depth: u8) -> (text: Vec<char>)
        requires
            old(self).inv(),
        ensures
            final(self).keeps(old(self)),
            (text@, final(self).state()) == run_walk(old(self).state(), close, depth, Seq::empty()),
        decreases NESTING_LIMIT - old(self).nesting, 4nat,
    {
        let mut text: Vec<char> = Vec::new();
        loop
            invariant
                self.keeps(old(self)),
                run_walk(old(self).state(), close, depth, Seq::empty()) == run_walk(self.state(), close, depth, text@),
            ensures
                self.keeps(old(self)),
                self.at >= self.chars.len(),
                run_walk(old(self).state(), close, depth, Seq::empty()) == run_walk(self.state(), close, depth, text@),
            decreases self.chars.len() - self.at,
        {
            let c = match self.peek() {
                Some(c) => c,
                None => break,
            };
            if let Some(x) = close {
                if x == c {
                    self.at += 1;
                    return text;
                }
            }
            if c == '\\' {
                self.at += 1;
                if let Some(n) = self.next() {
                    text.push(n);
                }
            } else if c == '#' {
                self.at += 1;
                let taken = text;
                text = self.command(taken, depth);
            } else if c == '\n' {
                self.at += 1;
                if self.peek() == Some('\n') && close.is_none() {
                    self.flush(text.as_slice());
                    text = Vec::new();
                } else {
                    text.push('\n');
                }
            } else if c == '[' || c == ']' {
                self.at += 1;
                if text.len() > 0 && !is_whitespace(text[text.len() - 1]) {
                    text.push(' ');
                }
            } else {
                self.at += 1;
                text.push(c);
            }
        }
        text
    }

    /// A `#command`, with the paragraph so far handed in and handed back.
    fn command(&mut self, text: Vec<char>, depth: u8) -> (r: Vec<char>)
        requires
            old(self).inv(),
        ensures
            final(self).keeps(old(self)),
            (r@, final(self).state()) == command_walk(old(self).state(), text@, depth),
        decreases NESTING_LIMIT - old(self).nesting, 3nat,
    {
        let mut text = text;
        let ghost st = self.state();
        let name = self.name();
        let role = role(name.as_slice());
        let ghost e = self.at as int;
        let ghost found = args_at(st.chars, e);
        let args = if self.peek() == Some('(') {
            self.at += 1;
            Some(self.args())
        } else {
            None
        };
        proof {
            match found {
                Some(w) => {
                    assert(args is Some && args_view(args->0) == w.1);
                    assert(self.state() == moved(st, w.0));
                },
                None => {
                    assert(args is None);
                    assert(self.state() == moved(st, e));
                },
            }
        }
        let ghost st2 = self.state();
        let ghost text0 = text@;
        let ghost want = command_walk(st, text0, depth);
        match role {
            Role::Setting | Role::Break => {
                if self.peek() == Some('[') {
                    self.at += 1;
                    if self.nesting >= NESTING_LIMIT {
                        let _ = self.raw(']');
                        assert(self.state() == moved(st, raw_walk(st.chars, st2.at + 1, 0, st2.at + 1, '[', ']').0));
                    } else {
                        self.nesting += 1;
                        assert(self.state() == ReadState { at: st2.at + 1, nesting: st.nesting + 1, ..st2 });
                        let _ = self.run(Some(']'), depth);
                        let ghost ran = self.state();
                        self.nesting -= 1;
                        assert(self.state() == after(st, ran));
                    }
                }
                self.flush(text.as_slice());
                assert(self.state() == want.1);
                Vec::new()
            },
            Role::Heading(default_level) => {
                let level = match &args {
                    Some(a) => match a.level {
                        Some(l) => l,
                        None => default_level,
                    },
                    None => default_level,
                };
                let level = if level < 1 {
                    1
                } else if level > 6 {
                    6
                } else {
                    level
                };
                let (heading, mut inside) = self.content(depth);
                assert(after(st, self.state()) == self.state());
                self.flush(text.as_slice());
                if heading.len() > 0 {
                    push_block(&mut self.out, Block::Heading { level, text: string_of(heading.as_slice()) });
                }
                append_blocks(&mut self.out, &mut inside);
                assert(self.state() == want.1);
                Vec::new()
            },
            Role::Quote => {
                let (quoted, mut inside) = self.content(depth);
                assert(after(st, self.state()) == self.state());
                self.flush(text.as_slice());
                if quoted.len() > 0 {
                    push_block(&mut self.out, Block::Quote(string_of(quoted.as_slice())));
                }
                append_blocks(&mut self.out, &mut inside);
                assert(self.state() == want.1);
                Vec::new()
            },
            Role::List(numbering) => {
                self.flush(text.as_slice());
                if let Some(args) = args {
                    let item_depth = if depth < 255 {
                        depth + 1
                    } else {
                        255
                    };
                    let ghost parts = args_view(args).2;
                    let ghost st3 = self.state();
                    let mut n: usize = 0;
                    while n < args.parts.len()
                        invariant
                            self.keeps(old(self)),
                            self.nesting == old(self).nesting,
                            n <= args.parts.len(),
                            parts == args_view(args).2,
                            items_walk(st3, parts, 0, depth, item_depth, numbering) == items_walk(
                                self.state(),
                                parts,
                                n as int,
                                depth,
                                item_depth,
                                numbering,
                            ),
                        decreases args.parts.len() - n,
                    {
                        let ghost here = self.state();
                        let ordinal = match numbering {
                            Some(kind) => Some(ordinal_at(kind, n)),
                            None => None,
                        };
                        assert(parts[n as int] == (args.parts@[n as int].header, args.parts@[n as int].body@));
                        let (item, mut inside) = self.sub(args.parts[n].body.as_slice(), item_depth);
                        assert(after(here, self.state()) == self.state());
                        if item.len() > 0 {
                            push_block(&mut self.out, Block::Item { depth, ordinal, text: string_of(item.as_slice()) });
                        }
                        append_blocks(&mut self.out, &mut inside);
                        n += 1;
                    }
                }
                assert(self.state() == want.1);
                Vec::new()
            },
            Role::Table => {
                self.flush(text.as_slice());
                if let Some(args) = args {
                    self.table(&args, depth);
                }
                assert(self.state() == want.1);
                Vec::new()
            },
            Role::Note(kind) => {
                let (body, mut inside) = self.content(depth);
                assert(after(st, self.state()) == self.state());
                if body.len() > 0 {
                    if self.notes < usize::MAX {
                        self.notes += 1;
                    }
                    let marker = decimal_of(self.notes as u64);
                    push_all(&mut text, marker.as_slice());
                    let note = Block::Note { kind, marker: self.notes, text: string_of(body.as_slice()) };
                    push_block(&mut self.pending, note);
                }
                append_blocks(&mut self.pending, &mut inside);
                assert(self.state() == want.1);
                assert(text@ == want.0);
                text
            },
            Role::Inline => {
                let (inner, mut inside) = self.content(depth);
                assert(after(st, self.state()) == self.state());
                if inner.len() > 0 {
                    if text.len() > 0 && !is_whitespace(text[text.len() - 1]) {
                        text.push(' ');
                    }
                    push_all(&mut text, inner.as_slice());
                }
                append_blocks(&mut self.pending, &mut inside);
                assert(self.state() == want.1);
                assert(text@ == want.0);
                text
            },
        }
    }

    /// `[…]` if it is there, read as its own piece of markup.
    fn content(&mut self, depth: u8) -> (r: (Vec<char>, Vec<Block>))
        requires
            old(self).inv(),
        ensures
            final(self).keeps(old(self)),
            wf_blocks(r.1@),
            ((r.0@, blocks_view(r.1@)), final(self).state()) == content_walk(old(self).state(), depth),
        decreases NESTING_LIMIT - old(self).nesting, 2nat,
    {
        if self.peek() != Some('[') {
            return (Vec::new(), Vec::new());
        }
        self.at += 1;
        let markup = self.raw(']');
        self.sub(markup.as_slice(), depth)
    }

    /// A command name: the letters after `#`.
    fn name(&mut self) -> (out: Vec<char>)
        requires
            old(self).inv(),
        ensures
            final(self).keeps(old(self)),
            final(self).out@ == old(self).out@,
            final(self).pending@ == old(self).pending@,
            final(self).notes == old(self).notes,
            final(self).at == name_end(old(self).chars@, old(self).at as int),
            out@ == old(self).chars@.subrange(old(self).at as int, final(self).at as int),
    {
        let mut out: Vec<char> = Vec::new();
        while self.at < self.chars.len()
            invariant
                self.keeps(old(self)),
                self.out@ == old(self).out@,
                self.pending@ == old(self).pending@,
                self.notes == old(self).notes,
                name_end(self.chars@, old(self).at as int) == name_end(self.chars@, self.at as int),
                out@ == self.chars@.subrange(old(self).at as int, self.at as int),
            ensures
                self.keeps(old(self)),
                self.out@ == old(self).out@,
                self.pending@ == old(self).pending@,
                self.notes == old(self).notes,
                name_end(self.chars@, old(self).at as int) == self.at,
                out@ == self.chars@.subrange(old(self).at as int, self.at as int),
            decreases self.chars.len() - self.at,
        {
            let c = self.chars[self.at];
            if c == '_' || is_alphanumeric(c) {
                out.push(c);
                self.at += 1;
                assert(out@ =~= self.chars@.subrange(old(self).at as int, self.at as int));
            } else {
                break;
            }
        }
        out
    }

    /// Run a slice of markup as its own document, keeping this reader's
    /// notes and output; past the nesting limit, read it as words.
    fn sub(&mut self, markup: &[char], depth: u8) -> (r: (Vec<char>, Vec<Block>))
        requires
            old(self).inv(),
        ensures
            final(self).keeps(old(self)),
            final(self).at == old(self).at,
            wf_blocks(r.1@),
            ((r.0@, blocks_view(r.1@)), final(self).state()) == sub_walk(old(self).state(), markup@, depth),
        decreases NESTING_LIMIT - old(self).nesting, 1nat,
    {
        if self.nesting >= NESTING_LIMIT {
            let none: Vec<Block> = Vec::new();
            assert(blocks_view(none@) =~= Seq::<BlockView>::empty());
            return (tidy(markup), none);
        }
        let mut inner = Reader {
            chars: crate::text::copy_of(markup),
            at: 0,
            out: Vec::new(),
            pending: Vec::new(),
            notes: self.notes,
            nesting: self.nesting + 1,
        };
        let ghost start = ReadState {
            chars: markup@,
            at: 0,
            out: Seq::empty(),
            pending: Seq::empty(),
            notes: self.notes,
            nesting: (self.nesting + 1) as nat,
        };
        assert(blocks_view(inner.out@) =~= Seq::<BlockView>::empty());
        assert(blocks_view(inner.pending@) =~= Seq::<BlockView>::empty());
        assert(inner.state() == start);
        let trailing = inner.run(None, depth);
        let ghost ran = inner.state();
        inner.notes_out();
        self.notes = inner.notes;
        let mut blocks = inner.out;
        let mut text = tidy(trailing.as_slice());
        assert(blocks_view(blocks@) == ran.out + ran.pending);
        if text.len() == 0 && blocks.len() > 0 {
            let first_text: Option<Vec<char>> = match &blocks[0] {
                Block::Paragraph(first) => Some(chars_of(first.as_str())),
                _ => None,
            };
            assert(first_text is Some <==> blocks_view(blocks@)[0] is Paragraph);
            if let Some(t) = first_text {
                assert(t@ == blocks_view(blocks@)[0]->Paragraph_0);
                text = t;
                let ghost before = blocks@;
                blocks.remove(0);
                assert forall|i: int| 0 <= i < blocks@.len() implies wf_block(#[trigger] blocks@[i]) by {
                    assert(blocks@[i] == before[i + 1]);
                }
                assert(blocks_view(blocks@) =~= blocks_view(before).drop_first());
            }
        }
        (text, blocks)
    }

    /// Let any notes still held out, at the end of a sub-reading.
    fn notes_out(&mut self)
        requires
            old(self).inv(),
        ensures
            final(self).keeps(old(self)),
            final(self).at == old(self).at,
            final(self).notes == old(self).notes,
            final(self).out@ == old(self).out@ + old(self).pending@,
            blocks_view(final(self).out@) == blocks_view(old(self).out@) + blocks_view(old(self).pending@),
            final(self).pending@.len() == 0,
    {
        append_blocks(&mut self.out, &mut self.pending);
    }

    /// The rows of a `#טבלה`: a row ends when the column count says so, and
    /// blocks found inside cells follow the whole table.
    fn table(&mut self, args: &Args, depth: u8)
        requires
            old(self).inv(),
        ensures
            final(self).keeps(old(self)),
            final(self).state() == table_walk(
                old(self).state(),
                args_view(*args).2,
                0,
                match args.columns {
                    Some(c) => c,
                    None => 0,
                },
                Seq::empty(),
                false,
                Seq::empty(),
                depth,
            ),
        decreases NESTING_LIMIT - old(self).nesting, 2nat,
    {
        let columns = match args.columns {
            Some(c) => c,
            None => 0,
        };
        let mut row: Vec<String> = Vec::new();
        let mut header = false;
        let mut held: Vec<Block> = Vec::new();
        let mut k: usize = 0;
        let ghost parts = args_view(*args).2;
        assert(strings(row@) =~= Seq::<Seq<char>>::empty());
        assert(blocks_view(held@) =~= Seq::<BlockView>::empty());
        while k < args.parts.len()
            invariant
                self.keeps(old(self)),
                self.nesting == old(self).nesting,
                wf_blocks(held@),
                k <= args.parts.len(),
                parts == args_view(*args).2,
                table_walk(old(self).state(), parts, 0, columns, Seq::empty(), false, Seq::empty(), depth)
                    == table_walk(self.state(), parts, k as int, columns, strings(row@), header, blocks_view(held@), depth),
            decreases args.parts.len() - k,
        {
            let ghost here = self.state();
            let ghost row0 = strings(row@);
            if row.len() == 0 {
                header = args.parts[k].header;
            }
            assert(parts[k as int] == (args.parts@[k as int].header, args.parts@[k as int].body@));
            let (text, mut inside) = self.sub(args.parts[k].body.as_slice(), depth);
            assert(after(here, self.state()) == self.state());
            row.push(string_of(text.as_slice()));
            assert(strings(row@) =~= row0.push(text@));
            append_blocks(&mut held, &mut inside);
            if columns > 0 && row.len() >= columns {
                let cells = row;
                row = Vec::new();
                push_block(&mut self.out, Block::Row { cells, header });
                assert(strings(row@) =~= Seq::<Seq<char>>::empty());
            }
            k += 1;
        }
        if row.len() > 0 {
            push_block(&mut self.out, Block::Row { cells: row, header });
        }
        append_blocks(&mut self.out, &mut held);
    }

    /// Everything between `(` and its `)`: named settings, and the bodies
    /// of a container written `פריט[…]`, `תא[…]`, `כותרת_תא[…]`.
    fn args(&mut self) -> (a: Args)
        requires
            old(self).inv(),
        ensures
            final(self).keeps(old(self)),
            final(self).out@ == old(self).out@,
            final(self).pending@ == old(self).pending@,
            final(self).notes == old(self).notes,
            args_walk(old(self).chars@, old(self).at as int, Seq::empty(), (None, None, Seq::empty())) == (
                final(self).at as int,
                args_view(a),
            ),
    {
        let mut out = Args { columns: None, level: None, parts: Vec::new() };
        let mut word: Vec<char> = Vec::new();
        let ghost start: ArgsView = (None, None, Seq::empty());
        assert(args_view(out) =~= start);
        while self.at < self.chars.len()
            invariant_except_break
                args_walk(self.chars@, old(self).at as int, Seq::empty(), start) == args_walk(
                    self.chars@,
                    self.at as int,
                    word@,
                    args_view(out),
                ),
            invariant
                self.keeps(old(self)),
                self.out@ == old(self).out@,
                self.pending@ == old(self).pending@,
                self.notes == old(self).notes,
            ensures
                self.keeps(old(self)),
                self.out@ == old(self).out@,
                self.pending@ == old(self).pending@,
                self.notes == old(self).notes,
                args_walk(self.chars@, old(self).at as int, Seq::empty(), start) == (self.at as int, args_view(out)),
            decreases self.chars.len() - self.at,
        {
            let c = self.chars[self.at];
            let ghost i = self.at as int;
            if c == ')' {
                self.at += 1;
                break;
            } else if c == '"' {
                self.at += 1;
                let ghost mark = self.at;
                while self.at < self.chars.len()
                    invariant_except_break
                        quote_end(self.chars@, mark as int) == quote_end(self.chars@, self.at as int),
                    invariant
                        self.at >= mark,
                        self.keeps(old(self)),
                        self.out@ == old(self).out@,
                        self.pending@ == old(self).pending@,
                        self.notes == old(self).notes,
                    ensures
                        self.keeps(old(self)),
                        self.out@ == old(self).out@,
                        self.pending@ == old(self).pending@,
                        self.notes == old(self).notes,
                        quote_end(self.chars@, mark as int) == self.at,
                    decreases self.chars.len() - self.at,
                {
                    let d = self.chars[self.at];
                    self.at += 1;
                    if d == '\\' {
                        self.step();
                    } else if d == '"' {
                        break;
                    }
                }
                word = Vec::new();
            } else if c == ':' {
                self.at += 1;
                let value = self.setting();
                let key = trim_chars(word.as_slice());
                let name = hebrew_name(false, key.as_slice());
                let v = trim_chars(value.as_slice());
                let ghost before = args_view(out);
                if is_named(name.as_slice(), "עמודות") {
                    out.columns = parse_usize_chars(v.as_slice());
                } else if is_named(name.as_slice(), "רמה") {
                    out.level = parse_u8_chars(v.as_slice());
                }
                assert(args_view(out) == with_setting(before, word@, value@));
                word = Vec::new();
            } else if c == '[' {
                self.at += 1;
                let body = self.raw(']');
                let trimmed = trim_chars(word.as_slice());
                let mut s: usize = 0;
                assert(trimmed@.skip(0) =~= trimmed@);
                while s < trimmed.len() && trimmed[s] == '#'
                    invariant
                        s <= trimmed.len(),
                        strip_hashes(trimmed@) == strip_hashes(trimmed@.skip(s as int)),
                    decreases trimmed.len() - s,
                {
                    assert(trimmed@.skip(s as int).drop_first() =~= trimmed@.skip(s + 1));
                    s += 1;
                }
                let bare = slice_of(trimmed.as_slice(), s, trimmed.len());
                assert(bare@ =~= trimmed@.skip(s as int));
                assert(strip_hashes(bare@) == bare@);
                let name = hebrew_name(true, bare.as_slice());
                let header = is_named(name.as_slice(), "כותרת_תא");
                let ghost before = args_view(out);
                let ghost part = (header, body@);
                out.parts.push(Part { header, body });
                assert(args_view(out).2 =~= before.2.push(part));
                word = Vec::new();
            } else if c == '(' {
                self.at += 1;
                let _ = self.raw(')');
            } else if c == ',' {
                self.at += 1;
                word = Vec::new();
            } else {
                self.at += 1;
                word.push(c);
            }
        }
        out
    }

    /// The value of a `key: value` setting, up to the comma that ends it.
    fn setting(&mut self) -> (out: Vec<char>)
        requires
            old(self).inv(),
        ensures
            final(self).keeps(old(self)),
            final(self).out@ == old(self).out@,
            final(self).pending@ == old(self).pending@,
            final(self).notes == old(self).notes,
            final(self).at == setting_end(old(self).chars@, old(self).at as int, 0),
            out@ == old(self).chars@.subrange(old(self).at as int, final(self).at as int),
    {
        let mut out: Vec<char> = Vec::new();
        let mut depth: usize = 0;
        while self.at < self.chars.len()
            invariant
                self.keeps(old(self)),
                self.out@ == old(self).out@,
                self.pending@ == old(self).pending@,
                self.notes == old(self).notes,
                setting_end(self.chars@, old(self).at as int, 0) == setting_end(self.chars@, self.at as int, depth),
                out@ == self.chars@.subrange(old(self).at as int, self.at as int),
            ensures
                self.keeps(old(self)),
                self.out@ == old(self).out@,
                self.pending@ == old(self).pending@,
                self.notes == old(self).notes,
                setting_end(self.chars@, old(self).at as int, 0) == self.at,
                out@ == self.chars@.subrange(old(self).at as int, self.at as int),
            decreases self.chars.len() - self.at,
        {
            let c = self.chars[self.at];
            if (c == ',' || c == ')') && depth == 0 {
                break;
            }
            if c == '(' || c == '[' {
                depth = depth.wrapping_add(1);
            } else if c == ')' || c == ']' {
                depth = depth.wrapping_sub(1);
            }
            out.push(c);
            self.at += 1;
            assert(out@ =~= self.chars@.subrange(old(self).at as int, self.at as int));
        }
        out
    }

    /// Everything up to the matching `close`, brackets and all, so it can be
    /// read as markup afterwards; an escaped character is kept with its
    /// backslash.
    fn raw(&mut self, close: char) -> (r: Vec<char>)
        requires
            old(self).inv(),
        ensures
            final(self).keeps(old(self)),
            final(self).out@ == old(self).out@,
            final(self).pending@ == old(self).pending@,
            final(self).notes == old(self).notes,
            ({
                let w = raw_walk(old(self).chars@, old(self).at as int, 0, old(self).at as int, opener(close), close);
                &&& final(self).at == w.0
                &&& r@ == old(self).chars@.subrange(old(self).at as int, w.1)
            }),
    {
        let open = if close == ']' {
            '['
        } else if close == ')' {
            '('
        } else {
            close
        };
        let from = self.at;
        let mut depth: usize = 0;
        let mut to = from;
        while self.at < self.chars.len()
            invariant_except_break
                raw_walk(self.chars@, from as int, 0, from as int, open, close) == raw_walk(
                    self.chars@,
                    self.at as int,
                    depth as nat,
                    to as int,
                    open,
                    close,
                ),
            invariant
                self.keeps(old(self)),
                self.out@ == old(self).out@,
                self.pending@ == old(self).pending@,
                self.notes == old(self).notes,
                from <= to <= self.at,
                from == old(self).at,
                depth <= self.at,
                open == opener(close),
            ensures
                self.keeps(old(self)),
                self.out@ == old(self).out@,
                self.pending@ == old(self).pending@,
                self.notes == old(self).notes,
                from <= to <= self.at,
                from == old(self).at,
                open == opener(close),
                raw_walk(self.chars@, from as int, 0, from as int, open, close) == (self.at as int, to as int),
            decreases self.chars.len() - self.at,
        {
            let c = self.chars[self.at];
            if c == '\\' {
                self.at = if self.chars.len() - self.at >= 2 {
                    self.at + 2
                } else {
                    self.chars.len()
                };
                to = self.at;
                continue;
            }
            if c == close {
                if depth == 0 {
                    self.at += 1;
                    break;
                }
                depth -= 1;
            } else if c == open {
                depth += 1;
            }
            self.at += 1;
            to = self.at;
        }
        slice_of(self.chars.as_slice(), from, to)
    }
}

/// Read a Ksav document into its blocks, in reading order: the blocks are
/// [`reading`] of its characters. It never fails: a half-written document
/// yields the blocks it got to. Every block it gives is well formed: a
/// heading's level is one of the six that exist, and no heading,
/// paragraph, quote, item or note is empty.
pub fn read(markup: &str) -> (blocks: Vec<Block>)
    ensures
        wf_blocks(blocks@),
        blocks_view(blocks@) == reading(markup@),
{
    let mut reader = Reader {
        chars: chars_of(markup),
        at: 0,
        out: Vec::new(),
        pending: Vec::new(),
        notes: 0,
        nesting: 0,
    };
    assert(blocks_view(reader.out@) =~= Seq::<BlockView>::empty());
    assert(blocks_view(reader.pending@) =~= Seq::<BlockView>::empty());
    let text = reader.run(None, 0);
    reader.flush(text.as_slice());
    reader.out
}

/// One block as a plain line: a heading, paragraph or quote is its words; an
/// item its ordinal, `. ` and its words; a row its cells joined by tabs; a
/// note its number, `. ` and its words.
pub open spec fn block_line(b: BlockView) -> Seq<char> {
    match b {
        BlockView::Heading { text, .. } => text,
        BlockView::Paragraph(text) => text,
        BlockView::Quote(text) => text,
        BlockView::Item { ordinal, text, .. } => match ordinal {
            Some(n) => n + seq!['.', ' '] + text,
            None => text,
        },
        BlockView::Row { cells, .. } => join(cells, seq!['\t']),
        BlockView::Note { marker, text, .. } => decimal(marker as nat) + seq!['.', ' '] + text,
    }
}

/// Blocks as plain text: a line each, joined by newlines.
pub open spec fn rendered(blocks: Seq<BlockView>) -> Seq<char> {
    join(blocks.map_values(|b: BlockView| block_line(b)), seq!['\n'])
}

fn row_line(cells: &Vec<String>) -> (r: Vec<char>)
    ensures
        r@ == join(strings(cells@), seq!['\t']),
{
    let mut parts: Vec<Vec<char>> = Vec::new();
    let mut i: usize = 0;
    while i < cells.len()
        invariant
            i <= cells.len(),
            parts@.len() == i,
            forall|j: int| 0 <= j < i ==> #[trigger] parts@[j]@ == cells@[j]@,
        decreases cells.len() - i,
    {
        parts.push(chars_of(cells[i].as_str()));
        i += 1;
    }
    assert(texts(parts@).subrange(0, parts.len() as int) =~= strings(cells@)) by {
        assert forall|j: int| 0 <= j < parts.len() implies texts(parts@).subrange(0, parts.len() as int)[j] == strings(cells@)[j] by {
            assert(parts@[j]@ == cells@[j]@);
        }
    }
    let tab = vec!['\t'];
    assert(tab@ =~= seq!['\t']);
    join_chars(parts.as_slice(), 0, parts.len(), tab.as_slice())
}

fn line_of(b: &Block) -> (r: Vec<char>)
    ensures
        r@ == block_line(block_view(*b)),
{
    match b {
        Block::Heading { text, .. } => chars_of(text.as_str()),
        Block::Paragraph(text) => chars_of(text.as_str()),
        Block::Quote(text) => chars_of(text.as_str()),
        Block::Item { ordinal, text, .. } => match ordinal {
            Some(n) => {
                let mut out = chars_of(n.as_str());
                out.push('.');
                out.push(' ');
                let t = chars_of(text.as_str());
                push_all(&mut out, t.as_slice());
                out
            },
            None => chars_of(text.as_str()),
        },
        Block::Row { cells, .. } => row_line(cells),
        Block::Note { marker, text, .. } => {
            let mut out = decimal_of(*marker as u64);
            out.push('.');
            out.push(' ');
            let t = chars_of(text.as_str());
            push_all(&mut out, t.as_slice());
            out
        },
    }
}

/// The document as a reader sees it, flat: [`read`], then each block as a
/// line (see [`rendered`]).
pub fn to_text(markup: &str) -> (r: String)
    ensures
        r@ == rendered(reading(markup@)),
{
    let blocks = read(markup);
    let mut lines: Vec<Vec<char>> = Vec::new();
    let mut i: usize = 0;
    while i < blocks.len()
        invariant
            i <= blocks.len(),
            lines@.len() == i,
            forall|j: int| 0 <= j < i ==> #[trigger] lines@[j]@ == block_line(block_view(blocks@[j])),
        decreases blocks.len() - i,
    {
        lines.push(line_of(&blocks[i]));
        i += 1;
    }
    let nl = vec!['\n'];
    assert(nl@ =~= seq!['\n']);
    let ghost views = blocks_view(blocks@);
    assert(texts(lines@).subrange(0, lines.len() as int) =~= views.map_values(|b: BlockView| block_line(b))) by {
        assert forall|j: int| 0 <= j < lines.len() implies texts(lines@).subrange(0, lines.len() as int)[j] == views.map_values(|b: BlockView| block_line(b))[j] by {
            assert(lines@[j]@ == block_line(block_view(blocks@[j])));
        }
    }
    let out = join_chars(lines.as_slice(), 0, lines.len(), nl.as_slice());
    let r = string_of(out.as_slice());
    r
}

} // verus!
