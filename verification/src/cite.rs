//! Citation formatting: one implementation, shared by the application that
//! produces citations and the one that prints them.
//!
//! What a document stores is the ref; this is only how it is shown. It does
//! not invent an abbreviation for a sefer, and it does not invent the word
//! for a level: the title and the level words come from the caller.
pub mod hebrew_levels;
pub mod level_words;
pub mod printed;
pub mod read_back;
pub mod round_trip;
pub mod spacing;

use vstd::prelude::*;

use crate::refs::address::{numbered, Address, Level};
use crate::refs::daf::{printed_daf, to_hebrew as daf_to_hebrew};
use crate::refs::numerals::{to_hebrew as number_to_hebrew, written as number_written};
use crate::refs::reference::{Ref, RefView};
use crate::text::{chars_of, parse_u32, push_all, same_text, string_of, strings, trim, trim_chars};

verus! {

/// How a citation is rendered.
#[derive(Debug, Clone, Copy, PartialEq, Eq, Structural, Hash)]
pub enum CiteStyle {
    /// `שולחן ערוך, אורח חיים סימן א' סעיף א'`: how it is written in a sefer,
    /// with the word for each level.
    HebrewFull,
    /// `שולחן ערוך, אורח חיים א', א'`: how it is written in a footnote, the
    /// words dropped and the numbers carrying it.
    HebrewShort,
    /// `Shulchan Arukh, Orach Chayim 1:1`: as Sefaria writes it.
    English,
}

pub open spec fn style_name(s: CiteStyle) -> &'static str {
    match s {
        CiteStyle::HebrewFull => "hebrew-full",
        CiteStyle::HebrewShort => "hebrew-short",
        CiteStyle::English => "english",
    }
}

impl CiteStyle {
    /// The name this style goes by on the wire.
    pub fn name(self) -> (s: &'static str)
        ensures
            s == style_name(self),
    {
        match self {
            CiteStyle::HebrewFull => "hebrew-full",
            CiteStyle::HebrewShort => "hebrew-short",
            CiteStyle::English => "english",
        }
    }

    /// Read a style back off the wire.
    pub fn named(name: &str) -> (s: Option<CiteStyle>)
        ensures
            match s {
                Some(x) => style_name(x)@ == name@,
                None => forall|x: CiteStyle| style_name(x)@ != name@,
            },
    {
        if same_text(name, "hebrew-full") {
            Some(CiteStyle::HebrewFull)
        } else if same_text(name, "hebrew-short") {
            Some(CiteStyle::HebrewShort)
        } else if same_text(name, "english") {
            Some(CiteStyle::English)
        } else {
            assert forall|x: CiteStyle| style_name(x)@ != name@ by {
                match x {
                    CiteStyle::HebrewFull => {},
                    CiteStyle::HebrewShort => {},
                    CiteStyle::English => {},
                }
            }
            None
        }
    }
}

/// Each style goes by a name of its own, so a style read back off the wire
/// by its name is that style.
pub proof fn lemma_style_names_distinct(s: CiteStyle, x: CiteStyle)
    ensures
        style_name(x)@ == style_name(s)@ ==> x == s,
{
    reveal_strlit("hebrew-full");
    reveal_strlit("hebrew-short");
    reveal_strlit("english");
    assert("hebrew-full"@.len() == 11);
    assert("hebrew-short"@.len() == 12);
    assert("english"@.len() == 7);
}

/// What a citation needs to know about the sefer it names.
#[derive(Debug, Clone, PartialEq, Eq)]
pub struct Sefer {
    /// How it is printed in Hebrew, exactly as it should appear.
    pub he_title: String,
    /// How it is printed in English.
    pub en_title: String,
    /// What the levels of an address are called, outermost first, as the
    /// schema states them; empty where it does not say.
    pub he_sections: Vec<String>,
}

impl Default for Sefer {
    fn default() -> (s: Sefer)
        ensures
            s.he_title@ == Seq::<char>::empty(),
            s.en_title@ == Seq::<char>::empty(),
            s.he_sections@.len() == 0,
    {
        Sefer { he_title: String::new(), en_title: String::new(), he_sections: Vec::new() }
    }
}

impl Sefer {
    pub fn new(he_title: &str, en_title: &str) -> (s: Sefer)
        ensures
            s.he_title@ == he_title@,
            s.en_title@ == en_title@,
            s.he_sections@.len() == 0,
    {
        Sefer {
            he_title: string_of(chars_of(he_title).as_slice()),
            en_title: string_of(chars_of(en_title).as_slice()),
            he_sections: Vec::new(),
        }
    }

    /// The words for the levels, as the schema states them.
    pub fn with_sections(self, names: &[&str]) -> (s: Sefer)
        ensures
            s.he_title@ == self.he_title@,
            s.en_title@ == self.en_title@,
            strings(s.he_sections@) == names@.map_values(|n: &str| n@),
    {
        let mut sections: Vec<String> = Vec::new();
        let mut i: usize = 0;
        while i < names.len()
            invariant
                i <= names.len(),
                strings(sections@) == names@.map_values(|n: &str| n@).take(i as int),
            decreases names.len() - i,
        {
            let ghost before = strings(sections@);
            sections.push(string_of(chars_of(names[i]).as_slice()));
            assert(strings(sections@) =~= before.push(names@[i as int]@));
            assert(names@.map_values(|n: &str| n@).take(i + 1) =~= names@.map_values(|n: &str| n@).take(i as int).push(names@[i as int]@));
            i += 1;
        }
        assert(names@.map_values(|n: &str| n@).take(names.len() as int) =~= names@.map_values(|n: &str| n@));
        Sefer { he_title: self.he_title, en_title: self.en_title, he_sections: sections }
    }
}

/// One level as it is printed: as it is in English; in Hebrew a daf as a
/// sefer prints it, a number in letters, and a named level as the corpus
/// names it.
pub open spec fn written_level(l: Seq<char>, style: CiteStyle) -> Seq<char> {
    if style == CiteStyle::English {
        l
    } else if printed_daf(l) is Some {
        printed_daf(l).unwrap()
    } else if parse_u32(l) is Some {
        number_written(parse_u32(l).unwrap() as nat)
    } else {
        l
    }
}

/// Whether the level words are printed: the full Hebrew style, a schema
/// that named its levels, and an address of that shape, no deeper than the
/// names go and every level numbered.
pub open spec fn words_apply(sections: Seq<Seq<char>>, levels: Seq<Seq<char>>, style: CiteStyle) -> bool {
    &&& style == CiteStyle::HebrewFull
    &&& sections.len() > 0
    &&& levels.len() <= sections.len()
    &&& forall|i: int| 0 <= i < levels.len() ==> numbered(#[trigger] levels[i])
}

/// The schema's word for a level, with its trailing space, or nothing.
pub open spec fn level_word(sections: Seq<Seq<char>>, depth: int, words: bool) -> Seq<char> {
    if words && 0 <= depth < sections.len() {
        trim(sections[depth]).push(' ')
    } else {
        Seq::empty()
    }
}

/// Whether printed text ends in a daf's own mark.
pub open spec fn ends_a_daf(printed: Seq<char>) -> bool {
    printed.len() > 0 && (printed.last() == '.' || printed.last() == ':')
}

/// What goes between two printed levels.
pub open spec fn level_separator(printed: Seq<char>, style: CiteStyle) -> Seq<char> {
    match style {
        CiteStyle::English => seq![':'],
        CiteStyle::HebrewFull => seq![' '],
        CiteStyle::HebrewShort => if ends_a_daf(printed) {
            seq![' ']
        } else {
            seq![',', ' ']
        },
    }
}

/// The first `k` levels of an address, printed.
pub open spec fn printed_levels(sections: Seq<Seq<char>>, levels: Seq<Seq<char>>, style: CiteStyle, k: int) -> Seq<char>
    decreases k,
{
    if k <= 0 {
        Seq::empty()
    } else {
        let out = printed_levels(sections, levels, style, k - 1);
        let piece = level_word(sections, k - 1, words_apply(sections, levels, style)) + written_level(
            levels[k - 1],
            style,
        );
        if out.len() == 0 {
            piece
        } else {
            out + level_separator(out, style) + piece
        }
    }
}

/// An address, printed.
pub open spec fn printed_address(sections: Seq<Seq<char>>, levels: Seq<Seq<char>>, style: CiteStyle) -> Seq<char> {
    printed_levels(sections, levels, style, levels.len() as int)
}

/// A citation: the title as given, trimmed, then the address, then the end
/// of a span after a hyphen. A ref with no address is the sefer's name.
pub open spec fn citation(he: Seq<char>, en: Seq<char>, sections: Seq<Seq<char>>, r: RefView, style: CiteStyle) -> Seq<char> {
    let title = if style == CiteStyle::English {
        trim(en)
    } else {
        trim(he)
    };
    if r.1.len() == 0 {
        title
    } else {
        let point = title.push(' ') + printed_address(sections, r.1, style);
        match r.2 {
            Some(t) => point.push('-') + printed_address(sections, t, style),
            None => point,
        }
    }
}

fn written(level: &Level, style: CiteStyle) -> (v: Vec<char>)
    ensures
        v@ == written_level(level@, style),
{
    if style == CiteStyle::English {
        return chars_of(level.as_str());
    }
    if let Some(hebrew) = daf_to_hebrew(level.as_str()) {
        return chars_of(hebrew.as_str());
    }
    match level.as_number() {
        Some(n) => chars_of(number_to_hebrew(n).as_str()),
        None => chars_of(level.as_str()),
    }
}

fn section_word(sefer: &Sefer, depth: usize, words: bool) -> (v: Vec<char>)
    ensures
        v@ == level_word(strings(sefer.he_sections@), depth as int, words),
{
    if !words || depth >= sefer.he_sections.len() {
        return Vec::new();
    }
    let mut w = trim_chars(chars_of(sefer.he_sections[depth].as_str()).as_slice());
    w.push(' ');
    w
}

fn address(sefer: &Sefer, at: &Address, style: CiteStyle) -> (v: Vec<char>)
    ensures
        v@ == printed_address(strings(sefer.he_sections@), at@, style),
{
    let levels = at.levels();
    let ghost sections = strings(sefer.he_sections@);
    let ghost lv = at@;
    let mut all_numbered = true;
    let mut i: usize = 0;
    while i < levels.len()
        invariant
            i <= levels.len(),
            crate::refs::address::level_texts(levels@) == lv,
            all_numbered == forall|j: int| 0 <= j < i ==> numbered(#[trigger] lv[j]),
        decreases levels.len() - i,
    {
        assert(lv[i as int] == levels@[i as int]@);
        if !levels[i].is_numbered() {
            all_numbered = false;
        }
        i += 1;
    }
    let words = style == CiteStyle::HebrewFull && sefer.he_sections.len() > 0 && levels.len()
        <= sefer.he_sections.len() && all_numbered;
    assert(words == words_apply(sections, lv, style));
    let mut out: Vec<char> = Vec::new();
    let mut depth: usize = 0;
    while depth < levels.len()
        invariant
            depth <= levels.len(),
            crate::refs::address::level_texts(levels@) == lv,
            sections == strings(sefer.he_sections@),
            words == words_apply(sections, lv, style),
            out@ == printed_levels(sections, lv, style, depth as int),
        decreases levels.len() - depth,
    {
        assert(lv[depth as int] == levels@[depth as int]@);
        let text = written(&levels[depth], style);
        let word = section_word(sefer, depth, words);
        if out.len() > 0 {
            match style {
                CiteStyle::English => out.push(':'),
                CiteStyle::HebrewFull => out.push(' '),
                CiteStyle::HebrewShort => {
                    let at_daf = out[out.len() - 1] == '.' || out[out.len() - 1] == ':';
                    if at_daf {
                        out.push(' ');
                    } else {
                        out.push(',');
                        out.push(' ');
                    }
                },
            }
        }
        let ghost before = out@;
        push_all(&mut out, word.as_slice());
        push_all(&mut out, text.as_slice());
        proof {
            let prev = printed_levels(sections, lv, style, depth as int);
            if prev.len() == 0 {
                assert(out@ =~= word@ + text@);
            } else {
                assert(before =~= prev + level_separator(prev, style));
                assert(out@ =~= prev + level_separator(prev, style) + (word@ + text@));
            }
        }
        depth += 1;
    }
    out
}

/// Print a ref the way it is cited. A ref with no address is the sefer
/// itself, and comes back as its name.
pub fn cite(sefer: &Sefer, reference: &Ref, style: CiteStyle) -> (s: String)
    ensures
        s@ == citation(sefer.he_title@, sefer.en_title@, strings(sefer.he_sections@), reference@, style),
{
    let title = if style == CiteStyle::English {
        trim_chars(chars_of(sefer.en_title.as_str()).as_slice())
    } else {
        trim_chars(chars_of(sefer.he_title.as_str()).as_slice())
    };
    let mut out = title;
    if reference.from().is_empty() {
        return string_of(out.as_slice());
    }
    out.push(' ');
    let a = address(sefer, reference.from(), style);
    push_all(&mut out, a.as_slice());
    if let Some(to) = reference.to() {
        out.push('-');
        let b = address(sefer, to, style);
        push_all(&mut out, b.as_slice());
    }
    string_of(out.as_slice())
}

} // verus!
