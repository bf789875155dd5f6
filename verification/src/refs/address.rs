//! Where inside a work a ref points, and the notations that mean the same
//! place.
use vstd::prelude::*;

use crate::refs::daf::{daf_value, parse as parse_daf};
use crate::refs::numerals::{numeral_value, parse as parse_numeral};
use crate::text::{
    chars_of, decimal, decimal_of, join, parse_u32, parse_u32_chars, push_all, split, split_char,
    string_of, texts, trim, trim_chars,
};

verus! {

/// What a level reads as: a daf in canonical form, a number in digits, or
/// else the trimmed text as written, which names a section. Nothing at all
/// when the text is blank.
pub open spec fn level_value(raw: Seq<char>) -> Option<Seq<char>> {
    let r = trim(raw);
    if r.len() == 0 {
        None
    } else if daf_value(r) is Some {
        daf_value(r)
    } else if numeral_value(r) is Some {
        Some(decimal(numeral_value(r).unwrap() as nat))
    } else {
        Some(r)
    }
}

/// Whether a level is addressed by number, a daf or a count, rather than
/// named.
pub open spec fn numbered(l: Seq<char>) -> bool {
    parse_u32(l) is Some || daf_value(l) is Some
}

/// The levels of an address: each nonblank part between colons, read.
pub open spec fn read_levels(parts: Seq<Seq<char>>) -> Seq<Seq<char>>
    decreases parts.len(),
{
    if parts.len() == 0 {
        Seq::empty()
    } else {
        let p = read_levels(parts.drop_last());
        match level_value(parts.last()) {
            Some(l) => p.push(l),
            None => p,
        }
    }
}

/// An address read from text, if any level is there at all.
pub open spec fn address_value(raw: Seq<char>) -> Option<Seq<Seq<char>>> {
    let levels = read_levels(split(raw, ':'));
    if levels.len() == 0 {
        None
    } else {
        Some(levels)
    }
}

/// An address as it is written: its levels, colon between each.
pub open spec fn address_text(levels: Seq<Seq<char>>) -> Seq<char> {
    join(levels, seq![':'])
}

/// The first `k` levels of `context`, then all of `partial`: a partial
/// address read where the reader is standing. An address at least as deep
/// as the context is already whole and is kept as it is.
pub open spec fn completed(partial: Seq<Seq<char>>, context: Seq<Seq<char>>) -> Seq<Seq<char>> {
    if partial.len() >= context.len() {
        partial
    } else {
        context.take(context.len() - partial.len()) + partial
    }
}

/// One level of an address: a siman, a se'if, a perek, a daf.
///
/// Held as canonical text rather than a number, because not every level is a
/// number: `2a` is a daf and an amud, and `Introduction` is a section with a
/// name.
#[derive(Debug, Clone, PartialEq, Eq, PartialOrd, Ord, Hash)]
pub struct Level(String);

impl View for Level {
    type V = Seq<char>;

    closed spec fn view(&self) -> Seq<char> {
        self.0@
    }
}

/// The text of each level.
pub open spec fn level_texts(v: Seq<Level>) -> Seq<Seq<char>> {
    v.map_values(|l: Level| l@)
}

impl Level {
    pub(crate) fn of_chars(v: &[char]) -> (l: Level)
        ensures
            l@ == v@,
    {
        Level(string_of(v))
    }

    /// The same level, held again.
    pub(crate) fn copied(&self) -> (l: Level)
        ensures
            l@ == self@,
    {
        Level(self.0.clone())
    }

    /// Read a level however it was written: `5`, `ה'`, `ב.`, `ב ע"ב`, `2b`.
    /// A named section is kept as written, trimmed; blank text is no level.
    pub fn parse(raw: &str) -> (l: Option<Level>)
        ensures
            match l {
                Some(x) => level_value(raw@) == Some(x@),
                None => level_value(raw@) is None,
            },
    {
        let v = chars_of(raw);
        Level::parse_chars(v.as_slice())
    }

    pub(crate) fn parse_chars(raw: &[char]) -> (l: Option<Level>)
        ensures
            match l {
                Some(x) => level_value(raw@) == Some(x@),
                None => level_value(raw@) is None,
            },
    {
        let r = trim_chars(raw);
        if r.len() == 0 {
            return None;
        }
        let text = string_of(r.as_slice());
        if let Some(daf) = parse_daf(text.as_str()) {
            return Some(Level(daf));
        }
        if let Some(n) = parse_numeral(text.as_str()) {
            return Some(Level::number(n));
        }
        Some(Level(text))
    }

    /// A level from a number, in digits.
    pub fn number(n: u32) -> (l: Level)
        ensures
            l@ == decimal(n as nat),
    {
        let d = decimal_of(n as u64);
        Level(string_of(d.as_slice()))
    }

    /// A level from text that is already canonical, taken as it is.
    pub fn canonical(s: &str) -> (l: Level)
        ensures
            l@ == s@,
    {
        let v = chars_of(s);
        Level(string_of(v.as_slice()))
    }

    /// The number, if this level is one.
    pub fn as_number(&self) -> (n: Option<u32>)
        ensures
            n == parse_u32(self@),
    {
        let v = chars_of(self.0.as_str());
        parse_u32_chars(v.as_slice())
    }

    /// Whether this level is addressed by number rather than named. This is
    /// what tells a hyphen apart from a hyphen: `2a:1-2b:4` is a range
    /// because its end is numbered, `כסלו-טבת` is one named level.
    pub fn is_numbered(&self) -> (b: bool)
        ensures
            b == numbered(self@),
    {
        self.as_number().is_some() || parse_daf(self.0.as_str()).is_some()
    }

    /// The canonical text.
    pub fn as_str(&self) -> (s: &str)
        ensures
            s@ == self@,
    {
        self.0.as_str()
    }

    /// The canonical text, as a string of its own.
    pub fn to_string(&self) -> (s: String)
        ensures
            s@ == self@,
    {
        self.0.clone()
    }
}

/// A point inside a work: `1:1`, `2a:4`, `4:1`.
#[derive(Debug, Clone, PartialEq, Eq, PartialOrd, Ord, Hash)]
pub struct Address(Vec<Level>);

impl View for Address {
    type V = Seq<Seq<char>>;

    closed spec fn view(&self) -> Seq<Seq<char>> {
        level_texts(self.0@)
    }
}

impl Default for Address {
    fn default() -> (a: Address)
        ensures
            a@ == Seq::<Seq<char>>::empty(),
    {
        let a = Address(Vec::new());
        assert(a@ =~= Seq::<Seq<char>>::empty());
        a
    }
}

impl Address {
    pub fn new(levels: Vec<Level>) -> (a: Address)
        ensures
            a@ == level_texts(levels@),
    {
        Address(levels)
    }

    /// The same address, held again.
    pub(crate) fn copied(&self) -> (a: Address)
        ensures
            a@ == self@,
    {
        let mut v: Vec<Level> = Vec::new();
        let mut i: usize = 0;
        while i < self.0.len()
            invariant
                i <= self.0.len(),
                level_texts(v@) == self@.take(i as int),
            decreases self.0.len() - i,
        {
            let ghost before = level_texts(v@);
            v.push(self.0[i].copied());
            assert(level_texts(v@) =~= before.push(self@[i as int]));
            assert(self@.take(i + 1) =~= self@.take(i as int).push(self@[i as int]));
            i += 1;
        }
        assert(self@.take(self.0.len() as int) =~= self@);
        Address(v)
    }

    /// Whether two addresses are the same place.
    pub(crate) fn same(&self, other: &Address) -> (b: bool)
        ensures
            b == (self@ == other@),
    {
        if self.0.len() != other.0.len() {
            assert(self@.len() != other@.len());
            return false;
        }
        let mut i: usize = 0;
        while i < self.0.len()
            invariant
                self.0.len() == other.0.len(),
                i <= self.0.len(),
                forall|j: int| 0 <= j < i ==> self@[j] == other@[j],
            decreases self.0.len() - i,
        {
            if !crate::text::same_text(self.0[i].as_str(), other.0[i].as_str()) {
                assert(self@[i as int] != other@[i as int]);
                return false;
            }
            i += 1;
        }
        assert(self@ =~= other@);
        true
    }

    /// Read `1:1`, or `2a:4`. The parts between colons that are blank are
    /// passed over; an address with no level at all is none.
    pub fn parse(raw: &str) -> (a: Option<Address>)
        ensures
            match a {
                Some(x) => address_value(raw@) == Some(x@),
                None => address_value(raw@) is None,
            },
    {
        let v = chars_of(raw);
        Address::parse_chars(v.as_slice())
    }

    pub(crate) fn parse_chars(raw: &[char]) -> (a: Option<Address>)
        ensures
            match a {
                Some(x) => address_value(raw@) == Some(x@),
                None => address_value(raw@) is None,
            },
    {
        let parts = split_char(raw, ':');
        let mut levels: Vec<Level> = Vec::new();
        let mut i: usize = 0;
        while i < parts.len()
            invariant
                i <= parts.len(),
                level_texts(levels@) == read_levels(texts(parts@).take(i as int)),
            decreases parts.len() - i,
        {
            let ghost t = texts(parts@).take(i + 1);
            assert(t.drop_last() =~= texts(parts@).take(i as int));
            assert(t.last() == parts@[i as int]@);
            let ghost before = level_texts(levels@);
            if let Some(l) = Level::parse_chars(parts[i].as_slice()) {
                levels.push(l);
                assert(level_texts(levels@) =~= before.push(l@));
            }
            i += 1;
        }
        assert(texts(parts@).take(parts.len() as int) =~= texts(parts@));
        if levels.len() == 0 {
            return None;
        }
        Some(Address(levels))
    }

    /// The levels, outermost first.
    pub fn levels(&self) -> (l: &[Level])
        ensures
            level_texts(l@) == self@,
    {
        self.0.as_slice()
    }

    pub fn depth(&self) -> (n: usize)
        ensures
            n == self@.len(),
    {
        self.0.len()
    }

    pub fn is_empty(&self) -> (b: bool)
        ensures
            b == (self@.len() == 0),
    {
        self.0.len() == 0
    }

    /// Extend a partial address against the one currently being read: "see
    /// se'if 5" while standing in siman 1 means `1:5`.
    pub fn completed_against(&self, context: &Address) -> (a: Address)
        ensures
            a@ == completed(self@, context@),
    {
        if self.depth() >= context.depth() {
            return self.copied();
        }
        let keep = context.depth() - self.depth();
        let mut levels: Vec<Level> = Vec::new();
        let mut i: usize = 0;
        while i < keep
            invariant
                keep == context@.len() - self@.len(),
                keep <= context.0.len(),
                i <= keep,
                level_texts(levels@) == context@.take(i as int),
            decreases keep - i,
        {
            let ghost before = level_texts(levels@);
            levels.push(context.0[i].copied());
            assert(level_texts(levels@) =~= before.push(context@[i as int]));
            assert(context@.take(i + 1) =~= context@.take(i as int).push(context@[i as int]));
            i += 1;
        }
        let mut j: usize = 0;
        while j < self.0.len()
            invariant
                j <= self.0.len(),
                keep <= context@.len(),
                level_texts(levels@) == context@.take(keep as int) + self@.take(j as int),
            decreases self.0.len() - j,
        {
            let ghost before = level_texts(levels@);
            levels.push(self.0[j].copied());
            assert(level_texts(levels@) =~= before.push(self@[j as int]));
            assert(context@.take(keep as int) + self@.take(j + 1) =~= (context@.take(keep as int)
                + self@.take(j as int)).push(self@[j as int]));
            j += 1;
        }
        assert(self@.take(self.0.len() as int) =~= self@);
        Address(levels)
    }

    /// The address as it is written: `2a:4`.
    pub fn to_chars(&self) -> (v: Vec<char>)
        ensures
            v@ == address_text(self@),
    {
        let mut out: Vec<char> = Vec::new();
        let mut i: usize = 0;
        while i < self.0.len()
            invariant
                i <= self.0.len(),
                out@ == join(self@.take(i as int), seq![':']),
            decreases self.0.len() - i,
        {
            if i > 0 {
                out.push(':');
            }
            let l = chars_of(self.0[i].as_str());
            push_all(&mut out, l.as_slice());
            let ghost t = self@.take(i + 1);
            assert(t.drop_last() =~= self@.take(i as int));
            assert(t.last() == self@[i as int]);
            if i == 0 {
                assert(self@.take(0) =~= Seq::<Seq<char>>::empty());
                assert(out@ =~= self@[0]);
            } else {
                assert(out@ =~= join(self@.take(i as int), seq![':']) + seq![':'] + self@[i as int]);
            }
            i += 1;
        }
        assert(self@.take(self.0.len() as int) =~= self@);
        out
    }

    /// The address as it is written: `2a:4`.
    pub fn to_string(&self) -> (s: String)
        ensures
            s@ == address_text(self@),
    {
        let v = self.to_chars();
        string_of(v.as_slice())
    }
}

} // verus!
