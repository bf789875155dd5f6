//! The canonical ref: a stable, resolvable pointer to a span.
//!
//! ```text
//! girsa:shulchan-arukh/orach-chayim/1:1        a point
//! girsa:bavli/berakhot/2a:1-2b:4               a span
//! girsa:mishnah-berurah/1:1#7                  a permanent segment anchor
//! ```
//!
//! `/` separates the parts of the work and `:` the levels of the address,
//! and the last `/`-separated component is the address, always. A trailing
//! slash says the address is absent. A hyphen separates two addresses only
//! when the side after it is addressed entirely by number and the side
//! before it reads as an address at all.
use vstd::prelude::*;

use crate::refs::address::{address_text, address_value, level_texts, numbered, Address};
use crate::text::{
    chars_of, find, find_char, has_prefix, join, push_all, push_text, rsplit_once, rsplit_once_char,
    same_text, slice_of, split, split_char, split_once, split_once_char, starts_with, string_of,
    strings, texts, to_strings,
};

verus! {

/// Why a ref would not parse.
#[derive(Debug, Clone, PartialEq, Eq)]
pub enum RefError {
    /// A ref must start with `girsa:`.
    NotAGirsaRef,
    /// A ref must name a work.
    NoWork,
    /// The text is not an address.
    BadAddress(String),
}

/// What a ref error says, in words.
pub open spec fn error_message(e: RefError) -> Seq<char> {
    match e {
        RefError::NotAGirsaRef => "a ref must start with `girsa:`"@,
        RefError::NoWork => "a ref must name a work"@,
        RefError::BadAddress(a) => seq!['`'] + a@ + "` is not an address"@,
    }
}

impl RefError {
    /// What went wrong, in words.
    pub fn to_string(&self) -> (s: String)
        ensures
            s@ == error_message(*self),
    {
        match self {
            RefError::NotAGirsaRef => "a ref must start with `girsa:`".to_owned(),
            RefError::NoWork => "a ref must name a work".to_owned(),
            RefError::BadAddress(a) => {
                let mut s = "`".to_owned();
                proof {
                    reveal_strlit("`");
                }
                push_text(&mut s, a.as_str());
                push_text(&mut s, "` is not an address");
                s
            },
        }
    }
}

/// A ref as values: the work path, where the span starts, and where it ends
/// if it is longer than a point.
pub type RefView = (Seq<Seq<char>>, Seq<Seq<char>>, Option<Seq<Seq<char>>>);

/// The error a ref text gives, as a value.
pub enum RefErrorKind {
    NotAGirsaRef,
    NoWork,
}

pub open spec fn scheme_prefix() -> Seq<char> {
    seq!['g', 'i', 'r', 's', 'a', ':']
}

/// A ref to a whole work, with no address.
pub open spec fn whole(work: Seq<Seq<char>>) -> RefView {
    (work, Seq::empty(), None)
}

/// Whether every level of an address is numbered.
pub open spec fn all_numbered(a: Seq<Seq<char>>) -> bool {
    forall|i: int| 0 <= i < a.len() ==> numbered(#[trigger] a[i])
}

/// The address part read as a span or a point.
pub open spec fn range_value(tail: Seq<char>) -> Option<(Seq<Seq<char>>, Option<Seq<Seq<char>>>)> {
    let single = match address_value(tail) {
        Some(a) => Some((a, None::<Seq<Seq<char>>>)),
        None => None,
    };
    match split_once(tail, '-') {
        Some((a, b)) => match (address_value(a), address_value(b)) {
            (Some(f), Some(t)) => if all_numbered(t) {
                if f == t {
                    Some((f, None))
                } else {
                    Some((f, Some(t)))
                }
            } else {
                single
            },
            _ => single,
        },
        None => single,
    }
}

/// The text before the first `#`: an ordinal belongs to a segment, not to a
/// ref.
pub open spec fn before_anchor(s: Seq<char>) -> Seq<char> {
    match find(s, '#') {
        Some(i) => s.take(i),
        None => s,
    }
}

/// A ref read from text.
pub open spec fn ref_value(s: Seq<char>) -> Result<RefView, RefErrorKind> {
    if !starts_with(s, scheme_prefix()) {
        Err(RefErrorKind::NotAGirsaRef)
    } else {
        let body = before_anchor(s.skip(6));
        match rsplit_once(body, '/') {
            Some((work_path, tail)) => {
                let work = split(work_path, '/');
                if exists|i: int| 0 <= i < work.len() && (#[trigger] work[i]).len() == 0 {
                    Err(RefErrorKind::NoWork)
                } else if tail.len() == 0 {
                    Ok(whole(work))
                } else {
                    match range_value(tail) {
                        Some((f, t)) => Ok((work, f, t)),
                        None => Ok(whole(split(body, '/'))),
                    }
                }
            },
            None => if body.len() == 0 {
                Err(RefErrorKind::NoWork)
            } else {
                Ok(whole(seq![body]))
            },
        }
    }
}

/// A ref as it is written down.
pub open spec fn ref_text(r: RefView) -> Seq<char> {
    let head = scheme_prefix() + join(r.0, seq!['/']);
    if r.1.len() == 0 {
        if r.0.len() >= 2 {
            head.push('/')
        } else {
            head
        }
    } else {
        let point = head.push('/') + address_text(r.1);
        match r.2 {
            Some(t) => point.push('-') + address_text(t),
            None => point,
        }
    }
}

pub open spec fn error_kind(e: RefError) -> RefErrorKind {
    match e {
        RefError::NotAGirsaRef => RefErrorKind::NotAGirsaRef,
        _ => RefErrorKind::NoWork,
    }
}

/// A stable pointer to a span of one work.
#[derive(Debug, Clone, PartialEq, Eq, Hash)]
pub struct Ref {
    work: Vec<String>,
    from: Address,
    to: Option<Address>,
}

pub open spec fn opt_address(a: Option<Address>) -> Option<Seq<Seq<char>>> {
    match a {
        Some(x) => Some(x@),
        None => None,
    }
}

impl View for Ref {
    type V = RefView;

    closed spec fn view(&self) -> RefView {
        (strings(self.work@), self.from@, opt_address(self.to))
    }
}

/// The view of a parse result.
pub open spec fn parsed_view(r: Result<Ref, RefError>) -> Result<RefView, RefErrorKind> {
    match r {
        Ok(x) => Ok(x@),
        Err(e) => Err(error_kind(e)),
    }
}

/// A ref is well formed when writing it down and reading it back gives it
/// again.
pub open spec fn well_formed(r: RefView) -> bool {
    ref_value(ref_text(r)) == Ok::<RefView, RefErrorKind>(r)
}

fn copy_strings(v: &Vec<String>) -> (r: Vec<String>)
    ensures
        strings(r@) == strings(v@),
{
    let mut r: Vec<String> = Vec::new();
    let mut i: usize = 0;
    while i < v.len()
        invariant
            i <= v.len(),
            strings(r@) == strings(v@).take(i as int),
        decreases v.len() - i,
    {
        let ghost before = strings(r@);
        r.push(v[i].clone());
        assert(strings(r@) =~= before.push(v@[i as int]@));
        assert(strings(v@).take(i + 1) =~= strings(v@).take(i as int).push(v@[i as int]@));
        i += 1;
    }
    assert(strings(v@).take(v.len() as int) =~= strings(v@));
    r
}

fn same_strings(a: &Vec<String>, b: &Vec<String>) -> (r: bool)
    ensures
        r == (strings(a@) == strings(b@)),
{
    if a.len() != b.len() {
        assert(strings(a@).len() != strings(b@).len());
        return false;
    }
    let mut i: usize = 0;
    while i < a.len()
        invariant
            a.len() == b.len(),
            i <= a.len(),
            forall|j: int| 0 <= j < i ==> strings(a@)[j] == strings(b@)[j],
        decreases a.len() - i,
    {
        if !same_text(a[i].as_str(), b[i].as_str()) {
            assert(strings(a@)[i as int] != strings(b@)[i as int]);
            return false;
        }
        i += 1;
    }
    assert(strings(a@) =~= strings(b@));
    true
}

impl Ref {
    /// A ref to one place.
    pub fn point(work: Vec<String>, from: Address) -> (r: Ref)
        ensures
            r@ == (strings(work@), from@, None::<Seq<Seq<char>>>),
    {
        Ref { work, from, to: None }
    }

    /// A ref to a range. If the two ends are the same it is a point, because
    /// `2a:1-2a:1` and `2a:1` must not be two strings for one place.
    pub fn span(work: Vec<String>, from: Address, to: Address) -> (r: Ref)
        ensures
            r@ == (strings(work@), from@, if from@ == to@ {
                None
            } else {
                Some(to@)
            }),
    {
        if from.same(&to) {
            return Ref::point(work, from);
        }
        Ref { work, from, to: Some(to) }
    }

    /// A ref to a whole work, with no address.
    pub fn whole_work(work: Vec<String>) -> (r: Ref)
        ensures
            r@ == whole(strings(work@)),
    {
        Ref { work, from: Address::default(), to: None }
    }

    /// The same ref, held again.
    pub(crate) fn copied(&self) -> (r: Ref)
        ensures
            r@ == self@,
    {
        Ref {
            work: copy_strings(&self.work),
            from: self.from.copied(),
            to: match &self.to {
                Some(t) => Some(t.copied()),
                None => None,
            },
        }
    }

    /// Whether two refs point at the same span.
    pub fn same(&self, other: &Ref) -> (b: bool)
        ensures
            b == (self@ == other@),
    {
        let to_same = match (&self.to, &other.to) {
            (Some(a), Some(b)) => a.same(b),
            (None, None) => true,
            _ => false,
        };
        same_strings(&self.work, &other.work) && self.from.same(&other.from) && to_same
    }

    /// The work path: `["shulchan-arukh", "orach-chayim"]`.
    pub fn work(&self) -> (w: &[String])
        ensures
            strings(w@) == self@.0,
    {
        self.work.as_slice()
    }

    /// The work as it appears in a ref: `shulchan-arukh/orach-chayim`.
    pub fn work_slug(&self) -> (s: String)
        ensures
            s@ == join(self@.0, seq!['/']),
    {
        let v = self.slug_chars();
        string_of(v.as_slice())
    }

    fn slug_chars(&self) -> (v: Vec<char>)
        ensures
            v@ == join(self@.0, seq!['/']),
    {
        let mut parts: Vec<Vec<char>> = Vec::new();
        let mut i: usize = 0;
        while i < self.work.len()
            invariant
                i <= self.work.len(),
                texts(parts@) == strings(self.work@).take(i as int),
            decreases self.work.len() - i,
        {
            let ghost before = texts(parts@);
            parts.push(chars_of(self.work[i].as_str()));
            assert(texts(parts@) =~= before.push(self.work@[i as int]@));
            assert(strings(self.work@).take(i + 1) =~= strings(self.work@).take(i as int).push(
                self.work@[i as int]@,
            ));
            i += 1;
        }
        assert(strings(self.work@).take(self.work.len() as int) =~= strings(self.work@));
        let sep = vec!['/'];
        assert(sep@ == seq!['/']);
        assert(texts(parts@).subrange(0, parts.len() as int) =~= texts(parts@));
        assert(texts(parts@) == self@.0);
        crate::text::join_chars(parts.as_slice(), 0, parts.len(), sep.as_slice())
    }

    /// Where the span starts.
    pub fn from(&self) -> (a: &Address)
        ensures
            a@ == self@.1,
    {
        &self.from
    }

    /// Where the span ends, if it is longer than a point.
    pub fn to(&self) -> (a: Option<&Address>)
        ensures
            match a {
                Some(x) => self@.2 == Some(x@),
                None => self@.2 is None,
            },
    {
        match &self.to {
            Some(t) => Some(t),
            None => None,
        }
    }

    /// Whether this ref covers more than one place.
    pub fn is_span(&self) -> (b: bool)
        ensures
            b == self@.2 is Some,
    {
        self.to.is_some()
    }

    /// The ref as it is written down: `girsa:bavli/berakhot/2a:1-2b:4`. A
    /// whole work of two or more parts ends in a slash, which says it has no
    /// address.
    pub fn to_chars(&self) -> (v: Vec<char>)
        ensures
            v@ == ref_text(self@),
    {
        let mut out = vec!['g', 'i', 'r', 's', 'a', ':'];
        let slug = self.slug_chars();
        push_all(&mut out, slug.as_slice());
        if self.from.is_empty() {
            if self.work.len() >= 2 {
                out.push('/');
            }
            return out;
        }
        out.push('/');
        let f = self.from.to_chars();
        push_all(&mut out, f.as_slice());
        if let Some(t) = &self.to {
            out.push('-');
            let tv = t.to_chars();
            push_all(&mut out, tv.as_slice());
        }
        out
    }

    /// The ref as it is written down.
    pub fn to_string(&self) -> (s: String)
        ensures
            s@ == ref_text(self@),
    {
        let v = self.to_chars();
        string_of(v.as_slice())
    }

    /// Read a ref from its text: `girsa:`, the work path, and the address
    /// after the last slash. An `#ordinal` is dropped.
    pub fn parse(s: &str) -> (r: Result<Ref, RefError>)
        ensures
            parsed_view(r) == ref_value(s@),
    {
        let v = chars_of(s);
        Ref::parse_chars(v.as_slice())
    }

    pub(crate) fn parse_chars(s: &[char]) -> (r: Result<Ref, RefError>)
        ensures
            parsed_view(r) == ref_value(s@),
    {
        let prefix = vec!['g', 'i', 'r', 's', 'a', ':'];
        assert(prefix@ == scheme_prefix());
        if !has_prefix(s, prefix.as_slice()) {
            return Err(RefError::NotAGirsaRef);
        }
        let rest = slice_of(s, 6, s.len());
        assert(rest@ == s@.skip(6));
        proof {
            crate::text::lemma_find(rest@, '#');
        }
        let body = match find_char(rest.as_slice(), '#') {
            Some(i) => slice_of(rest.as_slice(), 0, i),
            None => rest,
        };
        assert(body@ == before_anchor(s@.skip(6)));
        match rsplit_once_char(body.as_slice(), '/') {
            Some((work_path, tail)) => {
                let parts = split_char(work_path.as_slice(), '/');
                if any_empty(&parts) {
                    return Err(RefError::NoWork);
                }
                let work = to_strings(&parts);
                if tail.len() == 0 {
                    return Ok(Ref::whole_work(work));
                }
                match parse_range(tail.as_slice()) {
                    Some((from, to)) => {
                        let r = Ref { work, from, to };
                        Ok(r)
                    },
                    None => {
                        let all = split_char(body.as_slice(), '/');
                        Ok(Ref::whole_work(to_strings(&all)))
                    },
                }
            },
            None => {
                if body.len() == 0 {
                    return Err(RefError::NoWork);
                }
                let mut w: Vec<String> = Vec::new();
                w.push(string_of(body.as_slice()));
                assert(strings(w@) =~= seq![body@]);
                Ok(Ref::whole_work(w))
            },
        }
    }

    /// Whether this ref survives being written down and read back. The
    /// grammar has three separators and no escape, so a level like `1-2`,
    /// `a:b`, `a/b` or `a#b` cannot be written down.
    pub fn is_well_formed(&self) -> (b: bool)
        ensures
            b == well_formed(self@),
    {
        let text = self.to_chars();
        match Ref::parse_chars(text.as_slice()) {
            Ok(r) => r.same(self),
            Err(_) => false,
        }
    }
}

impl std::str::FromStr for Ref {
    type Err = RefError;

    fn from_str(s: &str) -> (r: Result<Ref, RefError>)
        ensures
            parsed_view(r) == ref_value(s@),
    {
        Ref::parse(s)
    }
}

fn any_empty(parts: &Vec<Vec<char>>) -> (b: bool)
    ensures
        b == exists|i: int| 0 <= i < parts@.len() && (#[trigger] texts(parts@)[i]).len() == 0,
{
    let mut i: usize = 0;
    while i < parts.len()
        invariant
            i <= parts.len(),
            forall|j: int| 0 <= j < i ==> (#[trigger] texts(parts@)[j]).len() > 0,
        decreases parts.len() - i,
    {
        if parts[i].len() == 0 {
            assert(texts(parts@)[i as int].len() == 0);
            return true;
        }
        i += 1;
    }
    false
}

fn all_levels_numbered(a: &Address) -> (b: bool)
    ensures
        b == all_numbered(a@),
{
    let levels = a.levels();
    let mut i: usize = 0;
    while i < levels.len()
        invariant
            i <= levels.len(),
            level_texts(levels@) == a@,
            forall|j: int| 0 <= j < i ==> numbered(#[trigger] a@[j]),
        decreases levels.len() - i,
    {
        assert(a@[i as int] == levels@[i as int]@);
        if !levels[i].is_numbered() {
            return false;
        }
        i += 1;
    }
    true
}

/// `2a:1-2b:4` is two addresses; `1:1` is one; `orach-chayim:240:1` is one,
/// because what follows its hyphen is not numbered.
fn parse_range(tail: &[char]) -> (r: Option<(Address, Option<Address>)>)
    ensures
        match r {
            Some((f, t)) => range_value(tail@) == Some((f@, opt_address(t))),
            None => range_value(tail@) is None,
        },
{
    if let Some((a, b)) = split_once_char(tail, '-') {
        if let Some(from) = Address::parse_chars(a.as_slice()) {
            if let Some(to) = Address::parse_chars(b.as_slice()) {
                if all_levels_numbered(&to) {
                    if from.same(&to) {
                        return Some((from, None));
                    }
                    return Some((from, Some(to)));
                }
            }
        }
    }
    match Address::parse_chars(tail) {
        Some(a) => Some((a, None)),
        None => None,
    }
}

} // verus!
