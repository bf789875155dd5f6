//! Every way a sefer is written, and which sefer it is.
//!
//! Variants are keyed by their normal form, so which gershayim the reader
//! typed never reaches the map. One variant may mean several seforim: `או"ח`
//! is the Orach Chayim of the Shulchan Arukh and of the Tur, and the map holds
//! all of them so the resolver can hand the reader a choice.
use vstd::prelude::*;

use crate::hebrew::normalize::{normalize, normalized};
use crate::text::{
    chars_of, is_blank, same_text, split, split_char, split_whitespace, string_of, texts, trim,
    words,
};

verus! {

/// A work the lexicon knows about.
#[derive(Debug, Clone, PartialEq, Eq, PartialOrd, Ord, Hash)]
pub struct Work {
    /// The ref slug: `shulchan-arukh/orach-chayim`.
    pub slug: String,
    /// How to print it in Hebrew: `שולחן ערוך, אורח חיים`.
    pub he_title: String,
    /// How to print it in English: `Shulchan Arukh, Orach Chayim`.
    pub en_title: String,
}

/// A work as text: slug, Hebrew title, English title.
pub type WorkView = (Seq<char>, Seq<char>, Seq<char>);

pub open spec fn work_view(w: Work) -> WorkView {
    (w.slug@, w.he_title@, w.en_title@)
}

impl Work {
    pub(crate) fn copied(&self) -> (w: Work)
        ensures
            work_view(w) == work_view(*self),
    {
        Work {
            slug: self.slug.clone(),
            he_title: self.he_title.clone(),
            en_title: self.en_title.clone(),
        }
    }
}

/// A lexicon as values: the works in the order they were learned, each
/// normal form and the works it may mean, and the word count of the
/// longest normal form.
pub type LexView = (Seq<WorkView>, Map<Seq<char>, Seq<usize>>, nat);

/// The map a list of distinct keys describes.
pub open spec fn entries_map(e: Seq<(Seq<char>, Seq<usize>)>) -> Map<Seq<char>, Seq<usize>>
    decreases e.len(),
{
    if e.len() == 0 {
        Map::empty()
    } else {
        entries_map(e.drop_last()).insert(e.last().0, e.last().1)
    }
}

pub open spec fn distinct_keys(e: Seq<(Seq<char>, Seq<usize>)>) -> bool {
    forall|i: int, j: int| 0 <= i < j < e.len() ==> e[i].0 != e[j].0
}

/// The works a normal form means, or none.
pub open spec fn meanings(l: LexView, key: Seq<char>) -> Seq<usize> {
    if l.1.contains_key(key) {
        l.1[key]
    } else {
        Seq::empty()
    }
}

/// One spelling taught to a lexicon as meaning one work: keyed by its
/// normal form, never twice for the same work, and a blank normal form
/// teaches nothing.
pub open spec fn inserted(l: LexView, variant: Seq<char>, work: usize) -> LexView {
    let key = normalized(variant);
    if key.len() == 0 {
        l
    } else {
        let old = meanings(l, key);
        let n = words(key).len();
        (
            l.0,
            l.1.insert(key, if old.contains(work) {
                old
            } else {
                old.push(work)
            }),
            if n > l.2 {
                n
            } else {
                l.2
            },
        )
    }
}

/// Where a slug already stands among the works.
pub open spec fn slug_index(works: Seq<WorkView>, slug: Seq<char>) -> Option<int>
    decreases works.len(),
{
    if works.len() == 0 {
        None
    } else {
        match slug_index(works.drop_last(), slug) {
            Some(i) => Some(i),
            None => if works.last().0 == slug {
                Some(works.len() - 1)
            } else {
                None
            },
        }
    }
}

/// A lexicon with a work in it: the work already there with that slug, or
/// this one appended.
pub open spec fn with_work(l: LexView, w: WorkView) -> (LexView, int) {
    match slug_index(l.0, w.0) {
        Some(i) => (l, i),
        None => ((l.0.push(w), l.1, l.2), l.0.len() as int),
    }
}

/// Spellings taught one after another.
pub open spec fn inserted_all(l: LexView, variants: Seq<Seq<char>>, work: usize) -> LexView
    decreases variants.len(),
{
    if variants.len() == 0 {
        l
    } else {
        inserted(inserted_all(l, variants.drop_last(), work), variants.last(), work)
    }
}

/// A work and its spellings added to a lexicon.
pub open spec fn added(l: LexView, w: WorkView, variants: Seq<Seq<char>>) -> LexView {
    let (m, i) = with_work(l, w);
    inserted_all(m, variants, i as usize)
}

/// `str::lines`: split at each newline, a carriage return before it
/// dropped, and no line after a final newline.
pub open spec fn lines(s: Seq<char>) -> Seq<Seq<char>> {
    let parts = split(s, '\n');
    let kept = if parts.last().len() == 0 {
        parts.drop_last()
    } else {
        parts
    };
    kept.map_values(|p: Seq<char>| if p.len() > 0 && p.last() == '\r' {
        p.drop_last()
    } else {
        p
    })
}

/// One line of a lexicon file: `variant \t slug \t he-title \t en-title`,
/// the titles defaulting to the variant and the slug. Comments, blank lines
/// and rows without a slug teach nothing.
pub open spec fn loaded_line(l: LexView, line: Seq<char>) -> LexView {
    let f = split(line, '\t');
    if line.len() > 0 && line[0] == '#' {
        l
    } else if trim(line).len() == 0 {
        l
    } else if f.len() < 2 {
        l
    } else {
        let variant = f[0];
        let slug = f[1];
        let he = if f.len() > 2 {
            f[2]
        } else {
            variant
        };
        let en = if f.len() > 3 {
            f[3]
        } else {
            slug
        };
        if trim(variant).len() == 0 || trim(slug).len() == 0 {
            l
        } else {
            let (m, i) = with_work(l, (slug, he, en));
            inserted(m, variant, i as usize)
        }
    }
}

pub open spec fn loaded(lines: Seq<Seq<char>>) -> LexView
    decreases lines.len(),
{
    if lines.len() == 0 {
        (Seq::empty(), Map::empty(), 0)
    } else {
        loaded_line(loaded(lines.drop_last()), lines.last())
    }
}

/// Title variant to the works that could be meant.
#[derive(Debug, Clone)]
pub struct Lexicon {
    by_variant: Vec<(String, Vec<usize>)>,
    works: Vec<Work>,
    longest_variant_words: usize,
}

pub open spec fn entry_view(e: (String, Vec<usize>)) -> (Seq<char>, Seq<usize>) {
    (e.0@, e.1@)
}

impl View for Lexicon {
    type V = LexView;

    closed spec fn view(&self) -> LexView {
        (
            self.works@.map_values(|w: Work| work_view(w)),
            entries_map(self.by_variant@.map_values(|e: (String, Vec<usize>)| entry_view(e))),
            self.longest_variant_words as nat,
        )
    }
}

proof fn lemma_entries_map_has(e: Seq<(Seq<char>, Seq<usize>)>, i: int)
    requires
        distinct_keys(e),
        0 <= i < e.len(),
    ensures
        entries_map(e).contains_key(e[i].0),
        entries_map(e)[e[i].0] == e[i].1,
    decreases e.len(),
{
    if i < e.len() - 1 {
        let d = e.drop_last();
        assert(d[i] == e[i]);
        lemma_entries_map_has(d, i);
        assert(e[i].0 != e.last().0);
    }
}

proof fn lemma_entries_map_lacks(e: Seq<(Seq<char>, Seq<usize>)>, k: Seq<char>)
    requires
        forall|i: int| 0 <= i < e.len() ==> e[i].0 != k,
    ensures
        !entries_map(e).contains_key(k),
    decreases e.len(),
{
    if e.len() > 0 {
        let d = e.drop_last();
        assert forall|i: int| 0 <= i < d.len() implies d[i].0 != k by {
            assert(d[i] == e[i]);
        }
        lemma_entries_map_lacks(d, k);
    }
}

proof fn lemma_entries_map_update(e: Seq<(Seq<char>, Seq<usize>)>, i: int, v: Seq<usize>)
    requires
        distinct_keys(e),
        0 <= i < e.len(),
    ensures
        entries_map(e.update(i, (e[i].0, v))) == entries_map(e).insert(e[i].0, v),
        distinct_keys(e.update(i, (e[i].0, v))),
    decreases e.len(),
{
    let u = e.update(i, (e[i].0, v));
    if i == e.len() - 1 {
        assert(u.drop_last() =~= e.drop_last());
        assert(entries_map(e).insert(e[i].0, v) =~= entries_map(e.drop_last()).insert(e[i].0, v));
    } else {
        let d = e.drop_last();
        assert(d[i] == e[i]);
        lemma_entries_map_update(d, i, v);
        assert(u.drop_last() =~= d.update(i, (e[i].0, v)));
        assert(e.last().0 != e[i].0);
        assert(entries_map(u) =~= entries_map(e).insert(e[i].0, v));
    }
    assert forall|a: int, b: int| 0 <= a < b < u.len() implies u[a].0 != u[b].0 by {
        assert(u[a].0 == e[a].0);
        assert(u[b].0 == e[b].0);
    }
}

impl Lexicon {
    /// The spellings are distinct and every work they mean is held.
    pub closed spec fn wf(self) -> bool {
        &&& distinct_keys(self.by_variant@.map_values(|e: (String, Vec<usize>)| entry_view(e)))
        &&& forall|i: int, j: int|
            0 <= i < self.by_variant@.len() && 0 <= j < self.by_variant@[i].1@.len()
                ==> #[trigger] self.by_variant@[i].1@[j] < self.works@.len()
    }

    pub fn new() -> (l: Lexicon)
        ensures
            l.wf(),
            l@ == (Seq::<WorkView>::empty(), Map::<Seq<char>, Seq<usize>>::empty(), 0nat),
    {
        let l = Lexicon { by_variant: Vec::new(), works: Vec::new(), longest_variant_words: 0 };
        assert(l@.0 =~= Seq::<WorkView>::empty());
        assert(l@.1 =~= Map::<Seq<char>, Seq<usize>>::empty());
        l
    }

    /// Load the generated lexicon: one row per variant, `variant \t slug \t
    /// he-title \t en-title`, lines starting with `#` being comments. A
    /// malformed row is skipped rather than failing the load.
    pub fn from_tsv(tsv: &str) -> (l: Lexicon)
        ensures
            l.wf(),
            l@ == loaded(lines(tsv@)),
    {
        let mut lexicon = Lexicon::new();
        let v = chars_of(tsv);
        let raw_lines = split_char(v.as_slice(), '\n');
        let mut n = raw_lines.len();
        proof {
            crate::text::lemma_split_len(v@, '\n');
        }
        if raw_lines[n - 1].len() == 0 {
            n = n - 1;
        }
        let ghost ls = lines(tsv@);
        assert(ls.len() == n);
        let mut i: usize = 0;
        while i < n
            invariant
                n <= raw_lines.len(),
                ls == lines(tsv@),
                ls.len() == n,
                forall|k: int| 0 <= k < n ==> #[trigger] ls[k] == (if texts(raw_lines@)[k].len() > 0
                    && texts(raw_lines@)[k].last() == '\r' {
                    texts(raw_lines@)[k].drop_last()
                } else {
                    texts(raw_lines@)[k]
                }),
                i <= n,
                lexicon.wf(),
                lexicon@ == loaded(ls.take(i as int)),
            decreases n - i,
        {
            let raw = &raw_lines[i];
            let line: Vec<char> = if raw.len() > 0 && raw[raw.len() - 1] == '\r' {
                crate::text::slice_of(raw.as_slice(), 0, raw.len() - 1)
            } else {
                crate::text::copy_of(raw.as_slice())
            };
            assert(line@ == ls[i as int]);
            assert(ls.take(i + 1).drop_last() =~= ls.take(i as int));
            lexicon.load_line(line.as_slice());
            i += 1;
        }
        assert(ls.take(n as int) =~= ls);
        lexicon
    }

    fn load_line(&mut self, line: &[char])
        requires
            old(self).wf(),
        ensures
            final(self).wf(),
            final(self)@ == loaded_line(old(self)@, line@),
    {
        if line.len() > 0 && line[0] == '#' {
            return;
        }
        if is_blank(line) {
            return;
        }
        let f = split_char(line, '\t');
        if f.len() < 2 {
            return;
        }
        let variant = &f[0];
        let slug = &f[1];
        let he = if f.len() > 2 {
            &f[2]
        } else {
            variant
        };
        let en = if f.len() > 3 {
            &f[3]
        } else {
            slug
        };
        if is_blank(variant.as_slice()) || is_blank(slug.as_slice()) {
            return;
        }
        let work = Work {
            slug: string_of(slug.as_slice()),
            he_title: string_of(he.as_slice()),
            en_title: string_of(en.as_slice()),
        };
        let index = self.work_index(work);
        let variant_text = string_of(variant.as_slice());
        self.insert(variant_text.as_str(), index);
    }

    /// The index of the work with this slug, adding it if it is new.
    fn work_index(&mut self, work: Work) -> (i: usize)
        requires
            old(self).wf(),
        ensures
            final(self).wf(),
            i < final(self)@.0.len(),
            (final(self)@, i as int) == with_work(old(self)@, work_view(work)),
    {
        let ghost ws = self@.0;
        let mut i: usize = 0;
        while i < self.works.len()
            invariant
                i <= self.works.len(),
                self.wf(),
                ws == self.works@.map_values(|w: Work| work_view(w)),
                slug_index(ws.take(i as int), work.slug@) is None,
            decreases self.works.len() - i,
        {
            let ghost t = ws.take(i + 1);
            assert(t.drop_last() =~= ws.take(i as int));
            assert(t.last() == work_view(self.works@[i as int]));
            if same_text(self.works[i].slug.as_str(), work.slug.as_str()) {
                proof {
                    lemma_slug_index_prefix(ws, i as int + 1, work.slug@);
                }
                return i;
            }
            i += 1;
        }
        assert(ws.take(self.works.len() as int) =~= ws);
        let ghost before = self@;
        self.works.push(work);
        assert(self@.0 =~= before.0.push(work_view(work)));
        self.works.len() - 1
    }

    /// Where a normal form stands among the spellings.
    fn find_key(&self, key: &String) -> (r: Option<usize>)
        requires
            self.wf(),
        ensures
            match r {
                Some(i) => i < self.by_variant@.len() && self.by_variant@[i as int].0@ == key@,
                None => forall|j: int|
                    0 <= j < self.by_variant@.len() ==> #[trigger] self.by_variant@[j].0@ != key@,
            },
    {
        let mut i: usize = 0;
        while i < self.by_variant.len()
            invariant
                i <= self.by_variant.len(),
                forall|j: int| 0 <= j < i ==> #[trigger] self.by_variant@[j].0@ != key@,
            decreases self.by_variant.len() - i,
        {
            if same_text(self.by_variant[i].0.as_str(), key.as_str()) {
                return Some(i);
            }
            i += 1;
        }
        None
    }

    /// Teach the lexicon that a spelling means a work.
    fn insert(&mut self, variant: &str, work: usize)
        requires
            old(self).wf(),
            work < old(self)@.0.len(),
        ensures
            final(self).wf(),
            final(self)@ == inserted(old(self)@, variant@, work),
    {
        let key = normalize(variant);
        let kv = chars_of(key.as_str());
        if kv.len() == 0 {
            return;
        }
        let n = split_whitespace(kv.as_slice()).len();
        let longest = if n > self.longest_variant_words {
            n
        } else {
            self.longest_variant_words
        };
        let ghost e = self.by_variant@.map_values(|x: (String, Vec<usize>)| entry_view(x));
        let ghost before = self@;
        match self.find_key(&key) {
            Some(i) => {
                assert(e[i as int] == entry_view(self.by_variant@[i as int]));
                proof {
                    lemma_entries_map_has(e, i as int);
                }
                assert(e[i as int].0 == key@);
                assert(meanings(before, key@) == e[i as int].1);
                if !contains_index(&self.by_variant[i].1, work) {
                    let mut list = self.by_variant[i].1.clone();
                    let ghost old_list = list@;
                    list.push(work);
                    let k = key.clone();
                    self.by_variant.set(i, (k, list));
                    proof {
                        lemma_entries_map_update(e, i as int, old_list.push(work));
                        assert(self.by_variant@.map_values(|x: (String, Vec<usize>)| entry_view(x))
                            =~= e.update(i as int, (e[i as int].0, old_list.push(work))));
                    }
                    assert forall|a: int, b: int|
                        0 <= a < self.by_variant@.len() && 0 <= b < self.by_variant@[a].1@.len()
                            implies #[trigger] self.by_variant@[a].1@[b] < self.works@.len() by {
                        if a != i {
                            assert(self.by_variant@[a] == old(self).by_variant@[a]);
                        } else if b < old_list.len() {
                            assert(self.by_variant@[a].1@[b] == old_list[b]);
                        }
                    }
                } else {
                    assert(before.1.insert(key@, e[i as int].1) =~= before.1);
                }
                self.longest_variant_words = longest;
                assert(self@.0 == before.0);
                assert(self@.1 =~= inserted(before, variant@, work).1);
            },
            None => {
                assert forall|j: int| 0 <= j < e.len() implies e[j].0 != key@ by {
                    assert(e[j] == entry_view(self.by_variant@[j]));
                }
                proof {
                    lemma_entries_map_lacks(e, key@);
                }
                let mut list: Vec<usize> = Vec::new();
                list.push(work);
                self.by_variant.push((key, list));
                self.longest_variant_words = longest;
                let ghost e2 = self.by_variant@.map_values(|x: (String, Vec<usize>)| entry_view(x));
                assert(e2 =~= e.push((kv@, seq![work])));
                assert(e2.drop_last() =~= e);
                assert(entries_map(e2) == entries_map(e).insert(kv@, seq![work]));
                assert(before.1 == entries_map(e));
                assert(meanings(before, key@) == Seq::<usize>::empty());
                assert(seq![work] =~= Seq::<usize>::empty().push(work));
                assert(self@.1 =~= inserted(before, variant@, work).1);
                assert forall|a: int, b: int| 0 <= a < e2.len() && 0 <= b < e2.len() && a < b implies e2[a].0 != e2[b].0 by {
                    if b < e.len() {
                        assert(e2[a] == e[a]);
                        assert(e2[b] == e[b]);
                    } else {
                        assert(e2[a] == e[a]);
                    }
                }
                assert forall|a: int, b: int|
                    0 <= a < self.by_variant@.len() && 0 <= b < self.by_variant@[a].1@.len()
                        implies #[trigger] self.by_variant@[a].1@[b] < self.works@.len() by {
                    if a < e.len() {
                        assert(self.by_variant@[a] == old(self).by_variant@[a]);
                    }
                }
            },
        }
    }

    /// Add a work and its variants; a work whose slug is already known is
    /// the one the variants are taught.
    pub fn add(&mut self, work: Work, variants: &[&str])
        requires
            old(self).wf(),
        ensures
            final(self).wf(),
            final(self)@ == added(old(self)@, work_view(work), variants@.map_values(|v: &str| v@)),
    {
        let ghost vs = variants@.map_values(|v: &str| v@);
        let index = self.work_index(work);
        let ghost start = self@;
        let mut i: usize = 0;
        while i < variants.len()
            invariant
                i <= variants.len(),
                vs == variants@.map_values(|v: &str| v@),
                index < self@.0.len(),
                self.wf(),
                self@.0 == start.0,
                self@ == inserted_all(start, vs.take(i as int), index),
            decreases variants.len() - i,
        {
            assert(vs.take(i + 1).drop_last() =~= vs.take(i as int));
            self.insert(variants[i], index);
            i += 1;
        }
        assert(vs.take(variants.len() as int) =~= vs);
    }

    /// Every work a title could mean, in the order they were taught; empty
    /// if the title is unknown. More than one is the normal case.
    pub fn lookup(&self, title: &str) -> (found: Vec<&Work>)
        requires
            self.wf(),
        ensures
            found@.map_values(|w: &Work| work_view(*w)) == meanings(self@, normalized(title@))
                .map_values(|i: usize| self@.0[i as int]),
    {
        let key = normalize(title);
        let ghost e = self.by_variant@.map_values(|x: (String, Vec<usize>)| entry_view(x));
        let mut out: Vec<&Work> = Vec::new();
        match self.find_key(&key) {
            Some(i) => {
                assert(e[i as int] == entry_view(self.by_variant@[i as int]));
                proof {
                    lemma_entries_map_has(e, i as int);
                }
                let list = &self.by_variant[i].1;
                let mut j: usize = 0;
                while j < list.len()
                    invariant
                        list@ == meanings(self@, key@),
                        j <= list.len(),
                        forall|m: int| 0 <= m < list@.len() ==> #[trigger] list@[m] < self.works@.len(),
                        out@.map_values(|w: &Work| work_view(*w)) == list@.take(j as int).map_values(
                            |k: usize| self@.0[k as int],
                        ),
                    decreases list.len() - j,
                {
                    let ghost before = out@.map_values(|w: &Work| work_view(*w));
                    out.push(&self.works[list[j]]);
                    assert(out@.map_values(|w: &Work| work_view(*w)) =~= before.push(
                        self@.0[list@[j as int] as int],
                    ));
                    assert(list@.take(j + 1).map_values(|k: usize| self@.0[k as int]) =~= list@.take(
                        j as int,
                    ).map_values(|k: usize| self@.0[k as int]).push(self@.0[list@[j as int] as int]));
                    j += 1;
                }
                assert(list@.take(list.len() as int) =~= list@);
            },
            None => {
                assert forall|j: int| 0 <= j < e.len() implies e[j].0 != key@ by {
                    assert(e[j] == entry_view(self.by_variant@[j]));
                }
                proof {
                    lemma_entries_map_lacks(e, key@);
                }
                assert(out@.map_values(|w: &Work| work_view(*w)) =~= Seq::<WorkView>::empty());
                assert(meanings(self@, key@).map_values(|i: usize| self@.0[i as int]) =~= Seq::<WorkView>::empty());
            },
        }
        out
    }

    /// How many works are known.
    pub fn len(&self) -> (n: usize)
        ensures
            n == self@.0.len(),
    {
        self.works.len()
    }

    pub fn is_empty(&self) -> (b: bool)
        ensures
            b == (self@.0.len() == 0),
    {
        self.works.len() == 0
    }

    /// How many distinct spellings are known.
    pub fn variant_count(&self) -> (n: usize)
        requires
            self.wf(),
        ensures
            n == self@.1.len(),
    {
        proof {
            lemma_entries_map_len(self.by_variant@.map_values(|x: (String, Vec<usize>)| entry_view(x)));
        }
        self.by_variant.len()
    }

    /// The word count of the longest title, and never less than one: it
    /// bounds how far the resolver looks.
    pub fn longest_variant_words(&self) -> (n: usize)
        ensures
            n == if self@.2 > 1 {
                self@.2
            } else {
                1
            },
    {
        if self.longest_variant_words > 1 {
            self.longest_variant_words
        } else {
            1
        }
    }
}

impl Default for Lexicon {
    fn default() -> (l: Lexicon)
        ensures
            l.wf(),
            l@ == (Seq::<WorkView>::empty(), Map::<Seq<char>, Seq<usize>>::empty(), 0nat),
    {
        Lexicon::new()
    }
}

fn contains_index(v: &Vec<usize>, x: usize) -> (b: bool)
    ensures
        b == v@.contains(x),
{
    let mut i: usize = 0;
    while i < v.len()
        invariant
            i <= v.len(),
            forall|j: int| 0 <= j < i ==> v@[j] != x,
        decreases v.len() - i,
    {
        if v[i] == x {
            return true;
        }
        i += 1;
    }
    false
}

proof fn lemma_slug_index_prefix(ws: Seq<WorkView>, k: int, slug: Seq<char>)
    requires
        0 < k <= ws.len(),
        slug_index(ws.take(k - 1), slug) is None,
        ws[k - 1].0 == slug,
    ensures
        slug_index(ws, slug) == Some(k - 1),
    decreases ws.len() - k,
{
    if k < ws.len() {
        assert(ws.drop_last().take(k - 1) =~= ws.take(k - 1));
        assert(ws.drop_last()[k - 1] == ws[k - 1]);
        lemma_slug_index_prefix(ws.drop_last(), k, slug);
    } else {
        assert(ws.take(k - 1) =~= ws.drop_last());
    }
}

proof fn lemma_entries_map_len(e: Seq<(Seq<char>, Seq<usize>)>)
    requires
        distinct_keys(e),
    ensures
        entries_map(e).len() == e.len(),
        entries_map(e).dom().finite(),
    decreases e.len(),
{
    if e.len() > 0 {
        let d = e.drop_last();
        assert(distinct_keys(d)) by {
            assert forall|i: int, j: int| 0 <= i < j < d.len() implies d[i].0 != d[j].0 by {
                assert(d[i] == e[i]);
                assert(d[j] == e[j]);
            }
        }
        lemma_entries_map_len(d);
        assert forall|i: int| 0 <= i < d.len() implies d[i].0 != e.last().0 by {
            assert(d[i] == e[i]);
        }
        lemma_entries_map_lacks(d, e.last().0);
    }
}

proof fn lemma_slug_index(works: Seq<WorkView>, slug: Seq<char>)
    ensures
        slug_index(works, slug) matches Some(i) ==> 0 <= i < works.len() && works[i].0 == slug,
    decreases works.len(),
{
    if works.len() > 0 {
        lemma_slug_index(works.drop_last(), slug);
    }
}

proof fn lemma_inserted_all_keeps(l: LexView, variants: Seq<Seq<char>>, work: usize, j: int)
    requires
        0 <= j < variants.len(),
        normalized(variants[j]).len() > 0,
    ensures
        meanings(inserted_all(l, variants, work), normalized(variants[j])).contains(work),
        inserted_all(l, variants, work).0 == l.0,
    decreases variants.len(),
{
    let d = variants.drop_last();
    let before = inserted_all(l, d, work);
    let key = normalized(variants[j]);
    let last_key = normalized(variants.last());
    if j < variants.len() - 1 {
        assert(d[j] == variants[j]);
        lemma_inserted_all_keeps(l, d, work, j);
        let old = meanings(before, key);
        if last_key.len() > 0 && last_key == key {
            if !old.contains(work) {
                assert(false);
            }
        }
    } else {
        let old = meanings(before, key);
        if !old.contains(work) {
            assert(old.push(work)[old.len() as int] == work);
        }
    }
    lemma_inserted_all_works(l, variants, work);
}

proof fn lemma_inserted_all_works(l: LexView, variants: Seq<Seq<char>>, work: usize)
    ensures
        inserted_all(l, variants, work).0 == l.0,
    decreases variants.len(),
{
    if variants.len() > 0 {
        lemma_inserted_all_works(l, variants.drop_last(), work);
    }
}

/// A spelling taught with a work finds that work afterwards, however the
/// spelling's gershayim, nikud or final letters are typed: the work with
/// that slug is among what its normal form means.
pub proof fn lemma_taught_spelling_finds_its_work(l: LexView, w: WorkView, variants: Seq<Seq<char>>, j: int)
    requires
        0 <= j < variants.len(),
        normalized(variants[j]).len() > 0,
        l.0.len() < usize::MAX,
    ensures
        ({
            let a = added(l, w, variants);
            let i = with_work(l, w).1;
            &&& 0 <= i < a.0.len()
            &&& a.0[i].0 == w.0
            &&& meanings(a, normalized(variants[j])).contains(i as usize)
        }),
{
    lemma_slug_index(l.0, w.0);
    let (m, i) = with_work(l, w);
    lemma_inserted_all_keeps(m, variants, i as usize, j);
}

/// Every normal form lists each work it means once.
pub open spec fn meanings_once(l: LexView) -> bool {
    forall|k: Seq<char>, i: int, j: int|
        0 <= i < j < meanings(l, k).len() ==> #[trigger] meanings(l, k)[i] != #[trigger] meanings(l, k)[j]
}

proof fn lemma_inserted_once(l: LexView, variant: Seq<char>, work: usize)
    requires
        meanings_once(l),
    ensures
        meanings_once(inserted(l, variant, work)),
{
    let a = inserted(l, variant, work);
    let key = normalized(variant);
    assert forall|k: Seq<char>, i: int, j: int| 0 <= i < j < meanings(a, k).len() implies #[trigger] meanings(a, k)[i]
        != #[trigger] meanings(a, k)[j] by {
        if key.len() > 0 && k == key {
            let old = meanings(l, key);
            if !old.contains(work) {
                let n = old.push(work);
                assert(meanings(a, k) == n);
                if j == old.len() {
                    assert(n[i] == old[i]);
                    assert(n[j] == work);
                } else {
                    assert(n[i] == old[i]);
                    assert(n[j] == old[j]);
                    assert(meanings(l, key)[i] != meanings(l, key)[j]);
                }
            } else {
                assert(meanings(l, key)[i] != meanings(l, key)[j]);
            }
        } else {
            assert(meanings(a, k) == meanings(l, k));
            assert(meanings(l, k)[i] != meanings(l, k)[j]);
        }
    }
}

proof fn lemma_inserted_all_once(l: LexView, variants: Seq<Seq<char>>, work: usize)
    requires
        meanings_once(l),
    ensures
        meanings_once(inserted_all(l, variants, work)),
    decreases variants.len(),
{
    if variants.len() > 0 {
        lemma_inserted_all_once(l, variants.drop_last(), work);
        lemma_inserted_once(inserted_all(l, variants.drop_last(), work), variants.last(), work);
    }
}

/// A lookup never lists a work twice: adding a work and its spellings to a
/// lexicon in which each normal form lists each work once keeps it so, and
/// the empty lexicon is so.
pub proof fn lemma_added_keeps_meanings_once(l: LexView, w: WorkView, variants: Seq<Seq<char>>)
    requires
        meanings_once(l),
    ensures
        meanings_once(added(l, w, variants)),
        meanings_once((Seq::<WorkView>::empty(), Map::<Seq<char>, Seq<usize>>::empty(), 0nat)),
{
    let (m, i) = with_work(l, w);
    assert(m.1 == l.1);
    assert forall|k: Seq<char>, a: int, b: int| 0 <= a < b < meanings(m, k).len() implies #[trigger] meanings(m, k)[a]
        != #[trigger] meanings(m, k)[b] by {
        assert(meanings(m, k) == meanings(l, k));
        assert(meanings(l, k)[a] != meanings(l, k)[b]);
    }
    lemma_inserted_all_once(m, variants, i as usize);
}

proof fn lemma_inserted_all_elsewhere(l: LexView, variants: Seq<Seq<char>>, work: usize, key: Seq<char>)
    requires
        forall|j: int| 0 <= j < variants.len() ==> normalized(#[trigger] variants[j]) != key,
    ensures
        meanings(inserted_all(l, variants, work), key) == meanings(l, key),
    decreases variants.len(),
{
    if variants.len() > 0 {
        let d = variants.drop_last();
        assert forall|j: int| 0 <= j < d.len() implies normalized(#[trigger] d[j]) != key by {
            assert(d[j] == variants[j]);
        }
        lemma_inserted_all_elsewhere(l, d, work, key);
        assert(normalized(variants[variants.len() - 1]) != key);
    }
}

/// Adding a work: the works grow by one unless a work with that slug is
/// already there, and what any other normal form means is unchanged.
pub proof fn lemma_added_effects(l: LexView, w: WorkView, variants: Seq<Seq<char>>, key: Seq<char>)
    ensures
        added(l, w, variants).0.len() == l.0.len() + if slug_index(l.0, w.0) is Some {
            0int
        } else {
            1int
        },
        (forall|j: int| 0 <= j < variants.len() ==> normalized(#[trigger] variants[j]) != key) ==> meanings(
            added(l, w, variants),
            key,
        ) == meanings(l, key),
{
    let (m, i) = with_work(l, w);
    lemma_inserted_all_works(m, variants, i as usize);
    if forall|j: int| 0 <= j < variants.len() ==> normalized(#[trigger] variants[j]) != key {
        lemma_inserted_all_elsewhere(m, variants, i as usize, key);
        assert(meanings(m, key) == meanings(l, key));
    }
}

} // verus!
