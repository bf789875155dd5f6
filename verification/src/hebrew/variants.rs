//! Other surface forms the same word might wear: offered, never applied.
//!
//! This is the relaxation ladder as data. The literal mode calls it to count
//! what a widening would find and shows the number beside the offer; the
//! smart mode calls it to apply one. The transformation and the decision to
//! use it are kept apart here.
use vstd::prelude::*;
use vstd::std_specs::iter::IteratorSpec;

use crate::hebrew::abbrev::{expansions, expansions_of, shipped_entries};
use crate::hebrew::ktiv::{respelled, spellings};
use crate::hebrew::marks::{CANONICAL_GERESH, CANONICAL_GERSHAYIM};
use crate::hebrew::prefix::{peeled, peelings};
use crate::text::{chars_of, string_of, strings};

verus! {

/// Which transformation produced a variant. The declaration order is the
/// ladder order: other forms, then spellings, then abbreviations.
#[derive(Debug, Clone, Copy, PartialEq, Eq, Structural, PartialOrd, Ord, Hash)]
pub enum VariantKind {
    /// Prefixes ו ה ב כ ל מ ש ד peeled off the front: `ובשבת` → `שבת`.
    PrefixPeeled,
    /// Ktiv male and chaser: a `ו` or `י` added or removed: `כהנ` → `כוהנ`.
    KtivSwapped,
    /// The geresh or gershayim removed: `שו"ע` → `שוע`.
    GershayimDropped,
    /// Looked up in the abbreviation table: `שו"ע` → `שולחן ערוך`.
    AbbreviationExpanded,
}

/// Where a kind stands on the ladder.
pub open spec fn rank(k: VariantKind) -> int {
    match k {
        VariantKind::PrefixPeeled => 0,
        VariantKind::KtivSwapped => 1,
        VariantKind::GershayimDropped => 2,
        VariantKind::AbbreviationExpanded => 3,
    }
}

/// Every rung, in ladder order.
pub open spec fn ladder() -> Seq<VariantKind> {
    seq![
        VariantKind::PrefixPeeled,
        VariantKind::KtivSwapped,
        VariantKind::GershayimDropped,
        VariantKind::AbbreviationExpanded,
    ]
}

pub open spec fn kind_label(k: VariantKind) -> &'static str {
    match k {
        VariantKind::PrefixPeeled => "other forms",
        VariantKind::KtivSwapped => "other spellings",
        VariantKind::GershayimDropped => "without gershayim",
        VariantKind::AbbreviationExpanded => "expand abbreviations",
    }
}

impl VariantKind {
    /// Every rung, in ladder order.
    pub const ALL: [VariantKind; 4] = [
        VariantKind::PrefixPeeled,
        VariantKind::KtivSwapped,
        VariantKind::GershayimDropped,
        VariantKind::AbbreviationExpanded,
    ];

    /// How this rung is described to a reader, for the offer chip.
    pub fn label(self) -> (s: &'static str)
        ensures
            s == kind_label(self),
    {
        match self {
            VariantKind::PrefixPeeled => "other forms",
            VariantKind::KtivSwapped => "other spellings",
            VariantKind::GershayimDropped => "without gershayim",
            VariantKind::AbbreviationExpanded => "expand abbreviations",
        }
    }
}

/// A word with every geresh and gershayim taken out.
pub open spec fn without_quote_marks(w: Seq<char>) -> Seq<char>
    decreases w.len(),
{
    if w.len() == 0 {
        Seq::empty()
    } else {
        let p = without_quote_marks(w.drop_last());
        if w.last() == '\'' || w.last() == '"' {
            p
        } else {
            p.push(w.last())
        }
    }
}

/// What one rung produces for a word, before anything is turned away.
pub open spec fn rung_forms(k: VariantKind, w: Seq<char>) -> Seq<Seq<char>> {
    match k {
        VariantKind::PrefixPeeled => peeled(w),
        VariantKind::KtivSwapped => respelled(w),
        VariantKind::GershayimDropped => seq![without_quote_marks(w)],
        VariantKind::AbbreviationExpanded => expansions(shipped_entries(), w),
    }
}

/// The forms a rung is allowed to offer: nonempty, not the word itself, and
/// each once.
pub open spec fn admitted(c: Seq<Seq<char>>, w: Seq<char>) -> Seq<Seq<char>>
    decreases c.len(),
{
    if c.len() == 0 {
        Seq::empty()
    } else {
        let p = admitted(c.drop_last(), w);
        let x = c.last();
        if x.len() == 0 || x == w || p.contains(x) {
            p
        } else {
            p.push(x)
        }
    }
}

/// A rung's offers, labelled with the rung.
pub open spec fn labelled(k: VariantKind, forms: Seq<Seq<char>>) -> Seq<(VariantKind, Seq<char>)> {
    forms.map_values(|f: Seq<char>| (k, f))
}

/// The ladder climbed through its first `n` rungs, skipping rungs not asked for.
pub open spec fn climbed(w: Seq<char>, kinds: Seq<VariantKind>, n: int) -> Seq<
    (VariantKind, Seq<char>),
>
    decreases n,
{
    if n <= 0 {
        Seq::empty()
    } else {
        let k = ladder()[n - 1];
        let p = climbed(w, kinds, n - 1);
        if kinds.contains(k) {
            p + labelled(k, admitted(rung_forms(k, w), w))
        } else {
            p
        }
    }
}

/// Every variant a word has on the asked-for rungs, in ladder order.
pub open spec fn variant_list(w: Seq<char>, kinds: Seq<VariantKind>) -> Seq<(VariantKind, Seq<char>)> {
    climbed(w, kinds, 4)
}

/// The forms of one kind, in order.
pub open spec fn of_kind(v: Seq<(VariantKind, Seq<char>)>, k: VariantKind) -> Seq<Seq<char>>
    decreases v.len(),
{
    if v.len() == 0 {
        Seq::empty()
    } else {
        let p = of_kind(v.drop_last(), k);
        if v.last().0 == k {
            p.push(v.last().1)
        } else {
            p
        }
    }
}

/// Each form once, whatever produced it, in first-seen order.
pub open spec fn distinct(v: Seq<(VariantKind, Seq<char>)>) -> Seq<Seq<char>>
    decreases v.len(),
{
    if v.len() == 0 {
        Seq::empty()
    } else {
        let p = distinct(v.drop_last());
        if p.contains(v.last().1) {
            p
        } else {
            p.push(v.last().1)
        }
    }
}

/// The rungs that offer anything, with how much, in ladder order.
pub open spec fn rung_counts(v: Seq<(VariantKind, Seq<char>)>, n: int) -> Seq<(VariantKind, usize)>
    decreases n,
{
    if n <= 0 {
        Seq::empty()
    } else {
        let k = ladder()[n - 1];
        let p = rung_counts(v, n - 1);
        if of_kind(v, k).len() > 0 {
            p.push((k, of_kind(v, k).len() as usize))
        } else {
            p
        }
    }
}

/// The variants of one word, each labelled with what produced it.
#[derive(Debug, Clone, PartialEq, Eq)]
pub struct VariantSet {
    forms: Vec<(VariantKind, String)>,
}

pub open spec fn form_view(f: (VariantKind, String)) -> (VariantKind, Seq<char>) {
    (f.0, f.1@)
}

impl View for VariantSet {
    type V = Seq<(VariantKind, Seq<char>)>;

    closed spec fn view(&self) -> Seq<(VariantKind, Seq<char>)> {
        self.forms@.map_values(|f: (VariantKind, String)| form_view(f))
    }
}

impl Default for VariantSet {
    fn default() -> (s: Self)
        ensures
            s@ == Seq::<(VariantKind, Seq<char>)>::empty(),
    {
        let s = VariantSet { forms: Vec::new() };
        assert(s@ =~= Seq::<(VariantKind, Seq<char>)>::empty());
        s
    }
}

impl VariantSet {
    /// Every variant, with its kind, in ladder order.
    pub fn iter(&self) -> (it: std::vec::IntoIter<(VariantKind, &str)>)
        ensures
            it.remaining().map_values(|p: (VariantKind, &str)| (p.0, p.1@)) == self@,
    {
        let mut out: Vec<(VariantKind, &str)> = Vec::new();
        let mut i: usize = 0;
        while i < self.forms.len()
            invariant
                i <= self.forms.len(),
                out@.map_values(|p: (VariantKind, &str)| (p.0, p.1@)) == self@.take(i as int),
            decreases self.forms.len() - i,
        {
            let ghost before = out@.map_values(|p: (VariantKind, &str)| (p.0, p.1@));
            out.push((self.forms[i].0, self.forms[i].1.as_str()));
            assert(self@[i as int] == form_view(self.forms@[i as int]));
            assert(out@.map_values(|p: (VariantKind, &str)| (p.0, p.1@)) =~= before.push(
                self@[i as int],
            ));
            assert(self@.take(i + 1) =~= self@.take(i as int).push(self@[i as int]));
            i += 1;
        }
        assert(self@.take(self.forms.len() as int) =~= self@);
        let it = out.into_iter();
        assert(it.remaining() == out@);
        it
    }

    fn kind_list(&self, kind: VariantKind) -> (out: Vec<&str>)
        ensures
            out@.map_values(|s: &str| s@) == of_kind(self@, kind),
    {
        let mut out: Vec<&str> = Vec::new();
        let mut i: usize = 0;
        while i < self.forms.len()
            invariant
                i <= self.forms.len(),
                out@.map_values(|s: &str| s@) == of_kind(self@.take(i as int), kind),
            decreases self.forms.len() - i,
        {
            let ghost before = out@.map_values(|s: &str| s@);
            assert(self@.take(i + 1).drop_last() =~= self@.take(i as int));
            assert(self@[i as int] == form_view(self.forms@[i as int]));
            if self.forms[i].0 == kind {
                out.push(self.forms[i].1.as_str());
                assert(out@.map_values(|s: &str| s@) =~= before.push(self.forms@[i as int].1@));
            }
            i += 1;
        }
        assert(self@.take(self.forms.len() as int) =~= self@);
        out
    }

    /// Just the forms produced by one rung of the ladder.
    pub fn forms_of_kind(&self, kind: VariantKind) -> (it: std::vec::IntoIter<&str>)
        ensures
            it.remaining().map_values(|s: &str| s@) == of_kind(self@, kind),
    {
        let out = self.kind_list(kind);
        let it = out.into_iter();
        assert(it.remaining() == out@);
        it
    }

    /// How many variants each rung would add, for the rungs that add any, in
    /// ladder order. They come from the same list that applying a rung
    /// would use, so the promise and the result cannot disagree.
    pub fn counts(&self) -> (c: Vec<(VariantKind, usize)>)
        ensures
            c@ == rung_counts(self@, 4),
    {
        let mut out: Vec<(VariantKind, usize)> = Vec::new();
        let mut i: usize = 0;
        while i < 4
            invariant
                i <= 4,
                out@ == rung_counts(self@, i as int),
            decreases 4 - i,
        {
            let kind = VariantKind::ALL[i];
            assert(kind == ladder()[i as int]);
            let n = self.kind_list(kind).len();
            if n > 0 {
                out.push((kind, n));
            }
            i += 1;
        }
        out
    }

    /// Whether there is anything to offer at all.
    pub fn is_empty(&self) -> (b: bool)
        ensures
            b == (self@.len() == 0),
    {
        self.forms.len() == 0
    }

    /// How many variants there are in total.
    pub fn len(&self) -> (n: usize)
        ensures
            n == self@.len(),
    {
        self.forms.len()
    }

    /// Every distinct form, whatever produced it: what a caller runs when it
    /// applies more than one rung at once.
    pub fn distinct_forms(&self) -> (out: Vec<&str>)
        ensures
            out@.map_values(|s: &str| s@) == distinct(self@),
    {
        let mut out: Vec<&str> = Vec::new();
        let mut i: usize = 0;
        while i < self.forms.len()
            invariant
                i <= self.forms.len(),
                out@.map_values(|s: &str| s@) == distinct(self@.take(i as int)),
            decreases self.forms.len() - i,
        {
            let ghost before = out@.map_values(|s: &str| s@);
            assert(self@.take(i + 1).drop_last() =~= self@.take(i as int));
            assert(self@[i as int] == form_view(self.forms@[i as int]));
            let form = self.forms[i].1.as_str();
            let mut seen = false;
            let mut j: usize = 0;
            while j < out.len()
                invariant
                    j <= out.len(),
                    seen == exists|m: int| 0 <= m < j && out@[m]@ == form@,
                decreases out.len() - j,
            {
                if crate::text::same_text(out[j], form) {
                    seen = true;
                }
                j += 1;
            }
            assert(seen == before.contains(form@)) by {
                if seen {
                    let m = choose|m: int| 0 <= m < out.len() && out@[m]@ == form@;
                    assert(before[m] == form@);
                }
                if before.contains(form@) {
                    let m = choose|m: int| 0 <= m < before.len() && before[m] == form@;
                    assert(out@[m]@ == form@);
                }
            }
            if !seen {
                out.push(form);
                assert(out@.map_values(|s: &str| s@) =~= before.push(form@));
            }
            i += 1;
        }
        assert(self@.take(self.forms.len() as int) =~= self@);
        out
    }

    fn push(&mut self, kind: VariantKind, form: String, original: &[char])
        ensures
            final(self)@ == if form@.len() == 0 || form@ == original@ || old(self)@.contains(
                (kind, form@),
            ) {
                old(self)@
            } else {
                old(self)@.push((kind, form@))
            },
    {
        let f = chars_of(form.as_str());
        if f.len() == 0 || crate::text::eq_chars(f.as_slice(), original) {
            return;
        }
        let mut i: usize = 0;
        while i < self.forms.len()
            invariant
                i <= self.forms.len(),
                f@ == form@,
                forall|j: int| 0 <= j < i ==> self@[j] != (kind, form@),
            decreases self.forms.len() - i,
        {
            assert(self@[i as int] == form_view(self.forms@[i as int]));
            if self.forms[i].0 == kind && crate::text::same_text(self.forms[i].1.as_str(), form.as_str()) {
                return;
            }
            i += 1;
        }
        let ghost before = self@;
        self.forms.push((kind, form));
        assert(self@ =~= before.push((kind, f@)));
    }
}

/// A word with its quote marks dropped.
pub fn drop_quote_marks(w: &[char]) -> (r: Vec<char>)
    ensures
        r@ == without_quote_marks(w@),
{
    let mut r: Vec<char> = Vec::new();
    let mut i: usize = 0;
    while i < w.len()
        invariant
            i <= w.len(),
            r@ == without_quote_marks(w@.take(i as int)),
        decreases w.len() - i,
    {
        assert(w@.take(i + 1).drop_last() =~= w@.take(i as int));
        if w[i] != CANONICAL_GERESH && w[i] != CANONICAL_GERSHAYIM {
            r.push(w[i]);
        }
        i += 1;
    }
    assert(w@.take(w.len() as int) =~= w@);
    r
}

/// Every variant of a word, across every rung of the ladder.
///
/// The word is taken as given, character for character; it is not
/// normalized first.
pub fn variants(word: &str) -> (set: VariantSet)
    ensures
        set@ == variant_list(word@, ladder()),
{
    let all = VariantKind::ALL;
    let set = variants_with(word, &all);
    assert(all@ =~= ladder());
    set
}

/// The rung a kind stands on produces these forms for a word.
fn rung(kind: VariantKind, word: &str) -> (forms: Vec<String>)
    ensures
        strings(forms@) == rung_forms(kind, word@),
{
    match kind {
        VariantKind::PrefixPeeled => peelings(word),
        VariantKind::KtivSwapped => spellings(word),
        VariantKind::GershayimDropped => {
            let w = chars_of(word);
            let bare = drop_quote_marks(w.as_slice());
            let mut v: Vec<String> = Vec::new();
            v.push(string_of(bare.as_slice()));
            assert(strings(v@) =~= seq![without_quote_marks(word@)]);
            v
        },
        VariantKind::AbbreviationExpanded => expansions_of(word),
    }
}

proof fn lemma_climbed_kinds(w: Seq<char>, kinds: Seq<VariantKind>, n: int)
    requires
        0 <= n <= 4,
    ensures
        forall|i: int|
            0 <= i < climbed(w, kinds, n).len() ==> rank(#[trigger] climbed(w, kinds, n)[i].0) < n,
    decreases n,
{
    if n > 0 {
        lemma_climbed_kinds(w, kinds, n - 1);
        let k = ladder()[n - 1];
        assert(rank(k) == n - 1);
        let p = climbed(w, kinds, n - 1);
        if kinds.contains(k) {
            let l = labelled(k, admitted(rung_forms(k, w), w));
            let c = p + l;
            assert forall|i: int| 0 <= i < c.len() implies rank(#[trigger] c[i].0) < n by {
                if i >= p.len() {
                    assert(c[i] == l[i - p.len()]);
                } else {
                    assert(c[i] == p[i]);
                }
            }
        }
    }
}

/// [`variants`], restricted to the given rungs. The ladder is climbed in its
/// own order, not the order `kinds` is written in.
pub fn variants_with(word: &str, kinds: &[VariantKind]) -> (set: VariantSet)
    ensures
        set@ == variant_list(word@, kinds@),
{
    let w = chars_of(word);
    let mut set = VariantSet::default();
    let mut r: usize = 0;
    while r < 4
        invariant
            r <= 4,
            w@ == word@,
            set@ == climbed(word@, kinds@, r as int),
        decreases 4 - r,
    {
        let kind = VariantKind::ALL[r];
        assert(kind == ladder()[r as int]);
        let mut asked = false;
        let mut q: usize = 0;
        while q < kinds.len()
            invariant
                q <= kinds.len(),
                asked == exists|m: int| 0 <= m < q && kinds@[m] == kind,
            decreases kinds.len() - q,
        {
            if kinds[q] == kind {
                asked = true;
            }
            q += 1;
        }
        assert(asked == kinds@.contains(kind));
        if asked {
            let forms = rung(kind, word);
            let ghost base = set@;
            proof {
                lemma_climbed_kinds(word@, kinds@, r as int);
            }
            let mut i: usize = 0;
            while i < forms.len()
                invariant
                    i <= forms.len(),
                    w@ == word@,
                    r < 4,
                    kind == ladder()[r as int],
                    strings(forms@) == rung_forms(kind, word@),
                    base == climbed(word@, kinds@, r as int),
                    forall|m: int| 0 <= m < base.len() ==> rank(#[trigger] base[m].0) < r,
                    set@ == base + labelled(kind, admitted(strings(forms@).take(i as int), word@)),
                decreases forms.len() - i,
            {
                let ghost c = strings(forms@).take(i + 1);
                let ghost a = admitted(strings(forms@).take(i as int), word@);
                assert(c.drop_last() =~= strings(forms@).take(i as int));
                assert(c.last() == forms@[i as int]@);
                assert(set@.contains((kind, forms@[i as int]@)) == a.contains(forms@[i as int]@))
                    by {
                    let x = forms@[i as int]@;
                    let l = labelled(kind, a);
                    if a.contains(x) {
                        let m = choose|m: int| 0 <= m < a.len() && a[m] == x;
                        assert(set@[base.len() + m] == (kind, x));
                    }
                    if set@.contains((kind, x)) {
                        let m = choose|m: int| 0 <= m < set@.len() && set@[m] == (kind, x);
                        if m < base.len() {
                            assert(rank(base[m].0) < r);
                        } else {
                            assert(l[m - base.len()] == (kind, x));
                            assert(a[m - base.len()] == x);
                        }
                    }
                }
                let form = forms[i].clone();
                set.push(kind, form, w.as_slice());
                assert(set@ =~= base + labelled(kind, admitted(c, word@)));
                i += 1;
            }
            assert(strings(forms@).take(forms.len() as int) =~= strings(forms@));
        }
        r += 1;
    }
    set
}

/// Within one rung no form is offered twice, no form is empty, and no form
/// is the word itself.
pub proof fn lemma_admitted_forms(c: Seq<Seq<char>>, w: Seq<char>)
    ensures
        forall|i: int, j: int|
            0 <= i < j < admitted(c, w).len() ==> admitted(c, w)[i] != admitted(c, w)[j],
        forall|i: int|
            0 <= i < admitted(c, w).len() ==> (#[trigger] admitted(c, w)[i]).len() > 0
                && admitted(c, w)[i] != w,
    decreases c.len(),
{
    if c.len() > 0 {
        lemma_admitted_forms(c.drop_last(), w);
        let p = admitted(c.drop_last(), w);
        let x = c.last();
        if !(x.len() == 0 || x == w || p.contains(x)) {
            let q = p.push(x);
            assert forall|i: int, j: int| 0 <= i < j < q.len() implies q[i] != q[j] by {
                if j == q.len() - 1 {
                    assert(q[i] == p[i]);
                }
            }
            assert forall|i: int| 0 <= i < q.len() implies (#[trigger] q[i]).len() > 0 && q[i]
                != w by {
                if i < p.len() {
                    assert(q[i] == p[i]);
                }
            }
        }
    }
}

proof fn lemma_of_kind_concat(a: Seq<(VariantKind, Seq<char>)>, b: Seq<(VariantKind, Seq<char>)>, k: VariantKind)
    ensures
        of_kind(a + b, k) == of_kind(a, k) + of_kind(b, k),
    decreases b.len(),
{
    if b.len() == 0 {
        assert(a + b =~= a);
        assert(of_kind(a, k) + of_kind(b, k) =~= of_kind(a, k));
    } else {
        lemma_of_kind_concat(a, b.drop_last(), k);
        assert((a + b).drop_last() =~= a + b.drop_last());
        assert((a + b).last() == b.last());
        if b.last().0 == k {
            assert(of_kind(a, k) + of_kind(b.drop_last(), k).push(b.last().1) =~= (of_kind(a, k)
                + of_kind(b.drop_last(), k)).push(b.last().1));
        }
    }
}

proof fn lemma_of_kind_labelled(j: VariantKind, f: Seq<Seq<char>>, k: VariantKind)
    ensures
        of_kind(labelled(j, f), k) == if j == k {
            f
        } else {
            Seq::empty()
        },
    decreases f.len(),
{
    if f.len() > 0 {
        lemma_of_kind_labelled(j, f.drop_last(), k);
        assert(labelled(j, f).drop_last() =~= labelled(j, f.drop_last()));
        assert(f.drop_last().push(f.last()) =~= f);
    } else {
        assert(labelled(j, f) =~= Seq::<(VariantKind, Seq<char>)>::empty());
    }
}

proof fn lemma_climbed_of_kind(w: Seq<char>, kinds: Seq<VariantKind>, n: int, k: VariantKind)
    requires
        0 <= n <= 4,
    ensures
        of_kind(climbed(w, kinds, n), k) == if rank(k) < n && kinds.contains(k) {
            admitted(rung_forms(k, w), w)
        } else {
            Seq::empty()
        },
    decreases n,
{
    if n > 0 {
        lemma_climbed_of_kind(w, kinds, n - 1, k);
        let j = ladder()[n - 1];
        assert(rank(j) == n - 1);
        assert(rank(k) == n - 1 ==> j == k);
        if kinds.contains(j) {
            let f = admitted(rung_forms(j, w), w);
            lemma_of_kind_concat(climbed(w, kinds, n - 1), labelled(j, f), k);
            lemma_of_kind_labelled(j, f, k);
            assert(Seq::<Seq<char>>::empty() + f =~= f);
            assert(of_kind(climbed(w, kinds, n - 1), k) + Seq::<Seq<char>>::empty() =~= of_kind(
                climbed(w, kinds, n - 1),
                k,
            ));
        }
    } else {
        assert(of_kind(climbed(w, kinds, 0), k) =~= Seq::<Seq<char>>::empty());
    }
}

proof fn lemma_climbed_asked(w: Seq<char>, kinds: Seq<VariantKind>, n: int)
    requires
        0 <= n <= 4,
    ensures
        forall|i: int|
            0 <= i < climbed(w, kinds, n).len() ==> kinds.contains(
                #[trigger] climbed(w, kinds, n)[i].0,
            ),
    decreases n,
{
    if n > 0 {
        lemma_climbed_asked(w, kinds, n - 1);
        let k = ladder()[n - 1];
        let p = climbed(w, kinds, n - 1);
        if kinds.contains(k) {
            let l = labelled(k, admitted(rung_forms(k, w), w));
            let c = p + l;
            assert forall|i: int| 0 <= i < c.len() implies kinds.contains(#[trigger] c[i].0) by {
                if i >= p.len() {
                    assert(c[i] == l[i - p.len()]);
                } else {
                    assert(c[i] == p[i]);
                }
            }
        }
    }
}

/// What each rung of a word's variants holds: exactly what that rung admits
/// if it was asked for, and nothing otherwise. Every variant comes from a
/// rung that was asked for, and within a rung no form is empty, none is the
/// word itself, and none is offered twice.
pub proof fn lemma_variant_rungs(w: Seq<char>, kinds: Seq<VariantKind>, k: VariantKind)
    ensures
        of_kind(variant_list(w, kinds), k) == if kinds.contains(k) {
            admitted(rung_forms(k, w), w)
        } else {
            Seq::empty()
        },
        forall|i: int|
            0 <= i < variant_list(w, kinds).len() ==> kinds.contains(
                #[trigger] variant_list(w, kinds)[i].0,
            ),
        forall|i: int, j: int|
            0 <= i < j < of_kind(variant_list(w, kinds), k).len() ==> of_kind(
                variant_list(w, kinds),
                k,
            )[i] != of_kind(variant_list(w, kinds), k)[j],
        forall|i: int|
            0 <= i < of_kind(variant_list(w, kinds), k).len() ==> (#[trigger] of_kind(
                variant_list(w, kinds),
                k,
            )[i]).len() > 0 && of_kind(variant_list(w, kinds), k)[i] != w,
{
    lemma_climbed_of_kind(w, kinds, 4, k);
    lemma_climbed_asked(w, kinds, 4);
    lemma_admitted_forms(rung_forms(k, w), w);
}

/// The distinct forms of a set of variants: none twice, each a form of the
/// set and each form of the set among them, and no more of them than there
/// are variants.
pub proof fn lemma_distinct_forms(v: Seq<(VariantKind, Seq<char>)>)
    ensures
        forall|i: int, j: int| 0 <= i < j < distinct(v).len() ==> distinct(v)[i] != distinct(v)[j],
        forall|x: Seq<char>| #[trigger] distinct(v).contains(x) <==> exists|k: int| 0 <= k < v.len() && v[k].1 == x,
        distinct(v).len() <= v.len(),
    decreases v.len(),
{
    if v.len() > 0 {
        let d = v.drop_last();
        lemma_distinct_forms(d);
        let p = distinct(d);
        assert forall|x: Seq<char>| #[trigger] distinct(v).contains(x) <==> exists|k: int| 0 <= k < v.len() && v[k].1 == x by {
            if distinct(v).contains(x) {
                if p.contains(x) {
                    let k = choose|k: int| 0 <= k < d.len() && d[k].1 == x;
                    assert(v[k] == d[k]);
                } else {
                    assert(x == v.last().1);
                    assert(v[v.len() - 1].1 == x);
                }
            }
            if exists|k: int| 0 <= k < v.len() && v[k].1 == x {
                let k = choose|k: int| 0 <= k < v.len() && v[k].1 == x;
                if k < d.len() {
                    assert(d[k] == v[k]);
                    assert(p.contains(x));
                    if !p.contains(v.last().1) {
                        let i = choose|i: int| 0 <= i < p.len() && p[i] == x;
                        assert(p.push(v.last().1)[i] == x);
                    }
                } else {
                    if !p.contains(v.last().1) {
                        assert(p.push(v.last().1)[p.len() as int] == x);
                    }
                }
            }
        }
    }
}

} // verus!
