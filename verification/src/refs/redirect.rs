//! The redirect table, from day one.
//!
//! Refs travel between the two applications and get stored inside Ksav
//! documents. When upstream re-segments a text, every ref written against the
//! old shape has to keep resolving, or a sefer somebody wrote last year stops
//! compiling correctly.
use vstd::prelude::*;

use crate::refs::reference::{ref_text, ref_value, well_formed, Ref, RefView};
use crate::text::{chars_of, strings};

verus! {

/// A redirect chain longer than this is a cycle somebody built by hand, and
/// following it forever hangs the reader instead of showing them a page.
pub const MAX_REDIRECT_DEPTH: usize = 32;

/// Code-point order on texts, which is the order of their UTF-8 bytes.
pub open spec fn text_less(a: Seq<char>, b: Seq<char>) -> bool
    decreases a.len(),
{
    if a.len() == 0 {
        b.len() > 0
    } else if b.len() == 0 {
        false
    } else if a[0] != b[0] {
        a[0] < b[0]
    } else {
        text_less(a.drop_first(), b.drop_first())
    }
}

pub proof fn lemma_text_less_total(a: Seq<char>, b: Seq<char>)
    ensures
        a == b || text_less(a, b) || text_less(b, a),
        !(text_less(a, b) && text_less(b, a)),
        !text_less(a, a),
    decreases a.len(),
{
    if a.len() > 0 && b.len() > 0 {
        lemma_text_less_total(a.drop_first(), b.drop_first());
        if a[0] == b[0] && a.drop_first() == b.drop_first() {
            assert(a =~= seq![a[0]] + a.drop_first());
            assert(b =~= seq![b[0]] + b.drop_first());
        }
    }
    if a.len() > 0 {
        lemma_text_less_total(a.drop_first(), a.drop_first());
    }
}

pub proof fn lemma_text_less_transitive(a: Seq<char>, b: Seq<char>, c: Seq<char>)
    requires
        text_less(a, b),
        text_less(b, c),
    ensures
        text_less(a, c),
    decreases a.len(),
{
    if a.len() > 0 && b.len() > 0 && c.len() > 0 && a[0] == b[0] && b[0] == c[0] {
        lemma_text_less_transitive(a.drop_first(), b.drop_first(), c.drop_first());
    }
}

/// A table as values: each printed ref that moved, and where it went.
pub type TableView = Map<Seq<char>, Seq<RefView>>;

/// A ref added to a list unless it is already there.
pub open spec fn add_once(out: Seq<RefView>, r: RefView) -> Seq<RefView> {
    if out.contains(r) {
        out
    } else {
        out.push(r)
    }
}

/// Where a ref leads, appended to what was found so far: a ref nobody moved
/// is where it leads; a moved one leads wherever its targets lead, except
/// that a target that is the ref itself is kept rather than followed, which
/// is the ordinary shape of a split. Deeper than the limit leads nowhere.
pub open spec fn walk(m: TableView, r: RefView, depth: nat, out: Seq<RefView>) -> Seq<RefView>
    decreases (MAX_REDIRECT_DEPTH + 1 - depth) as nat, 1nat, 0nat,
{
    if depth > MAX_REDIRECT_DEPTH {
        out
    } else if m.contains_key(ref_text(r)) {
        walk_targets(m, r, m[ref_text(r)], depth, out)
    } else {
        add_once(out, r)
    }
}

/// The targets of a moved ref walked in order.
pub open spec fn walk_targets(m: TableView, r: RefView, ts: Seq<RefView>, depth: nat, out: Seq<RefView>) -> Seq<RefView>
    decreases (MAX_REDIRECT_DEPTH + 1 - depth) as nat, 0nat, ts.len(),
{
    if depth > MAX_REDIRECT_DEPTH || ts.len() == 0 {
        out
    } else {
        let t = ts[0];
        let next = if t == r {
            add_once(out, t)
        } else {
            walk(m, t, depth + 1, out)
        };
        walk_targets(m, r, ts.drop_first(), depth, next)
    }
}

/// Where a ref points now: where its walk leads, or the ref itself when the
/// walk leads nowhere.
pub open spec fn followed(m: TableView, r: RefView) -> Seq<RefView> {
    let w = walk(m, r, 0, Seq::empty());
    if w.len() == 0 {
        seq![r]
    } else {
        w
    }
}

/// Old ref to where it went, kept in ref order.
#[derive(Debug, Clone)]
pub struct RedirectTable {
    entries: Vec<(String, Vec<Ref>)>,
}

pub open spec fn refs_view(v: Seq<Ref>) -> Seq<RefView> {
    v.map_values(|r: Ref| r@)
}

pub open spec fn entry_key(e: (String, Vec<Ref>)) -> Seq<char> {
    e.0@
}

pub open spec fn sorted_keys(e: Seq<(String, Vec<Ref>)>) -> bool {
    forall|i: int, j: int| 0 <= i < j < e.len() ==> text_less(e[i].0@, e[j].0@)
}

/// The map a list of rows describes.
pub open spec fn rows_map(e: Seq<(String, Vec<Ref>)>) -> TableView
    decreases e.len(),
{
    if e.len() == 0 {
        Map::empty()
    } else {
        rows_map(e.drop_last()).insert(e.last().0@, refs_view(e.last().1@))
    }
}

/// One row of the table as it travels between the two applications: both
/// ends are printed refs.
#[derive(Debug, Clone, PartialEq, Eq)]
pub struct Moved {
    pub from: String,
    pub to: Vec<String>,
}

pub open spec fn moved_view(m: Moved) -> (Seq<char>, Seq<Seq<char>>) {
    (m.from@, strings(m.to@))
}

impl View for RedirectTable {
    type V = TableView;

    closed spec fn view(&self) -> TableView {
        rows_map(self.entries@)
    }
}

/// The table read back as rows, in ref order.
pub open spec fn rows_of(m: TableView, rows: Seq<(Seq<char>, Seq<Seq<char>>)>) -> bool {
    &&& rows.len() == m.len()
    &&& forall|k: Seq<char>| #[trigger] m.contains_key(k) ==> exists|i: int| 0 <= i < rows.len() && rows[i].0 == k
    &&& forall|i: int, j: int| 0 <= i < j < rows.len() ==> text_less(rows[i].0, rows[j].0)
    &&& forall|i: int|
        0 <= i < rows.len() ==> m.contains_key(#[trigger] rows[i].0) && rows[i].1 == m[rows[i].0].map_values(
            |t: RefView| ref_text(t),
        )
}

/// The targets of a row that read as refs.
pub open spec fn readable(ts: Seq<Seq<char>>) -> Seq<RefView>
    decreases ts.len(),
{
    if ts.len() == 0 {
        Seq::empty()
    } else {
        match ref_value(ts.last()) {
            Ok(r) => readable(ts.drop_last()).push(r),
            Err(_) => readable(ts.drop_last()),
        }
    }
}

/// A table read off the wire: a row whose source does not read as a ref,
/// or with no target that does, is dropped; the rest are recorded in order.
pub open spec fn read_rows(rows: Seq<(Seq<char>, Seq<Seq<char>>)>) -> TableView
    decreases rows.len(),
{
    if rows.len() == 0 {
        Map::empty()
    } else {
        let m = read_rows(rows.drop_last());
        let row = rows.last();
        match ref_value(row.0) {
            Ok(from) => if readable(row.1).len() > 0 {
                m.insert(ref_text(from), readable(row.1))
            } else {
                m
            },
            Err(_) => m,
        }
    }
}

proof fn lemma_rows_map_lacks(e: Seq<(String, Vec<Ref>)>, k: Seq<char>)
    requires
        forall|i: int| 0 <= i < e.len() ==> e[i].0@ != k,
    ensures
        !rows_map(e).contains_key(k),
    decreases e.len(),
{
    if e.len() > 0 {
        let d = e.drop_last();
        assert forall|i: int| 0 <= i < d.len() implies d[i].0@ != k by {
            assert(d[i] == e[i]);
        }
        lemma_rows_map_lacks(d, k);
    }
}

proof fn lemma_rows_map_has(e: Seq<(String, Vec<Ref>)>, i: int)
    requires
        sorted_keys(e),
        0 <= i < e.len(),
    ensures
        rows_map(e).contains_key(e[i].0@),
        rows_map(e)[e[i].0@] == refs_view(e[i].1@),
    decreases e.len(),
{
    if i < e.len() - 1 {
        let d = e.drop_last();
        assert(d[i] == e[i]);
        lemma_rows_map_has(d, i);
        lemma_text_less_total(e[i].0@, e.last().0@);
    }
}

proof fn lemma_rows_map_domain(e: Seq<(String, Vec<Ref>)>, k: Seq<char>)
    requires
        rows_map(e).contains_key(k),
    ensures
        exists|i: int| 0 <= i < e.len() && e[i].0@ == k,
    decreases e.len(),
{
    if e.len() > 0 && e.last().0@ != k {
        lemma_rows_map_domain(e.drop_last(), k);
        let i = choose|i: int| 0 <= i < e.drop_last().len() && e.drop_last()[i].0@ == k;
        assert(e[i] == e.drop_last()[i]);
    }
}

proof fn lemma_rows_map_len(e: Seq<(String, Vec<Ref>)>)
    requires
        sorted_keys(e),
    ensures
        rows_map(e).len() == e.len(),
        rows_map(e).dom().finite(),
    decreases e.len(),
{
    if e.len() > 0 {
        let d = e.drop_last();
        lemma_rows_map_len(d);
        assert forall|i: int| 0 <= i < d.len() implies d[i].0@ != e.last().0@ by {
            assert(d[i] == e[i]);
            lemma_text_less_total(e[i].0@, e.last().0@);
        }
        lemma_rows_map_lacks(d, e.last().0@);
    }
}

/// The map after one row at index `i` is replaced, or one is put in.
proof fn lemma_rows_map_set(e: Seq<(String, Vec<Ref>)>, i: int, row: (String, Vec<Ref>))
    requires
        sorted_keys(e),
        0 <= i < e.len(),
        e[i].0@ == row.0@,
    ensures
        rows_map(e.update(i, row)) == rows_map(e).insert(row.0@, refs_view(row.1@)),
    decreases e.len(),
{
    let u = e.update(i, row);
    if i == e.len() - 1 {
        assert(u.drop_last() =~= e.drop_last());
        assert(rows_map(e).insert(row.0@, refs_view(row.1@)) =~= rows_map(e.drop_last()).insert(
            row.0@,
            refs_view(row.1@),
        ));
    } else {
        let d = e.drop_last();
        assert(d[i] == e[i]);
        lemma_rows_map_set(d, i, row);
        assert(u.drop_last() =~= d.update(i, row));
        lemma_text_less_total(e[i].0@, e.last().0@);
        assert(rows_map(u) =~= rows_map(e).insert(row.0@, refs_view(row.1@)));
    }
}

proof fn lemma_rows_map_insert(e: Seq<(String, Vec<Ref>)>, i: int, row: (String, Vec<Ref>))
    requires
        0 <= i <= e.len(),
        forall|j: int| 0 <= j < e.len() ==> e[j].0@ != row.0@,
    ensures
        rows_map(e.insert(i, row)) == rows_map(e).insert(row.0@, refs_view(row.1@)),
    decreases e.len(),
{
    let u = e.insert(i, row);
    if i == e.len() {
        assert(u.drop_last() =~= e);
    } else {
        let d = e.drop_last();
        assert forall|j: int| 0 <= j < d.len() implies d[j].0@ != row.0@ by {
            assert(d[j] == e[j]);
        }
        lemma_rows_map_insert(d, i, row);
        assert(u.drop_last() =~= d.insert(i, row));
        assert(u.last() == e.last());
        assert(rows_map(u) =~= rows_map(e).insert(row.0@, refs_view(row.1@)));
    }
}

fn text_lt(a: &[char], b: &[char]) -> (r: bool)
    ensures
        r == text_less(a@, b@),
{
    let mut i: usize = 0;
    assert(a@.skip(0) =~= a@);
    assert(b@.skip(0) =~= b@);
    while i < a.len() && i < b.len() && a[i] == b[i]
        invariant
            i <= a.len(),
            i <= b.len(),
            text_less(a@, b@) == text_less(a@.skip(i as int), b@.skip(i as int)),
        decreases a.len() - i,
    {
        assert(a@.skip(i as int).drop_first() =~= a@.skip(i + 1));
        assert(b@.skip(i as int).drop_first() =~= b@.skip(i + 1));
        i += 1;
    }
    if i == a.len() {
        return i < b.len();
    }
    if i == b.len() {
        return false;
    }
    a[i] < b[i]
}

fn copy_refs(v: &Vec<Ref>) -> (r: Vec<Ref>)
    ensures
        refs_view(r@) == refs_view(v@),
{
    let mut r: Vec<Ref> = Vec::new();
    let mut i: usize = 0;
    while i < v.len()
        invariant
            i <= v.len(),
            refs_view(r@) == refs_view(v@).take(i as int),
        decreases v.len() - i,
    {
        let ghost before = refs_view(r@);
        r.push(v[i].copied());
        assert(refs_view(r@) =~= before.push(v@[i as int]@));
        assert(refs_view(v@).take(i + 1) =~= refs_view(v@).take(i as int).push(v@[i as int]@));
        i += 1;
    }
    assert(refs_view(v@).take(v.len() as int) =~= refs_view(v@));
    r
}

fn contains_ref(v: &Vec<Ref>, r: &Ref) -> (b: bool)
    ensures
        b == refs_view(v@).contains(r@),
{
    let mut i: usize = 0;
    while i < v.len()
        invariant
            i <= v.len(),
            forall|j: int| 0 <= j < i ==> refs_view(v@)[j] != r@,
        decreases v.len() - i,
    {
        if v[i].same(r) {
            assert(refs_view(v@)[i as int] == r@);
            return true;
        }
        i += 1;
    }
    false
}

fn push_once(out: &mut Vec<Ref>, r: &Ref)
    ensures
        refs_view(final(out)@) == add_once(refs_view(old(out)@), r@),
{
    if !contains_ref(out, r) {
        let ghost before = refs_view(out@);
        out.push(r.copied());
        assert(refs_view(out@) =~= before.push(r@));
    }
}

impl RedirectTable {
    /// The rows are kept in ref order, each printed ref once.
    pub closed spec fn wf(self) -> bool {
        sorted_keys(self.entries@)
    }

    pub fn new() -> (t: RedirectTable)
        ensures
            t.wf(),
            t@ == Map::<Seq<char>, Seq<RefView>>::empty(),
    {
        RedirectTable { entries: Vec::new() }
    }

    fn position_of(&self, key: &[char]) -> (r: (usize, bool))
        requires
            self.wf(),
        ensures
            r.0 <= self.entries@.len(),
            forall|j: int| 0 <= j < r.0 ==> text_less(#[trigger] self.entries@[j].0@, key@),
            r.1 ==> r.0 < self.entries@.len() && self.entries@[r.0 as int].0@ == key@,
            !r.1 ==> forall|j: int| r.0 <= j < self.entries@.len() ==> text_less(key@, #[trigger] self.entries@[j].0@),
    {
        let mut i: usize = 0;
        while i < self.entries.len()
            invariant
                self.wf(),
                i <= self.entries@.len(),
                forall|j: int| 0 <= j < i ==> text_less(#[trigger] self.entries@[j].0@, key@),
            decreases self.entries.len() - i,
        {
            let k = chars_of(self.entries[i].0.as_str());
            if !text_lt(k.as_slice(), key) {
                proof {
                    lemma_text_less_total(k@, key@);
                }
                if crate::text::eq_chars(k.as_slice(), key) {
                    return (i, true);
                }
                assert forall|j: int| i <= j < self.entries@.len() implies text_less(key@, #[trigger] self.entries@[j].0@) by {
                    if j > i {
                        lemma_text_less_transitive(key@, self.entries@[i as int].0@, self.entries@[j].0@);
                    }
                }
                return (i, false);
            }
            i += 1;
        }
        (i, false)
    }

    fn record(&mut self, key: String, to: Vec<Ref>)
        requires
            old(self).wf(),
        ensures
            final(self).wf(),
            final(self)@ == old(self)@.insert(key@, refs_view(to@)),
    {
        let k = chars_of(key.as_str());
        let (i, found) = self.position_of(k.as_slice());
        let ghost e = self.entries@;
        if found {
            proof {
                lemma_rows_map_set(e, i as int, (key, to));
            }
            self.entries.set(i, (key, to));
            assert(self.entries@ =~= e.update(i as int, (key, to)));
            assert forall|a: int, b: int| 0 <= a < b < self.entries@.len() implies text_less(self.entries@[a].0@, self.entries@[b].0@) by {
                assert(self.entries@[a].0@ == e[a].0@);
                assert(self.entries@[b].0@ == e[b].0@);
            }
        } else {
            assert forall|j: int| 0 <= j < e.len() implies e[j].0@ != key@ by {
                if j < i {
                    lemma_text_less_total(e[j].0@, key@);
                } else {
                    lemma_text_less_total(key@, e[j].0@);
                }
            }
            proof {
                lemma_rows_map_insert(e, i as int, (key, to));
            }
            self.entries.insert(i, (key, to));
            assert forall|a: int, b: int| 0 <= a < b < self.entries@.len() implies text_less(self.entries@[a].0@, self.entries@[b].0@) by {
                if b < i {
                    assert(self.entries@[a] == e[a]);
                    assert(self.entries@[b] == e[b]);
                } else if b == i {
                    assert(self.entries@[a] == e[a]);
                } else if a < i {
                    assert(self.entries@[a] == e[a]);
                    assert(self.entries@[b] == e[b - 1]);
                    lemma_text_less_transitive(e[a].0@, key@, e[b - 1].0@);
                } else if a == i {
                    assert(self.entries@[b] == e[b - 1]);
                } else {
                    assert(self.entries@[a] == e[a - 1]);
                    assert(self.entries@[b] == e[b - 1]);
                }
            }
        }
    }

    /// Record that `from` is now `to`. More than one target is normal: a
    /// re-segmentation that split a se'if in two means the old ref covers
    /// both.
    pub fn insert(&mut self, from: &Ref, to: Vec<Ref>)
        requires
            old(self).wf(),
        ensures
            final(self).wf(),
            final(self)@ == old(self)@.insert(ref_text(from@), refs_view(to@)),
            final(self)@.dom().finite(),
            final(self)@.len() == old(self)@.len() + if old(self)@.contains_key(ref_text(from@)) {
                0int
            } else {
                1int
            },
    {
        proof {
            lemma_rows_map_len(self.entries@);
        }
        let ghost before = self@;
        self.record(from.to_string(), to);
        proof {
            lemma_rows_map_len(self.entries@);
            let k = ref_text(from@);
            assert(self@.dom() =~= before.dom().insert(k));
            if before.contains_key(k) {
                assert(before.dom().insert(k) =~= before.dom());
            }
        }
    }

    fn targets_of(&self, key: &[char]) -> (r: Option<&Vec<Ref>>)
        requires
            self.wf(),
        ensures
            match r {
                Some(v) => self@.contains_key(key@) && self@[key@] == refs_view(v@),
                None => !self@.contains_key(key@),
            },
    {
        let (i, found) = self.position_of(key);
        if found {
            proof {
                lemma_rows_map_has(self.entries@, i as int);
            }
            Some(&self.entries[i].1)
        } else {
            proof {
                assert forall|j: int| 0 <= j < self.entries@.len() implies self.entries@[j].0@ != key@ by {
                    if j < i {
                        lemma_text_less_total(self.entries@[j].0@, key@);
                    } else {
                        lemma_text_less_total(key@, self.entries@[j].0@);
                    }
                }
                lemma_rows_map_lacks(self.entries@, key@);
            }
            None
        }
    }

    /// Where a ref points now, following the chain. A ref nobody moved
    /// resolves to itself, so every ref can be routed through this.
    pub fn follow(&self, r: &Ref) -> (out: Vec<Ref>)
        requires
            self.wf(),
        ensures
            refs_view(out@) == followed(self@, r@),
    {
        let mut out: Vec<Ref> = Vec::new();
        assert(refs_view(out@) =~= Seq::<RefView>::empty());
        self.follow_into(r, 0, &mut out);
        if out.len() == 0 {
            let mut v: Vec<Ref> = Vec::new();
            v.push(r.copied());
            assert(refs_view(v@) =~= seq![r@]);
            return v;
        }
        out
    }

    fn follow_into(&self, r: &Ref, depth: usize, out: &mut Vec<Ref>)
        requires
            self.wf(),
            depth <= MAX_REDIRECT_DEPTH + 1,
        ensures
            refs_view(final(out)@) == walk(self@, r@, depth as nat, refs_view(old(out)@)),
        decreases MAX_REDIRECT_DEPTH + 1 - depth, 1nat, 0nat,
    {
        if depth > MAX_REDIRECT_DEPTH {
            return;
        }
        let key = r.to_chars();
        match self.targets_of(key.as_slice()) {
            Some(targets) => {
                self.follow_targets(r, targets, 0, depth, out);
                assert(refs_view(targets@).skip(0) =~= refs_view(targets@));
            },
            None => {
                push_once(out, r);
            },
        }
    }

    fn follow_targets(&self, r: &Ref, targets: &Vec<Ref>, k: usize, depth: usize, out: &mut Vec<Ref>)
        requires
            self.wf(),
            depth <= MAX_REDIRECT_DEPTH,
            k <= targets.len(),
        ensures
            refs_view(final(out)@) == walk_targets(
                self@,
                r@,
                refs_view(targets@).skip(k as int),
                depth as nat,
                refs_view(old(out)@),
            ),
        decreases MAX_REDIRECT_DEPTH + 1 - depth, 0nat, targets.len() - k,
    {
        let ghost ts = refs_view(targets@).skip(k as int);
        if k == targets.len() {
            return;
        }
        assert(ts[0] == targets@[k as int]@);
        assert(ts.drop_first() =~= refs_view(targets@).skip(k + 1));
        let t = &targets[k];
        if t.same(r) {
            push_once(out, t);
        } else {
            self.follow_into(t, depth + 1, out);
        }
        self.follow_targets(r, targets, k + 1, depth, out);
    }

    /// Whether this ref has been moved.
    pub fn is_redirected(&self, r: &Ref) -> (b: bool)
        requires
            self.wf(),
        ensures
            b == self@.contains_key(ref_text(r@)),
    {
        let key = r.to_chars();
        self.targets_of(key.as_slice()).is_some()
    }

    /// A table holds finitely many redirects.
    pub proof fn lemma_finite(&self)
        requires
            self.wf(),
        ensures
            self@.dom().finite(),
    {
        lemma_rows_map_len(self.entries@);
    }

    pub fn len(&self) -> (n: usize)
        requires
            self.wf(),
        ensures
            self@.dom().finite(),
            n == self@.len(),
    {
        proof {
            lemma_rows_map_len(self.entries@);
        }
        self.entries.len()
    }

    pub fn is_empty(&self) -> (b: bool)
        requires
            self.wf(),
        ensures
            b == (self@.len() == 0),
    {
        proof {
            lemma_rows_map_len(self.entries@);
        }
        self.entries.len() == 0
    }

    /// Every row, in ref order, ready to travel.
    pub fn rows(&self) -> (rows: Vec<Moved>)
        requires
            self.wf(),
        ensures
            rows_of(self@, rows@.map_values(|m: Moved| moved_view(m))),
    {
        let mut out: Vec<Moved> = Vec::new();
        let mut i: usize = 0;
        proof {
            lemma_rows_map_len(self.entries@);
        }
        while i < self.entries.len()
            invariant
                self.wf(),
                i <= self.entries.len(),
                out@.len() == i,
                forall|j: int| 0 <= j < i ==> #[trigger] moved_view(out@[j]).0 == self.entries@[j].0@
                    && moved_view(out@[j]).1 == refs_view(self.entries@[j].1@).map_values(
                    |t: RefView| ref_text(t),
                ),
            decreases self.entries.len() - i,
        {
            let targets = &self.entries[i].1;
            let mut to: Vec<String> = Vec::new();
            let mut k: usize = 0;
            while k < targets.len()
                invariant
                    k <= targets.len(),
                    strings(to@) == refs_view(targets@).map_values(|t: RefView| ref_text(t)).take(k as int),
                decreases targets.len() - k,
            {
                let ghost before = strings(to@);
                to.push(targets[k].to_string());
                assert(strings(to@) =~= before.push(ref_text(targets@[k as int]@)));
                assert(refs_view(targets@).map_values(|t: RefView| ref_text(t)).take(k + 1) =~= refs_view(targets@).map_values(|t: RefView| ref_text(t)).take(k as int).push(ref_text(targets@[k as int]@)));
                k += 1;
            }
            assert(refs_view(targets@).map_values(|t: RefView| ref_text(t)).take(targets.len() as int) =~= refs_view(targets@).map_values(|t: RefView| ref_text(t)));
            out.push(Moved { from: self.entries[i].0.clone(), to });
            i += 1;
        }
        let ghost rv = out@.map_values(|m: Moved| moved_view(m));
        assert forall|j: int| 0 <= j < rv.len() implies self@.contains_key(#[trigger] rv[j].0) && rv[j].1 == self@[rv[j].0].map_values(|t: RefView| ref_text(t)) by {
            assert(rv[j] == moved_view(out@[j]));
            lemma_rows_map_has(self.entries@, j);
        }
        assert forall|k: Seq<char>| #[trigger] self@.contains_key(k) implies exists|i: int| 0 <= i < rv.len() && rv[i].0 == k by {
            lemma_rows_map_domain(self.entries@, k);
            let i = choose|i: int| 0 <= i < self.entries@.len() && self.entries@[i].0@ == k;
            assert(rv[i] == moved_view(out@[i]));
        }
        out
    }

    /// Read a table back off the wire. A row whose source will not parse is
    /// dropped, a target that will not parse is dropped from its row, and a
    /// row left with no targets is dropped whole.
    pub fn of_rows(rows: &[Moved]) -> (t: RedirectTable)
        ensures
            t.wf(),
            t@ == read_rows(rows@.map_values(|m: Moved| moved_view(m))),
    {
        let ghost rv = rows@.map_values(|m: Moved| moved_view(m));
        let mut table = RedirectTable::new();
        let mut i: usize = 0;
        while i < rows.len()
            invariant
                i <= rows.len(),
                rv == rows@.map_values(|m: Moved| moved_view(m)),
                table.wf(),
                table@ == read_rows(rv.take(i as int)),
            decreases rows.len() - i,
        {
            let row = &rows[i];
            assert(rv.take(i + 1).drop_last() =~= rv.take(i as int));
            assert(rv.take(i + 1).last() == moved_view(*row));
            match Ref::parse(row.from.as_str()) {
                Ok(from) => {
                    let mut to: Vec<Ref> = Vec::new();
                    let mut k: usize = 0;
                    while k < row.to.len()
                        invariant
                            k <= row.to.len(),
                            refs_view(to@) == readable(strings(row.to@).take(k as int)),
                        decreases row.to.len() - k,
                    {
                        assert(strings(row.to@).take(k + 1).drop_last() =~= strings(row.to@).take(k as int));
                        assert(strings(row.to@).take(k + 1).last() == row.to@[k as int]@);
                        match Ref::parse(row.to[k].as_str()) {
                            Ok(t) => {
                                let ghost before = refs_view(to@);
                                to.push(t);
                                assert(refs_view(to@) =~= before.push(t@));
                            },
                            Err(_) => {},
                        }
                        k += 1;
                    }
                    assert(strings(row.to@).take(row.to.len() as int) =~= strings(row.to@));
                    if to.len() > 0 {
                        table.insert(&from, to);
                    }
                },
                Err(_) => {},
            }
            i += 1;
        }
        assert(rv.take(rows.len() as int) =~= rv);
        table
    }
}

impl Default for RedirectTable {
    fn default() -> (t: RedirectTable)
        ensures
            t.wf(),
            t@ == Map::<Seq<char>, Seq<RefView>>::empty(),
    {
        RedirectTable::new()
    }
}

proof fn lemma_readable_texts(ts: Seq<RefView>)
    requires
        forall|i: int| 0 <= i < ts.len() ==> well_formed(#[trigger] ts[i]),
    ensures
        readable(ts.map_values(|t: RefView| ref_text(t))) == ts,
    decreases ts.len(),
{
    if ts.len() > 0 {
        let d = ts.drop_last();
        assert forall|i: int| 0 <= i < d.len() implies well_formed(#[trigger] d[i]) by {
            assert(d[i] == ts[i]);
        }
        lemma_readable_texts(d);
        let texts = ts.map_values(|t: RefView| ref_text(t));
        assert(texts.drop_last() =~= d.map_values(|t: RefView| ref_text(t)));
        assert(well_formed(ts[ts.len() - 1]));
        assert(readable(texts) =~= d.push(ts.last()));
        assert(d.push(ts.last()) =~= ts);
    }
}

/// Rows whose sources read back as themselves, with distinct sources and a
/// target each, read as exactly those rows.
proof fn lemma_read_rows(rows: Seq<(Seq<char>, Seq<Seq<char>>)>)
    requires
        forall|j: int| 0 <= j < rows.len() ==> (ref_value(#[trigger] rows[j].0) matches Ok(x) && ref_text(x)
            == rows[j].0),
        forall|j: int| 0 <= j < rows.len() ==> readable(#[trigger] rows[j].1).len() > 0,
        forall|i: int, j: int| 0 <= i < j < rows.len() ==> rows[i].0 != rows[j].0,
    ensures
        forall|j: int| 0 <= j < rows.len() ==> read_rows(rows).contains_key(#[trigger] rows[j].0)
            && read_rows(rows)[rows[j].0] == readable(rows[j].1),
        forall|k: Seq<char>| #[trigger] read_rows(rows).contains_key(k) ==> exists|j: int| 0 <= j < rows.len() && rows[j].0 == k,
    decreases rows.len(),
{
    if rows.len() > 0 {
        let d = rows.drop_last();
        assert forall|j: int| 0 <= j < d.len() implies (ref_value(#[trigger] d[j].0) matches Ok(x) && ref_text(x)
            == d[j].0) by {
            assert(d[j] == rows[j]);
        }
        assert forall|j: int| 0 <= j < d.len() implies readable(#[trigger] d[j].1).len() > 0 by {
            assert(d[j] == rows[j]);
        }
        assert forall|i: int, j: int| 0 <= i < j < d.len() implies d[i].0 != d[j].0 by {
            assert(d[i] == rows[i]);
            assert(d[j] == rows[j]);
        }
        lemma_read_rows(d);
        let last = rows.len() - 1;
        assert(rows[last] == rows.last());
        assert(ref_value(rows[last].0) matches Ok(x) && ref_text(x) == rows[last].0);
        assert(readable(rows[last].1).len() > 0);
        assert forall|j: int| 0 <= j < rows.len() implies read_rows(rows).contains_key(#[trigger] rows[j].0)
            && read_rows(rows)[rows[j].0] == readable(rows[j].1) by {
            if j < last {
                assert(d[j] == rows[j]);
                assert(rows[j].0 != rows[last].0);
            }
        }
        assert forall|k: Seq<char>| #[trigger] read_rows(rows).contains_key(k) implies exists|j: int| 0 <= j < rows.len() && rows[j].0 == k by {
            if k != rows[last].0 {
                assert(read_rows(d).contains_key(k));
                let j = choose|j: int| 0 <= j < d.len() && d[j].0 == k;
                assert(d[j] == rows[j]);
            }
        }
    }
}

/// A table survives the wire: its rows, read back, are the same table, so
/// long as every ref in it can be written down and read back (a source that
/// reads as itself, targets that are well formed) and every moved ref went
/// somewhere. A row with no targets is dropped on reading, which is where
/// the law stops.
pub proof fn lemma_table_survives_the_wire(m: TableView, rows: Seq<(Seq<char>, Seq<Seq<char>>)>)
    requires
        rows_of(m, rows),
        forall|k: Seq<char>| #[trigger] m.contains_key(k) ==> m[k].len() > 0 && (ref_value(k) matches Ok(x)
            && ref_text(x) == k),
        forall|k: Seq<char>, i: int| m.contains_key(k) && 0 <= i < m[k].len() ==> well_formed(
            #[trigger] m[k][i],
        ),
    ensures
        read_rows(rows) == m,
{
    assert forall|j: int| 0 <= j < rows.len() implies readable(#[trigger] rows[j].1) == m[rows[j].0] by {
        assert(m.contains_key(rows[j].0));
        let ts = m[rows[j].0];
        assert forall|i: int| 0 <= i < ts.len() implies well_formed(#[trigger] ts[i]) by {
            assert(m.contains_key(rows[j].0) && 0 <= i < m[rows[j].0].len());
            assert(well_formed(m[rows[j].0][i]));
        }
        lemma_readable_texts(ts);
    }
    assert forall|i: int, j: int| 0 <= i < j < rows.len() implies rows[i].0 != rows[j].0 by {
        lemma_text_less_total(rows[i].0, rows[j].0);
    }
    assert forall|j: int| 0 <= j < rows.len() implies (ref_value(#[trigger] rows[j].0) matches Ok(x) && ref_text(x)
        == rows[j].0) by {
        assert(m.contains_key(rows[j].0));
    }
    assert forall|j: int| 0 <= j < rows.len() implies readable(#[trigger] rows[j].1).len() > 0 by {
        assert(m.contains_key(rows[j].0));
        assert(readable(rows[j].1) == m[rows[j].0]);
    }
    lemma_read_rows(rows);
    let r = read_rows(rows);
    assert forall|k: Seq<char>| #[trigger] r.contains_key(k) <==> m.contains_key(k) by {
        if r.contains_key(k) {
            let j = choose|j: int| 0 <= j < rows.len() && rows[j].0 == k;
            assert(m.contains_key(rows[j].0));
        }
        if m.contains_key(k) {
            let j = choose|j: int| 0 <= j < rows.len() && rows[j].0 == k;
            assert(r.contains_key(rows[j].0));
        }
    }
    assert forall|k: Seq<char>| #[trigger] r.contains_key(k) implies r[k] == m[k] by {
        let j = choose|j: int| 0 <= j < rows.len() && rows[j].0 == k;
        assert(r[rows[j].0] == readable(rows[j].1));
    }
    assert(r =~= m);
}

/// A ref nobody moved resolves to itself.
pub proof fn lemma_unmoved_is_itself(m: TableView, r: RefView)
    requires
        !m.contains_key(ref_text(r)),
    ensures
        followed(m, r) == seq![r],
{
    assert(Seq::<RefView>::empty().push(r) =~= seq![r]);
}

proof fn lemma_walk_distinct(m: TableView, r: RefView, depth: nat, out: Seq<RefView>)
    requires
        out.no_duplicates(),
    ensures
        walk(m, r, depth, out).no_duplicates(),
    decreases (MAX_REDIRECT_DEPTH + 1 - depth) as nat, 1nat, 0nat,
{
    if depth <= MAX_REDIRECT_DEPTH {
        if m.contains_key(ref_text(r)) {
            lemma_walk_targets_distinct(m, r, m[ref_text(r)], depth, out);
        } else {
            lemma_add_once_distinct(out, r);
        }
    }
}

proof fn lemma_walk_targets_distinct(m: TableView, r: RefView, ts: Seq<RefView>, depth: nat, out: Seq<RefView>)
    requires
        out.no_duplicates(),
    ensures
        walk_targets(m, r, ts, depth, out).no_duplicates(),
    decreases (MAX_REDIRECT_DEPTH + 1 - depth) as nat, 0nat, ts.len(),
{
    if depth <= MAX_REDIRECT_DEPTH && ts.len() > 0 {
        let t = ts[0];
        if t == r {
            lemma_add_once_distinct(out, t);
            lemma_walk_targets_distinct(m, r, ts.drop_first(), depth, add_once(out, t));
        } else {
            lemma_walk_distinct(m, t, depth + 1, out);
            lemma_walk_targets_distinct(m, r, ts.drop_first(), depth, walk(m, t, depth + 1, out));
        }
    }
}

proof fn lemma_add_once_distinct(out: Seq<RefView>, r: RefView)
    requires
        out.no_duplicates(),
    ensures
        add_once(out, r).no_duplicates(),
{
    if !out.contains(r) {
        assert forall|i: int, j: int| 0 <= i < j < out.push(r).len() implies out.push(r)[i] != out.push(r)[j] by {
            if j == out.len() {
                assert(out.push(r)[i] == out[i]);
            } else {
                assert(out.push(r)[i] == out[i]);
                assert(out.push(r)[j] == out[j]);
            }
        }
    }
}

/// Following a ref never lists a place twice, however the table's chains
/// run into each other, and however a cycle was built by hand.
pub proof fn lemma_followed_distinct(m: TableView, r: RefView)
    ensures
        followed(m, r).no_duplicates(),
{
    lemma_walk_distinct(m, r, 0, Seq::empty());
}

/// A ref where a chain of redirects ends: nobody moved it, or it was moved
/// and kept among its own targets, as a split keeps it.
pub open spec fn ends_chain(m: TableView, x: RefView) -> bool {
    !m.contains_key(ref_text(x)) || m[ref_text(x)].contains(x)
}

proof fn lemma_add_once_ends(m: TableView, out: Seq<RefView>, r: RefView)
    requires
        forall|x: RefView| #[trigger] out.contains(x) ==> ends_chain(m, x),
        ends_chain(m, r),
    ensures
        forall|x: RefView| #[trigger] add_once(out, r).contains(x) ==> ends_chain(m, x),
{
    if !out.contains(r) {
        assert forall|x: RefView| #[trigger] out.push(r).contains(x) implies ends_chain(m, x) by {
            let i = choose|i: int| 0 <= i < out.push(r).len() && out.push(r)[i] == x;
            if i < out.len() {
                assert(out[i] == x);
                assert(out.contains(x));
            }
        }
    }
}

proof fn lemma_walk_ends(m: TableView, r: RefView, depth: nat, out: Seq<RefView>)
    requires
        forall|x: RefView| #[trigger] out.contains(x) ==> ends_chain(m, x),
    ensures
        forall|x: RefView| #[trigger] walk(m, r, depth, out).contains(x) ==> ends_chain(m, x),
    decreases (MAX_REDIRECT_DEPTH + 1 - depth) as nat, 1nat, 0nat,
{
    if depth <= MAX_REDIRECT_DEPTH {
        if m.contains_key(ref_text(r)) {
            let ts = m[ref_text(r)];
            assert forall|i: int| 0 <= i < ts.len() implies m[ref_text(r)].contains(#[trigger] ts[i]) by {}
            assert(walk(m, r, depth, out) == walk_targets(m, r, ts, depth, out));
            lemma_walk_targets_ends(m, r, ts, depth, out);
        } else {
            assert(walk(m, r, depth, out) == add_once(out, r));
            lemma_add_once_ends(m, out, r);
        }
    }
}

proof fn lemma_walk_targets_ends(m: TableView, r: RefView, ts: Seq<RefView>, depth: nat, out: Seq<RefView>)
    requires
        forall|x: RefView| #[trigger] out.contains(x) ==> ends_chain(m, x),
        m.contains_key(ref_text(r)),
        forall|i: int| 0 <= i < ts.len() ==> m[ref_text(r)].contains(#[trigger] ts[i]),
    ensures
        forall|x: RefView| #[trigger] walk_targets(m, r, ts, depth, out).contains(x) ==> ends_chain(m, x),
    decreases (MAX_REDIRECT_DEPTH + 1 - depth) as nat, 0nat, ts.len(),
{
    if depth <= MAX_REDIRECT_DEPTH && ts.len() > 0 {
        let t = ts[0];
        let rest = ts.drop_first();
        assert forall|i: int| 0 <= i < rest.len() implies m[ref_text(r)].contains(#[trigger] rest[i]) by {
            assert(rest[i] == ts[i + 1]);
        }
        if t == r {
            assert(m[ref_text(r)].contains(ts[0]));
            assert(walk_targets(m, r, ts, depth, out) == walk_targets(m, r, rest, depth, add_once(out, t)));
            lemma_add_once_ends(m, out, t);
            lemma_walk_targets_ends(m, r, rest, depth, add_once(out, t));
        } else {
            assert(walk_targets(m, r, ts, depth, out) == walk_targets(m, r, rest, depth, walk(m, t, depth + 1, out)));
            lemma_walk_ends(m, t, depth + 1, out);
            lemma_walk_targets_ends(m, r, rest, depth, walk(m, t, depth + 1, out));
        }
    }
}

/// Following a ref follows each chain to its end: every place it gives is
/// one nobody moved, or one its own redirect keeps. Only where every chain
/// runs past the depth limit, as a hand-built cycle does, is the ref given
/// back as it is.
pub proof fn lemma_followed_ends(m: TableView, r: RefView)
    ensures
        walk(m, r, 0, Seq::empty()).len() > 0 ==> forall|x: RefView| #[trigger] followed(m, r).contains(x) ==> ends_chain(m, x),
        walk(m, r, 0, Seq::empty()).len() == 0 ==> followed(m, r) == seq![r],
{
    lemma_walk_ends(m, r, 0, Seq::empty());
}

} // verus!
