//! How printed text falls into words: a citation is words joined by single
//! spaces, and the resolver takes it apart at the spaces again.
use vstd::prelude::*;

use crate::text::{is_ws, join, words};

verus! {

/// A word as `split_whitespace` gives it: nonempty, with no whitespace.
pub open spec fn solid(w: Seq<char>) -> bool {
    w.len() > 0 && forall|j: int| 0 <= j < w.len() ==> !is_ws(#[trigger] w[j])
}

/// Every word of a list is solid.
pub open spec fn all_solid(ws: Seq<Seq<char>>) -> bool {
    forall|i: int| 0 <= i < ws.len() ==> solid(#[trigger] ws[i])
}

pub proof fn lemma_one_word(a: Seq<char>)
    requires
        solid(a),
    ensures
        words(a) == seq![a],
    decreases a.len(),
{
    let d = a.drop_last();
    assert(!is_ws(a[a.len() - 1]));
    if a.len() == 1 {
        assert(d.len() == 0);
        assert(words(d) == Seq::<Seq<char>>::empty());
        assert(seq![a.last()] =~= a);
    } else {
        assert forall|i: int| 0 <= i < d.len() implies !is_ws(#[trigger] d[i]) by {
            assert(d[i] == a[i]);
        }
        lemma_one_word(d);
        assert(!is_ws(a[a.len() - 2]));
        let p = seq![d];
        assert(d.push(a.last()) =~= a);
        assert(p.update(0, d.push(a.last())) =~~= seq![a]);
    }
}

/// A word after a space is a word of its own.
pub proof fn lemma_words_then_word(t: Seq<char>, a: Seq<char>)
    requires
        t.len() > 0,
        !is_ws(t.last()),
        solid(a),
    ensures
        words(t + seq![' '] + a) == words(t).push(a),
    decreases a.len(),
{
    let s = t + seq![' '] + a;
    let x = t + seq![' '];
    assert(x.drop_last() =~= t);
    assert(x.last() == ' ');
    assert(words(x) == words(t));
    assert(!is_ws(a[a.len() - 1]));
    if a.len() == 1 {
        assert(s.drop_last() =~= x);
        assert(s.last() == a[0]);
        assert(s[s.len() - 2] == ' ');
        assert(seq![s.last()] =~= a);
    } else {
        let d = a.drop_last();
        assert forall|i: int| 0 <= i < d.len() implies !is_ws(#[trigger] d[i]) by {
            assert(d[i] == a[i]);
        }
        lemma_words_then_word(t, d);
        assert(s.drop_last() =~= t + seq![' '] + d);
        assert(s.last() == a.last());
        assert(s[s.len() - 2] == d.last());
        assert(!is_ws(d[d.len() - 1]));
        let p = words(t).push(d);
        assert(d.push(a.last()) =~= a);
        assert(p.update(p.len() - 1, p.last().push(a.last())) =~~= words(t).push(a));
    }
}

/// The join of solid words is nonempty and ends in its last word's last
/// character.
pub proof fn lemma_join_last(ws: Seq<Seq<char>>, sep: Seq<char>)
    requires
        ws.len() > 0,
        ws.last().len() > 0,
    ensures
        join(ws, sep).len() > 0,
        join(ws, sep).last() == ws.last().last(),
{
    if ws.len() > 1 {
        assert(join(ws, sep) == join(ws.drop_last(), sep) + sep + ws.last());
    }
}

/// Solid words joined by single spaces fall apart into those words again.
pub proof fn lemma_words_of_join(ws: Seq<Seq<char>>)
    requires
        all_solid(ws),
    ensures
        words(join(ws, seq![' '])) == ws,
    decreases ws.len(),
{
    if ws.len() == 0 {
        assert(join(ws, seq![' ']) == Seq::<char>::empty());
    } else if ws.len() == 1 {
        assert(solid(ws[0]));
        lemma_one_word(ws[0]);
    } else {
        let d = ws.drop_last();
        assert forall|i: int| 0 <= i < d.len() implies solid(#[trigger] d[i]) by {
            assert(d[i] == ws[i]);
        }
        lemma_words_of_join(d);
        assert(solid(ws[ws.len() - 1]));
        assert(solid(d[d.len() - 1]));
        lemma_join_last(d, seq![' ']);
        assert(!is_ws(d.last()[d.last().len() - 1]));
        lemma_words_then_word(join(d, seq![' ']), ws.last());
        assert(d.push(ws.last()) =~= ws);
    }
}

/// Joining two nonempty lists is joining each and the separator between.
pub proof fn lemma_join_concat(a: Seq<Seq<char>>, b: Seq<Seq<char>>, sep: Seq<char>)
    requires
        a.len() > 0,
        b.len() > 0,
    ensures
        join(a + b, sep) == join(a, sep) + sep + join(b, sep),
    decreases b.len(),
{
    let ab = a + b;
    if b.len() == 1 {
        assert(ab.drop_last() =~= a);
        assert(ab.last() == b[0]);
    } else {
        let d = b.drop_last();
        lemma_join_concat(a, d, sep);
        assert(ab.drop_last() =~= a + d);
        assert(ab.last() == b.last());
        assert(join(b, sep) == join(d, sep) + sep + b.last());
        assert(join(a, sep) + sep + (join(d, sep) + sep + b.last()) =~= join(a, sep) + sep + join(d, sep) + sep
            + b.last());
    }
}

/// Two joined lists with a hyphen between them: the hyphen glues the last
/// word of the first to the first word of the second.
pub proof fn lemma_join_hyphen(a: Seq<Seq<char>>, b: Seq<Seq<char>>)
    requires
        a.len() > 0,
        b.len() > 0,
    ensures
        join(a, seq![' ']) + seq!['-'] + join(b, seq![' ']) == join(
            a.drop_last() + seq![a.last() + seq!['-'] + b[0]] + b.drop_first(),
            seq![' '],
        ),
{
    let sp = seq![' '];
    let mid = a.last() + seq!['-'] + b[0];
    let m = seq![mid];
    let a0 = a.drop_last();
    let b0 = b.drop_first();
    assert(a =~= a0 + seq![a.last()]);
    assert(b =~= seq![b[0]] + b0);
    let ja: Seq<char> = if a0.len() == 0 {
        a.last()
    } else {
        join(a0, sp) + sp + a.last()
    };
    assert(join(a, sp) == ja) by {
        if a0.len() > 0 {
            lemma_join_concat(a0, seq![a.last()], sp);
        } else {
            assert(a.len() == 1);
        }
    }
    let jb: Seq<char> = if b0.len() == 0 {
        b[0]
    } else {
        b[0] + sp + join(b0, sp)
    };
    assert(join(b, sp) == jb) by {
        if b0.len() > 0 {
            lemma_join_concat(seq![b[0]], b0, sp);
        } else {
            assert(b.len() == 1);
        }
    }
    let left: Seq<char> = if a0.len() == 0 {
        mid
    } else {
        join(a0, sp) + sp + mid
    };
    assert(join(a0 + m, sp) == left) by {
        if a0.len() > 0 {
            lemma_join_concat(a0, m, sp);
        } else {
            assert(a0 + m =~= m);
        }
    }
    if b0.len() == 0 {
        assert(a0 + m + b0 =~= a0 + m);
        assert(ja + seq!['-'] + jb =~= left);
    } else {
        lemma_join_concat(a0 + m, b0, sp);
        assert(ja + seq!['-'] + jb =~= left + sp + join(b0, sp));
    }
}

/// The words of any text are solid.
pub proof fn lemma_words_solid(s: Seq<char>)
    ensures
        all_solid(words(s)),
    decreases s.len(),
{
    if s.len() > 0 {
        let d = s.drop_last();
        lemma_words_solid(d);
        let p = words(d);
        if is_ws(s.last()) {
        } else if s.len() >= 2 && !is_ws(s[s.len() - 2]) && p.len() > 0 {
            let q = p.update(p.len() - 1, p.last().push(s.last()));
            assert forall|i: int| 0 <= i < q.len() implies solid(#[trigger] q[i]) by {
                if i == p.len() - 1 {
                    assert(solid(p[i]));
                    assert forall|j: int| 0 <= j < q[i].len() implies !is_ws(#[trigger] q[i][j]) by {
                        if j < p[i].len() {
                            assert(q[i][j] == p[i][j]);
                        }
                    }
                } else {
                    assert(q[i] == p[i]);
                }
            }
        } else {
            let q = p.push(seq![s.last()]);
            assert forall|i: int| 0 <= i < q.len() implies solid(#[trigger] q[i]) by {
                if i < p.len() {
                    assert(q[i] == p[i]);
                }
            }
        }
    }
}

/// The join of a list starts with its first word's first character.
pub proof fn lemma_join_first(ws: Seq<Seq<char>>, sep: Seq<char>)
    requires
        ws.len() > 0,
        ws[0].len() > 0,
    ensures
        join(ws, sep).len() > 0,
        join(ws, sep)[0] == ws[0][0],
    decreases ws.len(),
{
    if ws.len() > 1 {
        let d = ws.drop_last();
        assert(d[0] == ws[0]);
        lemma_join_first(d, sep);
    }
}

} // verus!
