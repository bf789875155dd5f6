//! A Hebrew address as printed, taken apart the way the resolver takes it
//! apart: into words at the spaces, into tokens at the commas, and read
//! token by token.
use vstd::prelude::*;

use crate::cite::spacing::{all_solid, lemma_join_concat, lemma_join_last, lemma_words_of_join, solid};
use crate::cite::{
    ends_a_daf, level_separator, level_word, printed_address, printed_levels, words_apply, written_level,
    CiteStyle,
};
use crate::hebrew::normalize::{lemma_join_extend_last, normalized};
use crate::refs::daf::{amud_alef, amud_beis};
use crate::refs::resolve::{
    address_step, address_walk, all_tokens, citation_address, label_token, nonempty, pieces,
    token_level, token_numbered, tokens, word_tokens,
};
use crate::text::{is_ws, join, trim};

verus! {

/// Text that the resolver takes as one token: a solid word with no comma
/// or hyphen in it, and a colon, if any, only at its end.
pub open spec fn token_shaped(w: Seq<char>) -> bool {
    &&& solid(w)
    &&& forall|j: int|
        0 <= j < w.len() ==> #[trigger] w[j] != ',' && w[j] != '-' && (w[j] == ':' ==> j == w.len() - 1)
}

/// A token the resolver reads, on its own, as the level `l`: not a label,
/// not an amud, and a level that is `l`.
#[verifier::opaque]
pub open spec fn reads_as(w: Seq<char>, l: Seq<char>) -> bool {
    &&& !label_token(w)
    &&& normalized(w) != amud_alef()
    &&& normalized(w) != amud_beis()
    &&& token_level(w) == Some(l)
}

/// A printed level that the resolver takes as one token and reads as the
/// level `l`.
pub open spec fn reads_alone(w: Seq<char>, l: Seq<char>) -> bool {
    token_shaped(w) && reads_as(w, l)
}

/// A token the resolver takes as a label and drops.
#[verifier::opaque]
pub open spec fn is_label(s: Seq<char>) -> bool {
    label_token(s)
}

/// A level word that the resolver takes as one token, a label it drops.
pub open spec fn reads_as_label(s: Seq<char>) -> bool {
    token_shaped(s) && is_label(s)
}

/// The words a level is printed as: its level word, when one is printed,
/// then the level.
pub open spec fn piece_words(sections: Seq<Seq<char>>, levels: Seq<Seq<char>>, style: CiteStyle, k: int) -> Seq<
    Seq<char>,
> {
    let w = written_level(levels[k], style);
    if words_apply(sections, levels, style) && 0 <= k < sections.len() {
        seq![trim(sections[k]), w]
    } else {
        seq![w]
    }
}

/// The words the first `k` levels of a Hebrew address are printed as: in
/// the short style a comma rides on the level before, unless that level
/// was a daf.
pub open spec fn printed_words(sections: Seq<Seq<char>>, levels: Seq<Seq<char>>, style: CiteStyle, k: int) -> Seq<
    Seq<char>,
>
    decreases k,
{
    if k <= 0 {
        Seq::empty()
    } else {
        let p = printed_words(sections, levels, style, k - 1);
        let q = if style == CiteStyle::HebrewShort && p.len() > 0 && !ends_a_daf(p.last()) {
            p.update(p.len() - 1, p.last().push(','))
        } else {
            p
        };
        q + piece_words(sections, levels, style, k - 1)
    }
}

/// The tokens the first `k` levels are read as: each level word, then each
/// level.
pub open spec fn printed_tokens(sections: Seq<Seq<char>>, levels: Seq<Seq<char>>, style: CiteStyle, k: int) -> Seq<
    Seq<char>,
>
    decreases k,
{
    if k <= 0 {
        Seq::empty()
    } else {
        printed_tokens(sections, levels, style, k - 1) + piece_words(sections, levels, style, k - 1)
    }
}

/// The level words a Hebrew address prints are labels the resolver drops.
pub open spec fn labels_read(sections: Seq<Seq<char>>, levels: Seq<Seq<char>>, style: CiteStyle) -> bool {
    words_apply(sections, levels, style) ==> forall|d: int|
        0 <= d < levels.len() ==> reads_as_label(#[trigger] trim(sections[d]))
}

/// Each level of an address, printed, reads alone as itself.
pub open spec fn levels_read(levels: Seq<Seq<char>>, style: CiteStyle) -> bool {
    forall|k: int| 0 <= k < levels.len() ==> reads_alone(written_level(#[trigger] levels[k], style), levels[k])
}

proof fn lemma_piece_words(sections: Seq<Seq<char>>, levels: Seq<Seq<char>>, style: CiteStyle, k: int)
    requires
        0 <= k < levels.len(),
        style != CiteStyle::English,
        levels_read(levels, style),
        labels_read(sections, levels, style),
    ensures
        level_word(sections, k, words_apply(sections, levels, style)) + written_level(levels[k], style) == join(
            piece_words(sections, levels, style, k),
            seq![' '],
        ),
        all_solid(piece_words(sections, levels, style, k)),
        piece_words(sections, levels, style, k).last() == written_level(levels[k], style),
        forall|i: int|
            0 <= i < piece_words(sections, levels, style, k).len() ==> token_shaped(
                #[trigger] piece_words(sections, levels, style, k)[i],
            ),
{
    let w = written_level(levels[k], style);
    assert(reads_alone(w, levels[k]));
    let pw = piece_words(sections, levels, style, k);
    if words_apply(sections, levels, style) && 0 <= k < sections.len() {
        let s = trim(sections[k]);
        assert(reads_as_label(s));
        assert(level_word(sections, k, true) == s.push(' '));
        assert(s.push(' ') + w =~= s + seq![' '] + w);
        assert(pw.drop_last() =~= seq![s]);
        assert(pw.last() == w);
        assert(join(pw.drop_last(), seq![' ']) == s);
        assert(join(pw, seq![' ']) == s + seq![' '] + w);
    } else {
        assert(level_word(sections, k, words_apply(sections, levels, style)) =~= Seq::<char>::empty());
        assert(Seq::<char>::empty() + w =~= w);
    }
}

/// A Hebrew address, printed, is its words joined by single spaces.
pub proof fn lemma_printed_words(sections: Seq<Seq<char>>, levels: Seq<Seq<char>>, style: CiteStyle, k: int)
    requires
        0 <= k <= levels.len(),
        style != CiteStyle::English,
        levels_read(levels, style),
        labels_read(sections, levels, style),
    ensures
        printed_levels(sections, levels, style, k) == join(printed_words(sections, levels, style, k), seq![' ']),
        all_solid(printed_words(sections, levels, style, k)),
        k > 0 ==> printed_words(sections, levels, style, k).len() > 0 && printed_words(
            sections,
            levels,
            style,
            k,
        ).last() == written_level(levels[k - 1], style),
        k == 0 ==> printed_words(sections, levels, style, k).len() == 0,
    decreases k,
{
    if k > 0 {
        let sp = seq![' '];
        lemma_printed_words(sections, levels, style, k - 1);
        lemma_piece_words(sections, levels, style, k - 1);
        let p = printed_words(sections, levels, style, k - 1);
        let pw = piece_words(sections, levels, style, k - 1);
        let out = printed_levels(sections, levels, style, k - 1);
        let piece = level_word(sections, k - 1, words_apply(sections, levels, style)) + written_level(
            levels[k - 1],
            style,
        );
        assert(piece == join(pw, sp));
        let q = if style == CiteStyle::HebrewShort && p.len() > 0 && !ends_a_daf(p.last()) {
            p.update(p.len() - 1, p.last().push(','))
        } else {
            p
        };
        assert(printed_words(sections, levels, style, k) == q + pw);
        if p.len() == 0 {
            assert(out == Seq::<char>::empty());
            assert(q + pw =~= pw);
        } else {
            assert(solid(p[p.len() - 1]));
            lemma_join_last(p, sp);
            assert(out.len() > 0);
            assert(out.last() == p.last().last());
            assert(ends_a_daf(out) == ends_a_daf(p.last()));
            assert(printed_levels(sections, levels, style, k) == out + level_separator(out, style) + piece);
            if style == CiteStyle::HebrewShort && !ends_a_daf(p.last()) {
                lemma_join_extend_last(p, ',', sp);
                assert(level_separator(out, style) == seq![',', ' ']);
                assert(out + seq![',', ' '] + piece =~= out.push(',') + sp + piece);
            } else {
                assert(level_separator(out, style) == sp);
            }
            lemma_join_concat(q, pw, sp);
            assert forall|i: int| 0 <= i < q.len() implies solid(#[trigger] q[i]) by {
                if i == p.len() - 1 && q != p {
                    assert(q[i] == p.last().push(','));
                    assert(solid(p[i]));
                    assert forall|j: int| 0 <= j < q[i].len() implies !is_ws(#[trigger] q[i][j]) by {
                        if j < p[i].len() {
                            assert(q[i][j] == p[i][j]);
                        }
                    }
                } else {
                    assert(q[i] == p[i]);
                }
            }
        }
        let all = q + pw;
        assert forall|i: int| 0 <= i < all.len() implies solid(#[trigger] all[i]) by {
            if i < q.len() {
                assert(all[i] == q[i]);
                if p.len() == 0 {
                    assert(false);
                }
            } else {
                assert(all[i] == pw[i - q.len()]);
            }
        }
        assert(all.last() == pw.last());
    }
}

proof fn lemma_all_tokens_concat(a: Seq<Seq<char>>, b: Seq<Seq<char>>)
    ensures
        all_tokens(a + b) == all_tokens(a) + all_tokens(b),
    decreases b.len(),
{
    if b.len() == 0 {
        assert(a + b =~= a);
        assert(all_tokens(a) + Seq::<Seq<char>>::empty() =~= all_tokens(a));
    } else {
        lemma_all_tokens_concat(a, b.drop_last());
        assert((a + b).drop_last() =~= a + b.drop_last());
        assert((a + b).last() == b.last());
        assert(all_tokens(a) + all_tokens(b.drop_last()) + word_tokens(b.last()) =~= all_tokens(a) + (
        all_tokens(b.drop_last()) + word_tokens(b.last())));
    }
}

proof fn lemma_pieces_plain(w: Seq<char>)
    requires
        forall|j: int| 0 <= j < w.len() ==> #[trigger] w[j] != ':' && w[j] != ',',
    ensures
        pieces(w) == seq![w],
    decreases w.len(),
{
    if w.len() > 0 {
        let d = w.drop_last();
        assert forall|j: int| 0 <= j < d.len() implies #[trigger] d[j] != ':' && d[j] != ',' by {
            assert(d[j] == w[j]);
        }
        lemma_pieces_plain(d);
        assert(w[w.len() - 1] == w.last());
        assert(d.push(w.last()) =~= w);
        assert(seq![d].update(0, d.push(w.last())) =~= seq![w]);
    } else {
        assert(w =~= Seq::<char>::empty());
    }
}

/// A token-shaped word is one token, with or without a comma after it
/// (where it does not end in a daf's mark).
proof fn lemma_word_one_token(w: Seq<char>)
    requires
        token_shaped(w),
    ensures
        word_tokens(w) == seq![w],
        !ends_a_daf(w) ==> word_tokens(w.push(',')) == seq![w],
{
    if !ends_a_daf(w) {
        assert forall|j: int| 0 <= j < w.len() implies #[trigger] w[j] != ':' && w[j] != ',' by {
            if w[j] == ':' {
                assert(j == w.len() - 1);
            }
        }
        lemma_pieces_plain(w);
        let x = w.push(',');
        assert(x.drop_last() =~= w);
        assert(pieces(x) == seq![w].push(Seq::<char>::empty()));
        let ps = seq![w].push(Seq::<char>::empty());
        assert(ps.drop_last() =~= seq![w]);
        assert(seq![w].drop_last() =~= Seq::<Seq<char>>::empty());
        assert(nonempty(Seq::<Seq<char>>::empty()) == Seq::<Seq<char>>::empty());
        assert(nonempty(seq![w]) =~= seq![w]);
        assert(nonempty(ps) == seq![w]);
    }
}

proof fn lemma_tokens_of_pieces(pw: Seq<Seq<char>>)
    requires
        1 <= pw.len() <= 2,
        forall|i: int| 0 <= i < pw.len() ==> token_shaped(#[trigger] pw[i]),
    ensures
        all_tokens(pw) == pw,
{
    assert(token_shaped(pw[0]));
    lemma_word_one_token(pw[0]);
    let one = seq![pw[0]];
    assert(one.drop_last() =~= Seq::<Seq<char>>::empty());
    assert(one.last() == pw[0]);
    assert(all_tokens(Seq::<Seq<char>>::empty()) == Seq::<Seq<char>>::empty());
    assert(all_tokens(one) =~= word_tokens(pw[0]));
    if pw.len() == 2 {
        assert(token_shaped(pw[1]));
        lemma_word_one_token(pw[1]);
        assert(pw.drop_last() =~= one);
        assert(all_tokens(pw) =~= one + seq![pw[1]]);
    } else {
        assert(pw =~= one);
    }
}

/// The words of a Hebrew address read as its tokens: each level word and
/// each level, the commas gone.
pub proof fn lemma_printed_tokens(sections: Seq<Seq<char>>, levels: Seq<Seq<char>>, style: CiteStyle, k: int)
    requires
        0 <= k <= levels.len(),
        style != CiteStyle::English,
        levels_read(levels, style),
        labels_read(sections, levels, style),
    ensures
        all_tokens(printed_words(sections, levels, style, k)) == printed_tokens(sections, levels, style, k),
    decreases k,
{
    if k > 0 {
        lemma_printed_tokens(sections, levels, style, k - 1);
        lemma_printed_words(sections, levels, style, k - 1);
        lemma_piece_words(sections, levels, style, k - 1);
        let p = printed_words(sections, levels, style, k - 1);
        let pw = piece_words(sections, levels, style, k - 1);
        let q = if style == CiteStyle::HebrewShort && p.len() > 0 && !ends_a_daf(p.last()) {
            p.update(p.len() - 1, p.last().push(','))
        } else {
            p
        };
        lemma_all_tokens_concat(q, pw);
        lemma_tokens_of_pieces(pw);
        if q != p {
            let w = written_level(levels[k - 2], style);
            assert(p.last() == w);
            assert(reads_alone(w, levels[k - 2]));
            lemma_word_one_token(w);
            assert(q.drop_last() =~= p.drop_last());
            assert(q.last() == w.push(','));
            assert(all_tokens(q) == all_tokens(p.drop_last()) + word_tokens(w.push(',')));
            assert(all_tokens(p) == all_tokens(p.drop_last()) + word_tokens(w));
        }
    }
}

/// The tokens of fewer levels begin the tokens of more.
proof fn lemma_tokens_prefix(sections: Seq<Seq<char>>, levels: Seq<Seq<char>>, style: CiteStyle, k: int, m: int)
    requires
        0 <= k <= m,
    ensures
        printed_tokens(sections, levels, style, k).len() <= printed_tokens(sections, levels, style, m).len(),
        forall|j: int|
            0 <= j < printed_tokens(sections, levels, style, k).len() ==> #[trigger] printed_tokens(
                sections,
                levels,
                style,
                m,
            )[j] == printed_tokens(sections, levels, style, k)[j],
    decreases m - k,
{
    if k < m {
        lemma_tokens_prefix(sections, levels, style, k, m - 1);
        let a = printed_tokens(sections, levels, style, m - 1);
        let b = printed_tokens(sections, levels, style, m);
        assert(b == a + piece_words(sections, levels, style, m - 1));
        assert forall|j: int| 0 <= j < printed_tokens(sections, levels, style, k).len() implies #[trigger] b[j]
            == printed_tokens(sections, levels, style, k)[j] by {
            assert(b[j] == a[j]);
        }
    }
}

proof fn lemma_solid_trim(w: Seq<char>)
    requires
        solid(w),
    ensures
        trim(w) == w,
{
    assert(!is_ws(w[0]));
    assert(!is_ws(w[w.len() - 1]));
    crate::text::lemma_trim_plain(w);
}

/// The tokens of an address, read in order, give back its levels: each
/// level word is dropped, each level is kept.
proof fn lemma_walk_printed(sections: Seq<Seq<char>>, levels: Seq<Seq<char>>, style: CiteStyle, k: int, m: int)
    requires
        0 <= k <= m <= levels.len(),
        style != CiteStyle::English,
        levels_read(levels, style),
        labels_read(sections, levels, style),
    ensures
        address_walk(printed_tokens(sections, levels, style, m), printed_tokens(sections, levels, style, k).len() as int)
            == (levels.take(k), Seq::<Seq<char>>::empty(), true),
    decreases k,
{
    let t = printed_tokens(sections, levels, style, m);
    if k == 0 {
        assert(levels.take(0) =~= Seq::<Seq<char>>::empty());
    } else {
        lemma_walk_printed(sections, levels, style, k - 1, m);
        lemma_piece_words(sections, levels, style, k - 1);
        lemma_tokens_prefix(sections, levels, style, k, m);
        let before = printed_tokens(sections, levels, style, k - 1);
        let pw = piece_words(sections, levels, style, k - 1);
        let m0 = before.len() as int;
        assert(printed_tokens(sections, levels, style, k) == before + pw);
        assert forall|i: int| 0 <= i < pw.len() implies #[trigger] t[m0 + i] == pw[i] by {
            assert(t[m0 + i] == (before + pw)[m0 + i]);
        }
        let l = levels[k - 1];
        let w = written_level(l, style);
        assert(reads_alone(w, l));
        lemma_solid_trim(w);
        let st0 = (levels.take(k - 1), Seq::<Seq<char>>::empty(), true);
        let wi: int = pw.len() - 1;
        assert(t[m0 + wi] == w);
        // A level word first, if one is printed: a label before a numbered
        // token, so it is passed over.
        assert(address_walk(t, m0 + wi) == st0) by {
            if pw.len() == 2 {
                let sw = pw[0];
                assert(reads_as_label(sw));
                assert(t[m0] == sw);
                assert(t[m0 + 1] == w);
                lemma_reads_numbered(w, l);
                lemma_step_label(st0, t, m0, sw);
            }
        }
        lemma_step_level(levels.take(k - 1), t, m0 + wi, w, l);
        assert(levels.take(k - 1).push(l) =~= levels.take(k));
    }
}

proof fn lemma_reads_numbered(w: Seq<char>, l: Seq<char>)
    requires
        reads_alone(w, l),
    ensures
        token_numbered(trim(w)),
{
    lemma_solid_trim(w);
    reveal(reads_as);
}

/// A label before a numbered token is passed over.
proof fn lemma_step_label(st: (Seq<Seq<char>>, Seq<Seq<char>>, bool), t: Seq<Seq<char>>, nth: int, s: Seq<char>)
    requires
        st.2,
        0 <= nth,
        nth + 1 < t.len(),
        t[nth] == s,
        reads_as_label(s),
        token_numbered(trim(t[nth + 1])),
    ensures
        address_step(st, t, nth) == st,
{
    lemma_solid_trim(s);
    reveal(is_label);
    reveal(address_step);
}

/// A token that reads alone as a level is that level, closing no name.
proof fn lemma_step_level(ls: Seq<Seq<char>>, t: Seq<Seq<char>>, nth: int, w: Seq<char>, l: Seq<char>)
    requires
        0 <= nth < t.len(),
        t[nth] == w,
        reads_alone(w, l),
    ensures
        address_step((ls, Seq::<Seq<char>>::empty(), true), t, nth) == (ls.push(l), Seq::<Seq<char>>::empty(), true),
{
    lemma_solid_trim(w);
    reveal(reads_as);
    reveal(address_step);
}

/// No word of a printed Hebrew address holds a hyphen.
proof fn lemma_printed_no_hyphen(sections: Seq<Seq<char>>, levels: Seq<Seq<char>>, style: CiteStyle, k: int)
    requires
        0 <= k <= levels.len(),
        style != CiteStyle::English,
        levels_read(levels, style),
        labels_read(sections, levels, style),
    ensures
        forall|i: int, j: int|
            0 <= i < printed_words(sections, levels, style, k).len() && 0 <= j < printed_words(
                sections,
                levels,
                style,
                k,
            )[i].len() ==> #[trigger] printed_words(sections, levels, style, k)[i][j] != '-',
    decreases k,
{
    if k > 0 {
        lemma_printed_no_hyphen(sections, levels, style, k - 1);
        lemma_piece_words(sections, levels, style, k - 1);
        let p = printed_words(sections, levels, style, k - 1);
        let pw = piece_words(sections, levels, style, k - 1);
        let q = if style == CiteStyle::HebrewShort && p.len() > 0 && !ends_a_daf(p.last()) {
            p.update(p.len() - 1, p.last().push(','))
        } else {
            p
        };
        let all = q + pw;
        assert(printed_words(sections, levels, style, k) == all);
        assert forall|i: int, j: int| 0 <= i < all.len() && 0 <= j < all[i].len() implies #[trigger] all[i][j]
            != '-' by {
            if i < q.len() {
                assert(all[i] == q[i]);
                if q != p && i == p.len() - 1 {
                    assert(q[i] == p[i].push(','));
                    if j < p[i].len() {
                        assert(q[i][j] == p[i][j]);
                    }
                } else {
                    assert(q[i] == p[i]);
                }
            } else {
                assert(all[i] == pw[i - q.len()]);
                assert(token_shaped(pw[i - q.len()]));
            }
        }
    }
}

/// Words that lack a character, joined by spaces, lack it too.
pub proof fn lemma_join_lacks(ws: Seq<Seq<char>>, c: char)
    requires
        c != ' ',
        forall|i: int, j: int| 0 <= i < ws.len() && 0 <= j < ws[i].len() ==> #[trigger] ws[i][j] != c,
    ensures
        forall|j: int| 0 <= j < join(ws, seq![' ']).len() ==> #[trigger] join(ws, seq![' '])[j] != c,
    decreases ws.len(),
{
    let x = join(ws, seq![' ']);
    if ws.len() == 1 {
        assert forall|j: int| 0 <= j < x.len() implies #[trigger] x[j] != c by {
            assert(x[j] == ws[0][j]);
        }
    } else if ws.len() > 1 {
        let d = ws.drop_last();
        assert forall|i: int, j: int| 0 <= i < d.len() && 0 <= j < d[i].len() implies #[trigger] d[i][j] != c by {
            assert(d[i] == ws[i]);
        }
        lemma_join_lacks(d, c);
        let y = join(d, seq![' ']);
        assert(x == y + seq![' '] + ws.last());
        assert forall|j: int| 0 <= j < x.len() implies #[trigger] x[j] != c by {
            if j < y.len() {
                assert(x[j] == y[j]);
            } else if j > y.len() {
                assert(x[j] == ws.last()[j - y.len() - 1]);
                assert(ws[ws.len() - 1][j - y.len() - 1] == x[j]);
            }
        }
    }
}

/// A Hebrew address whose levels each read alone as themselves, and whose
/// level words are labels, reads back as its levels.
pub proof fn lemma_hebrew_address(sections: Seq<Seq<char>>, levels: Seq<Seq<char>>, style: CiteStyle)
    requires
        levels.len() > 0,
        style != CiteStyle::English,
        levels_read(levels, style),
        labels_read(sections, levels, style),
    ensures
        printed_address(sections, levels, style) == join(
            printed_words(sections, levels, style, levels.len() as int),
            seq![' '],
        ),
        all_solid(printed_words(sections, levels, style, levels.len() as int)),
        printed_words(sections, levels, style, levels.len() as int).len() > 0,
        citation_address(printed_address(sections, levels, style)) == Some(levels),
        forall|j: int|
            0 <= j < printed_address(sections, levels, style).len() ==> #[trigger] printed_address(
                sections,
                levels,
                style,
            )[j] != '-',
{
    let n = levels.len() as int;
    let a = printed_address(sections, levels, style);
    let pws = printed_words(sections, levels, style, n);
    lemma_printed_words(sections, levels, style, n);
    lemma_printed_tokens(sections, levels, style, n);
    lemma_printed_no_hyphen(sections, levels, style, n);
    lemma_join_lacks(pws, '-');
    lemma_words_of_join(pws);
    assert(tokens(a) == printed_tokens(sections, levels, style, n));
    lemma_walk_printed(sections, levels, style, n, n);
    assert(levels.take(n) =~= levels);
}

} // verus!
