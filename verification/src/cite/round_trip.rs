//! Printed, then read back, in every style: a citation the formatter prints
//! resolves to the ref it was printed from.
use vstd::prelude::*;

use crate::cite::hebrew_levels::{hebrew_level, lemma_hebrew_level_reads};
use crate::cite::printed::{labels_read, lemma_hebrew_address, levels_read, printed_words, reads_alone};
use crate::cite::read_back::{
    lemma_english_address, lemma_english_printed, lemma_join_chars, lemma_plain_level_chars,
    lemma_plain_level_reads, level_char, plain_level,
};
use crate::cite::spacing::{
    all_solid, lemma_join_concat, lemma_join_first, lemma_join_hyphen, lemma_join_last,
    lemma_words_of_join, lemma_words_solid, solid,
};
use crate::cite::{citation, printed_address, written_level, CiteStyle};
use crate::refs::address::numbered;
use crate::refs::daf::{canonical_daf, english_daf};
use crate::hebrew::normalize::normalized;
use crate::refs::lexicon::{meanings, LexView};
use crate::refs::reference::{ref_value, scheme_prefix, RefView};
use crate::refs::resolve::{
    citation_address, deduped, numbered_citation_address, ref_for, refs_for, resolution, span_from,
    span_value, title_attempt, titles_from, Span,
};
use crate::text::{decimal, is_ws, join, parse_u32, split, starts_with, trim, words};

verus! {

/// Titles longer than `n` words that the lexicon does not know are passed
/// over: the search comes down to `n` words.
proof fn lemma_titles_down_to(lex: LexView, ws: Seq<Seq<char>>, n: int, m: int)
    requires
        1 <= n <= m <= ws.len(),
        forall|k: int| n < k <= ws.len() ==> meanings(lex, normalized(join(#[trigger] ws.take(k), seq![' ']))).len()
            == 0,
    ensures
        titles_from(lex, ws, m, None) == titles_from(lex, ws, n, None),
    decreases m - n,
{
    if m > n {
        assert(meanings(lex, normalized(join(ws.take(m), seq![' ']))).len() == 0);
        assert(title_attempt(lex, ws, m, None) is None);
        lemma_titles_down_to(lex, ws, n, m - 1);
    }
}

/// A title the lexicon knows as one work, a space, then words that read as
/// an address: the citation resolves to that work at that address, so long
/// as no longer run of its words is a title the lexicon knows.
pub(crate) proof fn lemma_title_then_span(lex: LexView, t: Seq<char>, rw: Seq<Seq<char>>, i: int, sp: Span)
    requires
        t.len() > 0,
        join(words(t), seq![' ']) == t,
        !starts_with(t, scheme_prefix()),
        rw.len() > 0,
        all_solid(rw),
        span_value(join(rw, seq![' '])) == Some(sp),
        0 <= i < lex.0.len(),
        i <= usize::MAX,
        meanings(lex, normalized(t)) == seq![i as usize],
        lex.2 >= words(t).len(),
        forall|m: int|
            words(t).len() < m <= words(t).len() + rw.len() ==> meanings(
                lex,
                normalized(join(#[trigger] (words(t) + rw).take(m), seq![' '])),
            ).len() == 0,
    ensures
        resolution(lex, t + seq![' '] + join(rw, seq![' ']), None, None) == seq![
            ref_for(split(lex.0[i].0, '/'), Some(sp)),
        ],
{
    let sp1 = seq![' '];
    let tw = words(t);
    let rest = join(rw, sp1);
    let c = t + sp1 + rest;
    lemma_words_solid(t);
    assert(tw.len() > 0) by {
        if tw.len() == 0 {
            assert(join(tw, sp1) == Seq::<char>::empty());
        }
    }
    let all = tw + rw;
    lemma_join_concat(tw, rw, sp1);
    assert(join(all, sp1) == c);
    assert(all_solid(all)) by {
        assert forall|k: int| 0 <= k < all.len() implies solid(#[trigger] all[k]) by {
            if k < tw.len() {
                assert(all[k] == tw[k]);
            } else {
                assert(all[k] == rw[k - tw.len()]);
            }
        }
    }
    lemma_words_of_join(all);
    let ws = words(c);
    assert(ws == all);
    let n = tw.len() as int;
    // The citation is its own trim, and it is not a ref.
    assert(solid(tw[0]));
    assert(solid(rw.last()));
    assert(solid(rw[rw.len() - 1]));
    lemma_join_first(all, sp1);
    lemma_join_last(all, sp1);
    assert(all[0] == tw[0]);
    assert(all.last() == rw.last());
    assert(!is_ws(c[0]));
    assert(!is_ws(rw.last()[rw.last().len() - 1]));
    crate::text::lemma_trim_plain(c);
    assert(trim(c) == c);
    assert(!starts_with(c, scheme_prefix())) by {
        if starts_with(c, scheme_prefix()) {
            if t.len() >= 6 {
                assert(c.take(6) =~= t.take(6));
            } else {
                assert(c[t.len() as int] == ' ');
                assert(c.take(6)[t.len() as int] == scheme_prefix()[t.len() as int]);
            }
        }
    }
    assert(ref_value(c) is Err);
    // The title is found at `n` words, and the rest is the address.
    assert(ws.take(n) =~= tw);
    assert(ws.skip(n) =~= rw);
    lemma_join_first(rw, sp1);
    lemma_join_last(rw, sp1);
    assert(solid(rw[0]));
    crate::text::lemma_trim_plain(rest);
    let path = split(lex.0[i].0, '/');
    let refs = refs_for(lex, seq![i as usize], Some(sp));
    assert(refs =~= seq![ref_for(path, Some(sp))]);
    assert(title_attempt(lex, ws, n, None) == Some(refs));
    // Longer titles are not known, so the search comes down to this one.
    let longest: int = if lex.2 > 1 {
        lex.2 as int
    } else {
        1
    };
    let max: int = if ws.len() < longest {
        ws.len() as int
    } else {
        longest
    };
    assert forall|k: int| n < k <= ws.len() implies meanings(
        lex,
        normalized(join(#[trigger] ws.take(k), seq![' '])),
    ).len() == 0 by {
        assert(ws.take(k) == (words(t) + rw).take(k));
    }
    lemma_titles_down_to(lex, ws, n, max);
    assert(titles_from(lex, ws, n, None) == Some(refs));
    let r = ref_for(path, Some(sp));
    assert(seq![r].drop_last() =~= Seq::<RefView>::empty());
    assert(deduped(Seq::<RefView>::empty()) == Seq::<RefView>::empty());
    assert(deduped(seq![r]) =~= seq![r]);
}

/// Past text with no hyphen, the search for a range goes on unchanged.
proof fn lemma_span_skips(s: Seq<char>, h: int, k: int)
    requires
        0 <= k <= h <= s.len(),
        forall|j: int| 0 <= j < h ==> #[trigger] s[j] != '-',
    ensures
        span_from(s, k) == span_from(s, h),
    decreases h - k,
{
    if k < h {
        lemma_span_skips(s, h, k + 1);
    }
}

/// An address with no hyphen in it reads as that address alone.
pub(crate) proof fn lemma_span_point(a: Seq<char>, f: Seq<Seq<char>>)
    requires
        citation_address(a) == Some(f),
        forall|j: int| 0 <= j < a.len() ==> #[trigger] a[j] != '-',
    ensures
        span_value(a) == Some((f, None::<Seq<Seq<char>>>)),
{
    lemma_span_skips(a, a.len() as int, 0);
}

/// An address, a hyphen, and a different address every level of which is
/// numbered: a range from the first to the second.
pub(crate) proof fn lemma_span_range(a: Seq<char>, b: Seq<char>, f: Seq<Seq<char>>, t: Seq<Seq<char>>)
    requires
        citation_address(a) == Some(f),
        numbered_citation_address(b) == Some(t),
        f != t,
        forall|j: int| 0 <= j < a.len() ==> #[trigger] a[j] != '-',
    ensures
        span_value(a + seq!['-'] + b) == Some((f, Some(t))),
{
    let s = a + seq!['-'] + b;
    let h = a.len() as int;
    assert forall|j: int| 0 <= j < h implies #[trigger] s[j] != '-' by {
        assert(s[j] == a[j]);
    }
    lemma_span_skips(s, h, 0);
    assert(s[h] == '-');
    assert(s.take(h) =~= a);
    assert(s.skip(h + 1) =~= b);
}

/// The title a style prints: the English title for the English style, the
/// Hebrew one otherwise, trimmed.
pub open spec fn printed_title(he: Seq<char>, en: Seq<char>, style: CiteStyle) -> Seq<char> {
    if style == CiteStyle::English {
        trim(en)
    } else {
        trim(he)
    }
}

/// A level a style prints in a form that the resolver reads back as that
/// level: in English a number or a daf as it stands, in Hebrew a number or
/// a daf whose letters read as nothing else.
pub open spec fn prints_back(l: Seq<char>, style: CiteStyle) -> bool {
    if style == CiteStyle::English {
        plain_level(l)
    } else {
        hebrew_level(l)
    }
}

/// An address each level of which a style prints back.
pub open spec fn address_prints_back(levels: Seq<Seq<char>>, style: CiteStyle) -> bool {
    levels.len() > 0 && forall|k: int| 0 <= k < levels.len() ==> prints_back(#[trigger] levels[k], style)
}

/// A level in the Hebrew domain is also a level the English style prints
/// as it stands.
proof fn lemma_hebrew_level_plain(l: Seq<char>)
    requires
        hebrew_level(l),
    ensures
        plain_level(l),
{
    if !(parse_u32(l) is Some && decimal(parse_u32(l).unwrap() as nat) == l) {
        let n = parse_u32(l.drop_last()).unwrap();
        let d = decimal(n as nat);
        crate::text::lemma_decimal_digits(n as nat);
        assert(crate::text::is_digit(d[0]) && crate::text::is_digit(d.last()));
        crate::text::lemma_trim_plain(d);
        assert(l.drop_last() == d);
        assert(english_daf(l) == Some(canonical_daf(n as nat, l.last())));
        assert(d.push(l.last()) =~= l);
    }
}

/// A level a style prints back is numbered.
proof fn lemma_prints_back_numbered(l: Seq<char>, style: CiteStyle)
    requires
        prints_back(l, style),
    ensures
        plain_level(l),
        numbered(l),
{
    if style != CiteStyle::English {
        lemma_hebrew_level_plain(l);
    }
    lemma_plain_level_reads(l);
}

/// An address a style prints back, printed, is words that read back as it.
proof fn lemma_address_reads(sections: Seq<Seq<char>>, levels: Seq<Seq<char>>, style: CiteStyle) -> (aw: Seq<
    Seq<char>,
>)
    requires
        address_prints_back(levels, style),
        labels_read(sections, levels, style),
    ensures
        aw.len() > 0,
        all_solid(aw),
        printed_address(sections, levels, style) == join(aw, seq![' ']),
        citation_address(printed_address(sections, levels, style)) == Some(levels),
        forall|j: int|
            0 <= j < printed_address(sections, levels, style).len() ==> #[trigger] printed_address(
                sections,
                levels,
                style,
            )[j] != '-',
        forall|k: int| 0 <= k < levels.len() ==> numbered(#[trigger] levels[k]),
{
    assert forall|k: int| 0 <= k < levels.len() implies numbered(#[trigger] levels[k]) by {
        lemma_prints_back_numbered(levels[k], style);
    }
    if style == CiteStyle::English {
        let a = join(levels, seq![':']);
        assert forall|k: int| 0 <= k < levels.len() implies plain_level(#[trigger] levels[k]) by {
            assert(prints_back(levels[k], style));
        }
        assert forall|k: int| 0 <= k < levels.len() implies (#[trigger] levels[k]).len() > 0 by {
            lemma_plain_level_chars(levels[k]);
        }
        assert forall|x: int, y: int| 0 <= x < levels.len() && 0 <= y < levels[x].len() implies #[trigger] levels[x][y]
            != '-' && !is_ws(levels[x][y]) by {
            lemma_plain_level_chars(levels[x]);
            assert(level_char(levels[x][y]));
        }
        lemma_english_printed(sections, levels, levels.len() as int);
        assert(levels.take(levels.len() as int) =~= levels);
        lemma_join_chars(levels);
        lemma_english_address(levels);
        assert(join(seq![a], seq![' ']) == a);
        seq![a]
    } else {
        assert forall|k: int| 0 <= k < levels.len() implies reads_alone(
            written_level(#[trigger] levels[k], style),
            levels[k],
        ) by {
            assert(prints_back(levels[k], style));
            lemma_hebrew_level_reads(levels[k], style);
        }
        assert(levels_read(levels, style));
        lemma_hebrew_address(sections, levels, style);
        printed_words(sections, levels, style, levels.len() as int)
    }
}

/// Solid words with a space after a solid title: the words of the whole
/// are the title's and then these.
proof fn lemma_title_words(t: Seq<char>, rw: Seq<Seq<char>>)
    requires
        t.len() > 0,
        join(words(t), seq![' ']) == t,
        rw.len() > 0,
        all_solid(rw),
    ensures
        words(t + seq![' '] + join(rw, seq![' '])) == words(t) + rw,
{
    let sp1 = seq![' '];
    let tw = words(t);
    lemma_words_solid(t);
    assert(tw.len() > 0) by {
        if tw.len() == 0 {
            assert(join(tw, sp1) == Seq::<char>::empty());
        }
    }
    let all = tw + rw;
    lemma_join_concat(tw, rw, sp1);
    assert forall|k: int| 0 <= k < all.len() implies solid(#[trigger] all[k]) by {
        if k < tw.len() {
            assert(all[k] == tw[k]);
        } else {
            assert(all[k] == rw[k - tw.len()]);
        }
    }
    lemma_words_of_join(all);
}

/// Every citation printed here reads back, through the resolver, as the
/// ref it was printed from: the formatter and the resolver are one
/// notation read two ways.
///
/// This holds, in each style, for a ref with an address, a point or a range
/// to a different address, when: every level is one the style prints in a
/// form the resolver reads back as that level; the level words the full
/// Hebrew style prints are labels the resolver drops; the title printed is
/// written with single spaces and is not itself a ref; the lexicon knows
/// that title as this work and nothing else, and titles that long; and no
/// longer run of the citation's first words is a title the lexicon knows.
pub proof fn lemma_citation_reads_back(
    lex: LexView,
    he: Seq<char>,
    en: Seq<char>,
    sections: Seq<Seq<char>>,
    r: RefView,
    style: CiteStyle,
    i: int,
)
    requires
        address_prints_back(r.1, style),
        labels_read(sections, r.1, style),
        r.2 is Some ==> address_prints_back(r.2->Some_0, style) && labels_read(sections, r.2->Some_0, style)
            && r.2->Some_0 != r.1,
        printed_title(he, en, style).len() > 0,
        join(words(printed_title(he, en, style)), seq![' ']) == printed_title(he, en, style),
        !starts_with(printed_title(he, en, style), scheme_prefix()),
        0 <= i < lex.0.len(),
        i <= usize::MAX,
        split(lex.0[i].0, '/') == r.0,
        meanings(lex, normalized(printed_title(he, en, style))) == seq![i as usize],
        lex.2 >= words(printed_title(he, en, style)).len(),
        forall|m: int|
            words(printed_title(he, en, style)).len() < m <= words(citation(he, en, sections, r, style)).len()
                ==> meanings(
                lex,
                normalized(join(#[trigger] words(citation(he, en, sections, r, style)).take(m), seq![' '])),
            ).len() == 0,
    ensures
        resolution(lex, citation(he, en, sections, r, style), None, None) == seq![r],
{
    let t = printed_title(he, en, style);
    let c = citation(he, en, sections, r, style);
    let sp1 = seq![' '];
    let a = printed_address(sections, r.1, style);
    let aw = lemma_address_reads(sections, r.1, style);
    let path = split(lex.0[i].0, '/');
    let rw: Seq<Seq<char>>;
    let sp: Span;
    if r.2 is Some {
        let to = r.2->Some_0;
        let b = printed_address(sections, to, style);
        let bw = lemma_address_reads(sections, to, style);
        assert(numbered_citation_address(b) == Some(to));
        lemma_span_range(a, b, r.1, to);
        sp = (r.1, Some(to));
        rw = aw.drop_last() + seq![aw.last() + seq!['-'] + bw[0]] + bw.drop_first();
        lemma_join_hyphen(aw, bw);
        assert(c == t.push(' ') + a + seq!['-'] + b);
        assert(c =~= t + sp1 + (join(aw, sp1) + seq!['-'] + join(bw, sp1)));
        assert(solid(aw[aw.len() - 1]));
        assert(solid(bw[0]));
        let mid = aw.last() + seq!['-'] + bw[0];
        assert(solid(mid)) by {
            assert forall|j: int| 0 <= j < mid.len() implies !is_ws(#[trigger] mid[j]) by {
                if j < aw.last().len() {
                    assert(mid[j] == aw.last()[j]);
                } else if j > aw.last().len() {
                    assert(mid[j] == bw[0][j - aw.last().len() - 1]);
                }
            }
        }
        assert forall|k: int| 0 <= k < rw.len() implies solid(#[trigger] rw[k]) by {
            if k < aw.len() - 1 {
                assert(rw[k] == aw[k]);
            } else if k == aw.len() - 1 {
                assert(rw[k] == mid);
            } else {
                assert(rw[k] == bw[k - aw.len() + 1]);
            }
        }
        assert(ref_for(path, Some(sp)) == r);
    } else {
        lemma_span_point(a, r.1);
        sp = (r.1, None);
        rw = aw;
        assert(c == t.push(' ') + a);
        assert(c =~= t + sp1 + join(aw, sp1));
        assert(ref_for(path, Some(sp)) == r);
    }
    assert(c == t + sp1 + join(rw, sp1));
    assert(span_value(join(rw, sp1)) == Some(sp));
    lemma_title_words(t, rw);
    assert(words(c) == words(t) + rw);
    lemma_title_then_span(lex, t, rw, i, sp);
}

} // verus!
