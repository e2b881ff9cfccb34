//! What aligning keeps: every byte of the original appears once and in order,
//! no byte of the modified side is lost, identical documents collapse to one
//! span, and merging changes none of this.

use vstd::prelude::*;
use super::alignment;
use super::alignment::Piece;
use super::cover;
use super::grammar;
use super::lcs;
use super::parse::NodeKind;

verus! {

/// The ranges of the original that the pieces hold, in order.
pub open spec fn orig_spans(ps: Seq<Piece>) -> Seq<grammar::Span>
    decreases ps.len(),
{
    if ps.len() == 0 {
        seq![]
    } else {
        match ps.last() {
            Piece::Both { orig, modified: _ } => orig_spans(ps.drop_last()).push(orig),
            Piece::Orig { orig } => orig_spans(ps.drop_last()).push(orig),
            Piece::Modified { modified: _ } => orig_spans(ps.drop_last()),
        }
    }
}

/// The pieces hold the bytes `start..end` of the original once and in order.
pub open spec fn covers_orig(ps: Seq<Piece>, start: int, end: int) -> bool {
    cover::tiles(orig_spans(ps), start, end)
}

/// Position `x` lies in the range.
pub open spec fn inside(r: grammar::Span, x: int) -> bool {
    r.start <= x < r.end
}

/// 1 for yes, 0 for no.
pub open spec fn one(b: bool) -> int {
    if b {
        1
    } else {
        0
    }
}

/// How often the byte at `x` of the modified side appears in the pieces.
pub open spec fn mod_count(ps: Seq<Piece>, x: int) -> int
    decreases ps.len(),
{
    if ps.len() == 0 {
        0
    } else {
        mod_count(ps.drop_last(), x) + match ps.last() {
            Piece::Both { orig: _, modified } => one(inside(modified, x)),
            Piece::Orig { orig: _ } => 0,
            Piece::Modified { modified } => one(inside(modified, x)),
        }
    }
}

/// No object of the value has one key twice.
pub open spec fn distinct_keys(t: grammar::Tree) -> bool
    decreases t,
{
    &&& t.kind == NodeKind::Object ==> keys_differ(t.children)
    &&& all_distinct_keys(t.children)
}

/// [`distinct_keys`], for the values of all children.
pub open spec fn all_distinct_keys(cs: Seq<grammar::Branch>) -> bool
    decreases cs,
{
    cs.len() > 0 ==> all_distinct_keys(cs.drop_last()) && child_distinct_keys(cs.last())
}

/// [`distinct_keys`], for the value of one child.
pub open spec fn child_distinct_keys(c: grammar::Branch) -> bool
    decreases c,
{
    match c {
        grammar::Branch::Member { value, .. } => distinct_keys(*value),
        grammar::Branch::Element { value, .. } => distinct_keys(*value),
    }
}

/// The key of a member.
pub open spec fn key_text(c: grammar::Branch) -> Seq<char> {
    match c {
        grammar::Branch::Member { text, .. } => text,
        grammar::Branch::Element { .. } => seq![],
    }
}

/// Any two children have different keys.
pub open spec fn keys_differ(cs: Seq<grammar::Branch>) -> bool {
    forall|i: int, j: int|
        0 <= i < j < cs.len() ==> key_text(#[trigger] cs[i]) != key_text(#[trigger] cs[j])
}

/// No object of the value is empty with whitespace between its braces.
pub open spec fn no_blank_object(t: grammar::Tree) -> bool
    decreases t,
{
    all_no_blank(t.children)
}

/// [`no_blank_object`], for all children.
pub open spec fn all_no_blank(cs: Seq<grammar::Branch>) -> bool
    decreases cs,
{
    cs.len() > 0 ==> all_no_blank(cs.drop_last()) && child_no_blank(cs.last())
}

/// [`no_blank_object`], for one child.
pub open spec fn child_no_blank(c: grammar::Branch) -> bool
    decreases c,
{
    match c {
        grammar::Branch::Member { key, text, value, .. } => !alignment::is_blank(text, key)
            && no_blank_object(*value),
        grammar::Branch::Element { value, .. } => no_blank_object(*value),
    }
}

/// The pairs increase on both sides and stay below `n` and `m`.
pub open spec fn ordered_pairs(p: Seq<(int, int)>, n: int, m: int) -> bool {
    &&& forall|k: int| 0 <= k < p.len() ==> 0 <= (#[trigger] p[k]).0 < n && 0 <= p[k].1 < m
    &&& forall|k: int, l: int|
        0 <= k < l < p.len() ==> (#[trigger] p[k]).0 < (#[trigger] p[l]).0 && p[k].1 < p[l].1
}

pub(crate) proof fn lemma_orig_spans_concat(a: Seq<Piece>, b: Seq<Piece>)
    ensures
        orig_spans(a + b) == orig_spans(a) + orig_spans(b),
    decreases b.len(),
{
    if b.len() == 0 {
        assert(a + b =~= a);
        assert(orig_spans(a) + orig_spans(b) =~= orig_spans(a));
    } else {
        lemma_orig_spans_concat(a, b.drop_last());
        assert((a + b).drop_last() =~= a + b.drop_last());
        assert(orig_spans(a + b) =~= orig_spans(a) + orig_spans(b));
    }
}

pub(crate) proof fn lemma_covers_concat(a: Seq<Piece>, b: Seq<Piece>, start: int, mid: int, end: int)
    requires
        covers_orig(a, start, mid),
        covers_orig(b, mid, end),
    ensures
        covers_orig(a + b, start, end),
{
    lemma_orig_spans_concat(a, b);
    cover::lemma_tiles_concat(orig_spans(a), orig_spans(b), start, mid, end);
}

pub(crate) proof fn lemma_mod_count_concat(a: Seq<Piece>, b: Seq<Piece>, x: int)
    ensures
        mod_count(a + b, x) == mod_count(a, x) + mod_count(b, x),
    decreases b.len(),
{
    if b.len() == 0 {
        assert(a + b =~= a);
    } else {
        lemma_mod_count_concat(a, b.drop_last(), x);
        assert((a + b).drop_last() =~= a + b.drop_last());
    }
}

pub(crate) proof fn lemma_one_piece(p: Piece, x: int)
    ensures
        p matches Piece::Both { orig, modified } ==> {
            &&& orig.start < orig.end ==> covers_orig(seq![p], orig.start, orig.end)
            &&& mod_count(seq![p], x) == one(inside(modified, x))
        },
        p matches Piece::Orig { orig } ==> {
            &&& orig.start < orig.end ==> covers_orig(seq![p], orig.start, orig.end)
            &&& mod_count(seq![p], x) == 0
        },
        p matches Piece::Modified { modified } ==> {
            &&& covers_orig(seq![p], x, x)
            &&& mod_count(seq![p], x) == one(inside(modified, x))
        },
{
    assert(seq![p].drop_last() =~= Seq::<Piece>::empty());
    reveal_with_fuel(mod_count, 2);
    reveal_with_fuel(orig_spans, 2);
    reveal_with_fuel(cover::tiles, 2);
    let os = orig_spans(seq![p]);
    match p {
        Piece::Both { orig, .. } => {
            assert(os =~= seq![orig]);
            assert(os.drop_last() =~= seq![]);
        },
        Piece::Orig { orig } => {
            assert(os =~= seq![orig]);
            assert(os.drop_last() =~= seq![]);
        },
        Piece::Modified { .. } => {},
    }
}

pub(crate) proof fn lemma_bytes(o: grammar::Span, m: grammar::Span, ob: int, mb: int, x: int)
    ensures
        o.start <= o.end ==> covers_orig(
            alignment::bytes_pieces(o, m, ob, mb),
            ob + o.start,
            ob + o.end,
        ),
        m.start <= m.end ==> mod_count(alignment::bytes_pieces(o, m, ob, mb), x) == one(
            inside(alignment::shift(m, mb), x),
        ),
{
    let ol = alignment::span_len(o);
    let ml = alignment::span_len(m);
    let common = if ol <= ml {
        ol
    } else {
        ml
    };
    let none = Seq::<Piece>::empty();
    let pa = Piece::Both {
        orig: grammar::Span { start: ob + o.start, end: ob + o.start + common },
        modified: grammar::Span { start: mb + m.start, end: mb + m.start + common },
    };
    let pb = Piece::Orig {
        orig: grammar::Span { start: ob + o.start + common, end: ob + o.end },
    };
    let pc = Piece::Modified {
        modified: grammar::Span { start: mb + m.start + common, end: mb + m.end },
    };
    let a = if common > 0 {
        seq![pa]
    } else {
        none
    };
    let b = if ol > common {
        seq![pb]
    } else {
        none
    };
    let c = if ml > common {
        seq![pc]
    } else {
        none
    };
    assert(alignment::bytes_pieces(o, m, ob, mb) =~= a + b + c);
    lemma_one_piece(pa, x);
    lemma_one_piece(pb, x);
    lemma_one_piece(pc, x);
    lemma_one_piece(pc, ob + o.end);
    lemma_mod_count_concat(a, b, x);
    lemma_mod_count_concat(a + b, c, x);
    if o.start <= o.end {
        lemma_covers_concat(a, b, ob + o.start, ob + o.start + common, ob + o.end);
        lemma_covers_concat(a + b, c, ob + o.start, ob + o.end, ob + o.end);
    }
}

proof fn lemma_alone(r: grammar::Span, base: int, x: int, y: int)
    requires
        r.start <= r.end,
    ensures
        covers_orig(alignment::orig_piece(r, base), base + r.start, base + r.end),
        mod_count(alignment::orig_piece(r, base), x) == 0,
        covers_orig(alignment::mod_piece(r, base), y, y),
        mod_count(alignment::mod_piece(r, base), x) == one(inside(alignment::shift(r, base), x)),
{
    lemma_one_piece(Piece::Orig { orig: alignment::shift(r, base) }, x);
    lemma_one_piece(Piece::Modified { modified: alignment::shift(r, base) }, x);
    lemma_one_piece(Piece::Modified { modified: alignment::shift(r, base) }, y);
}

/// The bytes of a child.
pub open spec fn child_span(c: grammar::Branch) -> grammar::Span {
    grammar::Span { start: cover::child_start(c), end: cover::child_end(c) }
}

proof fn lemma_child_alone(kind: NodeKind, c: grammar::Branch, base: int, x: int, y: int)
    requires
        cover::child_laid(kind, c),
    ensures
        cover::child_start(c) <= cover::child_end(c),
        covers_orig(
            alignment::orig_only_child(c, base),
            base + cover::child_start(c),
            base + cover::child_end(c),
        ),
        mod_count(alignment::orig_only_child(c, base), x) == 0,
        covers_orig(alignment::mod_only_child(c, base), y, y),
        mod_count(alignment::mod_only_child(c, base), x) == one(
            inside(alignment::shift(child_span(c), base), x),
        ),
{
    match c {
        grammar::Branch::Member { key, text, between, value, trailing } => {
            let v = alignment::tree_span(*value);
            lemma_alone(key, base, x, y);
            lemma_alone(between, base, x, y);
            lemma_alone(v, base, x, y);
            lemma_alone(trailing, base, x, y);
            if !alignment::is_blank(text, key) {
                let a = alignment::orig_piece(key, base);
                let b = alignment::orig_piece(between, base);
                let d = alignment::orig_piece(v, base);
                let e = alignment::orig_piece(trailing, base);
                lemma_covers_concat(a, b, base + key.start, base + key.end, base + between.end);
                lemma_covers_concat(a + b, d, base + key.start, base + between.end, base + v.end);
                lemma_covers_concat(
                    a + b + d,
                    e,
                    base + key.start,
                    base + v.end,
                    base + trailing.end,
                );
                lemma_mod_count_concat(a, b, x);
                lemma_mod_count_concat(a + b, d, x);
                lemma_mod_count_concat(a + b + d, e, x);
                let a = alignment::mod_piece(key, base);
                let b = alignment::mod_piece(between, base);
                let d = alignment::mod_piece(v, base);
                let e = alignment::mod_piece(trailing, base);
                lemma_covers_concat(a, b, y, y, y);
                lemma_covers_concat(a + b, d, y, y, y);
                lemma_covers_concat(a + b + d, e, y, y, y);
                lemma_mod_count_concat(a, b, x);
                lemma_mod_count_concat(a + b, d, x);
                lemma_mod_count_concat(a + b + d, e, x);
            }
        },
        grammar::Branch::Element { value, trailing } => {
            let v = alignment::tree_span(*value);
            lemma_alone(v, base, x, y);
            lemma_alone(trailing, base, x, y);
            let a = alignment::orig_piece(v, base);
            let b = alignment::orig_piece(trailing, base);
            lemma_covers_concat(a, b, base + v.start, base + v.end, base + trailing.end);
            lemma_mod_count_concat(a, b, x);
            let a = alignment::mod_piece(v, base);
            let b = alignment::mod_piece(trailing, base);
            lemma_covers_concat(a, b, y, y, y);
            lemma_mod_count_concat(a, b, x);
        },
    }
}

pub(crate) proof fn lemma_all_laid_at(kind: NodeKind, cs: Seq<grammar::Branch>, i: int)
    requires
        cover::all_laid(kind, cs),
        0 <= i < cs.len(),
    ensures
        cover::child_laid(kind, cs[i]),
        cover::child_start(cs[i]) <= cover::child_end(cs[i]),
    decreases cs.len(),
{
    if i < cs.len() - 1 {
        lemma_all_laid_at(kind, cs.drop_last(), i);
    } else {
        lemma_child_alone(kind, cs[i], 0, 0, 0);
    }
}

proof fn lemma_all_distinct_at(cs: Seq<grammar::Branch>, i: int)
    requires
        all_distinct_keys(cs),
        0 <= i < cs.len(),
    ensures
        child_distinct_keys(cs[i]),
    decreases cs.len(),
{
    if i < cs.len() - 1 {
        lemma_all_distinct_at(cs.drop_last(), i);
    }
}

proof fn lemma_contiguous_prefix(cs: Seq<grammar::Branch>, start: int, end: int)
    requires
        cover::contiguous(cs, start, end),
        cs.len() > 0,
    ensures
        cover::contiguous(cs.drop_last(), start, cover::child_start(cs.last())),
        cover::child_end(cs.last()) == end,
{
    let init = cs.drop_last();
    if init.len() > 0 {
        assert(cover::child_start(cs[cs.len() - 1]) == cover::child_end(cs[cs.len() - 2]));
        assert forall|i: int| 0 < i < init.len() implies #[trigger] cover::child_start(init[i])
            == cover::child_end(init[i - 1]) by {
            assert(cover::child_start(cs[i]) == cover::child_end(cs[i - 1]));
        }
    }
}

/// Where the `i`-th child starts, or the last one ends.
spec fn child_pos(cs: Seq<grammar::Branch>, start: int, i: int) -> int {
    if i <= 0 {
        start
    } else {
        cover::child_end(cs[i - 1])
    }
}

pub(crate) proof fn lemma_first_with_key(cs: Seq<grammar::Branch>, text: Seq<char>)
    ensures
        match alignment::first_with_key(cs, text) {
            Some(i) => 0 <= i < cs.len() && alignment::has_key(cs[i], text) && forall|j: int|
                0 <= j < i ==> !alignment::has_key(#[trigger] cs[j], text),
            None => forall|j: int| 0 <= j < cs.len() ==> !alignment::has_key(#[trigger] cs[j], text),
        },
    decreases cs.len(),
{
    if cs.len() > 0 {
        let init = cs.drop_last();
        lemma_first_with_key(init, text);
        match alignment::first_with_key(init, text) {
            Some(i) => {
                assert(init[i] == cs[i]);
                assert forall|j: int| 0 <= j < i implies !alignment::has_key(
                    #[trigger] cs[j],
                    text,
                ) by {
                    assert(init[j] == cs[j]);
                }
            },
            None => {
                assert forall|j: int| 0 <= j < cs.len() - 1 implies !alignment::has_key(
                    #[trigger] cs[j],
                    text,
                ) by {
                    assert(init[j] == cs[j]);
                }
            },
        }
    }
}

pub(crate) proof fn lemma_array_pairs_ordered(ocs: Seq<grammar::Branch>, mcs: Seq<grammar::Branch>)
    ensures
        ordered_pairs(
            alignment::array_pairs(ocs, mcs),
            ocs.len() as int,
            mcs.len() as int,
        ),
{
    lcs::lcs_trace_is_common(
        alignment::shape_hashes(ocs),
        alignment::shape_hashes(mcs),
        ocs.len() as int,
        mcs.len() as int,
    );
}

// ---- the original's side ----

proof fn lemma_orig_run(
    cs: Seq<grammar::Branch>,
    start: int,
    end: int,
    from: int,
    to: int,
    base: int,
)
    requires
        cover::contiguous(cs, start, end),
        cover::all_laid(NodeKind::Array, cs),
        0 <= from <= to <= cs.len(),
    ensures
        covers_orig(
            alignment::orig_only_children(cs, from, to, base),
            base + child_pos(cs, start, from),
            base + child_pos(cs, start, to),
        ),
    decreases to - from,
{
    if from < to {
        lemma_orig_run(cs, start, end, from, to - 1, base);
        lemma_all_laid_at(NodeKind::Array, cs, to - 1);
        lemma_child_alone(NodeKind::Array, cs[to - 1], base, 0, 0);
        assert(cover::child_start(cs[to - 1]) == child_pos(cs, start, to - 1));
        lemma_covers_concat(
            alignment::orig_only_children(cs, from, to - 1, base),
            alignment::orig_only_child(cs[to - 1], base),
            base + child_pos(cs, start, from),
            base + child_pos(cs, start, to - 1),
            base + child_pos(cs, start, to),
        );
    }
}

proof fn lemma_mod_run_orig(cs: Seq<grammar::Branch>, from: int, to: int, base: int, y: int)
    requires
        cover::all_laid(NodeKind::Array, cs),
        0 <= from <= to <= cs.len(),
    ensures
        covers_orig(alignment::mod_only_children(cs, from, to, base), y, y),
    decreases to - from,
{
    if from < to {
        lemma_mod_run_orig(cs, from, to - 1, base, y);
        lemma_all_laid_at(NodeKind::Array, cs, to - 1);
        lemma_child_alone(NodeKind::Array, cs[to - 1], base, 0, y);
        lemma_covers_concat(
            alignment::mod_only_children(cs, from, to - 1, base),
            alignment::mod_only_child(cs[to - 1], base),
            y,
            y,
            y,
        );
    }
}

proof fn lemma_mod_rest_orig(
    ocs: Seq<grammar::Branch>,
    mcs: Seq<grammar::Branch>,
    n: int,
    mb: int,
    y: int,
)
    requires
        cover::all_laid(NodeKind::Object, mcs),
        0 <= n <= mcs.len(),
    ensures
        covers_orig(alignment::mod_rest(ocs, mcs, n, mb), y, y),
    decreases n,
{
    if n > 0 {
        lemma_mod_rest_orig(ocs, mcs, n - 1, mb, y);
        lemma_all_laid_at(NodeKind::Object, mcs, n - 1);
        lemma_child_alone(NodeKind::Object, mcs[n - 1], mb, 0, y);
        lemma_covers_concat(
            alignment::mod_rest(ocs, mcs, n - 1, mb),
            alignment::mod_only_child(mcs[n - 1], mb),
            y,
            y,
            y,
        );
    }
}

proof fn lemma_node_orig(o: grammar::Tree, m: grammar::Tree, ob: int, mb: int)
    requires
        cover::well_laid(o),
        cover::well_laid(m),
    ensures
        covers_orig(alignment::node_pieces(o, m, ob, mb), ob + o.start, ob + o.end),
    decreases o, 0nat,
{
    let s = ob + o.start;
    let e = ob + o.end;
    if o.kind != m.kind {
        lemma_alone(alignment::tree_span(o), ob, 0, e);
        lemma_alone(alignment::tree_span(m), mb, 0, e);
        lemma_covers_concat(
            alignment::orig_piece(alignment::tree_span(o), ob),
            alignment::mod_piece(alignment::tree_span(m), mb),
            s,
            e,
            e,
        );
    } else if grammar::is_container(o.kind) {
        let op = alignment::open_piece(o, m, ob, mb);
        let cl = alignment::close_piece(o, m, ob, mb);
        lemma_one_piece(op, 0);
        lemma_one_piece(cl, 0);
        if o.kind == NodeKind::Object {
            let a = alignment::members_pieces(o.children, m.children, ob, mb);
            let b = alignment::mod_rest(o.children, m.children, m.children.len() as int, mb);
            lemma_members_orig(o.children, m.children, o.start + 1, o.end - 1, ob, mb);
            lemma_mod_rest_orig(o.children, m.children, m.children.len() as int, mb, e - 1);
            lemma_covers_concat(seq![op], a, s, s + 1, e - 1);
            lemma_covers_concat(seq![op] + a, b, s, e - 1, e - 1);
            lemma_covers_concat(seq![op] + a + b, seq![cl], s, e - 1, e);
        } else {
            let ps = alignment::array_pairs(o.children, m.children);
            lemma_array_pairs_ordered(o.children, m.children);
            lemma_elements_orig(o.children, m.children, ps, o.start + 1, o.end - 1, ob, mb);
            let a = alignment::elements_pieces(o.children, m.children, ps, ob, mb);
            lemma_covers_concat(seq![op], a, s, s + 1, e - 1);
            lemma_covers_concat(seq![op] + a, seq![cl], s, e - 1, e);
        }
    } else {
        lemma_bytes(alignment::tree_span(o), alignment::tree_span(m), ob, mb, 0);
    }
}

proof fn lemma_members_orig(
    ocs: Seq<grammar::Branch>,
    mcs: Seq<grammar::Branch>,
    start: int,
    end: int,
    ob: int,
    mb: int,
)
    requires
        cover::contiguous(ocs, start, end),
        cover::all_laid(NodeKind::Object, ocs),
        cover::all_laid(NodeKind::Object, mcs),
    ensures
        covers_orig(alignment::members_pieces(ocs, mcs, ob, mb), ob + start, ob + end),
    decreases ocs, 0nat,
{
    if ocs.len() > 0 {
        let mid = cover::child_start(ocs.last());
        lemma_contiguous_prefix(ocs, start, end);
        lemma_members_orig(ocs.drop_last(), mcs, start, mid, ob, mb);
        lemma_member_orig(ocs.last(), mcs, ob, mb);
        lemma_covers_concat(
            alignment::members_pieces(ocs.drop_last(), mcs, ob, mb),
            alignment::member_pieces(ocs.last(), mcs, ob, mb),
            ob + start,
            ob + mid,
            ob + end,
        );
    }
}

proof fn lemma_member_orig(
    c: grammar::Branch,
    mcs: Seq<grammar::Branch>,
    ob: int,
    mb: int,
)
    requires
        cover::child_laid(NodeKind::Object, c),
        cover::all_laid(NodeKind::Object, mcs),
    ensures
        covers_orig(
            alignment::member_pieces(c, mcs, ob, mb),
            ob + cover::child_start(c),
            ob + cover::child_end(c),
        ),
    decreases c, 0nat,
{
    lemma_first_with_key(mcs, key_text(c));
    match alignment::partner(c, mcs) {
        None => lemma_child_alone(NodeKind::Object, c, ob, 0, 0),
        Some(i) => {
            lemma_all_laid_at(NodeKind::Object, mcs, i);
            match (c, mcs[i]) {
                (
                    grammar::Branch::Member { key, text: _, between, value, trailing },
                    grammar::Branch::Member {
                        key: mkey,
                        text: _,
                        between: mbetween,
                        value: mvalue,
                        trailing: mtrailing,
                    },
                ) => {
                    lemma_bytes(key, mkey, ob, mb, 0);
                    lemma_bytes(between, mbetween, ob, mb, 0);
                    lemma_node_orig(*value, *mvalue, ob, mb);
                    lemma_bytes(trailing, mtrailing, ob, mb, 0);
                    let a = alignment::bytes_pieces(key, mkey, ob, mb);
                    let b = alignment::bytes_pieces(between, mbetween, ob, mb);
                    let d = alignment::node_pieces(*value, *mvalue, ob, mb);
                    let e = alignment::bytes_pieces(trailing, mtrailing, ob, mb);
                    lemma_covers_concat(a, b, ob + key.start, ob + key.end, ob + between.end);
                    lemma_covers_concat(
                        a + b,
                        d,
                        ob + key.start,
                        ob + between.end,
                        ob + value.end,
                    );
                    lemma_covers_concat(
                        a + b + d,
                        e,
                        ob + key.start,
                        ob + value.end,
                        ob + trailing.end,
                    );
                },
                _ => {},
            }
        },
    }
}

proof fn lemma_element_orig(c: grammar::Branch, d: grammar::Branch, ob: int, mb: int)
    requires
        cover::child_laid(NodeKind::Array, c),
        cover::child_laid(NodeKind::Array, d),
    ensures
        covers_orig(
            alignment::element_pieces(c, d, ob, mb),
            ob + cover::child_start(c),
            ob + cover::child_end(c),
        ),
    decreases c, 0nat,
{
    match (c, d) {
        (
            grammar::Branch::Element { value, trailing },
            grammar::Branch::Element { value: mvalue, trailing: mtrailing },
        ) => {
            lemma_node_orig(*value, *mvalue, ob, mb);
            lemma_bytes(trailing, mtrailing, ob, mb, 0);
            lemma_covers_concat(
                alignment::node_pieces(*value, *mvalue, ob, mb),
                alignment::bytes_pieces(trailing, mtrailing, ob, mb),
                ob + value.start,
                ob + value.end,
                ob + trailing.end,
            );
        },
        _ => {},
    }
}

proof fn lemma_paired_orig(
    ocs: Seq<grammar::Branch>,
    mcs: Seq<grammar::Branch>,
    pairs: Seq<(int, int)>,
    start: int,
    end: int,
    ob: int,
    mb: int,
)
    requires
        cover::contiguous(ocs, start, end),
        cover::all_laid(NodeKind::Array, ocs),
        cover::all_laid(NodeKind::Array, mcs),
        ordered_pairs(pairs, ocs.len() as int, mcs.len() as int),
    ensures
        covers_orig(
            alignment::paired_pieces(ocs, mcs, pairs, ob, mb),
            ob + start,
            ob + child_pos(ocs, start, alignment::after_pairs(pairs).0),
        ),
    decreases ocs, pairs.len(),
{
    if pairs.len() > 0 {
        let init = pairs.drop_last();
        let (po, pm) = pairs.last();
        let (oi, mi) = alignment::after_pairs(init);
        assert(pairs[pairs.len() - 1] == (po, pm));
        if init.len() > 0 {
            assert(pairs[pairs.len() - 2].0 < pairs[pairs.len() - 1].0);
            assert(init.last() == pairs[pairs.len() - 2]);
        }
        lemma_paired_orig(ocs, mcs, init, start, end, ob, mb);
        lemma_orig_run(ocs, start, end, oi, po, ob);
        let at = ob + child_pos(ocs, start, po);
        lemma_mod_run_orig(mcs, mi, pm, mb, at);
        lemma_all_laid_at(NodeKind::Array, ocs, po);
        lemma_all_laid_at(NodeKind::Array, mcs, pm);
        lemma_element_orig(ocs[po], mcs[pm], ob, mb);
        assert(cover::child_start(ocs[po]) == child_pos(ocs, start, po));
        let a = alignment::paired_pieces(ocs, mcs, init, ob, mb);
        let b = alignment::orig_only_children(ocs, oi, po, ob);
        let c = alignment::mod_only_children(mcs, mi, pm, mb);
        let d = alignment::element_pieces(ocs[po], mcs[pm], ob, mb);
        lemma_covers_concat(a, b, ob + start, ob + child_pos(ocs, start, oi), at);
        lemma_covers_concat(a + b, c, ob + start, at, at);
        lemma_covers_concat(a + b + c, d, ob + start, at, ob + cover::child_end(ocs[po]));
    }
}

proof fn lemma_elements_orig(
    ocs: Seq<grammar::Branch>,
    mcs: Seq<grammar::Branch>,
    pairs: Seq<(int, int)>,
    start: int,
    end: int,
    ob: int,
    mb: int,
)
    requires
        cover::contiguous(ocs, start, end),
        cover::all_laid(NodeKind::Array, ocs),
        cover::all_laid(NodeKind::Array, mcs),
        ordered_pairs(pairs, ocs.len() as int, mcs.len() as int),
    ensures
        covers_orig(
            alignment::elements_pieces(ocs, mcs, pairs, ob, mb),
            ob + start,
            ob + end,
        ),
    decreases ocs, pairs.len() + 1,
{
    let (oi, mi) = alignment::after_pairs(pairs);
    let n = ocs.len() as int;
    let k = mcs.len() as int;
    if pairs.len() > 0 {
        assert(pairs[pairs.len() - 1] == pairs.last());
    }
    lemma_paired_orig(ocs, mcs, pairs, start, end, ob, mb);
    lemma_orig_run(ocs, start, end, oi, n, ob);
    lemma_mod_run_orig(mcs, mi, k, mb, ob + end);
    let a = alignment::paired_pieces(ocs, mcs, pairs, ob, mb);
    let b = alignment::orig_only_children(ocs, oi, n, ob);
    let c = alignment::mod_only_children(mcs, mi, k, mb);
    assert(child_pos(ocs, start, n) == end);
    lemma_covers_concat(a, b, ob + start, ob + child_pos(ocs, start, oi), ob + end);
    lemma_covers_concat(a + b, c, ob + start, ob + end, ob + end);
}

// ---- the modified side ----

/// `j` is the child that holds position `x`, or -1 where none does.
spec fn locates(cs: Seq<grammar::Branch>, base: int, x: int, j: int) -> bool {
    &&& -1 <= j < cs.len()
    &&& forall|i: int|
        0 <= i < cs.len() ==> inside(alignment::shift(child_span(#[trigger] cs[i]), base), x) == (i
            == j)
}

/// How often a byte appears: at least once where it has to, exactly once where
/// nothing is matched twice, and not at all elsewhere.
spec fn count_ok(count: int, expected: bool, exact: bool) -> bool {
    &&& !expected ==> count == 0
    &&& expected ==> count >= 1
    &&& expected && exact ==> count == 1
}

proof fn lemma_child_pos_mono(
    kind: NodeKind,
    cs: Seq<grammar::Branch>,
    start: int,
    end: int,
    i: int,
    j: int,
)
    requires
        cover::contiguous(cs, start, end),
        cover::all_laid(kind, cs),
        0 <= i <= j <= cs.len(),
    ensures
        child_pos(cs, start, i) <= child_pos(cs, start, j),
    decreases j - i,
{
    if i < j {
        lemma_child_pos_mono(kind, cs, start, end, i, j - 1);
        lemma_all_laid_at(kind, cs, j - 1);
        assert(cover::child_start(cs[j - 1]) == child_pos(cs, start, j - 1));
    }
}

proof fn lemma_locate(
    kind: NodeKind,
    cs: Seq<grammar::Branch>,
    start: int,
    end: int,
    base: int,
    x: int,
) -> (j: int)
    requires
        cover::contiguous(cs, start, end),
        cover::all_laid(kind, cs),
    ensures
        locates(cs, base, x, j),
        (j >= 0) == (base + start <= x < base + end),
{
    if base + start <= x < base + end {
        let j = lemma_find_child(kind, cs, start, end, base, x, cs.len() as int);
        assert forall|i: int| 0 <= i < cs.len() implies inside(
            alignment::shift(child_span(#[trigger] cs[i]), base),
            x,
        ) == (i == j) by {
            assert(cover::child_start(cs[i]) == child_pos(cs, start, i));
            assert(cover::child_start(cs[j]) == child_pos(cs, start, j));
            if i < j {
                lemma_child_pos_mono(kind, cs, start, end, i + 1, j);
            } else if i > j {
                lemma_child_pos_mono(kind, cs, start, end, j + 1, i);
            }
        }
        j
    } else {
        assert forall|i: int| 0 <= i < cs.len() implies !inside(
            alignment::shift(child_span(#[trigger] cs[i]), base),
            x,
        ) by {
            assert(cover::child_start(cs[i]) == child_pos(cs, start, i));
            lemma_child_pos_mono(kind, cs, start, end, 0, i);
            lemma_child_pos_mono(kind, cs, start, end, i + 1, cs.len() as int);
        }
        -1
    }
}

proof fn lemma_find_child(
    kind: NodeKind,
    cs: Seq<grammar::Branch>,
    start: int,
    end: int,
    base: int,
    x: int,
    n: int,
) -> (j: int)
    requires
        cover::contiguous(cs, start, end),
        cover::all_laid(kind, cs),
        0 <= n <= cs.len(),
        base + start <= x < base + child_pos(cs, start, n),
    ensures
        0 <= j < n,
        inside(alignment::shift(child_span(cs[j]), base), x),
    decreases n,
{
    assert(cover::child_start(cs[n - 1]) == child_pos(cs, start, n - 1));
    if base + child_pos(cs, start, n - 1) <= x {
        n - 1
    } else {
        lemma_find_child(kind, cs, start, end, base, x, n - 1)
    }
}

proof fn lemma_orig_run_mod(
    kind: NodeKind,
    cs: Seq<grammar::Branch>,
    from: int,
    to: int,
    base: int,
    x: int,
)
    requires
        cover::all_laid(kind, cs),
        0 <= from <= to <= cs.len(),
    ensures
        mod_count(alignment::orig_only_children(cs, from, to, base), x) == 0,
    decreases to - from,
{
    if from < to {
        lemma_orig_run_mod(kind, cs, from, to - 1, base, x);
        lemma_all_laid_at(kind, cs, to - 1);
        lemma_child_alone(kind, cs[to - 1], base, x, 0);
        lemma_mod_count_concat(
            alignment::orig_only_children(cs, from, to - 1, base),
            alignment::orig_only_child(cs[to - 1], base),
            x,
        );
    }
}

proof fn lemma_mod_run_mod(
    cs: Seq<grammar::Branch>,
    from: int,
    to: int,
    base: int,
    x: int,
    j: int,
)
    requires
        cover::all_laid(NodeKind::Array, cs),
        0 <= from <= to <= cs.len(),
        locates(cs, base, x, j),
    ensures
        mod_count(alignment::mod_only_children(cs, from, to, base), x) == one(from <= j < to),
    decreases to - from,
{
    if from < to {
        lemma_mod_run_mod(cs, from, to - 1, base, x, j);
        lemma_all_laid_at(NodeKind::Array, cs, to - 1);
        lemma_child_alone(NodeKind::Array, cs[to - 1], base, x, 0);
        lemma_mod_count_concat(
            alignment::mod_only_children(cs, from, to - 1, base),
            alignment::mod_only_child(cs[to - 1], base),
            x,
        );
    }
}

proof fn lemma_mod_rest_mod(
    ocs: Seq<grammar::Branch>,
    mcs: Seq<grammar::Branch>,
    n: int,
    mb: int,
    x: int,
    j: int,
)
    requires
        cover::all_laid(NodeKind::Object, mcs),
        0 <= n <= mcs.len(),
        locates(mcs, mb, x, j),
    ensures
        mod_count(alignment::mod_rest(ocs, mcs, n, mb), x) == one(
            0 <= j < n && !alignment::is_partner(ocs, mcs, j),
        ),
    decreases n,
{
    if n > 0 {
        lemma_mod_rest_mod(ocs, mcs, n - 1, mb, x, j);
        lemma_all_laid_at(NodeKind::Object, mcs, n - 1);
        lemma_child_alone(NodeKind::Object, mcs[n - 1], mb, x, 0);
        lemma_mod_count_concat(
            alignment::mod_rest(ocs, mcs, n - 1, mb),
            alignment::mod_only_child(mcs[n - 1], mb),
            x,
        );
    }
}

proof fn lemma_node_mod(o: grammar::Tree, m: grammar::Tree, ob: int, mb: int, x: int)
    requires
        cover::well_laid(o),
        cover::well_laid(m),
    ensures
        count_ok(
            mod_count(alignment::node_pieces(o, m, ob, mb), x),
            mb + m.start <= x < mb + m.end,
            distinct_keys(o),
        ),
    decreases o, 0nat,
{
    if o.kind != m.kind {
        lemma_alone(alignment::tree_span(o), ob, x, 0);
        lemma_alone(alignment::tree_span(m), mb, x, 0);
        lemma_mod_count_concat(
            alignment::orig_piece(alignment::tree_span(o), ob),
            alignment::mod_piece(alignment::tree_span(m), mb),
            x,
        );
    } else if grammar::is_container(o.kind) {
        let op = alignment::open_piece(o, m, ob, mb);
        let cl = alignment::close_piece(o, m, ob, mb);
        lemma_one_piece(op, x);
        lemma_one_piece(cl, x);
        let j = lemma_locate(o.kind, m.children, m.start + 1, m.end - 1, mb, x);
        if o.kind == NodeKind::Object {
            let a = alignment::members_pieces(o.children, m.children, ob, mb);
            let b = alignment::mod_rest(o.children, m.children, m.children.len() as int, mb);
            lemma_members_mod(o.children, m.children, ob, mb, x, j);
            lemma_mod_rest_mod(o.children, m.children, m.children.len() as int, mb, x, j);
            lemma_mod_count_concat(seq![op], a, x);
            lemma_mod_count_concat(seq![op] + a, b, x);
            lemma_mod_count_concat(seq![op] + a + b, seq![cl], x);
        } else {
            let ps = alignment::array_pairs(o.children, m.children);
            lemma_array_pairs_ordered(o.children, m.children);
            lemma_elements_mod(o.children, m.children, ps, ob, mb, x, j);
            let a = alignment::elements_pieces(o.children, m.children, ps, ob, mb);
            lemma_mod_count_concat(seq![op], a, x);
            lemma_mod_count_concat(seq![op] + a, seq![cl], x);
        }
    } else {
        lemma_bytes(alignment::tree_span(o), alignment::tree_span(m), ob, mb, x);
    }
}

proof fn lemma_members_mod(
    ocs: Seq<grammar::Branch>,
    mcs: Seq<grammar::Branch>,
    ob: int,
    mb: int,
    x: int,
    j: int,
)
    requires
        cover::all_laid(NodeKind::Object, ocs),
        cover::all_laid(NodeKind::Object, mcs),
        locates(mcs, mb, x, j),
    ensures
        count_ok(
            mod_count(alignment::members_pieces(ocs, mcs, ob, mb), x),
            j >= 0 && alignment::is_partner(ocs, mcs, j),
            keys_differ(ocs) && all_distinct_keys(ocs),
        ),
    decreases ocs, 0nat,
{
    if ocs.len() > 0 {
        let init = ocs.drop_last();
        let last = ocs.last();
        let n = ocs.len() - 1;
        lemma_members_mod(init, mcs, ob, mb, x, j);
        lemma_member_mod(last, mcs, ob, mb, x, j);
        lemma_mod_count_concat(
            alignment::members_pieces(init, mcs, ob, mb),
            alignment::member_pieces(last, mcs, ob, mb),
            x,
        );
        if j >= 0 {
            if alignment::is_partner(init, mcs, j) {
                let k = choose|k: int|
                    0 <= k < init.len() && #[trigger] alignment::partner(init[k], mcs) == Some(j);
                assert(alignment::partner(ocs[k], mcs) == Some(j));
                if keys_differ(ocs) && alignment::partner(last, mcs) == Some(j) {
                    lemma_first_with_key(mcs, key_text(ocs[k]));
                    lemma_first_with_key(mcs, key_text(last));
                    assert(key_text(ocs[k]) != key_text(ocs[n]));
                }
            }
            if alignment::partner(last, mcs) == Some(j) {
                assert(alignment::partner(ocs[n], mcs) == Some(j));
            }
            if alignment::is_partner(ocs, mcs, j) {
                let k = choose|k: int|
                    0 <= k < ocs.len() && #[trigger] alignment::partner(ocs[k], mcs) == Some(j);
                if k < n {
                    assert(alignment::partner(init[k], mcs) == Some(j));
                }
            }
        }
        if keys_differ(ocs) {
            assert forall|a: int, b: int| 0 <= a < b < init.len() implies key_text(
                #[trigger] init[a],
            ) != key_text(#[trigger] init[b]) by {
                assert(key_text(ocs[a]) != key_text(ocs[b]));
            }
        }
    }
}

proof fn lemma_member_mod(
    c: grammar::Branch,
    mcs: Seq<grammar::Branch>,
    ob: int,
    mb: int,
    x: int,
    j: int,
)
    requires
        cover::child_laid(NodeKind::Object, c),
        cover::all_laid(NodeKind::Object, mcs),
        locates(mcs, mb, x, j),
    ensures
        count_ok(
            mod_count(alignment::member_pieces(c, mcs, ob, mb), x),
            j >= 0 && alignment::partner(c, mcs) == Some(j),
            child_distinct_keys(c),
        ),
    decreases c, 0nat,
{
    lemma_first_with_key(mcs, key_text(c));
    match alignment::partner(c, mcs) {
        None => lemma_child_alone(NodeKind::Object, c, ob, x, 0),
        Some(i) => {
            lemma_all_laid_at(NodeKind::Object, mcs, i);
            match (c, mcs[i]) {
                (
                    grammar::Branch::Member { key, text: _, between, value, trailing },
                    grammar::Branch::Member {
                        key: mkey,
                        text: _,
                        between: mbetween,
                        value: mvalue,
                        trailing: mtrailing,
                    },
                ) => {
                    lemma_bytes(key, mkey, ob, mb, x);
                    lemma_bytes(between, mbetween, ob, mb, x);
                    lemma_node_mod(*value, *mvalue, ob, mb, x);
                    lemma_bytes(trailing, mtrailing, ob, mb, x);
                    let a = alignment::bytes_pieces(key, mkey, ob, mb);
                    let b = alignment::bytes_pieces(between, mbetween, ob, mb);
                    let d = alignment::node_pieces(*value, *mvalue, ob, mb);
                    let e = alignment::bytes_pieces(trailing, mtrailing, ob, mb);
                    lemma_mod_count_concat(a, b, x);
                    lemma_mod_count_concat(a + b, d, x);
                    lemma_mod_count_concat(a + b + d, e, x);
                    assert(inside(alignment::shift(child_span(mcs[i]), mb), x) == (i == j));
                },
                _ => {},
            }
        },
    }
}

proof fn lemma_element_mod(
    c: grammar::Branch,
    d: grammar::Branch,
    ob: int,
    mb: int,
    x: int,
)
    requires
        cover::child_laid(NodeKind::Array, c),
        cover::child_laid(NodeKind::Array, d),
    ensures
        count_ok(
            mod_count(alignment::element_pieces(c, d, ob, mb), x),
            inside(alignment::shift(child_span(d), mb), x),
            child_distinct_keys(c),
        ),
    decreases c, 0nat,
{
    match (c, d) {
        (
            grammar::Branch::Element { value, trailing },
            grammar::Branch::Element { value: mvalue, trailing: mtrailing },
        ) => {
            lemma_node_mod(*value, *mvalue, ob, mb, x);
            lemma_bytes(trailing, mtrailing, ob, mb, x);
            lemma_mod_count_concat(
                alignment::node_pieces(*value, *mvalue, ob, mb),
                alignment::bytes_pieces(trailing, mtrailing, ob, mb),
                x,
            );
        },
        _ => {},
    }
}

proof fn lemma_paired_mod(
    ocs: Seq<grammar::Branch>,
    mcs: Seq<grammar::Branch>,
    pairs: Seq<(int, int)>,
    ob: int,
    mb: int,
    x: int,
    j: int,
)
    requires
        cover::all_laid(NodeKind::Array, ocs),
        cover::all_laid(NodeKind::Array, mcs),
        ordered_pairs(pairs, ocs.len() as int, mcs.len() as int),
        locates(mcs, mb, x, j),
    ensures
        count_ok(
            mod_count(alignment::paired_pieces(ocs, mcs, pairs, ob, mb), x),
            0 <= j < alignment::after_pairs(pairs).1,
            all_distinct_keys(ocs),
        ),
    decreases ocs, pairs.len(),
{
    if pairs.len() > 0 {
        let init = pairs.drop_last();
        let (po, pm) = pairs.last();
        let (oi, mi) = alignment::after_pairs(init);
        assert(pairs[pairs.len() - 1] == (po, pm));
        if init.len() > 0 {
            assert(pairs[pairs.len() - 2].1 < pairs[pairs.len() - 1].1);
            assert(init.last() == pairs[pairs.len() - 2]);
        }
        lemma_paired_mod(ocs, mcs, init, ob, mb, x, j);
        lemma_orig_run_mod(NodeKind::Array, ocs, oi, po, ob, x);
        lemma_mod_run_mod(mcs, mi, pm, mb, x, j);
        lemma_all_laid_at(NodeKind::Array, ocs, po);
        lemma_all_laid_at(NodeKind::Array, mcs, pm);
        if all_distinct_keys(ocs) {
            lemma_all_distinct_at(ocs, po);
        }
        lemma_element_mod(ocs[po], mcs[pm], ob, mb, x);
        let a = alignment::paired_pieces(ocs, mcs, init, ob, mb);
        let b = alignment::orig_only_children(ocs, oi, po, ob);
        let c = alignment::mod_only_children(mcs, mi, pm, mb);
        let d = alignment::element_pieces(ocs[po], mcs[pm], ob, mb);
        lemma_mod_count_concat(a, b, x);
        lemma_mod_count_concat(a + b, c, x);
        lemma_mod_count_concat(a + b + c, d, x);
    }
}

proof fn lemma_elements_mod(
    ocs: Seq<grammar::Branch>,
    mcs: Seq<grammar::Branch>,
    pairs: Seq<(int, int)>,
    ob: int,
    mb: int,
    x: int,
    j: int,
)
    requires
        cover::all_laid(NodeKind::Array, ocs),
        cover::all_laid(NodeKind::Array, mcs),
        ordered_pairs(pairs, ocs.len() as int, mcs.len() as int),
        locates(mcs, mb, x, j),
    ensures
        count_ok(
            mod_count(alignment::elements_pieces(ocs, mcs, pairs, ob, mb), x),
            j >= 0,
            all_distinct_keys(ocs),
        ),
    decreases ocs, pairs.len() + 1,
{
    let (oi, mi) = alignment::after_pairs(pairs);
    let n = ocs.len() as int;
    let k = mcs.len() as int;
    if pairs.len() > 0 {
        assert(pairs[pairs.len() - 1] == pairs.last());
    }
    lemma_paired_mod(ocs, mcs, pairs, ob, mb, x, j);
    lemma_orig_run_mod(NodeKind::Array, ocs, oi, n, ob, x);
    lemma_mod_run_mod(mcs, mi, k, mb, x, j);
    let a = alignment::paired_pieces(ocs, mcs, pairs, ob, mb);
    let b = alignment::orig_only_children(ocs, oi, n, ob);
    let c = alignment::mod_only_children(mcs, mi, k, mb);
    lemma_mod_count_concat(a, b, x);
    lemma_mod_count_concat(a + b, c, x);
}

// ---- merging ----

/// The ranges of the pieces run forwards.
pub open spec fn forwards(p: Piece) -> bool {
    match p {
        Piece::Both { orig, modified } => orig.start <= orig.end && modified.start <= modified.end,
        Piece::Orig { orig } => orig.start <= orig.end,
        Piece::Modified { modified } => modified.start <= modified.end,
    }
}

/// Every range runs forwards.
pub open spec fn all_forwards(ps: Seq<Piece>) -> bool {
    forall|i: int| 0 <= i < ps.len() ==> forwards(#[trigger] ps[i])
}

proof fn lemma_absorb(out: Seq<Piece>, p: Piece, x: int)
    requires
        all_forwards(out),
        forwards(p),
    ensures
        all_forwards(alignment::absorb(out, p)),
        mod_count(alignment::absorb(out, p), x) == mod_count(out.push(p), x),
{
    reveal_with_fuel(mod_count, 2);
    assert(out.push(p).drop_last() =~= out);
    if out.len() > 0 && alignment::merged(out.last(), p) is Some {
        let q = alignment::merged(out.last(), p)->0;
        assert(out.drop_last().push(q).drop_last() =~= out.drop_last());
        assert(forwards(out[out.len() - 1]));
        assert(out.last() == out[out.len() - 1]);
    }
}

/// Merging keeps how often each byte of the modified side appears.
pub proof fn coalesced_keeps_mod_count(ps: Seq<Piece>, x: int)
    requires
        all_forwards(ps),
    ensures
        all_forwards(alignment::coalesced(ps)),
        mod_count(alignment::coalesced(ps), x) == mod_count(ps, x),
    decreases ps.len(),
{
    if ps.len() > 0 {
        let init = ps.drop_last();
        assert forall|i: int| 0 <= i < init.len() implies forwards(#[trigger] init[i]) by {
            assert(init[i] == ps[i]);
        }
        coalesced_keeps_mod_count(init, x);
        assert(forwards(ps[ps.len() - 1]));
        lemma_absorb(alignment::coalesced(init), ps.last(), x);
        assert(alignment::coalesced(init).push(ps.last()).drop_last() =~= alignment::coalesced(
            init,
        ));
    }
}

pub(crate) proof fn lemma_tiles_last(rs: Seq<grammar::Span>, r: grammar::Span, start: int, end: int)
    ensures
        cover::tiles(rs.push(r), start, end) == (r.end == end && r.start < end && cover::tiles(
            rs,
            start,
            r.start,
        )),
{
    assert(rs.push(r).drop_last() =~= rs);
}

/// Merging keeps that the original is held once and in order.
pub proof fn coalesced_keeps_orig(ps: Seq<Piece>, start: int, end: int)
    requires
        all_forwards(ps),
        covers_orig(ps, start, end),
    ensures
        covers_orig(alignment::coalesced(ps), start, end),
    decreases ps.len(),
{
    if ps.len() > 0 {
        let init = ps.drop_last();
        let p = ps.last();
        assert forall|i: int| 0 <= i < init.len() implies forwards(#[trigger] init[i]) by {
            assert(init[i] == ps[i]);
        }
        assert(forwards(ps[ps.len() - 1]));
        let before = match p {
            Piece::Both { orig, .. } => orig.start,
            Piece::Orig { orig } => orig.start,
            Piece::Modified { .. } => end,
        };
        match p {
            Piece::Both { orig, .. } => lemma_tiles_last(orig_spans(init), orig, start, end),
            Piece::Orig { orig } => lemma_tiles_last(orig_spans(init), orig, start, end),
            Piece::Modified { .. } => {},
        }
        coalesced_keeps_orig(init, start, before);
        let out = alignment::coalesced(init);
        assert(out.push(p).drop_last() =~= out);
        match p {
            Piece::Both { orig, .. } => lemma_tiles_last(orig_spans(out), orig, start, end),
            Piece::Orig { orig } => lemma_tiles_last(orig_spans(out), orig, start, end),
            Piece::Modified { .. } => {},
        }
        assert(covers_orig(out.push(p), start, end));
        if out.len() > 0 && alignment::merged(out.last(), p) is Some {
            let q = alignment::merged(out.last(), p)->0;
            let head = out.drop_last();
            assert(head.push(q).drop_last() =~= head);
            match (out.last(), p, q) {
                (
                    Piece::Both { orig: lo, .. },
                    Piece::Both { orig: ro, .. },
                    Piece::Both { orig: qo, .. },
                ) => {
                    lemma_tiles_last(orig_spans(head), lo, start, ro.start);
                    lemma_tiles_last(orig_spans(head), qo, start, end);
                },
                (
                    Piece::Orig { orig: lo },
                    Piece::Orig { orig: ro },
                    Piece::Orig { orig: qo },
                ) => {
                    lemma_tiles_last(orig_spans(head), lo, start, ro.start);
                    lemma_tiles_last(orig_spans(head), qo, start, end);
                },
                _ => {},
            }
        }
    }
}

/// After merging no two neighbours can be merged any more.
pub proof fn coalesced_is_merged(ps: Seq<Piece>)
    requires
        all_forwards(ps),
    ensures
        forall|i: int|
            0 < i < alignment::coalesced(ps).len() ==> alignment::merged(
                alignment::coalesced(ps)[i - 1],
                #[trigger] alignment::coalesced(ps)[i],
            ) is None,
        forall|i: int|
            0 <= i < alignment::coalesced(ps).len() ==> !alignment::is_empty_piece(
                #[trigger] alignment::coalesced(ps)[i],
            ),
    decreases ps.len(),
{
    if ps.len() > 0 {
        let init = ps.drop_last();
        assert forall|i: int| 0 <= i < init.len() implies forwards(#[trigger] init[i]) by {
            assert(init[i] == ps[i]);
        }
        assert(forwards(ps[ps.len() - 1]));
        coalesced_is_merged(init);
        coalesced_keeps_mod_count(init, 0);
        let out = alignment::coalesced(init);
        let p = ps.last();
        let r = alignment::coalesced(ps);
        assert(r == alignment::absorb(out, p));
        if out.len() > 0 {
            let n = out.len() - 1;
            assert(out.last() == out[n]);
            assert(forwards(out[n]));
            assert(!alignment::is_empty_piece(out[n]));
            if n > 0 {
                assert(alignment::merged(out[n - 1], out[n]) is None);
                assert(forwards(out[n - 1]));
            }
        }
        assert forall|i: int| 0 < i < r.len() implies alignment::merged(
            r[i - 1],
            #[trigger] r[i],
        ) is None by {
            if i < out.len() - 1 {
                assert(alignment::merged(out[i - 1], out[i]) is None);
            }
        }
        assert forall|i: int| 0 <= i < r.len() implies !alignment::is_empty_piece(
            #[trigger] r[i],
        ) by {
            if i < out.len() {
                assert(!alignment::is_empty_piece(out[i]));
            }
        }
    }
}

// ---- pieces run forwards ----

pub(crate) proof fn lemma_forwards_concat(a: Seq<Piece>, b: Seq<Piece>)
    requires
        all_forwards(a),
        all_forwards(b),
    ensures
        all_forwards(a + b),
{
    let c = a + b;
    assert forall|i: int| 0 <= i < c.len() implies forwards(#[trigger] c[i]) by {
        if i < a.len() {
            assert(c[i] == a[i]);
        } else {
            assert(c[i] == b[i - a.len()]);
        }
    }
}

proof fn lemma_child_forwards(kind: NodeKind, c: grammar::Branch, base: int)
    requires
        cover::child_laid(kind, c),
    ensures
        all_forwards(alignment::orig_only_child(c, base)),
        all_forwards(alignment::mod_only_child(c, base)),
{
}

proof fn lemma_runs_forwards(
    kind: NodeKind,
    cs: Seq<grammar::Branch>,
    from: int,
    to: int,
    base: int,
)
    requires
        cover::all_laid(kind, cs),
        0 <= from <= to <= cs.len(),
    ensures
        all_forwards(alignment::orig_only_children(cs, from, to, base)),
        all_forwards(alignment::mod_only_children(cs, from, to, base)),
    decreases to - from,
{
    if from < to {
        lemma_runs_forwards(kind, cs, from, to - 1, base);
        lemma_all_laid_at(kind, cs, to - 1);
        lemma_child_forwards(kind, cs[to - 1], base);
        lemma_forwards_concat(
            alignment::orig_only_children(cs, from, to - 1, base),
            alignment::orig_only_child(cs[to - 1], base),
        );
        lemma_forwards_concat(
            alignment::mod_only_children(cs, from, to - 1, base),
            alignment::mod_only_child(cs[to - 1], base),
        );
    }
}

proof fn lemma_rest_forwards(
    ocs: Seq<grammar::Branch>,
    mcs: Seq<grammar::Branch>,
    n: int,
    mb: int,
)
    requires
        cover::all_laid(NodeKind::Object, mcs),
        0 <= n <= mcs.len(),
    ensures
        all_forwards(alignment::mod_rest(ocs, mcs, n, mb)),
    decreases n,
{
    if n > 0 {
        lemma_rest_forwards(ocs, mcs, n - 1, mb);
        lemma_all_laid_at(NodeKind::Object, mcs, n - 1);
        lemma_child_forwards(NodeKind::Object, mcs[n - 1], mb);
        lemma_forwards_concat(
            alignment::mod_rest(ocs, mcs, n - 1, mb),
            alignment::mod_only_child(mcs[n - 1], mb),
        );
    }
}

proof fn lemma_node_forwards(o: grammar::Tree, m: grammar::Tree, ob: int, mb: int)
    requires
        cover::well_laid(o),
        cover::well_laid(m),
    ensures
        all_forwards(alignment::node_pieces(o, m, ob, mb)),
    decreases o, 0nat,
{
    if o.kind == m.kind && grammar::is_container(o.kind) {
        let op = alignment::open_piece(o, m, ob, mb);
        let cl = alignment::close_piece(o, m, ob, mb);
        if o.kind == NodeKind::Object {
            let a = alignment::members_pieces(o.children, m.children, ob, mb);
            let b = alignment::mod_rest(o.children, m.children, m.children.len() as int, mb);
            lemma_members_forwards(o.children, m.children, ob, mb);
            lemma_rest_forwards(o.children, m.children, m.children.len() as int, mb);
            lemma_forwards_concat(seq![op], a);
            lemma_forwards_concat(seq![op] + a, b);
            lemma_forwards_concat(seq![op] + a + b, seq![cl]);
        } else {
            let ps = alignment::array_pairs(o.children, m.children);
            lemma_array_pairs_ordered(o.children, m.children);
            lemma_paired_forwards(o.children, m.children, ps, ob, mb);
            let (oi, mi) = alignment::after_pairs(ps);
            if ps.len() > 0 {
                assert(ps[ps.len() - 1] == ps.last());
            }
            let n = o.children.len() as int;
            let k = m.children.len() as int;
            lemma_runs_forwards(NodeKind::Array, o.children, oi, n, ob);
            lemma_runs_forwards(NodeKind::Array, m.children, mi, k, mb);
            let a = alignment::paired_pieces(o.children, m.children, ps, ob, mb);
            let b = alignment::orig_only_children(o.children, oi, n, ob);
            let c = alignment::mod_only_children(m.children, mi, k, mb);
            lemma_forwards_concat(a, b);
            lemma_forwards_concat(a + b, c);
            lemma_forwards_concat(seq![op], a + b + c);
            lemma_forwards_concat(seq![op] + (a + b + c), seq![cl]);
            assert(alignment::elements_pieces(o.children, m.children, ps, ob, mb) == a + b + c);
        }
    }
}

proof fn lemma_members_forwards(
    ocs: Seq<grammar::Branch>,
    mcs: Seq<grammar::Branch>,
    ob: int,
    mb: int,
)
    requires
        cover::all_laid(NodeKind::Object, ocs),
        cover::all_laid(NodeKind::Object, mcs),
    ensures
        all_forwards(alignment::members_pieces(ocs, mcs, ob, mb)),
    decreases ocs, 0nat,
{
    if ocs.len() > 0 {
        lemma_members_forwards(ocs.drop_last(), mcs, ob, mb);
        lemma_member_forwards(ocs.last(), mcs, ob, mb);
        lemma_forwards_concat(
            alignment::members_pieces(ocs.drop_last(), mcs, ob, mb),
            alignment::member_pieces(ocs.last(), mcs, ob, mb),
        );
    }
}

proof fn lemma_member_forwards(
    c: grammar::Branch,
    mcs: Seq<grammar::Branch>,
    ob: int,
    mb: int,
)
    requires
        cover::child_laid(NodeKind::Object, c),
        cover::all_laid(NodeKind::Object, mcs),
    ensures
        all_forwards(alignment::member_pieces(c, mcs, ob, mb)),
    decreases c, 0nat,
{
    lemma_first_with_key(mcs, key_text(c));
    match alignment::partner(c, mcs) {
        None => lemma_child_forwards(NodeKind::Object, c, ob),
        Some(i) => {
            lemma_all_laid_at(NodeKind::Object, mcs, i);
            match (c, mcs[i]) {
                (
                    grammar::Branch::Member { key, text: _, between, value, trailing },
                    grammar::Branch::Member {
                        key: mkey,
                        text: _,
                        between: mbetween,
                        value: mvalue,
                        trailing: mtrailing,
                    },
                ) => {
                    lemma_node_forwards(*value, *mvalue, ob, mb);
                    let a = alignment::bytes_pieces(key, mkey, ob, mb);
                    let b = alignment::bytes_pieces(between, mbetween, ob, mb);
                    let d = alignment::node_pieces(*value, *mvalue, ob, mb);
                    let e = alignment::bytes_pieces(trailing, mtrailing, ob, mb);
                    lemma_forwards_concat(a, b);
                    lemma_forwards_concat(a + b, d);
                    lemma_forwards_concat(a + b + d, e);
                },
                _ => {},
            }
        },
    }
}

proof fn lemma_element_forwards(c: grammar::Branch, d: grammar::Branch, ob: int, mb: int)
    requires
        cover::child_laid(NodeKind::Array, c),
        cover::child_laid(NodeKind::Array, d),
    ensures
        all_forwards(alignment::element_pieces(c, d, ob, mb)),
    decreases c, 0nat,
{
    match (c, d) {
        (
            grammar::Branch::Element { value, trailing },
            grammar::Branch::Element { value: mvalue, trailing: mtrailing },
        ) => {
            lemma_node_forwards(*value, *mvalue, ob, mb);
            lemma_forwards_concat(
                alignment::node_pieces(*value, *mvalue, ob, mb),
                alignment::bytes_pieces(trailing, mtrailing, ob, mb),
            );
        },
        _ => {},
    }
}

proof fn lemma_paired_forwards(
    ocs: Seq<grammar::Branch>,
    mcs: Seq<grammar::Branch>,
    pairs: Seq<(int, int)>,
    ob: int,
    mb: int,
)
    requires
        cover::all_laid(NodeKind::Array, ocs),
        cover::all_laid(NodeKind::Array, mcs),
        ordered_pairs(pairs, ocs.len() as int, mcs.len() as int),
    ensures
        all_forwards(alignment::paired_pieces(ocs, mcs, pairs, ob, mb)),
    decreases ocs, pairs.len(),
{
    if pairs.len() > 0 {
        let init = pairs.drop_last();
        let (po, pm) = pairs.last();
        let (oi, mi) = alignment::after_pairs(init);
        assert(pairs[pairs.len() - 1] == (po, pm));
        if init.len() > 0 {
            assert(pairs[pairs.len() - 2].1 < pairs[pairs.len() - 1].1);
            assert(init.last() == pairs[pairs.len() - 2]);
        }
        lemma_paired_forwards(ocs, mcs, init, ob, mb);
        lemma_runs_forwards(NodeKind::Array, ocs, oi, po, ob);
        lemma_runs_forwards(NodeKind::Array, mcs, mi, pm, mb);
        lemma_all_laid_at(NodeKind::Array, ocs, po);
        lemma_all_laid_at(NodeKind::Array, mcs, pm);
        lemma_element_forwards(ocs[po], mcs[pm], ob, mb);
        let a = alignment::paired_pieces(ocs, mcs, init, ob, mb);
        let b = alignment::orig_only_children(ocs, oi, po, ob);
        let c = alignment::mod_only_children(mcs, mi, pm, mb);
        let d = alignment::element_pieces(ocs[po], mcs[pm], ob, mb);
        lemma_forwards_concat(a, b);
        lemma_forwards_concat(a + b, c);
        lemma_forwards_concat(a + b + c, d);
    }
}

// ---- the laws of whole documents ----

/// The spans of two aligned documents, as `align_documents` returns them.
pub open spec fn aligned(
    o: grammar::DocumentTree,
    m: grammar::DocumentTree,
    ob: int,
    mb: int,
) -> Seq<Piece> {
    alignment::coalesced(alignment::document_pieces(o, m, ob, mb))
}

pub(crate) proof fn lemma_document_forwards(
    o: grammar::DocumentTree,
    m: grammar::DocumentTree,
    ob: int,
    mb: int,
    olen: int,
    mlen: int,
)
    requires
        cover::document_laid(o, olen),
        cover::document_laid(m, mlen),
    ensures
        all_forwards(alignment::document_pieces(o, m, ob, mb)),
{
    lemma_node_forwards(o.root, m.root, ob, mb);
    let a = alignment::bytes_pieces(o.leading, m.leading, ob, mb);
    let b = alignment::node_pieces(o.root, m.root, ob, mb);
    let c = alignment::bytes_pieces(o.trailing, m.trailing, ob, mb);
    lemma_forwards_concat(a, b);
    lemma_forwards_concat(a + b, c);
}

/// Aligning two parsed documents loses nothing: the spans hold every byte of
/// the original exactly once and in order, and every byte of the modified
/// document at least once, exactly once where no object of the original has
/// one key twice; no span reaches beyond the modified document.
pub proof fn alignment_keeps_every_byte(o: Seq<u8>, m: Seq<u8>, ob: int, mb: int, x: int)
    ensures
        (grammar::document(o), grammar::document(m)) matches (
            grammar::Scan::Done { value: od, next: _ },
            grammar::Scan::Done { value: md, next: _ },
        ) ==> {
            let ps = aligned(od, md, ob, mb);
            &&& covers_orig(ps, ob, ob + o.len())
            &&& mb <= x < mb + m.len() ==> mod_count(ps, x) >= 1
            &&& mb <= x < mb + m.len() && distinct_keys(od.root) ==> mod_count(ps, x) == 1
            &&& !(mb <= x < mb + m.len()) ==> mod_count(ps, x) == 0
        },
{
    cover::document_covers_input(o);
    cover::document_covers_input(m);
    match (grammar::document(o), grammar::document(m)) {
        (
            grammar::Scan::Done { value: od, next: _ },
            grammar::Scan::Done { value: md, next: _ },
        ) => {
            let a = alignment::bytes_pieces(od.leading, md.leading, ob, mb);
            let b = alignment::node_pieces(od.root, md.root, ob, mb);
            let c = alignment::bytes_pieces(od.trailing, md.trailing, ob, mb);
            lemma_bytes(od.leading, md.leading, ob, mb, x);
            lemma_bytes(od.trailing, md.trailing, ob, mb, x);
            lemma_node_orig(od.root, md.root, ob, mb);
            lemma_node_mod(od.root, md.root, ob, mb, x);
            lemma_covers_concat(a, b, ob, ob + od.root.start, ob + od.root.end);
            lemma_covers_concat(a + b, c, ob, ob + od.root.end, ob + o.len());
            lemma_mod_count_concat(a, b, x);
            lemma_mod_count_concat(a + b, c, x);
            lemma_document_forwards(od, md, ob, mb, o.len() as int, m.len() as int);
            coalesced_keeps_orig(a + b + c, ob, ob + o.len());
            coalesced_keeps_mod_count(a + b + c, x);
        },
        _ => {},
    }
}

// ---- identical documents ----

/// Matched pieces only, of the same bytes on both sides, from `start` to `end`.
pub(crate) open spec fn diagonal(ps: Seq<Piece>, start: int, end: int, ob: int, mb: int) -> bool
    decreases ps.len(),
{
    if ps.len() == 0 {
        start == end
    } else {
        match ps.last() {
            Piece::Both { orig, modified } => {
                &&& orig.start < orig.end
                &&& orig.end == ob + end
                &&& modified.start - mb == orig.start - ob
                &&& modified.end == mb + end
                &&& diagonal(ps.drop_last(), start, orig.start - ob, ob, mb)
            },
            _ => false,
        }
    }
}

pub(crate) proof fn lemma_diagonal_order(ps: Seq<Piece>, start: int, end: int, ob: int, mb: int)
    requires
        diagonal(ps, start, end, ob, mb),
    ensures
        start <= end,
    decreases ps.len(),
{
    if ps.len() > 0 {
        match ps.last() {
            Piece::Both { orig, modified } => lemma_diagonal_order(
                ps.drop_last(),
                start,
                orig.start - ob,
                ob,
                mb,
            ),
            _ => {},
        }
    }
}

proof fn lemma_diagonal_concat(
    a: Seq<Piece>,
    b: Seq<Piece>,
    start: int,
    mid: int,
    end: int,
    ob: int,
    mb: int,
)
    requires
        diagonal(a, start, mid, ob, mb),
        diagonal(b, mid, end, ob, mb),
    ensures
        diagonal(a + b, start, end, ob, mb),
    decreases b.len(),
{
    if b.len() == 0 {
        assert(a + b =~= a);
    } else {
        match b.last() {
            Piece::Both { orig, modified } => {
                lemma_diagonal_concat(a, b.drop_last(), start, mid, orig.start - ob, ob, mb);
                assert((a + b).drop_last() =~= a + b.drop_last());
            },
            _ => {},
        }
    }
}

/// One matched span over the same bytes of both sides.
pub open spec fn whole(start: int, end: int, ob: int, mb: int) -> Piece {
    Piece::Both {
        orig: grammar::Span { start: ob + start, end: ob + end },
        modified: grammar::Span { start: mb + start, end: mb + end },
    }
}

proof fn lemma_diagonal_one(start: int, end: int, ob: int, mb: int)
    requires
        start < end,
    ensures
        diagonal(seq![whole(start, end, ob, mb)], start, end, ob, mb),
{
    reveal_with_fuel(diagonal, 2);
    assert(seq![whole(start, end, ob, mb)].drop_last() =~= seq![]);
}

proof fn lemma_diagonal_collapses(ps: Seq<Piece>, start: int, end: int, ob: int, mb: int)
    requires
        diagonal(ps, start, end, ob, mb),
    ensures
        alignment::coalesced(ps) == (if start < end {
            seq![whole(start, end, ob, mb)]
        } else {
            seq![]
        }),
    decreases ps.len(),
{
    if ps.len() > 0 {
        match ps.last() {
            Piece::Both { orig, modified } => {
                let mid = orig.start - ob;
                lemma_diagonal_order(ps.drop_last(), start, mid, ob, mb);
                lemma_diagonal_collapses(ps.drop_last(), start, mid, ob, mb);
                let out = alignment::coalesced(ps.drop_last());
                if start < mid {
                    assert(out.last() == whole(start, mid, ob, mb));
                    assert(alignment::merged(out.last(), ps.last()) == Some(
                        whole(start, end, ob, mb),
                    ));
                    assert(out.drop_last().push(whole(start, end, ob, mb)) =~= seq![
                        whole(start, end, ob, mb),
                    ]);
                } else {
                    assert(out.push(ps.last()) =~= seq![whole(start, end, ob, mb)]);
                }
            },
            _ => {},
        }
    }
}

proof fn lemma_bytes_diagonal(r: grammar::Span, ob: int, mb: int)
    requires
        r.start <= r.end,
    ensures
        diagonal(alignment::bytes_pieces(r, r, ob, mb), r.start, r.end, ob, mb),
{
    if r.start < r.end {
        lemma_diagonal_one(r.start, r.end, ob, mb);
        assert(alignment::bytes_pieces(r, r, ob, mb) =~= seq![whole(r.start, r.end, ob, mb)]);
    } else {
        assert(alignment::bytes_pieces(r, r, ob, mb) =~= seq![]);
    }
}

proof fn lemma_all_no_blank_at(cs: Seq<grammar::Branch>, i: int)
    requires
        all_no_blank(cs),
        0 <= i < cs.len(),
    ensures
        child_no_blank(cs[i]),
    decreases cs.len(),
{
    if i < cs.len() - 1 {
        lemma_all_no_blank_at(cs.drop_last(), i);
    }
}

proof fn lemma_own_partner(cs: Seq<grammar::Branch>, i: int)
    requires
        cover::all_laid(NodeKind::Object, cs),
        keys_differ(cs),
        all_no_blank(cs),
        0 <= i < cs.len(),
    ensures
        alignment::partner(cs[i], cs) == Some(i),
{
    lemma_all_laid_at(NodeKind::Object, cs, i);
    lemma_all_no_blank_at(cs, i);
    let t = key_text(cs[i]);
    lemma_first_with_key(cs, t);
    assert(alignment::has_key(cs[i], t));
    match alignment::first_with_key(cs, t) {
        Some(j) => {
            if j < i {
                assert(key_text(cs[j]) != key_text(cs[i]));
            } else if j > i {
                assert(!alignment::has_key(cs[i], t));
            }
        },
        None => {},
    }
}

pub(crate) proof fn lemma_node_diagonal(t: grammar::Tree, ob: int, mb: int)
    requires
        cover::well_laid(t),
        distinct_keys(t),
        no_blank_object(t),
    ensures
        diagonal(alignment::node_pieces(t, t, ob, mb), t.start, t.end, ob, mb),
    decreases t, 0nat,
{
    if grammar::is_container(t.kind) {
        let op = alignment::open_piece(t, t, ob, mb);
        let cl = alignment::close_piece(t, t, ob, mb);
        lemma_diagonal_one(t.start, t.start + 1, ob, mb);
        lemma_diagonal_one(t.end - 1, t.end, ob, mb);
        let cs = t.children;
        let n = cs.len() as int;
        let s = t.start + 1;
        let e = t.end - 1;
        assert(child_pos(cs, s, n) == e);
        if t.kind == NodeKind::Object {
            let a = alignment::members_pieces(cs, cs, ob, mb);
            let b = alignment::mod_rest(cs, cs, n, mb);
            lemma_members_diagonal(cs, s, e, n, ob, mb);
            assert(cs.take(n) =~= cs);
            lemma_no_rest(cs, n, mb);
            assert(seq![op] + a + b + seq![cl] =~= seq![op] + a + seq![cl]);
            lemma_diagonal_concat(seq![op], a, t.start, s, e, ob, mb);
            lemma_diagonal_concat(seq![op] + a, seq![cl], t.start, e, t.end, ob, mb);
        } else {
            let ps = alignment::array_pairs(cs, cs);
            lemma_identity_pairs(cs);
            lemma_elements_diagonal(cs, s, e, n, ob, mb);
            assert(ps =~= alignment::index_pairing(n as nat));
            let a = alignment::elements_pieces(cs, cs, ps, ob, mb);
            let p = alignment::paired_pieces(cs, cs, ps, ob, mb);
            assert(alignment::after_pairs(ps) == (n, n));
            assert(a =~= p);
            lemma_diagonal_concat(seq![op], a, t.start, s, e, ob, mb);
            lemma_diagonal_concat(seq![op] + a, seq![cl], t.start, e, t.end, ob, mb);
        }
    } else {
        lemma_bytes_diagonal(alignment::tree_span(t), ob, mb);
    }
}

proof fn lemma_no_rest(cs: Seq<grammar::Branch>, n: int, mb: int)
    requires
        cover::all_laid(NodeKind::Object, cs),
        keys_differ(cs),
        all_no_blank(cs),
        0 <= n <= cs.len(),
    ensures
        alignment::mod_rest(cs, cs, n, mb) == Seq::<Piece>::empty(),
    decreases n,
{
    if n > 0 {
        lemma_no_rest(cs, n - 1, mb);
        lemma_own_partner(cs, n - 1);
        assert(alignment::is_partner(cs, cs, n - 1));
    }
}

proof fn lemma_members_diagonal(
    cs: Seq<grammar::Branch>,
    start: int,
    end: int,
    n: int,
    ob: int,
    mb: int,
)
    requires
        cover::contiguous(cs, start, end),
        cover::all_laid(NodeKind::Object, cs),
        keys_differ(cs),
        all_distinct_keys(cs),
        all_no_blank(cs),
        0 <= n <= cs.len(),
    ensures
        diagonal(
            alignment::members_pieces(cs.take(n), cs, ob, mb),
            start,
            child_pos(cs, start, n),
            ob,
            mb,
        ),
    decreases cs, n,
{
    if n > 0 {
        let c = cs[n - 1];
        assert(cs.take(n).drop_last() =~= cs.take(n - 1));
        lemma_members_diagonal(cs, start, end, n - 1, ob, mb);
        lemma_own_partner(cs, n - 1);
        lemma_all_laid_at(NodeKind::Object, cs, n - 1);
        lemma_all_distinct_at(cs, n - 1);
        lemma_all_no_blank_at(cs, n - 1);
        assert(cover::child_start(cs[n - 1]) == child_pos(cs, start, n - 1));
        lemma_child_diagonal(NodeKind::Object, c, ob, mb);
        lemma_diagonal_concat(
            alignment::members_pieces(cs.take(n - 1), cs, ob, mb),
            alignment::member_pieces(c, cs, ob, mb),
            start,
            child_pos(cs, start, n - 1),
            child_pos(cs, start, n),
            ob,
            mb,
        );
    }
}

/// A child matched with itself.
spec fn self_pieces(c: grammar::Branch, ob: int, mb: int) -> Seq<Piece> {
    match c {
        grammar::Branch::Member { key, text: _, between, value, trailing } => {
            alignment::bytes_pieces(key, key, ob, mb) + alignment::bytes_pieces(
                between,
                between,
                ob,
                mb,
            ) + alignment::node_pieces(*value, *value, ob, mb) + alignment::bytes_pieces(
                trailing,
                trailing,
                ob,
                mb,
            )
        },
        grammar::Branch::Element { value, trailing } => alignment::node_pieces(
            *value,
            *value,
            ob,
            mb,
        ) + alignment::bytes_pieces(trailing, trailing, ob, mb),
    }
}

proof fn lemma_child_diagonal(kind: NodeKind, c: grammar::Branch, ob: int, mb: int)
    requires
        cover::child_laid(kind, c),
        child_distinct_keys(c),
        child_no_blank(c),
    ensures
        diagonal(
            self_pieces(c, ob, mb),
            cover::child_start(c),
            cover::child_end(c),
            ob,
            mb,
        ),
    decreases c, 0nat,
{
    match c {
        grammar::Branch::Member { key, text: _, between, value, trailing } => {
            lemma_bytes_diagonal(key, ob, mb);
            lemma_bytes_diagonal(between, ob, mb);
            lemma_node_diagonal(*value, ob, mb);
            lemma_bytes_diagonal(trailing, ob, mb);
            let a = alignment::bytes_pieces(key, key, ob, mb);
            let b = alignment::bytes_pieces(between, between, ob, mb);
            let d = alignment::node_pieces(*value, *value, ob, mb);
            let e = alignment::bytes_pieces(trailing, trailing, ob, mb);
            lemma_diagonal_concat(a, b, key.start, key.end, between.end, ob, mb);
            lemma_diagonal_concat(a + b, d, key.start, between.end, value.end, ob, mb);
            lemma_diagonal_concat(a + b + d, e, key.start, value.end, trailing.end, ob, mb);
        },
        grammar::Branch::Element { value, trailing } => {
            lemma_node_diagonal(*value, ob, mb);
            lemma_bytes_diagonal(trailing, ob, mb);
            lemma_diagonal_concat(
                alignment::node_pieces(*value, *value, ob, mb),
                alignment::bytes_pieces(trailing, trailing, ob, mb),
                value.start,
                value.end,
                trailing.end,
                ob,
                mb,
            );
        },
    }
}

proof fn lemma_identity_trace(h: Seq<u64>, n: int)
    requires
        0 <= n <= h.len(),
    ensures
        lcs::lcs_trace(h, h, n, n) == alignment::index_pairing(n as nat),
    decreases n,
{
    if n > 0 {
        lemma_identity_trace(h, n - 1);
        assert(alignment::index_pairing((n - 1) as nat).push((n - 1, n - 1))
            =~= alignment::index_pairing(n as nat));
    } else {
        assert(alignment::index_pairing(0) =~= seq![]);
    }
}

proof fn lemma_identity_pairs(cs: Seq<grammar::Branch>)
    ensures
        alignment::array_pairs(cs, cs) == alignment::index_pairing(cs.len()),
{
    lemma_identity_trace(alignment::shape_hashes(cs), cs.len() as int);
}

proof fn lemma_elements_diagonal(
    cs: Seq<grammar::Branch>,
    start: int,
    end: int,
    n: int,
    ob: int,
    mb: int,
)
    requires
        cover::contiguous(cs, start, end),
        cover::all_laid(NodeKind::Array, cs),
        all_distinct_keys(cs),
        all_no_blank(cs),
        0 <= n <= cs.len(),
    ensures
        diagonal(
            alignment::paired_pieces(cs, cs, alignment::index_pairing(n as nat), ob, mb),
            start,
            child_pos(cs, start, n),
            ob,
            mb,
        ),
    decreases cs, n,
{
    if n > 0 {
        let c = cs[n - 1];
        let ps = alignment::index_pairing(n as nat);
        let init = alignment::index_pairing((n - 1) as nat);
        assert(ps.drop_last() =~= init);
        lemma_elements_diagonal(cs, start, end, n - 1, ob, mb);
        lemma_all_laid_at(NodeKind::Array, cs, n - 1);
        lemma_all_distinct_at(cs, n - 1);
        lemma_all_no_blank_at(cs, n - 1);
        assert(cover::child_start(cs[n - 1]) == child_pos(cs, start, n - 1));
        lemma_child_diagonal(NodeKind::Array, c, ob, mb);
        let a = alignment::paired_pieces(cs, cs, init, ob, mb);
        assert(alignment::after_pairs(init) == (n - 1, n - 1));
        assert(ps.last() == (n - 1, n - 1));
        assert(alignment::element_pieces(c, c, ob, mb) == self_pieces(c, ob, mb));
        assert(alignment::orig_only_children(cs, n - 1, n - 1, ob) =~= seq![]);
        assert(alignment::mod_only_children(cs, n - 1, n - 1, mb) =~= seq![]);
        assert(alignment::paired_pieces(cs, cs, ps, ob, mb) =~= a + self_pieces(c, ob, mb));
        lemma_diagonal_concat(
            a,
            self_pieces(c, ob, mb),
            start,
            child_pos(cs, start, n - 1),
            child_pos(cs, start, n),
            ob,
            mb,
        );
    }
}

/// Aligning a document with itself gives one span over the whole of it, unless
/// an object has one key twice or is empty with whitespace between its braces.
pub proof fn identical_documents_collapse(s: Seq<u8>, ob: int, mb: int)
    ensures
        grammar::document(s) matches grammar::Scan::Done { value: d, next: _ } ==> (
        distinct_keys(d.root) && no_blank_object(d.root) ==> aligned(d, d, ob, mb) == seq![
            whole(0, s.len() as int, ob, mb),
        ]),
{
    cover::document_covers_input(s);
    match grammar::document(s) {
        grammar::Scan::Done { value: d, next: _ } => {
            if distinct_keys(d.root) && no_blank_object(d.root) {
                lemma_bytes_diagonal(d.leading, ob, mb);
                lemma_node_diagonal(d.root, ob, mb);
                lemma_bytes_diagonal(d.trailing, ob, mb);
                let a = alignment::bytes_pieces(d.leading, d.leading, ob, mb);
                let b = alignment::node_pieces(d.root, d.root, ob, mb);
                let c = alignment::bytes_pieces(d.trailing, d.trailing, ob, mb);
                let n = s.len() as int;
                lemma_diagonal_concat(a, b, 0, d.root.start, d.root.end, ob, mb);
                lemma_diagonal_concat(a + b, c, 0, d.root.end, n, ob, mb);
                lemma_diagonal_collapses(a + b + c, 0, n, ob, mb);
                if s.len() == 0 {
                    assert(grammar::value(s, grammar::ws_end(s, 0)) is Fail);
                }
            }
        },
        grammar::Scan::Fail { .. } => {},
    }
}

} // verus!
