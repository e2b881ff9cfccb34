//! Values that stand in both files are matched with themselves, wherever
//! they stand and whatever was put in beside them.

use vstd::prelude::*;
use super::align_laws;
use super::alignment;
use super::alignment::Piece;
use super::cover;
use super::grammar;
use super::jsonl;
use super::jsonl_laws;
use super::lcs;
use super::parse::NodeKind;
use super::show_laws;
use super::source as show;
use crate::source::Source;

verus! {

/// The range `m` is the range `a`, `d` bytes further on.
pub open spec fn same_span(a: grammar::Span, m: grammar::Span, d: int) -> bool {
    m.start == a.start + d && m.end == a.end + d
}

/// The value `m` is the value `a`, `d` bytes further on.
pub open spec fn same_value(a: grammar::Tree, m: grammar::Tree, d: int) -> bool
    decreases a,
{
    &&& m.kind == a.kind
    &&& m.start == a.start + d
    &&& m.end == a.end + d
    &&& m.content == a.content
    &&& same_children(a.children, m.children, d)
}

/// [`same_value`], for two lists of children.
pub open spec fn same_children(
    a: Seq<grammar::Branch>,
    m: Seq<grammar::Branch>,
    d: int,
) -> bool
    decreases a,
{
    &&& a.len() == m.len()
    &&& a.len() > 0 ==> same_children(a.drop_last(), m.drop_last(), d) && same_child(
        a.last(),
        m.last(),
        d,
    )
}

/// [`same_value`], for two children.
pub open spec fn same_child(a: grammar::Branch, m: grammar::Branch, d: int) -> bool
    decreases a,
{
    match (a, m) {
        (
            grammar::Branch::Member { key, text, between, value, trailing },
            grammar::Branch::Member {
                key: mkey,
                text: mtext,
                between: mbetween,
                value: mvalue,
                trailing: mtrailing,
            },
        ) => {
            &&& text == mtext
            &&& same_span(key, mkey, d)
            &&& same_span(between, mbetween, d)
            &&& same_value(*value, *mvalue, d)
            &&& same_span(trailing, mtrailing, d)
        },
        (
            grammar::Branch::Element { value, trailing },
            grammar::Branch::Element { value: mvalue, trailing: mtrailing },
        ) => same_value(*value, *mvalue, d) && same_span(trailing, mtrailing, d),
        _ => false,
    }
}

proof fn lemma_same_at(a: Seq<grammar::Branch>, m: Seq<grammar::Branch>, d: int, i: int)
    requires
        same_children(a, m, d),
        0 <= i < a.len(),
    ensures
        a.len() == m.len(),
        same_child(a[i], m[i], d),
    decreases a.len(),
{
    if i < a.len() - 1 {
        lemma_same_at(a.drop_last(), m.drop_last(), d, i);
    }
}

proof fn lemma_bytes(
    o: grammar::Span,
    a: grammar::Span,
    m: grammar::Span,
    d: int,
    ob: int,
    mb: int,
)
    requires
        same_span(a, m, d),
    ensures
        alignment::bytes_pieces(o, m, ob, mb) == alignment::bytes_pieces(o, a, ob, mb + d),
{
    assert(alignment::bytes_pieces(o, m, ob, mb) =~= alignment::bytes_pieces(o, a, ob, mb + d));
}

proof fn lemma_alone(a: grammar::Branch, m: grammar::Branch, d: int, mb: int)
    requires
        same_child(a, m, d),
    ensures
        alignment::mod_only_child(m, mb) == alignment::mod_only_child(a, mb + d),
{
    assert(alignment::mod_only_child(m, mb) =~= alignment::mod_only_child(a, mb + d));
}

proof fn lemma_all_alone(
    a: Seq<grammar::Branch>,
    m: Seq<grammar::Branch>,
    d: int,
    from: int,
    to: int,
    mb: int,
)
    requires
        same_children(a, m, d),
        0 <= from,
        to <= a.len(),
    ensures
        alignment::mod_only_children(m, from, to, mb) == alignment::mod_only_children(
            a,
            from,
            to,
            mb + d,
        ),
    decreases to - from,
{
    if from < to {
        lemma_all_alone(a, m, d, from, to - 1, mb);
        lemma_same_at(a, m, d, to - 1);
        lemma_alone(a[to - 1], m[to - 1], d, mb);
    }
}

proof fn lemma_first(a: Seq<grammar::Branch>, m: Seq<grammar::Branch>, d: int, text: Seq<char>)
    requires
        same_children(a, m, d),
    ensures
        alignment::first_with_key(m, text) == alignment::first_with_key(a, text),
    decreases a.len(),
{
    if a.len() > 0 {
        lemma_first(a.drop_last(), m.drop_last(), d, text);
        assert(same_child(a.last(), m.last(), d));
    }
}

proof fn lemma_partner(
    c: grammar::Branch,
    a: Seq<grammar::Branch>,
    m: Seq<grammar::Branch>,
    d: int,
)
    requires
        same_children(a, m, d),
    ensures
        alignment::partner(c, m) == alignment::partner(c, a),
{
    match c {
        grammar::Branch::Member { text, .. } => lemma_first(a, m, d, text),
        _ => {},
    }
}

proof fn lemma_rest(
    o: Seq<grammar::Branch>,
    a: Seq<grammar::Branch>,
    m: Seq<grammar::Branch>,
    d: int,
    n: int,
    mb: int,
)
    requires
        same_children(a, m, d),
        n <= a.len(),
    ensures
        alignment::mod_rest(o, m, n, mb) == alignment::mod_rest(o, a, n, mb + d),
    decreases n,
{
    if n > 0 {
        lemma_rest(o, a, m, d, n - 1, mb);
        lemma_same_at(a, m, d, n - 1);
        lemma_alone(a[n - 1], m[n - 1], d, mb);
        assert forall|k: int| 0 <= k < o.len() implies #[trigger] alignment::partner(o[k], m)
            == alignment::partner(o[k], a) by {
            lemma_partner(o[k], a, m, d);
        }
        if alignment::is_partner(o, a, n - 1) {
            let k = choose|k: int|
                0 <= k < o.len() && #[trigger] alignment::partner(o[k], a) == Some(n - 1);
            assert(alignment::partner(o[k], m) == Some(n - 1));
        }
        if alignment::is_partner(o, m, n - 1) {
            let k = choose|k: int|
                0 <= k < o.len() && #[trigger] alignment::partner(o[k], m) == Some(n - 1);
            assert(alignment::partner(o[k], a) == Some(n - 1));
        }
    }
}

proof fn lemma_members(
    o: Seq<grammar::Branch>,
    a: Seq<grammar::Branch>,
    m: Seq<grammar::Branch>,
    d: int,
    ob: int,
    mb: int,
)
    requires
        same_children(a, m, d),
    ensures
        alignment::members_pieces(o, m, ob, mb) == alignment::members_pieces(o, a, ob, mb + d),
    decreases o, 0nat,
{
    if o.len() > 0 {
        lemma_members(o.drop_last(), a, m, d, ob, mb);
        lemma_member(o.last(), a, m, d, ob, mb);
    }
}

proof fn lemma_member(
    c: grammar::Branch,
    a: Seq<grammar::Branch>,
    m: Seq<grammar::Branch>,
    d: int,
    ob: int,
    mb: int,
)
    requires
        same_children(a, m, d),
    ensures
        alignment::member_pieces(c, m, ob, mb) == alignment::member_pieces(c, a, ob, mb + d),
    decreases c, 0nat,
{
    lemma_partner(c, a, m, d);
    match alignment::partner(c, a) {
        None => {},
        Some(i) => {
            align_laws::lemma_first_with_key(a, align_laws::key_text(c));
            lemma_same_at(a, m, d, i);
            match (c, a[i], m[i]) {
                (
                    grammar::Branch::Member { key, text: _, between, value, trailing },
                    grammar::Branch::Member {
                        key: akey,
                        text: _,
                        between: abetween,
                        value: avalue,
                        trailing: atrailing,
                    },
                    grammar::Branch::Member {
                        key: mkey,
                        text: _,
                        between: mbetween,
                        value: mvalue,
                        trailing: mtrailing,
                    },
                ) => {
                    lemma_bytes(key, akey, mkey, d, ob, mb);
                    lemma_bytes(between, abetween, mbetween, d, ob, mb);
                    lemma_node(*value, *avalue, *mvalue, d, ob, mb);
                    lemma_bytes(trailing, atrailing, mtrailing, d, ob, mb);
                },
                _ => {},
            }
        },
    }
}

proof fn lemma_element(
    c: grammar::Branch,
    a: grammar::Branch,
    m: grammar::Branch,
    d: int,
    ob: int,
    mb: int,
)
    requires
        same_child(a, m, d),
    ensures
        alignment::element_pieces(c, m, ob, mb) == alignment::element_pieces(c, a, ob, mb + d),
    decreases c, 0nat,
{
    match (c, a, m) {
        (
            grammar::Branch::Element { value, trailing },
            grammar::Branch::Element { value: avalue, trailing: atrailing },
            grammar::Branch::Element { value: mvalue, trailing: mtrailing },
        ) => {
            lemma_node(*value, *avalue, *mvalue, d, ob, mb);
            lemma_bytes(trailing, atrailing, mtrailing, d, ob, mb);
        },
        _ => {},
    }
}

proof fn lemma_paired(
    o: Seq<grammar::Branch>,
    a: Seq<grammar::Branch>,
    m: Seq<grammar::Branch>,
    pairs: Seq<(int, int)>,
    d: int,
    ob: int,
    mb: int,
)
    requires
        same_children(a, m, d),
        align_laws::ordered_pairs(pairs, o.len() as int, a.len() as int),
    ensures
        alignment::paired_pieces(o, m, pairs, ob, mb) == alignment::paired_pieces(
            o,
            a,
            pairs,
            ob,
            mb + d,
        ),
    decreases o, pairs.len(),
{
    if pairs.len() > 0 {
        let init = pairs.drop_last();
        let (po, pm) = pairs[pairs.len() - 1];
        let (oi, mi) = alignment::after_pairs(init);
        assert forall|k: int| 0 <= k < init.len() implies 0 <= (#[trigger] init[k]).0 < o.len()
            && 0 <= init[k].1 < a.len() by {
            assert(init[k] == pairs[k]);
        }
        assert forall|k: int, l: int| 0 <= k < l < init.len() implies (#[trigger] init[k]).0 < (
        #[trigger] init[l]).0 && init[k].1 < init[l].1 by {
            assert(init[k] == pairs[k] && init[l] == pairs[l]);
        }
        lemma_paired(o, a, m, init, d, ob, mb);
        if init.len() > 0 {
            assert(init.last() == pairs[pairs.len() - 2]);
        }
        lemma_all_alone(a, m, d, mi, pm, mb);
        lemma_same_at(a, m, d, pm);
        lemma_element(o[po], a[pm], m[pm], d, ob, mb);
    }
}

proof fn lemma_keys(a: Seq<grammar::Branch>, m: Seq<grammar::Branch>, d: int)
    requires
        same_children(a, m, d),
    ensures
        alignment::object_keys(m) == alignment::object_keys(a),
        alignment::kinds_writes(alignment::real_elements(m)) == alignment::kinds_writes(
            alignment::real_elements(a),
        ),
        alignment::real_elements(m).len() == alignment::real_elements(a).len(),
    decreases a.len(),
{
    if a.len() > 0 {
        lemma_keys(a.drop_last(), m.drop_last(), d);
        assert(same_child(a.last(), m.last(), d));
        match (a.last(), m.last()) {
            (
                grammar::Branch::Element { value, .. },
                grammar::Branch::Element { value: mvalue, .. },
            ) => {
                assert(same_value(*value, *mvalue, d));
            },
            _ => {},
        }
        let ra = alignment::real_elements(a.drop_last());
        let rm = alignment::real_elements(m.drop_last());
        assert(ra.push(a.last()).drop_last() =~= ra);
        assert(rm.push(m.last()).drop_last() =~= rm);
    }
}

proof fn lemma_hashes(a: Seq<grammar::Branch>, m: Seq<grammar::Branch>, d: int)
    requires
        same_children(a, m, d),
    ensures
        alignment::shape_hashes(m) == alignment::shape_hashes(a),
{
    assert forall|i: int| 0 <= i < a.len() implies alignment::shape_hash(#[trigger] a[i])
        == alignment::shape_hash(m[i]) by {
        lemma_same_at(a, m, d, i);
        lemma_hash(a[i], m[i], d);
    }
    assert(alignment::shape_hashes(m) =~= alignment::shape_hashes(a));
}

/// A child's shape does not depend on where it stands.
proof fn lemma_hash(a: grammar::Branch, m: grammar::Branch, d: int)
    requires
        same_child(a, m, d),
    ensures
        alignment::shape_hash(m) == alignment::shape_hash(a),
{
    match (a, m) {
        (grammar::Branch::Member { value, .. }, grammar::Branch::Member { value: mvalue, .. }) => {
            lemma_keys(value.children, mvalue.children, d);
        },
        (
            grammar::Branch::Element { value, .. },
            grammar::Branch::Element { value: mvalue, .. },
        ) => {
            lemma_keys(value.children, mvalue.children, d);
        },
        _ => {},
    }
}

proof fn lemma_node(
    o: grammar::Tree,
    a: grammar::Tree,
    m: grammar::Tree,
    d: int,
    ob: int,
    mb: int,
)
    requires
        same_value(a, m, d),
    ensures
        alignment::node_pieces(o, m, ob, mb) == alignment::node_pieces(o, a, ob, mb + d),
    decreases o, 0nat,
{
    let oc = o.children;
    let ac = a.children;
    let mc = m.children;
    if o.kind != m.kind {
        assert(alignment::mod_piece(alignment::tree_span(m), mb) =~= alignment::mod_piece(
            alignment::tree_span(a),
            mb + d,
        ));
    } else if o.kind == NodeKind::Object {
        lemma_members(oc, ac, mc, d, ob, mb);
        lemma_rest(oc, ac, mc, d, mc.len() as int, mb);
    } else if o.kind == NodeKind::Array {
        lemma_hashes(ac, mc, d);
        let pairs = alignment::array_pairs(oc, ac);
        align_laws::lemma_array_pairs_ordered(oc, ac);
        lemma_paired(oc, ac, mc, pairs, d, ob, mb);
        let (oi, mi) = alignment::after_pairs(pairs);
        if pairs.len() > 0 {
            assert(pairs.last() == pairs[pairs.len() - 1]);
        }
        lemma_all_alone(ac, mc, d, mi, ac.len() as int, mb);
    } else {
        lemma_bytes(
            alignment::tree_span(o),
            alignment::tree_span(a),
            alignment::tree_span(m),
            d,
            ob,
            mb,
        );
    }
}

/// Where a value stands in the modified file does not matter to how it is
/// aligned: moved on by `d` bytes, it gives the pieces of a file that starts
/// `d` bytes later.
pub proof fn moved_values_align_alike(
    o: grammar::Tree,
    a: grammar::Tree,
    m: grammar::Tree,
    d: int,
    ob: int,
    mb: int,
)
    requires
        same_value(a, m, d),
    ensures
        alignment::node_pieces(o, m, ob, mb) == alignment::node_pieces(o, a, ob, mb + d),
{
    lemma_node(o, a, m, d, ob, mb);
}

proof fn lemma_puts_concat(a: Seq<Piece>, b: Seq<Piece>, x: int, y: int)
    ensures
        show_laws::some_puts(a + b, x, y) == (show_laws::some_puts(a, x, y)
            || show_laws::some_puts(b, x, y)),
{
    let c = a + b;
    if show_laws::some_puts(a, x, y) {
        let i = choose|i: int| 0 <= i < a.len() && show_laws::puts_against(#[trigger] a[i], x, y);
        assert(c[i] == a[i]);
    }
    if show_laws::some_puts(b, x, y) {
        let i = choose|i: int| 0 <= i < b.len() && show_laws::puts_against(#[trigger] b[i], x, y);
        assert(c[a.len() + i] == b[i]);
    }
    if show_laws::some_puts(c, x, y) {
        let i = choose|i: int| 0 <= i < c.len() && show_laws::puts_against(#[trigger] c[i], x, y);
        if i < a.len() {
            assert(a[i] == c[i]);
        } else {
            assert(b[i - a.len()] == c[i]);
        }
    }
}

proof fn lemma_bytes_put(o: grammar::Span, m: grammar::Span, ob: int, mb: int, i: int)
    requires
        0 <= i,
        o.start + i < o.end,
        m.start + i < m.end,
    ensures
        show_laws::some_puts(
            alignment::bytes_pieces(o, m, ob, mb),
            ob + o.start + i,
            mb + m.start + i,
        ),
{
    let ps = alignment::bytes_pieces(o, m, ob, mb);
    assert(show_laws::puts_against(ps[0], ob + o.start + i, mb + m.start + i));
}

proof fn lemma_diagonal_puts(ps: Seq<Piece>, start: int, end: int, ob: int, mb: int, x: int)
    requires
        align_laws::diagonal(ps, start, end, ob, mb),
        start <= x < end,
    ensures
        show_laws::some_puts(ps, ob + x, mb + x),
    decreases ps.len(),
{
    if ps.len() > 0 {
        let init = ps.drop_last();
        let n = ps.len() - 1;
        match ps.last() {
            Piece::Both { orig, modified } => {
                if x < orig.start - ob {
                    lemma_diagonal_puts(init, start, orig.start - ob, ob, mb, x);
                    let i = choose|i: int|
                        0 <= i < init.len() && show_laws::puts_against(
                            #[trigger] init[i],
                            ob + x,
                            mb + x,
                        );
                    assert(ps[i] == init[i]);
                } else {
                    assert(show_laws::puts_against(ps[n], ob + x, mb + x));
                }
            },
            _ => {},
        }
    }
}

/// The keys of the value are fit to find it again: no object has one key twice,
/// and none is empty with whitespace between its braces.
pub open spec fn findable(t: grammar::Tree) -> bool {
    align_laws::distinct_keys(t) && align_laws::no_blank_object(t)
}

/// A value that stands in both files is matched with itself byte by byte,
/// wherever it stands.
pub proof fn same_values_match(
    o: grammar::Tree,
    m: grammar::Tree,
    d: int,
    ob: int,
    mb: int,
    x: int,
)
    requires
        cover::well_laid(o),
        findable(o),
        same_value(o, m, d),
        o.start <= x < o.end,
    ensures
        show_laws::some_puts(alignment::node_pieces(o, m, ob, mb), ob + x, mb + x + d),
{
    lemma_node(o, o, m, d, ob, mb);
    align_laws::lemma_node_diagonal(o, ob, mb + d);
    lemma_diagonal_puts(
        alignment::node_pieces(o, m, ob, mb),
        o.start,
        o.end,
        ob,
        mb + d,
        x,
    );
}

/// The child `m` is the child `a`, `d` bytes further on, but for how far what
/// follows its value reaches.
pub open spec fn same_up_to_end(a: grammar::Branch, m: grammar::Branch, d: int) -> bool {
    match (a, m) {
        (
            grammar::Branch::Member { key, text, between, value, trailing },
            grammar::Branch::Member {
                key: mkey,
                text: mtext,
                between: mbetween,
                value: mvalue,
                trailing: mtrailing,
            },
        ) => {
            &&& text == mtext
            &&& same_span(key, mkey, d)
            &&& same_span(between, mbetween, d)
            &&& same_value(*value, *mvalue, d)
            &&& mtrailing.start == trailing.start + d
        },
        (
            grammar::Branch::Element { value, trailing },
            grammar::Branch::Element { value: mvalue, trailing: mtrailing },
        ) => same_value(*value, *mvalue, d) && mtrailing.start == trailing.start + d,
        _ => false,
    }
}

/// The value of a child.
pub open spec fn child_value(c: grammar::Branch) -> grammar::Tree {
    match c {
        grammar::Branch::Member { value, .. } => *value,
        grammar::Branch::Element { value, .. } => *value,
    }
}

proof fn lemma_members_hold(
    o: Seq<grammar::Branch>,
    m: Seq<grammar::Branch>,
    i: int,
    ob: int,
    mb: int,
    x: int,
    y: int,
)
    requires
        0 <= i < o.len(),
        show_laws::some_puts(alignment::member_pieces(o[i], m, ob, mb), x, y),
    ensures
        show_laws::some_puts(alignment::members_pieces(o, m, ob, mb), x, y),
    decreases o.len(),
{
    let init = o.drop_last();
    lemma_puts_concat(
        alignment::members_pieces(init, m, ob, mb),
        alignment::member_pieces(o.last(), m, ob, mb),
        x,
        y,
    );
    if i < o.len() - 1 {
        assert(init[i] == o[i]);
        lemma_members_hold(init, m, i, ob, mb, x, y);
    }
}

/// Members are matched by their key: a member that both objects have is
/// matched with itself byte by byte, whatever stands before, between or behind
/// it in either object.
pub proof fn members_match_by_key(
    o: grammar::Tree,
    m: grammar::Tree,
    i: int,
    j: int,
    d: int,
    ob: int,
    mb: int,
    x: int,
)
    requires
        cover::well_laid(o),
        o.kind == NodeKind::Object,
        m.kind == NodeKind::Object,
        0 <= i < o.children.len(),
        0 <= j < m.children.len(),
        same_up_to_end(o.children[i], m.children[j], d),
        o.children[i] matches grammar::Branch::Member { key, text, .. } && !alignment::is_blank(
            text,
            key,
        ),
        forall|k: int|
            0 <= k < j ==> align_laws::key_text(#[trigger] m.children[k]) != align_laws::key_text(
                o.children[i],
            ),
        findable(child_value(o.children[i])),
        cover::child_start(o.children[i]) <= x < cover::child_end(o.children[i]),
        x + d < cover::child_end(m.children[j]),
    ensures
        show_laws::some_puts(alignment::node_pieces(o, m, ob, mb), ob + x, mb + x + d),
{
    let oc = o.children;
    let mc = m.children;
    let y = mb + x + d;
    let text = align_laws::key_text(oc[i]);
    align_laws::lemma_all_laid_at(NodeKind::Object, oc, i);
    align_laws::lemma_first_with_key(mc, text);
    assert(alignment::has_key(mc[j], text));
    match alignment::first_with_key(mc, text) {
        Some(k) => {
            if k < j {
                assert(align_laws::key_text(mc[k]) != text);
            }
            assert(k == j);
        },
        None => {},
    }
    assert(alignment::partner(oc[i], mc) == Some(j));
    match (oc[i], mc[j]) {
        (
            grammar::Branch::Member { key, text: _, between, value, trailing },
            grammar::Branch::Member {
                key: mkey,
                text: _,
                between: mbetween,
                value: mvalue,
                trailing: mtrailing,
            },
        ) => {
            let a = alignment::bytes_pieces(key, mkey, ob, mb);
            let b = alignment::bytes_pieces(between, mbetween, ob, mb);
            let c = alignment::node_pieces(*value, *mvalue, ob, mb);
            let e = alignment::bytes_pieces(trailing, mtrailing, ob, mb);
            lemma_puts_concat(a, b, ob + x, y);
            lemma_puts_concat(a + b, c, ob + x, y);
            lemma_puts_concat(a + b + c, e, ob + x, y);
            if x < key.end {
                lemma_bytes_put(key, mkey, ob, mb, x - key.start);
            } else if x < between.end {
                lemma_bytes_put(between, mbetween, ob, mb, x - between.start);
            } else if x < value.end {
                same_values_match(*value, *mvalue, d, ob, mb, x);
            } else {
                lemma_bytes_put(trailing, mtrailing, ob, mb, x - trailing.start);
            }
            assert(alignment::member_pieces(oc[i], mc, ob, mb) == a + b + c + e);
        },
        _ => {},
    }
    lemma_members_hold(oc, mc, i, ob, mb, ob + x, y);
    let op = seq![alignment::open_piece(o, m, ob, mb)];
    let cl = seq![alignment::close_piece(o, m, ob, mb)];
    let ps = alignment::members_pieces(oc, mc, ob, mb);
    let rest = alignment::mod_rest(oc, mc, mc.len() as int, mb);
    lemma_puts_concat(op, ps, ob + x, y);
    lemma_puts_concat(op + ps, rest, ob + x, y);
    lemma_puts_concat(op + ps + rest, cl, ob + x, y);
}

proof fn lemma_paired_hold(
    o: Seq<grammar::Branch>,
    m: Seq<grammar::Branch>,
    pairs: Seq<(int, int)>,
    k: int,
    ob: int,
    mb: int,
    x: int,
    y: int,
)
    requires
        0 <= k < pairs.len(),
        0 <= pairs[k].0 < o.len(),
        show_laws::some_puts(
            alignment::element_pieces(o[pairs[k].0], m[pairs[k].1], ob, mb),
            x,
            y,
        ),
    ensures
        show_laws::some_puts(alignment::paired_pieces(o, m, pairs, ob, mb), x, y),
    decreases pairs.len(),
{
    let init = pairs.drop_last();
    let (po, pm) = pairs.last();
    let (oi, mi) = alignment::after_pairs(init);
    let a = alignment::paired_pieces(o, m, init, ob, mb);
    let b = alignment::orig_only_children(o, oi, po, ob);
    let c = alignment::mod_only_children(m, mi, pm, mb);
    let e = if 0 <= po < o.len() {
        alignment::element_pieces(o[po], m[pm], ob, mb)
    } else {
        seq![]
    };
    lemma_puts_concat(a, b, x, y);
    lemma_puts_concat(a + b, c, x, y);
    lemma_puts_concat(a + b + c, e, x, y);
    if k < pairs.len() - 1 {
        assert(init[k] == pairs[k]);
        lemma_paired_hold(o, m, init, k, ob, mb, x, y);
    }
}

proof fn lemma_element_puts(
    c: grammar::Branch,
    e: grammar::Branch,
    d: int,
    ob: int,
    mb: int,
    x: int,
)
    requires
        cover::child_laid(NodeKind::Array, c),
        same_up_to_end(c, e, d),
        findable(child_value(c)),
        cover::child_start(c) <= x < cover::child_end(c),
        x + d < cover::child_end(e),
    ensures
        show_laws::some_puts(alignment::element_pieces(c, e, ob, mb), ob + x, mb + x + d),
{
    match (c, e) {
        (
            grammar::Branch::Element { value, trailing },
            grammar::Branch::Element { value: mvalue, trailing: mtrailing },
        ) => {
            let a = alignment::node_pieces(*value, *mvalue, ob, mb);
            let b = alignment::bytes_pieces(trailing, mtrailing, ob, mb);
            lemma_puts_concat(a, b, ob + x, mb + x + d);
            if x < value.end {
                same_values_match(*value, *mvalue, d, ob, mb, x);
            } else {
                lemma_bytes_put(trailing, mtrailing, ob, mb, x - trailing.start);
            }
        },
        _ => {},
    }
}

/// Where the `i`-th element of an array stands in an array that has one more
/// element, at `p`.
pub open spec fn beside(p: int, i: int) -> int {
    if i < p {
        i
    } else {
        i + 1
    }
}

/// The pairs of all of `n` items with those of a list that has one more, at `p`.
spec fn passing(n: nat, p: int) -> Seq<(int, int)> {
    Seq::new(n, |i: int| (i, beside(p, i)))
}

proof fn lemma_first_exact(t: Seq<(int, int)>, n: int, m: int, k: int)
    requires
        align_laws::ordered_pairs(t, n, m),
        t.len() == n,
        0 <= k < n,
    ensures
        t[k].0 == k,
{
    lemma_at_least(t, n, m, k);
    lemma_at_most(t, n, m, k);
}

proof fn lemma_at_least(t: Seq<(int, int)>, n: int, m: int, k: int)
    requires
        align_laws::ordered_pairs(t, n, m),
        0 <= k < t.len(),
    ensures
        t[k].0 >= k,
        t[k].1 >= k,
    decreases k,
{
    if k > 0 {
        lemma_at_least(t, n, m, k - 1);
        assert(t[k - 1].0 < t[k].0 && t[k - 1].1 < t[k].1);
    } else {
        assert(0 <= t[0].0 && 0 <= t[0].1);
    }
}

proof fn lemma_at_most(t: Seq<(int, int)>, n: int, m: int, k: int)
    requires
        align_laws::ordered_pairs(t, n, m),
        0 <= k < t.len(),
    ensures
        t[k].0 <= n - t.len() + k,
        t[k].1 <= m - t.len() + k,
    decreases t.len() - k,
{
    if k < t.len() - 1 {
        lemma_at_most(t, n, m, k + 1);
        assert(t[k].0 < t[k + 1].0 && t[k].1 < t[k + 1].1);
    } else {
        assert(t[k].0 < n && t[k].1 < m);
    }
}

proof fn lemma_above(t: Seq<(int, int)>, n: int, p: int, k: int)
    requires
        align_laws::ordered_pairs(t, n, n + 1),
        forall|l: int| 0 <= l < t.len() ==> (#[trigger] t[l]).1 != p,
        0 <= p <= k < t.len(),
    ensures
        t[k].1 >= k + 1,
    decreases k,
{
    lemma_at_least(t, n, n + 1, k);
    if k > p {
        lemma_above(t, n, p, k - 1);
        assert(t[k - 1].1 < t[k].1);
    }
}

proof fn lemma_below(t: Seq<(int, int)>, n: int, p: int, k: int)
    requires
        align_laws::ordered_pairs(t, n, n + 1),
        t.len() == n,
        forall|l: int| 0 <= l < t.len() ==> (#[trigger] t[l]).1 != p,
        0 <= k < p <= n,
    ensures
        t[k].1 <= k,
    decreases p - k,
{
    lemma_at_most(t, n, n + 1, k);
    if k < p - 1 {
        lemma_below(t, n, p, k + 1);
        assert(t[k].1 < t[k + 1].1);
    }
}

/// The hashes `h` with one put in at `p` that none of them has.
spec fn hash_inserted(h: Seq<u64>, g: Seq<u64>, p: int) -> bool {
    &&& g.len() == h.len() + 1
    &&& 0 <= p <= h.len()
    &&& forall|i: int| 0 <= i < h.len() ==> #[trigger] h[i] == g[beside(p, i)] && h[i] != g[p]
}

proof fn lemma_inserted_trace(h: Seq<u64>, g: Seq<u64>, p: int)
    requires
        hash_inserted(h, g, p),
    ensures
        lcs::lcs_trace(h, g, h.len() as int, g.len() as int) == passing(h.len(), p),
{
    let n = h.len() as int;
    let q = passing(h.len(), p);
    let t = lcs::lcs_trace(h, g, n, n + 1);
    assert forall|k: int| 0 <= k < q.len() implies 0 <= (#[trigger] q[k]).0 < n && 0 <= q[k].1 < n
        + 1 && h[q[k].0] == g[q[k].1] by {
        assert(h[k] == g[beside(p, k)]);
    }
    assert(lcs::is_common(q, h, g, n, n + 1));
    lcs::lcs_len_is_longest(q, h, g, n, n + 1);
    lcs::lcs_trace_is_common(h, g, n, n + 1);
    lcs::lemma_lcs_len_bounds(h, g, n, n + 1);
    assert(align_laws::ordered_pairs(t, n, n + 1));
    assert forall|l: int| 0 <= l < t.len() implies (#[trigger] t[l]).1 != p by {
        assert(h[t[l].0] == g[t[l].1]);
        assert(h[t[l].0] != g[p]);
    }
    assert forall|k: int| 0 <= k < n implies #[trigger] t[k] == q[k] by {
        lemma_first_exact(t, n, n + 1, k);
        if k < p {
            lemma_at_least(t, n, n + 1, k);
            lemma_below(t, n, p, k);
        } else {
            lemma_above(t, n, p, k);
            lemma_at_most(t, n, n + 1, k);
        }
    }
    assert(t =~= q);
}

/// The array `m` is the array `o` with one element put in at `p`, of a shape
/// that no element of `o` has: those before it stand `d` bytes further on, those
/// behind it `e` bytes.
pub open spec fn element_inserted(
    o: Seq<grammar::Branch>,
    m: Seq<grammar::Branch>,
    p: int,
    d: int,
    e: int,
) -> bool {
    &&& m.len() == o.len() + 1
    &&& 0 <= p <= o.len()
    &&& forall|i: int|
        0 <= i < o.len() ==> same_up_to_end(
            #[trigger] o[i],
            m[beside(p, i)],
            if i < p {
                d
            } else {
                e
            },
        ) && alignment::shape_hash(o[i]) != alignment::shape_hash(m[p])
}

proof fn lemma_hash_up_to_end(a: grammar::Branch, m: grammar::Branch, d: int)
    requires
        same_up_to_end(a, m, d),
    ensures
        alignment::shape_hash(m) == alignment::shape_hash(a),
{
    lemma_keys(child_value(a).children, child_value(m).children, d);
}

/// An element put into an array leaves all others matched: each element of the
/// original is matched with itself byte by byte, before the new element and
/// behind it.
pub proof fn an_inserted_element_is_passed_over(
    o: grammar::Tree,
    m: grammar::Tree,
    p: int,
    i: int,
    d: int,
    e: int,
    ob: int,
    mb: int,
    x: int,
)
    requires
        cover::well_laid(o),
        o.kind == NodeKind::Array,
        m.kind == NodeKind::Array,
        m.children.len() <= alignment::max_lcs_elements(),
        element_inserted(o.children, m.children, p, d, e),
        0 <= i < o.children.len(),
        findable(child_value(o.children[i])),
        cover::child_start(o.children[i]) <= x < cover::child_end(o.children[i]),
        x + (if i < p {
            d
        } else {
            e
        }) < cover::child_end(m.children[beside(p, i)]),
    ensures
        show_laws::some_puts(
            alignment::node_pieces(o, m, ob, mb),
            ob + x,
            mb + x + (if i < p {
                d
            } else {
                e
            }),
        ),
{
    let oc = o.children;
    let mc = m.children;
    let h = alignment::shape_hashes(oc);
    let g = alignment::shape_hashes(mc);
    let f = if i < p {
        d
    } else {
        e
    };
    let y = mb + x + f;
    assert forall|k: int| 0 <= k < h.len() implies #[trigger] h[k] == g[beside(p, k)] && h[k]
        != g[p] by {
        lemma_hash_up_to_end(
            oc[k],
            mc[beside(p, k)],
            if k < p {
                d
            } else {
                e
            },
        );
    }
    lemma_inserted_trace(h, g, p);
    let pairs = alignment::array_pairs(oc, mc);
    assert(pairs[i] == (i, beside(p, i)));
    align_laws::lemma_all_laid_at(NodeKind::Array, oc, i);
    assert(same_up_to_end(oc[i], mc[beside(p, i)], f));
    lemma_element_puts(oc[i], mc[beside(p, i)], f, ob, mb, x);
    lemma_paired_hold(oc, mc, pairs, i, ob, mb, ob + x, y);
    let (oi, mi) = alignment::after_pairs(pairs);
    let a = alignment::paired_pieces(oc, mc, pairs, ob, mb);
    let b = alignment::orig_only_children(oc, oi, oc.len() as int, ob);
    let c = alignment::mod_only_children(mc, mi, mc.len() as int, mb);
    let op = seq![alignment::open_piece(o, m, ob, mb)];
    let cl = seq![alignment::close_piece(o, m, ob, mb)];
    lemma_puts_concat(a, b, ob + x, y);
    lemma_puts_concat(a + b, c, ob + x, y);
    lemma_puts_concat(op, a + b + c, ob + x, y);
    lemma_puts_concat(op + (a + b + c), cl, ob + x, y);
}

proof fn lemma_coalesced_puts(ps: Seq<Piece>, x: int, y: int)
    requires
        align_laws::all_forwards(ps),
    ensures
        align_laws::all_forwards(alignment::coalesced(ps)),
        show_laws::some_puts(alignment::coalesced(ps), x, y) == show_laws::some_puts(ps, x, y),
    decreases ps.len(),
{
    if ps.len() > 0 {
        let init = ps.drop_last();
        let p = ps.last();
        assert forall|i: int| 0 <= i < init.len() implies align_laws::forwards(
            #[trigger] init[i],
        ) by {
            assert(init[i] == ps[i]);
        }
        assert(align_laws::forwards(ps[ps.len() - 1]));
        lemma_coalesced_puts(init, x, y);
        let out = alignment::coalesced(init);
        assert(ps =~= init + seq![p]);
        lemma_puts_concat(init, seq![p], x, y);
        lemma_one_puts(p, x, y);
        if out.len() > 0 && alignment::merged(out.last(), p) is Some {
            let q = alignment::merged(out.last(), p)->0;
            let head = out.drop_last();
            assert(align_laws::forwards(out[out.len() - 1]));
            assert(out =~= head + seq![out.last()]);
            assert(head.push(q) =~= head + seq![q]);
            lemma_puts_concat(head, seq![out.last()], x, y);
            lemma_puts_concat(head, seq![q], x, y);
            lemma_one_puts(out.last(), x, y);
            lemma_one_puts(q, x, y);
            assert(show_laws::puts_against(q, x, y) == (show_laws::puts_against(out.last(), x, y)
                || show_laws::puts_against(p, x, y)));
        } else if !alignment::is_empty_piece(p) {
            assert(out.push(p) =~= out + seq![p]);
            lemma_puts_concat(out, seq![p], x, y);
        }
    }
}

proof fn lemma_one_puts(p: Piece, x: int, y: int)
    ensures
        show_laws::some_puts(seq![p], x, y) == show_laws::puts_against(p, x, y),
{
    assert(seq![p][0] == p);
}

/// Two files of one JSON document each, shown by structure.
pub open spec fn shows_documents(
    r: (Vec<Source>, u64),
    original: Seq<char>,
    modified: Seq<char>,
    o: Seq<u8>,
    m: Seq<u8>,
    is_finetune: bool,
    od: grammar::DocumentTree,
    md: grammar::DocumentTree,
) -> bool {
    &&& show_laws::shows_structure(r, original, modified, o, m, is_finetune)
    &&& !show::is_line_delimited(original, modified)
    &&& grammar::document(o) matches grammar::Scan::Done { value, .. } && value == od
    &&& grammar::document(m) matches grammar::Scan::Done { value, .. } && value == md
}

/// Some source diffs byte `x` of the original against byte `y` of the modified
/// file.
pub open spec fn diffed(ss: Seq<Source>, x: int, y: int) -> bool {
    exists|i: int| 0 <= i < ss.len() && show_laws::diffs(#[trigger] ss[i], x, y)
}

proof fn lemma_root_diffed(
    r: (Vec<Source>, u64),
    original: Seq<char>,
    modified: Seq<char>,
    o: Seq<u8>,
    m: Seq<u8>,
    is_finetune: bool,
    od: grammar::DocumentTree,
    md: grammar::DocumentTree,
    x: int,
    y: int,
)
    requires
        shows_documents(r, original, modified, o, m, is_finetune, od, md),
        show_laws::some_puts(alignment::node_pieces(od.root, md.root, 0, 0), x, y),
    ensures
        diffed(r.0@, x, y),
{
    cover::document_covers_input(o);
    cover::document_covers_input(m);
    align_laws::lemma_document_forwards(od, md, 0, 0, o.len() as int, m.len() as int);
    let a = alignment::bytes_pieces(od.leading, md.leading, 0, 0);
    let b = alignment::node_pieces(od.root, md.root, 0, 0);
    let c = alignment::bytes_pieces(od.trailing, md.trailing, 0, 0);
    lemma_puts_concat(a, b, x, y);
    lemma_puts_concat(a + b, c, x, y);
    lemma_coalesced_puts(a + b + c, x, y);
    let ps = show::json_pieces(original, modified, o, m)->0;
    assert(show_laws::some_puts(ps, x, y));
    show_laws::bytes_are_diffed_as_aligned(r, original, modified, o, m, is_finetune, x, y);
}

/// A key put into an object, or taken out of it, leaves all others matched: each
/// byte of a member that both documents have is diffed against the same byte of
/// that member in the other one, as many bytes further on as the member stands.
pub proof fn other_keys_stay_matched(
    r: (Vec<Source>, u64),
    original: Seq<char>,
    modified: Seq<char>,
    o: Seq<u8>,
    m: Seq<u8>,
    is_finetune: bool,
    od: grammar::DocumentTree,
    md: grammar::DocumentTree,
    i: int,
    j: int,
    d: int,
    x: int,
)
    requires
        shows_documents(r, original, modified, o, m, is_finetune, od, md),
        od.root.kind == NodeKind::Object,
        md.root.kind == NodeKind::Object,
        0 <= i < od.root.children.len(),
        0 <= j < md.root.children.len(),
        same_up_to_end(od.root.children[i], md.root.children[j], d),
        od.root.children[i] matches grammar::Branch::Member { key, text, .. }
            && !alignment::is_blank(text, key),
        forall|k: int|
            0 <= k < j ==> align_laws::key_text(#[trigger] md.root.children[k])
                != align_laws::key_text(od.root.children[i]),
        findable(child_value(od.root.children[i])),
        cover::child_start(od.root.children[i]) <= x < cover::child_end(od.root.children[i]),
        x + d < cover::child_end(md.root.children[j]),
    ensures
        diffed(r.0@, x, x + d),
{
    cover::document_covers_input(o);
    members_match_by_key(od.root, md.root, i, j, d, 0, 0, x);
    lemma_root_diffed(r, original, modified, o, m, is_finetune, od, md, x, x + d);
}

/// An element put into an array leaves all others matched: each byte of an
/// element of the original is diffed against the same byte of that element in
/// the modified document.
pub proof fn other_elements_stay_matched(
    r: (Vec<Source>, u64),
    original: Seq<char>,
    modified: Seq<char>,
    o: Seq<u8>,
    m: Seq<u8>,
    is_finetune: bool,
    od: grammar::DocumentTree,
    md: grammar::DocumentTree,
    p: int,
    i: int,
    d: int,
    e: int,
    x: int,
)
    requires
        shows_documents(r, original, modified, o, m, is_finetune, od, md),
        od.root.kind == NodeKind::Array,
        md.root.kind == NodeKind::Array,
        md.root.children.len() <= alignment::max_lcs_elements(),
        element_inserted(od.root.children, md.root.children, p, d, e),
        0 <= i < od.root.children.len(),
        findable(child_value(od.root.children[i])),
        cover::child_start(od.root.children[i]) <= x < cover::child_end(od.root.children[i]),
        x + (if i < p {
            d
        } else {
            e
        }) < cover::child_end(md.root.children[beside(p, i)]),
    ensures
        diffed(
            r.0@,
            x,
            x + (if i < p {
                d
            } else {
                e
            }),
        ),
{
    let f = if i < p {
        d
    } else {
        e
    };
    cover::document_covers_input(o);
    an_inserted_element_is_passed_over(od.root, md.root, p, i, d, e, 0, 0, x);
    lemma_root_diffed(r, original, modified, o, m, is_finetune, od, md, x, x + f);
}

/// The lines `m` are the lines of `o` with one put in at `p` that is unlike all
/// of them.
pub open spec fn line_inserted(o: Seq<u8>, m: Seq<u8>, p: int) -> bool {
    let ol = jsonl::lines(o);
    let ml = jsonl::lines(m);
    &&& ml.len() == ol.len() + 1
    &&& 0 <= p <= ol.len()
    &&& forall|i: int|
        0 <= i < ol.len() ==> jsonl::text_of(o, #[trigger] ol[i]) == jsonl::text_of(
            m,
            ml[beside(p, i)],
        ) && jsonl::line_hash(jsonl::text_of(o, ol[i])) != jsonl::line_hash(
            jsonl::text_of(m, ml[p]),
        )
}

proof fn lemma_paired_lines_hold(
    o: Seq<u8>,
    m: Seq<u8>,
    pairs: Seq<(int, int)>,
    k: int,
    x: int,
    y: int,
)
    requires
        0 <= k < pairs.len(),
        show_laws::some_puts(
            jsonl::line_pieces(o, m, jsonl::lines(o)[pairs[k].0], jsonl::lines(m)[pairs[k].1]),
            x,
            y,
        ),
    ensures
        show_laws::some_puts(jsonl::paired_lines(o, m, pairs), x, y),
    decreases pairs.len(),
{
    let init = pairs.drop_last();
    let (po, pm) = pairs.last();
    let (oi, mi) = alignment::after_pairs(init);
    let a = jsonl::paired_lines(o, m, init);
    let b = jsonl::orig_lines(jsonl::lines(o), oi, po);
    let c = jsonl::mod_lines(jsonl::lines(m), mi, pm);
    let e = jsonl::line_pieces(o, m, jsonl::lines(o)[po], jsonl::lines(m)[pm]);
    lemma_puts_concat(a, b, x, y);
    lemma_puts_concat(a + b, c, x, y);
    lemma_puts_concat(a + b + c, e, x, y);
    if k < pairs.len() - 1 {
        assert(init[k] == pairs[k]);
        lemma_paired_lines_hold(o, m, init, k, x, y);
    }
}

/// A line put into a file leaves all others matched: the `t`-th byte of each
/// line of the original is diffed against the `t`-th byte of that line in the
/// modified file.
pub proof fn other_lines_stay_matched(
    r: (Vec<Source>, u64),
    original: Seq<char>,
    modified: Seq<char>,
    o: Seq<u8>,
    m: Seq<u8>,
    is_finetune: bool,
    p: int,
    i: int,
    t: int,
)
    requires
        show_laws::shows_structure(r, original, modified, o, m, is_finetune),
        show::is_line_delimited(original, modified),
        jsonl::lines(m).len() <= alignment::max_lcs_elements(),
        line_inserted(o, m, p),
        0 <= i < jsonl::lines(o).len(),
        0 <= t < jsonl::lines(o)[i].end - jsonl::lines(o)[i].start,
    ensures
        diffed(
            r.0@,
            jsonl::lines(o)[i].start + t,
            jsonl::lines(m)[beside(p, i)].start + t,
        ),
{
    let ol = jsonl::lines(o);
    let ml = jsonl::lines(m);
    let j = beside(p, i);
    let x = ol[i].start + t;
    let y = ml[j].start + t;
    let h = jsonl::line_hashes(o);
    let g = jsonl::line_hashes(m);
    assert forall|k: int| 0 <= k < h.len() implies #[trigger] h[k] == g[beside(p, k)] && h[k]
        != g[p] by {
        assert(jsonl::text_of(o, ol[k]) == jsonl::text_of(m, ml[beside(p, k)]));
    }
    lemma_inserted_trace(h, g, p);
    let pairs = jsonl::line_pairs(o, m);
    assert(pairs[i] == (i, j));
    jsonl::lines_cover_input(o);
    jsonl::lines_cover_input(m);
    jsonl::lemma_tile_bounds(ol, 0, o.len() as int, i);
    jsonl::lemma_tile_bounds(ml, 0, m.len() as int, j);
    assert(jsonl::text_of(o, ol[i]) == jsonl::text_of(m, ml[j]));
    assert(jsonl::text_of(o, ol[i]).len() == ol[i].end - ol[i].start);
    assert(jsonl::text_of(m, ml[j]).len() == ml[j].end - ml[j].start);
    let whole = Piece::Both { orig: ol[i], modified: ml[j] };
    lemma_one_puts(whole, x, y);
    assert(jsonl::line_pieces(o, m, ol[i], ml[j]) =~= seq![whole]);
    lemma_paired_lines_hold(o, m, pairs, i, x, y);
    let (oi, mi) = alignment::after_pairs(pairs);
    let a = jsonl::paired_lines(o, m, pairs);
    let b = jsonl::orig_lines(ol, oi, ol.len() as int);
    let c = jsonl::mod_lines(ml, mi, ml.len() as int);
    lemma_puts_concat(a, b, x, y);
    lemma_puts_concat(a + b, c, x, y);
    jsonl_laws::lemma_lines_forwards(o, m);
    lemma_coalesced_puts(a + b + c, x, y);
    show_laws::bytes_are_diffed_as_aligned(r, original, modified, o, m, is_finetune, x, y);
    assert(show_laws::some_puts(show::json_pieces(original, modified, o, m)->0, x, y));
}

/// A line reaches up to its newline and no further: only its last byte can be
/// one, and all lines but the last end in one.
pub proof fn lines_end_in_their_newline(s: Seq<u8>, i: int, x: int)
    requires
        0 <= i < jsonl::lines(s).len(),
        jsonl::lines(s)[i].start <= x < jsonl::lines(s)[i].end,
    ensures
        x < jsonl::lines(s)[i].end - 1 ==> s[x] != 0x0a,
        i < jsonl::lines(s).len() - 1 && x == jsonl::lines(s)[i].end - 1 ==> s[x] == 0x0a,
{
    let n = s.len() as int;
    lemma_closed_lines(s, n);
    let closed = jsonl::closed_lines(s, n);
    if i < closed.len() {
        assert(jsonl::lines(s)[i] == closed[i]);
        assert(is_line(s, closed[i]));
    } else {
        lemma_no_newline_since(s, n);
    }
}

spec fn is_line(s: Seq<u8>, r: grammar::Span) -> bool {
    &&& 0 <= r.start < r.end <= s.len()
    &&& s[r.end - 1] == 0x0a
    &&& forall|x: int| r.start <= x < r.end - 1 ==> #[trigger] s[x] != 0x0a
}

proof fn lemma_no_newline_since(s: Seq<u8>, n: int)
    requires
        0 <= n <= s.len(),
    ensures
        0 <= jsonl::line_start(s, n) <= n,
        forall|x: int| jsonl::line_start(s, n) <= x < n ==> #[trigger] s[x] != 0x0a,
    decreases n,
{
    if n > 0 && s[n - 1] != 0x0a {
        lemma_no_newline_since(s, n - 1);
    }
}

proof fn lemma_closed_lines(s: Seq<u8>, n: int)
    requires
        0 <= n <= s.len(),
    ensures
        forall|i: int|
            0 <= i < jsonl::closed_lines(s, n).len() ==> is_line(
                s,
                #[trigger] jsonl::closed_lines(s, n)[i],
            ),
    decreases n,
{
    if n > 0 {
        lemma_closed_lines(s, n - 1);
        lemma_no_newline_since(s, n - 1);
        let init = jsonl::closed_lines(s, n - 1);
        let all = jsonl::closed_lines(s, n);
        assert forall|i: int| 0 <= i < all.len() implies is_line(s, #[trigger] all[i]) by {
            if i < init.len() {
                assert(all[i] == init[i]);
                assert(is_line(s, init[i]));
            }
        }
    }
}

} // verus!
