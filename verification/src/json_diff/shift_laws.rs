//! Aligning documents that start elsewhere moves the pieces, and changes
//! nothing else.

use vstd::prelude::*;
use super::alignment;
use super::alignment::Piece;
use super::grammar;
use super::parse::NodeKind;

verus! {

/// A piece moved by `ob` in the original and by `mb` in the modified file.
pub open spec fn moved(p: Piece, ob: int, mb: int) -> Piece {
    match p {
        Piece::Both { orig, modified } => Piece::Both {
            orig: alignment::shift(orig, ob),
            modified: alignment::shift(modified, mb),
        },
        Piece::Orig { orig } => Piece::Orig { orig: alignment::shift(orig, ob) },
        Piece::Modified { modified } => Piece::Modified {
            modified: alignment::shift(modified, mb),
        },
    }
}

/// A list of pieces, each moved.
pub open spec fn all_moved(ps: Seq<Piece>, ob: int, mb: int) -> Seq<Piece> {
    ps.map_values(|p: Piece| moved(p, ob, mb))
}

proof fn lemma_concat(a: Seq<Piece>, b: Seq<Piece>, ob: int, mb: int)
    ensures
        all_moved(a + b, ob, mb) == all_moved(a, ob, mb) + all_moved(b, ob, mb),
{
    assert(all_moved(a + b, ob, mb) =~= all_moved(a, ob, mb) + all_moved(b, ob, mb));
}

proof fn lemma_concat4(
    a: Seq<Piece>,
    b: Seq<Piece>,
    c: Seq<Piece>,
    d: Seq<Piece>,
    ob: int,
    mb: int,
)
    ensures
        all_moved(a + b + c + d, ob, mb) == all_moved(a, ob, mb) + all_moved(b, ob, mb)
            + all_moved(c, ob, mb) + all_moved(d, ob, mb),
{
    lemma_concat(a, b, ob, mb);
    lemma_concat(a + b, c, ob, mb);
    lemma_concat(a + b + c, d, ob, mb);
}

proof fn lemma_bytes(o: grammar::Span, m: grammar::Span, ob: int, mb: int)
    ensures
        alignment::bytes_pieces(o, m, ob, mb) == all_moved(
            alignment::bytes_pieces(o, m, 0, 0),
            ob,
            mb,
        ),
{
    assert(alignment::bytes_pieces(o, m, ob, mb) =~= all_moved(
        alignment::bytes_pieces(o, m, 0, 0),
        ob,
        mb,
    ));
}

proof fn lemma_orig_piece(r: grammar::Span, ob: int, mb: int)
    ensures
        alignment::orig_piece(r, ob) == all_moved(alignment::orig_piece(r, 0), ob, mb),
{
    assert(alignment::orig_piece(r, ob) =~= all_moved(alignment::orig_piece(r, 0), ob, mb));
}

proof fn lemma_mod_piece(r: grammar::Span, ob: int, mb: int)
    ensures
        alignment::mod_piece(r, mb) == all_moved(alignment::mod_piece(r, 0), ob, mb),
{
    assert(alignment::mod_piece(r, mb) =~= all_moved(alignment::mod_piece(r, 0), ob, mb));
}

proof fn lemma_orig_only_child(c: grammar::Branch, ob: int, mb: int)
    ensures
        alignment::orig_only_child(c, ob) == all_moved(alignment::orig_only_child(c, 0), ob, mb),
{
    match c {
        grammar::Branch::Member { key, text: _, between, value, trailing } => {
            lemma_orig_piece(key, ob, mb);
            lemma_orig_piece(between, ob, mb);
            lemma_orig_piece(alignment::tree_span(*value), ob, mb);
            lemma_orig_piece(trailing, ob, mb);
            lemma_concat4(
                alignment::orig_piece(key, 0),
                alignment::orig_piece(between, 0),
                alignment::orig_piece(alignment::tree_span(*value), 0),
                alignment::orig_piece(trailing, 0),
                ob,
                mb,
            );
        },
        grammar::Branch::Element { value, trailing } => {
            lemma_orig_piece(alignment::tree_span(*value), ob, mb);
            lemma_orig_piece(trailing, ob, mb);
            lemma_concat(
                alignment::orig_piece(alignment::tree_span(*value), 0),
                alignment::orig_piece(trailing, 0),
                ob,
                mb,
            );
        },
    }
}

proof fn lemma_mod_only_child(c: grammar::Branch, ob: int, mb: int)
    ensures
        alignment::mod_only_child(c, mb) == all_moved(alignment::mod_only_child(c, 0), ob, mb),
{
    match c {
        grammar::Branch::Member { key, text: _, between, value, trailing } => {
            lemma_mod_piece(key, ob, mb);
            lemma_mod_piece(between, ob, mb);
            lemma_mod_piece(alignment::tree_span(*value), ob, mb);
            lemma_mod_piece(trailing, ob, mb);
            lemma_concat4(
                alignment::mod_piece(key, 0),
                alignment::mod_piece(between, 0),
                alignment::mod_piece(alignment::tree_span(*value), 0),
                alignment::mod_piece(trailing, 0),
                ob,
                mb,
            );
        },
        grammar::Branch::Element { value, trailing } => {
            lemma_mod_piece(alignment::tree_span(*value), ob, mb);
            lemma_mod_piece(trailing, ob, mb);
            lemma_concat(
                alignment::mod_piece(alignment::tree_span(*value), 0),
                alignment::mod_piece(trailing, 0),
                ob,
                mb,
            );
        },
    }
}

proof fn lemma_orig_only_children(
    cs: Seq<grammar::Branch>,
    from: int,
    to: int,
    ob: int,
    mb: int,
)
    ensures
        alignment::orig_only_children(cs, from, to, ob) == all_moved(
            alignment::orig_only_children(cs, from, to, 0),
            ob,
            mb,
        ),
    decreases to - from,
{
    if from < to {
        lemma_orig_only_children(cs, from, to - 1, ob, mb);
        lemma_orig_only_child(cs[to - 1], ob, mb);
        lemma_concat(
            alignment::orig_only_children(cs, from, to - 1, 0),
            alignment::orig_only_child(cs[to - 1], 0),
            ob,
            mb,
        );
    } else {
        assert(all_moved(seq![], ob, mb) =~= seq![]);
    }
}

proof fn lemma_mod_only_children(
    cs: Seq<grammar::Branch>,
    from: int,
    to: int,
    ob: int,
    mb: int,
)
    ensures
        alignment::mod_only_children(cs, from, to, mb) == all_moved(
            alignment::mod_only_children(cs, from, to, 0),
            ob,
            mb,
        ),
    decreases to - from,
{
    if from < to {
        lemma_mod_only_children(cs, from, to - 1, ob, mb);
        lemma_mod_only_child(cs[to - 1], ob, mb);
        lemma_concat(
            alignment::mod_only_children(cs, from, to - 1, 0),
            alignment::mod_only_child(cs[to - 1], 0),
            ob,
            mb,
        );
    } else {
        assert(all_moved(seq![], ob, mb) =~= seq![]);
    }
}

proof fn lemma_mod_rest(
    ocs: Seq<grammar::Branch>,
    mcs: Seq<grammar::Branch>,
    n: int,
    ob: int,
    mb: int,
)
    ensures
        alignment::mod_rest(ocs, mcs, n, mb) == all_moved(
            alignment::mod_rest(ocs, mcs, n, 0),
            ob,
            mb,
        ),
    decreases n,
{
    if n > 0 {
        lemma_mod_rest(ocs, mcs, n - 1, ob, mb);
        lemma_mod_only_child(mcs[n - 1], ob, mb);
        lemma_concat(
            alignment::mod_rest(ocs, mcs, n - 1, 0),
            alignment::mod_only_child(mcs[n - 1], 0),
            ob,
            mb,
        );
    } else {
        assert(all_moved(seq![], ob, mb) =~= seq![]);
    }
}

proof fn lemma_members(ocs: Seq<grammar::Branch>, mcs: Seq<grammar::Branch>, ob: int, mb: int)
    ensures
        alignment::members_pieces(ocs, mcs, ob, mb) == all_moved(
            alignment::members_pieces(ocs, mcs, 0, 0),
            ob,
            mb,
        ),
    decreases ocs, 0nat,
{
    if ocs.len() > 0 {
        lemma_members(ocs.drop_last(), mcs, ob, mb);
        lemma_member(ocs.last(), mcs, ob, mb);
        lemma_concat(
            alignment::members_pieces(ocs.drop_last(), mcs, 0, 0),
            alignment::member_pieces(ocs.last(), mcs, 0, 0),
            ob,
            mb,
        );
    } else {
        assert(all_moved(seq![], ob, mb) =~= seq![]);
    }
}

proof fn lemma_member(c: grammar::Branch, mcs: Seq<grammar::Branch>, ob: int, mb: int)
    ensures
        alignment::member_pieces(c, mcs, ob, mb) == all_moved(
            alignment::member_pieces(c, mcs, 0, 0),
            ob,
            mb,
        ),
    decreases c, 0nat,
{
    assert(all_moved(seq![], ob, mb) =~= seq![]);
    match alignment::partner(c, mcs) {
        None => {
            lemma_orig_only_child(c, ob, mb);
        },
        Some(i) => match (c, mcs[i]) {
            (
                grammar::Branch::Member { key, text: _, between, value, trailing },
                grammar::Branch::Member {
                    key: mkey,
                    text: _,
                    between: mbetween,
                    value: mvalue,
                    trailing: mtrailing,
                },
            ) => {
                lemma_bytes(key, mkey, ob, mb);
                lemma_bytes(between, mbetween, ob, mb);
                lemma_node(*value, *mvalue, ob, mb);
                lemma_bytes(trailing, mtrailing, ob, mb);
                lemma_concat4(
                    alignment::bytes_pieces(key, mkey, 0, 0),
                    alignment::bytes_pieces(between, mbetween, 0, 0),
                    alignment::node_pieces(*value, *mvalue, 0, 0),
                    alignment::bytes_pieces(trailing, mtrailing, 0, 0),
                    ob,
                    mb,
                );
            },
            _ => {},
        },
    }
}

proof fn lemma_paired(
    ocs: Seq<grammar::Branch>,
    mcs: Seq<grammar::Branch>,
    pairs: Seq<(int, int)>,
    ob: int,
    mb: int,
)
    ensures
        alignment::paired_pieces(ocs, mcs, pairs, ob, mb) == all_moved(
            alignment::paired_pieces(ocs, mcs, pairs, 0, 0),
            ob,
            mb,
        ),
    decreases ocs, pairs.len(),
{
    assert(all_moved(seq![], ob, mb) =~= seq![]);
    if pairs.len() > 0 {
        let init = pairs.drop_last();
        let (po, pm) = pairs.last();
        let (oi, mi) = alignment::after_pairs(init);
        lemma_paired(ocs, mcs, init, ob, mb);
        lemma_orig_only_children(ocs, oi, po, ob, mb);
        lemma_mod_only_children(mcs, mi, pm, ob, mb);
        let last: Seq<Piece> = if 0 <= po < ocs.len() {
            alignment::element_pieces(ocs[po], mcs[pm], 0, 0)
        } else {
            seq![]
        };
        if 0 <= po < ocs.len() {
            lemma_element(ocs[po], mcs[pm], ob, mb);
        }
        lemma_concat4(
            alignment::paired_pieces(ocs, mcs, init, 0, 0),
            alignment::orig_only_children(ocs, oi, po, 0),
            alignment::mod_only_children(mcs, mi, pm, 0),
            last,
            ob,
            mb,
        );
    }
}

proof fn lemma_element(c: grammar::Branch, d: grammar::Branch, ob: int, mb: int)
    ensures
        alignment::element_pieces(c, d, ob, mb) == all_moved(
            alignment::element_pieces(c, d, 0, 0),
            ob,
            mb,
        ),
    decreases c, 0nat,
{
    assert(all_moved(seq![], ob, mb) =~= seq![]);
    match (c, d) {
        (
            grammar::Branch::Element { value, trailing },
            grammar::Branch::Element { value: mvalue, trailing: mtrailing },
        ) => {
            lemma_node(*value, *mvalue, ob, mb);
            lemma_bytes(trailing, mtrailing, ob, mb);
            lemma_concat(
                alignment::node_pieces(*value, *mvalue, 0, 0),
                alignment::bytes_pieces(trailing, mtrailing, 0, 0),
                ob,
                mb,
            );
        },
        _ => {},
    }
}

proof fn lemma_node(o: grammar::Tree, m: grammar::Tree, ob: int, mb: int)
    ensures
        alignment::node_pieces(o, m, ob, mb) == all_moved(
            alignment::node_pieces(o, m, 0, 0),
            ob,
            mb,
        ),
    decreases o, 0nat,
{
    let first = seq![alignment::open_piece(o, m, 0, 0)];
    let last = seq![alignment::close_piece(o, m, 0, 0)];
    assert(all_moved(first, ob, mb) =~= seq![alignment::open_piece(o, m, ob, mb)]);
    assert(all_moved(last, ob, mb) =~= seq![alignment::close_piece(o, m, ob, mb)]);
    if o.kind != m.kind {
        lemma_orig_piece(alignment::tree_span(o), ob, mb);
        lemma_mod_piece(alignment::tree_span(m), ob, mb);
        lemma_concat(
            alignment::orig_piece(alignment::tree_span(o), 0),
            alignment::mod_piece(alignment::tree_span(m), 0),
            ob,
            mb,
        );
    } else if o.kind == NodeKind::Object {
        let n = m.children.len() as int;
        lemma_members(o.children, m.children, ob, mb);
        lemma_mod_rest(o.children, m.children, n, ob, mb);
        lemma_concat4(
            first,
            alignment::members_pieces(o.children, m.children, 0, 0),
            alignment::mod_rest(o.children, m.children, n, 0),
            last,
            ob,
            mb,
        );
    } else if o.kind == NodeKind::Array {
        let pairs = alignment::array_pairs(o.children, m.children);
        let (oi, mi) = alignment::after_pairs(pairs);
        let a = alignment::paired_pieces(o.children, m.children, pairs, 0, 0);
        let b = alignment::orig_only_children(o.children, oi, o.children.len() as int, 0);
        let c = alignment::mod_only_children(m.children, mi, m.children.len() as int, 0);
        lemma_paired(o.children, m.children, pairs, ob, mb);
        lemma_orig_only_children(o.children, oi, o.children.len() as int, ob, mb);
        lemma_mod_only_children(m.children, mi, m.children.len() as int, ob, mb);
        lemma_concat(a, b, ob, mb);
        lemma_concat(a + b, c, ob, mb);
        lemma_concat(first, a + b + c, ob, mb);
        lemma_concat(first + (a + b + c), last, ob, mb);
    } else {
        lemma_bytes(alignment::tree_span(o), alignment::tree_span(m), ob, mb);
    }
}

proof fn lemma_coalesced(ps: Seq<Piece>, ob: int, mb: int)
    ensures
        alignment::coalesced(all_moved(ps, ob, mb)) == all_moved(
            alignment::coalesced(ps),
            ob,
            mb,
        ),
    decreases ps.len(),
{
    if ps.len() > 0 {
        lemma_coalesced(ps.drop_last(), ob, mb);
        let qs = all_moved(ps, ob, mb);
        assert(qs.drop_last() =~= all_moved(ps.drop_last(), ob, mb));
        let out = alignment::coalesced(ps.drop_last());
        let p = ps.last();
        assert(qs.last() == moved(p, ob, mb));
        if out.len() > 0 {
            assert(all_moved(out, ob, mb).last() == moved(out.last(), ob, mb));
            assert(alignment::merged(moved(out.last(), ob, mb), moved(p, ob, mb))
                == match alignment::merged(out.last(), p) {
                Some(q) => Some(moved(q, ob, mb)),
                None => None,
            });
        }
        assert(alignment::absorb(all_moved(out, ob, mb), moved(p, ob, mb)) =~= all_moved(
            alignment::absorb(out, p),
            ob,
            mb,
        ));
    } else {
        assert(all_moved(ps, ob, mb) =~= seq![]);
        assert(all_moved(seq![], ob, mb) =~= seq![]);
    }
}

/// Two documents that start at `ob` and `mb` of their files are aligned as two
/// that start at 0, with `ob` added to both ends of every range of the original
/// and `mb` to both ends of every range of the modified file.
pub proof fn bases_shift_the_alignment(
    o: grammar::DocumentTree,
    m: grammar::DocumentTree,
    ob: int,
    mb: int,
)
    ensures
        alignment::coalesced(alignment::document_pieces(o, m, ob, mb)) == all_moved(
            alignment::coalesced(alignment::document_pieces(o, m, 0, 0)),
            ob,
            mb,
        ),
{
    lemma_bytes(o.leading, m.leading, ob, mb);
    lemma_node(o.root, m.root, ob, mb);
    lemma_bytes(o.trailing, m.trailing, ob, mb);
    let a = alignment::bytes_pieces(o.leading, m.leading, 0, 0);
    let b = alignment::node_pieces(o.root, m.root, 0, 0);
    let c = alignment::bytes_pieces(o.trailing, m.trailing, 0, 0);
    lemma_concat(a, b, ob, mb);
    lemma_concat(a + b, c, ob, mb);
    lemma_coalesced(a + b + c, ob, mb);
}

} // verus!
