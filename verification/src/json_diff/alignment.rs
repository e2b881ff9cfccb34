//! What aligning two parsed documents means: the sequence of matched and
//! one-sided byte ranges that two trees give.

use vstd::prelude::*;
use std::collections::hash_map::DefaultHasher;
use vstd::std_specs::hash::DefaultHasherAdditionalSpecFns;
use super::grammar;
use super::lcs;
use super::parse::NodeKind;
use crate::hashing;
use crate::order;

verus! {

/// One alignment unit in whole-file coordinates.
pub ghost enum Piece {
    Both { orig: grammar::Span, modified: grammar::Span },
    Orig { orig: grammar::Span },
    Modified { modified: grammar::Span },
}

/// A range moved from document to file coordinates.
pub open spec fn shift(r: grammar::Span, base: int) -> grammar::Span {
    grammar::Span { start: base + r.start, end: base + r.end }
}

/// The number of bytes in a range; none where it runs backwards.
pub open spec fn span_len(r: grammar::Span) -> int {
    if r.end > r.start {
        r.end - r.start
    } else {
        0
    }
}

/// The range of a tree.
pub open spec fn tree_span(t: grammar::Tree) -> grammar::Span {
    grammar::Span { start: t.start, end: t.end }
}

/// Two ranges aligned byte by byte over the shorter length; the surplus of the
/// longer one stands alone.
pub open spec fn bytes_pieces(o: grammar::Span, m: grammar::Span, ob: int, mb: int) -> Seq<Piece> {
    let common = if span_len(o) <= span_len(m) {
        span_len(o)
    } else {
        span_len(m)
    };
    (if common > 0 {
        seq![
            Piece::Both {
                orig: grammar::Span { start: ob + o.start, end: ob + o.start + common },
                modified: grammar::Span { start: mb + m.start, end: mb + m.start + common },
            },
        ]
    } else {
        seq![]
    }) + (if span_len(o) > common {
        seq![
            Piece::Orig {
                orig: grammar::Span { start: ob + o.start + common, end: ob + o.end },
            },
        ]
    } else {
        seq![]
    }) + (if span_len(m) > common {
        seq![
            Piece::Modified {
                modified: grammar::Span { start: mb + m.start + common, end: mb + m.end },
            },
        ]
    } else {
        seq![]
    })
}

/// A range of the original alone; nothing where it is empty.
pub open spec fn orig_piece(r: grammar::Span, ob: int) -> Seq<Piece> {
    if r.start != r.end {
        seq![Piece::Orig { orig: shift(r, ob) }]
    } else {
        seq![]
    }
}

/// A range of the modified side alone; nothing where it is empty.
pub open spec fn mod_piece(r: grammar::Span, mb: int) -> Seq<Piece> {
    if r.start != r.end {
        seq![Piece::Modified { modified: shift(r, mb) }]
    } else {
        seq![]
    }
}

/// The sentinel of an empty object: an empty key of no length.
pub open spec fn is_blank(text: Seq<char>, key: grammar::Span) -> bool {
    text.len() == 0 && key.start == key.end
}

/// The first member with the given key.
pub open spec fn first_with_key(cs: Seq<grammar::Branch>, text: Seq<char>) -> Option<int>
    decreases cs.len(),
{
    if cs.len() == 0 {
        None
    } else {
        match first_with_key(cs.drop_last(), text) {
            Some(i) => Some(i),
            None => if has_key(cs.last(), text) {
                Some(cs.len() - 1)
            } else {
                None
            },
        }
    }
}

pub open spec fn has_key(c: grammar::Branch, text: Seq<char>) -> bool {
    c matches grammar::Branch::Member { text: t, .. } && t == text
}

/// A child of the original that has no partner.
pub open spec fn orig_only_child(c: grammar::Branch, ob: int) -> Seq<Piece> {
    match c {
        grammar::Branch::Member { key, text, between, value, trailing } => if is_blank(text, key) {
            orig_piece(trailing, ob)
        } else {
            orig_piece(key, ob) + orig_piece(between, ob) + orig_piece(tree_span(*value), ob)
                + orig_piece(trailing, ob)
        },
        grammar::Branch::Element { value, trailing } => orig_piece(tree_span(*value), ob)
            + orig_piece(trailing, ob),
    }
}

/// A child of the modified side that has no partner.
pub open spec fn mod_only_child(c: grammar::Branch, mb: int) -> Seq<Piece> {
    match c {
        grammar::Branch::Member { key, text, between, value, trailing } => if is_blank(text, key) {
            mod_piece(trailing, mb)
        } else {
            mod_piece(key, mb) + mod_piece(between, mb) + mod_piece(tree_span(*value), mb)
                + mod_piece(trailing, mb)
        },
        grammar::Branch::Element { value, trailing } => mod_piece(tree_span(*value), mb)
            + mod_piece(trailing, mb),
    }
}

/// The children `from..to` of the original, alone.
pub open spec fn orig_only_children(
    cs: Seq<grammar::Branch>,
    from: int,
    to: int,
    ob: int,
) -> Seq<Piece>
    decreases to - from,
{
    if from < to {
        orig_only_children(cs, from, to - 1, ob) + orig_only_child(cs[to - 1], ob)
    } else {
        seq![]
    }
}

/// The children `from..to` of the modified side, alone.
pub open spec fn mod_only_children(
    cs: Seq<grammar::Branch>,
    from: int,
    to: int,
    mb: int,
) -> Seq<Piece>
    decreases to - from,
{
    if from < to {
        mod_only_children(cs, from, to - 1, mb) + mod_only_child(cs[to - 1], mb)
    } else {
        seq![]
    }
}

/// The member of the modified side that a child of the original is aligned
/// with: the first with its key. The sentinel of an empty object has none.
pub open spec fn partner(c: grammar::Branch, mcs: Seq<grammar::Branch>) -> Option<int> {
    match c {
        grammar::Branch::Member { key, text, .. } => if is_blank(text, key) {
            None
        } else {
            first_with_key(mcs, text)
        },
        grammar::Branch::Element { .. } => None,
    }
}

/// The `i`-th member of the modified side is the partner of some child of the
/// original.
pub open spec fn is_partner(ocs: Seq<grammar::Branch>, mcs: Seq<grammar::Branch>, i: int) -> bool {
    exists|k: int| 0 <= k < ocs.len() && #[trigger] partner(ocs[k], mcs) == Some(i)
}

/// The first `n` members of the modified side without those that have a
/// partner.
pub open spec fn mod_rest(
    ocs: Seq<grammar::Branch>,
    mcs: Seq<grammar::Branch>,
    n: int,
    mb: int,
) -> Seq<Piece>
    decreases n,
{
    if n <= 0 {
        seq![]
    } else if is_partner(ocs, mcs, n - 1) {
        mod_rest(ocs, mcs, n - 1, mb)
    } else {
        mod_rest(ocs, mcs, n - 1, mb) + mod_only_child(mcs[n - 1], mb)
    }
}

/// The members of the original in source order, each with its partner.
pub open spec fn members_pieces(
    ocs: Seq<grammar::Branch>,
    mcs: Seq<grammar::Branch>,
    ob: int,
    mb: int,
) -> Seq<Piece>
    decreases ocs, 0nat,
{
    if ocs.len() == 0 {
        seq![]
    } else {
        members_pieces(ocs.drop_last(), mcs, ob, mb) + member_pieces(ocs.last(), mcs, ob, mb)
    }
}

/// One member of the original with its partner, or alone.
pub open spec fn member_pieces(
    c: grammar::Branch,
    mcs: Seq<grammar::Branch>,
    ob: int,
    mb: int,
) -> Seq<Piece>
    decreases c, 0nat,
{
    match partner(c, mcs) {
        None => orig_only_child(c, ob),
        Some(i) => match (c, mcs[i]) {
            (
                grammar::Branch::Member { key, text: _, between, value, trailing },
                grammar::Branch::Member {
                    key: mkey,
                    text: _,
                    between: mbetween,
                    value: mvalue,
                    trailing: mtrailing,
                },
            ) => bytes_pieces(key, mkey, ob, mb) + bytes_pieces(between, mbetween, ob, mb)
                + node_pieces(*value, *mvalue, ob, mb) + bytes_pieces(trailing, mtrailing, ob, mb),
            _ => seq![],
        },
    }
}

/// Where the children behind the last pair start on either side.
pub open spec fn after_pairs(pairs: Seq<(int, int)>) -> (int, int) {
    if pairs.len() == 0 {
        (0, 0)
    } else {
        (pairs.last().0 + 1, pairs.last().1 + 1)
    }
}

/// The elements up to the last pair: matched ones with their partner, the
/// others alone, the original's before the modified side's.
pub open spec fn paired_pieces(
    ocs: Seq<grammar::Branch>,
    mcs: Seq<grammar::Branch>,
    pairs: Seq<(int, int)>,
    ob: int,
    mb: int,
) -> Seq<Piece>
    decreases ocs, pairs.len(),
{
    if pairs.len() == 0 {
        seq![]
    } else {
        let init = pairs.drop_last();
        let (po, pm) = pairs.last();
        let (oi, mi) = after_pairs(init);
        paired_pieces(ocs, mcs, init, ob, mb) + orig_only_children(ocs, oi, po, ob)
            + mod_only_children(mcs, mi, pm, mb) + (if 0 <= po < ocs.len() {
            element_pieces(ocs[po], mcs[pm], ob, mb)
        } else {
            seq![]
        })
    }
}

/// A matched pair of elements.
pub open spec fn element_pieces(
    c: grammar::Branch,
    d: grammar::Branch,
    ob: int,
    mb: int,
) -> Seq<Piece>
    decreases c, 0nat,
{
    match (c, d) {
        (
            grammar::Branch::Element { value, trailing },
            grammar::Branch::Element { value: mvalue, trailing: mtrailing },
        ) => node_pieces(*value, *mvalue, ob, mb) + bytes_pieces(trailing, mtrailing, ob, mb),
        _ => seq![],
    }
}

/// All elements of two arrays under a pairing.
pub open spec fn elements_pieces(
    ocs: Seq<grammar::Branch>,
    mcs: Seq<grammar::Branch>,
    pairs: Seq<(int, int)>,
    ob: int,
    mb: int,
) -> Seq<Piece>
    decreases ocs, pairs.len() + 1,
{
    let (oi, mi) = after_pairs(pairs);
    paired_pieces(ocs, mcs, pairs, ob, mb) + orig_only_children(ocs, oi, ocs.len() as int, ob)
        + mod_only_children(mcs, mi, mcs.len() as int, mb)
}

/// The largest array that is matched by shape rather than by index.
pub open spec fn max_lcs_elements() -> int {
    50_000
}

/// How the elements of two arrays are matched: along a longest common
/// subsequence of their shape hashes, by index where one of them is too long.
pub open spec fn array_pairs(
    ocs: Seq<grammar::Branch>,
    mcs: Seq<grammar::Branch>,
) -> Seq<(int, int)> {
    if ocs.len() <= max_lcs_elements() && mcs.len() <= max_lcs_elements() {
        lcs::lcs_trace(
            shape_hashes(ocs),
            shape_hashes(mcs),
            ocs.len() as int,
            mcs.len() as int,
        )
    } else {
        index_pairing(if ocs.len() <= mcs.len() {
            ocs.len()
        } else {
            mcs.len()
        })
    }
}

/// The first `n` items matched by index.
pub open spec fn index_pairing(n: nat) -> Seq<(int, int)> {
    Seq::new(n, |i: int| (i, i))
}

/// The first byte of a container on either side.
pub open spec fn open_piece(o: grammar::Tree, m: grammar::Tree, ob: int, mb: int) -> Piece {
    Piece::Both {
        orig: grammar::Span { start: ob + o.start, end: ob + o.start + 1 },
        modified: grammar::Span { start: mb + m.start, end: mb + m.start + 1 },
    }
}

/// The last byte of a container on either side.
pub open spec fn close_piece(o: grammar::Tree, m: grammar::Tree, ob: int, mb: int) -> Piece {
    Piece::Both {
        orig: grammar::Span { start: ob + o.end - 1, end: ob + o.end },
        modified: grammar::Span { start: mb + m.end - 1, end: mb + m.end },
    }
}

/// Two values: objects by key, arrays by shape, primitives byte by byte, and
/// values of different kinds each alone.
pub open spec fn node_pieces(o: grammar::Tree, m: grammar::Tree, ob: int, mb: int) -> Seq<Piece>
    decreases o, 0nat,
{
    if o.kind != m.kind {
        orig_piece(tree_span(o), ob) + mod_piece(tree_span(m), mb)
    } else if o.kind == NodeKind::Object {
        seq![open_piece(o, m, ob, mb)] + members_pieces(o.children, m.children, ob, mb) + mod_rest(
            o.children,
            m.children,
            m.children.len() as int,
            mb,
        ) + seq![close_piece(o, m, ob, mb)]
    } else if o.kind == NodeKind::Array {
        seq![open_piece(o, m, ob, mb)] + elements_pieces(
            o.children,
            m.children,
            array_pairs(o.children, m.children),
            ob,
            mb,
        ) + seq![close_piece(o, m, ob, mb)]
    } else {
        bytes_pieces(tree_span(o), tree_span(m), ob, mb)
    }
}

/// Two documents before adjacent pieces are merged.
pub open spec fn document_pieces(
    o: grammar::DocumentTree,
    m: grammar::DocumentTree,
    ob: int,
    mb: int,
) -> Seq<Piece> {
    bytes_pieces(o.leading, m.leading, ob, mb) + node_pieces(o.root, m.root, ob, mb)
        + bytes_pieces(o.trailing, m.trailing, ob, mb)
}

/// The keys of the members of an object, without the sentinel's.
pub open spec fn object_keys(cs: Seq<grammar::Branch>) -> Seq<Seq<char>>
    decreases cs.len(),
{
    if cs.len() == 0 {
        seq![]
    } else {
        match cs.last() {
            grammar::Branch::Member { key, text, .. } if !is_blank(text, key) => object_keys(
                cs.drop_last(),
            ).push(text),
            _ => object_keys(cs.drop_last()),
        }
    }
}

/// The bytes written to a hasher for a list of keys.
pub open spec fn keys_writes(keys: Seq<Seq<char>>) -> Seq<Seq<u8>>
    decreases keys.len(),
{
    if keys.len() == 0 {
        seq![]
    } else {
        keys_writes(keys.drop_last()) + hashing::text_writes(keys.last())
    }
}

/// A number for each kind of value.
pub open spec fn kind_number(k: NodeKind) -> u8 {
    match k {
        NodeKind::Object => 1,
        NodeKind::Array => 2,
        NodeKind::String => 3,
        NodeKind::Number => 4,
        NodeKind::Bool => 5,
        NodeKind::Null => 6,
    }
}

/// The children of an array without the sentinel for its whitespace.
pub open spec fn real_elements(cs: Seq<grammar::Branch>) -> Seq<grammar::Branch>
    decreases cs.len(),
{
    if cs.len() == 0 {
        seq![]
    } else {
        match cs.last() {
            grammar::Branch::Element { value, .. } if value.kind == NodeKind::Null && value.start
                == value.end => real_elements(cs.drop_last()),
            _ => real_elements(cs.drop_last()).push(cs.last()),
        }
    }
}

/// The bytes written to a hasher for the kinds of the elements.
pub open spec fn kinds_writes(cs: Seq<grammar::Branch>) -> Seq<Seq<u8>>
    decreases cs.len(),
{
    if cs.len() == 0 {
        seq![]
    } else {
        match cs.last() {
            grammar::Branch::Element { value, .. } => kinds_writes(cs.drop_last()).push(
                seq![kind_number(value.kind)],
            ),
            _ => kinds_writes(cs.drop_last()),
        }
    }
}

/// What is hashed of a value: of an object its keys in text order, of an array
/// its length and the kinds of its elements, of a primitive its kind and its
/// bytes with their number.
pub open spec fn shape_writes(t: grammar::Tree) -> Seq<Seq<u8>> {
    if t.kind == NodeKind::Object {
        hashing::text_writes("object"@) + keys_writes(order::sorted_texts(object_keys(t.children)))
    } else if t.kind == NodeKind::Array {
        hashing::text_writes("array"@) + seq![
            vstd::bytes::spec_u64_to_le_bytes(real_elements(t.children).len() as u64),
        ] + kinds_writes(real_elements(t.children))
    } else {
        seq![
            seq![(kind_number(t.kind) - 1) as u8],
            vstd::bytes::spec_u64_to_le_bytes(t.content.len() as u64),
            t.content,
        ]
    }
}

/// The shape hash of a value.
pub open spec fn shape_hash_tree(t: grammar::Tree) -> u64 {
    DefaultHasher::spec_finish(shape_writes(t))
}

/// The shape hash of a child: of an element its value's, of a member that of
/// its key and value together.
pub open spec fn shape_hash(c: grammar::Branch) -> u64 {
    match c {
        grammar::Branch::Element { value, .. } => shape_hash_tree(*value),
        grammar::Branch::Member { text, value, .. } => DefaultHasher::spec_finish(
            hashing::text_writes("member"@) + hashing::text_writes(text) + seq![
                vstd::bytes::spec_u64_to_le_bytes(shape_hash_tree(*value)),
            ],
        ),
    }
}

/// The shape hashes of a list of children.
pub open spec fn shape_hashes(cs: Seq<grammar::Branch>) -> Seq<u64> {
    cs.map_values(|c: grammar::Branch| shape_hash(c))
}

/// A piece without bytes.
pub open spec fn is_empty_piece(p: Piece) -> bool {
    match p {
        Piece::Both { orig, modified } => orig.start == orig.end && modified.start == modified.end,
        Piece::Orig { orig } => orig.start == orig.end,
        Piece::Modified { modified } => modified.start == modified.end,
    }
}

/// Two neighbours as one piece, where they are of one kind and contiguous on
/// every side; matched ranges also have to be of equal length on both sides.
pub open spec fn merged(p: Piece, q: Piece) -> Option<Piece> {
    match (p, q) {
        (
            Piece::Both { orig: lo, modified: lm },
            Piece::Both { orig: ro, modified: rm },
        ) => if lo.end == ro.start && lm.end == rm.start && span_len(lo) == span_len(lm)
            && span_len(ro) == span_len(rm) {
            Some(
                Piece::Both {
                    orig: grammar::Span { start: lo.start, end: ro.end },
                    modified: grammar::Span { start: lm.start, end: rm.end },
                },
            )
        } else {
            None
        },
        (Piece::Orig { orig: lo }, Piece::Orig { orig: ro }) => if lo.end == ro.start {
            Some(Piece::Orig { orig: grammar::Span { start: lo.start, end: ro.end } })
        } else {
            None
        },
        (Piece::Modified { modified: lm }, Piece::Modified { modified: rm }) => if lm.end
            == rm.start {
            Some(Piece::Modified { modified: grammar::Span { start: lm.start, end: rm.end } })
        } else {
            None
        },
        _ => None,
    }
}

/// A piece added to a merged list.
pub open spec fn absorb(out: Seq<Piece>, p: Piece) -> Seq<Piece> {
    if out.len() > 0 && merged(out.last(), p) is Some {
        out.drop_last().push(merged(out.last(), p)->0)
    } else if is_empty_piece(p) {
        out
    } else {
        out.push(p)
    }
}

/// The pieces with contiguous neighbours merged and empty ones dropped.
pub open spec fn coalesced(ps: Seq<Piece>) -> Seq<Piece>
    decreases ps.len(),
{
    if ps.len() == 0 {
        seq![]
    } else {
        absorb(coalesced(ps.drop_last()), ps.last())
    }
}

/// Both ends of a range stay in file coordinates when moved by `base`.
pub open spec fn fits(r: grammar::Span, base: int) -> bool {
    base + r.start <= u64::MAX && base + r.end <= u64::MAX
}

/// A tree can be aligned at `base`: its positions stay in range, and the
/// children of an object are members, those of an array elements.
pub open spec fn alignable(t: grammar::Tree, base: int) -> bool
    decreases t,
{
    &&& fits(tree_span(t), base)
    &&& grammar::is_container(t.kind) ==> {
        &&& base + t.start < u64::MAX
        &&& base + t.end >= 1
        &&& all_alignable(t.kind, t.children, base)
    }
}

/// [`alignable`], for the children of a container of the given kind.
pub open spec fn all_alignable(kind: NodeKind, cs: Seq<grammar::Branch>, base: int) -> bool
    decreases cs,
{
    cs.len() > 0 ==> all_alignable(kind, cs.drop_last(), base) && child_alignable(
        kind,
        cs.last(),
        base,
    )
}

/// [`alignable`], for one child of a container of the given kind.
pub open spec fn child_alignable(kind: NodeKind, c: grammar::Branch, base: int) -> bool
    decreases c,
{
    match c {
        grammar::Branch::Member { key, text: _, between, value, trailing } => {
            &&& kind == NodeKind::Object
            &&& fits(key, base)
            &&& fits(between, base)
            &&& fits(trailing, base)
            &&& alignable(*value, base)
        },
        grammar::Branch::Element { value, trailing } => {
            &&& kind == NodeKind::Array
            &&& fits(trailing, base)
            &&& value.start <= value.end
            &&& alignable(*value, base)
        },
    }
}

/// [`alignable`], for a whole document.
pub open spec fn document_alignable(d: grammar::DocumentTree, base: int) -> bool {
    fits(d.leading, base) && alignable(d.root, base) && fits(d.trailing, base)
}

} // verus!
