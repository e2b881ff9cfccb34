//! Align two parsed JSON documents into a flat sequence of `AlignmentSpan`s.
//!
//! - Object members align by decoded key (orig-file order).
//! - Array elements align via LCS over a 64-bit shape hash (object schema +
//!   primitive content). Falls back to index-based pairing for arrays larger
//!   than `MAX_LCS_ELEMENTS`.
//! - Primitives align with finest-granularity padding: common min-length
//!   prefix is byte-diffed; the surplus on the longer side becomes a one-sided
//!   tail.
//! - Whitespace and structural punctuation are preserved byte-for-byte; we
//!   never normalise.
//! - A single O(n) coalesce pass merges adjacent same-kind spans whose byte
//!   ranges are contiguous on both sides.

use vstd::prelude::*;
use std::collections::hash_map::DefaultHasher;
use std::hash::Hasher;
use std::ops::Range;
use super::alignment;
use super::grammar;
use super::lcs;
use super::lcs::lcs_pairs;
use super::parse;
use super::parse::{Child, Document, Node, NodeKind};
use crate::hashing;
use crate::hashing::{write_byte, write_number, write_text};
use crate::order;
use crate::order::sort_strings;

verus! {

/// One alignment unit. Byte coordinates are in whole-file space.
#[derive(Debug, PartialEq, Eq)]
pub enum AlignmentSpan {
    Aligned { orig: Range<u64>, mod_: Range<u64> },
    OrigOnly { orig: Range<u64> },
    ModOnly { mod_: Range<u64> },
}

/// Maximum number of elements an array may have before we skip LCS and fall
/// back to index-based pairing. O(n*m) LCS over hashes is fine up to a few
/// tens of thousands; beyond that the alignment time dwarfs the parse.
pub const MAX_LCS_ELEMENTS: usize = 50_000;

/// The piece that a span denotes.
pub open spec fn piece_of(s: AlignmentSpan) -> alignment::Piece {
    match s {
        AlignmentSpan::Aligned { orig, mod_ } => alignment::Piece::Both {
            orig: parse::span(orig),
            modified: parse::span(mod_),
        },
        AlignmentSpan::OrigOnly { orig } => alignment::Piece::Orig { orig: parse::span(orig) },
        AlignmentSpan::ModOnly { mod_ } => alignment::Piece::Modified {
            modified: parse::span(mod_),
        },
    }
}

/// The pieces that a list of spans denotes.
pub open spec fn pieces(v: Seq<AlignmentSpan>) -> Seq<alignment::Piece> {
    v.map_values(|s: AlignmentSpan| piece_of(s))
}

fn push_span(out: &mut Vec<AlignmentSpan>, s: AlignmentSpan)
    ensures
        pieces(final(out)@) == pieces(old(out)@) + seq![piece_of(s)],
{
    out.push(s);
    assert(pieces(out@) =~= pieces(old(out)@) + seq![piece_of(s)]);
}

/// Align two whole documents. `orig_base` and `mod_base` are the byte offsets
/// at which each parsed document starts in the (whole) file — usually 0 for
/// single JSON files, and the start of each line for JSONL.
pub fn align_documents(
    orig_doc: &Document,
    mod_doc: &Document,
    orig_base: u64,
    mod_base: u64,
) -> (r: Vec<AlignmentSpan>)
    requires
        alignment::document_alignable(parse::document_of(*orig_doc), orig_base as int),
        alignment::document_alignable(parse::document_of(*mod_doc), mod_base as int),
    ensures
        pieces(r@) == alignment::coalesced(
            alignment::document_pieces(
                parse::document_of(*orig_doc),
                parse::document_of(*mod_doc),
                orig_base as int,
                mod_base as int,
            ),
        ),
{
    let mut out: Vec<AlignmentSpan> = Vec::new();
    align_bytes(&orig_doc.leading_ws, &mod_doc.leading_ws, orig_base, mod_base, &mut out);
    align_node(&orig_doc.root, &mod_doc.root, orig_base, mod_base, &mut out);
    align_bytes(&orig_doc.trailing_ws, &mod_doc.trailing_ws, orig_base, mod_base, &mut out);
    assert(pieces(out@) =~= alignment::document_pieces(
        parse::document_of(*orig_doc),
        parse::document_of(*mod_doc),
        orig_base as int,
        mod_base as int,
    ));
    coalesce(out)
}

/// Align two byte ranges (possibly of different lengths) using the "common
/// prefix + one-sided tail" rule. Empty inputs are a no-op. The JSONL line
/// aligner uses it for trailing-newline ranges.
pub fn align_bytes_pub(
    o: Range<u64>,
    m: Range<u64>,
    orig_base: u64,
    mod_base: u64,
    out: &mut Vec<AlignmentSpan>,
)
    requires
        alignment::fits(parse::span(o), orig_base as int),
        alignment::fits(parse::span(m), mod_base as int),
    ensures
        pieces(final(out)@) == pieces(old(out)@) + alignment::bytes_pieces(
            parse::span(o),
            parse::span(m),
            orig_base as int,
            mod_base as int,
        ),
{
    align_bytes(&o, &m, orig_base, mod_base, out);
}

fn align_bytes(
    o: &Range<u64>,
    m: &Range<u64>,
    orig_base: u64,
    mod_base: u64,
    out: &mut Vec<AlignmentSpan>,
)
    requires
        alignment::fits(parse::span(*o), orig_base as int),
        alignment::fits(parse::span(*m), mod_base as int),
    ensures
        pieces(final(out)@) == pieces(old(out)@) + alignment::bytes_pieces(
            parse::span(*o),
            parse::span(*m),
            orig_base as int,
            mod_base as int,
        ),
{
    let o_len: u64 = if o.end > o.start {
        o.end - o.start
    } else {
        0
    };
    let m_len: u64 = if m.end > m.start {
        m.end - m.start
    } else {
        0
    };
    let common: u64 = if o_len <= m_len {
        o_len
    } else {
        m_len
    };
    if common > 0 {
        push_span(
            out,
            AlignmentSpan::Aligned {
                orig: orig_base + o.start..orig_base + o.start + common,
                mod_: mod_base + m.start..mod_base + m.start + common,
            },
        );
    }
    if o_len > common {
        push_span(
            out,
            AlignmentSpan::OrigOnly { orig: orig_base + o.start + common..orig_base + o.end },
        );
    }
    if m_len > common {
        push_span(
            out,
            AlignmentSpan::ModOnly { mod_: mod_base + m.start + common..mod_base + m.end },
        );
    }
    assert(pieces(out@) =~= pieces(old(out)@) + alignment::bytes_pieces(
        parse::span(*o),
        parse::span(*m),
        orig_base as int,
        mod_base as int,
    ));
}

fn push_orig_only(r: &Range<u64>, base: u64, out: &mut Vec<AlignmentSpan>)
    requires
        alignment::fits(parse::span(*r), base as int),
    ensures
        pieces(final(out)@) == pieces(old(out)@) + alignment::orig_piece(
            parse::span(*r),
            base as int,
        ),
{
    if r.start != r.end {
        push_span(out, AlignmentSpan::OrigOnly { orig: base + r.start..base + r.end });
    } else {
        assert(pieces(out@) =~= pieces(old(out)@) + Seq::<alignment::Piece>::empty());
    }
}

fn push_mod_only(r: &Range<u64>, base: u64, out: &mut Vec<AlignmentSpan>)
    requires
        alignment::fits(parse::span(*r), base as int),
    ensures
        pieces(final(out)@) == pieces(old(out)@) + alignment::mod_piece(
            parse::span(*r),
            base as int,
        ),
{
    if r.start != r.end {
        push_span(out, AlignmentSpan::ModOnly { mod_: base + r.start..base + r.end });
    } else {
        assert(pieces(out@) =~= pieces(old(out)@) + Seq::<alignment::Piece>::empty());
    }
}

fn push_node_orig_only(n: &Node, base: u64, out: &mut Vec<AlignmentSpan>)
    requires
        alignment::alignable(parse::tree_of(*n), base as int),
    ensures
        pieces(final(out)@) == pieces(old(out)@) + alignment::orig_piece(
            alignment::tree_span(parse::tree_of(*n)),
            base as int,
        ),
{
    let r = n.range();
    push_orig_only(&r, base, out);
}

fn push_node_mod_only(n: &Node, base: u64, out: &mut Vec<AlignmentSpan>)
    requires
        alignment::alignable(parse::tree_of(*n), base as int),
    ensures
        pieces(final(out)@) == pieces(old(out)@) + alignment::mod_piece(
            alignment::tree_span(parse::tree_of(*n)),
            base as int,
        ),
{
    let r = n.range();
    push_mod_only(&r, base, out);
}

/// A child of the original alone: an element, or a member with its key.
fn emit_child_orig_only(
    c: &Child,
    Ghost(kind): Ghost<NodeKind>,
    orig_base: u64,
    out: &mut Vec<AlignmentSpan>,
)
    requires
        alignment::child_alignable(kind, parse::branch_of(*c), orig_base as int),
    ensures
        pieces(final(out)@) == pieces(old(out)@) + alignment::orig_only_child(
            parse::branch_of(*c),
            orig_base as int,
        ),
{
    match c {
        Child::Member { key_range, key_decoded, between_key_value, value, trailing } => {
            if key_decoded.as_str().is_empty() && key_range.start == key_range.end {
                // The sentinel of an empty object: only its whitespace.
                push_orig_only(trailing, orig_base, out);
            } else {
                push_orig_only(key_range, orig_base, out);
                push_orig_only(between_key_value, orig_base, out);
                push_node_orig_only(value, orig_base, out);
                push_orig_only(trailing, orig_base, out);
            }
        },
        Child::Element { value, trailing } => {
            push_node_orig_only(value, orig_base, out);
            push_orig_only(trailing, orig_base, out);
        },
    }
    assert(pieces(out@) =~= pieces(old(out)@) + alignment::orig_only_child(
        parse::branch_of(*c),
        orig_base as int,
    ));
}

/// A child of the modified side alone.
fn emit_child_mod_only(
    c: &Child,
    Ghost(kind): Ghost<NodeKind>,
    mod_base: u64,
    out: &mut Vec<AlignmentSpan>,
)
    requires
        alignment::child_alignable(kind, parse::branch_of(*c), mod_base as int),
    ensures
        pieces(final(out)@) == pieces(old(out)@) + alignment::mod_only_child(
            parse::branch_of(*c),
            mod_base as int,
        ),
{
    match c {
        Child::Member { key_range, key_decoded, between_key_value, value, trailing } => {
            if key_decoded.as_str().is_empty() && key_range.start == key_range.end {
                push_mod_only(trailing, mod_base, out);
            } else {
                push_mod_only(key_range, mod_base, out);
                push_mod_only(between_key_value, mod_base, out);
                push_node_mod_only(value, mod_base, out);
                push_mod_only(trailing, mod_base, out);
            }
        },
        Child::Element { value, trailing } => {
            push_node_mod_only(value, mod_base, out);
            push_mod_only(trailing, mod_base, out);
        },
    }
    assert(pieces(out@) =~= pieces(old(out)@) + alignment::mod_only_child(
        parse::branch_of(*c),
        mod_base as int,
    ));
}

/// The first member with the given key.
fn find_key(children: &Vec<Child>, key: &String) -> (r: Option<usize>)
    ensures
        match r {
            Some(i) => i < children@.len() && alignment::first_with_key(
                parse::branches_of(children@),
                key@,
            ) == Some(i as int),
            None => alignment::first_with_key(parse::branches_of(children@), key@) is None,
        },
{
    let ghost cs = children@;
    let mut i: usize = 0;
    assert(cs.take(0) =~= seq![]);
    while i < children.len()
        invariant
            i <= cs.len(),
            cs == children@,
            alignment::first_with_key(parse::branches_of(cs.take(i as int)), key@) is None,
        decreases cs.len() - i,
    {
        proof {
            assert(cs.take(i + 1).drop_last() =~= cs.take(i as int));
            let bs = parse::branches_of(cs.take(i + 1));
            assert(bs.drop_last() =~= parse::branches_of(cs.take(i as int)));
            assert(bs.last() == parse::branch_of(cs[i as int]));
            parse::lemma_branches_of_len(cs.take(i + 1));
        }
        if let Child::Member { key_decoded, .. } = &children[i] {
            if *key_decoded == *key {
                proof {
                    lemma_first_with_key_prefix(cs, i + 1, key@);
                }
                return Some(i);
            }
        }
        i = i + 1;
    }
    assert(cs.take(i as int) =~= cs);
    None
}

proof fn lemma_first_with_key_prefix(cs: Seq<Child>, n: int, text: Seq<char>)
    requires
        0 <= n <= cs.len(),
        alignment::first_with_key(parse::branches_of(cs.take(n)), text) is Some,
    ensures
        alignment::first_with_key(parse::branches_of(cs), text) == alignment::first_with_key(
            parse::branches_of(cs.take(n)),
            text,
        ),
    decreases cs.len() - n,
{
    if n < cs.len() {
        assert(cs.take(n + 1).drop_last() =~= cs.take(n));
        assert(parse::branches_of(cs.take(n + 1)).drop_last() =~= parse::branches_of(cs.take(n)));
        lemma_first_with_key_prefix(cs, n + 1, text);
    } else {
        assert(cs.take(n) =~= cs);
    }
}

/// Every child of an alignable container is alignable.
proof fn lemma_all_alignable_at(kind: NodeKind, cs: Seq<grammar::Branch>, base: int, i: int)
    requires
        alignment::all_alignable(kind, cs, base),
        0 <= i < cs.len(),
    ensures
        alignment::child_alignable(kind, cs[i], base),
    decreases cs.len(),
{
    if i < cs.len() - 1 {
        lemma_all_alignable_at(kind, cs.drop_last(), base, i);
    }
}

fn align_node(
    o: &Node,
    m: &Node,
    orig_base: u64,
    mod_base: u64,
    out: &mut Vec<AlignmentSpan>,
)
    requires
        alignment::alignable(parse::tree_of(*o), orig_base as int),
        alignment::alignable(parse::tree_of(*m), mod_base as int),
    ensures
        pieces(final(out)@) == pieces(old(out)@) + alignment::node_pieces(
            parse::tree_of(*o),
            parse::tree_of(*m),
            orig_base as int,
            mod_base as int,
        ),
    decreases o, 1nat,
{
    if o.kind != m.kind {
        push_node_orig_only(o, orig_base, out);
        push_node_mod_only(m, mod_base, out);
        assert(pieces(out@) =~= pieces(old(out)@) + alignment::node_pieces(
            parse::tree_of(*o),
            parse::tree_of(*m),
            orig_base as int,
            mod_base as int,
        ));
        return;
    }
    match o.kind {
        NodeKind::Object => align_object(o, m, orig_base, mod_base, out),
        NodeKind::Array => align_array(o, m, orig_base, mod_base, out),
        _ => {
            let or = o.range();
            let mr = m.range();
            align_bytes(&or, &mr, orig_base, mod_base, out);
        },
    }
}

/// One member of the original with its partner on the modified side, or alone.
/// Returns which member the partner is.
fn align_member(
    oc: &Child,
    m: &Node,
    orig_base: u64,
    mod_base: u64,
    out: &mut Vec<AlignmentSpan>,
) -> (r: Option<usize>)
    requires
        alignment::child_alignable(NodeKind::Object, parse::branch_of(*oc), orig_base as int),
        m.kind == NodeKind::Object,
        alignment::alignable(parse::tree_of(*m), mod_base as int),
    ensures
        pieces(final(out)@) == pieces(old(out)@) + alignment::member_pieces(
            parse::branch_of(*oc),
            parse::branches_of(m.children@),
            orig_base as int,
            mod_base as int,
        ),
        match r {
            Some(i) => i < m.children@.len() && alignment::partner(
                parse::branch_of(*oc),
                parse::branches_of(m.children@),
            ) == Some(i as int),
            None => alignment::partner(
                parse::branch_of(*oc),
                parse::branches_of(m.children@),
            ) is None,
        },
    decreases oc, 0nat,
{
    if let Child::Member { key_range, key_decoded, between_key_value, value, trailing } = oc {
        let blank = key_decoded.as_str().is_empty() && key_range.start == key_range.end;
        if !blank {
            if let Some(mi) = find_key(&m.children, key_decoded) {
                proof {
                    parse::lemma_branches_of_index(m.children@, mi as int);
                    lemma_all_alignable_at(
                        NodeKind::Object,
                        parse::branches_of(m.children@),
                        mod_base as int,
                        mi as int,
                    );
                }
                if let Child::Member {
                    key_range: mk,
                    key_decoded: _,
                    between_key_value: mb,
                    value: mv,
                    trailing: mt,
                } = &m.children[mi] {
                    align_bytes(key_range, mk, orig_base, mod_base, out);
                    align_bytes(between_key_value, mb, orig_base, mod_base, out);
                    align_node(value, mv, orig_base, mod_base, out);
                    align_bytes(trailing, mt, orig_base, mod_base, out);
                }
                assert(pieces(out@) =~= pieces(old(out)@) + alignment::member_pieces(
                    parse::branch_of(*oc),
                    parse::branches_of(m.children@),
                    orig_base as int,
                    mod_base as int,
                ));
                return Some(mi);
            }
        }
    }
    emit_child_orig_only(oc, Ghost(NodeKind::Object), orig_base, out);
    None
}

fn align_object(
    o: &Node,
    m: &Node,
    orig_base: u64,
    mod_base: u64,
    out: &mut Vec<AlignmentSpan>,
)
    requires
        o.kind == NodeKind::Object,
        m.kind == NodeKind::Object,
        alignment::alignable(parse::tree_of(*o), orig_base as int),
        alignment::alignable(parse::tree_of(*m), mod_base as int),
    ensures
        pieces(final(out)@) == pieces(old(out)@) + alignment::node_pieces(
            parse::tree_of(*o),
            parse::tree_of(*m),
            orig_base as int,
            mod_base as int,
        ),
    decreases o, 0nat,
{
    let ghost before = pieces(out@);
    let ghost ocs = parse::branches_of(o.children@);
    let ghost mcs = parse::branches_of(m.children@);
    let ghost ob = orig_base as int;
    let ghost mb = mod_base as int;
    // Opening brace.
    push_span(
        out,
        AlignmentSpan::Aligned {
            orig: orig_base + o.byte_start..orig_base + o.byte_start + 1,
            mod_: mod_base + m.byte_start..mod_base + m.byte_start + 1,
        },
    );
    let ghost opened = pieces(out@);
    let mut mod_used: Vec<bool> = Vec::new();
    let mut i: usize = 0;
    while i < m.children.len()
        invariant
            i <= m.children@.len(),
            mod_used@.len() == i,
            forall|x: int| 0 <= x < i ==> !#[trigger] mod_used@[x],
        decreases m.children@.len() - i,
    {
        mod_used.push(false);
        i = i + 1;
    }
    // Walk orig in source order.
    let mut i: usize = 0;
    proof {
        parse::lemma_branches_of_len(o.children@);
        parse::lemma_branches_of_len(m.children@);
        assert(ocs.take(0) =~= seq![]);
        assert(pieces(out@) =~= opened + alignment::members_pieces(ocs.take(0), mcs, ob, mb));
    }
    while i < o.children.len()
        invariant
            i <= o.children@.len(),
            ocs == parse::branches_of(o.children@),
            mcs == parse::branches_of(m.children@),
            ocs.len() == o.children@.len(),
            mcs.len() == m.children@.len(),
            mod_used@.len() == m.children@.len(),
            ob == orig_base,
            mb == mod_base,
            o.kind == NodeKind::Object,
            m.kind == NodeKind::Object,
            alignment::alignable(parse::tree_of(*o), ob),
            alignment::alignable(parse::tree_of(*m), mb),
            pieces(out@) == opened + alignment::members_pieces(ocs.take(i as int), mcs, ob, mb),
            forall|x: int|
                0 <= x < mcs.len() ==> #[trigger] mod_used@[x] == alignment::is_partner(
                    ocs.take(i as int),
                    mcs,
                    x,
                ),
        decreases o.children@.len() - i,
    {
        let ghost here = ocs.take(i as int);
        let ghost next = ocs.take(i + 1);
        let ghost was = mod_used@;
        proof {
            parse::lemma_branches_of_index(o.children@, i as int);
            lemma_all_alignable_at(NodeKind::Object, ocs, ob, i as int);
            assert(next.drop_last() =~= here);
        }
        let used = align_member(&o.children[i], m, orig_base, mod_base, out);
        assert(pieces(out@) =~= opened + alignment::members_pieces(next, mcs, ob, mb));
        if let Some(mi) = used {
            mod_used.set(mi, true);
        }
        proof {
            assert forall|x: int| 0 <= x < mcs.len() implies #[trigger] mod_used@[x]
                == alignment::is_partner(next, mcs, x) by {
                assert(was[x] == alignment::is_partner(here, mcs, x));
                if alignment::is_partner(here, mcs, x) {
                    let k = choose|k: int|
                        0 <= k < here.len() && #[trigger] alignment::partner(here[k], mcs)
                            == Some(x);
                    assert(alignment::partner(next[k], mcs) == Some(x));
                }
                if used is Some && used->0 == x {
                    assert(alignment::partner(next[i as int], mcs) == Some(x));
                }
                if alignment::is_partner(next, mcs, x) {
                    let k = choose|k: int|
                        0 <= k < next.len() && #[trigger] alignment::partner(next[k], mcs)
                            == Some(x);
                    if k < i {
                        assert(alignment::partner(here[k], mcs) == Some(x));
                    }
                }
            }
        }
        i = i + 1;
    }
    assert(ocs.take(i as int) =~= ocs);
    let ghost walked = pieces(out@);
    // Mod-only members (visited in mod source order to keep their bytes contiguous).
    let mut i: usize = 0;
    assert(pieces(out@) =~= walked + alignment::mod_rest(ocs, mcs, 0, mb));
    while i < m.children.len()
        invariant
            i <= m.children@.len(),
            mcs == parse::branches_of(m.children@),
            mcs.len() == m.children@.len(),
            mod_used@.len() == m.children@.len(),
            mb == mod_base,
            m.kind == NodeKind::Object,
            alignment::alignable(parse::tree_of(*m), mb),
            pieces(out@) == walked + alignment::mod_rest(ocs, mcs, i as int, mb),
            forall|x: int|
                0 <= x < mcs.len() ==> #[trigger] mod_used@[x] == alignment::is_partner(
                    ocs,
                    mcs,
                    x,
                ),
        decreases m.children@.len() - i,
    {
        if !mod_used[i] {
            proof {
                parse::lemma_branches_of_index(m.children@, i as int);
                lemma_all_alignable_at(NodeKind::Object, mcs, mb, i as int);
            }
            emit_child_mod_only(&m.children[i], Ghost(NodeKind::Object), mod_base, out);
            assert(pieces(out@) =~= walked + alignment::mod_rest(ocs, mcs, i + 1, mb));
        }
        i = i + 1;
    }
    // Closing brace.
    push_span(
        out,
        AlignmentSpan::Aligned {
            orig: orig_base + o.byte_end - 1..orig_base + o.byte_end,
            mod_: mod_base + m.byte_end - 1..mod_base + m.byte_end,
        },
    );
    assert(pieces(out@) =~= before + alignment::node_pieces(
        parse::tree_of(*o),
        parse::tree_of(*m),
        ob,
        mb,
    ));
}

fn align_array(
    o: &Node,
    m: &Node,
    orig_base: u64,
    mod_base: u64,
    out: &mut Vec<AlignmentSpan>,
)
    requires
        o.kind == NodeKind::Array,
        m.kind == NodeKind::Array,
        alignment::alignable(parse::tree_of(*o), orig_base as int),
        alignment::alignable(parse::tree_of(*m), mod_base as int),
    ensures
        pieces(final(out)@) == pieces(old(out)@) + alignment::node_pieces(
            parse::tree_of(*o),
            parse::tree_of(*m),
            orig_base as int,
            mod_base as int,
        ),
    decreases o, 0nat,
{
    let ghost before = pieces(out@);
    let ghost ocs = parse::branches_of(o.children@);
    let ghost mcs = parse::branches_of(m.children@);
    // Opening bracket.
    push_span(
        out,
        AlignmentSpan::Aligned {
            orig: orig_base + o.byte_start..orig_base + o.byte_start + 1,
            mod_: mod_base + m.byte_start..mod_base + m.byte_start + 1,
        },
    );
    let pairs = array_pairs(&o.children, &m.children, Ghost(orig_base as int), Ghost(mod_base as int));
    emit_array_pairs(&o.children, &m.children, &pairs, orig_base, mod_base, out);
    // Closing bracket.
    push_span(
        out,
        AlignmentSpan::Aligned {
            orig: orig_base + o.byte_end - 1..orig_base + o.byte_end,
            mod_: mod_base + m.byte_end - 1..mod_base + m.byte_end,
        },
    );
    assert(pieces(out@) =~= before + alignment::node_pieces(
        parse::tree_of(*o),
        parse::tree_of(*m),
        orig_base as int,
        mod_base as int,
    ));
}

/// How the elements of two arrays are matched.
fn array_pairs(
    o_elems: &Vec<Child>,
    m_elems: &Vec<Child>,
    Ghost(ob): Ghost<int>,
    Ghost(mb): Ghost<int>,
) -> (pairs: Vec<(usize, usize)>)
    requires
        alignment::all_alignable(NodeKind::Array, parse::branches_of(o_elems@), ob),
        alignment::all_alignable(NodeKind::Array, parse::branches_of(m_elems@), mb),
    ensures
        lcs::index_pairs(pairs@) == alignment::array_pairs(
            parse::branches_of(o_elems@),
            parse::branches_of(m_elems@),
        ),
        increasing_within(pairs@, o_elems@.len() as int, m_elems@.len() as int),
{
    let ghost ocs = parse::branches_of(o_elems@);
    let ghost mcs = parse::branches_of(m_elems@);
    proof {
        parse::lemma_branches_of_len(o_elems@);
        parse::lemma_branches_of_len(m_elems@);
    }
    if o_elems.len() <= MAX_LCS_ELEMENTS && m_elems.len() <= MAX_LCS_ELEMENTS {
        let o_hashes = shape_hashes(o_elems);
        let m_hashes = shape_hashes(m_elems);
        let pairs = lcs_pairs(o_hashes.as_slice(), m_hashes.as_slice());
        proof {
            let p = lcs::index_pairs(pairs@);
            assert forall|k: int| 0 <= k < pairs@.len() implies (#[trigger] pairs@[k]).0
                < o_elems@.len() && pairs@[k].1 < m_elems@.len() by {
                assert(p[k].0 < ocs.len());
            }
            assert forall|k: int, l: int| 0 <= k < l < pairs@.len() implies (#[trigger] pairs@[k]).0
                < (#[trigger] pairs@[l]).0 && pairs@[k].1 < pairs@[l].1 by {
                assert(p[k].0 < p[l].0);
            }
        }
        pairs
    } else {
        index_pairs(if o_elems.len() <= m_elems.len() {
            o_elems.len()
        } else {
            m_elems.len()
        })
    }
}

/// The first `len` items matched by index.
pub(crate) fn index_pairs(len: usize) -> (pairs: Vec<(usize, usize)>)
    ensures
        lcs::index_pairs(pairs@) == alignment::index_pairing(len as nat),
        increasing_within(pairs@, len as int, len as int),
{
    let mut pairs: Vec<(usize, usize)> = Vec::new();
    let mut i: usize = 0;
    while i < len
        invariant
            i <= len,
            pairs@.len() == i,
            forall|k: int| 0 <= k < i ==> #[trigger] pairs@[k] == (k as usize, k as usize),
        decreases len - i,
    {
        pairs.push((i, i));
        i = i + 1;
    }
    assert(lcs::index_pairs(pairs@) =~= alignment::index_pairing(len as nat));
    pairs
}

/// The pairs increase on both sides and stay below the two lengths.
pub open spec fn increasing_within(pairs: Seq<(usize, usize)>, n: int, m: int) -> bool {
    &&& forall|k: int|
        0 <= k < pairs.len() ==> (#[trigger] pairs[k]).0 < n && pairs[k].1 < m
    &&& forall|k: int, l: int|
        0 <= k < l < pairs.len() ==> (#[trigger] pairs[k]).0 < (#[trigger] pairs[l]).0
            && pairs[k].1 < pairs[l].1
}

fn emit_orig_run(
    elems: &Vec<Child>,
    from: usize,
    to: usize,
    orig_base: u64,
    out: &mut Vec<AlignmentSpan>,
)
    requires
        from <= to <= elems@.len(),
        alignment::all_alignable(
            NodeKind::Array,
            parse::branches_of(elems@),
            orig_base as int,
        ),
    ensures
        pieces(final(out)@) == pieces(old(out)@) + alignment::orig_only_children(
            parse::branches_of(elems@),
            from as int,
            to as int,
            orig_base as int,
        ),
{
    let ghost cs = parse::branches_of(elems@);
    let ghost before = pieces(out@);
    let mut i: usize = from;
    assert(pieces(out@) =~= before + alignment::orig_only_children(
        cs,
        from as int,
        i as int,
        orig_base as int,
    ));
    while i < to
        invariant
            from <= i <= to <= elems@.len(),
            cs == parse::branches_of(elems@),
            alignment::all_alignable(NodeKind::Array, cs, orig_base as int),
            pieces(out@) == before + alignment::orig_only_children(
                cs,
                from as int,
                i as int,
                orig_base as int,
            ),
        decreases to - i,
    {
        proof {
            parse::lemma_branches_of_index(elems@, i as int);
            lemma_all_alignable_at(NodeKind::Array, cs, orig_base as int, i as int);
        }
        emit_child_orig_only(&elems[i], Ghost(NodeKind::Array), orig_base, out);
        assert(pieces(out@) =~= before + alignment::orig_only_children(
            cs,
            from as int,
            i + 1,
            orig_base as int,
        ));
        i = i + 1;
    }
}

fn emit_mod_run(
    elems: &Vec<Child>,
    from: usize,
    to: usize,
    mod_base: u64,
    out: &mut Vec<AlignmentSpan>,
)
    requires
        from <= to <= elems@.len(),
        alignment::all_alignable(NodeKind::Array, parse::branches_of(elems@), mod_base as int),
    ensures
        pieces(final(out)@) == pieces(old(out)@) + alignment::mod_only_children(
            parse::branches_of(elems@),
            from as int,
            to as int,
            mod_base as int,
        ),
{
    let ghost cs = parse::branches_of(elems@);
    let ghost before = pieces(out@);
    let mut i: usize = from;
    assert(pieces(out@) =~= before + alignment::mod_only_children(
        cs,
        from as int,
        i as int,
        mod_base as int,
    ));
    while i < to
        invariant
            from <= i <= to <= elems@.len(),
            cs == parse::branches_of(elems@),
            alignment::all_alignable(NodeKind::Array, cs, mod_base as int),
            pieces(out@) == before + alignment::mod_only_children(
                cs,
                from as int,
                i as int,
                mod_base as int,
            ),
        decreases to - i,
    {
        proof {
            parse::lemma_branches_of_index(elems@, i as int);
            lemma_all_alignable_at(NodeKind::Array, cs, mod_base as int, i as int);
        }
        emit_child_mod_only(&elems[i], Ghost(NodeKind::Array), mod_base, out);
        assert(pieces(out@) =~= before + alignment::mod_only_children(
            cs,
            from as int,
            i + 1,
            mod_base as int,
        ));
        i = i + 1;
    }
}

/// Walk paired indices in order, emitting one-sided spans for unmatched
/// elements between matches.
fn emit_array_pairs(
    o_elems: &Vec<Child>,
    m_elems: &Vec<Child>,
    pairs: &Vec<(usize, usize)>,
    orig_base: u64,
    mod_base: u64,
    out: &mut Vec<AlignmentSpan>,
)
    requires
        increasing_within(pairs@, o_elems@.len() as int, m_elems@.len() as int),
        alignment::all_alignable(
            NodeKind::Array,
            parse::branches_of(o_elems@),
            orig_base as int,
        ),
        alignment::all_alignable(NodeKind::Array, parse::branches_of(m_elems@), mod_base as int),
    ensures
        pieces(final(out)@) == pieces(old(out)@) + alignment::elements_pieces(
            parse::branches_of(o_elems@),
            parse::branches_of(m_elems@),
            lcs::index_pairs(pairs@),
            orig_base as int,
            mod_base as int,
        ),
    decreases o_elems, 0nat,
{
    let ghost before = pieces(out@);
    let ghost ocs = parse::branches_of(o_elems@);
    let ghost mcs = parse::branches_of(m_elems@);
    let ghost ps = lcs::index_pairs(pairs@);
    let ghost ob = orig_base as int;
    let ghost mb = mod_base as int;
    let mut oi: usize = 0;
    let mut mi: usize = 0;
    let mut k: usize = 0;
    proof {
        parse::lemma_branches_of_len(o_elems@);
        parse::lemma_branches_of_len(m_elems@);
        assert(ps.take(0) =~= seq![]);
        assert(pieces(out@) =~= before + alignment::paired_pieces(ocs, mcs, ps.take(0), ob, mb));
    }
    while k < pairs.len()
        invariant
            k <= pairs@.len(),
            ps == lcs::index_pairs(pairs@),
            ocs == parse::branches_of(o_elems@),
            mcs == parse::branches_of(m_elems@),
            ocs.len() == o_elems@.len(),
            mcs.len() == m_elems@.len(),
            ob == orig_base,
            mb == mod_base,
            increasing_within(pairs@, o_elems@.len() as int, m_elems@.len() as int),
            alignment::all_alignable(NodeKind::Array, ocs, ob),
            alignment::all_alignable(NodeKind::Array, mcs, mb),
            (oi as int, mi as int) == alignment::after_pairs(ps.take(k as int)),
            oi <= ocs.len(),
            mi <= mcs.len(),
            pieces(out@) == before + alignment::paired_pieces(
                ocs,
                mcs,
                ps.take(k as int),
                ob,
                mb,
            ),
        decreases pairs@.len() - k,
    {
        let (po, pm): (usize, usize) = pairs[k];
        proof {
            assert(ps.take(k + 1).drop_last() =~= ps.take(k as int));
            assert(ps[k as int] == (po as int, pm as int));
            if k > 0 {
                assert(pairs@[k - 1].0 < pairs@[k as int].0);
                assert(ps.take(k as int).last() == ps[k - 1]);
                assert(ps[k - 1] == (pairs@[k - 1].0 as int, pairs@[k - 1].1 as int));
            }
        }
        emit_orig_run(o_elems, oi, po, orig_base, out);
        emit_mod_run(m_elems, mi, pm, mod_base, out);
        proof {
            parse::lemma_branches_of_index(o_elems@, po as int);
            parse::lemma_branches_of_index(m_elems@, pm as int);
            lemma_all_alignable_at(NodeKind::Array, ocs, ob, po as int);
            lemma_all_alignable_at(NodeKind::Array, mcs, mb, pm as int);
        }
        // Align the matched pair.
        emit_child_paired(&o_elems[po], &m_elems[pm], orig_base, mod_base, out);
        assert(pieces(out@) =~= before + alignment::paired_pieces(ocs, mcs, ps.take(k + 1), ob, mb));
        assert(po < o_elems.len() && pm < m_elems.len());
        oi = po + 1;
        mi = pm + 1;
        k = k + 1;
    }
    assert(ps.take(k as int) =~= ps);
    emit_orig_run(o_elems, oi, o_elems.len(), orig_base, out);
    emit_mod_run(m_elems, mi, m_elems.len(), mod_base, out);
    assert(pieces(out@) =~= before + alignment::elements_pieces(ocs, mcs, ps, ob, mb));
}

fn emit_child_paired(
    oc: &Child,
    mc: &Child,
    orig_base: u64,
    mod_base: u64,
    out: &mut Vec<AlignmentSpan>,
)
    requires
        alignment::child_alignable(NodeKind::Array, parse::branch_of(*oc), orig_base as int),
        alignment::child_alignable(NodeKind::Array, parse::branch_of(*mc), mod_base as int),
    ensures
        pieces(final(out)@) == pieces(old(out)@) + alignment::element_pieces(
            parse::branch_of(*oc),
            parse::branch_of(*mc),
            orig_base as int,
            mod_base as int,
        ),
    decreases oc, 0nat,
{
    if let Child::Element { value: ov, trailing: ot } = oc {
        if let Child::Element { value: mv, trailing: mt } = mc {
            align_node(ov, mv, orig_base, mod_base, out);
            align_bytes(ot, mt, orig_base, mod_base, out);
        }
    }
    assert(pieces(out@) =~= pieces(old(out)@) + alignment::element_pieces(
        parse::branch_of(*oc),
        parse::branch_of(*mc),
        orig_base as int,
        mod_base as int,
    ));
}

fn shape_hashes(elems: &Vec<Child>) -> (r: Vec<u64>)
    ensures
        r@ == alignment::shape_hashes(parse::branches_of(elems@)),
{
    let ghost cs = parse::branches_of(elems@);
    let mut r: Vec<u64> = Vec::new();
    let mut i: usize = 0;
    proof {
        parse::lemma_branches_of_len(elems@);
    }
    while i < elems.len()
        invariant
            i <= elems@.len(),
            cs == parse::branches_of(elems@),
            cs.len() == elems@.len(),
            r@.len() == i,
            forall|k: int| 0 <= k < i ==> #[trigger] r@[k] == alignment::shape_hash(cs[k]),
        decreases elems@.len() - i,
    {
        proof {
            parse::lemma_branches_of_index(elems@, i as int);
        }
        r.push(shape_hash_of(&elems[i]));
        i = i + 1;
    }
    assert(r@ =~= alignment::shape_hashes(cs));
    r
}

/// 64-bit shape hash. For containers we hash the structural skeleton; for
/// primitives we hash kind + byte content so identical literals match.
pub fn shape_hash_of(c: &Child) -> (r: u64)
    ensures
        r == alignment::shape_hash(parse::branch_of(*c)),
{
    match c {
        Child::Element { value, .. } => shape_hash_node(value),
        Child::Member { key_decoded, value, .. } => {
            let mut h = DefaultHasher::new();
            write_text(&mut h, "member");
            write_text(&mut h, key_decoded.as_str());
            write_number(&mut h, shape_hash_node(value));
            assert(h@ =~= hashing::text_writes("member"@) + hashing::text_writes(key_decoded@)
                + seq![
                vstd::bytes::spec_u64_to_le_bytes(
                    alignment::shape_hash_tree(parse::tree_of(**value)),
                ),
            ]);
            h.finish()
        },
    }
}

fn shape_hash_node(n: &Node) -> (r: u64)
    ensures
        r == alignment::shape_hash_tree(parse::tree_of(*n)),
{
    let mut h = DefaultHasher::new();
    match n.kind {
        NodeKind::Object => {
            write_text(&mut h, "object");
            // Sorted decoded keys.
            let keys = sort_strings(object_keys(&n.children));
            write_keys(&mut h, &keys);
        },
        NodeKind::Array => {
            write_text(&mut h, "array");
            write_kinds(&mut h, &n.children);
        },
        kind => {
            write_byte(&mut h, discriminant(kind) - 1);
            write_number(&mut h, n.content.len() as u64);
            h.write(n.content.as_slice());
        },
    }
    assert(h@ =~= alignment::shape_writes(parse::tree_of(*n)));
    h.finish()
}

fn object_keys(children: &Vec<Child>) -> (keys: Vec<String>)
    ensures
        order::texts(keys@) == alignment::object_keys(parse::branches_of(children@)),
{
    let ghost cs = children@;
    let mut keys: Vec<String> = Vec::new();
    let mut i: usize = 0;
    assert(cs.take(0) =~= seq![]);
    assert(order::texts(keys@) =~= seq![]);
    while i < children.len()
        invariant
            i <= cs.len(),
            cs == children@,
            order::texts(keys@) == alignment::object_keys(
                parse::branches_of(cs.take(i as int)),
            ),
        decreases cs.len() - i,
    {
        let ghost was = order::texts(keys@);
        proof {
            assert(cs.take(i + 1).drop_last() =~= cs.take(i as int));
            assert(parse::branches_of(cs.take(i + 1)).drop_last() =~= parse::branches_of(
                cs.take(i as int),
            ));
            assert(parse::branches_of(cs.take(i + 1)).last() == parse::branch_of(cs[i as int]));
        }
        if let Child::Member { key_range, key_decoded, .. } = &children[i] {
            if !(key_decoded.as_str().is_empty() && key_range.start == key_range.end) {
                keys.push(key_decoded.clone());
                assert(order::texts(keys@) =~= was.push(key_decoded@));
            }
        }
        i = i + 1;
    }
    assert(cs.take(i as int) =~= cs);
    keys
}

fn write_keys(h: &mut DefaultHasher, keys: &Vec<String>)
    ensures
        final(h)@ == old(h)@ + alignment::keys_writes(order::texts(keys@)),
{
    let ghost before = h@;
    let ghost ts = order::texts(keys@);
    let mut i: usize = 0;
    assert(ts.take(0) =~= seq![]);
    assert(h@ =~= before + alignment::keys_writes(ts.take(0)));
    while i < keys.len()
        invariant
            i <= keys@.len(),
            ts == order::texts(keys@),
            h@ == before + alignment::keys_writes(ts.take(i as int)),
        decreases keys@.len() - i,
    {
        assert(ts.take(i + 1).drop_last() =~= ts.take(i as int));
        write_text(h, keys[i].as_str());
        assert(h@ =~= before + alignment::keys_writes(ts.take(i + 1)));
        i = i + 1;
    }
    assert(ts.take(i as int) =~= ts);
}

/// Whether a child is the sentinel that holds an array's whitespace.
fn is_blank_element(c: &Child) -> (r: bool)
    ensures
        r == (parse::branch_of(*c) matches grammar::Branch::Element { value, .. } && value.kind
            == NodeKind::Null && value.start == value.end),
{
    match c {
        Child::Element { value, .. } => value.kind == NodeKind::Null && value.byte_start
            == value.byte_end,
        Child::Member { .. } => false,
    }
}

/// Length + element kinds, the whitespace sentinel left out.
fn write_kinds(h: &mut DefaultHasher, children: &Vec<Child>)
    ensures
        final(h)@ == old(h)@ + seq![
            vstd::bytes::spec_u64_to_le_bytes(
                alignment::real_elements(parse::branches_of(children@)).len() as u64,
            ),
        ] + alignment::kinds_writes(alignment::real_elements(parse::branches_of(children@))),
{
    let ghost cs = children@;
    let mut kinds: Vec<u8> = Vec::new();
    let mut count: usize = 0;
    let mut i: usize = 0;
    assert(cs.take(0) =~= seq![]);
    assert(byte_writes(kinds@) =~= seq![]);
    while i < children.len()
        invariant
            i <= cs.len(),
            cs == children@,
            count <= i,
            count == alignment::real_elements(parse::branches_of(cs.take(i as int))).len(),
            byte_writes(kinds@) == alignment::kinds_writes(
                alignment::real_elements(parse::branches_of(cs.take(i as int))),
            ),
        decreases cs.len() - i,
    {
        let ghost was = byte_writes(kinds@);
        let ghost done = alignment::real_elements(parse::branches_of(cs.take(i as int)));
        proof {
            assert(cs.take(i + 1).drop_last() =~= cs.take(i as int));
            assert(parse::branches_of(cs.take(i + 1)).drop_last() =~= parse::branches_of(
                cs.take(i as int),
            ));
            assert(parse::branches_of(cs.take(i + 1)).last() == parse::branch_of(cs[i as int]));
            assert(done.push(parse::branch_of(cs[i as int])).drop_last() =~= done);
        }
        if !is_blank_element(&children[i]) {
            count = count + 1;
            if let Child::Element { value, .. } = &children[i] {
                kinds.push(discriminant(value.kind));
                assert(byte_writes(kinds@) =~= was.push(seq![alignment::kind_number(value.kind)]));
            }
        }
        i = i + 1;
    }
    assert(cs.take(i as int) =~= cs);
    let ghost before = h@;
    write_number(h, count as u64);
    let ghost counted = h@;
    let mut k: usize = 0;
    assert(h@ =~= counted + byte_writes(kinds@.take(0)));
    while k < kinds.len()
        invariant
            k <= kinds@.len(),
            h@ == counted + byte_writes(kinds@.take(k as int)),
        decreases kinds@.len() - k,
    {
        write_byte(h, kinds[k]);
        k = k + 1;
        assert(h@ =~= counted + byte_writes(kinds@.take(k as int)));
    }
    assert(kinds@.take(k as int) =~= kinds@);
    assert(h@ =~= before + seq![
        vstd::bytes::spec_u64_to_le_bytes(
            alignment::real_elements(parse::branches_of(children@)).len() as u64,
        ),
    ] + alignment::kinds_writes(alignment::real_elements(parse::branches_of(children@))));
}

spec fn byte_writes(kinds: Seq<u8>) -> Seq<Seq<u8>> {
    kinds.map_values(|b: u8| seq![b])
}

fn discriminant(k: NodeKind) -> (r: u8)
    ensures
        r == alignment::kind_number(k),
{
    match k {
        NodeKind::Object => 1,
        NodeKind::Array => 2,
        NodeKind::String => 3,
        NodeKind::Number => 4,
        NodeKind::Bool => 5,
        NodeKind::Null => 6,
    }
}

fn range_len(r: &Range<u64>) -> (n: u64)
    ensures
        n == alignment::span_len(parse::span(*r)),
{
    if r.end > r.start {
        r.end - r.start
    } else {
        0
    }
}

/// Two neighbouring spans as one, where they can be merged.
fn merge(l: &AlignmentSpan, r: &AlignmentSpan) -> (s: Option<AlignmentSpan>)
    ensures
        match s {
            Some(x) => alignment::merged(piece_of(*l), piece_of(*r)) == Some(piece_of(x)),
            None => alignment::merged(piece_of(*l), piece_of(*r)) is None,
        },
{
    match (l, r) {
        (
            AlignmentSpan::Aligned { orig: lo, mod_: lm },
            AlignmentSpan::Aligned { orig: ro, mod_: rm },
        ) => {
            if lo.end == ro.start && lm.end == rm.start && range_len(lo) == range_len(lm)
                && range_len(ro) == range_len(rm) {
                Some(
                    AlignmentSpan::Aligned {
                        orig: lo.start..ro.end,
                        mod_: lm.start..rm.end,
                    },
                )
            } else {
                None
            }
        },
        (AlignmentSpan::OrigOnly { orig: lo }, AlignmentSpan::OrigOnly { orig: ro }) => {
            if lo.end == ro.start {
                Some(AlignmentSpan::OrigOnly { orig: lo.start..ro.end })
            } else {
                None
            }
        },
        (AlignmentSpan::ModOnly { mod_: lm }, AlignmentSpan::ModOnly { mod_: rm }) => {
            if lm.end == rm.start {
                Some(AlignmentSpan::ModOnly { mod_: lm.start..rm.end })
            } else {
                None
            }
        },
        _ => None,
    }
}

fn copy_range(r: &Range<u64>) -> (c: Range<u64>)
    ensures
        c == *r,
{
    r.start..r.end
}

impl Clone for AlignmentSpan {
    fn clone(&self) -> (c: Self)
        ensures
            c == *self,
    {
        match self {
            AlignmentSpan::Aligned { orig, mod_ } => AlignmentSpan::Aligned {
                orig: copy_range(orig),
                mod_: copy_range(mod_),
            },
            AlignmentSpan::OrigOnly { orig } => AlignmentSpan::OrigOnly { orig: copy_range(orig) },
            AlignmentSpan::ModOnly { mod_ } => AlignmentSpan::ModOnly { mod_: copy_range(mod_) },
        }
    }
}

/// Single linear pass: merge adjacent same-kind spans whose ranges are
/// contiguous in both files. Aligned spans only merge when both sides have
/// equal length on both the predecessor and the successor (so the diff math
/// stays well-defined).
pub fn coalesce(spans: Vec<AlignmentSpan>) -> (out: Vec<AlignmentSpan>)
    ensures
        pieces(out@) == alignment::coalesced(pieces(spans@)),
{
    let mut out: Vec<AlignmentSpan> = Vec::new();
    let ghost ps = pieces(spans@);
    let mut i: usize = 0;
    assert(ps.take(0) =~= seq![]);
    assert(pieces(out@) =~= seq![]);
    while i < spans.len()
        invariant
            i <= spans@.len(),
            ps == pieces(spans@),
            pieces(out@) == alignment::coalesced(ps.take(i as int)),
        decreases spans@.len() - i,
    {
        let ghost was = pieces(out@);
        assert(ps.take(i + 1).drop_last() =~= ps.take(i as int));
        assert(ps.take(i + 1).last() == piece_of(spans@[i as int]));
        let s = &spans[i];
        i = i + 1;
        if out.len() > 0 {
            let last: usize = out.len() - 1;
            assert(was.last() == piece_of(out@.last()));
            if let Some(joined) = merge(&out[last], s) {
                out.set(last, joined);
                assert(pieces(out@) =~= was.drop_last().push(piece_of(joined)));
                continue;
            }
        }
        // Drop empty spans before pushing.
        if span_is_empty(s) {
            continue;
        }
        let c = s.clone();
        out.push(c);
        assert(pieces(out@) =~= was.push(piece_of(c)));
    }
    assert(ps.take(i as int) =~= ps);
    out
}

fn span_is_empty(s: &AlignmentSpan) -> (r: bool)
    ensures
        r == alignment::is_empty_piece(piece_of(*s)),
{
    match s {
        AlignmentSpan::Aligned { orig, mod_ } => orig.start == orig.end && mod_.start == mod_.end,
        AlignmentSpan::OrigOnly { orig } => orig.start == orig.end,
        AlignmentSpan::ModOnly { mod_ } => mod_.start == mod_.end,
    }
}

} // verus!
