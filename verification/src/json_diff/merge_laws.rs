//! Merging neighbours loses no byte, mixes no kinds, and is done at once.

use vstd::prelude::*;
use super::align_laws;
use super::alignment;
use super::alignment::Piece;
use super::grammar;

verus! {

/// The bytes of a range, in order.
pub open spec fn bytes_of(r: grammar::Span) -> Seq<int> {
    Seq::new(alignment::span_len(r) as nat, |i: int| r.start + i)
}

/// The matched bytes of both files and the bytes of either file alone, each in
/// order.
pub ghost struct Ledger {
    pub both_orig: Seq<int>,
    pub both_mod: Seq<int>,
    pub orig: Seq<int>,
    pub modified: Seq<int>,
}

/// The bytes that a list of pieces holds, by side and kind.
pub open spec fn ledger(ps: Seq<Piece>) -> Ledger
    decreases ps.len(),
{
    if ps.len() == 0 {
        Ledger { both_orig: seq![], both_mod: seq![], orig: seq![], modified: seq![] }
    } else {
        let l = ledger(ps.drop_last());
        match ps.last() {
            Piece::Both { orig, modified } => Ledger {
                both_orig: l.both_orig + bytes_of(orig),
                both_mod: l.both_mod + bytes_of(modified),
                ..l
            },
            Piece::Orig { orig } => Ledger { orig: l.orig + bytes_of(orig), ..l },
            Piece::Modified { modified } => Ledger {
                modified: l.modified + bytes_of(modified),
                ..l
            },
        }
    }
}

proof fn lemma_joined(s: Seq<int>, a: grammar::Span, b: grammar::Span)
    requires
        a.start <= a.end,
        a.end == b.start,
        b.start <= b.end,
    ensures
        s + bytes_of(a) + bytes_of(b) == s + bytes_of(grammar::Span { start: a.start, end: b.end }),
{
    assert(bytes_of(a) + bytes_of(b) =~= bytes_of(grammar::Span { start: a.start, end: b.end }));
    assert(s + bytes_of(a) + bytes_of(b) =~= s + (bytes_of(a) + bytes_of(b)));
}

proof fn lemma_absorb(out: Seq<Piece>, p: Piece)
    requires
        align_laws::all_forwards(out),
        align_laws::forwards(p),
    ensures
        ledger(alignment::absorb(out, p)) == ledger(out.push(p)),
{
    let l = ledger(out);
    assert(out.push(p).drop_last() =~= out);
    if out.len() > 0 && alignment::merged(out.last(), p) is Some {
        let head = out.drop_last();
        let q = alignment::merged(out.last(), p)->0;
        let h = ledger(head);
        assert(head.push(q).drop_last() =~= head);
        assert(align_laws::forwards(out[out.len() - 1]));
        match (out.last(), p) {
            (
                Piece::Both { orig: lo, modified: lm },
                Piece::Both { orig: ro, modified: rm },
            ) => {
                lemma_joined(h.both_orig, lo, ro);
                lemma_joined(h.both_mod, lm, rm);
            },
            (Piece::Orig { orig: lo }, Piece::Orig { orig: ro }) => {
                lemma_joined(h.orig, lo, ro);
            },
            (Piece::Modified { modified: lm }, Piece::Modified { modified: rm }) => {
                lemma_joined(h.modified, lm, rm);
            },
            _ => {},
        }
    } else if alignment::is_empty_piece(p) {
        match p {
            Piece::Both { orig, modified } => {
                assert(l.both_orig + bytes_of(orig) =~= l.both_orig);
                assert(l.both_mod + bytes_of(modified) =~= l.both_mod);
            },
            Piece::Orig { orig } => {
                assert(l.orig + bytes_of(orig) =~= l.orig);
            },
            Piece::Modified { modified } => {
                assert(l.modified + bytes_of(modified) =~= l.modified);
            },
        }
    }
}

/// Merging keeps the bytes of each side and kind, in order.
pub proof fn coalesced_keeps_every_kind(ps: Seq<Piece>)
    requires
        align_laws::all_forwards(ps),
    ensures
        ledger(alignment::coalesced(ps)) == ledger(ps),
    decreases ps.len(),
{
    if ps.len() > 0 {
        let init = ps.drop_last();
        assert forall|i: int| 0 <= i < init.len() implies align_laws::forwards(
            #[trigger] init[i],
        ) by {
            assert(init[i] == ps[i]);
        }
        assert(align_laws::forwards(ps[ps.len() - 1]));
        coalesced_keeps_every_kind(init);
        align_laws::coalesced_keeps_mod_count(init, 0);
        let out = alignment::coalesced(init);
        lemma_absorb(out, ps.last());
        assert(out.push(ps.last()).drop_last() =~= out);
    }
}

proof fn lemma_merged_stays(r: Seq<Piece>)
    requires
        forall|i: int|
            0 < i < r.len() ==> alignment::merged(r[i - 1], #[trigger] r[i]) is None,
        forall|i: int| 0 <= i < r.len() ==> !alignment::is_empty_piece(#[trigger] r[i]),
    ensures
        alignment::coalesced(r) == r,
    decreases r.len(),
{
    if r.len() > 0 {
        let init = r.drop_last();
        assert forall|i: int| 0 < i < init.len() implies alignment::merged(
            init[i - 1],
            #[trigger] init[i],
        ) is None by {
            assert(alignment::merged(r[i - 1], r[i]) is None);
        }
        assert forall|i: int| 0 <= i < init.len() implies !alignment::is_empty_piece(
            #[trigger] init[i],
        ) by {
            assert(init[i] == r[i]);
        }
        lemma_merged_stays(init);
        assert(!alignment::is_empty_piece(r[r.len() - 1]));
        if init.len() > 0 {
            assert(alignment::merged(r[r.len() - 2], r[r.len() - 1]) is None);
        }
        assert(init.push(r.last()) =~= r);
    } else {
        assert(r =~= seq![]);
    }
}

/// Merging what is merged changes nothing.
pub proof fn coalesced_once_is_enough(ps: Seq<Piece>)
    requires
        align_laws::all_forwards(ps),
    ensures
        alignment::coalesced(alignment::coalesced(ps)) == alignment::coalesced(ps),
{
    align_laws::coalesced_is_merged(ps);
    lemma_merged_stays(alignment::coalesced(ps));
}

} // verus!
