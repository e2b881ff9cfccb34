//! Turns the spans of an aligned pair of JSON files into render sources.
//!
//! The aligner pads at the finest structural granularity (object keys, array
//! elements, primitive value prefixes) so a one-byte insertion near the top
//! of a file doesn't smear every following byte across the canvas.

use vstd::prelude::*;
use vstd::string::StringExecFns;
use std::ops::Range;
use super::align;
use super::align::{align_documents, AlignmentSpan};
use super::align_laws;
use super::alignment;
use super::cover;
use super::grammar;
use super::jsonl;
use super::jsonl::align_jsonl;
use super::jsonl_laws;
use super::parse;
use crate::format::types;
use crate::format::types::DiffFill;
use crate::path;
use crate::path::{filename_label, has_extension};
use crate::source;
use crate::source::{push_source, Side, Source, SourceKind};
use crate::text;
use crate::text::decimal_string;

verus! {

/// Hard cap on the number of spans emitted for a single diff. Beyond this, the
/// per-source cumulative offsets bloat memory and the renderer slows down
/// without proportional value; the diff falls back to whole-file bytes.
pub const MAX_SPANS: usize = 1_000_000;

/// A byte range as `[start, end)`.
pub open spec fn range_text(start: int, end: int) -> Seq<char> {
    "["@ + text::decimal(start as nat) + ", "@ + text::decimal(end as nat) + ")"@
}

fn range_string(start: u64, end: u64) -> (s: String)
    ensures
        s@ == range_text(start as int, end as int),
{
    "[".to_owned().concat(decimal_string(start).as_str()).concat(", ").concat(
        decimal_string(end).as_str(),
    ).concat(")")
}

/// What only one side has.
pub open spec fn one_sided(
    side: source::Side,
    start: int,
    end: int,
    fill: DiffFill,
    label: Seq<char>,
) -> source::Region {
    source::plain_region(
        source::Storage::OneSidedRange { side, start: start as u64, fill },
        (end - start) as u64,
        Some(
            (match side {
                source::Side::Original => "[only in original] "@,
                source::Side::Modified => "[only in modified] "@,
            }) + label + " @ "@ + range_text(start, end),
        ),
    )
}

/// Two equally long ranges, diffed byte by byte.
pub open spec fn range_diff(orig_start: int, mod_start: int, len: int) -> source::Region {
    source::plain_region(
        source::Storage::RangeDiff {
            orig_start: orig_start as u64,
            mod_start: mod_start as u64,
        },
        len as u64,
        Some(
            "diff @ orig:"@ + range_text(orig_start, orig_start + len) + " vs mod:"@ + range_text(
                mod_start,
                mod_start + len,
            ),
        ),
    )
}

/// How the two sides of a diff are shown.
pub ghost struct Style {
    pub is_finetune: bool,
    pub orig_label: Seq<char>,
    pub mod_label: Seq<char>,
}

/// Bytes of the original alone; nothing where there are none.
pub open spec fn orig_alone(start: int, end: int, st: Style) -> Seq<source::Region> {
    if start < end {
        seq![
            one_sided(
                source::Side::Original,
                start,
                end,
                types::fill_of_original(st.is_finetune),
                st.orig_label,
            ),
        ]
    } else {
        seq![]
    }
}

/// Bytes of the modified side alone; nothing where there are none.
pub open spec fn mod_alone(start: int, end: int, st: Style) -> Seq<source::Region> {
    if start < end {
        seq![one_sided(source::Side::Modified, start, end, DiffFill::Green, st.mod_label)]
    } else {
        seq![]
    }
}

/// The stretches of one span: the common length of a matched pair is diffed,
/// the surplus of the longer side stands alone.
pub open spec fn piece_regions(p: alignment::Piece, st: Style) -> Seq<source::Region> {
    match p {
        alignment::Piece::Both { orig, modified } => {
            let ol = alignment::span_len(orig);
            let ml = alignment::span_len(modified);
            let common = if ol <= ml {
                ol
            } else {
                ml
            };
            (if common > 0 {
                seq![range_diff(orig.start, modified.start, common)]
            } else {
                seq![]
            }) + orig_alone(orig.start + common, orig.end, st) + mod_alone(
                modified.start + common,
                modified.end,
                st,
            )
        },
        alignment::Piece::Orig { orig } => orig_alone(orig.start, orig.end, st),
        alignment::Piece::Modified { modified } => mod_alone(modified.start, modified.end, st),
    }
}

/// The stretches of all spans, in order.
pub open spec fn span_regions(ps: Seq<alignment::Piece>, st: Style) -> Seq<source::Region>
    decreases ps.len(),
{
    if ps.len() == 0 {
        seq![]
    } else {
        span_regions(ps.drop_last(), st) + piece_regions(ps.last(), st)
    }
}

/// The bytes of a side that a piece holds.
spec fn mod_len(p: alignment::Piece) -> int {
    match p {
        alignment::Piece::Both { orig: _, modified } => alignment::span_len(modified),
        alignment::Piece::Orig { orig: _ } => 0,
        alignment::Piece::Modified { modified } => alignment::span_len(modified),
    }
}

spec fn orig_len(p: alignment::Piece) -> int {
    match p {
        alignment::Piece::Both { orig, modified: _ } => alignment::span_len(orig),
        alignment::Piece::Orig { orig } => alignment::span_len(orig),
        alignment::Piece::Modified { modified: _ } => 0,
    }
}

proof fn lemma_one_region(r: source::Region)
    ensures
        source::total_size(seq![r]) == r.size,
{
    reveal_with_fuel(source::total_size, 2);
    assert(seq![r].drop_last() =~= seq![]);
}

/// A piece of spans within 64 bits shows at most the bytes of both sides.
proof fn lemma_piece_total(p: alignment::Piece, st: Style)
    requires
        orig_len(p) <= u64::MAX,
        mod_len(p) <= u64::MAX,
    ensures
        source::total_size(piece_regions(p, st)) <= orig_len(p) + mod_len(p),
{
    match p {
        alignment::Piece::Both { orig, modified } => {
            let ol = alignment::span_len(orig);
            let ml = alignment::span_len(modified);
            let common = if ol <= ml {
                ol
            } else {
                ml
            };
            let a = if common > 0 {
                seq![range_diff(orig.start, modified.start, common)]
            } else {
                seq![]
            };
            let b = orig_alone(orig.start + common, orig.end, st);
            let c = mod_alone(modified.start + common, modified.end, st);
            source::lemma_total_concat(a, b);
            source::lemma_total_concat(a + b, c);
            lemma_one_region(range_diff(orig.start, modified.start, common));
            lemma_alone_total(orig.start + common, orig.end, st);
            lemma_alone_total(modified.start + common, modified.end, st);
        },
        alignment::Piece::Orig { orig } => lemma_alone_total(orig.start, orig.end, st),
        alignment::Piece::Modified { modified } => lemma_alone_total(
            modified.start,
            modified.end,
            st,
        ),
    }
}

proof fn lemma_alone_total(start: int, end: int, st: Style)
    requires
        end - start <= u64::MAX,
    ensures
        source::total_size(orig_alone(start, end, st)) == (if start < end {
            end - start
        } else {
            0
        }),
        source::total_size(mod_alone(start, end, st)) == (if start < end {
            end - start
        } else {
            0
        }),
{
    lemma_one_region(
        one_sided(
            source::Side::Original,
            start,
            end,
            types::fill_of_original(st.is_finetune),
            st.orig_label,
        ),
    );
    lemma_one_region(
        one_sided(source::Side::Modified, start, end, DiffFill::Green, st.mod_label),
    );
}

/// The canvas of spans that hold the original once and of the modified side at
/// most `limit` bytes each is bounded.
proof fn lemma_spans_total(ps: Seq<alignment::Piece>, start: int, end: int, limit: int, st: Style)
    requires
        align_laws::covers_orig(ps, start, end),
        forall|i: int| 0 <= i < ps.len() ==> mod_len(#[trigger] ps[i]) <= limit,
        0 <= limit <= u64::MAX,
        end - start <= u64::MAX,
    ensures
        source::total_size(span_regions(ps, st)) <= (end - start) + ps.len() * limit,
    decreases ps.len(),
{
    cover::lemma_tiles_order(align_laws::orig_spans(ps), start, end);
    if ps.len() > 0 {
        let init = ps.drop_last();
        let p = ps.last();
        assert(p == ps[ps.len() - 1]);
        assert forall|i: int| 0 <= i < init.len() implies mod_len(#[trigger] init[i]) <= limit by {
            assert(init[i] == ps[i]);
        }
        let before = match p {
            alignment::Piece::Both { orig, .. } => orig.start,
            alignment::Piece::Orig { orig } => orig.start,
            alignment::Piece::Modified { .. } => end,
        };
        match p {
            alignment::Piece::Both { orig, .. } => align_laws::lemma_tiles_last(
                align_laws::orig_spans(init),
                orig,
                start,
                end,
            ),
            alignment::Piece::Orig { orig } => align_laws::lemma_tiles_last(
                align_laws::orig_spans(init),
                orig,
                start,
                end,
            ),
            alignment::Piece::Modified { .. } => {},
        }
        cover::lemma_tiles_order(align_laws::orig_spans(init), start, before);
        lemma_spans_total(init, start, before, limit, st);
        lemma_piece_total(p, st);
        source::lemma_total_concat(span_regions(init, st), piece_regions(p, st));
        assert(init.len() * limit + limit == ps.len() * limit) by (nonlinear_arith)
            requires
                init.len() + 1 == ps.len(),
        ;
    }
}

/// Where no byte at `len` or beyond appears, no piece is longer than `len`.
proof fn lemma_mod_len_within(ps: Seq<alignment::Piece>, len: int, i: int)
    requires
        forall|x: int| !(0 <= x < len) ==> align_laws::mod_count(ps, x) == 0,
        0 <= len,
        0 <= i < ps.len(),
    ensures
        mod_len(ps[i]) <= len,
{
    let p = ps[i];
    match p {
        alignment::Piece::Both { orig: _, modified } => {
            if modified.start < modified.end {
                lemma_counted(ps, i, modified.start);
                lemma_counted(ps, i, modified.end - 1);
            }
        },
        alignment::Piece::Orig { orig: _ } => {},
        alignment::Piece::Modified { modified } => {
            if modified.start < modified.end {
                lemma_counted(ps, i, modified.start);
                lemma_counted(ps, i, modified.end - 1);
            }
        },
    }
}

proof fn lemma_counted(ps: Seq<alignment::Piece>, i: int, x: int)
    requires
        0 <= i < ps.len(),
        match ps[i] {
            alignment::Piece::Both { orig: _, modified } => align_laws::inside(modified, x),
            alignment::Piece::Orig { orig: _ } => false,
            alignment::Piece::Modified { modified } => align_laws::inside(modified, x),
        },
    ensures
        align_laws::mod_count(ps, x) >= 1,
    decreases ps.len(),
{
    lemma_count_nonneg(ps.drop_last(), x);
    if i < ps.len() - 1 {
        assert(ps.drop_last()[i] == ps[i]);
        lemma_counted(ps.drop_last(), i, x);
    }
}

proof fn lemma_count_nonneg(ps: Seq<alignment::Piece>, x: int)
    ensures
        align_laws::mod_count(ps, x) >= 0,
    decreases ps.len(),
{
    if ps.len() > 0 {
        lemma_count_nonneg(ps.drop_last(), x);
    }
}

/// The name of a stretch that only one side has.
fn one_sided_name(side: Side, label: &str, start: u64, end: u64) -> (s: String)
    ensures
        s@ == (match side {
            source::Side::Original => "[only in original] "@,
            source::Side::Modified => "[only in modified] "@,
        }) + label@ + " @ "@ + range_text(start as int, end as int),
{
    let head = match side {
        Side::Original => "[only in original] ",
        Side::Modified => "[only in modified] ",
    };
    head.to_owned().concat(label).concat(" @ ").concat(range_string(start, end).as_str())
}

/// Appends bytes of one side, unless there are none.
fn push_alone(
    out: &mut Vec<Source>,
    total: &mut u64,
    side: Side,
    start: u64,
    end: u64,
    fill: DiffFill,
    label: &str,
)
    requires
        source::indexed(old(out)@),
        *old(total) == source::total_size(source::regions(old(out)@)),
        start < end ==> *old(total) + (end - start) <= u64::MAX,
    ensures
        source::indexed(final(out)@),
        source::regions(final(out)@) == source::regions(old(out)@) + (if start < end {
            seq![one_sided(side, start as int, end as int, fill, label@)]
        } else {
            seq![]
        }),
        *final(total) == source::total_size(source::regions(final(out)@)),
        *final(total) == *old(total) + (if start < end {
            end - start
        } else {
            0
        }),
{
    let ghost was = source::regions(out@);
    if start < end {
        let name = one_sided_name(side, label, start, end);
        push_source(
            out,
            total,
            SourceKind::OneSidedRange { side, start, fill },
            end - start,
            Some(name),
        );
        assert(source::regions(out@) =~= was + seq![
            one_sided(side, start as int, end as int, fill, label@),
        ]);
    } else {
        assert(was + seq![] =~= was);
    }
}

/// The number of bytes in a range; none where it runs backwards.
fn range_len(r: &Range<u64>) -> (n: u64)
    ensures
        n == alignment::span_len(parse::span(*r)),
{
    if r.end > r.start {
        r.end - r.start
    } else {
        0
    }
}

/// Appends a matched pair.
fn push_matched(
    out: &mut Vec<Source>,
    total: &mut u64,
    orig: &Range<u64>,
    modified: &Range<u64>,
    is_finetune: bool,
    orig_label: &str,
    mod_label: &str,
    Ghost(st): Ghost<Style>,
)
    requires
        st == (Style { is_finetune, orig_label: orig_label@, mod_label: mod_label@ }),
        source::indexed(old(out)@),
        *old(total) == source::total_size(source::regions(old(out)@)),
        *old(total) + source::total_size(
            piece_regions(
                alignment::Piece::Both {
                    orig: parse::span(*orig),
                    modified: parse::span(*modified),
                },
                st,
            ),
        ) <= u64::MAX,
    ensures
        source::indexed(final(out)@),
        source::regions(final(out)@) == source::regions(old(out)@) + piece_regions(
            alignment::Piece::Both {
                orig: parse::span(*orig),
                modified: parse::span(*modified),
            },
            st,
        ),
        *final(total) == source::total_size(source::regions(final(out)@)),
{
    let o_len: u64 = range_len(orig);
    let m_len: u64 = range_len(modified);
    let common: u64 = if o_len <= m_len {
        o_len
    } else {
        m_len
    };
    let ghost was = source::regions(out@);
    let ghost a = if common > 0 {
        seq![range_diff(orig.start as int, modified.start as int, common as int)]
    } else {
        seq![]
    };
    let ghost b = orig_alone(orig.start + common, orig.end as int, st);
    let ghost c = mod_alone(modified.start + common, modified.end as int, st);
    proof {
        source::lemma_total_concat(a, b);
        source::lemma_total_concat(a + b, c);
        lemma_one_region(range_diff(orig.start as int, modified.start as int, common as int));
        lemma_alone_total(orig.start + common, orig.end as int, st);
        lemma_alone_total(modified.start + common, modified.end as int, st);
    }
    if common > 0 {
        let name = "diff @ orig:".to_owned().concat(
            range_string(orig.start, orig.start + common).as_str(),
        ).concat(" vs mod:").concat(
            range_string(modified.start, modified.start + common).as_str(),
        );
        push_source(
            out,
            total,
            SourceKind::RangeDiff { orig_start: orig.start, mod_start: modified.start },
            common,
            Some(name),
        );
    }
    assert(source::regions(out@) =~= was + a);
    // A backwards range has no bytes, so nothing is common and nothing stands
    // alone.
    if orig.start <= orig.end {
        push_alone(
            out,
            total,
            Side::Original,
            orig.start + common,
            orig.end,
            DiffFill::of_original(is_finetune),
            orig_label,
        );
    }
    assert(source::regions(out@) =~= was + a + b);
    if modified.start <= modified.end {
        push_alone(
            out,
            total,
            Side::Modified,
            modified.start + common,
            modified.end,
            DiffFill::Green,
            mod_label,
        );
    }
    assert(source::regions(out@) =~= was + a + b + c);
    assert(was + (a + b + c) =~= was + a + b + c);
}

proof fn lemma_span_prefix(ps: Seq<alignment::Piece>, n: int, st: Style)
    requires
        0 <= n <= ps.len(),
    ensures
        source::total_size(span_regions(ps.take(n), st)) <= source::total_size(
            span_regions(ps, st),
        ),
    decreases ps.len() - n,
{
    if n < ps.len() {
        lemma_span_prefix(ps, n + 1, st);
        assert(ps.take(n + 1).drop_last() =~= ps.take(n));
        source::lemma_total_concat(span_regions(ps.take(n), st), piece_regions(ps[n], st));
    } else {
        assert(ps.take(n) =~= ps);
    }
}

/// Convert a coalesced span sequence into sources.
///
/// Color choice for one-sided spans follows the directory-diff convention:
/// `is_finetune` → Grey for orig-only, Green for mod-only.
/// Otherwise → Red for orig-only, Green for mod-only.
pub fn spans_to_sources(
    spans: &[AlignmentSpan],
    is_finetune: bool,
    orig_label: &str,
    mod_label: &str,
) -> (r: (Vec<Source>, u64))
    requires
        source::total_size(
            span_regions(
                align::pieces(spans@),
                (Style { is_finetune, orig_label: orig_label@, mod_label: mod_label@ }),
            ),
        ) <= u64::MAX,
    ensures
        source::planned(
            r,
            span_regions(
                align::pieces(spans@),
                (Style { is_finetune, orig_label: orig_label@, mod_label: mod_label@ }),
            ),
        ),
{
    let ghost st = Style { is_finetune, orig_label: orig_label@, mod_label: mod_label@ };
    let ghost ps = align::pieces(spans@);
    let mut out: Vec<Source> = Vec::new();
    let mut total: u64 = 0;
    let mut i: usize = 0;
    assert(ps.take(0) =~= seq![]);
    assert(source::regions(out@) =~= seq![]);
    while i < spans.len()
        invariant
            i <= spans@.len(),
            ps == align::pieces(spans@),
            st == (Style { is_finetune, orig_label: orig_label@, mod_label: mod_label@ }),
            source::total_size(span_regions(ps, st)) <= u64::MAX,
            source::indexed(out@),
            source::regions(out@) == span_regions(ps.take(i as int), st),
            total == source::total_size(source::regions(out@)),
        decreases spans@.len() - i,
    {
        let ghost was = source::regions(out@);
        let ghost p = align::piece_of(spans@[i as int]);
        proof {
            assert(ps.take(i + 1).drop_last() =~= ps.take(i as int));
            assert(ps.take(i + 1).last() == p);
            lemma_span_prefix(ps, i + 1, st);
            source::lemma_total_concat(was, piece_regions(p, st));
        }
        match &spans[i] {
            AlignmentSpan::Aligned { orig, mod_ } => {
                push_matched(
                    &mut out,
                    &mut total,
                    orig,
                    mod_,
                    is_finetune,
                    orig_label,
                    mod_label,
                    Ghost(st),
                );
            },
            AlignmentSpan::OrigOnly { orig } => {
                proof {
                    lemma_alone_total(orig.start as int, orig.end as int, st);
                }
                push_alone(
                    &mut out,
                    &mut total,
                    Side::Original,
                    orig.start,
                    orig.end,
                    DiffFill::of_original(is_finetune),
                    orig_label,
                );
            },
            AlignmentSpan::ModOnly { mod_ } => {
                proof {
                    lemma_alone_total(mod_.start as int, mod_.end as int, st);
                }
                push_alone(
                    &mut out,
                    &mut total,
                    Side::Modified,
                    mod_.start,
                    mod_.end,
                    DiffFill::Green,
                    mod_label,
                );
            },
        }
        assert(source::regions(out@) =~= was + piece_regions(p, st));
        i = i + 1;
    }
    assert(ps.take(i as int) =~= ps);
    (out, total)
}

/// A whole file that only one side has, unless it is empty.
pub open spec fn unmatched_file(
    size: int,
    fill: DiffFill,
    prefix: Seq<char>,
    label: Seq<char>,
) -> Seq<source::Region> {
    if size > 0 {
        seq![
            source::plain_region(
                source::Storage::UnmatchedRegion { fill },
                size as u64,
                Some(prefix + label),
            ),
        ]
    } else {
        seq![]
    }
}

/// Without structure: files of one size are diffed byte by byte, others stand
/// beside each other.
pub open spec fn fallback_regions(
    original: Seq<char>,
    modified: Seq<char>,
    orig_len: int,
    mod_len: int,
    is_finetune: bool,
) -> Seq<source::Region> {
    if orig_len == mod_len {
        seq![
            source::plain_region(
                source::Storage::Diff { original, modified },
                orig_len as u64,
                None,
            ),
        ]
    } else {
        unmatched_file(
            orig_len,
            types::fill_of_original(is_finetune),
            "[only in original] "@,
            path::label(original),
        ) + unmatched_file(mod_len, DiffFill::Green, "[only in modified] "@, path::label(modified))
    }
}

/// Appends a whole file that only one side has, unless it is empty.
pub(crate) fn push_unmatched_file(
    out: &mut Vec<Source>,
    total: &mut u64,
    size: u64,
    fill: DiffFill,
    prefix: &str,
    label: &str,
)
    requires
        source::indexed(old(out)@),
        *old(total) == source::total_size(source::regions(old(out)@)),
        *old(total) + size <= u64::MAX,
    ensures
        source::indexed(final(out)@),
        source::regions(final(out)@) == source::regions(old(out)@) + unmatched_file(
            size as int,
            fill,
            prefix@,
            label@,
        ),
        *final(total) == source::total_size(source::regions(final(out)@)),
        *final(total) == *old(total) + size,
{
    let ghost was = source::regions(out@);
    if size > 0 {
        push_source(
            out,
            total,
            SourceKind::UnmatchedRegion { fill },
            size,
            Some(prefix.to_owned().concat(label)),
        );
    }
    assert(source::regions(out@) =~= was + unmatched_file(size as int, fill, prefix@, label@));
}

/// The diff of two files without regard to structure: same-size files give a
/// single byte diff, a size mismatch two crosshatched regions.
pub fn fallback_byte_diff(
    original: &str,
    modified: &str,
    orig_len: u64,
    mod_len: u64,
    is_finetune: bool,
) -> (r: (Vec<Source>, u64))
    requires
        orig_len == mod_len || orig_len + mod_len <= u64::MAX,
    ensures
        source::planned(
            r,
            fallback_regions(
                original@,
                modified@,
                orig_len as int,
                mod_len as int,
                is_finetune,
            ),
        ),
{
    let mut out: Vec<Source> = Vec::new();
    let mut total: u64 = 0;
    assert(source::regions(out@) =~= seq![]);
    if orig_len == mod_len {
        push_source(
            &mut out,
            &mut total,
            SourceKind::Diff { original: original.to_owned(), modified: modified.to_owned() },
            orig_len,
            None,
        );
        assert(source::regions(out@) =~= fallback_regions(
            original@,
            modified@,
            orig_len as int,
            mod_len as int,
            is_finetune,
        ));
        return (out, total);
    }
    push_unmatched_file(
        &mut out,
        &mut total,
        orig_len,
        DiffFill::of_original(is_finetune),
        "[only in original] ",
        filename_label(original).as_str(),
    );
    push_unmatched_file(
        &mut out,
        &mut total,
        mod_len,
        DiffFill::Green,
        "[only in modified] ",
        filename_label(modified).as_str(),
    );
    assert(source::regions(out@) =~= fallback_regions(
        original@,
        modified@,
        orig_len as int,
        mod_len as int,
        is_finetune,
    ));
    (out, total)
}

/// Whether a pair of files is line-delimited: one of the two says so.
pub open spec fn is_line_delimited(original: Seq<char>, modified: Seq<char>) -> bool {
    path::extension(original) == Some("jsonl"@) || path::extension(modified) == Some("jsonl"@)
}

/// The spans of two JSON files, `None` where one of them does not parse.
pub open spec fn json_pieces(
    original: Seq<char>,
    modified: Seq<char>,
    o: Seq<u8>,
    m: Seq<u8>,
) -> Option<Seq<alignment::Piece>> {
    if is_line_delimited(original, modified) {
        Some(jsonl::jsonl_pieces(o, m))
    } else {
        match (grammar::document(o), grammar::document(m)) {
            (
                grammar::Scan::Done { value: od, next: _ },
                grammar::Scan::Done { value: md, next: _ },
            ) => Some(align_laws::aligned(od, md, 0, 0)),
            _ => None,
        }
    }
}

/// The canvas of two JSON files.
pub open spec fn json_regions(
    original: Seq<char>,
    modified: Seq<char>,
    o: Seq<u8>,
    m: Seq<u8>,
    is_finetune: bool,
) -> Seq<source::Region> {
    let st = Style {
        is_finetune,
        orig_label: path::label(original),
        mod_label: path::label(modified),
    };
    match json_pieces(original, modified, o, m) {
        Some(ps) => if ps.len() <= MAX_SPANS {
            span_regions(ps, st)
        } else {
            fallback_regions(original, modified, o.len() as int, m.len() as int, is_finetune)
        },
        None => fallback_regions(
            original,
            modified,
            o.len() as int,
            m.len() as int,
            is_finetune,
        ),
    }
}

proof fn lemma_json_total(
    original: Seq<char>,
    modified: Seq<char>,
    o: Seq<u8>,
    m: Seq<u8>,
    st: Style,
)
    requires
        o.len() + MAX_SPANS * m.len() <= u64::MAX,
    ensures
        json_pieces(original, modified, o, m) matches Some(ps) ==> (ps.len() <= MAX_SPANS
            ==> source::total_size(span_regions(ps, st)) <= u64::MAX),
{
    match json_pieces(original, modified, o, m) {
        Some(ps) => {
            assert forall|x: int| !(0 <= x < m.len()) implies align_laws::mod_count(ps, x) == 0 by {
                jsonl_laws::jsonl_alignment_keeps_every_byte(o, m, x);
                align_laws::alignment_keeps_every_byte(o, m, 0, 0, x);
            }
            jsonl_laws::jsonl_alignment_keeps_every_byte(o, m, 0);
            align_laws::alignment_keeps_every_byte(o, m, 0, 0, 0);
            assert forall|i: int| 0 <= i < ps.len() implies mod_len(#[trigger] ps[i]) <= m.len() by {
                lemma_mod_len_within(ps, m.len() as int, i);
            }
            if ps.len() <= MAX_SPANS {
                lemma_spans_total(ps, 0, o.len() as int, m.len() as int, st);
                assert(ps.len() * m.len() <= MAX_SPANS * m.len()) by (nonlinear_arith)
                    requires
                        ps.len() <= MAX_SPANS,
                ;
            }
        },
        None => {},
    }
}

/// Structure-aware diff of two files whose extensions are `.json` or `.jsonl`:
/// parse both, align by structure, and lay the spans out. Detects `.jsonl`
/// (line-delimited) vs `.json` (single document); falls back to a byte diff
/// where one file does not parse or the spans are too many. The bound on the
/// lengths is that of a canvas whose size fits 64 bits: a member of the
/// modified side can be shown more than once where the original repeats a key.
pub fn build_json_diff_sources(
    original: &str,
    modified: &str,
    orig_bytes: &[u8],
    mod_bytes: &[u8],
    is_finetune: bool,
) -> (r: (Vec<Source>, u64))
    requires
        orig_bytes@.len() + MAX_SPANS * mod_bytes@.len() <= u64::MAX,
    ensures
        source::planned(
            r,
            json_regions(original@, modified@, orig_bytes@, mod_bytes@, is_finetune),
        ),
{
    let orig_label = filename_label(original);
    let mod_label = filename_label(modified);
    proof {
        lemma_json_total(
            original@,
            modified@,
            orig_bytes@,
            mod_bytes@,
            Style { is_finetune, orig_label: orig_label@, mod_label: mod_label@ },
        );
    }
    let orig_len: u64 = orig_bytes.len() as u64;
    let mod_len: u64 = mod_bytes.len() as u64;
    let spans = if has_extension(original, "jsonl") || has_extension(modified, "jsonl") {
        align_jsonl(orig_bytes, mod_bytes)
    } else {
        match (parse::parse(orig_bytes), parse::parse(mod_bytes)) {
            (Ok(o), Ok(m)) => align_documents(&o, &m, 0, 0),
            _ => {
                return fallback_byte_diff(original, modified, orig_len, mod_len, is_finetune);
            },
        }
    };
    assert(spans@.len() == align::pieces(spans@).len());
    if spans.len() > MAX_SPANS {
        return fallback_byte_diff(original, modified, orig_len, mod_len, is_finetune);
    }
    spans_to_sources(
        spans.as_slice(),
        is_finetune,
        orig_label.as_str(),
        mod_label.as_str(),
    )
}

} // verus!
