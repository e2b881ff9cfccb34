//! Line-delimited JSON: lines are matched first, and matched lines are aligned
//! by structure where both of them parse.

use vstd::prelude::*;
use vstd::slice::slice_subrange;
use std::collections::hash_map::DefaultHasher;
use std::hash::Hasher;
use std::ops::Range;
use vstd::std_specs::hash::DefaultHasherAdditionalSpecFns;
use super::align;
use super::align::{align_bytes_pub, align_documents, coalesce, AlignmentSpan, MAX_LCS_ELEMENTS};
use super::alignment;
use super::cover;
use super::grammar;
use super::lcs;
use super::lcs::lcs_pairs;
use super::parse;

verus! {

/// Where the line that holds position `n` starts.
pub open spec fn line_start(s: Seq<u8>, n: int) -> int
    decreases n,
{
    if n <= 0 {
        0
    } else if s[n - 1] == 0x0a {
        n
    } else {
        line_start(s, n - 1)
    }
}

/// The lines that end within the first `n` bytes, each with its newline.
pub open spec fn closed_lines(s: Seq<u8>, n: int) -> Seq<grammar::Span>
    decreases n,
{
    if n <= 0 {
        seq![]
    } else if s[n - 1] == 0x0a {
        closed_lines(s, n - 1).push(grammar::Span { start: line_start(s, n - 1), end: n })
    } else {
        closed_lines(s, n - 1)
    }
}

/// The lines of the input; the last one may lack a newline.
pub open spec fn lines(s: Seq<u8>) -> Seq<grammar::Span> {
    let n = s.len() as int;
    if line_start(s, n) < n {
        closed_lines(s, n).push(grammar::Span { start: line_start(s, n), end: n })
    } else {
        closed_lines(s, n)
    }
}

/// The bytes of a range.
pub open spec fn text_of(s: Seq<u8>, r: grammar::Span) -> Seq<u8> {
    s.subrange(r.start, r.end)
}

/// The hash of a line: its length and its bytes.
pub open spec fn line_hash(line: Seq<u8>) -> u64 {
    DefaultHasher::spec_finish(
        seq![vstd::bytes::spec_u64_to_le_bytes(line.len() as u64), line],
    )
}

/// The hashes of all lines.
pub open spec fn line_hashes(s: Seq<u8>) -> Seq<u64> {
    lines(s).map_values(|r: grammar::Span| line_hash(text_of(s, r)))
}

/// How many bytes of line ending a line has: one for a newline, two where a
/// carriage return stands before it.
pub open spec fn newline_len(line: Seq<u8>) -> int {
    if line.len() > 0 && line.last() == 0x0a {
        if line.len() > 1 && line[line.len() - 2] == 0x0d {
            2
        } else {
            1
        }
    } else {
        0
    }
}

/// A line without its line ending.
pub open spec fn payload(line: Seq<u8>) -> Seq<u8> {
    line.take(line.len() - newline_len(line))
}

/// Two matched lines: whole where they are the same, by structure where both
/// parse, else byte by byte.
pub open spec fn line_pieces(
    o: Seq<u8>,
    m: Seq<u8>,
    or: grammar::Span,
    mr: grammar::Span,
) -> Seq<alignment::Piece> {
    let ol = text_of(o, or);
    let ml = text_of(m, mr);
    if ol == ml {
        seq![alignment::Piece::Both { orig: or, modified: mr }]
    } else {
        match (grammar::document(payload(ol)), grammar::document(payload(ml))) {
            (
                grammar::Scan::Done { value: od, next: _ },
                grammar::Scan::Done { value: md, next: _ },
            ) => alignment::coalesced(alignment::document_pieces(od, md, or.start, mr.start))
                + alignment::bytes_pieces(
                grammar::Span { start: or.end - newline_len(ol), end: or.end },
                grammar::Span { start: mr.end - newline_len(ml), end: mr.end },
                0,
                0,
            ),
            _ => alignment::bytes_pieces(or, mr, 0, 0),
        }
    }
}

/// How the lines are matched: along a longest common subsequence of their
/// hashes, by index where one side has too many.
pub open spec fn line_pairs(o: Seq<u8>, m: Seq<u8>) -> Seq<(int, int)> {
    let n = lines(o).len();
    let k = lines(m).len();
    if n <= alignment::max_lcs_elements() && k <= alignment::max_lcs_elements() {
        lcs::lcs_trace(line_hashes(o), line_hashes(m), n as int, k as int)
    } else {
        alignment::index_pairing(if n <= k {
            n
        } else {
            k
        })
    }
}

/// The lines `from..to` of the original, alone.
pub open spec fn orig_lines(rs: Seq<grammar::Span>, from: int, to: int) -> Seq<alignment::Piece>
    decreases to - from,
{
    if from < to {
        orig_lines(rs, from, to - 1).push(alignment::Piece::Orig { orig: rs[to - 1] })
    } else {
        seq![]
    }
}

/// The lines `from..to` of the modified side, alone.
pub open spec fn mod_lines(rs: Seq<grammar::Span>, from: int, to: int) -> Seq<alignment::Piece>
    decreases to - from,
{
    if from < to {
        mod_lines(rs, from, to - 1).push(alignment::Piece::Modified { modified: rs[to - 1] })
    } else {
        seq![]
    }
}

/// The lines up to the last pair.
pub open spec fn paired_lines(
    o: Seq<u8>,
    m: Seq<u8>,
    pairs: Seq<(int, int)>,
) -> Seq<alignment::Piece>
    decreases pairs.len(),
{
    if pairs.len() == 0 {
        seq![]
    } else {
        let init = pairs.drop_last();
        let (po, pm) = pairs.last();
        let (oi, mi) = alignment::after_pairs(init);
        paired_lines(o, m, init) + orig_lines(lines(o), oi, po) + mod_lines(lines(m), mi, pm)
            + line_pieces(o, m, lines(o)[po], lines(m)[pm])
    }
}

/// All lines of both sides.
pub open spec fn jsonl_pieces(o: Seq<u8>, m: Seq<u8>) -> Seq<alignment::Piece> {
    let pairs = line_pairs(o, m);
    let (oi, mi) = alignment::after_pairs(pairs);
    alignment::coalesced(
        paired_lines(o, m, pairs) + orig_lines(lines(o), oi, lines(o).len() as int) + mod_lines(
            lines(m),
            mi,
            lines(m).len() as int,
        ),
    )
}

proof fn lemma_line_start_bounds(s: Seq<u8>, n: int)
    requires
        0 <= n <= s.len(),
    ensures
        0 <= line_start(s, n) <= n,
    decreases n,
{
    if n > 0 && s[n - 1] != 0x0a {
        lemma_line_start_bounds(s, n - 1);
    }
}

proof fn lemma_closed_lines_tile(s: Seq<u8>, n: int)
    requires
        0 <= n <= s.len(),
    ensures
        cover::tiles(closed_lines(s, n), 0, line_start(s, n)),
    decreases n,
{
    if n > 0 {
        lemma_closed_lines_tile(s, n - 1);
        lemma_line_start_bounds(s, n - 1);
        if s[n - 1] == 0x0a {
            let init = closed_lines(s, n - 1);
            assert(closed_lines(s, n).drop_last() =~= init);
        }
    }
}

/// The lines cover the input exactly once, in order.
pub proof fn lines_cover_input(s: Seq<u8>)
    ensures
        cover::tiles(lines(s), 0, s.len() as int),
        cover::gather(s, lines(s)) == s,
{
    let n = s.len() as int;
    lemma_closed_lines_tile(s, n);
    lemma_line_start_bounds(s, n);
    if line_start(s, n) < n {
        assert(lines(s).drop_last() =~= closed_lines(s, n));
    }
    cover::lemma_gather_tiles(s, lines(s), 0, n);
    assert(s.subrange(0, n) =~= s);
}

pub(crate) proof fn lemma_tile_bounds(rs: Seq<grammar::Span>, start: int, end: int, i: int)
    requires
        cover::tiles(rs, start, end),
        0 <= i < rs.len(),
    ensures
        start <= rs[i].start < rs[i].end <= end,
    decreases rs.len(),
{
    cover::lemma_tiles_order(rs.drop_last(), start, rs.last().start);
    if i < rs.len() - 1 {
        lemma_tile_bounds(rs.drop_last(), start, rs.last().start, i);
    }
}

/// Splits the input into lines, each with its newline.
pub fn split_lines(src: &[u8]) -> (out: Vec<Range<u64>>)
    ensures
        parse::spans(out@) == lines(src@),
{
    let mut out: Vec<Range<u64>> = Vec::new();
    let mut start: usize = 0;
    let mut i: usize = 0;
    assert(parse::spans(out@) =~= closed_lines(src@, 0));
    while i < src.len()
        invariant
            start <= i <= src@.len(),
            start == line_start(src@, i as int),
            parse::spans(out@) == closed_lines(src@, i as int),
        decreases src@.len() - i,
    {
        if src[i] == 0x0a {
            let ghost was = parse::spans(out@);
            out.push(start as u64..(i + 1) as u64);
            assert(parse::spans(out@) =~= was.push(
                grammar::Span { start: start as int, end: i + 1 },
            ));
            start = i + 1;
        }
        i = i + 1;
    }
    if start < src.len() {
        let ghost was = parse::spans(out@);
        out.push(start as u64..src.len() as u64);
        assert(parse::spans(out@) =~= was.push(
            grammar::Span { start: start as int, end: src@.len() as int },
        ));
    }
    out
}

/// The line without its line ending, and how many bytes the ending has.
pub fn strip_trailing_newline(s: &[u8]) -> (r: (&[u8], u64))
    ensures
        r.0@ == payload(s@),
        r.1 == newline_len(s@),
{
    let n: usize = s.len();
    let k: usize = if n > 0 && s[n - 1] == 0x0a {
        if n > 1 && s[n - 2] == 0x0d {
            2
        } else {
            1
        }
    } else {
        0
    };
    assert(s@.subrange(0, n - k) =~= s@.take(n - k));
    (slice_subrange(s, 0, n - k), k as u64)
}

fn hash_line(line: &[u8]) -> (h: u64)
    ensures
        h == line_hash(line@),
{
    let mut h = DefaultHasher::new();
    let len = vstd::bytes::u64_to_le_bytes(line.len() as u64);
    h.write(len.as_slice());
    h.write(line);
    assert(h@ =~= seq![vstd::bytes::spec_u64_to_le_bytes(line@.len() as u64), line@]);
    h.finish()
}

fn hash_lines(src: &[u8], rs: &Vec<Range<u64>>) -> (hs: Vec<u64>)
    requires
        parse::spans(rs@) == lines(src@),
    ensures
        hs@ == line_hashes(src@),
{
    let mut hs: Vec<u64> = Vec::new();
    let mut i: usize = 0;
    proof {
        lines_cover_input(src@);
    }
    while i < rs.len()
        invariant
            i <= rs@.len(),
            parse::spans(rs@) == lines(src@),
            cover::tiles(lines(src@), 0, src@.len() as int),
            hs@.len() == i,
            forall|k: int|
                0 <= k < i ==> #[trigger] hs@[k] == line_hash(text_of(src@, lines(src@)[k])),
        decreases rs@.len() - i,
    {
        proof {
            lemma_tile_bounds(lines(src@), 0, src@.len() as int, i as int);
            assert(parse::spans(rs@)[i as int] == parse::span(rs@[i as int]));
            assert(src.len() == src@.len());
        }
        hs.push(hash_line(slice_subrange(src, rs[i].start as usize, rs[i].end as usize)));
        i = i + 1;
    }
    assert(hs@ =~= line_hashes(src@));
    hs
}

fn match_lines(
    orig: &[u8],
    mod_: &[u8],
    orig_rs: &Vec<Range<u64>>,
    mod_rs: &Vec<Range<u64>>,
) -> (pairs: Vec<(usize, usize)>)
    requires
        parse::spans(orig_rs@) == lines(orig@),
        parse::spans(mod_rs@) == lines(mod_@),
    ensures
        lcs::index_pairs(pairs@) == line_pairs(orig@, mod_@),
        align::increasing_within(pairs@, orig_rs@.len() as int, mod_rs@.len() as int),
{
    assert(lines(orig@).len() == orig_rs@.len());
    assert(lines(mod_@).len() == mod_rs@.len());
    if orig_rs.len() <= MAX_LCS_ELEMENTS && mod_rs.len() <= MAX_LCS_ELEMENTS {
        let oh = hash_lines(orig, orig_rs);
        let mh = hash_lines(mod_, mod_rs);
        let pairs = lcs_pairs(oh.as_slice(), mh.as_slice());
        proof {
            let p = lcs::index_pairs(pairs@);
            assert forall|k: int| 0 <= k < pairs@.len() implies (#[trigger] pairs@[k]).0
                < orig_rs@.len() && pairs@[k].1 < mod_rs@.len() by {
                assert(p[k].0 < oh@.len());
            }
            assert forall|k: int, l: int| 0 <= k < l < pairs@.len() implies (#[trigger] pairs@[k]).0
                < (#[trigger] pairs@[l]).0 && pairs@[k].1 < pairs@[l].1 by {
                assert(p[k].0 < p[l].0);
            }
        }
        pairs
    } else {
        align::index_pairs(if orig_rs.len() <= mod_rs.len() {
            orig_rs.len()
        } else {
            mod_rs.len()
        })
    }
}

fn same_bytes(a: &[u8], b: &[u8]) -> (r: bool)
    ensures
        r == (a@ == b@),
{
    if a.len() != b.len() {
        return false;
    }
    let mut i: usize = 0;
    while i < a.len()
        invariant
            i <= a@.len(),
            a@.len() == b@.len(),
            forall|k: int| 0 <= k < i ==> a@[k] == b@[k],
        decreases a@.len() - i,
    {
        if a[i] != b[i] {
            return false;
        }
        i = i + 1;
    }
    assert(a@ =~= b@);
    true
}

fn append_spans(out: &mut Vec<AlignmentSpan>, more: Vec<AlignmentSpan>)
    ensures
        align::pieces(final(out)@) == align::pieces(old(out)@) + align::pieces(more@),
{
    let mut more = more;
    let ghost add = more@;
    out.append(&mut more);
    assert(align::pieces(out@) =~= align::pieces(old(out)@) + align::pieces(add));
}

fn align_line(
    orig: &[u8],
    mod_: &[u8],
    or: &Range<u64>,
    mr: &Range<u64>,
    out: &mut Vec<AlignmentSpan>,
)
    requires
        or.start <= or.end <= orig@.len(),
        mr.start <= mr.end <= mod_@.len(),
    ensures
        align::pieces(final(out)@) == align::pieces(old(out)@) + line_pieces(
            orig@,
            mod_@,
            parse::span(*or),
            parse::span(*mr),
        ),
{
    let ghost before = align::pieces(out@);
    assert(orig.len() == orig@.len() && mod_.len() == mod_@.len());
    let o_slice = slice_subrange(orig, or.start as usize, or.end as usize);
    let m_slice = slice_subrange(mod_, mr.start as usize, mr.end as usize);
    if same_bytes(o_slice, m_slice) {
        out.push(AlignmentSpan::Aligned { orig: or.start..or.end, mod_: mr.start..mr.end });
        assert(align::pieces(out@) =~= before + seq![
            alignment::Piece::Both { orig: parse::span(*or), modified: parse::span(*mr) },
        ]);
        return;
    }
    // Strip a trailing newline before parsing (the parser is strict).
    let (o_payload, o_nl) = strip_trailing_newline(o_slice);
    let (m_payload, m_nl) = strip_trailing_newline(m_slice);
    match (parse::parse(o_payload), parse::parse(m_payload)) {
        (Ok(od), Ok(md)) => {
            let line_spans = align_documents(&od, &md, or.start, mr.start);
            append_spans(out, line_spans);
            // Align the trailing newline byte(s) explicitly.
            align_bytes_pub(or.end - o_nl..or.end, mr.end - m_nl..mr.end, 0, 0, out);
            assert(align::pieces(out@) =~= before + line_pieces(
                orig@,
                mod_@,
                parse::span(*or),
                parse::span(*mr),
            ));
        },
        _ => {
            // Fall back to byte-level align over the two lines.
            align_bytes_pub(or.start..or.end, mr.start..mr.end, 0, 0, out);
        },
    }
}

fn push_orig_lines(
    rs: &Vec<Range<u64>>,
    from: usize,
    to: usize,
    out: &mut Vec<AlignmentSpan>,
)
    requires
        from <= to <= rs@.len(),
    ensures
        align::pieces(final(out)@) == align::pieces(old(out)@) + orig_lines(
            parse::spans(rs@),
            from as int,
            to as int,
        ),
{
    let ghost before = align::pieces(out@);
    let mut i: usize = from;
    assert(align::pieces(out@) =~= before + orig_lines(parse::spans(rs@), from as int, i as int));
    while i < to
        invariant
            from <= i <= to <= rs@.len(),
            align::pieces(out@) == before + orig_lines(
                parse::spans(rs@),
                from as int,
                i as int,
            ),
        decreases to - i,
    {
        let ghost was = align::pieces(out@);
        assert(parse::spans(rs@)[i as int] == parse::span(rs@[i as int]));
        out.push(AlignmentSpan::OrigOnly { orig: rs[i].start..rs[i].end });
        assert(align::pieces(out@) =~= was.push(
            alignment::Piece::Orig { orig: parse::spans(rs@)[i as int] },
        ));
        i = i + 1;
        assert(align::pieces(out@) =~= before + orig_lines(
            parse::spans(rs@),
            from as int,
            i as int,
        ));
    }
}

fn push_mod_lines(rs: &Vec<Range<u64>>, from: usize, to: usize, out: &mut Vec<AlignmentSpan>)
    requires
        from <= to <= rs@.len(),
    ensures
        align::pieces(final(out)@) == align::pieces(old(out)@) + mod_lines(
            parse::spans(rs@),
            from as int,
            to as int,
        ),
{
    let ghost before = align::pieces(out@);
    let mut i: usize = from;
    assert(align::pieces(out@) =~= before + mod_lines(parse::spans(rs@), from as int, i as int));
    while i < to
        invariant
            from <= i <= to <= rs@.len(),
            align::pieces(out@) == before + mod_lines(parse::spans(rs@), from as int, i as int),
        decreases to - i,
    {
        let ghost was = align::pieces(out@);
        assert(parse::spans(rs@)[i as int] == parse::span(rs@[i as int]));
        out.push(AlignmentSpan::ModOnly { mod_: rs[i].start..rs[i].end });
        assert(align::pieces(out@) =~= was.push(
            alignment::Piece::Modified { modified: parse::spans(rs@)[i as int] },
        ));
        i = i + 1;
        assert(align::pieces(out@) =~= before + mod_lines(
            parse::spans(rs@),
            from as int,
            i as int,
        ));
    }
}

/// Align two line-delimited JSON files. Lines are paired along their LCS (by
/// index past the LCS cap), and paired lines are aligned by structure.
pub fn align_jsonl(orig: &[u8], mod_: &[u8]) -> (r: Vec<AlignmentSpan>)
    ensures
        align::pieces(r@) == jsonl_pieces(orig@, mod_@),
{
    let orig_rs = split_lines(orig);
    let mod_rs = split_lines(mod_);
    let pairs = match_lines(orig, mod_, &orig_rs, &mod_rs);
    let ghost ps = lcs::index_pairs(pairs@);
    let mut out: Vec<AlignmentSpan> = Vec::new();
    let mut oi: usize = 0;
    let mut mi: usize = 0;
    let mut k: usize = 0;
    proof {
        lines_cover_input(orig@);
        lines_cover_input(mod_@);
        assert(ps.take(0) =~= seq![]);
        assert(align::pieces(out@) =~= paired_lines(orig@, mod_@, ps.take(0)));
        assert(lines(orig@).len() == orig_rs@.len());
        assert(lines(mod_@).len() == mod_rs@.len());
    }
    while k < pairs.len()
        invariant
            k <= pairs@.len(),
            ps == lcs::index_pairs(pairs@),
            parse::spans(orig_rs@) == lines(orig@),
            parse::spans(mod_rs@) == lines(mod_@),
            lines(orig@).len() == orig_rs@.len(),
            lines(mod_@).len() == mod_rs@.len(),
            cover::tiles(lines(orig@), 0, orig@.len() as int),
            cover::tiles(lines(mod_@), 0, mod_@.len() as int),
            align::increasing_within(pairs@, orig_rs@.len() as int, mod_rs@.len() as int),
            (oi as int, mi as int) == alignment::after_pairs(ps.take(k as int)),
            oi <= orig_rs@.len(),
            mi <= mod_rs@.len(),
            align::pieces(out@) == paired_lines(orig@, mod_@, ps.take(k as int)),
        decreases pairs@.len() - k,
    {
        let (po, pm): (usize, usize) = pairs[k];
        proof {
            assert(ps.take(k + 1).drop_last() =~= ps.take(k as int));
            assert(ps[k as int] == (po as int, pm as int));
            if k > 0 {
                assert(pairs@[k - 1].0 < pairs@[k as int].0);
                assert(ps.take(k as int).last() == ps[k - 1]);
                assert(ps[k - 1] == (pairs@[k - 1].0 as int, pairs@[k - 1].1 as int));
            }
            lemma_tile_bounds(lines(orig@), 0, orig@.len() as int, po as int);
            lemma_tile_bounds(lines(mod_@), 0, mod_@.len() as int, pm as int);
            assert(parse::spans(orig_rs@)[po as int] == parse::span(orig_rs@[po as int]));
            assert(parse::spans(mod_rs@)[pm as int] == parse::span(mod_rs@[pm as int]));
        }
        push_orig_lines(&orig_rs, oi, po, &mut out);
        push_mod_lines(&mod_rs, mi, pm, &mut out);
        align_line(orig, mod_, &orig_rs[po], &mod_rs[pm], &mut out);
        assert(align::pieces(out@) =~= paired_lines(orig@, mod_@, ps.take(k + 1)));
        assert(po < orig_rs.len() && pm < mod_rs.len());
        oi = po + 1;
        mi = pm + 1;
        k = k + 1;
    }
    assert(ps.take(k as int) =~= ps);
    push_orig_lines(&orig_rs, oi, orig_rs.len(), &mut out);
    push_mod_lines(&mod_rs, mi, mod_rs.len(), &mut out);
    coalesce(out)
}

} // verus!
