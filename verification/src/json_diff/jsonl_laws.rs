//! What aligning line-delimited files keeps: every byte of the original once
//! and in order, and every byte of the modified side.

use vstd::prelude::*;
use super::align_laws;
use super::alignment;
use super::cover;
use super::grammar;
use super::jsonl;
use super::lcs;

verus! {

/// No object on a line of the input has one key twice.
pub open spec fn lines_have_distinct_keys(s: Seq<u8>) -> bool {
    forall|i: int|
        0 <= i < jsonl::lines(s).len() ==> line_has_distinct_keys(
            s,
            #[trigger] jsonl::lines(s)[i],
        )
}

/// No object on the line has one key twice.
#[verifier::opaque]
pub open spec fn line_has_distinct_keys(s: Seq<u8>, r: grammar::Span) -> bool {
    match grammar::document(jsonl::payload(jsonl::text_of(s, r))) {
        grammar::Scan::Done { value, next: _ } => align_laws::distinct_keys(value.root),
        grammar::Scan::Fail { .. } => true,
    }
}

/// How often a byte appears: at least once where it has to, exactly once where
/// nothing is matched twice, and not at all elsewhere.
pub open spec fn held(count: int, expected: bool, exact: bool) -> bool {
    &&& !expected ==> count == 0
    &&& expected ==> count >= 1
    &&& expected && exact ==> count == 1
}

/// Where the lines from the `i`-th on start.
spec fn line_pos(rs: Seq<grammar::Span>, i: int) -> int {
    if i <= 0 {
        0
    } else {
        rs[i - 1].end
    }
}

proof fn lemma_line_follows(rs: Seq<grammar::Span>, end: int, i: int)
    requires
        cover::tiles(rs, 0, end),
        0 <= i < rs.len(),
    ensures
        rs[i].start == line_pos(rs, i),
        rs[i].start < rs[i].end <= end,
        0 <= rs[i].start,
        i == rs.len() - 1 ==> rs[i].end == end,
    decreases rs.len(),
{
    reveal_with_fuel(cover::tiles, 2);
    jsonl::lemma_tile_bounds(rs, 0, end, i);
    let init = rs.drop_last();
    if i < init.len() {
        lemma_line_follows(init, rs.last().start, i);
        assert(init[i] == rs[i]);
        if i > 0 {
            assert(init[i - 1] == rs[i - 1]);
        }
    } else if i > 0 {
        lemma_line_follows(init, rs.last().start, i - 1);
        assert(init[i - 1] == rs[i - 1]);
    }
}

proof fn lemma_line_pos_mono(rs: Seq<grammar::Span>, end: int, i: int, j: int)
    requires
        cover::tiles(rs, 0, end),
        0 <= i <= j <= rs.len(),
    ensures
        0 <= line_pos(rs, i) <= line_pos(rs, j) <= end,
    decreases j - i,
{
    cover::lemma_tiles_order(rs, 0, end);
    if i < j {
        lemma_line_pos_mono(rs, end, i, j - 1);
        lemma_line_follows(rs, end, j - 1);
    } else if i > 0 {
        lemma_line_follows(rs, end, i - 1);
    }
}

proof fn lemma_orig_lines(rs: Seq<grammar::Span>, end: int, from: int, to: int, x: int)
    requires
        cover::tiles(rs, 0, end),
        0 <= from <= to <= rs.len(),
    ensures
        align_laws::covers_orig(
            jsonl::orig_lines(rs, from, to),
            line_pos(rs, from),
            line_pos(rs, to),
        ),
        align_laws::mod_count(jsonl::orig_lines(rs, from, to), x) == 0,
        align_laws::all_forwards(jsonl::orig_lines(rs, from, to)),
    decreases to - from,
{
    if from < to {
        lemma_orig_lines(rs, end, from, to - 1, x);
        lemma_line_follows(rs, end, to - 1);
        let init = jsonl::orig_lines(rs, from, to - 1);
        let p = alignment::Piece::Orig { orig: rs[to - 1] };
        align_laws::lemma_one_piece(p, x);
        align_laws::lemma_covers_concat(
            init,
            seq![p],
            line_pos(rs, from),
            line_pos(rs, to - 1),
            line_pos(rs, to),
        );
        align_laws::lemma_mod_count_concat(init, seq![p], x);
        align_laws::lemma_forwards_concat(init, seq![p]);
        assert(init.push(p) =~= init + seq![p]);
    }
}

proof fn lemma_mod_lines(rs: Seq<grammar::Span>, end: int, from: int, to: int, x: int, y: int)
    requires
        cover::tiles(rs, 0, end),
        0 <= from <= to <= rs.len(),
    ensures
        align_laws::covers_orig(jsonl::mod_lines(rs, from, to), y, y),
        align_laws::mod_count(jsonl::mod_lines(rs, from, to), x) == align_laws::one(
            line_pos(rs, from) <= x < line_pos(rs, to),
        ),
        align_laws::all_forwards(jsonl::mod_lines(rs, from, to)),
    decreases to - from,
{
    if from < to {
        lemma_mod_lines(rs, end, from, to - 1, x, y);
        lemma_line_follows(rs, end, to - 1);
        lemma_line_pos_mono(rs, end, from, to - 1);
        let init = jsonl::mod_lines(rs, from, to - 1);
        let p = alignment::Piece::Modified { modified: rs[to - 1] };
        align_laws::lemma_one_piece(p, x);
        align_laws::lemma_one_piece(p, y);
        align_laws::lemma_covers_concat(init, seq![p], y, y, y);
        align_laws::lemma_mod_count_concat(init, seq![p], x);
        align_laws::lemma_forwards_concat(init, seq![p]);
        assert(init.push(p) =~= init + seq![p]);
    }
}

/// The pieces hold the given range of the original once and in order, and the
/// byte at `x` as often as the given range of the modified file asks for.
#[verifier::opaque]
spec fn holds_ranges(
    ps: Seq<alignment::Piece>,
    at: (int, int),
    mod_at: (int, int),
    exact: bool,
    x: int,
) -> bool {
    &&& align_laws::covers_orig(ps, at.0, at.1)
    &&& align_laws::all_forwards(ps)
    &&& held(align_laws::mod_count(ps, x), mod_at.0 <= x < mod_at.1, exact)
}

/// Two documents, aligned, hold both of them.
proof fn lemma_documents(o: Seq<u8>, m: Seq<u8>, ob: int, mb: int, x: int)
    requires
        grammar::document(o) is Done,
        grammar::document(m) is Done,
    ensures
        ({
            let od = grammar::document(o)->value;
            let md = grammar::document(m)->value;
            holds_ranges(
                align_laws::aligned(od, md, ob, mb),
                (ob, ob + o.len()),
                (mb, mb + m.len()),
                align_laws::distinct_keys(od.root),
                x,
            )
        }),
{
    reveal(holds_ranges);
    let od = grammar::document(o)->value;
    let md = grammar::document(m)->value;
    align_laws::alignment_keeps_every_byte(o, m, ob, mb, x);
    cover::document_covers_input(o);
    cover::document_covers_input(m);
    align_laws::lemma_document_forwards(od, md, ob, mb, o.len() as int, m.len() as int);
    align_laws::coalesced_keeps_mod_count(alignment::document_pieces(od, md, ob, mb), x);
}

/// Two ranges, aligned byte by byte, hold both of them.
proof fn lemma_byte_ranges(o: grammar::Span, m: grammar::Span, exact: bool, x: int)
    requires
        o.start <= o.end,
        m.start <= m.end,
    ensures
        holds_ranges(
            alignment::bytes_pieces(o, m, 0, 0),
            (o.start, o.end),
            (m.start, m.end),
            exact,
            x,
        ),
{
    reveal(holds_ranges);
    align_laws::lemma_bytes(o, m, 0, 0, x);
}

proof fn lemma_both(
    a: Seq<alignment::Piece>,
    b: Seq<alignment::Piece>,
    at: (int, int, int),
    mod_at: (int, int, int),
    exact: bool,
    x: int,
)
    requires
        mod_at.0 <= mod_at.1 <= mod_at.2,
        holds_ranges(a, (at.0, at.1), (mod_at.0, mod_at.1), exact, x),
        holds_ranges(b, (at.1, at.2), (mod_at.1, mod_at.2), exact, x),
    ensures
        holds_ranges(a + b, (at.0, at.2), (mod_at.0, mod_at.2), exact, x),
{
    reveal(holds_ranges);
    align_laws::lemma_covers_concat(a, b, at.0, at.1, at.2);
    align_laws::lemma_mod_count_concat(a, b, x);
    align_laws::lemma_forwards_concat(a, b);
}

proof fn lemma_line_pieces(o: Seq<u8>, m: Seq<u8>, or: grammar::Span, mr: grammar::Span, x: int)
    requires
        0 <= or.start < or.end <= o.len(),
        0 <= mr.start < mr.end <= m.len(),
    ensures
        holds_ranges(
            jsonl::line_pieces(o, m, or, mr),
            (or.start, or.end),
            (mr.start, mr.end),
            line_has_distinct_keys(o, or),
            x,
        ),
{
    let ol = jsonl::text_of(o, or);
    let ml = jsonl::text_of(m, mr);
    let exact = line_has_distinct_keys(o, or);
    if ol == ml {
        reveal(holds_ranges);
        align_laws::lemma_one_piece(alignment::Piece::Both { orig: or, modified: mr }, x);
    } else {
        match (grammar::document(jsonl::payload(ol)), grammar::document(jsonl::payload(ml))) {
            (
                grammar::Scan::Done { value: od, next: _ },
                grammar::Scan::Done { value: md, next: _ },
            ) => {
                reveal(line_has_distinct_keys);
                let oe = grammar::Span { start: or.end - jsonl::newline_len(ol), end: or.end };
                let me = grammar::Span { start: mr.end - jsonl::newline_len(ml), end: mr.end };
                lemma_documents(jsonl::payload(ol), jsonl::payload(ml), or.start, mr.start, x);
                lemma_byte_ranges(oe, me, exact, x);
                lemma_both(
                    align_laws::aligned(od, md, or.start, mr.start),
                    alignment::bytes_pieces(oe, me, 0, 0),
                    (or.start, oe.start, or.end),
                    (mr.start, me.start, mr.end),
                    exact,
                    x,
                );
            },
            _ => {
                lemma_byte_ranges(or, mr, exact, x);
            },
        }
    }
}

proof fn lemma_three(
    a: Seq<alignment::Piece>,
    b: Seq<alignment::Piece>,
    c: Seq<alignment::Piece>,
    start: int,
    mid: int,
    end: int,
    x: int,
)
    requires
        align_laws::covers_orig(a, start, mid),
        align_laws::covers_orig(b, mid, end),
        align_laws::covers_orig(c, end, end),
        align_laws::all_forwards(a),
        align_laws::all_forwards(b),
        align_laws::all_forwards(c),
    ensures
        align_laws::covers_orig(a + b + c, start, end),
        align_laws::all_forwards(a + b + c),
        align_laws::mod_count(a + b + c, x) == align_laws::mod_count(a, x) + align_laws::mod_count(
            b,
            x,
        ) + align_laws::mod_count(c, x),
{
    align_laws::lemma_covers_concat(a, b, start, mid, end);
    align_laws::lemma_covers_concat(a + b, c, start, end, end);
    align_laws::lemma_mod_count_concat(a, b, x);
    align_laws::lemma_mod_count_concat(a + b, c, x);
    align_laws::lemma_forwards_concat(a, b);
    align_laws::lemma_forwards_concat(a + b, c);
}

/// One more pair: what came before, the lines between, and the pair itself.
proof fn lemma_step(
    parts: (
        Seq<alignment::Piece>,
        Seq<alignment::Piece>,
        Seq<alignment::Piece>,
        Seq<alignment::Piece>,
    ),
    at: (int, int, int),
    mod_at: (int, int, int),
    exact: bool,
    x: int,
)
    requires
        0 <= mod_at.0 <= mod_at.1 <= mod_at.2,
        align_laws::covers_orig(parts.0, 0, at.0),
        align_laws::covers_orig(parts.1, at.0, at.1),
        align_laws::covers_orig(parts.2, at.1, at.1),
        align_laws::covers_orig(parts.3, at.1, at.2),
        align_laws::all_forwards(parts.0),
        align_laws::all_forwards(parts.1),
        align_laws::all_forwards(parts.2),
        align_laws::all_forwards(parts.3),
        held(align_laws::mod_count(parts.0, x), 0 <= x < mod_at.0, exact),
        align_laws::mod_count(parts.1, x) == 0,
        align_laws::mod_count(parts.2, x) == align_laws::one(mod_at.0 <= x < mod_at.1),
        held(align_laws::mod_count(parts.3, x), mod_at.1 <= x < mod_at.2, exact),
    ensures
        align_laws::covers_orig(parts.0 + parts.1 + parts.2 + parts.3, 0, at.2),
        align_laws::all_forwards(parts.0 + parts.1 + parts.2 + parts.3),
        held(
            align_laws::mod_count(parts.0 + parts.1 + parts.2 + parts.3, x),
            0 <= x < mod_at.2,
            exact,
        ),
{
    let (a, b, c, d) = parts;
    lemma_three(a, b, c, 0, at.0, at.1, x);
    align_laws::lemma_covers_concat(a + b + c, d, 0, at.1, at.2);
    align_laws::lemma_mod_count_concat(a + b + c, d, x);
    align_laws::lemma_forwards_concat(a + b + c, d);
}

proof fn lemma_ordered_prefix(pairs: Seq<(int, int)>, n: int, m: int)
    requires
        align_laws::ordered_pairs(pairs, n, m),
        pairs.len() > 0,
    ensures
        align_laws::ordered_pairs(pairs.drop_last(), n, m),
        ({
            let (oi, mi) = alignment::after_pairs(pairs.drop_last());
            0 <= oi <= pairs.last().0 < n && 0 <= mi <= pairs.last().1 < m
        }),
{
    let init = pairs.drop_last();
    assert(pairs.last() == pairs[pairs.len() - 1]);
    assert forall|k: int| 0 <= k < init.len() implies 0 <= (#[trigger] init[k]).0 < n && 0
        <= init[k].1 < m by {
        assert(init[k] == pairs[k]);
    }
    assert forall|k: int, l: int| 0 <= k < l < init.len() implies (#[trigger] init[k]).0 < (
    #[trigger] init[l]).0 && init[k].1 < init[l].1 by {
        assert(init[k] == pairs[k] && init[l] == pairs[l]);
    }
    if init.len() > 0 {
        assert(init.last() == pairs[pairs.len() - 2]);
        assert(pairs[pairs.len() - 2].0 < pairs[pairs.len() - 1].0);
    }
}

/// The lines of the original and of the modified file between two pairs.
#[verifier::opaque]
spec fn holds_gap(
    b: Seq<alignment::Piece>,
    c: Seq<alignment::Piece>,
    at: (int, int),
    mod_at: (int, int),
    x: int,
) -> bool {
    &&& align_laws::covers_orig(b, at.0, at.1)
    &&& align_laws::covers_orig(c, at.1, at.1)
    &&& align_laws::all_forwards(b)
    &&& align_laws::all_forwards(c)
    &&& align_laws::mod_count(b, x) == 0
    &&& align_laws::mod_count(c, x) == align_laws::one(mod_at.0 <= x < mod_at.1)
    &&& 0 <= mod_at.0 <= mod_at.1
}

proof fn lemma_gap(o: Seq<u8>, m: Seq<u8>, oi: int, po: int, mi: int, pm: int, x: int)
    requires
        0 <= oi <= po < jsonl::lines(o).len(),
        0 <= mi <= pm < jsonl::lines(m).len(),
    ensures
        holds_gap(
            jsonl::orig_lines(jsonl::lines(o), oi, po),
            jsonl::mod_lines(jsonl::lines(m), mi, pm),
            (line_pos(jsonl::lines(o), oi), line_pos(jsonl::lines(o), po)),
            (line_pos(jsonl::lines(m), mi), line_pos(jsonl::lines(m), pm)),
            x,
        ),
{
    reveal(holds_gap);
    let ol = jsonl::lines(o);
    let ml = jsonl::lines(m);
    jsonl::lines_cover_input(o);
    jsonl::lines_cover_input(m);
    lemma_orig_lines(ol, o.len() as int, oi, po, x);
    lemma_mod_lines(ml, m.len() as int, mi, pm, x, line_pos(ol, po));
    lemma_line_pos_mono(ml, m.len() as int, mi, pm);
}

proof fn lemma_pair_line(o: Seq<u8>, m: Seq<u8>, po: int, pm: int, x: int)
    requires
        0 <= po < jsonl::lines(o).len(),
        0 <= pm < jsonl::lines(m).len(),
    ensures
        holds_ranges(
            jsonl::line_pieces(o, m, jsonl::lines(o)[po], jsonl::lines(m)[pm]),
            (line_pos(jsonl::lines(o), po), jsonl::lines(o)[po].end),
            (line_pos(jsonl::lines(m), pm), jsonl::lines(m)[pm].end),
            lines_have_distinct_keys(o),
            x,
        ),
        line_pos(jsonl::lines(m), pm) <= jsonl::lines(m)[pm].end,
{
    reveal(holds_ranges);
    let ol = jsonl::lines(o);
    let ml = jsonl::lines(m);
    jsonl::lines_cover_input(o);
    jsonl::lines_cover_input(m);
    lemma_line_follows(ol, o.len() as int, po);
    lemma_line_follows(ml, m.len() as int, pm);
    lemma_line_pieces(o, m, ol[po], ml[pm], x);
    if lines_have_distinct_keys(o) {
        assert(line_has_distinct_keys(o, jsonl::lines(o)[po]));
    }
}

proof fn lemma_next(
    parts: (
        Seq<alignment::Piece>,
        Seq<alignment::Piece>,
        Seq<alignment::Piece>,
        Seq<alignment::Piece>,
    ),
    at: (int, int, int),
    mod_at: (int, int, int),
    exact: bool,
    x: int,
)
    requires
        mod_at.1 <= mod_at.2,
        holds_ranges(parts.0, (0, at.0), (0, mod_at.0), exact, x),
        holds_gap(parts.1, parts.2, (at.0, at.1), (mod_at.0, mod_at.1), x),
        holds_ranges(parts.3, (at.1, at.2), (mod_at.1, mod_at.2), exact, x),
    ensures
        holds_ranges(
            parts.0 + parts.1 + parts.2 + parts.3,
            (0, at.2),
            (0, mod_at.2),
            exact,
            x,
        ),
{
    reveal(holds_ranges);
    reveal(holds_gap);
    lemma_step(parts, at, mod_at, exact, x);
}

proof fn lemma_paired_ranges(o: Seq<u8>, m: Seq<u8>, pairs: Seq<(int, int)>, x: int)
    requires
        align_laws::ordered_pairs(
            pairs,
            jsonl::lines(o).len() as int,
            jsonl::lines(m).len() as int,
        ),
    ensures
        ({
            let (oi, mi) = alignment::after_pairs(pairs);
            &&& 0 <= oi <= jsonl::lines(o).len()
            &&& 0 <= mi <= jsonl::lines(m).len()
            &&& holds_ranges(
                jsonl::paired_lines(o, m, pairs),
                (0, line_pos(jsonl::lines(o), oi)),
                (0, line_pos(jsonl::lines(m), mi)),
                lines_have_distinct_keys(o),
                x,
            )
        }),
    decreases pairs.len(),
{
    if pairs.len() > 0 {
        let ol = jsonl::lines(o);
        let ml = jsonl::lines(m);
        let init = pairs.drop_last();
        let (po, pm) = pairs.last();
        let (oi, mi) = alignment::after_pairs(init);
        lemma_ordered_prefix(pairs, ol.len() as int, ml.len() as int);
        lemma_paired_ranges(o, m, init, x);
        lemma_gap(o, m, oi, po, mi, pm, x);
        lemma_pair_line(o, m, po, pm, x);
        lemma_next(
            (
                jsonl::paired_lines(o, m, init),
                jsonl::orig_lines(ol, oi, po),
                jsonl::mod_lines(ml, mi, pm),
                jsonl::line_pieces(o, m, ol[po], ml[pm]),
            ),
            (line_pos(ol, oi), line_pos(ol, po), ol[po].end),
            (line_pos(ml, mi), line_pos(ml, pm), ml[pm].end),
            lines_have_distinct_keys(o),
            x,
        );
    } else {
        reveal(holds_ranges);
        assert(jsonl::paired_lines(o, m, pairs) =~= seq![]);
    }
}

proof fn lemma_paired_lines(o: Seq<u8>, m: Seq<u8>, pairs: Seq<(int, int)>, x: int)
    requires
        align_laws::ordered_pairs(
            pairs,
            jsonl::lines(o).len() as int,
            jsonl::lines(m).len() as int,
        ),
    ensures
        ({
            let (oi, mi) = alignment::after_pairs(pairs);
            &&& 0 <= oi <= jsonl::lines(o).len()
            &&& 0 <= mi <= jsonl::lines(m).len()
            &&& align_laws::covers_orig(
                jsonl::paired_lines(o, m, pairs),
                0,
                line_pos(jsonl::lines(o), oi),
            )
            &&& held(
                align_laws::mod_count(jsonl::paired_lines(o, m, pairs), x),
                0 <= x < line_pos(jsonl::lines(m), mi),
                lines_have_distinct_keys(o),
            )
            &&& align_laws::all_forwards(jsonl::paired_lines(o, m, pairs))
        }),
{
    lemma_paired_ranges(o, m, pairs, x);
    reveal(holds_ranges);
}

proof fn lemma_line_pairs_ordered(o: Seq<u8>, m: Seq<u8>)
    ensures
        align_laws::ordered_pairs(
            jsonl::line_pairs(o, m),
            jsonl::lines(o).len() as int,
            jsonl::lines(m).len() as int,
        ),
{
    lcs::lcs_trace_is_common(
        jsonl::line_hashes(o),
        jsonl::line_hashes(m),
        jsonl::lines(o).len() as int,
        jsonl::lines(m).len() as int,
    );
}

/// The pieces of two files before neighbours are merged run forwards.
pub(crate) proof fn lemma_lines_forwards(o: Seq<u8>, m: Seq<u8>)
    ensures
        ({
            let pairs = jsonl::line_pairs(o, m);
            let (oi, mi) = alignment::after_pairs(pairs);
            align_laws::all_forwards(
                jsonl::paired_lines(o, m, pairs) + jsonl::orig_lines(
                    jsonl::lines(o),
                    oi,
                    jsonl::lines(o).len() as int,
                ) + jsonl::mod_lines(jsonl::lines(m), mi, jsonl::lines(m).len() as int),
            )
        }),
{
    let ol = jsonl::lines(o);
    let ml = jsonl::lines(m);
    let pairs = jsonl::line_pairs(o, m);
    let (oi, mi) = alignment::after_pairs(pairs);
    jsonl::lines_cover_input(o);
    jsonl::lines_cover_input(m);
    lemma_line_pairs_ordered(o, m);
    lemma_paired_lines(o, m, pairs, 0);
    lemma_orig_lines(ol, o.len() as int, oi, ol.len() as int, 0);
    lemma_mod_lines(ml, m.len() as int, mi, ml.len() as int, 0, 0);
    let a = jsonl::paired_lines(o, m, pairs);
    let b = jsonl::orig_lines(ol, oi, ol.len() as int);
    let c = jsonl::mod_lines(ml, mi, ml.len() as int);
    align_laws::lemma_forwards_concat(a, b);
    align_laws::lemma_forwards_concat(a + b, c);
}

/// Aligning two line-delimited files loses nothing: the spans hold every byte
/// of the original exactly once and in order, and every byte of the modified
/// file at least once, exactly once where no object of the original has one
/// key twice; no span reaches beyond the modified file.
pub proof fn jsonl_alignment_keeps_every_byte(o: Seq<u8>, m: Seq<u8>, x: int)
    ensures
        align_laws::covers_orig(jsonl::jsonl_pieces(o, m), 0, o.len() as int),
        held(
            align_laws::mod_count(jsonl::jsonl_pieces(o, m), x),
            0 <= x < m.len(),
            lines_have_distinct_keys(o),
        ),
        align_laws::all_forwards(jsonl::jsonl_pieces(o, m)),
{
    let ol = jsonl::lines(o);
    let ml = jsonl::lines(m);
    let on = o.len() as int;
    let mn = m.len() as int;
    jsonl::lines_cover_input(o);
    jsonl::lines_cover_input(m);
    let pairs = jsonl::line_pairs(o, m);
    lemma_line_pairs_ordered(o, m);
    lemma_paired_lines(o, m, pairs, x);
    let (oi, mi) = alignment::after_pairs(pairs);
    lemma_orig_lines(ol, on, oi, ol.len() as int, x);
    lemma_mod_lines(ml, mn, mi, ml.len() as int, x, on);
    lemma_line_pos_mono(ml, mn, mi, ml.len() as int);
    if ol.len() > 0 {
        lemma_line_follows(ol, on, ol.len() - 1);
    }
    if ml.len() > 0 {
        lemma_line_follows(ml, mn, ml.len() - 1);
    }
    let a = jsonl::paired_lines(o, m, pairs);
    let b = jsonl::orig_lines(ol, oi, ol.len() as int);
    let c = jsonl::mod_lines(ml, mi, ml.len() as int);
    lemma_three(a, b, c, 0, line_pos(ol, oi), on, x);
    align_laws::coalesced_keeps_orig(a + b + c, 0, on);
    align_laws::coalesced_keeps_mod_count(a + b + c, x);
}

} // verus!
