//! What the sources of a JSON diff read: every byte of both files, each pair of
//! bytes where the alignment puts it.

use vstd::prelude::*;
use super::align_laws;
use super::alignment;
use super::alignment::Piece;
use super::cover;
use super::grammar;
use super::jsonl_laws;
use super::source as show;
use super::source::Style;
use crate::format::types::DiffFill;
use crate::source;
use crate::source::{Region, Side, Source, SourceKind, Storage};
use crate::text;

verus! {

/// The source reads the byte at `x` of one of the two files.
pub open spec fn reads(s: Source, side: Side, x: int) -> bool {
    match s.kind {
        SourceKind::RangeDiff { orig_start, mod_start } => {
            let start = match side {
                Side::Original => orig_start,
                Side::Modified => mod_start,
            };
            start <= x < start + s.byte_size
        },
        SourceKind::OneSidedRange { side: own, start, .. } => own == side && start <= x < start
            + s.byte_size,
        _ => false,
    }
}

/// How many of the sources read the byte at `x` of one of the two files.
pub open spec fn readers(ss: Seq<Source>, side: Side, x: int) -> int
    decreases ss.len(),
{
    if ss.len() == 0 {
        0
    } else {
        readers(ss.drop_last(), side, x) + (if reads(ss.last(), side, x) {
            1int
        } else {
            0
        })
    }
}

spec fn stretch_reads(r: Region, side: Side, x: int) -> bool {
    match r.storage {
        Storage::RangeDiff { orig_start, mod_start } => {
            let start = match side {
                Side::Original => orig_start,
                Side::Modified => mod_start,
            };
            start <= x < start + r.size
        },
        Storage::OneSidedRange { side: own, start, .. } => own == side && start <= x < start
            + r.size,
        _ => false,
    }
}

spec fn stretch_readers(rs: Seq<Region>, side: Side, x: int) -> int
    decreases rs.len(),
{
    if rs.len() == 0 {
        0
    } else {
        stretch_readers(rs.drop_last(), side, x) + align_laws::one(
            stretch_reads(rs.last(), side, x),
        )
    }
}

proof fn lemma_readers(ss: Seq<Source>, side: Side, x: int)
    ensures
        readers(ss, side, x) == stretch_readers(source::regions(ss), side, x),
    decreases ss.len(),
{
    if ss.len() > 0 {
        lemma_readers(ss.drop_last(), side, x);
        assert(source::regions(ss).drop_last() =~= source::regions(ss.drop_last()));
        assert(source::regions(ss).last() == ss.last()@);
    }
}

proof fn lemma_readers_concat(a: Seq<Region>, b: Seq<Region>, side: Side, x: int)
    ensures
        stretch_readers(a + b, side, x) == stretch_readers(a, side, x) + stretch_readers(
            b,
            side,
            x,
        ),
    decreases b.len(),
{
    if b.len() == 0 {
        assert(a + b =~= a);
    } else {
        lemma_readers_concat(a, b.drop_last(), side, x);
        assert((a + b).drop_last() =~= a + b.drop_last());
    }
}

/// The range of a piece in one of the files; none where it has no part there.
spec fn part(p: Piece, side: Side) -> Option<grammar::Span> {
    match (p, side) {
        (Piece::Both { orig, .. }, Side::Original) => Some(orig),
        (Piece::Both { modified, .. }, Side::Modified) => Some(modified),
        (Piece::Orig { orig }, Side::Original) => Some(orig),
        (Piece::Modified { modified }, Side::Modified) => Some(modified),
        _ => None,
    }
}

/// The range is empty or lies in positions that 64 bits hold.
spec fn addressable(r: grammar::Span) -> bool {
    r.start < r.end ==> 0 <= r.start && r.end <= u64::MAX
}

/// Every range of the piece is addressable.
spec fn sound(p: Piece) -> bool {
    &&& part(p, Side::Original) matches Some(r) ==> addressable(r)
    &&& part(p, Side::Modified) matches Some(r) ==> addressable(r)
}

spec fn part_holds(p: Piece, side: Side, x: int) -> bool {
    part(p, side) matches Some(r) && align_laws::inside(r, x)
}

proof fn lemma_one_reader(r: Region, side: Side, x: int)
    ensures
        stretch_readers(seq![r], side, x) == align_laws::one(stretch_reads(r, side, x)),
{
    reveal_with_fuel(stretch_readers, 2);
    assert(seq![r].drop_last() =~= seq![]);
}

proof fn lemma_alone_readers(start: int, end: int, st: Style, side: Side, x: int)
    requires
        start < end ==> 0 <= start && end <= u64::MAX,
    ensures
        stretch_readers(show::orig_alone(start, end, st), side, x) == align_laws::one(
            side == Side::Original && start <= x < end,
        ),
        stretch_readers(show::mod_alone(start, end, st), side, x) == align_laws::one(
            side == Side::Modified && start <= x < end,
        ),
{
    if start < end {
        lemma_one_reader(show::orig_alone(start, end, st)[0], side, x);
        lemma_one_reader(show::mod_alone(start, end, st)[0], side, x);
        assert(show::orig_alone(start, end, st) =~= seq![show::orig_alone(start, end, st)[0]]);
        assert(show::mod_alone(start, end, st) =~= seq![show::mod_alone(start, end, st)[0]]);
    }
}

/// The stretches of a piece read what the piece holds, byte by byte.
proof fn lemma_piece_readers(p: Piece, st: Style, side: Side, x: int)
    requires
        sound(p),
    ensures
        stretch_readers(show::piece_regions(p, st), side, x) == align_laws::one(
            part_holds(p, side, x),
        ),
{
    match p {
        Piece::Both { orig, modified } => {
            assert(part(p, Side::Original) == Some(orig));
            assert(part(p, Side::Modified) == Some(modified));
            let ol = alignment::span_len(orig);
            let ml = alignment::span_len(modified);
            let common = if ol <= ml {
                ol
            } else {
                ml
            };
            let a = if common > 0 {
                seq![show::range_diff(orig.start, modified.start, common)]
            } else {
                seq![]
            };
            let b = show::orig_alone(orig.start + common, orig.end, st);
            let c = show::mod_alone(modified.start + common, modified.end, st);
            lemma_readers_concat(a, b, side, x);
            lemma_readers_concat(a + b, c, side, x);
            lemma_alone_readers(orig.start + common, orig.end, st, side, x);
            lemma_alone_readers(modified.start + common, modified.end, st, side, x);
            if common > 0 {
                lemma_one_reader(show::range_diff(orig.start, modified.start, common), side, x);
            }
        },
        Piece::Orig { orig } => {
            assert(part(p, Side::Original) == Some(orig));
            lemma_alone_readers(orig.start, orig.end, st, side, x);
        },
        Piece::Modified { modified } => {
            assert(part(p, Side::Modified) == Some(modified));
            lemma_alone_readers(modified.start, modified.end, st, side, x);
        },
    }
}

/// How many pieces hold the byte at `x` of one of the files.
spec fn holders(ps: Seq<Piece>, side: Side, x: int) -> int
    decreases ps.len(),
{
    if ps.len() == 0 {
        0
    } else {
        holders(ps.drop_last(), side, x) + align_laws::one(part_holds(ps.last(), side, x))
    }
}

proof fn lemma_span_readers(ps: Seq<Piece>, st: Style, side: Side, x: int)
    requires
        forall|i: int| 0 <= i < ps.len() ==> sound(#[trigger] ps[i]),
    ensures
        stretch_readers(show::span_regions(ps, st), side, x) == holders(ps, side, x),
    decreases ps.len(),
{
    if ps.len() > 0 {
        let init = ps.drop_last();
        assert forall|i: int| 0 <= i < init.len() implies sound(#[trigger] init[i]) by {
            assert(init[i] == ps[i]);
        }
        lemma_span_readers(init, st, side, x);
        assert(sound(ps[ps.len() - 1]));
        lemma_piece_readers(ps.last(), st, side, x);
        lemma_readers_concat(
            show::span_regions(init, st),
            show::piece_regions(ps.last(), st),
            side,
            x,
        );
    }
}

proof fn lemma_mod_holders(ps: Seq<Piece>, x: int)
    ensures
        holders(ps, Side::Modified, x) == align_laws::mod_count(ps, x),
    decreases ps.len(),
{
    if ps.len() > 0 {
        lemma_mod_holders(ps.drop_last(), x);
    }
}

/// Pieces that hold the original once hold each of its bytes once.
proof fn lemma_orig_holders(ps: Seq<Piece>, start: int, end: int, x: int)
    requires
        align_laws::covers_orig(ps, start, end),
    ensures
        holders(ps, Side::Original, x) == align_laws::one(start <= x < end),
        forall|i: int|
            0 <= i < ps.len() ==> (part(#[trigger] ps[i], Side::Original) matches Some(r) ==> start
                <= r.start < r.end <= end),
    decreases ps.len(),
{
    cover::lemma_tiles_order(align_laws::orig_spans(ps), start, end);
    if ps.len() > 0 {
        let init = ps.drop_last();
        let p = ps.last();
        let mid = match part(p, Side::Original) {
            Some(r) => {
                align_laws::lemma_tiles_last(align_laws::orig_spans(init), r, start, end);
                r.start
            },
            None => end,
        };
        cover::lemma_tiles_order(align_laws::orig_spans(init), start, mid);
        lemma_orig_holders(init, start, mid, x);
        assert forall|i: int| 0 <= i < ps.len() implies (part(
            #[trigger] ps[i],
            Side::Original,
        ) matches Some(r) ==> start <= r.start < r.end <= end) by {
            if i < init.len() {
                assert(init[i] == ps[i]);
            }
        }
    }
}

proof fn lemma_holder_counts(ps: Seq<Piece>, side: Side, i: int, x: int)
    requires
        0 <= i < ps.len(),
        part_holds(ps[i], side, x),
    ensures
        holders(ps, side, x) >= 1,
    decreases ps.len(),
{
    lemma_holders_nonneg(ps.drop_last(), side, x);
    if i < ps.len() - 1 {
        assert(ps.drop_last()[i] == ps[i]);
        lemma_holder_counts(ps.drop_last(), side, i, x);
    }
}

proof fn lemma_holders_nonneg(ps: Seq<Piece>, side: Side, x: int)
    ensures
        holders(ps, side, x) >= 0,
    decreases ps.len(),
{
    if ps.len() > 0 {
        lemma_holders_nonneg(ps.drop_last(), side, x);
    }
}

/// The pieces of two files are sound.
proof fn lemma_sound(
    original: Seq<char>,
    modified: Seq<char>,
    o: Seq<u8>,
    m: Seq<u8>,
    ps: Seq<Piece>,
)
    requires
        show::json_pieces(original, modified, o, m) == Some(ps),
        o.len() <= u64::MAX,
        m.len() <= u64::MAX,
    ensures
        align_laws::covers_orig(ps, 0, o.len() as int),
        forall|i: int| 0 <= i < ps.len() ==> sound(#[trigger] ps[i]),
{
    jsonl_laws::jsonl_alignment_keeps_every_byte(o, m, 0);
    align_laws::alignment_keeps_every_byte(o, m, 0, 0, 0);
    lemma_orig_holders(ps, 0, o.len() as int, 0);
    assert forall|i: int| 0 <= i < ps.len() implies sound(#[trigger] ps[i]) by {
        if let Some(r) = part(ps[i], Side::Modified) {
            if r.start < r.end {
                assert(part_holds(ps[i], Side::Modified, r.start));
                assert(part_holds(ps[i], Side::Modified, r.end - 1));
                lemma_holder_counts(ps, Side::Modified, i, r.start);
                lemma_holder_counts(ps, Side::Modified, i, r.end - 1);
                lemma_mod_holders(ps, r.start);
                lemma_mod_holders(ps, r.end - 1);
                jsonl_laws::jsonl_alignment_keeps_every_byte(o, m, r.start);
                align_laws::alignment_keeps_every_byte(o, m, 0, 0, r.start);
                jsonl_laws::jsonl_alignment_keeps_every_byte(o, m, r.end - 1);
                align_laws::alignment_keeps_every_byte(o, m, 0, 0, r.end - 1);
            }
        }
        if let Some(r) = part(ps[i], Side::Original) {
            assert(0 <= r.start < r.end <= o.len());
        }
    }
}

/// No object of the original has one key twice.
pub open spec fn keys_are_distinct(
    original: Seq<char>,
    modified: Seq<char>,
    o: Seq<u8>,
) -> bool {
    if show::is_line_delimited(original, modified) {
        jsonl_laws::lines_have_distinct_keys(o)
    } else {
        grammar::document(o) matches grammar::Scan::Done { value: d, .. }
            && align_laws::distinct_keys(d.root)
    }
}

/// The sources of a diff that was made by structure.
pub open spec fn shows_structure(
    r: (Vec<Source>, u64),
    original: Seq<char>,
    modified: Seq<char>,
    o: Seq<u8>,
    m: Seq<u8>,
    is_finetune: bool,
) -> bool {
    &&& source::planned(r, show::json_regions(original, modified, o, m, is_finetune))
    &&& show::json_pieces(original, modified, o, m) matches Some(ps) && ps.len()
        <= show::MAX_SPANS
    &&& o.len() <= u64::MAX
    &&& m.len() <= u64::MAX
}

/// A diff by structure shows all of both files: every byte of the original is
/// read by exactly one source, every byte of the modified file by at least one,
/// and by exactly one where no object of the original has one key twice. No
/// source reads beyond a file.
pub proof fn sources_read_every_byte(
    r: (Vec<Source>, u64),
    original: Seq<char>,
    modified: Seq<char>,
    o: Seq<u8>,
    m: Seq<u8>,
    is_finetune: bool,
    x: int,
)
    requires
        shows_structure(r, original, modified, o, m, is_finetune),
    ensures
        readers(r.0@, Side::Original, x) == (if 0 <= x < o.len() {
            1int
        } else {
            0
        }),
        0 <= x < m.len() ==> readers(r.0@, Side::Modified, x) >= 1,
        0 <= x < m.len() && keys_are_distinct(original, modified, o) ==> readers(
            r.0@,
            Side::Modified,
            x,
        ) == 1,
        !(0 <= x < m.len()) ==> readers(r.0@, Side::Modified, x) == 0,
{
    let ps = show::json_pieces(original, modified, o, m)->0;
    let st = Style {
        is_finetune,
        orig_label: crate::path::label(original),
        mod_label: crate::path::label(modified),
    };
    lemma_sound(original, modified, o, m, ps);
    lemma_readers(r.0@, Side::Original, x);
    lemma_readers(r.0@, Side::Modified, x);
    lemma_span_readers(ps, st, Side::Original, x);
    lemma_span_readers(ps, st, Side::Modified, x);
    lemma_orig_holders(ps, 0, o.len() as int, x);
    lemma_mod_holders(ps, x);
    jsonl_laws::jsonl_alignment_keeps_every_byte(o, m, x);
    align_laws::alignment_keeps_every_byte(o, m, 0, 0, x);
}

/// The piece puts byte `x` of the original against byte `y` of the modified
/// file: both lie equally far behind the starts of its two ranges.
pub open spec fn puts_against(p: Piece, x: int, y: int) -> bool {
    p matches Piece::Both { orig, modified } && orig.start <= x < orig.end && modified.start <= y
        < modified.end && x - orig.start == y - modified.start
}

/// The source diffs byte `x` of the original against byte `y` of the modified
/// file.
pub open spec fn diffs(s: Source, x: int, y: int) -> bool {
    s.kind matches SourceKind::RangeDiff { orig_start, mod_start } && orig_start <= x < orig_start
        + s.byte_size && mod_start <= y < mod_start + s.byte_size && x - orig_start == y
        - mod_start
}

spec fn stretch_diffs(r: Region, x: int, y: int) -> bool {
    r.storage matches Storage::RangeDiff { orig_start, mod_start } && orig_start <= x < orig_start
        + r.size && mod_start <= y < mod_start + r.size && x - orig_start == y - mod_start
}

spec fn some_diffs(rs: Seq<Region>, x: int, y: int) -> bool {
    exists|i: int| 0 <= i < rs.len() && stretch_diffs(#[trigger] rs[i], x, y)
}

/// Some piece puts byte `x` of the original against byte `y` of the modified
/// file.
pub open spec fn some_puts(ps: Seq<Piece>, x: int, y: int) -> bool {
    exists|i: int| 0 <= i < ps.len() && puts_against(#[trigger] ps[i], x, y)
}

proof fn lemma_some_concat(a: Seq<Region>, b: Seq<Region>, x: int, y: int)
    ensures
        some_diffs(a + b, x, y) == (some_diffs(a, x, y) || some_diffs(b, x, y)),
{
    let c = a + b;
    if some_diffs(a, x, y) {
        let i = choose|i: int| 0 <= i < a.len() && stretch_diffs(#[trigger] a[i], x, y);
        assert(c[i] == a[i]);
    }
    if some_diffs(b, x, y) {
        let i = choose|i: int| 0 <= i < b.len() && stretch_diffs(#[trigger] b[i], x, y);
        assert(c[a.len() + i] == b[i]);
    }
    if some_diffs(c, x, y) {
        let i = choose|i: int| 0 <= i < c.len() && stretch_diffs(#[trigger] c[i], x, y);
        if i < a.len() {
            assert(a[i] == c[i]);
        } else {
            assert(b[i - a.len()] == c[i]);
        }
    }
}

proof fn lemma_piece_diffs(p: Piece, st: Style, x: int, y: int)
    requires
        sound(p),
    ensures
        some_diffs(show::piece_regions(p, st), x, y) == puts_against(p, x, y),
{
    let rs = show::piece_regions(p, st);
    match p {
        Piece::Both { orig, modified } => {
            assert(part(p, Side::Original) == Some(orig));
            assert(part(p, Side::Modified) == Some(modified));
            let ol = alignment::span_len(orig);
            let ml = alignment::span_len(modified);
            let common = if ol <= ml {
                ol
            } else {
                ml
            };
            if common > 0 {
                assert(rs[0] == show::range_diff(orig.start, modified.start, common));
                if puts_against(p, x, y) {
                    assert(stretch_diffs(rs[0], x, y));
                }
            }
            if some_diffs(rs, x, y) {
                let i = choose|i: int| 0 <= i < rs.len() && stretch_diffs(#[trigger] rs[i], x, y);
                assert(rs[i].storage is RangeDiff);
            }
        },
        _ => {
            assert forall|i: int| 0 <= i < rs.len() implies !stretch_diffs(
                #[trigger] rs[i],
                x,
                y,
            ) by {
                assert(rs[i].storage is OneSidedRange);
            }
        },
    }
}

proof fn lemma_span_diffs(ps: Seq<Piece>, st: Style, x: int, y: int)
    requires
        forall|i: int| 0 <= i < ps.len() ==> sound(#[trigger] ps[i]),
    ensures
        some_diffs(show::span_regions(ps, st), x, y) == some_puts(ps, x, y),
    decreases ps.len(),
{
    if ps.len() > 0 {
        let init = ps.drop_last();
        let n = ps.len() - 1;
        assert forall|i: int| 0 <= i < init.len() implies sound(#[trigger] init[i]) by {
            assert(init[i] == ps[i]);
        }
        lemma_span_diffs(init, st, x, y);
        assert(sound(ps[n]));
        lemma_piece_diffs(ps[n], st, x, y);
        lemma_some_concat(
            show::span_regions(init, st),
            show::piece_regions(ps.last(), st),
            x,
            y,
        );
        if some_puts(init, x, y) {
            let i = choose|i: int| 0 <= i < init.len() && puts_against(#[trigger] init[i], x, y);
            assert(ps[i] == init[i]);
        }
        if some_puts(ps, x, y) {
            let i = choose|i: int| 0 <= i < ps.len() && puts_against(#[trigger] ps[i], x, y);
            if i < n {
                assert(init[i] == ps[i]);
            }
        }
    }
}

/// Bytes are diffed against each other exactly as the alignment puts them: a
/// source diffs byte `x` of the original against byte `y` of the modified file
/// if and only if a matched pair of ranges holds the two equally far behind its
/// two starts.
pub proof fn bytes_are_diffed_as_aligned(
    r: (Vec<Source>, u64),
    original: Seq<char>,
    modified: Seq<char>,
    o: Seq<u8>,
    m: Seq<u8>,
    is_finetune: bool,
    x: int,
    y: int,
)
    requires
        shows_structure(r, original, modified, o, m, is_finetune),
    ensures
        (exists|i: int| 0 <= i < r.0@.len() && diffs(#[trigger] r.0@[i], x, y)) == (exists|k: int|
            0 <= k < show::json_pieces(original, modified, o, m)->0.len() && puts_against(
                #[trigger] show::json_pieces(original, modified, o, m)->0[k],
                x,
                y,
            )),
{
    let ps = show::json_pieces(original, modified, o, m)->0;
    let st = Style {
        is_finetune,
        orig_label: crate::path::label(original),
        mod_label: crate::path::label(modified),
    };
    lemma_sound(original, modified, o, m, ps);
    lemma_span_diffs(ps, st, x, y);
    let rs = source::regions(r.0@);
    assert(rs == show::span_regions(ps, st));
    assert forall|i: int| 0 <= i < r.0@.len() implies diffs(#[trigger] r.0@[i], x, y)
        == stretch_diffs(rs[i], x, y) by {
        assert(rs[i] == r.0@[i]@);
    }
    if exists|i: int| 0 <= i < r.0@.len() && diffs(#[trigger] r.0@[i], x, y) {
        let i = choose|i: int| 0 <= i < r.0@.len() && diffs(#[trigger] r.0@[i], x, y);
        assert(stretch_diffs(rs[i], x, y));
    }
    if some_diffs(rs, x, y) {
        let i = choose|i: int| 0 <= i < rs.len() && stretch_diffs(#[trigger] rs[i], x, y);
        assert(diffs(r.0@[i], x, y));
    }
}

/// What only one file has is tinted by its side: red, or grey where the
/// original is a base model, for the original, and green for the modified file.
pub proof fn one_sided_bytes_are_tinted(
    r: (Vec<Source>, u64),
    original: Seq<char>,
    modified: Seq<char>,
    o: Seq<u8>,
    m: Seq<u8>,
    is_finetune: bool,
    i: int,
)
    requires
        shows_structure(r, original, modified, o, m, is_finetune),
        0 <= i < r.0@.len(),
    ensures
        match r.0@[i].kind {
            SourceKind::RangeDiff { .. } => true,
            SourceKind::OneSidedRange { side: Side::Original, fill, .. } => fill == (
            if is_finetune {
                DiffFill::Grey
            } else {
                DiffFill::Red
            }),
            SourceKind::OneSidedRange { side: Side::Modified, fill, .. } => fill
                == DiffFill::Green,
            _ => false,
        },
{
    let ps = show::json_pieces(original, modified, o, m)->0;
    let st = Style {
        is_finetune,
        orig_label: crate::path::label(original),
        mod_label: crate::path::label(modified),
    };
    lemma_tints(ps, st, i);
    assert(source::regions(r.0@)[i] == r.0@[i]@);
}

spec fn well_tinted(r: Region, is_finetune: bool) -> bool {
    match r.storage {
        Storage::RangeDiff { .. } => true,
        Storage::OneSidedRange { side: Side::Original, fill, .. } => fill == (if is_finetune {
            DiffFill::Grey
        } else {
            DiffFill::Red
        }),
        Storage::OneSidedRange { side: Side::Modified, fill, .. } => fill == DiffFill::Green,
        _ => false,
    }
}

proof fn lemma_tints(ps: Seq<Piece>, st: Style, i: int)
    requires
        0 <= i < show::span_regions(ps, st).len(),
    ensures
        well_tinted(show::span_regions(ps, st)[i], st.is_finetune),
    decreases ps.len(),
{
    let before = show::span_regions(ps.drop_last(), st);
    if i < before.len() {
        lemma_tints(ps.drop_last(), st, i);
    } else {
        let rs = show::piece_regions(ps.last(), st);
        assert(show::span_regions(ps, st)[i] == rs[i - before.len()]);
    }
}

/// A range of bytes in words: its first byte, and the one behind its last.
pub open spec fn in_words(start: int, len: int) -> Seq<char> {
    "["@ + text::decimal(start as nat) + ", "@ + text::decimal((start + len) as nat) + ")"@
}

/// What a stretch is called, from what it reads.
pub open spec fn called(
    kind: SourceKind,
    size: int,
    original: Seq<char>,
    modified: Seq<char>,
) -> Seq<char> {
    match kind {
        SourceKind::RangeDiff { orig_start, mod_start } => "diff @ orig:"@ + in_words(
            orig_start as int,
            size,
        ) + " vs mod:"@ + in_words(mod_start as int, size),
        SourceKind::OneSidedRange { side: Side::Original, start, .. } => "[only in original] "@
            + crate::path::label(original) + " @ "@ + in_words(start as int, size),
        SourceKind::OneSidedRange { side: Side::Modified, start, .. } => "[only in modified] "@
            + crate::path::label(modified) + " @ "@ + in_words(start as int, size),
        _ => seq![],
    }
}

spec fn stretch_called(r: Region, st: Style) -> bool {
    match r.storage {
        Storage::RangeDiff { orig_start, mod_start } => r.name == Some(
            "diff @ orig:"@ + in_words(orig_start as int, r.size as int) + " vs mod:"@ + in_words(
                mod_start as int,
                r.size as int,
            ),
        ),
        Storage::OneSidedRange { side: Side::Original, start, .. } => r.name == Some(
            "[only in original] "@ + st.orig_label + " @ "@ + in_words(
                start as int,
                r.size as int,
            ),
        ),
        Storage::OneSidedRange { side: Side::Modified, start, .. } => r.name == Some(
            "[only in modified] "@ + st.mod_label + " @ "@ + in_words(start as int, r.size as int),
        ),
        _ => false,
    }
}

proof fn lemma_piece_called(p: Piece, st: Style, i: int)
    requires
        sound(p),
        0 <= i < show::piece_regions(p, st).len(),
    ensures
        stretch_called(show::piece_regions(p, st)[i], st),
{
    let r = show::piece_regions(p, st)[i];
    match p {
        Piece::Both { orig, modified } => {
            assert(part(p, Side::Original) == Some(orig));
            assert(part(p, Side::Modified) == Some(modified));
        },
        Piece::Orig { orig } => {
            assert(part(p, Side::Original) == Some(orig));
        },
        Piece::Modified { modified } => {
            assert(part(p, Side::Modified) == Some(modified));
        },
    }
}

proof fn lemma_called(ps: Seq<Piece>, st: Style, i: int)
    requires
        forall|k: int| 0 <= k < ps.len() ==> sound(#[trigger] ps[k]),
        0 <= i < show::span_regions(ps, st).len(),
    ensures
        stretch_called(show::span_regions(ps, st)[i], st),
    decreases ps.len(),
{
    let init = ps.drop_last();
    let before = show::span_regions(init, st);
    if i < before.len() {
        assert forall|k: int| 0 <= k < init.len() implies sound(#[trigger] init[k]) by {
            assert(init[k] == ps[k]);
        }
        lemma_called(init, st, i);
    } else {
        assert(sound(ps[ps.len() - 1]));
        lemma_piece_called(ps.last(), st, i - before.len());
        assert(show::span_regions(ps, st)[i] == show::piece_regions(ps.last(), st)[i
            - before.len()]);
    }
}

/// A stretch is called by what it reads: the ranges that it diffs, or the file
/// that alone has its bytes, and which bytes.
pub proof fn stretches_are_called_by_their_range(
    r: (Vec<Source>, u64),
    original: Seq<char>,
    modified: Seq<char>,
    o: Seq<u8>,
    m: Seq<u8>,
    is_finetune: bool,
    i: int,
)
    requires
        shows_structure(r, original, modified, o, m, is_finetune),
        0 <= i < r.0@.len(),
    ensures
        r.0@[i].name_override matches Some(n) && n@ == called(
            r.0@[i].kind,
            r.0@[i].byte_size as int,
            original,
            modified,
        ),
{
    let ps = show::json_pieces(original, modified, o, m)->0;
    let st = Style {
        is_finetune,
        orig_label: crate::path::label(original),
        mod_label: crate::path::label(modified),
    };
    lemma_sound(original, modified, o, m, ps);
    lemma_called(ps, st, i);
    assert(source::regions(r.0@)[i] == r.0@[i]@);
}

} // verus!
