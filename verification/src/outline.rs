//! Outlines: the outer boundary of a set of pixel rectangles.

use vstd::prelude::*;
use crate::geometry;
use crate::order;
use crate::order::sort_by;

verus! {

/// The ends of the non-empty intervals, each with its direction.
pub open spec fn events(iv: Seq<(u32, u32)>) -> Seq<(u32, i8)>
    decreases iv.len(),
{
    if iv.len() == 0 {
        seq![]
    } else {
        let (lo, hi) = iv.last();
        let before = events(iv.drop_last());
        if lo < hi {
            before.push((lo, 1i8)).push((hi, -1i8))
        } else {
            before
        }
    }
}

/// By position; at one position, what ends comes before what starts.
pub open spec fn event_le(a: (u32, i8), b: (u32, i8)) -> bool {
    a.0 < b.0 || (a.0 == b.0 && a.1 <= b.1)
}

/// The state of a sweep over events: whether an odd number of intervals is
/// open, where that began, and what was closed so far.
pub ghost struct Sweep {
    pub odd: bool,
    pub start: u32,
    pub segs: Seq<(u32, u32)>,
}

/// A sweep over events in order.
pub open spec fn sweep(es: Seq<(u32, i8)>) -> Sweep
    decreases es.len(),
{
    if es.len() == 0 {
        Sweep { odd: false, start: 0, segs: seq![] }
    } else {
        let s = sweep(es.drop_last());
        let y = es.last().0;
        if !s.odd {
            Sweep { odd: true, start: y, segs: s.segs }
        } else {
            Sweep {
                odd: false,
                start: s.start,
                segs: if s.start < y {
                    s.segs.push((s.start, y))
                } else {
                    s.segs
                },
            }
        }
    }
}

/// The events in order.
pub open spec fn sorted_events(iv: Seq<(u32, u32)>) -> Seq<(u32, i8)> {
    order::stable_sort(events(iv), |a: (u32, i8), b: (u32, i8)| event_le(a, b))
}

/// The parts of the line that an odd number of the intervals covers.
pub open spec fn odd_parts(iv: Seq<(u32, u32)>) -> Seq<(u32, u32)> {
    sweep(sorted_events(iv)).segs
}

fn event_before(a: &(u32, i8), b: &(u32, i8)) -> (r: bool)
    ensures
        r == event_le(*a, *b),
{
    a.0 < b.0 || (a.0 == b.0 && a.1 <= b.1)
}

/// Compute the XOR-merged set of a list of intervals: ranges covered by an odd
/// number of input intervals. Used for extracting outer boundary edges.
pub fn xor_intervals(intervals: &[(u32, u32)]) -> (r: Vec<(u32, u32)>)
    ensures
        r@ == odd_parts(intervals@),
{
    let mut evs: Vec<(u32, i8)> = Vec::new();
    let ghost iv = intervals@;
    let mut i: usize = 0;
    assert(iv.take(0) =~= seq![]);
    while i < intervals.len()
        invariant
            i <= iv.len(),
            iv == intervals@,
            evs@ == events(iv.take(i as int)),
        decreases iv.len() - i,
    {
        assert(iv.take(i + 1).drop_last() =~= iv.take(i as int));
        let (lo, hi): (u32, u32) = intervals[i];
        if lo < hi {
            evs.push((lo, 1));
            evs.push((hi, -1));
        }
        i = i + 1;
    }
    assert(iv.take(i as int) =~= iv);
    let ghost le = |a: (u32, i8), b: (u32, i8)| event_le(a, b);
    let sorted = sort_by(evs, event_before, Ghost(le));
    let ghost es = sorted@;
    let mut result: Vec<(u32, u32)> = Vec::new();
    let mut odd: bool = false;
    let mut seg_start: u32 = 0;
    let mut k: usize = 0;
    assert(es.take(0) =~= seq![]);
    while k < sorted.len()
        invariant
            k <= es.len(),
            es == sorted@,
            sweep(es.take(k as int)) == (Sweep { odd, start: seg_start, segs: result@ }),
        decreases es.len() - k,
    {
        assert(es.take(k + 1).drop_last() =~= es.take(k as int));
        let y: u32 = sorted[k].0;
        if !odd {
            seg_start = y;
        } else if seg_start < y {
            result.push((seg_start, y));
        }
        odd = !odd;
        k = k + 1;
    }
    assert(es.take(k as int) =~= es);
    result
}

/// How many of the intervals hold `y`.
pub open spec fn depth(iv: Seq<(u32, u32)>, y: int) -> int
    decreases iv.len(),
{
    if iv.len() == 0 {
        0
    } else {
        depth(iv.drop_last(), y) + (if iv.last().0 <= y < iv.last().1 {
            1int
        } else {
            0int
        })
    }
}

/// `y` lies in one of the intervals.
pub open spec fn covered(iv: Seq<(u32, u32)>, y: int) -> bool {
    exists|i: int| 0 <= i < iv.len() && (#[trigger] iv[i]).0 <= y < iv[i].1
}

/// How many events stand at or before `y`.
spec fn passed(es: Seq<(u32, i8)>, y: int) -> int
    decreases es.len(),
{
    if es.len() == 0 {
        0
    } else {
        passed(es.drop_last(), y) + (if es.last().0 <= y {
            1int
        } else {
            0int
        })
    }
}

proof fn lemma_passed_push(es: Seq<(u32, i8)>, e: (u32, i8), y: int)
    ensures
        passed(es.push(e), y) == passed(es, y) + (if e.0 <= y {
            1int
        } else {
            0int
        }),
{
    assert(es.push(e).drop_last() =~= es);
}

proof fn lemma_passed_insert(
    es: Seq<(u32, i8)>,
    e: (u32, i8),
    le: spec_fn((u32, i8), (u32, i8)) -> bool,
    y: int,
)
    ensures
        passed(order::sorted_insert(es, e, le), y) == passed(es.push(e), y),
    decreases es.len(),
{
    lemma_passed_push(es, e, y);
    if es.len() == 0 {
        assert(es.push(e) =~= seq![e]);
    } else if !le(es.last(), e) {
        let init = es.drop_last();
        lemma_passed_insert(init, e, le, y);
        lemma_passed_push(init, e, y);
        lemma_passed_push(order::sorted_insert(init, e, le), es.last(), y);
    }
}

proof fn lemma_passed_sort(
    es: Seq<(u32, i8)>,
    le: spec_fn((u32, i8), (u32, i8)) -> bool,
    y: int,
)
    ensures
        passed(order::stable_sort(es, le), y) == passed(es, y),
    decreases es.len(),
{
    if es.len() > 0 {
        let init = es.drop_last();
        lemma_passed_sort(init, le, y);
        lemma_passed_insert(order::stable_sort(init, le), es.last(), le, y);
        lemma_passed_push(order::stable_sort(init, le), es.last(), y);
    }
}

proof fn lemma_passed_depth(iv: Seq<(u32, u32)>, y: int)
    ensures
        passed(events(iv), y) % 2 == depth(iv, y) % 2,
    decreases iv.len(),
{
    if iv.len() > 0 {
        lemma_passed_depth(iv.drop_last(), y);
        let (lo, hi) = iv.last();
        let before = events(iv.drop_last());
        if lo < hi {
            lemma_passed_push(before, (lo, 1), y);
            lemma_passed_push(before.push((lo, 1i8)), (hi, -1i8), y);
        }
    }
}

/// After a sweep over events in order: what it holds of `y` is whether an odd
/// number of events was passed.
proof fn lemma_sweep(es: Seq<(u32, i8)>, y: int)
    requires
        forall|i: int, j: int| 0 <= i < j < es.len() ==> (#[trigger] es[i]).0 <= (#[trigger] es[j]).0,
        y >= 0,
    ensures
        sweep(es).odd == (es.len() % 2 == 1),
        es.len() > 0 ==> sweep(es).start <= es.last().0,
        forall|i: int|
            0 <= i < sweep(es).segs.len() ==> es.len() > 0 && (#[trigger] sweep(es).segs[i]).0
                < sweep(es).segs[i].1 <= es.last().0,
        es.len() > 0 && y < es.last().0 ==> ((covered(sweep(es).segs, y) || (sweep(es).odd
            && sweep(es).start <= y)) <==> passed(es, y) % 2 == 1),
        es.len() > 0 && y >= es.last().0 ==> passed(es, y) == es.len() && !covered(
            sweep(es).segs,
            y,
        ),
        sweep(es).odd && covered(sweep(es).segs, y) ==> y < sweep(es).start,
    decreases es.len(),
{
    if es.len() > 0 {
        let init = es.drop_last();
        let e = es.last();
        let s = sweep(init);
        let t = sweep(es);
        assert forall|i: int, j: int| 0 <= i < j < init.len() implies (#[trigger] init[i]).0
            <= (#[trigger] init[j]).0 by {
            assert(es[i].0 <= es[j].0);
        }
        lemma_sweep(init, y);
        if init.len() > 0 {
            assert(es[es.len() - 2].0 <= es[es.len() - 1].0);
            assert(init.last() == es[es.len() - 2]);
        }
        // Everything before the last event is closed or open as before.
        assert(y < e.0 ==> ((covered(s.segs, y) || (s.odd && s.start <= y)) <==> passed(init, y)
            % 2 == 1));
        if s.odd && s.start < e.0 {
            assert(t.segs == s.segs.push((s.start, e.0)));
            if covered(s.segs, y) {
                let i = choose|i: int|
                    0 <= i < s.segs.len() && (#[trigger] s.segs[i]).0 <= y < s.segs[i].1;
                assert(t.segs[i] == s.segs[i]);
            }
            if s.start <= y < e.0 {
                assert(t.segs[s.segs.len() as int] == (s.start, e.0));
            }
            if covered(t.segs, y) {
                let i = choose|i: int|
                    0 <= i < t.segs.len() && (#[trigger] t.segs[i]).0 <= y < t.segs[i].1;
                if i < s.segs.len() {
                    assert(s.segs[i] == t.segs[i]);
                }
            }
            assert forall|i: int| 0 <= i < t.segs.len() implies (#[trigger] t.segs[i]).0
                < t.segs[i].1 <= e.0 by {
                if i < s.segs.len() {
                    assert(s.segs[i] == t.segs[i]);
                }
            }
        } else {
            assert(t.segs == s.segs);
            assert forall|i: int| 0 <= i < t.segs.len() implies (#[trigger] t.segs[i]).0
                < t.segs[i].1 <= e.0 by {
                assert(s.segs[i].1 <= init.last().0);
            }
        }
        if y >= e.0 {
            assert(passed(init, y) == init.len());
            assert(passed(es, y) == es.len());
            if covered(t.segs, y) {
                let i = choose|i: int|
                    0 <= i < t.segs.len() && (#[trigger] t.segs[i]).0 <= y < t.segs[i].1;
                assert(t.segs[i].1 <= e.0);
            }
        }
    }
}

proof fn lemma_events_even(iv: Seq<(u32, u32)>)
    ensures
        events(iv).len() % 2 == 0,
    decreases iv.len(),
{
    if iv.len() > 0 {
        lemma_events_even(iv.drop_last());
    }
}

/// The result of [`xor_intervals`] covers exactly the points that an odd number
/// of the intervals covers.
pub proof fn odd_parts_are_odd(iv: Seq<(u32, u32)>, y: int)
    requires
        y >= 0,
    ensures
        covered(odd_parts(iv), y) <==> depth(iv, y) % 2 == 1,
{
    let le = |a: (u32, i8), b: (u32, i8)| event_le(a, b);
    let es = sorted_events(iv);
    order::stable_sort_sorts(events(iv), le);
    order::stable_sort_permutes(events(iv), le);
    assert forall|i: int, j: int| 0 <= i < j < es.len() implies (#[trigger] es[i]).0
        <= (#[trigger] es[j]).0 by {
        assert(le(es[i], es[j]));
    }
    lemma_sweep(es, y);
    lemma_events_even(iv);
    lemma_passed_sort(events(iv), le, y);
    lemma_passed_depth(iv, y);
    if es.len() == 0 {
        assert(sweep(es).segs =~= seq![]);
    }
}

/// `x` put into an ascending list, unless it is there already.
pub open spec fn insert_position(s: Seq<u32>, x: u32) -> Seq<u32>
    decreases s.len(),
{
    if s.len() == 0 {
        seq![x]
    } else if s.last() == x {
        s
    } else if s.last() < x {
        s.push(x)
    } else {
        insert_position(s.drop_last(), x).push(s.last())
    }
}

/// The two positions that a rectangle gives on an axis, and its extent on the
/// other.
pub open spec fn sides(r: (u32, u32, u32, u32), vertical: bool) -> (u32, u32, (u32, u32)) {
    if vertical {
        (r.0, r.2, (r.1, r.3))
    } else {
        (r.1, r.3, (r.0, r.2))
    }
}

/// All positions of edges on an axis, ascending and without repetition.
pub open spec fn edge_positions(
    rs: Seq<(u32, u32, u32, u32)>,
    vertical: bool,
) -> Seq<u32>
    decreases rs.len(),
{
    if rs.len() == 0 {
        seq![]
    } else {
        let (a, b, _) = sides(rs.last(), vertical);
        insert_position(insert_position(edge_positions(rs.drop_last(), vertical), a), b)
    }
}

/// The extents of all edges at `at`.
pub open spec fn edges_at(
    rs: Seq<(u32, u32, u32, u32)>,
    vertical: bool,
    at: u32,
) -> Seq<(u32, u32)>
    decreases rs.len(),
{
    if rs.len() == 0 {
        seq![]
    } else {
        let (a, b, e) = sides(rs.last(), vertical);
        let before = edges_at(rs.drop_last(), vertical, at);
        let one = if a == at {
            before.push(e)
        } else {
            before
        };
        if b == at {
            one.push(e)
        } else {
            one
        }
    }
}

/// A segment at `at` on an axis.
pub open spec fn segment(at: u32, e: (u32, u32), vertical: bool) -> (u32, u32, u32, u32) {
    if vertical {
        (at, e.0, at, e.1)
    } else {
        (e.0, at, e.1, at)
    }
}

/// The boundary segments at the given positions.
pub open spec fn segments_at(
    rs: Seq<(u32, u32, u32, u32)>,
    vertical: bool,
    ps: Seq<u32>,
) -> Seq<(u32, u32, u32, u32)>
    decreases ps.len(),
{
    if ps.len() == 0 {
        seq![]
    } else {
        segments_at(rs, vertical, ps.drop_last()) + odd_parts(
            edges_at(rs, vertical, ps.last()),
        ).map_values(|e: (u32, u32)| segment(ps.last(), e, vertical))
    }
}

fn add_position(v: &mut Vec<u32>, x: u32)
    ensures
        final(v)@ == insert_position(old(v)@, x),
{
    let ghost before = v@;
    let mut j: usize = v.len();
    assert(before.take(j as int) =~= before);
    assert(insert_position(before, x) =~= insert_position(before.take(j as int), x) + before.skip(
        j as int,
    ));
    while j > 0 && v[j - 1] > x
        invariant
            v@ == before,
            j <= before.len(),
            insert_position(before, x) == insert_position(before.take(j as int), x) + before.skip(
                j as int,
            ),
        decreases j,
    {
        assert(before.take(j as int).drop_last() =~= before.take(j - 1));
        assert(insert_position(before.take(j as int), x) + before.skip(j as int)
            =~= insert_position(before.take(j - 1), x) + before.skip(j - 1));
        j = j - 1;
    }
    if j > 0 && v[j - 1] == x {
        assert(insert_position(before.take(j as int), x) =~= before.take(j as int));
        assert(before.take(j as int) + before.skip(j as int) =~= before);
        return;
    }
    assert(insert_position(before.take(j as int), x) =~= before.take(j as int).push(x));
    assert(before.insert(j as int, x) =~= before.take(j as int).push(x) + before.skip(j as int));
    v.insert(j, x);
}

fn sides_of(r: &(u32, u32, u32, u32), vertical: bool) -> (s: (u32, u32, (u32, u32)))
    ensures
        s == sides(*r, vertical),
{
    if vertical {
        (r.0, r.2, (r.1, r.3))
    } else {
        (r.1, r.3, (r.0, r.2))
    }
}

fn axis_segments(
    rects: &[(u32, u32, u32, u32)],
    vertical: bool,
    out: &mut Vec<(u32, u32, u32, u32)>,
)
    ensures
        final(out)@ == old(out)@ + segments_at(
            rects@,
            vertical,
            edge_positions(rects@, vertical),
        ),
{
    let ghost rs = rects@;
    let mut ps: Vec<u32> = Vec::new();
    let mut i: usize = 0;
    assert(rs.take(0) =~= seq![]);
    while i < rects.len()
        invariant
            i <= rs.len(),
            rs == rects@,
            ps@ == edge_positions(rs.take(i as int), vertical),
        decreases rs.len() - i,
    {
        assert(rs.take(i + 1).drop_last() =~= rs.take(i as int));
        let (a, b, _): (u32, u32, (u32, u32)) = sides_of(&rects[i], vertical);
        add_position(&mut ps, a);
        add_position(&mut ps, b);
        i = i + 1;
    }
    assert(rs.take(i as int) =~= rs);
    let ghost before = out@;
    let mut k: usize = 0;
    assert(ps@.take(0) =~= seq![]);
    assert(out@ =~= before + segments_at(rs, vertical, ps@.take(0)));
    while k < ps.len()
        invariant
            k <= ps@.len(),
            rs == rects@,
            out@ == before + segments_at(rs, vertical, ps@.take(k as int)),
        decreases ps@.len() - k,
    {
        let at: u32 = ps[k];
        assert(ps@.take(k + 1).drop_last() =~= ps@.take(k as int));
        let edges = collect_edges(rects, vertical, at);
        let parts = xor_intervals(edges.as_slice());
        let ghost done = out@;
        let ghost ss = parts@.map_values(|e: (u32, u32)| segment(at, e, vertical));
        let mut j: usize = 0;
        assert(out@ =~= done + ss.take(0));
        while j < parts.len()
            invariant
                j <= parts@.len(),
                ss == parts@.map_values(|e: (u32, u32)| segment(at, e, vertical)),
                out@ == done + ss.take(j as int),
            decreases parts@.len() - j,
        {
            let (lo, hi): (u32, u32) = parts[j];
            if vertical {
                out.push((at, lo, at, hi));
            } else {
                out.push((lo, at, hi, at));
            }
            j = j + 1;
            assert(out@ =~= done + ss.take(j as int));
        }
        assert(ss.take(j as int) =~= ss);
        k = k + 1;
        assert(out@ =~= before + segments_at(rs, vertical, ps@.take(k as int)));
    }
    assert(ps@.take(k as int) =~= ps@);
}

fn collect_edges(
    rects: &[(u32, u32, u32, u32)],
    vertical: bool,
    at: u32,
) -> (edges: Vec<(u32, u32)>)
    ensures
        edges@ == edges_at(rects@, vertical, at),
{
    let ghost rs = rects@;
    let mut edges: Vec<(u32, u32)> = Vec::new();
    let mut i: usize = 0;
    assert(rs.take(0) =~= seq![]);
    while i < rects.len()
        invariant
            i <= rs.len(),
            rs == rects@,
            edges@ == edges_at(rs.take(i as int), vertical, at),
        decreases rs.len() - i,
    {
        assert(rs.take(i + 1).drop_last() =~= rs.take(i as int));
        let (a, b, e): (u32, u32, (u32, u32)) = sides_of(&rects[i], vertical);
        if a == at {
            edges.push(e);
        }
        if b == at {
            edges.push(e);
        }
        i = i + 1;
    }
    assert(rs.take(i as int) =~= rs);
    edges
}

/// Compute outer boundary segments of a set of axis-aligned pixel rectangles
/// that exactly tile a region. Returns (x0,y0,x1,y1) segments in pixel-boundary
/// coords: a rect [px, px+w) × [py, py+h) has edges at x=px, x=px+w, y=py, y=py+h.
/// The vertical segments come first, each axis in ascending order.
pub fn outer_segments(
    rects: &[(u32, u32, u32, u32)],
) -> (r: Vec<(u32, u32, u32, u32)>)
    ensures
        r@ == segments_at(rects@, true, edge_positions(rects@, true)) + segments_at(
            rects@,
            false,
            edge_positions(rects@, false),
        ),
{
    let mut out: Vec<(u32, u32, u32, u32)> = Vec::new();
    axis_segments(rects, true, &mut out);
    axis_segments(rects, false, &mut out);
    assert(out@ =~= segments_at(rects@, true, edge_positions(rects@, true)) + segments_at(
        rects@,
        false,
        edge_positions(rects@, false),
    ));
    out
}

/// The unit of a vertical or horizontal grid line at `at`, from `y` to `y + 1`
/// along it, belongs to one of the segments.
pub open spec fn on_outline(
    ss: Seq<(u32, u32, u32, u32)>,
    vertical: bool,
    at: u32,
    y: int,
) -> bool {
    exists|i: int| 0 <= i < ss.len() && #[trigger] segment_holds(ss[i], vertical, at, y)
}

/// The segment runs along the grid line at `at` and holds the unit from `y`.
pub open spec fn segment_holds(
    s: (u32, u32, u32, u32),
    vertical: bool,
    at: u32,
    y: int,
) -> bool {
    if vertical {
        s.0 == at && s.2 == at && s.1 <= y < s.3
    } else {
        s.1 == at && s.3 == at && s.0 <= y < s.2
    }
}

proof fn lemma_insert_position(s: Seq<u32>, x: u32, y: u32)
    ensures
        insert_position(s, x).contains(y) <==> (s.contains(y) || x == y),
    decreases s.len(),
{
    if s.len() == 0 {
        assert(seq![x][0] == x);
    } else if s.last() == x {
        assert(s[s.len() - 1] == x);
    } else if s.last() < x {
        let r = s.push(x);
        assert(r[s.len() as int] == x);
        if s.contains(y) {
            let i = choose|i: int| 0 <= i < s.len() && s[i] == y;
            assert(r[i] == y);
        }
    } else {
        let init = s.drop_last();
        lemma_insert_position(init, x, y);
        let head = insert_position(init, x);
        let r = head.push(s.last());
        assert(r[head.len() as int] == s.last());
        if head.contains(y) {
            let i = choose|i: int| 0 <= i < head.len() && head[i] == y;
            assert(r[i] == y);
        }
        if init.contains(y) {
            let i = choose|i: int| 0 <= i < init.len() && init[i] == y;
            assert(s[i] == y);
        }
        if s.contains(y) {
            let i = choose|i: int| 0 <= i < s.len() && s[i] == y;
            if i < init.len() {
                assert(init[i] == y);
            }
        }
        assert(s[s.len() - 1] == s.last());
        if r.contains(y) {
            let i = choose|i: int| 0 <= i < r.len() && r[i] == y;
            if i < head.len() {
                assert(head[i] == y);
            }
        }
    }
}

proof fn lemma_no_edges(rs: Seq<(u32, u32, u32, u32)>, vertical: bool, at: u32)
    requires
        !edge_positions(rs, vertical).contains(at),
    ensures
        edges_at(rs, vertical, at) == Seq::<(u32, u32)>::empty(),
    decreases rs.len(),
{
    if rs.len() > 0 {
        let (a, b, _) = sides(rs.last(), vertical);
        let p = edge_positions(rs.drop_last(), vertical);
        lemma_insert_position(p, a, at);
        lemma_insert_position(insert_position(p, a), b, at);
        lemma_no_edges(rs.drop_last(), vertical, at);
    }
}

proof fn lemma_segments_hold(
    rs: Seq<(u32, u32, u32, u32)>,
    vertical: bool,
    ps: Seq<u32>,
    at: u32,
    y: int,
)
    ensures
        on_outline(segments_at(rs, vertical, ps), vertical, at, y) <==> ps.contains(at) && covered(
            odd_parts(edges_at(rs, vertical, at)),
            y,
        ),
    decreases ps.len(),
{
    let all = segments_at(rs, vertical, ps);
    if ps.len() > 0 {
        let init = ps.drop_last();
        let p = ps.last();
        lemma_segments_hold(rs, vertical, init, at, y);
        let before = segments_at(rs, vertical, init);
        let parts = odd_parts(edges_at(rs, vertical, p));
        let ss = parts.map_values(|e: (u32, u32)| segment(p, e, vertical));
        assert(ps[ps.len() - 1] == p);
        if on_outline(all, vertical, at, y) {
            let i = choose|i: int|
                0 <= i < all.len() && #[trigger] segment_holds(all[i], vertical, at, y);
            if i < before.len() {
                assert(segment_holds(before[i], vertical, at, y));
                let k = choose|k: int| 0 <= k < init.len() && init[k] == at;
                assert(ps[k] == at);
            } else {
                assert(all[i] == ss[i - before.len()]);
                assert(parts[i - before.len()].0 <= y < parts[i - before.len()].1);
            }
        }
        if ps.contains(at) && covered(odd_parts(edges_at(rs, vertical, at)), y) {
            let k = choose|k: int| 0 <= k < ps.len() && ps[k] == at;
            if k < init.len() {
                assert(init[k] == at);
                let i = choose|i: int|
                    0 <= i < before.len() && #[trigger] segment_holds(before[i], vertical, at, y);
                assert(segment_holds(all[i], vertical, at, y));
            } else {
                let i = choose|i: int|
                    0 <= i < parts.len() && (#[trigger] parts[i]).0 <= y < parts[i].1;
                assert(ss[i] == segment(p, parts[i], vertical));
                assert(segment_holds(all[before.len() + i], vertical, at, y));
            }
        }
    } else {
        assert(all =~= seq![]);
    }
}

/// The outline holds a unit edge of a grid line exactly where an odd number of
/// rectangle edges lies on it: edges that two rectangles share cancel out.
pub proof fn outline_is_odd_edges(
    rs: Seq<(u32, u32, u32, u32)>,
    vertical: bool,
    at: u32,
    y: int,
)
    requires
        y >= 0,
    ensures
        on_outline(
            segments_at(rs, vertical, edge_positions(rs, vertical)),
            vertical,
            at,
            y,
        ) <==> depth(edges_at(rs, vertical, at), y) % 2 == 1,
{
    let ps = edge_positions(rs, vertical);
    lemma_segments_hold(rs, vertical, ps, at, y);
    odd_parts_are_odd(edges_at(rs, vertical, at), y);
    if !ps.contains(at) {
        lemma_no_edges(rs, vertical, at);
    }
}

/// The pixels on either side of a unit edge: left and right of a vertical one,
/// above and below a horizontal one.
pub open spec fn beside(vertical: bool, at: int, y: int) -> geometry::Cell {
    if vertical {
        geometry::Cell { x: at, y }
    } else {
        geometry::Cell { x: y, y: at }
    }
}

proof fn lemma_edges_between(
    rs: Seq<(u32, u32, u32, u32)>,
    vertical: bool,
    at: u32,
    y: int,
)
    requires
        forall|i: int|
            0 <= i < rs.len() ==> (#[trigger] rs[i]).0 < rs[i].2 && rs[i].1 < rs[i].3,
    ensures
        depth(edges_at(rs, vertical, at), y) % 2 == (geometry::rect_count(
            geometry::rects_of(rs),
            beside(vertical, at - 1, y),
        ) + geometry::rect_count(geometry::rects_of(rs), beside(vertical, at as int, y))) % 2,
    decreases rs.len(),
{
    if rs.len() > 0 {
        let init = rs.drop_last();
        let r = rs.last();
        assert(rs[rs.len() - 1] == r);
        assert forall|i: int| 0 <= i < init.len() implies (#[trigger] init[i]).0 < init[i].2
            && init[i].1 < init[i].3 by {
            assert(init[i] == rs[i]);
        }
        lemma_edges_between(init, vertical, at, y);
        assert(geometry::rects_of(rs).drop_last() =~= geometry::rects_of(init));
        assert(geometry::rects_of(rs).last() == geometry::rect_of(r));
        let (a, b, e) = sides(r, vertical);
        let before = edges_at(init, vertical, at);
        assert(before.push(e).drop_last() =~= before);
        assert(before.push(e).push(e).drop_last() =~= before.push(e));
    } else {
        assert(geometry::rects_of(rs) =~= seq![]);
    }
}

/// For rectangles that tile a region the outline runs exactly where a pixel of
/// the region meets one outside it.
pub proof fn outline_separates_region(
    rs: Seq<(u32, u32, u32, u32)>,
    vertical: bool,
    at: u32,
    y: int,
)
    requires
        y >= 0,
        forall|i: int|
            0 <= i < rs.len() ==> (#[trigger] rs[i]).0 < rs[i].2 && rs[i].1 < rs[i].3,
        forall|c: geometry::Cell|
            0 <= #[trigger] geometry::rect_count(geometry::rects_of(rs), c) <= 1,
    ensures
        on_outline(
            segments_at(rs, vertical, edge_positions(rs, vertical)),
            vertical,
            at,
            y,
        ) <==> (geometry::rect_count(geometry::rects_of(rs), beside(vertical, at - 1, y)) == 1) != (
        geometry::rect_count(geometry::rects_of(rs), beside(vertical, at as int, y)) == 1),
{
    outline_is_odd_edges(rs, vertical, at, y);
    lemma_edges_between(rs, vertical, at, y);
    let a = geometry::rect_count(geometry::rects_of(rs), beside(vertical, at - 1, y));
    let b = geometry::rect_count(geometry::rects_of(rs), beside(vertical, at as int, y));
    assert(0 <= a <= 1 && 0 <= b <= 1);
}

} // verus!
