//! The tensors of the architectural canvas have no pixel in common, and stand
//! from the input at the top to the output at the bottom.

use vstd::prelude::*;
use crate::format::types;
use crate::geometry;
use crate::layout::arch;
use crate::layout::bin_pack;
use crate::layout::blueprint;
use crate::layout::blueprint::{Grid, Item, Placed, Plan};
use crate::layout::columns;
use crate::layout::hilbert;
use crate::layout::name_tree;
use crate::text;

verus! {

/// Two tensors have no pixel in common.
pub open spec fn disjoint(a: Placed, b: Placed) -> bool {
    ||| a.x + a.cols <= b.x
    ||| b.x + b.cols <= a.x
    ||| a.y + a.rows <= b.y
    ||| b.y + b.rows <= a.y
}

/// No two tensors of a list have a pixel in common.
spec fn all_disjoint(ps: Seq<Placed>) -> bool {
    forall|i: int, j: int| 0 <= i < j < ps.len() ==> disjoint(#[trigger] ps[i], #[trigger] ps[j])
}

/// Every tensor of a list lies in the columns up to `width` and above the
/// gutter that ends at row `y`.
spec fn above_row(ps: Seq<Placed>, width: int, y: int) -> bool {
    forall|i: int|
        0 <= i < ps.len() ==> {
            &&& 0 <= (#[trigger] ps[i]).x
            &&& 0 <= ps[i].y
            &&& ps[i].x + ps[i].cols <= width
            &&& ps[i].y + ps[i].rows + blueprint::pad() <= y
        }
}

proof fn lemma_grid_nonnegative(shape: Seq<u64>)
    ensures
        0 <= types::grid_of(shape).0,
        0 <= types::grid_of(shape).1,
{
}

proof fn lemma_side_width(items: Seq<Item>, ids: Seq<int>, input: bool, i: int)
    requires
        0 <= i < blueprint::on_side(items, ids, input).len(),
    ensures
        blueprint::clip(
            types::grid_of(items[blueprint::on_side(items, ids, input)[i]].tensor.shape).1,
        ) <= blueprint::widest(items, ids),
    decreases ids.len(),
{
    if ids.len() > 0 {
        let init = blueprint::on_side(items, ids.drop_last(), input);
        if i < init.len() {
            lemma_side_width(items, ids.drop_last(), input, i);
        }
    }
}

proof fn lemma_column(items: Seq<Item>, ids: Seq<int>, width: int, before: Seq<Placed>, y: int)
    requires
        0 <= y,
        width < u32::MAX,
        all_disjoint(before),
        above_row(before, width, y),
        forall|i: int|
            0 <= i < ids.len() ==> blueprint::clip(
                types::grid_of(items[#[trigger] ids[i]].tensor.shape).1,
            ) <= width,
        blueprint::column(items, ids, width, before, y).1 < u32::MAX,
    ensures
        ({
            let (ps, at) = blueprint::column(items, ids, width, before, y);
            y <= at && all_disjoint(ps) && above_row(ps, width, at)
        }),
    decreases ids.len(),
{
    if ids.len() > 0 {
        let it = items[ids.last()];
        lemma_grid_nonnegative(it.tensor.shape);
        lemma_column_end(items, ids.drop_last(), width, before, y);
        assert forall|i: int| 0 <= i < ids.drop_last().len() implies blueprint::clip(
            types::grid_of(items[#[trigger] ids.drop_last()[i]].tensor.shape).1,
        ) <= width by {
            assert(ids.drop_last()[i] == ids[i]);
        }
        lemma_column(items, ids.drop_last(), width, before, y);
        let (ps, at) = blueprint::column(items, ids.drop_last(), width, before, y);
        let all = blueprint::column(items, ids, width, before, y).0;
        assert(ids[ids.len() - 1] == ids.last());
        assert forall|i: int, j: int| 0 <= i < j < all.len() implies disjoint(
            #[trigger] all[i],
            #[trigger] all[j],
        ) by {
            assert(all[i] == ps[i]);
            if j < ps.len() {
                assert(all[j] == ps[j]);
            }
        }
        assert forall|i: int| 0 <= i < all.len() implies {
            &&& 0 <= (#[trigger] all[i]).x
            &&& 0 <= all[i].y
            &&& all[i].x + all[i].cols <= width
            &&& all[i].y + all[i].rows + blueprint::pad() <= blueprint::column(
                items,
                ids,
                width,
                before,
                y,
            ).1
        } by {
            if i < ps.len() {
                assert(all[i] == ps[i]);
            }
        }
    }
}

proof fn lemma_column_end(items: Seq<Item>, ids: Seq<int>, width: int, before: Seq<Placed>, y: int)
    requires
        0 <= y,
    ensures
        blueprint::column(items, ids, width, before, y).1 >= y || blueprint::column(
            items,
            ids,
            width,
            before,
            y,
        ).1 == u32::MAX,
    decreases ids.len(),
{
    if ids.len() > 0 {
        lemma_grid_nonnegative(items[ids.last()].tensor.shape);
        lemma_column_end(items, ids.drop_last(), width, before, y);
    }
}

/// A tensor has no pixel in a rectangle.
spec fn clear_of(o: Placed, x: int, y: int, w: int, h: int) -> bool {
    ||| o.x + o.cols <= x
    ||| x + w <= o.x
    ||| o.y + o.rows <= y
    ||| y + h <= o.y
}

/// A tensor lies inside a rectangle.
spec fn inside(o: Placed, x: int, y: int, w: int, h: int) -> bool {
    &&& x <= o.x
    &&& y <= o.y
    &&& o.x + o.cols <= x + w
    &&& o.y + o.rows <= y + h
}

proof fn lemma_largest(
    items: Seq<Item>,
    slots: Seq<name_tree::Place>,
    ids: Seq<u32>,
    sub: Seq<char>,
    n: int,
    m: int,
)
    requires
        0 <= m < n,
    ensures
        blueprint::holder(slots, ids[m], sub) matches Some(i) ==> {
            let (rows, cols) = types::grid_of(items[i].tensor.shape);
            let (w, h) = blueprint::largest(items, slots, ids, sub, n);
            cols <= w && rows <= h
        },
    decreases n,
{
    if m < n - 1 {
        lemma_largest(items, slots, ids, sub, n - 1, m);
    }
}

proof fn lemma_largest_positive(
    items: Seq<Item>,
    slots: Seq<name_tree::Place>,
    ids: Seq<u32>,
    sub: Seq<char>,
    n: int,
)
    ensures
        1 <= blueprint::largest(items, slots, ids, sub, n).0,
        1 <= blueprint::largest(items, slots, ids, sub, n).1,
    decreases n,
{
    if n > 0 {
        lemma_largest_positive(items, slots, ids, sub, n - 1);
    }
}

proof fn lemma_aligned(v: int)
    requires
        0 <= v <= u32::MAX,
    ensures
        v <= bin_pack::aligned(v, 16) <= u32::MAX,
{
}

/// A tensor that a block holds has room at its place, unless the room reaches
/// the 32-bit limit.
proof fn lemma_room_holds(
    items: Seq<Item>,
    slots: Seq<name_tree::Place>,
    ids: Seq<u32>,
    sub: Seq<char>,
    m: int,
)
    requires
        0 <= m < ids.len(),
        blueprint::room(items, slots, ids, sub).width < u32::MAX,
        blueprint::room(items, slots, ids, sub).height < u32::MAX,
    ensures
        blueprint::holder(slots, ids[m], sub) matches Some(i) ==> {
            let (rows, cols) = types::grid_of(items[i].tensor.shape);
            let r = blueprint::room(items, slots, ids, sub);
            cols <= r.width && rows <= r.height
        },
{
    let (w, h) = blueprint::largest(items, slots, ids, sub, ids.len() as int);
    lemma_largest(items, slots, ids, sub, ids.len() as int, m);
    lemma_largest_positive(items, slots, ids, sub, ids.len() as int);
    lemma_aligned(blueprint::clip(w));
    lemma_aligned(blueprint::clip(h));
}

/// The rooms of a plan's sub-paths.
spec fn rooms_of(p: Plan) -> Seq<bin_pack::Slot> {
    blueprint::rooms(p.items, p.slots, p.ids, p.subs)
}

/// The places of a plan are those of its packing, which stays below the 32-bit
/// limit and takes the given width and height.
spec fn packed_in(p: Plan, w: int, h: int) -> bool {
    let s = blueprint::packing(rooms_of(p));
    &&& p.at == s.at
    &&& (w, h) == bin_pack::extent(s)
    &&& w + blueprint::pad() < u32::MAX
    &&& h < u32::MAX
}

/// A tensor lies in the room of a sub-path, in the block at `x`, `y`.
spec fn in_room(o: Placed, p: Plan, x: int, y: int, j: int) -> bool {
    inside(
        o,
        x + p.at[j].x,
        y + p.at[j].y,
        rooms_of(p)[j].width as int,
        rooms_of(p)[j].height as int,
    )
}

/// A tensor lies in the room of one of the first `k` sub-paths.
spec fn in_some_room(o: Placed, p: Plan, x: int, y: int, k: int) -> bool {
    exists|j: int| 0 <= j < k && #[trigger] in_room(o, p, x, y, j)
}

proof fn lemma_block(
    p: Plan,
    m: int,
    x: int,
    y: int,
    w: int,
    h: int,
    before: Seq<Placed>,
    k: int,
)
    requires
        packed_in(p, w, h),
        0 <= m < p.ids.len(),
        0 <= k <= p.subs.len(),
        0 <= x,
        0 <= y,
        x + w <= u32::MAX,
        y + h <= u32::MAX,
        all_disjoint(before),
        forall|i: int| 0 <= i < before.len() ==> clear_of(#[trigger] before[i], x, y, w, h),
    ensures
        ({
            let ps = blueprint::block(p, p.ids[m], x, y, before, k);
            &&& before.len() <= ps.len()
            &&& all_disjoint(ps)
            &&& forall|i: int| 0 <= i < before.len() ==> #[trigger] ps[i] == before[i]
            &&& forall|i: int|
                before.len() <= i < ps.len() ==> inside(#[trigger] ps[i], x, y, w, h)
                    && in_some_room(ps[i], p, x, y, k)
        }),
    decreases k,
{
    if k > 0 {
        lemma_block(p, m, x, y, w, h, before, k - 1);
        let ps = blueprint::block(p, p.ids[m], x, y, before, k - 1);
        let all = blueprint::block(p, p.ids[m], x, y, before, k);
        let rs = rooms_of(p);
        assert(rs.len() == p.subs.len());
        bin_pack::packing_stays_in_extent(rs, blueprint::max_layer_width(), blueprint::pad(), k - 1);
        assert(rs[k - 1] == blueprint::room(p.items, p.slots, p.ids, p.subs[k - 1]));
        lemma_room_holds(p.items, p.slots, p.ids, p.subs[k - 1], m);
        assert forall|i: int| before.len() <= i < all.len() implies inside(
            #[trigger] all[i],
            x,
            y,
            w,
            h,
        ) && in_some_room(all[i], p, x, y, k) by {
            if i < ps.len() {
                assert(all[i] == ps[i]);
                let j = choose|j: int| 0 <= j < k - 1 && #[trigger] in_room(ps[i], p, x, y, j);
                assert(in_room(all[i], p, x, y, j));
            } else {
                assert(in_room(all[i], p, x, y, k - 1));
            }
        }
        assert forall|i: int, j: int| 0 <= i < j < all.len() implies disjoint(
            #[trigger] all[i],
            #[trigger] all[j],
        ) by {
            assert(all[i] == ps[i]);
            if j < ps.len() {
                assert(all[j] == ps[j]);
            } else if i < before.len() {
                assert(clear_of(before[i], x, y, w, h));
                assert(inside(all[j], x, y, w, h));
            } else {
                let a = choose|a: int| 0 <= a < k - 1 && #[trigger] in_room(ps[i], p, x, y, a);
                assert(in_room(all[j], p, x, y, k - 1));
                bin_pack::packing_does_not_overlap(
                    rs,
                    blueprint::max_layer_width(),
                    blueprint::pad(),
                    a,
                    k - 1,
                );
            }
        }
    }
}

/// The cells of a grid of `n` blocks stay within `width` and above the gutter
/// that ends at row `end`, below the 32-bit limit.
spec fn grid_fits(g: Grid, n: int, width: int, end: int) -> bool {
    &&& g.cols >= 1
    &&& 0 <= g.x && 0 <= g.y && 0 <= g.layer_w && 0 <= g.layer_h
    &&& g.x + g.cols * (g.layer_w + blueprint::pad()) - blueprint::pad() <= width
    &&& g.y + columns::rows_for(n, g.cols) * (g.layer_h + blueprint::pad()) <= end
    &&& width + blueprint::pad() < u32::MAX
    &&& end < u32::MAX
}

/// Where the cells of a grid lie.
proof fn lemma_cell(g: Grid, n: int, width: int, end: int, pos: int)
    requires
        grid_fits(g, n, width, end),
        0 <= pos < n,
    ensures
        0 <= pos % g.cols < g.cols,
        0 <= pos / g.cols,
        pos == (pos / g.cols) * g.cols + pos % g.cols,
        blueprint::block_x(g, pos) == g.x + (pos % g.cols) * (g.layer_w + blueprint::pad()),
        blueprint::block_y(g, pos) == g.y + (pos / g.cols) * (g.layer_h + blueprint::pad()),
        g.x <= blueprint::block_x(g, pos),
        g.y <= blueprint::block_y(g, pos),
        blueprint::block_x(g, pos) + g.layer_w <= width,
        blueprint::block_y(g, pos) + g.layer_h + blueprint::pad() <= end,
{
    let c = g.cols;
    let a = pos % c;
    let b = pos / c;
    let rows = columns::rows_for(n, c);
    assert(0 <= a < c && 0 <= b && pos == b * c + a && b + 1 <= rows) by (nonlinear_arith)
        requires
            c >= 1,
            0 <= pos < n,
            a == pos % c,
            b == pos / c,
            rows == (n + c - 1) / c,
    ;
    let w = g.layer_w + blueprint::pad();
    let h = g.layer_h + blueprint::pad();
    assert(0 <= a * w && a * w + w <= c * w) by (nonlinear_arith)
        requires
            0 <= a < c,
            0 <= w,
    ;
    assert(0 <= b * h && b * h + h <= rows * h) by (nonlinear_arith)
        requires
            0 <= b,
            b + 1 <= rows,
            0 <= h,
    ;
}

/// A tensor lies in a cell of the grid.
spec fn in_cell(o: Placed, g: Grid, pos: int) -> bool {
    inside(o, blueprint::block_x(g, pos), blueprint::block_y(g, pos), g.layer_w, g.layer_h)
}

/// A tensor lies in one of the first `n` cells of the grid.
spec fn in_some_cell(o: Placed, g: Grid, n: int) -> bool {
    exists|pos: int| 0 <= pos < n && #[trigger] in_cell(o, g, pos)
}

/// A tensor in one cell has no pixel in another.
proof fn lemma_cells_apart(o: Placed, g: Grid, n: int, width: int, end: int, a: int, b: int)
    requires
        grid_fits(g, n, width, end),
        0 <= a < n,
        0 <= b < n,
        a != b,
        in_cell(o, g, a),
    ensures
        clear_of(
            o,
            blueprint::block_x(g, b),
            blueprint::block_y(g, b),
            g.layer_w,
            g.layer_h,
        ),
{
    lemma_cell(g, n, width, end, a);
    lemma_cell(g, n, width, end, b);
    let w = g.layer_w + blueprint::pad();
    let h = g.layer_h + blueprint::pad();
    let (ax, ay, bx, by) = (a % g.cols, a / g.cols, b % g.cols, b / g.cols);
    assert(ax < bx ==> ax * w + w <= bx * w) by (nonlinear_arith)
        requires
            0 <= w,
    ;
    assert(bx < ax ==> bx * w + w <= ax * w) by (nonlinear_arith)
        requires
            0 <= w,
    ;
    assert(ay < by ==> ay * h + h <= by * h) by (nonlinear_arith)
        requires
            0 <= h,
    ;
    assert(by < ay ==> by * h + h <= ay * h) by (nonlinear_arith)
        requires
            0 <= h,
    ;
}

proof fn lemma_blocks(
    p: Plan,
    g: Grid,
    before: Seq<Placed>,
    total: int,
    n: int,
    width: int,
    end: int,
)
    requires
        packed_in(p, g.layer_w, g.layer_h),
        grid_fits(g, total, width, end),
        0 <= n <= total,
        total <= p.ids.len(),
        all_disjoint(before),
        above_row(before, width, g.y),
    ensures
        ({
            let ps = blueprint::blocks(p, g, before, n);
            &&& before.len() <= ps.len()
            &&& all_disjoint(ps)
            &&& forall|i: int| 0 <= i < before.len() ==> #[trigger] ps[i] == before[i]
            &&& forall|i: int|
                before.len() <= i < ps.len() ==> in_some_cell(#[trigger] ps[i], g, n)
        }),
    decreases n,
{
    if n > 0 {
        lemma_blocks(p, g, before, total, n - 1, width, end);
        let ps = blueprint::blocks(p, g, before, n - 1);
        let all = blueprint::blocks(p, g, before, n);
        let x = blueprint::block_x(g, n - 1);
        let y = blueprint::block_y(g, n - 1);
        lemma_cell(g, total, width, end, n - 1);
        assert forall|i: int| 0 <= i < ps.len() implies clear_of(
            #[trigger] ps[i],
            x,
            y,
            g.layer_w,
            g.layer_h,
        ) by {
            if i < before.len() {
                assert(ps[i] == before[i]);
            } else {
                let a = choose|a: int| 0 <= a < n - 1 && #[trigger] in_cell(ps[i], g, a);
                lemma_cells_apart(ps[i], g, total, width, end, a, n - 1);
            }
        }
        lemma_block(p, n - 1, x, y, g.layer_w, g.layer_h, ps, p.subs.len() as int);
        assert forall|i: int| before.len() <= i < all.len() implies in_some_cell(
            #[trigger] all[i],
            g,
            n,
        ) by {
            if i < ps.len() {
                assert(all[i] == ps[i]);
                let a = choose|a: int| 0 <= a < n - 1 && #[trigger] in_cell(ps[i], g, a);
                assert(in_cell(all[i], g, a));
            } else {
                assert(in_cell(all[i], g, n - 1));
            }
        }
        assert forall|i: int| 0 <= i < before.len() implies #[trigger] all[i] == before[i] by {
            assert(all[i] == ps[i]);
        }
    }
}

proof fn lemma_shelves_nonnegative(slots: Seq<bin_pack::Slot>, max_width: int, pad: int)
    requires
        0 <= pad,
    ensures
        ({
            let s = bin_pack::shelves(slots, max_width, pad);
            0 <= s.x && 0 <= s.y && 0 <= s.shelf && 0 <= s.width
        }),
    decreases slots.len(),
{
    if slots.len() > 0 {
        lemma_shelves_nonnegative(slots.drop_last(), max_width, pad);
    }
}

/// The width of the content of a canvas.
pub open spec fn drawn_width(p: Plan) -> int {
    let g = blueprint::grid_on(p, 0);
    blueprint::content_width(
        p.items,
        blueprint::outside(p.slots),
        blueprint::blocks_width(g.cols, g.layer_w),
    )
}

/// The content of a canvas stays below the 32-bit limit.
pub open spec fn in_range(p: Plan) -> bool {
    &&& drawn_width(p) + blueprint::pad() < u32::MAX
    &&& blueprint::drawn(p).2 < u32::MAX
}

/// A grid that did not reach the 32-bit limit fits the canvas.
proof fn lemma_grid_fits(p: Plan, y: int)
    requires
        p.at == blueprint::packing(rooms_of(p)).at,
        p.ids.len() > 0,
        0 <= y,
        drawn_width(p) + blueprint::pad() < u32::MAX,
        blueprint::below_grid(p.ids.len() as int, blueprint::grid_on(p, y)) < u32::MAX,
    ensures
        ({
            let g = blueprint::grid_on(p, y);
            let n = p.ids.len() as int;
            &&& packed_in(p, g.layer_w, g.layer_h)
            &&& grid_fits(g, n, drawn_width(p), blueprint::below_grid(n, g))
        }),
{
    let g = blueprint::grid_on(p, y);
    let n = p.ids.len() as int;
    let c = g.cols;
    let rows = columns::rows_for(n, c);
    let width = drawn_width(p);
    lemma_shelves_nonnegative(rooms_of(p), blueprint::max_layer_width(), blueprint::pad());
    columns::column_count_in_range(n, g.layer_w, g.layer_h, blueprint::pad());
    let grid_w = blueprint::blocks_width(c, g.layer_w);
    assert(grid_w <= width);
    assert(0 <= c * g.layer_w && g.layer_w <= c * g.layer_w) by (nonlinear_arith)
        requires
            1 <= c,
            0 <= g.layer_w,
    ;
    assert(c * (g.layer_w + 8) == c * g.layer_w + (c - 1) * 8 + 8) by (nonlinear_arith);
    assert(1 <= rows) by (nonlinear_arith)
        requires
            rows == (n + c - 1) / c,
            1 <= c <= n,
    ;
    let h = bin_pack::sat_add(g.layer_h, blueprint::pad());
    assert(h <= rows * h) by (nonlinear_arith)
        requires
            1 <= rows,
            0 <= h,
    ;
}

proof fn lemma_drawn(p: Plan)
    requires
        p.at == blueprint::packing(rooms_of(p)).at,
        in_range(p),
    ensures
        all_disjoint(blueprint::drawn(p).0),
        above_row(blueprint::drawn(p).0, drawn_width(p), blueprint::drawn(p).2),
{
    let tops = blueprint::outside(p.slots);
    let width = drawn_width(p);
    let n = p.ids.len() as int;
    let into = blueprint::on_side(p.items, tops, true);
    let out = blueprint::on_side(p.items, tops, false);
    let (ins, y) = blueprint::column(p.items, into, width, seq![], 0);
    let g = blueprint::grid_on(p, y);
    let mid = blueprint::blocks(p, g, ins, n);
    let below = blueprint::below_grid(n, g);
    lemma_column_end(p.items, into, width, seq![], 0);
    lemma_below_grid(p, y);
    lemma_column_end(p.items, out, width, mid, below);
    assert forall|i: int| 0 <= i < into.len() implies blueprint::clip(
        types::grid_of(p.items[#[trigger] into[i]].tensor.shape).1,
    ) <= width by {
        lemma_side_width(p.items, tops, true, i);
    }
    assert forall|i: int| 0 <= i < out.len() implies blueprint::clip(
        types::grid_of(p.items[#[trigger] out[i]].tensor.shape).1,
    ) <= width by {
        lemma_side_width(p.items, tops, false, i);
    }
    lemma_column(p.items, into, width, seq![], 0);
    if n > 0 {
        lemma_grid_fits(p, y);
        lemma_blocks(p, g, ins, n, n, width, below);
        assert forall|i: int| 0 <= i < mid.len() implies {
            &&& 0 <= (#[trigger] mid[i]).x
            &&& 0 <= mid[i].y
            &&& mid[i].x + mid[i].cols <= width
            &&& mid[i].y + mid[i].rows + blueprint::pad() <= below
        } by {
            if i < ins.len() {
                assert(mid[i] == ins[i]);
            } else {
                let a = choose|a: int| 0 <= a < n && #[trigger] in_cell(mid[i], g, a);
                lemma_cell(g, n, width, below, a);
            }
        }
    }
    lemma_column(p.items, out, width, mid, below);
}

proof fn lemma_below_grid(p: Plan, y: int)
    requires
        0 <= y,
    ensures
        ({
            let below = blueprint::below_grid(p.ids.len() as int, blueprint::grid_on(p, y));
            y <= below || below == u32::MAX
        }),
{
    let g = blueprint::grid_on(p, y);
    let n = p.ids.len() as int;
    if n > 0 {
        lemma_shelves_nonnegative(rooms_of(p), blueprint::max_layer_width(), blueprint::pad());
        columns::column_count_in_range(n, g.layer_w, g.layer_h, blueprint::pad());
        let c = g.cols;
        let rows = columns::rows_for(n, c);
        let h = bin_pack::sat_add(g.layer_h, blueprint::pad());
        assert(1 <= rows) by (nonlinear_arith)
            requires
                rows == (n + c - 1) / c,
                1 <= c <= n,
        ;
        assert(0 <= rows * h) by (nonlinear_arith)
            requires
                1 <= rows,
                0 <= h,
        ;
    }
}

/// No two tensors of the canvas have a pixel in common, where its content stays
/// below the 32-bit limit.
pub proof fn tensors_do_not_overlap(
    items: Seq<Item>,
    slots: Seq<name_tree::Place>,
    declared: Option<u32>,
    extra: Seq<Seq<char>>,
    i: int,
    j: int,
)
    requires
        in_range(blueprint::plan_of(items, slots, declared, extra)),
        0 <= i < blueprint::canvas(
            blueprint::plan_of(items, slots, declared, extra),
        ).tensors.len(),
        0 <= j < blueprint::canvas(
            blueprint::plan_of(items, slots, declared, extra),
        ).tensors.len(),
        i != j,
    ensures
        ({
            let c = blueprint::canvas(blueprint::plan_of(items, slots, declared, extra));
            disjoint(c.tensors[i], c.tensors[j])
        }),
{
    let p = blueprint::plan_of(items, slots, declared, extra);
    lemma_drawn(p);
    let ps = blueprint::canvas(p).tensors;
    if i < j {
        assert(disjoint(ps[i], ps[j]));
    } else {
        assert(disjoint(ps[j], ps[i]));
    }
}

/// Where the content of the canvas stays below the 32-bit limit, the edges of
/// every tensor do.
pub proof fn tensors_lie_below_the_limit(
    items: Seq<Item>,
    slots: Seq<name_tree::Place>,
    declared: Option<u32>,
    extra: Seq<Seq<char>>,
    i: int,
)
    requires
        in_range(blueprint::plan_of(items, slots, declared, extra)),
        0 <= i < blueprint::canvas(
            blueprint::plan_of(items, slots, declared, extra),
        ).tensors.len(),
    ensures
        ({
            let c = blueprint::canvas(blueprint::plan_of(items, slots, declared, extra));
            &&& 0 <= c.tensors[i].x
            &&& 0 <= c.tensors[i].y
            &&& c.tensors[i].x + c.tensors[i].cols < u32::MAX
            &&& c.tensors[i].y + c.tensors[i].rows < u32::MAX
        }),
{
    let p = blueprint::plan_of(items, slots, declared, extra);
    lemma_drawn(p);
    let ps = blueprint::canvas(p).tensors;
    assert(ps[i].x + ps[i].cols <= drawn_width(p));
}

/// Every tensor lies on the canvas, where its content stays below the 32-bit
/// limit.
pub proof fn tensors_lie_on_the_canvas(
    items: Seq<Item>,
    slots: Seq<name_tree::Place>,
    declared: Option<u32>,
    extra: Seq<Seq<char>>,
    i: int,
)
    requires
        in_range(blueprint::plan_of(items, slots, declared, extra)),
        0 <= i < blueprint::canvas(
            blueprint::plan_of(items, slots, declared, extra),
        ).tensors.len(),
    ensures
        ({
            let c = blueprint::canvas(blueprint::plan_of(items, slots, declared, extra));
            &&& 0 <= c.tensors[i].x
            &&& 0 <= c.tensors[i].y
            &&& c.tensors[i].x + c.tensors[i].cols <= c.width
            &&& c.tensors[i].y + c.tensors[i].rows <= c.height
        }),
{
    let p = blueprint::plan_of(items, slots, declared, extra);
    lemma_drawn(p);
    let ps = blueprint::canvas(p).tensors;
    let (all, g, end) = blueprint::drawn(p);
    let height = columns::larger(blueprint::sat_sub(end, blueprint::pad()), 1);
    assert(ps[i].x + ps[i].cols <= drawn_width(p));
    arch::next_pow2_is_smallest(blueprint::tiles_for(drawn_width(p)));
    arch::next_pow2_is_smallest(blueprint::tiles_for(height));
}

// ---- where the parts of a model stand ----

/// The list begins with another one.
spec fn extends(ps: Seq<Placed>, before: Seq<Placed>) -> bool {
    &&& before.len() <= ps.len()
    &&& forall|i: int| 0 <= i < before.len() ==> #[trigger] ps[i] == before[i]
}

proof fn lemma_column_new(
    items: Seq<Item>,
    ids: Seq<int>,
    width: int,
    before: Seq<Placed>,
    y: int,
)
    requires
        0 <= y <= u32::MAX,
    ensures
        ({
            let (ps, at) = blueprint::column(items, ids, width, before, y);
            &&& extends(ps, before)
            &&& ps.len() == before.len() + ids.len()
            &&& y <= at <= u32::MAX
            &&& forall|i: int|
                before.len() <= i < ps.len() ==> (#[trigger] ps[i]).layer is None && ps[i].y >= y
                    && ps[i].name == items[ids[i - before.len()]].tensor.name
        }),
    decreases ids.len(),
{
    if ids.len() > 0 {
        let init = ids.drop_last();
        lemma_column_new(items, init, width, before, y);
        lemma_grid_nonnegative(items[ids.last()].tensor.shape);
        let was = blueprint::column(items, init, width, before, y).0;
        let ps = blueprint::column(items, ids, width, before, y).0;
        assert forall|i: int| before.len() <= i < ps.len() implies (#[trigger] ps[i]).layer is None
            && ps[i].y >= y && ps[i].name == items[ids[i - before.len()]].tensor.name by {
            if i < was.len() {
                assert(ps[i] == was[i]);
                assert(init[i - before.len()] == ids[i - before.len()]);
            }
        }
        assert forall|i: int| 0 <= i < before.len() implies #[trigger] ps[i] == before[i] by {
            assert(was[i] == before[i]);
        }
    }
}

proof fn lemma_side_names(items: Seq<Item>, ids: Seq<int>, input: bool, i: int)
    requires
        0 <= i < blueprint::on_side(items, ids, input).len(),
    ensures
        on_input_side(items[blueprint::on_side(items, ids, input)[i]].tensor.name) == input,
    decreases ids.len(),
{
    let was = blueprint::on_side(items, ids.drop_last(), input);
    if i < was.len() {
        lemma_side_names(items, ids.drop_last(), input, i);
        assert(blueprint::on_side(items, ids, input)[i] == was[i]);
    }
}

proof fn lemma_block_new(p: Plan, idx: u32, x: int, y: int, before: Seq<Placed>, k: int)
    requires
        0 <= k,
    ensures
        ({
            let ps = blueprint::block(p, idx, x, y, before, k);
            &&& extends(ps, before)
            &&& forall|i: int| before.len() <= i < ps.len() ==> (#[trigger] ps[i]).layer == Some(idx)
        }),
    decreases k,
{
    if k > 0 {
        lemma_block_new(p, idx, x, y, before, k - 1);
        let was = blueprint::block(p, idx, x, y, before, k - 1);
        let ps = blueprint::block(p, idx, x, y, before, k);
        assert forall|i: int| 0 <= i < before.len() implies #[trigger] ps[i] == before[i] by {
            assert(was[i] == before[i]);
        }
        assert forall|i: int| before.len() <= i < ps.len() implies (#[trigger] ps[i]).layer
            == Some(idx) by {
            if i < was.len() {
                assert(ps[i] == was[i]);
            }
        }
    }
}

proof fn lemma_blocks_new(p: Plan, g: Grid, before: Seq<Placed>, n: int)
    requires
        0 <= n,
    ensures
        ({
            let ps = blueprint::blocks(p, g, before, n);
            &&& extends(ps, before)
            &&& forall|i: int| before.len() <= i < ps.len() ==> (#[trigger] ps[i]).layer is Some
        }),
    decreases n,
{
    if n > 0 {
        lemma_blocks_new(p, g, before, n - 1);
        let was = blueprint::blocks(p, g, before, n - 1);
        let ps = blueprint::blocks(p, g, before, n);
        lemma_block_new(
            p,
            p.ids[n - 1],
            blueprint::block_x(g, n - 1),
            blueprint::block_y(g, n - 1),
            was,
            p.subs.len() as int,
        );
        assert forall|i: int| 0 <= i < before.len() implies #[trigger] ps[i] == before[i] by {
            assert(ps[i] == was[i]);
        }
        assert forall|i: int| before.len() <= i < ps.len() implies (#[trigger] ps[i]).layer
            is Some by {
            if i < was.len() {
                assert(ps[i] == was[i]);
            }
        }
    }
}

/// A tensor outside the blocks belongs on the input side: its name speaks of an
/// embedding.
pub open spec fn on_input_side(name: Seq<char>) -> bool {
    let t = text::lowercase(name);
    text::has(t, "embed"@) || text::has(t, "wte"@) || text::has(t, "wpe"@)
}

/// Which part of the model a placed tensor belongs to, from the input to the
/// output: the embeddings, the blocks, the rest.
pub open spec fn stage(t: Placed) -> int {
    if t.layer is Some {
        1
    } else if on_input_side(t.name) {
        0
    } else {
        2
    }
}

/// A model reads from top to bottom: the embeddings stand above the blocks, and
/// the blocks above everything else.
pub proof fn stages_stand_one_below_the_other(
    items: Seq<Item>,
    slots: Seq<name_tree::Place>,
    declared: Option<u32>,
    extra: Seq<Seq<char>>,
    i: int,
    j: int,
)
    requires
        in_range(blueprint::plan_of(items, slots, declared, extra)),
        0 <= i < blueprint::canvas(
            blueprint::plan_of(items, slots, declared, extra),
        ).tensors.len(),
        0 <= j < blueprint::canvas(
            blueprint::plan_of(items, slots, declared, extra),
        ).tensors.len(),
        ({
            let c = blueprint::canvas(blueprint::plan_of(items, slots, declared, extra));
            stage(c.tensors[i]) < stage(c.tensors[j])
        }),
    ensures
        ({
            let c = blueprint::canvas(blueprint::plan_of(items, slots, declared, extra));
            c.tensors[i].y + c.tensors[i].rows <= c.tensors[j].y
        }),
{
    let p = blueprint::plan_of(items, slots, declared, extra);
    let tops = blueprint::outside(p.slots);
    let width = drawn_width(p);
    let n = p.ids.len() as int;
    let into = blueprint::on_side(p.items, tops, true);
    let out = blueprint::on_side(p.items, tops, false);
    let (ins, y) = blueprint::column(p.items, into, width, seq![], 0);
    let g = blueprint::grid_on(p, y);
    let mid = blueprint::blocks(p, g, ins, n);
    let below = blueprint::below_grid(n, g);
    let (all, end) = blueprint::column(p.items, out, width, mid, below);
    assert(all == blueprint::canvas(p).tensors);
    lemma_column_end(p.items, into, width, seq![], 0);
    lemma_below_grid(p, y);
    lemma_column_end(p.items, out, width, mid, below);
    assert forall|k: int| 0 <= k < into.len() implies blueprint::clip(
        types::grid_of(p.items[#[trigger] into[k]].tensor.shape).1,
    ) <= width by {
        lemma_side_width(p.items, tops, true, k);
    }
    lemma_column(p.items, into, width, seq![], 0);
    lemma_column_new(p.items, into, width, seq![], 0);
    lemma_blocks_new(p, g, ins, n);
    lemma_column_new(p.items, out, width, mid, below);
    assert forall|k: int| 0 <= k < all.len() implies stage(#[trigger] all[k]) == (if k < ins.len() {
        0int
    } else if k < mid.len() {
        1
    } else {
        2
    }) by {
        if k < mid.len() {
            assert(all[k] == mid[k]);
            if k < ins.len() {
                assert(mid[k] == ins[k]);
                assert(ins[k].layer is None);
                lemma_side_names(p.items, tops, true, k);
            }
        } else {
            lemma_side_names(p.items, tops, false, k - mid.len());
        }
    }
    assert(stage(all[i]) < stage(all[j]));
    if n > 0 {
        lemma_grid_fits(p, y);
        lemma_blocks(p, g, ins, n, n, width, below);
        if ins.len() <= i < mid.len() {
            assert(all[i] == mid[i]);
            assert(in_some_cell(mid[i], g, n));
            let a = choose|a: int| 0 <= a < n && #[trigger] in_cell(mid[i], g, a);
            lemma_cell(g, n, width, below, a);
        }
        if ins.len() <= j < mid.len() {
            assert(all[j] == mid[j]);
            assert(in_some_cell(mid[j], g, n));
            let a = choose|a: int| 0 <= a < n && #[trigger] in_cell(mid[j], g, a);
            lemma_cell(g, n, width, below, a);
        }
    }
    if i < ins.len() {
        assert(all[i] == mid[i] && mid[i] == ins[i]);
        assert(ins[i].y + ins[i].rows + blueprint::pad() <= y);
    }
}

/// The list holds the tensor of an item at the given place, in the given layer
/// and of the given hue.
spec fn holds_at(
    ps: Seq<Placed>,
    it: Item,
    x: int,
    y: int,
    layer: u32,
    hue: Seq<char>,
) -> bool {
    exists|k: int|
        0 <= k < ps.len() && (#[trigger] ps[k]).name == it.tensor.name && ps[k].source == it.source
            && ps[k].layer == Some(layer) && ps[k].x == x && ps[k].y == y && ps[k].hue
            == geometry::hue_of(hue)
}

proof fn lemma_holds_extends(
    ps: Seq<Placed>,
    before: Seq<Placed>,
    it: Item,
    x: int,
    y: int,
    layer: u32,
    hue: Seq<char>,
)
    requires
        extends(ps, before),
        holds_at(before, it, x, y, layer, hue),
    ensures
        holds_at(ps, it, x, y, layer, hue),
{
    let k = choose|k: int|
        0 <= k < before.len() && (#[trigger] before[k]).name == it.tensor.name && before[k].source
            == it.source && before[k].layer == Some(layer) && before[k].x == x && before[k].y == y
            && before[k].hue == geometry::hue_of(hue);
    assert(ps[k] == before[k]);
}

proof fn lemma_block_holds(
    p: Plan,
    idx: u32,
    x: int,
    y: int,
    before: Seq<Placed>,
    k: int,
    j: int,
    u: int,
)
    requires
        0 <= j < k,
        blueprint::holder(p.slots, idx, p.subs[j]) == Some(u),
    ensures
        holds_at(
            blueprint::block(p, idx, x, y, before, k),
            p.items[u],
            bin_pack::sat_add(x, p.at[j].x as int),
            bin_pack::sat_add(y, p.at[j].y as int),
            idx,
            p.subs[j],
        ),
    decreases k,
{
    let was = blueprint::block(p, idx, x, y, before, k - 1);
    let ps = blueprint::block(p, idx, x, y, before, k);
    if j < k - 1 {
        lemma_block_holds(p, idx, x, y, before, k - 1, j, u);
        lemma_holds_extends(
            ps,
            was,
            p.items[u],
            bin_pack::sat_add(x, p.at[j].x as int),
            bin_pack::sat_add(y, p.at[j].y as int),
            idx,
            p.subs[j],
        );
    } else {
        assert(ps[ps.len() - 1] == blueprint::placed(
            p.items[u],
            was.len() as int,
            bin_pack::sat_add(x, p.at[j].x as int),
            bin_pack::sat_add(y, p.at[j].y as int),
            p.subs[j],
            Some(idx),
        ));
    }
}

proof fn lemma_blocks_hold(p: Plan, g: Grid, before: Seq<Placed>, n: int, a: int, j: int, u: int)
    requires
        0 <= a < n,
        0 <= j < p.subs.len(),
        blueprint::holder(p.slots, p.ids[a], p.subs[j]) == Some(u),
    ensures
        holds_at(
            blueprint::blocks(p, g, before, n),
            p.items[u],
            bin_pack::sat_add(blueprint::block_x(g, a), p.at[j].x as int),
            bin_pack::sat_add(blueprint::block_y(g, a), p.at[j].y as int),
            p.ids[a],
            p.subs[j],
        ),
    decreases n,
{
    let was = blueprint::blocks(p, g, before, n - 1);
    let k = p.subs.len() as int;
    let x = blueprint::block_x(g, n - 1);
    let y = blueprint::block_y(g, n - 1);
    if a == n - 1 {
        lemma_block_holds(p, p.ids[a], x, y, was, k, j, u);
    } else {
        lemma_blocks_hold(p, g, before, n - 1, a, j, u);
        lemma_block_new(p, p.ids[n - 1], x, y, was, k);
        lemma_holds_extends(
            blueprint::blocks(p, g, before, n),
            was,
            p.items[u],
            bin_pack::sat_add(blueprint::block_x(g, a), p.at[j].x as int),
            bin_pack::sat_add(blueprint::block_y(g, a), p.at[j].y as int),
            p.ids[a],
            p.subs[j],
        );
    }
}

/// A tensor of the canvas is the one of the given item, in the given layer, at
/// the given place within the box of that layer.
pub open spec fn stands_in_block(
    t: Placed,
    it: Item,
    b: blueprint::Bounds,
    dx: int,
    dy: int,
    hue: int,
) -> bool {
    &&& t.name == it.tensor.name
    &&& t.source == it.source
    &&& t.layer == Some(b.layer)
    &&& t.x == b.x + dx
    &&& t.y == b.y + dy
    &&& t.hue == hue
}

/// The tensors of one sub-path stand alike in every block: at the same place
/// within the block, and in the same hue.
pub proof fn blocks_are_laid_out_alike(
    items: Seq<Item>,
    slots: Seq<name_tree::Place>,
    declared: Option<u32>,
    extra: Seq<Seq<char>>,
    j: int,
    a: int,
    u: int,
)
    requires
        in_range(blueprint::plan_of(items, slots, declared, extra)),
        ({
            let p = blueprint::plan_of(items, slots, declared, extra);
            &&& 0 <= j < p.subs.len()
            &&& 0 <= a < p.ids.len()
            &&& blueprint::holder(slots, p.ids[a], p.subs[j]) == Some(u)
        }),
    ensures
        ({
            let p = blueprint::plan_of(items, slots, declared, extra);
            let c = blueprint::canvas(p);
            &&& c.bounds[a].layer == p.ids[a]
            &&& exists|k: int|
                0 <= k < c.tensors.len() && stands_in_block(
                    #[trigger] c.tensors[k],
                    items[u],
                    c.bounds[a],
                    p.at[j].x as int,
                    p.at[j].y as int,
                    geometry::hue_of(p.subs[j]),
                )
        }),
{
    let p = blueprint::plan_of(items, slots, declared, extra);
    let c = blueprint::canvas(p);
    let tops = blueprint::outside(p.slots);
    let width = drawn_width(p);
    let n = p.ids.len() as int;
    let into = blueprint::on_side(p.items, tops, true);
    let out = blueprint::on_side(p.items, tops, false);
    let (ins, y) = blueprint::column(p.items, into, width, seq![], 0);
    let g = blueprint::grid_on(p, y);
    let mid = blueprint::blocks(p, g, ins, n);
    let below = blueprint::below_grid(n, g);
    let all = c.tensors;
    lemma_column_new(p.items, into, width, seq![], 0);
    lemma_below_grid(p, y);
    lemma_column_end(p.items, out, width, mid, below);
    lemma_column_new(p.items, out, width, mid, below);
    let x0 = bin_pack::sat_add(blueprint::block_x(g, a), p.at[j].x as int);
    let y0 = bin_pack::sat_add(blueprint::block_y(g, a), p.at[j].y as int);
    lemma_blocks_hold(p, g, ins, n, a, j, u);
    lemma_holds_extends(all, mid, p.items[u], x0, y0, p.ids[a], p.subs[j]);
    let k = choose|k: int|
        0 <= k < all.len() && (#[trigger] all[k]).name == p.items[u].tensor.name && all[k].source
            == p.items[u].source && all[k].layer == Some(p.ids[a]) && all[k].x == x0 && all[k].y
            == y0 && all[k].hue == geometry::hue_of(p.subs[j]);
    lemma_drawn(p);
    lemma_drawn_sizes(p);
    assert(all[k].x + all[k].cols <= width);
    assert(all[k].cols >= 0 && all[k].rows >= 0);
    assert(stands_in_block(
        all[k],
        items[u],
        c.bounds[a],
        p.at[j].x as int,
        p.at[j].y as int,
        geometry::hue_of(p.subs[j]),
    ));
}

spec fn sized(ps: Seq<Placed>) -> bool {
    forall|i: int| 0 <= i < ps.len() ==> (#[trigger] ps[i]).rows >= 0 && ps[i].cols >= 0
}

proof fn lemma_column_sizes(
    items: Seq<Item>,
    ids: Seq<int>,
    width: int,
    before: Seq<Placed>,
    y: int,
)
    requires
        sized(before),
    ensures
        sized(blueprint::column(items, ids, width, before, y).0),
    decreases ids.len(),
{
    if ids.len() > 0 {
        lemma_column_sizes(items, ids.drop_last(), width, before, y);
        lemma_grid_nonnegative(items[ids.last()].tensor.shape);
    }
}

proof fn lemma_block_sizes(p: Plan, idx: u32, x: int, y: int, before: Seq<Placed>, k: int)
    requires
        sized(before),
    ensures
        sized(blueprint::block(p, idx, x, y, before, k)),
    decreases k,
{
    if k > 0 {
        lemma_block_sizes(p, idx, x, y, before, k - 1);
        match blueprint::holder(p.slots, idx, p.subs[k - 1]) {
            Some(i) => lemma_grid_nonnegative(p.items[i].tensor.shape),
            None => {},
        }
    }
}

proof fn lemma_blocks_sizes(p: Plan, g: Grid, before: Seq<Placed>, n: int)
    requires
        sized(before),
    ensures
        sized(blueprint::blocks(p, g, before, n)),
    decreases n,
{
    if n > 0 {
        lemma_blocks_sizes(p, g, before, n - 1);
        lemma_block_sizes(
            p,
            p.ids[n - 1],
            blueprint::block_x(g, n - 1),
            blueprint::block_y(g, n - 1),
            blueprint::blocks(p, g, before, n - 1),
            p.subs.len() as int,
        );
    }
}

proof fn lemma_drawn_sizes(p: Plan)
    ensures
        sized(blueprint::drawn(p).0),
{
    let tops = blueprint::outside(p.slots);
    let width = drawn_width(p);
    let into = blueprint::on_side(p.items, tops, true);
    let (ins, y) = blueprint::column(p.items, into, width, seq![], 0);
    let g = blueprint::grid_on(p, y);
    let n = p.ids.len() as int;
    lemma_column_sizes(p.items, into, width, seq![], 0);
    lemma_blocks_sizes(p, g, ins, n);
    lemma_column_sizes(
        p.items,
        blueprint::on_side(p.items, tops, false),
        width,
        blueprint::blocks(p, g, ins, n),
        blueprint::below_grid(n, g),
    );
}

} // verus!
