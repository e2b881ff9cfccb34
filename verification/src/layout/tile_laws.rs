//! The tiles part every tensor among them: each element is shown by one tile,
//! once.

use vstd::prelude::*;
use crate::layout::arch_laws;
use crate::layout::blueprint;
use crate::layout::blueprint::{Grid, Item, Placed, Plan};
use crate::layout::hilbert::TILE;
use crate::layout::name_tree;
use crate::layout::tile;
use crate::order;

verus! {

/// The element at a row and column of the tensor is among those that the window
/// shows.
pub open spec fn holds_element(w: tile::Window, row: int, col: int) -> bool {
    w.row_first <= row < w.row_end && w.col_first <= col < w.col_end
}

/// Every tensor is numbered by its place.
pub(crate) open spec fn numbered(ps: Seq<Placed>) -> bool {
    forall|i: int| 0 <= i < ps.len() ==> (#[trigger] ps[i]).id == i
}

proof fn lemma_column_numbered(
    items: Seq<Item>,
    ids: Seq<int>,
    width: int,
    before: Seq<Placed>,
    y: int,
)
    requires
        numbered(before),
    ensures
        numbered(blueprint::column(items, ids, width, before, y).0),
    decreases ids.len(),
{
    if ids.len() > 0 {
        lemma_column_numbered(items, ids.drop_last(), width, before, y);
        let ps = blueprint::column(items, ids.drop_last(), width, before, y).0;
        let all = blueprint::column(items, ids, width, before, y).0;
        assert forall|i: int| 0 <= i < all.len() implies (#[trigger] all[i]).id == i by {
            if i < ps.len() {
                assert(all[i] == ps[i]);
            }
        }
    }
}

proof fn lemma_block_numbered(p: Plan, idx: u32, x: int, y: int, before: Seq<Placed>, k: int)
    requires
        numbered(before),
    ensures
        numbered(blueprint::block(p, idx, x, y, before, k)),
    decreases k,
{
    if k > 0 {
        lemma_block_numbered(p, idx, x, y, before, k - 1);
        let ps = blueprint::block(p, idx, x, y, before, k - 1);
        let all = blueprint::block(p, idx, x, y, before, k);
        assert forall|i: int| 0 <= i < all.len() implies (#[trigger] all[i]).id == i by {
            if i < ps.len() {
                assert(all[i] == ps[i]);
            }
        }
    }
}

proof fn lemma_blocks_numbered(p: Plan, g: Grid, before: Seq<Placed>, n: int)
    requires
        numbered(before),
    ensures
        numbered(blueprint::blocks(p, g, before, n)),
    decreases n,
{
    if n > 0 {
        lemma_blocks_numbered(p, g, before, n - 1);
        lemma_block_numbered(
            p,
            p.ids[n - 1],
            blueprint::block_x(g, n - 1),
            blueprint::block_y(g, n - 1),
            blueprint::blocks(p, g, before, n - 1),
            p.subs.len() as int,
        );
    }
}

pub(crate) proof fn lemma_drawn_numbered(p: Plan)
    ensures
        numbered(blueprint::drawn(p).0),
{
    let tops = blueprint::outside(p.slots);
    let g0 = blueprint::grid_on(p, 0);
    let width = blueprint::content_width(
        p.items,
        tops,
        blueprint::blocks_width(g0.cols, g0.layer_w),
    );
    let into = blueprint::on_side(p.items, tops, true);
    let out = blueprint::on_side(p.items, tops, false);
    let (ins, y) = blueprint::column(p.items, into, width, seq![], 0);
    let g = blueprint::grid_on(p, y);
    let n = p.ids.len() as int;
    lemma_column_numbered(p.items, into, width, seq![], 0);
    lemma_blocks_numbered(p, g, ins, n);
    lemma_column_numbered(
        p.items,
        out,
        width,
        blueprint::blocks(p, g, ins, n),
        blueprint::below_grid(n, g),
    );
}

/// The reading order holds every place once.
pub(crate) proof fn lemma_order_once(ps: Seq<Placed>)
    ensures
        ({
            let ids = blueprint::reading_order(ps);
            &&& ids.len() == ps.len()
            &&& forall|i: int| 0 <= i < ids.len() ==> 0 <= #[trigger] ids[i] < ps.len()
            &&& ids.no_duplicates()
            &&& forall|k: int| 0 <= k < ps.len() ==> #[trigger] ids.contains(k)
        }),
{
    let all = Seq::new(ps.len(), |i: int| i);
    let le = |a: int, b: int| blueprint::above(ps[a], ps[b]);
    let ids = blueprint::reading_order(ps);
    order::stable_sort_permutes(all, le);
    ids.to_multiset_ensures();
    all.to_multiset_ensures();
    assert(all.no_duplicates());
    all.lemma_multiset_has_no_duplicates();
    assert forall|x: int| ids.to_multiset().contains(x) implies ids.to_multiset().count(x) == 1 by {
        assert(all.to_multiset().contains(x));
    }
    ids.lemma_multiset_has_no_duplicates_conv();
    assert forall|i: int| 0 <= i < ids.len() implies 0 <= #[trigger] ids[i] < ps.len() by {
        assert(ids.contains(ids[i]));
        assert(ids.to_multiset().count(ids[i]) > 0);
        assert(all.contains(ids[i]));
    }
    assert forall|k: int| 0 <= k < ps.len() implies #[trigger] ids.contains(k) by {
        assert(all[k] == k);
        assert(all.contains(k));
        assert(all.to_multiset().count(k) > 0);
    }
}

/// A window comes from a tensor of the order that the tile shows.
pub(crate) proof fn lemma_window_from(
    ps: Seq<Placed>,
    ids: Seq<int>,
    tx: int,
    ty: int,
    n: int,
    i: int,
) -> (k: int)
    requires
        0 <= n <= ids.len(),
        0 <= i < tile::windows(ps, ids, tx, ty, n).len(),
    ensures
        0 <= k < n,
        tile::shows(ps[ids[k]], tx, ty),
        tile::windows(ps, ids, tx, ty, n)[i] == tile::window(ps[ids[k]], tx, ty),
        tile::windows(ps, ids, tx, ty, k).len() == i,
    decreases n,
{
    let before = tile::windows(ps, ids, tx, ty, n - 1);
    if i < before.len() {
        lemma_window_from(ps, ids, tx, ty, n - 1, i)
    } else {
        n - 1
    }
}

/// A tensor of the order that the tile shows has a window.
proof fn lemma_window_for(ps: Seq<Placed>, ids: Seq<int>, tx: int, ty: int, n: int, k: int) -> (i:
    int)
    requires
        0 <= k < n <= ids.len(),
        tile::shows(ps[ids[k]], tx, ty),
    ensures
        0 <= i < tile::windows(ps, ids, tx, ty, n).len(),
        tile::windows(ps, ids, tx, ty, n)[i] == tile::window(ps[ids[k]], tx, ty),
    decreases n,
{
    if k < n - 1 {
        lemma_window_for(ps, ids, tx, ty, n - 1, k)
    } else {
        tile::windows(ps, ids, tx, ty, n - 1).len() as int
    }
}

/// A tile that shows a tensor lists it, no tile lists a tensor twice, and what
/// it lists under a tensor's number is its window of that tensor.
pub proof fn a_tile_lists_a_tensor_once(
    items: Seq<Item>,
    slots: Seq<name_tree::Place>,
    declared: Option<u32>,
    extra: Seq<Seq<char>>,
    k: int,
    tx: int,
    ty: int,
)
    requires
        0 <= k < blueprint::canvas(
            blueprint::plan_of(items, slots, declared, extra),
        ).tensors.len(),
    ensures
        ({
            let c = blueprint::canvas(blueprint::plan_of(items, slots, declared, extra));
            let t = c.tensors[k];
            let ws = tile::windows(c.tensors, c.order, tx, ty, c.order.len() as int);
            &&& t.id == k
            &&& tile::shows(t, tx, ty) ==> exists|i: int|
                0 <= i < ws.len() && #[trigger] ws[i] == tile::window(t, tx, ty)
            &&& forall|i: int|
                0 <= i < ws.len() && (#[trigger] ws[i]).tensor.id == k ==> tile::shows(t, tx, ty)
                    && ws[i] == tile::window(t, tx, ty)
            &&& forall|i: int, j: int|
                0 <= i < j < ws.len() ==> (#[trigger] ws[i]).tensor.id != (
                #[trigger] ws[j]).tensor.id
        }),
{
    let p = blueprint::plan_of(items, slots, declared, extra);
    let c = blueprint::canvas(p);
    let ps = c.tensors;
    let ids = c.order;
    let n = ids.len() as int;
    let ws = tile::windows(ps, ids, tx, ty, n);
    lemma_drawn_numbered(p);
    lemma_order_once(ps);
    let t = ps[k];
    if tile::shows(t, tx, ty) {
        assert(ids.contains(k));
        let o = choose|o: int| 0 <= o < ids.len() && ids[o] == k;
        let i = lemma_window_for(ps, ids, tx, ty, n, o);
        assert(ws[i] == tile::window(t, tx, ty));
    }
    assert forall|i: int| 0 <= i < ws.len() && (#[trigger] ws[i]).tensor.id == k implies tile::shows(
        t,
        tx,
        ty,
    ) && ws[i] == tile::window(t, tx, ty) by {
        let o = lemma_window_from(ps, ids, tx, ty, n, i);
        assert(ps[ids[o]].id == ids[o]);
    }
    assert forall|i: int, j: int| 0 <= i < j < ws.len() implies (#[trigger] ws[i]).tensor.id != (
    #[trigger] ws[j]).tensor.id by {
        let a = lemma_window_from(ps, ids, tx, ty, n, i);
        let b = lemma_window_from(ps, ids, tx, ty, n, j);
        assert(a != b);
        assert(ids[a] != ids[b]);
        assert(ps[ids[a]].id == ids[a] && ps[ids[b]].id == ids[b]);
    }
}

/// What a tile shows of a tensor is a box of its element grid, painted at its
/// place on the canvas with one pixel per element, inside the tile.
pub proof fn windows_are_boxes_of_the_tensor(
    items: Seq<Item>,
    slots: Seq<name_tree::Place>,
    declared: Option<u32>,
    extra: Seq<Seq<char>>,
    k: int,
    tx: int,
    ty: int,
)
    requires
        arch_laws::in_range(blueprint::plan_of(items, slots, declared, extra)),
        0 <= k < blueprint::canvas(
            blueprint::plan_of(items, slots, declared, extra),
        ).tensors.len(),
        tile::shows(
            blueprint::canvas(blueprint::plan_of(items, slots, declared, extra)).tensors[k],
            tx,
            ty,
        ),
        blueprint::canvas(
            blueprint::plan_of(items, slots, declared, extra),
        ).tensors[k].rows > 0,
        blueprint::canvas(
            blueprint::plan_of(items, slots, declared, extra),
        ).tensors[k].cols > 0,
    ensures
        ({
            let t = blueprint::canvas(blueprint::plan_of(items, slots, declared, extra)).tensors[k];
            let w = tile::window(t, tx, ty);
            &&& 0 <= w.row_first < w.row_end <= t.rows
            &&& 0 <= w.col_first < w.col_end <= t.cols
            &&& w.x0 == t.x + w.col_first - tx * TILE
            &&& w.y0 == t.y + w.row_first - ty * TILE
            &&& w.x1 - w.x0 == w.col_end - w.col_first
            &&& w.y1 - w.y0 == w.row_end - w.row_first
            &&& 0 <= w.x0 < w.x1 <= TILE
            &&& 0 <= w.y0 < w.y1 <= TILE
        }),
{
    arch_laws::tensors_lie_below_the_limit(items, slots, declared, extra, k);
}

/// Every element of a tensor is shown by one tile of the canvas and by no other
/// tile, where the content of the canvas stays below the 32-bit limit.
pub proof fn every_element_is_shown_once(
    items: Seq<Item>,
    slots: Seq<name_tree::Place>,
    declared: Option<u32>,
    extra: Seq<Seq<char>>,
    k: int,
    row: int,
    col: int,
)
    requires
        arch_laws::in_range(blueprint::plan_of(items, slots, declared, extra)),
        0 <= k < blueprint::canvas(
            blueprint::plan_of(items, slots, declared, extra),
        ).tensors.len(),
        0 <= row < blueprint::canvas(
            blueprint::plan_of(items, slots, declared, extra),
        ).tensors[k].rows,
        0 <= col < blueprint::canvas(
            blueprint::plan_of(items, slots, declared, extra),
        ).tensors[k].cols,
    ensures
        ({
            let c = blueprint::canvas(blueprint::plan_of(items, slots, declared, extra));
            let t = c.tensors[k];
            let tx = (t.x + col) / (TILE as int);
            let ty = (t.y + row) / (TILE as int);
            &&& 0 <= tx < c.width_tiles
            &&& 0 <= ty < c.height_tiles
            &&& tile::shows(t, tx, ty)
            &&& holds_element(tile::window(t, tx, ty), row, col)
            &&& forall|ax: int, ay: int|
                #[trigger] tile::shows(t, ax, ay) && holds_element(
                    tile::window(t, ax, ay),
                    row,
                    col,
                ) ==> ax == tx && ay == ty
        }),
{
    arch_laws::tensors_lie_below_the_limit(items, slots, declared, extra, k);
    arch_laws::tensors_lie_on_the_canvas(items, slots, declared, extra, k);
    let c = blueprint::canvas(blueprint::plan_of(items, slots, declared, extra));
    let t = c.tensors[k];
    let tx = (t.x + col) / (TILE as int);
    let ty = (t.y + row) / (TILE as int);
    assert(tx * TILE <= t.x + col < (tx + 1) * TILE);
    assert(ty * TILE <= t.y + row < (ty + 1) * TILE);
    assert forall|ax: int, ay: int|
        #[trigger] tile::shows(t, ax, ay) && holds_element(
            tile::window(t, ax, ay),
            row,
            col,
        ) implies ax == tx && ay == ty by {
        assert(ax * TILE <= t.x + col < (ax + 1) * TILE);
        assert(ay * TILE <= t.y + row < (ay + 1) * TILE);
    }
}

} // verus!
