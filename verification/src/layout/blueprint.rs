//! What the architectural canvas looks like: where every tensor, every block
//! and the edges of the canvas lie.

use vstd::prelude::*;
use crate::format::dtype::Dtype;
use crate::format::types;
use crate::geometry;
use crate::hilbert3d;
use crate::layout::bin_pack;
use crate::layout::columns;
use crate::layout::hilbert;
use crate::layout::name_tree;
use crate::layout::sub_path;
use crate::order;
use crate::tensor_match;
use crate::text;

verus! {

/// The gutter between tensors inside a block, and between blocks.
pub open spec fn pad() -> int {
    8
}

/// The width beyond which a block is wrapped to another shelf.
pub open spec fn max_layer_width() -> int {
    65_536
}

/// A tensor to place: its source and where that source starts.
pub ghost struct Item {
    pub source: usize,
    pub tensor: types::Tensor,
    pub offset: u64,
}

/// A placed tensor.
pub ghost struct Placed {
    pub source: usize,
    pub id: int,
    pub name: Seq<char>,
    pub dtype: Dtype,
    pub start: int,
    pub rows: int,
    pub cols: int,
    pub x: int,
    pub y: int,
    pub hue: int,
    pub layer: Option<u32>,
}

/// The rectangle of a block.
pub ghost struct Bounds {
    pub layer: u32,
    pub x: int,
    pub y: int,
    pub width: int,
    pub height: int,
}

/// A number kept within 32 bits.
pub open spec fn clip(n: int) -> int {
    if n > u32::MAX {
        u32::MAX as int
    } else {
        n
    }
}

/// A difference that does not go below 0.
pub open spec fn sat_sub(a: int, b: int) -> int {
    if a > b {
        a - b
    } else {
        0
    }
}

/// `x` put into a strictly increasing list, unless it is there.
pub open spec fn with_id(ids: Seq<u32>, x: u32) -> Seq<u32>
    decreases ids.len(),
{
    if ids.len() == 0 {
        seq![x]
    } else if ids.last() < x {
        ids.push(x)
    } else if ids.last() == x {
        ids
    } else {
        with_id(ids.drop_last(), x).push(ids.last())
    }
}

/// The layer indices that occur, in order.
pub open spec fn observed(slots: Seq<name_tree::Place>) -> Seq<u32>
    decreases slots.len(),
{
    if slots.len() == 0 {
        seq![]
    } else {
        match slots.last() {
            name_tree::Place::Block { idx, sub_path: _ } => with_id(
                observed(slots.drop_last()),
                idx,
            ),
            _ => observed(slots.drop_last()),
        }
    }
}

/// The list with all indices below `n`.
pub open spec fn with_all_below(ids: Seq<u32>, n: nat) -> Seq<u32>
    decreases n,
{
    if n == 0 {
        ids
    } else {
        with_id(with_all_below(ids, (n - 1) as nat), (n - 1) as u32)
    }
}

/// The layers of the canvas: those that occur and, where more are declared than
/// the largest of them shows, all of the declared ones. Where fewer are
/// declared, those that occur are kept as they are.
pub open spec fn layers(slots: Seq<name_tree::Place>, declared: Option<u32>) -> Seq<u32> {
    let ids = observed(slots);
    match declared {
        Some(n) => if ids.len() > 0 && n > ids.last() {
            with_all_below(ids, n as nat)
        } else {
            ids
        },
        None => ids,
    }
}

/// The tensor that a layer holds under a sub-path; the last one where there
/// are several.
pub open spec fn holder(slots: Seq<name_tree::Place>, idx: u32, sub: Seq<char>) -> Option<int>
    decreases slots.len(),
{
    if slots.len() == 0 {
        None
    } else if slots.last() == (name_tree::Place::Block { idx, sub_path: sub }) {
        Some(slots.len() - 1)
    } else {
        holder(slots.drop_last(), idx, sub)
    }
}

/// The sub-paths that occur.
pub open spec fn block_subs(slots: Seq<name_tree::Place>) -> Seq<Seq<char>>
    decreases slots.len(),
{
    if slots.len() == 0 {
        seq![]
    } else {
        match slots.last() {
            name_tree::Place::Block { idx: _, sub_path } => block_subs(slots.drop_last()).push(
                sub_path,
            ),
            _ => block_subs(slots.drop_last()),
        }
    }
}

/// The sub-paths of every block, in the order in which it shows them: those
/// that occur and those that are known from elsewhere.
pub open spec fn canonical(slots: Seq<name_tree::Place>, extra: Seq<Seq<char>>) -> Seq<Seq<char>> {
    sub_path::sorted_sub_paths(tensor_match::distinct(block_subs(slots) + extra))
}

/// The largest width and height, at least 1, that any of the first `n` layers
/// holds under a sub-path.
pub open spec fn largest(
    items: Seq<Item>,
    slots: Seq<name_tree::Place>,
    ids: Seq<u32>,
    sub: Seq<char>,
    n: int,
) -> (int, int)
    decreases n,
{
    if n <= 0 {
        (1, 1)
    } else {
        let (w, h) = largest(items, slots, ids, sub, n - 1);
        match holder(slots, ids[n - 1], sub) {
            Some(i) => {
                let (rows, cols) = types::grid_of(items[i].tensor.shape);
                (columns::larger(w, cols), columns::larger(h, rows))
            },
            None => (w, h),
        }
    }
}

/// The room that a sub-path has in every block.
pub open spec fn room(
    items: Seq<Item>,
    slots: Seq<name_tree::Place>,
    ids: Seq<u32>,
    sub: Seq<char>,
) -> bin_pack::Slot {
    let (w, h) = largest(items, slots, ids, sub, ids.len() as int);
    bin_pack::Slot {
        width: bin_pack::aligned(clip(w), 16) as u32,
        height: bin_pack::aligned(clip(h), 16) as u32,
    }
}

/// The rooms of all sub-paths.
pub open spec fn rooms(
    items: Seq<Item>,
    slots: Seq<name_tree::Place>,
    ids: Seq<u32>,
    subs: Seq<Seq<char>>,
) -> Seq<bin_pack::Slot> {
    subs.map_values(|s: Seq<char>| room(items, slots, ids, s))
}

/// How the inside of every block is packed.
pub open spec fn packing(rs: Seq<bin_pack::Slot>) -> bin_pack::Shelves {
    bin_pack::shelves(rs, max_layer_width(), pad())
}

/// The width of the grid of blocks.
pub open spec fn blocks_width(cols: int, layer_w: int) -> int {
    if cols == 0 {
        0
    } else {
        bin_pack::sat_add(
            bin_pack::sat_mul(cols, layer_w),
            bin_pack::sat_mul(cols - 1, pad()),
        )
    }
}

/// The tensors outside all blocks.
pub open spec fn outside(slots: Seq<name_tree::Place>) -> Seq<int>
    decreases slots.len(),
{
    if slots.len() == 0 {
        seq![]
    } else if slots.last() is Block {
        outside(slots.drop_last())
    } else {
        outside(slots.drop_last()).push(slots.len() - 1)
    }
}

/// The tensors outside all blocks on one side of the model.
pub open spec fn on_side(items: Seq<Item>, ids: Seq<int>, input: bool) -> Seq<int>
    decreases ids.len(),
{
    if ids.len() == 0 {
        seq![]
    } else if sub_path::is_embedding(text::lowercase(items[ids.last()].tensor.name)) == input {
        on_side(items, ids.drop_last(), input).push(ids.last())
    } else {
        on_side(items, ids.drop_last(), input)
    }
}

/// The width of the widest tensor.
pub open spec fn widest(items: Seq<Item>, ids: Seq<int>) -> int
    decreases ids.len(),
{
    if ids.len() == 0 {
        0
    } else {
        columns::larger(
            widest(items, ids.drop_last()),
            clip(types::grid_of(items[ids.last()].tensor.shape).1),
        )
    }
}

/// The width of the content.
pub open spec fn content_width(items: Seq<Item>, ids: Seq<int>, grid_w: int) -> int {
    columns::larger(columns::larger(grid_w, widest(items, ids)), 1)
}

/// A tensor at a place.
pub open spec fn placed(
    it: Item,
    id: int,
    x: int,
    y: int,
    hue_name: Seq<char>,
    layer: Option<u32>,
) -> Placed {
    Placed {
        source: it.source,
        id,
        name: it.tensor.name,
        dtype: it.tensor.dtype,
        start: it.offset + it.tensor.start,
        rows: types::grid_of(it.tensor.shape).0,
        cols: types::grid_of(it.tensor.shape).1,
        x,
        y,
        hue: geometry::hue_of(hue_name),
        layer,
    }
}

/// Tensors below each other, centred, behind what is placed already; with the
/// row behind them.
pub open spec fn column(
    items: Seq<Item>,
    ids: Seq<int>,
    width: int,
    before: Seq<Placed>,
    y: int,
) -> (Seq<Placed>, int)
    decreases ids.len(),
{
    if ids.len() == 0 {
        (before, y)
    } else {
        let (ps, at) = column(items, ids.drop_last(), width, before, y);
        let it = items[ids.last()];
        let (rows, cols) = types::grid_of(it.tensor.shape);
        (
            ps.push(
                placed(
                    it,
                    ps.len() as int,
                    sat_sub(width, clip(cols)) / 2,
                    at,
                    it.tensor.name,
                    None,
                ),
            ),
            bin_pack::sat_add(bin_pack::sat_add(at, clip(rows)), pad()),
        )
    }
}

/// The geometry of the grid of blocks.
pub ghost struct Grid {
    pub cols: int,
    pub layer_w: int,
    pub layer_h: int,
    pub x: int,
    pub y: int,
}

/// Where the block at a position of the grid starts.
pub open spec fn block_x(g: Grid, pos: int) -> int {
    bin_pack::sat_add(
        g.x,
        bin_pack::sat_mul(pos % g.cols, bin_pack::sat_add(g.layer_w, pad())),
    )
}

/// Where the block at a position of the grid starts.
pub open spec fn block_y(g: Grid, pos: int) -> int {
    bin_pack::sat_add(
        g.y,
        bin_pack::sat_mul(pos / g.cols, bin_pack::sat_add(g.layer_h, pad())),
    )
}

/// What goes into a block: the tensors to choose from, the sub-paths and their
/// places.
pub ghost struct Plan {
    pub items: Seq<Item>,
    pub slots: Seq<name_tree::Place>,
    pub ids: Seq<u32>,
    pub subs: Seq<Seq<char>>,
    pub at: Seq<bin_pack::Placement>,
}

/// The first `k` sub-paths of a block, behind what is placed already.
pub open spec fn block(
    p: Plan,
    idx: u32,
    x: int,
    y: int,
    before: Seq<Placed>,
    k: int,
) -> Seq<Placed>
    decreases k,
{
    if k <= 0 {
        before
    } else {
        let ps = block(p, idx, x, y, before, k - 1);
        match holder(p.slots, idx, p.subs[k - 1]) {
            Some(i) => ps.push(
                placed(
                    p.items[i],
                    ps.len() as int,
                    bin_pack::sat_add(x, p.at[k - 1].x as int),
                    bin_pack::sat_add(y, p.at[k - 1].y as int),
                    p.subs[k - 1],
                    Some(idx),
                ),
            ),
            None => ps,
        }
    }
}

/// The first `n` blocks, behind what is placed already.
pub open spec fn blocks(p: Plan, g: Grid, before: Seq<Placed>, n: int) -> Seq<Placed>
    decreases n,
{
    if n <= 0 {
        before
    } else {
        block(
            p,
            p.ids[n - 1],
            block_x(g, n - 1),
            block_y(g, n - 1),
            blocks(p, g, before, n - 1),
            p.subs.len() as int,
        )
    }
}

/// The rectangles of the blocks.
pub open spec fn bounds(ids: Seq<u32>, g: Grid) -> Seq<Bounds> {
    Seq::new(
        ids.len(),
        |i: int|
            Bounds {
                layer: ids[i],
                x: block_x(g, i),
                y: block_y(g, i),
                width: g.layer_w,
                height: g.layer_h,
            },
    )
}

/// The row behind the grid.
pub open spec fn below_grid(n: int, g: Grid) -> int {
    if n == 0 {
        g.y
    } else {
        bin_pack::sat_add(
            g.y,
            bin_pack::sat_mul(
                columns::rows_for(n, g.cols),
                bin_pack::sat_add(g.layer_h, pad()),
            ),
        )
    }
}

/// How many tiles cover a length.
pub open spec fn tiles_for(len: int) -> int {
    (len + hilbert::TILE - 1) / (hilbert::TILE as int)
}

/// The binary logarithm of the next power of two.
pub open spec fn pow2_exponent(n: int) -> nat {
    hilbert::exponent_from(0, n)
}

/// By row, then by column.
pub open spec fn above(a: Placed, b: Placed) -> bool {
    a.y < b.y || (a.y == b.y && a.x <= b.x)
}

/// The placed tensors by row, then by column.
pub open spec fn reading_order(ps: Seq<Placed>) -> Seq<int> {
    order::stable_sort(Seq::new(ps.len(), |i: int| i), |a: int, b: int| above(ps[a], ps[b]))
}

/// The whole canvas.
pub ghost struct Canvas {
    /// The size in pixels.
    pub width: int,
    pub height: int,
    pub width_tiles: int,
    pub height_tiles: int,
    pub total_tiles: int,
    pub max_zoom: int,
    pub tensors: Seq<Placed>,
    pub bounds: Seq<Bounds>,
    pub order: Seq<int>,
    /// What is said of the architecture; empty where nothing is known of it.
    pub architecture: Seq<char>,
}

/// What the canvas is drawn from, block by block.
pub open spec fn plan_of(
    items: Seq<Item>,
    slots: Seq<name_tree::Place>,
    declared: Option<u32>,
    extra: Seq<Seq<char>>,
) -> Plan {
    let ids = layers(slots, declared);
    let subs = canonical(slots, extra);
    Plan { items, slots, ids, subs, at: packing(rooms(items, slots, ids, subs)).at }
}

/// The grid of blocks on the canvas, below the input side.
pub open spec fn grid_on(p: Plan, y: int) -> Grid {
    let (layer_w, layer_h) = bin_pack::extent(packing(rooms(p.items, p.slots, p.ids, p.subs)));
    let cols = columns::column_count(p.ids.len() as int, layer_w, layer_h, pad());
    let grid_w = blocks_width(cols, layer_w);
    Grid {
        cols,
        layer_w,
        layer_h,
        x: sat_sub(content_width(p.items, outside(p.slots), grid_w), grid_w) / 2,
        y,
    }
}

/// The tensors and the row behind them: the input side, the blocks, the output
/// side.
pub open spec fn drawn(p: Plan) -> (Seq<Placed>, Grid, int) {
    let tops = outside(p.slots);
    let g0 = grid_on(p, 0);
    let width = content_width(p.items, tops, blocks_width(g0.cols, g0.layer_w));
    let (ins, y) = column(p.items, on_side(p.items, tops, true), width, seq![], 0);
    let g = grid_on(p, y);
    let n = p.ids.len() as int;
    let mid = blocks(p, g, ins, n);
    let (all, end) = column(
        p.items,
        on_side(p.items, tops, false),
        width,
        mid,
        below_grid(n, g),
    );
    (all, g, end)
}

/// The canvas of a plan. Both tile counts are powers of two, so that the tile
/// pyramid halves cleanly down to a single row or column.
pub open spec fn canvas(p: Plan) -> Canvas {
    let (tensors, g, end) = drawn(p);
    let width = content_width(p.items, outside(p.slots), blocks_width(g.cols, g.layer_w));
    let ew = pow2_exponent(tiles_for(width));
    let eh = pow2_exponent(tiles_for(columns::larger(sat_sub(end, pad()), 1)));
    let width_tiles: int = hilbert3d::pow2(ew);
    let height_tiles: int = hilbert3d::pow2(eh);
    Canvas {
        width: width_tiles * hilbert::TILE,
        height: height_tiles * hilbert::TILE,
        width_tiles,
        height_tiles,
        total_tiles: width_tiles * height_tiles,
        max_zoom: if ew <= eh {
            ew as int
        } else {
            eh as int
        },
        tensors,
        bounds: bounds(p.ids, g),
        order: reading_order(tensors),
        architecture: seq![],
    }
}

/// The canvas of a plan whose architecture is known.
pub open spec fn captioned(p: Plan, architecture: Seq<char>) -> Canvas {
    Canvas { architecture, ..canvas(p) }
}

} // verus!
