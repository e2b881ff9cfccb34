//! Which elements of which tensors a tile shows.

use vstd::prelude::*;
use crate::format::dtype::Dtype;
use crate::hilbert3d;
use crate::layout::arch;
use crate::layout::arch::{ArchLayout, PAD};
use crate::layout::bin_pack;
use crate::layout::blueprint;
use crate::layout::hilbert;
use crate::layout::hilbert::TILE;
use crate::order;

verus! {

/// One contiguous (row-major) element range of one tensor that overlaps a
/// tile. The tile renderer fetches the bytes from the source and decodes
/// elements at the natural dtype stride.
///
/// At the canvas's own zoom level every element is one pixel, so the display
/// footprint of a tensor is its element grid, and the first painted pixel lies
/// at the offset of the first overlapping element.
#[derive(Debug, Clone, Copy)]
pub struct TileRegion {
    /// Index into the source list this region's bytes come from.
    pub source_idx: usize,
    /// Index into the global tensor list (across all sources, in canvas order).
    pub tensor_id: usize,
    pub dtype: Dtype,
    /// Tensor row × col element-grid dimensions, as `TensorMeta::element_shape`.
    pub tensor_rows: u64,
    pub tensor_cols: u64,
    /// First/last row of the tensor element grid that overlap this tile.
    pub row_first: u64,
    pub row_last_exclusive: u64,
    /// First/last column of the tensor element grid that overlap this tile.
    pub col_first: u64,
    pub col_last_exclusive: u64,
    /// Byte offset within the source where this tensor's element data starts.
    pub tensor_byte_start: u64,
    /// Display footprint of the whole tensor, in pixels.
    pub footprint_w: u64,
    pub footprint_h: u64,
    /// Display-pixel offset, within the tensor's footprint, of the first
    /// painted pixel (`tile_x0`/`tile_y0`).
    pub samp_x0: u64,
    pub samp_y0: u64,
    /// Canvas pixel rectangle this region paints into, in *tile-local* (px, py)
    /// coordinates `[x0, x1) × [y0, y1)`.
    pub tile_x0: u32,
    pub tile_y0: u32,
    pub tile_x1: u32,
    pub tile_y1: u32,
}

/// What a region stands for.
pub ghost struct Window {
    pub tensor: blueprint::Placed,
    /// The first and last shown row and column of the tensor.
    pub row_first: int,
    pub row_end: int,
    pub col_first: int,
    pub col_end: int,
    /// Where they are painted, within the tile.
    pub x0: int,
    pub y0: int,
    pub x1: int,
    pub y1: int,
}

/// The right edge of a tensor.
pub open spec fn right(t: blueprint::Placed) -> int {
    bin_pack::sat_add(t.x, blueprint::clip(t.cols))
}

/// The lower edge of a tensor.
pub open spec fn bottom(t: blueprint::Placed) -> int {
    bin_pack::sat_add(t.y, blueprint::clip(t.rows))
}

/// The tensor has a pixel in the tile at `(tx, ty)`.
pub open spec fn shows(t: blueprint::Placed, tx: int, ty: int) -> bool {
    &&& t.x < (tx + 1) * TILE
    &&& right(t) > tx * TILE
    &&& t.y < (ty + 1) * TILE
    &&& bottom(t) > ty * TILE
}

/// The smaller of two numbers.
pub open spec fn least(a: int, b: int) -> int {
    if a <= b {
        a
    } else {
        b
    }
}

/// The larger of two numbers.
pub open spec fn most(a: int, b: int) -> int {
    if a >= b {
        a
    } else {
        b
    }
}

/// The part of a tensor that the tile at `(tx, ty)` shows.
pub open spec fn window(t: blueprint::Placed, tx: int, ty: int) -> Window {
    let x0 = most(t.x, tx * TILE);
    let y0 = most(t.y, ty * TILE);
    let x1 = least(right(t), (tx + 1) * TILE);
    let y1 = least(bottom(t), (ty + 1) * TILE);
    Window {
        tensor: t,
        row_first: y0 - t.y,
        row_end: y1 - t.y,
        col_first: x0 - t.x,
        col_end: x1 - t.x,
        x0: x0 - tx * TILE,
        y0: y0 - ty * TILE,
        x1: x1 - tx * TILE,
        y1: y1 - ty * TILE,
    }
}

/// The region denotes the window.
pub open spec fn denotes(r: TileRegion, w: Window) -> bool {
    &&& r.source_idx == w.tensor.source
    &&& r.tensor_id == w.tensor.id
    &&& r.dtype == w.tensor.dtype
    &&& r.tensor_rows == w.tensor.rows
    &&& r.tensor_cols == w.tensor.cols
    &&& r.tensor_byte_start == w.tensor.start
    &&& r.footprint_w == w.tensor.cols
    &&& r.footprint_h == w.tensor.rows
    &&& r.row_first == w.row_first
    &&& r.row_last_exclusive == w.row_end
    &&& r.col_first == w.col_first
    &&& r.col_last_exclusive == w.col_end
    &&& r.samp_x0 == w.col_first
    &&& r.samp_y0 == w.row_first
    &&& r.tile_x0 == w.x0
    &&& r.tile_y0 == w.y0
    &&& r.tile_x1 == w.x1
    &&& r.tile_y1 == w.y1
}

/// The regions denote the windows, one by one.
pub open spec fn all_denote(rs: Seq<TileRegion>, ws: Seq<Window>) -> bool {
    rs.len() == ws.len() && forall|i: int|
        0 <= i < rs.len() ==> denotes(#[trigger] rs[i], ws[i])
}

/// What the tile shows of the first `n` tensors in the given order.
pub open spec fn windows(
    ps: Seq<blueprint::Placed>,
    ids: Seq<int>,
    tx: int,
    ty: int,
    n: int,
) -> Seq<Window>
    decreases n,
{
    if n <= 0 {
        seq![]
    } else {
        let before = windows(ps, ids, tx, ty, n - 1);
        if shows(ps[ids[n - 1]], tx, ty) {
            before.push(window(ps[ids[n - 1]], tx, ty))
        } else {
            before
        }
    }
}

proof fn lemma_order(ps: Seq<blueprint::Placed>)
    ensures
        ({
            let ids = blueprint::reading_order(ps);
            &&& ids.len() == ps.len()
            &&& forall|i: int| 0 <= i < ids.len() ==> 0 <= #[trigger] ids[i] < ps.len()
            &&& forall|i: int, j: int|
                0 <= i < j < ids.len() ==> ps[#[trigger] ids[i]].y <= ps[#[trigger] ids[j]].y
        }),
{
    let all = Seq::new(ps.len(), |i: int| i);
    let le = |a: int, b: int| blueprint::above(ps[a], ps[b]);
    let ids = blueprint::reading_order(ps);
    order::stable_sort_permutes(all, le);
    assert(order::is_total(le));
    order::stable_sort_sorts(all, le);
    ids.to_multiset_ensures();
    all.to_multiset_ensures();
    assert forall|i: int| 0 <= i < ids.len() implies 0 <= #[trigger] ids[i] < ps.len() by {
        assert(ids.contains(ids[i]));
        assert(ids.to_multiset().count(ids[i]) > 0);
        assert(all.contains(ids[i]));
    }
    assert forall|i: int, j: int| 0 <= i < j < ids.len() implies ps[#[trigger] ids[i]].y
        <= ps[#[trigger] ids[j]].y by {
        assert(le(ids[i], ids[j]));
    }
}

proof fn lemma_rest_hidden(
    ps: Seq<blueprint::Placed>,
    ids: Seq<int>,
    tx: int,
    ty: int,
    i: int,
    n: int,
)
    requires
        0 <= i <= n <= ids.len(),
        forall|k: int| i <= k < n ==> ps[#[trigger] ids[k]].y >= (ty + 1) * TILE,
    ensures
        windows(ps, ids, tx, ty, n) == windows(ps, ids, tx, ty, i),
    decreases n - i,
{
    if i < n {
        assert(ps[ids[n - 1]].y >= (ty + 1) * TILE);
        lemma_rest_hidden(ps, ids, tx, ty, i, n - 1);
    }
}

impl ArchLayout {
    /// The tensors are listed by row, then by column.
    pub open spec fn wf(&self) -> bool {
        self@.order == blueprint::reading_order(self@.tensors)
    }

    /// All tensor regions that overlap the tile at `(tx, ty)`.
    ///
    /// A scan over the tensors by row that ends where a tensor's top edge is
    /// past the tile's lower edge.
    pub fn regions_in_tile(&self, tx: u32, ty: u32) -> (r: Vec<TileRegion>)
        requires
            self.wf(),
            (tx + 1) * TILE <= u32::MAX,
            (ty + 1) * TILE <= u32::MAX,
        ensures
            all_denote(
                r@,
                windows(
                    self@.tensors,
                    self@.order,
                    tx as int,
                    ty as int,
                    self@.order.len() as int,
                ),
            ),
    {
        let tile_x0: u32 = tx * TILE;
        let tile_y0: u32 = ty * TILE;
        let tile_x1: u32 = tile_x0 + TILE;
        let tile_y1: u32 = tile_y0 + TILE;
        let ghost ps = self@.tensors;
        let ghost ids = self@.order;
        proof {
            lemma_order(ps);
        }
        let mut out: Vec<TileRegion> = Vec::new();
        let mut i: usize = 0;
        while i < self.sorted_idx.len()
            invariant
                i <= self.sorted_idx@.len(),
                ps == arch::placements(self.tensors@),
                ids == arch::indices(self.sorted_idx@),
                ids.len() == self.sorted_idx@.len(),
                ps.len() == self.tensors@.len(),
                forall|k: int| 0 <= k < ids.len() ==> 0 <= #[trigger] ids[k] < ps.len(),
                forall|k: int, j: int|
                    0 <= k < j < ids.len() ==> ps[#[trigger] ids[k]].y <= ps[#[trigger] ids[j]].y,
                tile_x0 == tx * TILE,
                tile_y0 == ty * TILE,
                tile_x1 == tile_x0 + TILE,
                tile_y1 == tile_y0 + TILE,
                all_denote(out@, windows(ps, ids, tx as int, ty as int, i as int)),
            decreases self.sorted_idx@.len() - i,
        {
            let k: usize = self.sorted_idx[i];
            assert(ids[i as int] == k);
            let t = &self.tensors[k];
            assert(ps[k as int] == t@);
            let x1: u32 = edge(t.canvas_x, t.tensor_cols);
            let y1: u32 = edge(t.canvas_y, t.tensor_rows);
            if t.canvas_y >= tile_y1 {
                proof {
                    assert forall|j: int| i <= j < ids.len() implies ps[#[trigger] ids[j]].y >= (ty
                        + 1) * TILE by {
                        if j > i {
                            assert(ps[ids[i as int]].y <= ps[ids[j]].y);
                        }
                    }
                    lemma_rest_hidden(
                        ps,
                        ids,
                        tx as int,
                        ty as int,
                        i as int,
                        ids.len() as int,
                    );
                }
                return out;
            }
            if t.canvas_x < tile_x1 && x1 > tile_x0 && y1 > tile_y0 {
                let ix0: u32 = max_of(t.canvas_x, tile_x0);
                let iy0: u32 = max_of(t.canvas_y, tile_y0);
                let ix1: u32 = min_of(x1, tile_x1);
                let iy1: u32 = min_of(y1, tile_y1);
                let col_first: u64 = (ix0 - t.canvas_x) as u64;
                let row_first: u64 = (iy0 - t.canvas_y) as u64;
                out.push(
                    TileRegion {
                        source_idx: t.source_idx,
                        tensor_id: t.tensor_id,
                        dtype: t.dtype,
                        tensor_rows: t.tensor_rows,
                        tensor_cols: t.tensor_cols,
                        row_first,
                        row_last_exclusive: (iy1 - t.canvas_y) as u64,
                        col_first,
                        col_last_exclusive: (ix1 - t.canvas_x) as u64,
                        tensor_byte_start: t.tensor_byte_start,
                        footprint_w: t.tensor_cols,
                        footprint_h: t.tensor_rows,
                        samp_x0: col_first,
                        samp_y0: row_first,
                        tile_x0: ix0 - tile_x0,
                        tile_y0: iy0 - tile_y0,
                        tile_x1: ix1 - tile_x0,
                        tile_y1: iy1 - tile_y0,
                    },
                );
            }
            i = i + 1;
        }
        out
    }
}

/// Where a stretch ends, kept within 32 bits.
fn edge(start: u32, len: u64) -> (r: u32)
    ensures
        r == bin_pack::sat_add(start as int, blueprint::clip(len as int)),
{
    let n: u32 = if len > u32::MAX as u64 {
        u32::MAX
    } else {
        len as u32
    };
    match start.checked_add(n) {
        Some(e) => e,
        None => u32::MAX,
    }
}

fn max_of(a: u32, b: u32) -> (r: u32)
    ensures
        r == most(a as int, b as int),
{
    if a >= b {
        a
    } else {
        b
    }
}

fn min_of(a: u32, b: u32) -> (r: u32)
    ensures
        r == least(a as int, b as int),
{
    if a <= b {
        a
    } else {
        b
    }
}

/// A pixel of a tile lies in the window of a tensor exactly where its place on
/// the canvas lies in the tensor's rectangle; the element that it shows is the
/// one at that place.
pub proof fn window_shows_tensor_pixels(t: blueprint::Placed, tx: int, ty: int, px: int, py: int)
    requires
        0 <= px < TILE,
        0 <= py < TILE,
    ensures
        ({
            let w = window(t, tx, ty);
            let x = tx * TILE + px;
            let y = ty * TILE + py;
            &&& (w.x0 <= px < w.x1 && w.y0 <= py < w.y1) <==> (t.x <= x < right(t) && t.y <= y
                < bottom(t))
            &&& w.col_first + (px - w.x0) == x - t.x
            &&& w.row_first + (py - w.y0) == y - t.y
        }),
{
}

/// A tile shows a tensor exactly where they have a pixel in common, and a
/// window lies within its tile.
pub proof fn shown_tensors_have_pixels(t: blueprint::Placed, tx: int, ty: int)
    requires
        t.x < right(t),
        t.y < bottom(t),
    ensures
        shows(t, tx, ty) <==> {
            let w = window(t, tx, ty);
            w.x0 < w.x1 && w.y0 < w.y1
        },
        shows(t, tx, ty) ==> {
            let w = window(t, tx, ty);
            0 <= w.x0 < w.x1 <= TILE && 0 <= w.y0 < w.y1 <= TILE
        },
{
}

/// The tile counts of a canvas are powers of two that the pyramid halves
/// `max_zoom` times without remainder, down to a single row or column.
pub proof fn canvas_halves_to_one_row(p: blueprint::Plan)
    ensures
        ({
            let c = blueprint::canvas(p);
            let step = hilbert3d::pow2(c.max_zoom as nat);
            &&& c.max_zoom >= 0
            &&& exists|e: nat| c.width_tiles == #[trigger] hilbert3d::pow2(e)
            &&& exists|e: nat| c.height_tiles == #[trigger] hilbert3d::pow2(e)
            &&& c.width_tiles % step == 0
            &&& c.height_tiles % step == 0
            &&& c.width_tiles / step == 1 || c.height_tiles / step == 1
        }),
{
    let (tensors, g, end) = blueprint::drawn(p);
    let width = blueprint::content_width(
        p.items,
        blueprint::outside(p.slots),
        blueprint::blocks_width(g.cols, g.layer_w),
    );
    let ew = blueprint::pow2_exponent(blueprint::tiles_for(width));
    let eh = blueprint::pow2_exponent(
        blueprint::tiles_for(
            crate::layout::columns::larger(blueprint::sat_sub(end, blueprint::pad()), 1),
        ),
    );
    let m = if ew <= eh {
        ew
    } else {
        eh
    };
    hilbert::lemma_pow2_add(m, (ew - m) as nat);
    hilbert::lemma_pow2_add(m, (eh - m) as nat);
    let s = hilbert3d::pow2(m);
    assert(s / s == 1) by (nonlinear_arith)
        requires
            s >= 1,
    ;
    lemma_multiple(s, hilbert3d::pow2((ew - m) as nat));
    lemma_multiple(s, hilbert3d::pow2((eh - m) as nat));
}

proof fn lemma_multiple(s: int, k: int)
    requires
        s >= 1,
    ensures
        (s * k) % s == 0,
{
    assert((s * k) % s == 0) by (nonlinear_arith)
        requires
            s >= 1,
    ;
}

/// Blocks of one column stand exactly below each other, one block and gutter
/// apart, as long as the canvas stays within 32 bits.
pub proof fn column_blocks_are_aligned(g: blueprint::Grid, pos: int)
    requires
        g.cols > 0,
        pos >= 0,
        g.layer_h >= 0,
        g.y >= 0,
        g.y + (pos / g.cols + 1) * (g.layer_h + blueprint::pad()) <= u32::MAX,
    ensures
        blueprint::block_x(g, pos + g.cols) == blueprint::block_x(g, pos),
        blueprint::block_y(g, pos + g.cols) == blueprint::block_y(g, pos) + g.layer_h
            + blueprint::pad(),
{
    let c = g.cols;
    let h = g.layer_h + blueprint::pad();
    let q = pos / c;
    assert((pos + c) % c == pos % c && (pos + c) / c == q + 1) by (nonlinear_arith)
        requires
            c > 0,
            q == pos / c,
    ;
    assert(q >= 0) by (nonlinear_arith)
        requires
            q == pos / c,
            pos >= 0,
            c > 0,
    ;
    assert((q + 1) * h == q * h + h) by (nonlinear_arith);
    assert(q * h >= 0 && h <= (q + 1) * h) by (nonlinear_arith)
        requires
            q >= 0,
            h >= 0,
    ;
}

} // verus!
