//! Architectural (structure-aware) layout for safetensors checkpoints.
//!
//! Every tensor is placed at its natural 2D element shape, 1 pixel per
//! element. Transformer blocks (`{prefix}.layers.{N}.{sub_path}`) share a
//! single canonical arrangement: each block draws every sub-tensor in the
//! same relative position. Blocks are arranged in a grid of columns chosen to
//! keep the overall canvas near-square; within a column, consecutive layers
//! stay pixel-aligned column-for-column. Top-level tensors (embed_tokens,
//! lm_head, norms) sit above and below the block grid, centred horizontally.

use vstd::prelude::*;
use vstd::string::StringExecFns;
use crate::format::dtype::Dtype;
use crate::format::types;
use crate::format::types::TensorMeta;
use crate::geometry::name_hue;
use crate::hilbert3d;
use crate::layout::bin_pack;
use crate::layout::bin_pack::{align_up, pack, Placement, Slot};
use crate::layout::blueprint;
use crate::layout::columns;
use crate::layout::columns::pick_column_count;
use crate::layout::hilbert;
use crate::layout::hilbert::TILE;
use crate::layout::name_tree;
use crate::layout::name_tree::LayerSlot;
use crate::layout::sub_path;
use crate::layout::sub_path::{is_input_side_name, sort_sub_paths};
use crate::order;
use crate::order::sort_by;
use crate::tensor_match;
use crate::tensor_match::distinct_names;
use crate::text;
use crate::text::str_eq;

verus! {

/// 8-px gutter between tensor slots inside a layer and between layer rows.
/// Keeps boundaries visually distinct without dominating the canvas.
pub const PAD: u32 = 8;

/// Maximum canvas width before bin-packing wraps a layer to a new shelf.
/// Sized to comfortably fit a llama-style block (concatenated q/k/v/o/MLP)
/// in one row while still pushing wider blocks to multi-line layouts.
pub const MAX_LAYER_WIDTH: u32 = 65_536;

/// A tensor to place: its source and where that source starts.
#[derive(Debug)]
pub struct ArchInput {
    pub source_idx: usize,
    pub meta: TensorMeta,
    pub offset: u64,
}

impl View for ArchInput {
    type V = blueprint::Item;

    open spec fn view(&self) -> blueprint::Item {
        blueprint::Item { source: self.source_idx, tensor: self.meta@, offset: self.offset }
    }
}

/// What the tensors to place stand for.
pub open spec fn items(v: Seq<ArchInput>) -> Seq<blueprint::Item> {
    v.map_values(|t: ArchInput| t@)
}

/// One placed tensor in the architectural canvas.
#[derive(Debug)]
pub struct PlacedTensor {
    pub source_idx: usize,
    pub tensor_id: usize,
    pub name: String,
    pub dtype: Dtype,
    pub tensor_byte_start: u64,
    /// `element_shape` = (rows, cols).
    pub tensor_rows: u64,
    pub tensor_cols: u64,
    /// Top-left of the tensor's element-pixel rectangle on the canvas.
    pub canvas_x: u32,
    pub canvas_y: u32,
    /// Hue used for entity labelling.
    pub hue: u16,
    /// Stable id of the layer this tensor belongs to: `None` for top-level
    /// singletons; `Some(layer_idx)` for transformer-block tensors.
    pub layer_idx: Option<u32>,
}

impl View for PlacedTensor {
    type V = blueprint::Placed;

    open spec fn view(&self) -> blueprint::Placed {
        blueprint::Placed {
            source: self.source_idx,
            id: self.tensor_id as int,
            name: self.name@,
            dtype: self.dtype,
            start: self.tensor_byte_start as int,
            rows: self.tensor_rows as int,
            cols: self.tensor_cols as int,
            x: self.canvas_x as int,
            y: self.canvas_y as int,
            hue: self.hue as int,
            layer: self.layer_idx,
        }
    }
}

/// What the placed tensors stand for.
pub open spec fn placements(v: Seq<PlacedTensor>) -> Seq<blueprint::Placed> {
    v.map_values(|t: PlacedTensor| t@)
}

/// One transformer block's bounding rectangle on the canvas. Drawn as a
/// single layer-granularity overlay polygon.
#[derive(Debug)]
pub struct LayerBounds {
    pub layer_idx: u32,
    pub canvas_x: u32,
    pub canvas_y: u32,
    pub width: u32,
    pub height: u32,
}

impl View for LayerBounds {
    type V = blueprint::Bounds;

    open spec fn view(&self) -> blueprint::Bounds {
        blueprint::Bounds {
            layer: self.layer_idx,
            x: self.canvas_x as int,
            y: self.canvas_y as int,
            width: self.width as int,
            height: self.height as int,
        }
    }
}

/// The rectangles of the blocks.
pub open spec fn block_bounds(v: Seq<LayerBounds>) -> Seq<blueprint::Bounds> {
    v.map_values(|b: LayerBounds| b@)
}

#[derive(Debug)]
pub struct ArchLayout {
    pub width: u64,
    pub height: u64,
    pub width_tiles: u32,
    pub height_tiles: u32,
    pub total_tiles: u64,
    pub max_zoom: u32,
    pub tensors: Vec<PlacedTensor>,
    pub layer_bounds: Vec<LayerBounds>,
    /// Architecture description from any `config.json` we found
    /// (e.g. `"LlamaForCausalLM (32 layers, hidden=4096)"`). Empty when no
    /// sidecar config was loaded.
    pub architecture: String,
    /// Tensor placements sorted by canvas_y then canvas_x.
    pub sorted_idx: Vec<usize>,
}

/// The indices of a list.
pub open spec fn indices(v: Seq<usize>) -> Seq<int> {
    v.map_values(|i: usize| i as int)
}

impl View for ArchLayout {
    type V = blueprint::Canvas;

    open spec fn view(&self) -> blueprint::Canvas {
        blueprint::Canvas {
            width: self.width as int,
            height: self.height as int,
            width_tiles: self.width_tiles as int,
            height_tiles: self.height_tiles as int,
            total_tiles: self.total_tiles as int,
            max_zoom: self.max_zoom as int,
            tensors: placements(self.tensors@),
            bounds: block_bounds(self.layer_bounds@),
            order: indices(self.sorted_idx@),
            architecture: self.architecture@,
        }
    }
}

/// Every position and size of the tensors fits the machine's numbers.
pub open spec fn items_fit(v: Seq<blueprint::Item>) -> bool {
    forall|i: int|
        0 <= i < v.len() ==> (#[trigger] v[i]).offset + v[i].tensor.start <= u64::MAX
            && (v[i].tensor.shape.len() > 2 ==> types::product_fits(v[i].tensor.shape.skip(1)))
}

fn clip(n: u64) -> (r: u32)
    ensures
        r == blueprint::clip(n as int),
{
    if n > u32::MAX as u64 {
        u32::MAX
    } else {
        n as u32
    }
}

fn plus(a: u32, b: u32) -> (r: u32)
    ensures
        r == bin_pack::sat_add(a as int, b as int),
{
    match a.checked_add(b) {
        Some(c) => c,
        None => u32::MAX,
    }
}

fn times(a: u32, b: u32) -> (r: u32)
    ensures
        r == bin_pack::sat_mul(a as int, b as int),
{
    match a.checked_mul(b) {
        Some(c) => c,
        None => u32::MAX,
    }
}

fn minus(a: u32, b: u32) -> (r: u32)
    ensures
        r == blueprint::sat_sub(a as int, b as int),
{
    if a > b {
        a - b
    } else {
        0
    }
}

/// Puts an index into a strictly increasing list, unless it is there.
fn add_id(ids: &mut Vec<u32>, x: u32)
    ensures
        final(ids)@ == blueprint::with_id(old(ids)@, x),
{
    let ghost was = ids@;
    let mut i: usize = ids.len();
    assert(was.take(i as int) =~= was);
    assert(was.skip(i as int) =~= seq![]);
    assert(blueprint::with_id(was, x) =~= blueprint::with_id(was.take(i as int), x) + was.skip(
        i as int,
    ));
    while i > 0 && ids[i - 1] > x
        invariant
            i <= ids@.len(),
            ids@ == was,
            blueprint::with_id(was, x) == blueprint::with_id(was.take(i as int), x) + was.skip(
                i as int,
            ),
        decreases i,
    {
        proof {
            let t = was.take(i as int);
            assert(t.drop_last() =~= was.take(i - 1));
            assert(t.last() == was[i - 1]);
            assert(blueprint::with_id(t, x) == blueprint::with_id(was.take(i - 1), x).push(
                was[i - 1],
            ));
            assert(blueprint::with_id(was.take(i - 1), x).push(was[i - 1]) + was.skip(i as int)
                =~= blueprint::with_id(was.take(i - 1), x) + was.skip(i - 1));
        }
        i = i - 1;
    }
    if i > 0 && ids[i - 1] == x {
        assert(blueprint::with_id(was.take(i as int), x) == was.take(i as int));
        assert(was.take(i as int) + was.skip(i as int) =~= was);
        return;
    }
    assert(blueprint::with_id(was.take(i as int), x) =~= was.take(i as int).push(x));
    ids.insert(i, x);
    assert(ids@ =~= was.take(i as int).push(x) + was.skip(i as int));
}

/// The layers of the canvas.
fn layer_ids(slots: &Vec<LayerSlot>, declared: Option<u32>) -> (r: Vec<u32>)
    ensures
        r@ == blueprint::layers(name_tree::places(slots@), declared),
{
    let ghost ps = name_tree::places(slots@);
    let mut ids: Vec<u32> = Vec::new();
    let mut i: usize = 0;
    assert(ps.take(0) =~= seq![]);
    while i < slots.len()
        invariant
            i <= slots@.len(),
            ps == name_tree::places(slots@),
            ids@ == blueprint::observed(ps.take(i as int)),
        decreases slots@.len() - i,
    {
        assert(ps.take(i + 1).drop_last() =~= ps.take(i as int));
        assert(ps.take(i + 1).last() == slots@[i as int]@);
        if let LayerSlot::Block { idx, .. } = &slots[i] {
            add_id(&mut ids, *idx);
        }
        i = i + 1;
    }
    assert(ps.take(i as int) =~= ps);
    if let Some(n) = declared {
        if ids.len() > 0 && n > ids[ids.len() - 1] {
            let ghost seen = ids@;
            let mut k: u32 = 0;
            while k < n
                invariant
                    k <= n,
                    ids@ == blueprint::with_all_below(seen, k as nat),
                decreases n - k,
            {
                add_id(&mut ids, k);
                k = k + 1;
            }
        }
    }
    ids
}

proof fn lemma_with_id_len(ids: Seq<u32>, x: u32)
    ensures
        blueprint::with_id(ids, x).len() <= ids.len() + 1,
    decreases ids.len(),
{
    if ids.len() > 0 && ids.last() > x {
        lemma_with_id_len(ids.drop_last(), x);
    }
}

proof fn lemma_observed_len(slots: Seq<name_tree::Place>)
    ensures
        blueprint::observed(slots).len() <= slots.len(),
    decreases slots.len(),
{
    if slots.len() > 0 {
        lemma_observed_len(slots.drop_last());
        if let name_tree::Place::Block { idx, sub_path: _ } = slots.last() {
            lemma_with_id_len(blueprint::observed(slots.drop_last()), idx);
        }
    }
}

proof fn lemma_with_all_below_len(ids: Seq<u32>, n: nat)
    ensures
        blueprint::with_all_below(ids, n).len() <= ids.len() + n,
    decreases n,
{
    if n > 0 {
        lemma_with_all_below_len(ids, (n - 1) as nat);
        lemma_with_id_len(blueprint::with_all_below(ids, (n - 1) as nat), (n - 1) as u32);
    }
}

/// There are no more layers than tensors and declared layers together.
pub(crate) proof fn lemma_layers_len(slots: Seq<name_tree::Place>, declared: Option<u32>)
    ensures
        blueprint::layers(slots, declared).len() <= slots.len() + (match declared {
            Some(n) => n as int,
            None => 0,
        }),
{
    lemma_observed_len(slots);
    if let Some(n) = declared {
        lemma_with_all_below_len(blueprint::observed(slots), n as nat);
    }
}

/// The tensor that a layer holds under a sub-path.
fn find_holder(slots: &Vec<LayerSlot>, idx: u32, sub: &str) -> (r: Option<usize>)
    ensures
        match r {
            Some(i) => i < slots@.len() && blueprint::holder(
                name_tree::places(slots@),
                idx,
                sub@,
            ) == Some(i as int),
            None => blueprint::holder(name_tree::places(slots@), idx, sub@) is None,
        },
{
    let ghost ps = name_tree::places(slots@);
    let mut i: usize = slots.len();
    assert(ps.take(i as int) =~= ps);
    while i > 0
        invariant
            i <= slots@.len(),
            ps == name_tree::places(slots@),
            blueprint::holder(ps.take(i as int), idx, sub@) == blueprint::holder(ps, idx, sub@),
        decreases i,
    {
        assert(ps.take(i as int).last() == slots@[i - 1]@);
        assert(ps.take(i as int).drop_last() =~= ps.take(i - 1));
        if let LayerSlot::Block { idx: k, sub_path } = &slots[i - 1] {
            if *k == idx && str_eq(sub_path.as_str(), sub) {
                return Some(i - 1);
            }
        }
        i = i - 1;
    }
    None
}

/// The sub-paths of every block, in order.
fn canonical_sub_paths(slots: &Vec<LayerSlot>, extra: &Vec<String>) -> (r: Vec<String>)
    ensures
        order::texts(r@) == blueprint::canonical(
            name_tree::places(slots@),
            order::texts(extra@),
        ),
{
    let ghost ps = name_tree::places(slots@);
    let mut all: Vec<String> = Vec::new();
    let mut i: usize = 0;
    assert(ps.take(0) =~= seq![]);
    assert(order::texts(all@) =~= seq![]);
    while i < slots.len()
        invariant
            i <= slots@.len(),
            ps == name_tree::places(slots@),
            order::texts(all@) == blueprint::block_subs(ps.take(i as int)),
        decreases slots@.len() - i,
    {
        assert(ps.take(i + 1).drop_last() =~= ps.take(i as int));
        assert(ps.take(i + 1).last() == slots@[i as int]@);
        if let LayerSlot::Block { sub_path, .. } = &slots[i] {
            let ghost was = order::texts(all@);
            all.push(sub_path.clone());
            assert(order::texts(all@) =~= was.push(sub_path@));
        }
        i = i + 1;
    }
    assert(ps.take(i as int) =~= ps);
    let ghost subs = order::texts(all@);
    let mut j: usize = 0;
    assert(subs + order::texts(extra@).take(0) =~= subs);
    while j < extra.len()
        invariant
            j <= extra@.len(),
            order::texts(all@) == subs + order::texts(extra@).take(j as int),
        decreases extra@.len() - j,
    {
        let ghost was = order::texts(all@);
        all.push(extra[j].clone());
        assert(order::texts(all@) =~= was.push(extra@[j as int]@));
        assert(order::texts(all@) =~= subs + order::texts(extra@).take(j + 1));
        j = j + 1;
    }
    assert(order::texts(extra@).take(j as int) =~= order::texts(extra@));
    sort_sub_paths(distinct_names(&all))
}

fn element_grid(t: &ArchInput) -> (r: (u64, u64))
    requires
        t.meta.shape@.len() > 2 ==> types::product_fits(t.meta.shape@.skip(1)),
    ensures
        (r.0 as int, r.1 as int) == types::grid_of(t@.tensor.shape),
{
    t.meta.element_shape()
}

/// The room that a sub-path has in every block.
fn room_for(all: &Vec<ArchInput>, slots: &Vec<LayerSlot>, ids: &Vec<u32>, sub: &str) -> (r: Slot)
    requires
        all@.len() == slots@.len(),
        items_fit(items(all@)),
    ensures
        r == blueprint::room(items(all@), name_tree::places(slots@), ids@, sub@),
{
    let ghost its = items(all@);
    let ghost ps = name_tree::places(slots@);
    let mut w: u64 = 1;
    let mut h: u64 = 1;
    let mut i: usize = 0;
    while i < ids.len()
        invariant
            i <= ids@.len(),
            all@.len() == slots@.len(),
            its == items(all@),
            ps == name_tree::places(slots@),
            items_fit(its),
            (w as int, h as int) == blueprint::largest(its, ps, ids@, sub@, i as int),
        decreases ids@.len() - i,
    {
        if let Some(k) = find_holder(slots, ids[i], sub) {
            assert(its[k as int] == all@[k as int]@);
            let (rows, cols): (u64, u64) = element_grid(&all[k]);
            if rows > h {
                h = rows;
            }
            if cols > w {
                w = cols;
            }
        }
        i = i + 1;
    }
    Slot { width: align_up(clip(w), 16), height: align_up(clip(h), 16) }
}

fn all_rooms(all: &Vec<ArchInput>, slots: &Vec<LayerSlot>, ids: &Vec<u32>, subs: &Vec<String>) -> (r:
    Vec<Slot>)
    requires
        all@.len() == slots@.len(),
        items_fit(items(all@)),
    ensures
        r@ == blueprint::rooms(
            items(all@),
            name_tree::places(slots@),
            ids@,
            order::texts(subs@),
        ),
{
    let mut out: Vec<Slot> = Vec::new();
    let mut i: usize = 0;
    while i < subs.len()
        invariant
            i <= subs@.len(),
            all@.len() == slots@.len(),
            items_fit(items(all@)),
            out@.len() == i,
            forall|k: int|
                0 <= k < i ==> #[trigger] out@[k] == blueprint::room(
                    items(all@),
                    name_tree::places(slots@),
                    ids@,
                    subs@[k]@,
                ),
        decreases subs@.len() - i,
    {
        out.push(room_for(all, slots, ids, subs[i].as_str()));
        i = i + 1;
    }
    assert(out@ =~= blueprint::rooms(
        items(all@),
        name_tree::places(slots@),
        ids@,
        order::texts(subs@),
    ));
    out
}

/// The tensors outside all blocks.
fn outside_blocks(slots: &Vec<LayerSlot>) -> (r: Vec<usize>)
    ensures
        indices(r@) == blueprint::outside(name_tree::places(slots@)),
        forall|i: int| 0 <= i < r@.len() ==> #[trigger] r@[i] < slots@.len(),
{
    let ghost ps = name_tree::places(slots@);
    let mut out: Vec<usize> = Vec::new();
    let mut i: usize = 0;
    assert(ps.take(0) =~= seq![]);
    assert(indices(out@) =~= seq![]);
    while i < slots.len()
        invariant
            i <= slots@.len(),
            ps == name_tree::places(slots@),
            indices(out@) == blueprint::outside(ps.take(i as int)),
            forall|k: int| 0 <= k < out@.len() ==> #[trigger] out@[k] < slots@.len(),
        decreases slots@.len() - i,
    {
        assert(ps.take(i + 1).drop_last() =~= ps.take(i as int));
        assert(ps.take(i + 1).last() == slots@[i as int]@);
        let in_block: bool = match &slots[i] {
            LayerSlot::Block { .. } => true,
            _ => false,
        };
        if !in_block {
            let ghost was = indices(out@);
            out.push(i);
            assert(indices(out@) =~= was.push(i as int));
        }
        i = i + 1;
    }
    assert(ps.take(i as int) =~= ps);
    out
}

/// The tensors outside all blocks on one side of the model.
fn side_of(all: &Vec<ArchInput>, ids: &Vec<usize>, input: bool) -> (r: Vec<usize>)
    requires
        forall|i: int| 0 <= i < ids@.len() ==> #[trigger] ids@[i] < all@.len(),
    ensures
        indices(r@) == blueprint::on_side(items(all@), indices(ids@), input),
        forall|i: int| 0 <= i < r@.len() ==> #[trigger] r@[i] < all@.len(),
{
    let ghost its = items(all@);
    let ghost js = indices(ids@);
    let mut out: Vec<usize> = Vec::new();
    let mut i: usize = 0;
    assert(js.take(0) =~= seq![]);
    assert(indices(out@) =~= seq![]);
    while i < ids.len()
        invariant
            i <= ids@.len(),
            its == items(all@),
            js == indices(ids@),
            forall|k: int| 0 <= k < ids@.len() ==> #[trigger] ids@[k] < all@.len(),
            indices(out@) == blueprint::on_side(its, js.take(i as int), input),
            forall|k: int| 0 <= k < out@.len() ==> #[trigger] out@[k] < all@.len(),
        decreases ids@.len() - i,
    {
        let k: usize = ids[i];
        assert(js.take(i + 1).drop_last() =~= js.take(i as int));
        assert(js.take(i + 1).last() == k as int);
        assert(its[k as int] == all@[k as int]@);
        if is_input_side_name(all[k].meta.name.as_str()) == input {
            let ghost was = indices(out@);
            out.push(k);
            assert(indices(out@) =~= was.push(k as int));
        }
        i = i + 1;
    }
    assert(js.take(i as int) =~= js);
    out
}

fn widest_of(all: &Vec<ArchInput>, ids: &Vec<usize>) -> (w: u32)
    requires
        items_fit(items(all@)),
        forall|i: int| 0 <= i < ids@.len() ==> #[trigger] ids@[i] < all@.len(),
    ensures
        w == blueprint::widest(items(all@), indices(ids@)),
{
    let ghost its = items(all@);
    let ghost js = indices(ids@);
    let mut w: u32 = 0;
    let mut i: usize = 0;
    assert(js.take(0) =~= seq![]);
    while i < ids.len()
        invariant
            i <= ids@.len(),
            its == items(all@),
            js == indices(ids@),
            items_fit(its),
            forall|k: int| 0 <= k < ids@.len() ==> #[trigger] ids@[k] < all@.len(),
            w == blueprint::widest(its, js.take(i as int)),
        decreases ids@.len() - i,
    {
        let k: usize = ids[i];
        assert(js.take(i + 1).drop_last() =~= js.take(i as int));
        assert(js.take(i + 1).last() == k as int);
        assert(its[k as int] == all@[k as int]@);
        let (_, cols): (u64, u64) = element_grid(&all[k]);
        let c: u32 = clip(cols);
        if c > w {
            w = c;
        }
        i = i + 1;
    }
    assert(js.take(i as int) =~= js);
    w
}

/// Appends a tensor at a place.
fn place(
    out: &mut Vec<PlacedTensor>,
    t: &ArchInput,
    x: u32,
    y: u32,
    hue_name: &str,
    layer: Option<u32>,
) -> (grid: (u64, u64))
    requires
        t.offset + t.meta.file_start <= u64::MAX,
        t.meta.shape@.len() > 2 ==> types::product_fits(t.meta.shape@.skip(1)),
    ensures
        placements(final(out)@) == placements(old(out)@).push(
            blueprint::placed(
                t@,
                old(out)@.len() as int,
                x as int,
                y as int,
                hue_name@,
                layer,
            ),
        ),
        (grid.0 as int, grid.1 as int) == types::grid_of(t@.tensor.shape),
{
    let ghost was = placements(out@);
    let (rows, cols): (u64, u64) = element_grid(t);
    let id: usize = out.len();
    let p = PlacedTensor {
        source_idx: t.source_idx,
        tensor_id: id,
        name: t.meta.name.clone(),
        dtype: t.meta.dtype,
        tensor_byte_start: t.offset + t.meta.file_start,
        tensor_rows: rows,
        tensor_cols: cols,
        canvas_x: x,
        canvas_y: y,
        hue: name_hue(hue_name),
        layer_idx: layer,
    };
    assert(p@ == blueprint::placed(t@, id as int, x as int, y as int, hue_name@, layer));
    out.push(p);
    assert(placements(out@) =~= was.push(p@));
    (rows, cols)
}

/// Appends tensors below each other, centred; returns the row behind them.
fn place_column(
    out: &mut Vec<PlacedTensor>,
    all: &Vec<ArchInput>,
    ids: &Vec<usize>,
    width: u32,
    y: u32,
) -> (end: u32)
    requires
        items_fit(items(all@)),
        forall|i: int| 0 <= i < ids@.len() ==> #[trigger] ids@[i] < all@.len(),
    ensures
        (placements(final(out)@), end as int) == blueprint::column(
            items(all@),
            indices(ids@),
            width as int,
            placements(old(out)@),
            y as int,
        ),
{
    let ghost its = items(all@);
    let ghost js = indices(ids@);
    let ghost before = placements(out@);
    let mut at: u32 = y;
    let mut i: usize = 0;
    assert(js.take(0) =~= seq![]);
    while i < ids.len()
        invariant
            i <= ids@.len(),
            its == items(all@),
            js == indices(ids@),
            items_fit(its),
            forall|k: int| 0 <= k < ids@.len() ==> #[trigger] ids@[k] < all@.len(),
            (placements(out@), at as int) == blueprint::column(
                its,
                js.take(i as int),
                width as int,
                before,
                y as int,
            ),
        decreases ids@.len() - i,
    {
        let k: usize = ids[i];
        assert(js.take(i + 1).drop_last() =~= js.take(i as int));
        assert(js.take(i + 1).last() == k as int);
        assert(its[k as int] == all@[k as int]@);
        assert(placements(out@).len() == out@.len());
        let t = &all[k];
        let (_, cols): (u64, u64) = element_grid(t);
        let x: u32 = minus(width, clip(cols)) / 2;
        let (rows, _): (u64, u64) = place(out, t, x, at, t.meta.name.as_str(), None);
        at = plus(plus(at, clip(rows)), PAD);
        i = i + 1;
    }
    assert(js.take(i as int) =~= js);
    at
}

/// The geometry of the grid of blocks.
#[derive(Debug, Clone, Copy)]
struct BlockGrid {
    cols: u32,
    layer_w: u32,
    layer_h: u32,
    x: u32,
    y: u32,
}

impl BlockGrid {
    spec fn grid(self) -> blueprint::Grid {
        blueprint::Grid {
            cols: self.cols as int,
            layer_w: self.layer_w as int,
            layer_h: self.layer_h as int,
            x: self.x as int,
            y: self.y as int,
        }
    }

    fn block_at(&self, pos: u32) -> (r: (u32, u32))
        requires
            self.cols > 0,
        ensures
            r.0 == blueprint::block_x(self.grid(), pos as int),
            r.1 == blueprint::block_y(self.grid(), pos as int),
    {
        let col: u32 = pos % self.cols;
        let row: u32 = pos / self.cols;
        (
            plus(self.x, times(col, plus(self.layer_w, PAD))),
            plus(self.y, times(row, plus(self.layer_h, PAD))),
        )
    }
}

/// Appends the tensors of one block.
fn place_block(
    out: &mut Vec<PlacedTensor>,
    all: &Vec<ArchInput>,
    slots: &Vec<LayerSlot>,
    subs: &Vec<String>,
    at: &Vec<Placement>,
    idx: u32,
    x: u32,
    y: u32,
    Ghost(p): Ghost<blueprint::Plan>,
)
    requires
        all@.len() == slots@.len(),
        items_fit(items(all@)),
        subs@.len() == at@.len(),
        p.items == items(all@),
        p.slots == name_tree::places(slots@),
        p.subs == order::texts(subs@),
        p.at == at@,
    ensures
        placements(final(out)@) == blueprint::block(
            p,
            idx,
            x as int,
            y as int,
            placements(old(out)@),
            p.subs.len() as int,
        ),
{
    let ghost before = placements(out@);
    let mut k: usize = 0;
    assert(p.subs.len() == subs@.len());
    while k < subs.len()
        invariant
            k <= subs@.len(),
            all@.len() == slots@.len(),
            items_fit(items(all@)),
            subs@.len() == at@.len(),
            p.items == items(all@),
            p.slots == name_tree::places(slots@),
            p.subs == order::texts(subs@),
            p.at == at@,
            placements(out@) == blueprint::block(p, idx, x as int, y as int, before, k as int),
        decreases subs@.len() - k,
    {
        assert(p.subs[k as int] == subs@[k as int]@);
        assert(placements(out@).len() == out@.len());
        if let Some(i) = find_holder(slots, idx, subs[k].as_str()) {
            assert(p.items[i as int] == all@[i as int]@);
            place(
                out,
                &all[i],
                plus(x, at[k].x),
                plus(y, at[k].y),
                subs[k].as_str(),
                Some(idx),
            );
        }
        k = k + 1;
    }
}

/// Appends the tensors of all blocks and returns the rectangles of the blocks.
fn place_blocks(
    out: &mut Vec<PlacedTensor>,
    all: &Vec<ArchInput>,
    slots: &Vec<LayerSlot>,
    ids: &Vec<u32>,
    subs: &Vec<String>,
    at: &Vec<Placement>,
    g: BlockGrid,
    Ghost(p): Ghost<blueprint::Plan>,
) -> (r: Vec<LayerBounds>)
    requires
        all@.len() == slots@.len(),
        items_fit(items(all@)),
        subs@.len() == at@.len(),
        ids@.len() <= u32::MAX,
        ids@.len() > 0 ==> g.cols > 0,
        p.items == items(all@),
        p.slots == name_tree::places(slots@),
        p.ids == ids@,
        p.subs == order::texts(subs@),
        p.at == at@,
    ensures
        placements(final(out)@) == blueprint::blocks(
            p,
            g.grid(),
            placements(old(out)@),
            ids@.len() as int,
        ),
        block_bounds(r@) == blueprint::bounds(ids@, g.grid()),
{
    let ghost before = placements(out@);
    let mut bounds: Vec<LayerBounds> = Vec::new();
    let mut i: usize = 0;
    while i < ids.len()
        invariant
            i <= ids@.len(),
            all@.len() == slots@.len(),
            items_fit(items(all@)),
            subs@.len() == at@.len(),
            ids@.len() <= u32::MAX,
            ids@.len() > 0 ==> g.cols > 0,
            p.items == items(all@),
            p.slots == name_tree::places(slots@),
            p.ids == ids@,
            p.subs == order::texts(subs@),
            p.at == at@,
            placements(out@) == blueprint::blocks(p, g.grid(), before, i as int),
            bounds@.len() == i,
            forall|k: int|
                0 <= k < i ==> (#[trigger] bounds@[k])@ == blueprint::bounds(ids@, g.grid())[k],
        decreases ids@.len() - i,
    {
        let (x, y): (u32, u32) = g.block_at(i as u32);
        place_block(out, all, slots, subs, at, ids[i], x, y, Ghost(p));
        bounds.push(
            LayerBounds {
                layer_idx: ids[i],
                canvas_x: x,
                canvas_y: y,
                width: g.layer_w,
                height: g.layer_h,
            },
        );
        i = i + 1;
    }
    assert(block_bounds(bounds@) =~= blueprint::bounds(ids@, g.grid()));
    bounds
}

/// Smallest power of two ≥ `n`, with its exponent.
fn pow2_at_least(n: u32) -> (r: (u32, u32))
    requires
        n <= 0x8000_0000,
    ensures
        r.0 == hilbert3d::pow2(blueprint::pow2_exponent(n as int)),
        r.1 == blueprint::pow2_exponent(n as int),
        r.1 <= 31,
        n <= 0x100_0000 ==> r.1 <= 24,
{
    let mut p: u32 = 1;
    let mut e: u32 = 0;
    proof {
        hilbert::lemma_pow2_values();
    }
    while p < n
        invariant
            n <= 0x8000_0000,
            e <= 31,
            n <= 0x100_0000 ==> e <= 24,
            p == hilbert3d::pow2(e as nat),
            hilbert::exponent_from(e as nat, n as int) == hilbert::exponent_from(0, n as int),
        decreases 31 - e,
    {
        proof {
            hilbert::lemma_pow2_values();
            hilbert::lemma_pow2_mono((e + 1) as nat, 31);
            if e >= 31 {
                assert(false);
            }
            if n <= 0x100_0000 && e >= 24 {
                hilbert::lemma_pow2_mono(24, e as nat);
                assert(false);
            }
        }
        p = 2 * p;
        e = e + 1;
    }
    (p, e)
}

/// Smallest power of two ≥ `n`. Returns 1 for `n == 0`.
pub fn next_pow2(n: u32) -> (r: u32)
    requires
        n <= 0x8000_0000,
    ensures
        r == hilbert3d::pow2(blueprint::pow2_exponent(n as int)),
{
    pow2_at_least(n).0
}

/// The smallest power of two that is not less than a number.
pub proof fn next_pow2_is_smallest(n: int)
    requires
        n <= 0x8000_0000,
    ensures
        hilbert3d::pow2(blueprint::pow2_exponent(n)) >= n,
        forall|e: nat|
            #[trigger] hilbert3d::pow2(e) >= n ==> hilbert3d::pow2(e) >= hilbert3d::pow2(
                blueprint::pow2_exponent(n),
            ),
{
    hilbert::lemma_pow2_values();
    hilbert::lemma_pow2_mono(31, 62);
    hilbert::lemma_exponent(0, n);
    let k = blueprint::pow2_exponent(n);
    assert forall|e: nat| #[trigger] hilbert3d::pow2(e) >= n implies hilbert3d::pow2(e)
        >= hilbert3d::pow2(k) by {
        if e < k {
            hilbert::lemma_pow2_mono(e, (k - 1) as nat);
        } else {
            hilbert::lemma_pow2_mono(k, e);
        }
    }
}

fn key_before(a: &(u32, u32, usize), b: &(u32, u32, usize)) -> (r: bool)
    ensures
        r == (a.0 < b.0 || (a.0 == b.0 && a.1 <= b.1)),
{
    a.0 < b.0 || (a.0 == b.0 && a.1 <= b.1)
}

/// The placed tensors by row, then by column.
fn reading_order(ts: &Vec<PlacedTensor>) -> (r: Vec<usize>)
    ensures
        indices(r@) == blueprint::reading_order(placements(ts@)),
{
    let ghost ps = placements(ts@);
    let mut keys: Vec<(u32, u32, usize)> = Vec::new();
    let mut i: usize = 0;
    while i < ts.len()
        invariant
            i <= ts@.len(),
            keys@.len() == i,
            forall|k: int|
                0 <= k < i ==> #[trigger] keys@[k] == (
                    ts@[k].canvas_y,
                    ts@[k].canvas_x,
                    k as usize,
                ),
        decreases ts@.len() - i,
    {
        keys.push((ts[i].canvas_y, ts[i].canvas_x, i));
        i = i + 1;
    }
    let ghost ks = keys@;
    let ghost le = |a: (u32, u32, usize), b: (u32, u32, usize)|
        a.0 < b.0 || (a.0 == b.0 && a.1 <= b.1);
    let sorted = sort_by(keys, key_before, Ghost(le));
    let mut out: Vec<usize> = Vec::new();
    let mut j: usize = 0;
    while j < sorted.len()
        invariant
            j <= sorted@.len(),
            out@.len() == j,
            forall|k: int| 0 <= k < j ==> #[trigger] out@[k] == sorted@[k].2,
        decreases sorted@.len() - j,
    {
        out.push(sorted[j].2);
        j = j + 1;
    }
    proof {
        lemma_sort_keys(ks, ps);
        assert(indices(out@) =~= sorted@.map_values(|k: (u32, u32, usize)| k.2 as int));
    }
    out
}

/// The keys belong to the placed tensors.
spec fn keys_match(ks: Seq<(u32, u32, usize)>, ps: Seq<blueprint::Placed>) -> bool {
    forall|k: int|
        0 <= k < ks.len() ==> {
            let e = #[trigger] ks[k];
            e.2 < ps.len() && e.0 == ps[e.2 as int].y && e.1 == ps[e.2 as int].x
        }
}

proof fn lemma_insert_keys(
    ks: Seq<(u32, u32, usize)>,
    x: (u32, u32, usize),
    ps: Seq<blueprint::Placed>,
)
    requires
        keys_match(ks, ps),
        x.2 < ps.len(),
        x.0 == ps[x.2 as int].y,
        x.1 == ps[x.2 as int].x,
    ensures
        ({
            let le = |a: (u32, u32, usize), b: (u32, u32, usize)|
                a.0 < b.0 || (a.0 == b.0 && a.1 <= b.1);
            let f = |k: (u32, u32, usize)| k.2 as int;
            let le2 = |a: int, b: int| blueprint::above(ps[a], ps[b]);
            &&& order::sorted_insert(ks, x, le).map_values(f) == order::sorted_insert(
                ks.map_values(f),
                f(x),
                le2,
            )
            &&& keys_match(order::sorted_insert(ks, x, le), ps)
        }),
    decreases ks.len(),
{
    let le = |a: (u32, u32, usize), b: (u32, u32, usize)|
        a.0 < b.0 || (a.0 == b.0 && a.1 <= b.1);
    let f = |k: (u32, u32, usize)| k.2 as int;
    let le2 = |a: int, b: int| blueprint::above(ps[a], ps[b]);
    let r = order::sorted_insert(ks, x, le);
    if ks.len() == 0 {
        assert(r.map_values(f) =~= seq![f(x)]);
        assert(ks.map_values(f) =~= seq![]);
    } else {
        let init = ks.drop_last();
        let last = ks[ks.len() - 1];
        assert(ks.map_values(f).drop_last() =~= init.map_values(f));
        assert(ks.map_values(f).last() == f(last));
        assert(le(last, x) == le2(f(last), f(x)));
        assert(keys_match(init, ps)) by {
            assert forall|k: int| 0 <= k < init.len() implies {
                let e = #[trigger] init[k];
                e.2 < ps.len() && e.0 == ps[e.2 as int].y && e.1 == ps[e.2 as int].x
            } by {
                assert(init[k] == ks[k]);
            }
        }
        if le(last, x) {
            assert(r.map_values(f) =~= ks.map_values(f).push(f(x)));
            assert forall|k: int| 0 <= k < r.len() implies {
                let e = #[trigger] r[k];
                e.2 < ps.len() && e.0 == ps[e.2 as int].y && e.1 == ps[e.2 as int].x
            } by {
                if k < ks.len() {
                    assert(r[k] == ks[k]);
                }
            }
        } else {
            lemma_insert_keys(init, x, ps);
            let q = order::sorted_insert(init, x, le);
            assert(r.map_values(f) =~= q.map_values(f).push(f(last)));
            assert forall|k: int| 0 <= k < r.len() implies {
                let e = #[trigger] r[k];
                e.2 < ps.len() && e.0 == ps[e.2 as int].y && e.1 == ps[e.2 as int].x
            } by {
                if k < q.len() {
                    assert(r[k] == q[k]);
                }
            }
        }
    }
}

proof fn lemma_sort_prefix(ks: Seq<(u32, u32, usize)>, ps: Seq<blueprint::Placed>, n: nat)
    requires
        ks.len() == ps.len(),
        n <= ks.len(),
        forall|k: int|
            0 <= k < ks.len() ==> {
                let e = #[trigger] ks[k];
                e.2 == k && e.0 == ps[k].y && e.1 == ps[k].x
            },
    ensures
        ({
            let le = |a: (u32, u32, usize), b: (u32, u32, usize)|
                a.0 < b.0 || (a.0 == b.0 && a.1 <= b.1);
            let f = |k: (u32, u32, usize)| k.2 as int;
            let le2 = |a: int, b: int| blueprint::above(ps[a], ps[b]);
            &&& order::stable_sort(ks.take(n as int), le).map_values(f) == order::stable_sort(
                Seq::new(n, |i: int| i),
                le2,
            )
            &&& keys_match(order::stable_sort(ks.take(n as int), le), ps)
        }),
    decreases n,
{
    let le = |a: (u32, u32, usize), b: (u32, u32, usize)|
        a.0 < b.0 || (a.0 == b.0 && a.1 <= b.1);
    let f = |k: (u32, u32, usize)| k.2 as int;
    let le2 = |a: int, b: int| blueprint::above(ps[a], ps[b]);
    if n == 0 {
        assert(order::stable_sort(ks.take(0), le).map_values(f) =~= seq![]);
        assert(Seq::new(0, |i: int| i) =~= Seq::<int>::empty());
    } else {
        let m = (n - 1) as nat;
        lemma_sort_prefix(ks, ps, m);
        assert(ks.take(n as int).drop_last() =~= ks.take(m as int));
        assert(Seq::new(n, |i: int| i).drop_last() =~= Seq::new(m, |i: int| i));
        assert(Seq::new(n, |i: int| i).last() == m);
        lemma_insert_keys(order::stable_sort(ks.take(m as int), le), ks[m as int], ps);
    }
}

proof fn lemma_sort_keys(ks: Seq<(u32, u32, usize)>, ps: Seq<blueprint::Placed>)
    requires
        ks.len() == ps.len(),
        forall|k: int|
            0 <= k < ks.len() ==> {
                let e = #[trigger] ks[k];
                e.2 == k && e.0 == ps[k].y && e.1 == ps[k].x
            },
    ensures
        order::stable_sort(
            ks,
            |a: (u32, u32, usize), b: (u32, u32, usize)|
                a.0 < b.0 || (a.0 == b.0 && a.1 <= b.1),
        ).map_values(|k: (u32, u32, usize)| k.2 as int) == blueprint::reading_order(ps),
{
    lemma_sort_prefix(ks, ps, ks.len());
    assert(ks.take(ks.len() as int) =~= ks);
}

/// How many tiles cover a length.
fn tile_count(len: u32) -> (n: u32)
    ensures
        n == blueprint::tiles_for(len as int),
        n <= 0x100_0000,
{
    ((len as u64 + TILE as u64 - 1) / TILE as u64) as u32
}

impl ArchLayout {
    /// The canvas is laid out as a plan says.
    pub open spec fn draws(&self, p: blueprint::Plan, architecture: Seq<char>) -> bool {
        self@ == blueprint::captioned(p, architecture)
    }

    /// Lay classified tensors out: the input side, the blocks in a grid, the
    /// output side. `declared` is the number of layers that a config reports,
    /// `extra` holds sub-paths that are known of but not loaded.
    pub fn from_slots(
        all: &Vec<ArchInput>,
        slots: &Vec<LayerSlot>,
        declared: Option<u32>,
        extra: &Vec<String>,
        architecture: String,
    ) -> (r: Self)
        requires
            all@.len() == slots@.len(),
            items_fit(items(all@)),
            blueprint::layers(name_tree::places(slots@), declared).len() <= u32::MAX,
        ensures
            r.draws(
                blueprint::plan_of(
                    items(all@),
                    name_tree::places(slots@),
                    declared,
                    order::texts(extra@),
                ),
                architecture@,
            ),
    {
        let ghost its = items(all@);
        let ghost ps = name_tree::places(slots@);
        let ghost p = blueprint::plan_of(its, ps, declared, order::texts(extra@));
        let ids = layer_ids(slots, declared);
        let subs = canonical_sub_paths(slots, extra);
        let rooms = all_rooms(all, slots, &ids, &subs);
        let (at, layer_w, layer_h): (Vec<Placement>, u32, u32) = pack(
            &rooms,
            MAX_LAYER_WIDTH,
            PAD,
        );
        assert(subs@.len() == order::texts(subs@).len());
        let n: u32 = ids.len() as u32;
        let cols: u32 = pick_column_count(n, layer_w, layer_h, PAD);
        proof {
            if n > 0 {
                columns::column_count_in_range(
                    n as int,
                    layer_w as int,
                    layer_h as int,
                    PAD as int,
                );
            }
        }
        let grid_w: u32 = if cols == 0 {
            0
        } else {
            plus(times(cols, layer_w), times(cols - 1, PAD))
        };
        let tops = outside_blocks(slots);
        let wide: u32 = widest_of(all, &tops);
        let mut width: u32 = if grid_w >= wide {
            grid_w
        } else {
            wide
        };
        if width < 1 {
            width = 1;
        }
        assert(width == blueprint::content_width(its, indices(tops@), grid_w as int));
        let inputs = side_of(all, &tops, true);
        let outputs = side_of(all, &tops, false);
        let mut tensors: Vec<PlacedTensor> = Vec::new();
        assert(placements(tensors@) =~= seq![]);
        let y: u32 = place_column(&mut tensors, all, &inputs, width, 0);
        let g = BlockGrid { cols, layer_w, layer_h, x: minus(width, grid_w) / 2, y };
        assert(g.grid() == blueprint::grid_on(p, y as int));
        let layer_bounds = place_blocks(
            &mut tensors,
            all,
            slots,
            &ids,
            &subs,
            &at,
            g,
            Ghost(p),
        );
        let below: u32 = if n == 0 {
            y
        } else {
            let rows: u64 = (n as u64 + cols as u64 - 1) / cols as u64;
            assert(rows <= n) by (nonlinear_arith)
                requires
                    rows == (n + cols - 1) / (cols as int),
                    0 < cols <= n,
            ;
            plus(y, times(rows as u32, plus(layer_h, PAD)))
        };
        let end: u32 = place_column(&mut tensors, all, &outputs, width, below);
        let inner: u32 = minus(end, PAD);
        let height: u32 = if inner >= 1 {
            inner
        } else {
            1
        };
        let (width_tiles, ew): (u32, u32) = pow2_at_least(tile_count(width));
        let (height_tiles, eh): (u32, u32) = pow2_at_least(tile_count(height));
        let sorted_idx = reading_order(&tensors);
        assert(width_tiles * height_tiles <= u64::MAX) by (nonlinear_arith)
            requires
                width_tiles <= u32::MAX,
                height_tiles <= u32::MAX,
        ;
        ArchLayout {
            width: width_tiles as u64 * TILE as u64,
            height: height_tiles as u64 * TILE as u64,
            width_tiles,
            height_tiles,
            total_tiles: width_tiles as u64 * height_tiles as u64,
            max_zoom: if ew <= eh {
                ew
            } else {
                eh
            },
            tensors,
            layer_bounds,
            architecture,
            sorted_idx,
        }
    }
}

} // verus!
