//! Where placed tensors come from: every one stems from a tensor of a source,
//! read from that tensor's own bytes, and none that can be shown is left out.

use vstd::prelude::*;
use crate::format::dtype;
use crate::format::types;
use crate::format::types::TensorMeta;
use crate::layout::arch::ArchLayout;
use crate::layout::arch_laws;
use crate::layout::blueprint;
use crate::layout::blueprint::{Grid, Item, Placed, Plan};
use crate::layout::hilbert::TILE;
use crate::layout::name_tree;
use crate::layout::select;
use crate::layout::select::SourceMeta;
use crate::layout::sub_path;
use crate::layout::tile;
use crate::layout::tile::TileRegion;
use crate::layout::tile_laws;
use crate::diff_laws;
use crate::source;
use crate::source::Source;
use crate::tensor_match;
use crate::text;

verus! {

/// A placed tensor shows the tensor at place `j`: it has its source, name,
/// element type and shape, starts where the tensor's bytes do, and belongs to
/// the layer that the name puts it in.
pub open spec fn shows_item(
    t: Placed,
    items: Seq<Item>,
    slots: Seq<name_tree::Place>,
    j: int,
) -> bool {
    &&& 0 <= j < items.len()
    &&& j < slots.len()
    &&& t.source == items[j].source
    &&& t.name == items[j].tensor.name
    &&& t.dtype == items[j].tensor.dtype
    &&& t.start == items[j].offset + items[j].tensor.start
    &&& (t.rows, t.cols) == types::grid_of(items[j].tensor.shape)
    &&& match slots[j] {
        name_tree::Place::Block { idx, sub_path: _ } => t.layer == Some(idx),
        _ => t.layer is None,
    }
}

/// A placed tensor shows one that was given.
spec fn is_shown(t: Placed, items: Seq<Item>, slots: Seq<name_tree::Place>) -> bool {
    exists|j: int| shows_item(t, items, slots, j)
}

/// Every placed tensor shows one that was given.
spec fn all_shown(
    ps: Seq<Placed>,
    items: Seq<Item>,
    slots: Seq<name_tree::Place>,
) -> bool {
    forall|k: int| 0 <= k < ps.len() ==> is_shown(#[trigger] ps[k], items, slots)
}

proof fn lemma_push_shown(
    ps: Seq<Placed>,
    t: Placed,
    items: Seq<Item>,
    slots: Seq<name_tree::Place>,
    j: int,
)
    requires
        all_shown(ps, items, slots),
        shows_item(t, items, slots, j),
    ensures
        all_shown(ps.push(t), items, slots),
{
    assert(is_shown(t, items, slots));
}

proof fn lemma_outside(slots: Seq<name_tree::Place>)
    ensures
        forall|i: int|
            0 <= i < blueprint::outside(slots).len() ==> 0 <= #[trigger] blueprint::outside(slots)[i]
                < slots.len() && !(slots[blueprint::outside(slots)[i]] is Block),
        forall|j: int|
            0 <= j < slots.len() && !(#[trigger] slots[j] is Block) ==> blueprint::outside(
                slots,
            ).contains(j),
    decreases slots.len(),
{
    if slots.len() > 0 {
        let init = slots.drop_last();
        lemma_outside(init);
        let was = blueprint::outside(init);
        let now = blueprint::outside(slots);
        assert forall|i: int| 0 <= i < now.len() implies 0 <= #[trigger] now[i] < slots.len() && !(
        slots[now[i]] is Block) by {
            if i < was.len() {
                assert(now[i] == was[i]);
                assert(init[was[i]] == slots[was[i]]);
            }
        }
        assert forall|j: int| 0 <= j < slots.len() && !(#[trigger] slots[j] is Block) implies now.contains(
            j,
        ) by {
            if j < slots.len() - 1 {
                assert(init[j] == slots[j]);
                assert(was.contains(j));
                let k = choose|k: int| 0 <= k < was.len() && was[k] == j;
                assert(now[k] == j);
            } else {
                assert(now[was.len() as int] == j);
            }
        }
    }
}

/// Whether a tensor belongs on the input side.
spec fn goes_in(it: Item) -> bool {
    sub_path::is_embedding(text::lowercase(it.tensor.name))
}

proof fn lemma_side(items: Seq<Item>, ids: Seq<int>, input: bool)
    ensures
        forall|x: int| #[trigger]
            blueprint::on_side(items, ids, input).contains(x) == (ids.contains(x) && goes_in(
                items[x],
            ) == input),
    decreases ids.len(),
{
    if ids.len() > 0 {
        let init = ids.drop_last();
        lemma_side(items, init, input);
        let was = blueprint::on_side(items, init, input);
        let now = blueprint::on_side(items, ids, input);
        assert(ids =~= init.push(ids.last()));
        assert forall|x: int| #[trigger] now.contains(x) == (ids.contains(x) && goes_in(items[x])
            == input) by {
            assert(was.contains(x) == (init.contains(x) && goes_in(items[x]) == input));
            lemma_push_has(init, ids.last(), x);
            if now.len() > was.len() {
                lemma_push_has(was, ids.last(), x);
            }
        }
    }
}

proof fn lemma_push_has<T>(s: Seq<T>, x: T, y: T)
    ensures
        s.push(x).contains(y) == (s.contains(y) || x == y),
{
    if s.contains(y) {
        let k = choose|k: int| 0 <= k < s.len() && s[k] == y;
        assert(s.push(x)[k] == y);
    }
    if x == y {
        assert(s.push(x)[s.len() as int] == y);
    }
}

/// The tensor that a layer holds under a sub-path is the last one put there.
proof fn lemma_holder(slots: Seq<name_tree::Place>, idx: u32, sub: Seq<char>)
    ensures
        match blueprint::holder(slots, idx, sub) {
            Some(i) => 0 <= i < slots.len() && slots[i] == (name_tree::Place::Block {
                idx,
                sub_path: sub,
            }) && forall|k: int|
                i < k < slots.len() ==> #[trigger] slots[k] != (name_tree::Place::Block {
                    idx,
                    sub_path: sub,
                }),
            None => forall|k: int|
                0 <= k < slots.len() ==> #[trigger] slots[k] != (name_tree::Place::Block {
                    idx,
                    sub_path: sub,
                }),
        },
    decreases slots.len(),
{
    if slots.len() > 0 {
        let init = slots.drop_last();
        lemma_holder(init, idx, sub);
        let here = name_tree::Place::Block { idx, sub_path: sub };
        if slots.last() != here {
            match blueprint::holder(slots, idx, sub) {
                Some(i) => {
                    assert(init[i] == slots[i]);
                    assert forall|k: int| i < k < slots.len() implies #[trigger] slots[k] != here by {
                        if k < slots.len() - 1 {
                            assert(init[k] == slots[k]);
                        }
                    }
                },
                None => {
                    assert forall|k: int| 0 <= k < slots.len() implies #[trigger] slots[k] != here by {
                        if k < slots.len() - 1 {
                            assert(init[k] == slots[k]);
                        }
                    }
                },
            }
        }
    }
}

proof fn lemma_column_shown(
    items: Seq<Item>,
    slots: Seq<name_tree::Place>,
    ids: Seq<int>,
    width: int,
    before: Seq<Placed>,
    y: int,
)
    requires
        items.len() == slots.len(),
        all_shown(before, items, slots),
        forall|i: int|
            0 <= i < ids.len() ==> 0 <= #[trigger] ids[i] < slots.len() && !(slots[ids[i]] is Block),
    ensures
        ({
            let ps = blueprint::column(items, ids, width, before, y).0;
            &&& all_shown(ps, items, slots)
            &&& ps.len() == before.len() + ids.len()
            &&& forall|k: int| 0 <= k < before.len() ==> #[trigger] ps[k] == before[k]
            &&& forall|i: int|
                0 <= i < ids.len() ==> shows_item(
                    ps[before.len() + i],
                    items,
                    slots,
                    #[trigger] ids[i],
                )
        }),
    decreases ids.len(),
{
    if ids.len() > 0 {
        let init = ids.drop_last();
        assert forall|i: int| 0 <= i < init.len() implies 0 <= #[trigger] init[i] < slots.len() && !(
        slots[init[i]] is Block) by {
            assert(init[i] == ids[i]);
        }
        lemma_column_shown(items, slots, init, width, before, y);
        let was = blueprint::column(items, init, width, before, y).0;
        let ps = blueprint::column(items, ids, width, before, y).0;
        let j = ids[ids.len() - 1];
        assert(ids.last() == j);
        assert(shows_item(ps.last(), items, slots, j));
        assert(ps =~= was.push(ps.last()));
        lemma_push_shown(was, ps.last(), items, slots, j);
        assert forall|i: int| 0 <= i < ids.len() implies shows_item(
            ps[before.len() + i],
            items,
            slots,
            #[trigger] ids[i],
        ) by {
            if i < init.len() {
                assert(init[i] == ids[i]);
                assert(ps[before.len() + i] == was[before.len() + i]);
            }
        }
    }
}

proof fn lemma_block_shown(p: Plan, idx: u32, x: int, y: int, before: Seq<Placed>, k: int)
    requires
        p.items.len() == p.slots.len(),
        all_shown(before, p.items, p.slots),
        0 <= k <= p.subs.len(),
    ensures
        ({
            let ps = blueprint::block(p, idx, x, y, before, k);
            &&& all_shown(ps, p.items, p.slots)
            &&& before.len() <= ps.len()
            &&& forall|i: int| 0 <= i < before.len() ==> #[trigger] ps[i] == before[i]
            &&& forall|m: int|
                0 <= m < k ==> (blueprint::holder(p.slots, idx, #[trigger] p.subs[m]) matches Some(
                    j,
                ) ==> exists|i: int|
                    before.len() <= i < ps.len() && shows_item(
                        #[trigger] ps[i],
                        p.items,
                        p.slots,
                        j,
                    ))
        }),
    decreases k,
{
    if k > 0 {
        lemma_block_shown(p, idx, x, y, before, k - 1);
        let was = blueprint::block(p, idx, x, y, before, k - 1);
        let ps = blueprint::block(p, idx, x, y, before, k);
        lemma_holder(p.slots, idx, p.subs[k - 1]);
        match blueprint::holder(p.slots, idx, p.subs[k - 1]) {
            Some(j) => {
                assert(shows_item(ps.last(), p.items, p.slots, j));
                assert(ps =~= was.push(ps.last()));
                lemma_push_shown(was, ps.last(), p.items, p.slots, j);
                assert(ps[ps.len() - 1] == ps.last());
            },
            None => {},
        }
        assert forall|m: int| 0 <= m < k implies (blueprint::holder(
            p.slots,
            idx,
            #[trigger] p.subs[m],
        ) matches Some(j) ==> exists|i: int|
            before.len() <= i < ps.len() && shows_item(#[trigger] ps[i], p.items, p.slots, j)) by {
            if let Some(j) = blueprint::holder(p.slots, idx, p.subs[m]) {
                if m < k - 1 {
                    let i = choose|i: int|
                        before.len() <= i < was.len() && shows_item(
                            #[trigger] was[i],
                            p.items,
                            p.slots,
                            j,
                        );
                    assert(ps[i] == was[i]);
                } else {
                    assert(shows_item(ps[ps.len() - 1], p.items, p.slots, j));
                }
            }
        }
    }
}

proof fn lemma_blocks_shown(p: Plan, g: Grid, before: Seq<Placed>, n: int)
    requires
        p.items.len() == p.slots.len(),
        all_shown(before, p.items, p.slots),
        0 <= n <= p.ids.len(),
    ensures
        ({
            let ps = blueprint::blocks(p, g, before, n);
            &&& all_shown(ps, p.items, p.slots)
            &&& before.len() <= ps.len()
            &&& forall|i: int| 0 <= i < before.len() ==> #[trigger] ps[i] == before[i]
            &&& forall|q: int, m: int|
                0 <= q < n && 0 <= m < p.subs.len() ==> (blueprint::holder(
                    p.slots,
                    #[trigger] p.ids[q],
                    #[trigger] p.subs[m],
                ) matches Some(j) ==> exists|i: int|
                    before.len() <= i < ps.len() && shows_item(
                        #[trigger] ps[i],
                        p.items,
                        p.slots,
                        j,
                    ))
        }),
    decreases n,
{
    if n > 0 {
        lemma_blocks_shown(p, g, before, n - 1);
        let was = blueprint::blocks(p, g, before, n - 1);
        let ps = blueprint::blocks(p, g, before, n);
        lemma_block_shown(
            p,
            p.ids[n - 1],
            blueprint::block_x(g, n - 1),
            blueprint::block_y(g, n - 1),
            was,
            p.subs.len() as int,
        );
        assert forall|q: int, m: int| 0 <= q < n && 0 <= m < p.subs.len() implies (
        blueprint::holder(p.slots, #[trigger] p.ids[q], #[trigger] p.subs[m]) matches Some(j)
            ==> exists|i: int|
            before.len() <= i < ps.len() && shows_item(#[trigger] ps[i], p.items, p.slots, j)) by {
            if let Some(j) = blueprint::holder(p.slots, p.ids[q], p.subs[m]) {
                if q < n - 1 {
                    let i = choose|i: int|
                        before.len() <= i < was.len() && shows_item(
                            #[trigger] was[i],
                            p.items,
                            p.slots,
                            j,
                        );
                    assert(ps[i] == was[i]);
                } else {
                    let i = choose|i: int|
                        was.len() <= i < ps.len() && shows_item(
                            #[trigger] ps[i],
                            p.items,
                            p.slots,
                            j,
                        );
                    assert(before.len() <= i);
                }
            }
        }
    }
}

proof fn lemma_with_id(ids: Seq<u32>, x: u32, y: u32)
    ensures
        ids.contains(y) || x == y ==> blueprint::with_id(ids, x).contains(y),
    decreases ids.len(),
{
    let r = blueprint::with_id(ids, x);
    if ids.len() == 0 {
        assert(r[0] == x);
    } else if ids.last() < x {
        lemma_push_has(ids, x, y);
    } else if ids.last() == x {
        assert(ids[ids.len() - 1] == x);
    } else {
        let init = ids.drop_last();
        lemma_with_id(init, x, y);
        lemma_push_has(blueprint::with_id(init, x), ids.last(), y);
        assert(ids =~= init.push(ids.last()));
        lemma_push_has(init, ids.last(), y);
    }
}

proof fn lemma_observed(slots: Seq<name_tree::Place>, j: int)
    requires
        0 <= j < slots.len(),
    ensures
        slots[j] matches name_tree::Place::Block { idx, .. } ==> blueprint::observed(
            slots,
        ).contains(idx),
    decreases slots.len(),
{
    let init = slots.drop_last();
    if let name_tree::Place::Block { idx, .. } = slots[j] {
        if j < slots.len() - 1 {
            assert(init[j] == slots[j]);
            lemma_observed(init, j);
            if let name_tree::Place::Block { idx: other, .. } = slots.last() {
                lemma_with_id(blueprint::observed(init), other, idx);
            }
        } else {
            lemma_with_id(blueprint::observed(init), idx, idx);
        }
    }
}

proof fn lemma_all_below(ids: Seq<u32>, n: nat, x: u32)
    ensures
        ids.contains(x) ==> blueprint::with_all_below(ids, n).contains(x),
        x < n && n <= u32::MAX ==> blueprint::with_all_below(ids, n).contains(x),
    decreases n,
{
    if n > 0 {
        lemma_all_below(ids, (n - 1) as nat, x);
        lemma_with_id(
            blueprint::with_all_below(ids, (n - 1) as nat),
            (n - 1) as u32,
            x,
        );
    }
}

/// Every layer that occurs is shown; where more layers are declared than the
/// stack reaches, all of the declared ones are.
pub proof fn layers_hold_what_occurs(slots: Seq<name_tree::Place>, declared: Option<u32>, x: u32)
    ensures
        (exists|j: int|
            0 <= j < slots.len() && ((#[trigger] slots[j]) matches name_tree::Place::Block {
                idx,
                ..
            } && idx == x)) ==> blueprint::layers(slots, declared).contains(x),
        declared matches Some(n) && x < n && blueprint::observed(slots).len() > 0
            && blueprint::observed(slots).last() < n ==> blueprint::layers(
            slots,
            declared,
        ).contains(x),
{
    let ids = blueprint::observed(slots);
    if exists|j: int|
        0 <= j < slots.len() && ((#[trigger] slots[j]) matches name_tree::Place::Block { idx, .. }
            && idx == x) {
        let j = choose|j: int|
            0 <= j < slots.len() && ((#[trigger] slots[j]) matches name_tree::Place::Block {
                idx,
                ..
            } && idx == x);
        lemma_observed(slots, j);
    }
    if let Some(n) = declared {
        lemma_all_below(ids, n as nat, x);
    }
}

proof fn lemma_block_subs(slots: Seq<name_tree::Place>, j: int)
    requires
        0 <= j < slots.len(),
    ensures
        slots[j] matches name_tree::Place::Block { sub_path, .. } ==> blueprint::block_subs(
            slots,
        ).contains(sub_path),
    decreases slots.len(),
{
    let init = slots.drop_last();
    if let name_tree::Place::Block { sub_path, .. } = slots[j] {
        if j < slots.len() - 1 {
            assert(init[j] == slots[j]);
            lemma_block_subs(init, j);
        }
        if let name_tree::Place::Block { sub_path: other, .. } = slots.last() {
            lemma_push_has(blueprint::block_subs(init), other, sub_path);
        }
    }
}

proof fn lemma_canonical(slots: Seq<name_tree::Place>, extra: Seq<Seq<char>>, sub: Seq<char>)
    requires
        blueprint::block_subs(slots).contains(sub) || extra.contains(sub),
    ensures
        blueprint::canonical(slots, extra).contains(sub),
{
    let a = blueprint::block_subs(slots);
    let all = a + extra;
    if a.contains(sub) {
        let k = choose|k: int| 0 <= k < a.len() && a[k] == sub;
        assert(all[k] == sub);
    } else {
        let k = choose|k: int| 0 <= k < extra.len() && extra[k] == sub;
        assert(all[a.len() + k] == sub);
    }
    tensor_match::lemma_distinct_contains(all, sub);
    diff_laws::sorting_keeps_members(
        tensor_match::distinct(all),
        |a: Seq<char>, b: Seq<char>| sub_path::sub_path_le(a, b),
        sub,
    );
}

/// No later tensor takes the place of the one at `j`.
pub open spec fn stays_in_place(slots: Seq<name_tree::Place>, j: int) -> bool {
    &&& 0 <= j < slots.len()
    &&& slots[j] is Block ==> forall|k: int| j < k < slots.len() ==> #[trigger] slots[k] != slots[j]
}

/// What is drawn shows given tensors only, and all of those whose place no
/// later one takes.
proof fn lemma_drawn_shown(
    items: Seq<Item>,
    slots: Seq<name_tree::Place>,
    declared: Option<u32>,
    extra: Seq<Seq<char>>,
)
    requires
        items.len() == slots.len(),
    ensures
        ({
            let ps = blueprint::drawn(blueprint::plan_of(items, slots, declared, extra)).0;
            &&& all_shown(ps, items, slots)
            &&& forall|j: int|
                #[trigger] stays_in_place(slots, j) ==> exists|k: int|
                    0 <= k < ps.len() && shows_item(#[trigger] ps[k], items, slots, j)
        }),
{
    let p = blueprint::plan_of(items, slots, declared, extra);
    let tops = blueprint::outside(p.slots);
    let g0 = blueprint::grid_on(p, 0);
    let width = blueprint::content_width(
        p.items,
        tops,
        blueprint::blocks_width(g0.cols, g0.layer_w),
    );
    let into = blueprint::on_side(p.items, tops, true);
    let out = blueprint::on_side(p.items, tops, false);
    let (ins, y) = blueprint::column(p.items, into, width, seq![], 0);
    let g = blueprint::grid_on(p, y);
    let n = p.ids.len() as int;
    let mid = blueprint::blocks(p, g, ins, n);
    let ps = blueprint::drawn(p).0;
    lemma_outside(slots);
    lemma_side(items, tops, true);
    lemma_side(items, tops, false);
    assert forall|i: int| 0 <= i < into.len() implies 0 <= #[trigger] into[i] < slots.len() && !(
    slots[into[i]] is Block) by {
        assert(into.contains(into[i]));
        assert(tops.contains(into[i]));
        let k = choose|k: int| 0 <= k < tops.len() && tops[k] == into[i];
        assert(tops[k] == into[i]);
    }
    assert forall|i: int| 0 <= i < out.len() implies 0 <= #[trigger] out[i] < slots.len() && !(
    slots[out[i]] is Block) by {
        assert(out.contains(out[i]));
        assert(tops.contains(out[i]));
        let k = choose|k: int| 0 <= k < tops.len() && tops[k] == out[i];
        assert(tops[k] == out[i]);
    }
    lemma_column_shown(items, slots, into, width, seq![], 0);
    lemma_blocks_shown(p, g, ins, n);
    lemma_column_shown(items, slots, out, width, mid, blueprint::below_grid(n, g));
    assert forall|j: int| #[trigger] stays_in_place(slots, j) implies exists|k: int|
        0 <= k < ps.len() && shows_item(#[trigger] ps[k], items, slots, j) by {
        match slots[j] {
            name_tree::Place::Block { idx, sub_path } => {
                layers_hold_what_occurs(slots, declared, idx);
                lemma_block_subs(slots, j);
                lemma_canonical(slots, extra, sub_path);
                assert(p.ids.contains(idx));
                assert(p.subs.contains(sub_path));
                let q = choose|q: int| 0 <= q < p.ids.len() && p.ids[q] == idx;
                let m = choose|m: int| 0 <= m < p.subs.len() && p.subs[m] == sub_path;
                lemma_holder(slots, idx, sub_path);
                assert(blueprint::holder(slots, p.ids[q], p.subs[m]) == Some(j)) by {
                    match blueprint::holder(slots, idx, sub_path) {
                        Some(i) => {
                            if i < j {
                                assert(slots[j] != slots[i]);
                            } else if j < i {
                                assert(slots[i] != slots[j]);
                            }
                        },
                        None => {
                            assert(slots[j] != slots[j]);
                        },
                    }
                }
                let i = choose|i: int|
                    ins.len() <= i < mid.len() && shows_item(#[trigger] mid[i], items, slots, j);
                assert(ps[i] == mid[i]);
            },
            _ => {
                assert(tops.contains(j));
                if goes_in(items[j]) {
                    assert(into.contains(j));
                    let i = choose|i: int| 0 <= i < into.len() && into[i] == j;
                    assert(shows_item(ins[0 + i], items, slots, into[i]));
                    assert(ps[i] == mid[i] && mid[i] == ins[i]);
                } else {
                    assert(out.contains(j));
                    let i = choose|i: int| 0 <= i < out.len() && out[i] == j;
                    assert(shows_item(ps[mid.len() + i], items, slots, out[i]));
                }
            },
        }
    }
}

/// A tensor of a source, by its place.
pub open spec fn tensor_at(sources: Seq<Source>, i: int, a: int) -> Option<TensorMeta> {
    if 0 <= i < sources.len() && !(sources[i].kind is UnmatchedRegion) {
        match sources[i].safetensors {
            Some(info) => if 0 <= a < info.tensors@.len() {
                Some(info.tensors@[a])
            } else {
                None
            },
            None => None,
        }
    } else {
        None
    }
}

proof fn lemma_gathered_from(sources: Seq<Source>, offsets: Seq<u64>, j: int) -> (p: (int, int))
    requires
        0 <= j < select::gathered(sources, offsets).len(),
        sources.len() <= usize::MAX,
    ensures
        tensor_at(sources, p.0, p.1) matches Some(t) && select::gathered(sources, offsets)[j]
            == (Item {
            source: p.0 as usize,
            tensor: t@,
            offset: if p.0 < offsets.len() {
                offsets[p.0]
            } else {
                0
            },
        }),
    decreases sources.len(),
{
    let init = sources.drop_last();
    let n = sources.len() - 1;
    let before = select::gathered(init, offsets);
    if j < before.len() {
        let p = lemma_gathered_from(init, offsets, j);
        assert(init[p.0] == sources[p.0]);
        p
    } else {
        let a = j - before.len();
        let s = sources.last();
        assert(s == sources[n]);
        let ts = source::model_of(s.safetensors)->0.tensors;
        assert(ts[a] == s.safetensors->0.tensors@[a]@);
        (n, a)
    }
}

proof fn lemma_gathered_at(sources: Seq<Source>, offsets: Seq<u64>, i: int, a: int) -> (j: int)
    requires
        tensor_at(sources, i, a) is Some,
        sources.len() <= usize::MAX,
    ensures
        0 <= j < select::gathered(sources, offsets).len(),
        select::gathered(sources, offsets)[j] == (Item {
            source: i as usize,
            tensor: tensor_at(sources, i, a)->0@,
            offset: if i < offsets.len() {
                offsets[i]
            } else {
                0
            },
        }),
    decreases sources.len(),
{
    let init = sources.drop_last();
    let n = sources.len() - 1;
    let before = select::gathered(init, offsets);
    if i < n {
        assert(init[i] == sources[i]);
        lemma_gathered_at(init, offsets, i, a)
    } else {
        let s = sources.last();
        assert(s == sources[n]);
        let ts = source::model_of(s.safetensors)->0.tensors;
        assert(ts[a] == s.safetensors->0.tensors@[a]@);
        before.len() + a
    }
}

/// The layout is the canvas of the sources' tensors.
pub open spec fn is_layout_of(
    l: ArchLayout,
    sources: Seq<Source>,
    offsets: Seq<u64>,
    metas: Seq<SourceMeta>,
) -> bool {
    &&& sources.len() <= usize::MAX
    &&& l.draws(
        select::arch_plan(select::gathered(sources, offsets), metas),
        select::architecture_of(metas),
    )
    &&& l.wf()
}

/// Where a source starts.
pub open spec fn start_of(offsets: Seq<u64>, i: int) -> int {
    if i < offsets.len() {
        offsets[i] as int
    } else {
        0
    }
}

proof fn lemma_product_front(s: Seq<u64>)
    requires
        s.len() > 0,
    ensures
        types::product(s) == s[0] * types::product(s.skip(1)),
    decreases s.len(),
{
    let init = s.drop_last();
    if init.len() == 0 {
        assert(s.skip(1) =~= seq![]);
        assert(init =~= seq![]);
        assert(types::product(init) == 1);
        assert(types::product(s.skip(1)) == 1);
        assert(s[0] * 1 == s[0] && 1 * s[0] == s[0]);
        assert(types::product(s) == 1 * (s.last() as nat));
    } else {
        lemma_product_front(init);
        assert(s.skip(1).drop_last() =~= init.skip(1));
        assert(s.skip(1).last() == s.last());
        let a = s[0] as int;
        let b = types::product(init.skip(1)) as int;
        let c = s.last() as int;
        assert((a * b) * c == a * (b * c)) by (nonlinear_arith);
        assert(types::product(init) == a * b);
        assert(types::product(s) == (a * b) * c);
        assert(types::product(s.skip(1)) == b * c);
    }
}

/// The grid of a tensor has as many elements as the tensor, in row-major order:
/// its rows are the first dimension, unless there is only one.
pub proof fn grids_hold_every_element(shape: Seq<u64>)
    ensures
        types::grid_of(shape).0 * types::grid_of(shape).1 == types::product(shape),
        shape.len() >= 2 ==> types::grid_of(shape).0 == shape[0],
        shape.len() < 2 ==> types::grid_of(shape).0 == 1,
{
    if shape.len() >= 1 {
        lemma_product_front(shape);
        if shape.len() == 1 {
            assert(shape.drop_last() =~= seq![]);
            assert(types::product(shape.drop_last()) == 1);
            assert(types::product(shape) == 1 * (shape[0] as nat));
        }
    } else {
        assert(types::product(shape) == 1);
    }
}

/// Every placed tensor is a tensor of one of the sources: it has its name and
/// element type, one grid cell for each of its elements, and starts as far
/// behind the start of that source as the tensor does in its file.
pub proof fn placed_tensors_stem_from_sources(
    l: ArchLayout,
    sources: Seq<Source>,
    offsets: Seq<u64>,
    metas: Seq<SourceMeta>,
    k: int,
)
    requires
        is_layout_of(l, sources, offsets, metas),
        0 <= k < l.tensors@.len(),
    ensures
        ({
            let p = l.tensors@[k];
            &&& p.tensor_id == k
            &&& exists|a: int|
                {
                    &&& #[trigger] tensor_at(sources, p.source_idx as int, a) matches Some(t)
                    &&& p.name@ == t.name@
                    &&& p.dtype == t.dtype
                    &&& p.tensor_byte_start == start_of(offsets, p.source_idx as int)
                        + t.file_start
                    &&& p.tensor_rows * p.tensor_cols == types::product(t.shape@)
                    &&& p.tensor_rows == (if t.shape@.len() >= 2 {
                        t.shape@[0]
                    } else {
                        1
                    })
                }
        }),
{
    let its = select::gathered(sources, offsets);
    let slots = select::arch_profile(its).slots;
    let plan = select::arch_plan(its, metas);
    assert(slots.len() == its.len());
    lemma_drawn_shown(its, slots, select::declared_layers(metas), select::indexed_subs(metas));
    tile_laws::lemma_drawn_numbered(plan);
    let ps = blueprint::canvas(plan).tensors;
    assert(l@.tensors == ps);
    assert(ps[k] == l.tensors@[k]@);
    assert(is_shown(ps[k], its, slots));
    let j = choose|j: int| shows_item(ps[k], its, slots, j);
    let q = lemma_gathered_from(sources, offsets, j);
    grids_hold_every_element(its[j].tensor.shape);
    assert(tensor_at(sources, l.tensors@[k].source_idx as int, q.1) is Some);
}

/// The place that the names give to the tensor at place `j` of all.
pub open spec fn place_of(sources: Seq<Source>, offsets: Seq<u64>, j: int) -> name_tree::Place {
    select::arch_profile(select::gathered(sources, offsets)).slots[j]
}

/// No tensor is left out: each is placed, unless a later one has the same layer
/// and sub-path.
pub proof fn no_tensor_is_left_out(
    l: ArchLayout,
    sources: Seq<Source>,
    offsets: Seq<u64>,
    metas: Seq<SourceMeta>,
    j: int,
)
    requires
        is_layout_of(l, sources, offsets, metas),
        0 <= j < select::gathered(sources, offsets).len(),
        !(place_of(sources, offsets, j) is Block) || forall|k: int|
            j < k < select::gathered(sources, offsets).len() ==> #[trigger] place_of(
                sources,
                offsets,
                k,
            ) != place_of(sources, offsets, j),
    ensures
        ({
            let it = select::gathered(sources, offsets)[j];
            exists|k: int|
                {
                    &&& 0 <= k < l.tensors@.len()
                    &&& (#[trigger] l.tensors@[k]).source_idx == it.source
                    &&& l.tensors@[k].name@ == it.tensor.name
                    &&& l.tensors@[k].tensor_byte_start == it.offset + it.tensor.start
                    &&& match place_of(sources, offsets, j) {
                        name_tree::Place::Block { idx, sub_path: _ } => l.tensors@[k].layer_idx
                            == Some(idx),
                        _ => l.tensors@[k].layer_idx is None,
                    }
                }
        }),
{
    let its = select::gathered(sources, offsets);
    let slots = select::arch_profile(its).slots;
    let plan = select::arch_plan(its, metas);
    assert(slots.len() == its.len());
    lemma_drawn_shown(its, slots, select::declared_layers(metas), select::indexed_subs(metas));
    let ps = blueprint::canvas(plan).tensors;
    assert(l@.tensors == ps);
    assert forall|k: int| j < k < slots.len() && slots[j] is Block implies #[trigger] slots[k]
        != slots[j] by {
        assert(place_of(sources, offsets, k) == slots[k]);
    }
    assert(stays_in_place(slots, j));
    let k = choose|k: int| 0 <= k < ps.len() && shows_item(#[trigger] ps[k], its, slots, j);
    assert(ps[k] == l.tensors@[k]@);
}

/// The regions are what the layout shows in the tile at `(tx, ty)`.
pub open spec fn are_regions_of(rs: Seq<TileRegion>, l: ArchLayout, tx: int, ty: int) -> bool {
    tile::all_denote(
        rs,
        tile::windows(l@.tensors, l@.order, tx, ty, l@.order.len() as int),
    )
}

/// A region of a tile reads a placed tensor by its own number, source, element
/// type, grid and bytes. It paints a box of it, one pixel per element, at the
/// place where the tensor lies on the canvas.
pub proof fn regions_read_their_tensors(
    l: ArchLayout,
    sources: Seq<Source>,
    offsets: Seq<u64>,
    metas: Seq<SourceMeta>,
    rs: Seq<TileRegion>,
    tx: int,
    ty: int,
    i: int,
)
    requires
        is_layout_of(l, sources, offsets, metas),
        arch_laws::in_range(
            select::arch_plan(select::gathered(sources, offsets), metas),
        ),
        are_regions_of(rs, l, tx, ty),
        0 <= i < rs.len(),
        rs[i].tensor_rows > 0,
        rs[i].tensor_cols > 0,
    ensures
        ({
            let r = rs[i];
            let t = l.tensors@[r.tensor_id as int];
            &&& r.tensor_id < l.tensors@.len()
            &&& r.source_idx == t.source_idx
            &&& r.dtype == t.dtype
            &&& r.tensor_byte_start == t.tensor_byte_start
            &&& r.tensor_rows == t.tensor_rows && r.tensor_cols == t.tensor_cols
            &&& r.footprint_h == t.tensor_rows && r.footprint_w == t.tensor_cols
            &&& r.row_first < r.row_last_exclusive <= t.tensor_rows
            &&& r.col_first < r.col_last_exclusive <= t.tensor_cols
            &&& r.samp_y0 == r.row_first && r.samp_x0 == r.col_first
            &&& r.row_last_exclusive - r.row_first == r.tile_y1 - r.tile_y0
            &&& r.col_last_exclusive - r.col_first == r.tile_x1 - r.tile_x0
            &&& r.tile_x0 < r.tile_x1 <= TILE
            &&& r.tile_y0 < r.tile_y1 <= TILE
            &&& tx * TILE + r.tile_x0 == t.canvas_x + r.col_first
            &&& ty * TILE + r.tile_y0 == t.canvas_y + r.row_first
        }),
{
    let its = select::gathered(sources, offsets);
    let slots = select::arch_profile(its).slots;
    let plan = select::arch_plan(its, metas);
    let declared = select::declared_layers(metas);
    let extra = select::indexed_subs(metas);
    let ps = l@.tensors;
    let ids = l@.order;
    let n = ids.len() as int;
    let ws = tile::windows(ps, ids, tx, ty, n);
    tile_laws::lemma_order_once(ps);
    tile_laws::lemma_drawn_numbered(plan);
    assert(ps == blueprint::canvas(plan).tensors);
    let o = tile_laws::lemma_window_from(ps, ids, tx, ty, n, i);
    let k = ids[o];
    assert(tile::denotes(rs[i], ws[i]));
    assert(ps[k] == l.tensors@[k]@);
    assert(ps[k].id == k);
    tile_laws::windows_are_boxes_of_the_tensor(its, slots, declared, extra, k, tx, ty);
}

/// What a tile reads of a tensor lies within the bytes that the file gives to
/// it, so that tensors with bytes of their own are never mixed up.
pub proof fn regions_stay_within_their_tensors(
    l: ArchLayout,
    sources: Seq<Source>,
    offsets: Seq<u64>,
    metas: Seq<SourceMeta>,
    rs: Seq<TileRegion>,
    tx: int,
    ty: int,
    i: int,
    row: int,
    col: int,
)
    requires
        is_layout_of(l, sources, offsets, metas),
        arch_laws::in_range(
            select::arch_plan(select::gathered(sources, offsets), metas),
        ),
        are_regions_of(rs, l, tx, ty),
        0 <= i < rs.len(),
        rs[i].tensor_rows > 0,
        rs[i].tensor_cols > 0,
        rs[i].row_first <= row < rs[i].row_last_exclusive,
        rs[i].col_first <= col < rs[i].col_last_exclusive,
        forall|s: int, a: int|
            #[trigger] tensor_at(sources, s, a) matches Some(t) ==> t.file_end - t.file_start
                == types::product(t.shape@) * dtype::size_of_element(t.dtype),
    ensures
        ({
            let r = rs[i];
            let width = dtype::size_of_element(r.dtype);
            let at = r.tensor_byte_start + (row * r.tensor_cols + col) * width;
            let base = start_of(offsets, r.source_idx as int);
            exists|a: int|
                {
                    &&& #[trigger] tensor_at(sources, r.source_idx as int, a) matches Some(t)
                    &&& t.name@ == l.tensors@[r.tensor_id as int].name@
                    &&& base + t.file_start <= at
                    &&& at + width <= base + t.file_end
                }
        }),
{
    let r = rs[i];
    regions_read_their_tensors(l, sources, offsets, metas, rs, tx, ty, i);
    let k = r.tensor_id as int;
    placed_tensors_stem_from_sources(l, sources, offsets, metas, k);
    let p = l.tensors@[k];
    let a = choose|a: int|
        {
            &&& #[trigger] tensor_at(sources, p.source_idx as int, a) matches Some(t)
            &&& p.name@ == t.name@
            &&& p.dtype == t.dtype
            &&& p.tensor_byte_start == start_of(offsets, p.source_idx as int) + t.file_start
            &&& p.tensor_rows * p.tensor_cols == types::product(t.shape@)
            &&& p.tensor_rows == (if t.shape@.len() >= 2 {
                t.shape@[0]
            } else {
                1
            })
        };
    let t = tensor_at(sources, p.source_idx as int, a)->0;
    let w = dtype::size_of_element(r.dtype);
    let rows = r.tensor_rows as int;
    let cols = r.tensor_cols as int;
    assert(0 <= (row * cols + col) * w && (row * cols + col) * w + w <= (rows * cols) * w)
        by (nonlinear_arith)
        requires
            0 <= row < rows,
            0 <= col < cols,
            w >= 1,
    ;
    assert(tensor_at(sources, r.source_idx as int, a) == Some(t));
}

} // verus!
