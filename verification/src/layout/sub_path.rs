//! The order of tensors inside a transformer block, and the side of a model on
//! which a top-level tensor stands.

use vstd::prelude::*;
use crate::layout::name_tree;
use crate::layout::name_tree::block_captures;
use crate::order;
use crate::order::{sort_by, str_le};
use crate::text;
use crate::text::{contains, to_lower};

verus! {

/// Attention first, then MLP, then norms, then the rest.
pub open spec fn group_rank(lower: Seq<char>) -> u8 {
    if text::has(lower, "attn"@) || text::has(lower, "attention"@) {
        0
    } else if text::has(lower, "mlp"@) || text::has(lower, "feed_forward"@) || text::has(
        lower,
        "gate_proj"@,
    ) || text::has(lower, "up_proj"@) || text::has(lower, "down_proj"@) {
        1
    } else if text::has(lower, "norm"@) || text::has(lower, "ln_"@) {
        2
    } else {
        3
    }
}

/// Within attention q, k, v, o; within MLP gate, up, down.
pub open spec fn part_rank(lower: Seq<char>) -> u8 {
    if text::has(lower, "q_proj"@) || text::has(lower, "query"@) {
        0
    } else if text::has(lower, "k_proj"@) || text::has(lower, "key"@) {
        1
    } else if text::has(lower, "v_proj"@) || text::has(lower, "value"@) {
        2
    } else if text::has(lower, "o_proj"@) || text::has(lower, "output"@) {
        3
    } else if text::has(lower, "gate_proj"@) {
        4
    } else if text::has(lower, "up_proj"@) {
        5
    } else if text::has(lower, "down_proj"@) {
        6
    } else {
        7
    }
}

/// By group, then by part, then by text; `la` and `lb` are the two paths in
/// lower case.
pub open spec fn ranked_le(a: Seq<char>, la: Seq<char>, b: Seq<char>, lb: Seq<char>) -> bool {
    if group_rank(la) != group_rank(lb) {
        group_rank(la) < group_rank(lb)
    } else if part_rank(la) != part_rank(lb) {
        part_rank(la) < part_rank(lb)
    } else {
        order::text_le(a, b)
    }
}

/// The order of two sub-paths.
pub open spec fn sub_path_le(a: Seq<char>, b: Seq<char>) -> bool {
    ranked_le(a, text::lowercase(a), b, text::lowercase(b))
}

/// Sub-paths in the order in which a block shows them.
pub open spec fn sorted_sub_paths(s: Seq<Seq<char>>) -> Seq<Seq<char>> {
    order::stable_sort(s, |a: Seq<char>, b: Seq<char>| sub_path_le(a, b))
}

/// The ranks of a sub-path, given in lower case.
pub fn ranks_of(lower: &str) -> (r: (u8, u8))
    ensures
        r.0 == group_rank(lower@),
        r.1 == part_rank(lower@),
{
    let group: u8 = if contains(lower, "attn") || contains(lower, "attention") {
        0
    } else if contains(lower, "mlp") || contains(lower, "feed_forward") || contains(
        lower,
        "gate_proj",
    ) || contains(lower, "up_proj") || contains(lower, "down_proj") {
        1
    } else if contains(lower, "norm") || contains(lower, "ln_") {
        2
    } else {
        3
    };
    let part: u8 = if contains(lower, "q_proj") || contains(lower, "query") {
        0
    } else if contains(lower, "k_proj") || contains(lower, "key") {
        1
    } else if contains(lower, "v_proj") || contains(lower, "value") {
        2
    } else if contains(lower, "o_proj") || contains(lower, "output") {
        3
    } else if contains(lower, "gate_proj") {
        4
    } else if contains(lower, "up_proj") {
        5
    } else if contains(lower, "down_proj") {
        6
    } else {
        7
    };
    (group, part)
}

/// Order key for sub-paths within a layer: attention, then MLP, then norms,
/// then "other". Within attention, q/k/v/o; within MLP, gate/up/down.
pub fn sub_path_order_key(s: &str) -> (r: (u8, u8, String))
    ensures
        r.0 == group_rank(text::lowercase(s@)),
        r.1 == part_rank(text::lowercase(s@)),
        r.2@ == s@,
{
    let (group, part): (u8, u8) = ranks_of(to_lower(s).as_str());
    (group, part, s.to_owned())
}

fn sub_path_before(a: &String, b: &String) -> (r: bool)
    ensures
        r == sub_path_le(a@, b@),
{
    let x = sub_path_order_key(a.as_str());
    let y = sub_path_order_key(b.as_str());
    if x.0 != y.0 {
        x.0 < y.0
    } else if x.1 != y.1 {
        x.1 < y.1
    } else {
        str_le(a.as_str(), b.as_str())
    }
}

/// Sorts sub-paths into the order in which a block shows them.
pub fn sort_sub_paths(v: Vec<String>) -> (r: Vec<String>)
    ensures
        order::texts(r@) == sorted_sub_paths(order::texts(v@)),
{
    let ghost le = |a: String, b: String| sub_path_le(a@, b@);
    proof {
        order::stable_sort_map(
            v@,
            le,
            |s: String| s@,
            |a: Seq<char>, b: Seq<char>| sub_path_le(a, b),
        );
    }
    sort_by(v, sub_path_before, Ghost(le))
}

/// Whether a name, given in lower case, is that of an embedding.
pub open spec fn is_embedding(lower: Seq<char>) -> bool {
    text::has(lower, "embed"@) || text::has(lower, "wte"@) || text::has(lower, "wpe"@)
}

/// Whether a name, given in lower case, is that of an embedding.
pub fn names_embedding(lower: &str) -> (r: bool)
    ensures
        r == is_embedding(lower@),
{
    contains(lower, "embed") || contains(lower, "wte") || contains(lower, "wpe")
}

/// Whether a top-level tensor stands on the input side of the model.
pub fn is_input_side_name(name: &str) -> (r: bool)
    ensures
        r == is_embedding(text::lowercase(name@)),
{
    names_embedding(to_lower(name).as_str())
}

/// The in-layer sub-path of a tensor name.
pub open spec fn block_sub_path(name: Seq<char>) -> Option<Seq<char>> {
    match name_tree::block_parts(name) {
        Some((_, sub)) => Some(sub),
        None => None,
    }
}

/// Extract the in-layer sub-path for tensor names that match the
/// transformer-block pattern (e.g. `"model.layers.7.q_proj.weight"`
/// → `Some("q_proj.weight")`). Used to seed the canonical sub-path set
/// from `model.safetensors.index.json` entries that didn't get loaded.
pub fn extract_block_sub_path(name: &str) -> (r: Option<String>)
    ensures
        match r {
            Some(s) => block_sub_path(name@) == Some(s@),
            None => block_sub_path(name@) is None,
        },
{
    match block_captures(name) {
        Some((_, sub)) => Some(sub),
        None => None,
    }
}

/// The order of sub-paths can be decided for any two of them, and follows
/// chains.
pub proof fn sub_path_order_is_total()
    ensures
        order::is_total(|a: Seq<char>, b: Seq<char>| sub_path_le(a, b)),
{
    let le = |a: Seq<char>, b: Seq<char>| sub_path_le(a, b);
    assert forall|a: Seq<char>, b: Seq<char>| #[trigger] le(a, b) || le(b, a) by {
        order::text_le_total(a, b);
    }
    assert forall|a: Seq<char>, b: Seq<char>, c: Seq<char>| #[trigger]
        le(a, b) && #[trigger] le(b, c) implies le(a, c) by {
        if order::text_le(a, b) && order::text_le(b, c) {
            order::text_le_transitive(a, b, c);
        }
    }
}

} // verus!
