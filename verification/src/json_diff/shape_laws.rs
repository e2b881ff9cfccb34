//! What the shape hash sees of a value.

use vstd::prelude::*;
use super::alignment;
use super::grammar;
use super::parse::NodeKind;
use crate::order;

verus! {

/// The kinds of the elements of a list of children.
pub open spec fn element_kinds(cs: Seq<grammar::Branch>) -> Seq<Option<NodeKind>> {
    cs.map_values(
        |c: grammar::Branch|
            match c {
                grammar::Branch::Element { value, .. } => Some(value.kind),
                grammar::Branch::Member { .. } => None,
            },
    )
}

/// Two values have one shape: objects with the same keys, however they are
/// ordered, arrays with the same kinds of elements, or primitives of one kind
/// with the same bytes. What holds whitespace alone does not count.
pub open spec fn alike(a: grammar::Tree, b: grammar::Tree) -> bool {
    &&& a.kind == b.kind
    &&& match a.kind {
        NodeKind::Object => alignment::object_keys(a.children).to_multiset()
            == alignment::object_keys(b.children).to_multiset(),
        NodeKind::Array => element_kinds(alignment::real_elements(a.children)) == element_kinds(
            alignment::real_elements(b.children),
        ),
        _ => a.content == b.content,
    }
}

proof fn lemma_kinds_writes(a: Seq<grammar::Branch>, b: Seq<grammar::Branch>)
    requires
        element_kinds(a) == element_kinds(b),
    ensures
        a.len() == b.len(),
        alignment::kinds_writes(a) == alignment::kinds_writes(b),
    decreases a.len(),
{
    assert(element_kinds(a).len() == a.len() && element_kinds(b).len() == b.len());
    if a.len() > 0 {
        assert(element_kinds(a.drop_last()) =~= element_kinds(a).drop_last());
        assert(element_kinds(b.drop_last()) =~= element_kinds(b).drop_last());
        lemma_kinds_writes(a.drop_last(), b.drop_last());
        assert(element_kinds(a).last() == element_kinds(b).last());
    }
}

/// Values of one shape have one hash, whatever the order of the keys, the
/// values of the members, what trails them, and where they stand.
pub proof fn like_shapes_hash_alike(a: grammar::Branch, b: grammar::Branch)
    requires
        a is Element,
        b is Element,
        alike(*a->Element_value, *b->Element_value),
    ensures
        alignment::shape_hash(a) == alignment::shape_hash(b),
{
    let x = *a->Element_value;
    let y = *b->Element_value;
    if x.kind == NodeKind::Object {
        order::texts_sort_alike(
            alignment::object_keys(x.children),
            alignment::object_keys(y.children),
        );
    } else if x.kind == NodeKind::Array {
        lemma_kinds_writes(
            alignment::real_elements(x.children),
            alignment::real_elements(y.children),
        );
    }
    assert(alignment::shape_writes(x) =~= alignment::shape_writes(y));
}

} // verus!
