//! JSON values as the header parser reads them.

use vstd::prelude::*;

verus! {

/// A JSON value. A number is kept as far as it is a non-negative integer.
#[derive(Debug)]
pub enum Json {
    Null,
    Bool(bool),
    Number(Option<u64>),
    Text(String),
    Array(Vec<Json>),
    Object(Vec<(String, Json)>),
}

/// What a JSON value denotes. The entries of an object stand in the order in
/// which they are walked.
pub ghost enum JsonTree {
    Null,
    Bool(bool),
    Number(Option<u64>),
    Text(Seq<char>),
    Array(Seq<JsonTree>),
    Object(Seq<(Seq<char>, JsonTree)>),
}

/// What a JSON value denotes.
pub open spec fn json_tree(j: Json) -> JsonTree
    decreases j,
{
    match j {
        Json::Null => JsonTree::Null,
        Json::Bool(b) => JsonTree::Bool(b),
        Json::Number(n) => JsonTree::Number(n),
        Json::Text(s) => JsonTree::Text(s@),
        Json::Array(v) => JsonTree::Array(json_trees(v@)),
        Json::Object(v) => JsonTree::Object(entry_trees(v@)),
    }
}

/// What each value of a list denotes.
pub open spec fn json_trees(v: Seq<Json>) -> Seq<JsonTree>
    decreases v,
{
    if v.len() == 0 {
        seq![]
    } else {
        json_trees(v.drop_last()).push(json_tree(v.last()))
    }
}

/// What each entry of an object denotes.
pub open spec fn entry_trees(v: Seq<(String, Json)>) -> Seq<(Seq<char>, JsonTree)>
    decreases v,
{
    if v.len() == 0 {
        seq![]
    } else {
        entry_trees(v.drop_last()).push((v.last().0@, json_tree(v.last().1)))
    }
}

/// `serde_json::Value`, which is only handed on to be converted.
#[verifier::external_type_specification]
#[verifier::external_body]
pub struct ExValue(serde_json::Value);

/// What `serde_json::from_slice` reads from the bytes as a `serde_json::Value`:
/// the value, or the text of the error.
pub uninterp spec fn json_of_bytes(bytes: Seq<u8>) -> Result<JsonTree, Seq<char>>;

/// `serde_json::from_slice` into a `serde_json::Value`, converted variant by
/// variant; an error is converted to its text. The contract only says that the
/// bytes alone decide the outcome.
#[verifier::external_body]
pub(crate) fn parse_json(bytes: &[u8]) -> (r: Result<Json, String>)
    ensures
        match r {
            Ok(j) => json_of_bytes(bytes@) == Ok::<JsonTree, Seq<char>>(json_tree(j)),
            Err(e) => json_of_bytes(bytes@) == Err::<JsonTree, Seq<char>>(e@),
        },
{
    match serde_json::from_slice::<serde_json::Value>(bytes) {
        Ok(v) => Ok(json_of_value(v)),
        Err(e) => Err(e.to_string()),
    }
}

/// Converts a `serde_json::Value` variant by variant; a number to the result
/// of `serde_json::Number::as_u64`. Nothing is claimed of the result.
#[verifier::external_body]
fn json_of_value(v: serde_json::Value) -> Json {
    match v {
        serde_json::Value::Null => Json::Null,
        serde_json::Value::Bool(b) => Json::Bool(b),
        serde_json::Value::Number(n) => Json::Number(n.as_u64()),
        serde_json::Value::String(s) => Json::Text(s),
        serde_json::Value::Array(a) => Json::Array(a.into_iter().map(json_of_value).collect()),
        serde_json::Value::Object(o) => {
            Json::Object(o.into_iter().map(|(k, x)| (k, json_of_value(x))).collect())
        },
    }
}

/// The entry trees of a list, one for each entry.
pub proof fn lemma_entry_trees_index(v: Seq<(String, Json)>, i: int)
    requires
        0 <= i < v.len(),
    ensures
        entry_trees(v).len() == v.len(),
        entry_trees(v)[i] == (v[i].0@, json_tree(v[i].1)),
    decreases v.len(),
{
    lemma_entry_trees_len(v);
    lemma_entry_trees_len(v.drop_last());
    if i < v.len() - 1 {
        lemma_entry_trees_index(v.drop_last(), i);
    }
}

/// An object denotes as many entries as it holds.
pub proof fn lemma_entry_trees_len(v: Seq<(String, Json)>)
    ensures
        entry_trees(v).len() == v.len(),
    decreases v.len(),
{
    if v.len() > 0 {
        lemma_entry_trees_len(v.drop_last());
    }
}

/// The trees of a list, one for each value.
pub proof fn lemma_json_trees_index(v: Seq<Json>, i: int)
    requires
        0 <= i < v.len(),
    ensures
        json_trees(v).len() == v.len(),
        json_trees(v)[i] == json_tree(v[i]),
    decreases v.len(),
{
    lemma_json_trees_len(v);
    lemma_json_trees_len(v.drop_last());
    if i < v.len() - 1 {
        lemma_json_trees_index(v.drop_last(), i);
    }
}

/// A list denotes as many values as it holds.
pub proof fn lemma_json_trees_len(v: Seq<Json>)
    ensures
        json_trees(v).len() == v.len(),
    decreases v.len(),
{
    if v.len() > 0 {
        lemma_json_trees_len(v.drop_last());
    }
}

} // verus!
