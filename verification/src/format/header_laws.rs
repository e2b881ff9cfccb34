//! What the tensors of a parsed header say, held against the header's own
//! entries.

use vstd::prelude::*;
use super::dtype;
use super::dtype::Dtype;
use super::json::JsonTree;
use super::safetensors;
use super::safetensors::{ColorRange, HeaderError};
use super::types;
use super::types::TensorMeta;
use crate::color::Rgb;
use crate::diff_laws;
use crate::order;

verus! {

/// The object's first entry under the key has the given value.
pub open spec fn has_field(es: Seq<(Seq<char>, JsonTree)>, key: Seq<char>, val: JsonTree) -> bool {
    exists|i: int|
        0 <= i < es.len() && #[trigger] es[i] == (key, val) && forall|j: int|
            0 <= j < i ==> (#[trigger] es[j]).0 != key
}

/// The entry of the header describes the tensor: the tensor has its name, the
/// type and the numbers of elements that it names, and lies where its two
/// offsets, counted from the end of the header, say.
pub open spec fn describes(e: (Seq<char>, JsonTree), t: types::Tensor, header_end: int) -> bool {
    &&& t.name == e.0
    &&& e.1 matches JsonTree::Object(es) && {
        &&& exists|d: Seq<char>| #[trigger]
            has_field(es, "dtype"@, JsonTree::Text(d)) && t.dtype == dtype::dtype_named(d)
        &&& exists|ds: Seq<JsonTree>| #[trigger]
            has_field(es, "shape"@, JsonTree::Array(ds)) && are_numbers(ds, t.shape)
        &&& exists|os: Seq<JsonTree>| #[trigger]
            has_field(es, "data_offsets"@, JsonTree::Array(os)) && are_offsets(
                os,
                t.start - header_end,
                t.end - header_end,
            )
    }
}

/// The values are the given numbers.
pub open spec fn are_numbers(vs: Seq<JsonTree>, ns: Seq<u64>) -> bool {
    &&& vs.len() == ns.len()
    &&& forall|i: int| 0 <= i < vs.len() ==> #[trigger] vs[i] == JsonTree::Number(Some(ns[i]))
}

/// The values are the two given numbers.
pub open spec fn are_offsets(vs: Seq<JsonTree>, start: int, end: int) -> bool {
    &&& vs.len() == 2
    &&& vs[0] matches JsonTree::Number(Some(n)) && n == start
    &&& vs[1] matches JsonTree::Number(Some(n)) && n == end
}

proof fn lemma_field(es: Seq<(Seq<char>, JsonTree)>, key: Seq<char>)
    ensures
        match safetensors::field(es, key) {
            Some(v) => has_field(es, key, v),
            None => forall|i: int| 0 <= i < es.len() ==> (#[trigger] es[i]).0 != key,
        },
    decreases es.len(),
{
    if es.len() > 0 {
        let init = es.drop_last();
        let n = es.len() - 1;
        lemma_field(init, key);
        match safetensors::field(init, key) {
            Some(v) => {
                let i = choose|i: int|
                    0 <= i < init.len() && #[trigger] init[i] == (key, v) && forall|j: int|
                        0 <= j < i ==> (#[trigger] init[j]).0 != key;
                assert(es[i] == (key, v));
                assert forall|j: int| 0 <= j < i implies (#[trigger] es[j]).0 != key by {
                    assert(init[j] == es[j]);
                }
            },
            None => {
                assert forall|j: int| 0 <= j < n implies (#[trigger] es[j]).0 != key by {
                    assert(init[j] == es[j]);
                }
                if es[n].0 == key {
                    assert(es[n] == (key, es[n].1));
                }
            },
        }
    }
}

proof fn lemma_dimensions(vs: Seq<JsonTree>)
    ensures
        safetensors::dimensions(vs) matches Some(ns) ==> are_numbers(vs, ns),
    decreases vs.len(),
{
    if vs.len() > 0 {
        let init = vs.drop_last();
        lemma_dimensions(init);
        match safetensors::dimensions(vs) {
            Some(ns) => {
                assert forall|i: int| 0 <= i < vs.len() implies #[trigger] vs[i]
                    == JsonTree::Number(Some(ns[i])) by {
                    if i < init.len() {
                        assert(init[i] == vs[i]);
                    }
                }
            },
            None => {},
        }
    }
}

proof fn lemma_described(e: (Seq<char>, JsonTree), t: types::Tensor, header_end: u64)
    requires
        safetensors::raw_tensor(e.0, e.1) matches Ok(raw) && t == (types::Tensor {
            name: e.0,
            dtype: raw.dtype,
            shape: raw.shape,
            start: (header_end + raw.start) as u64,
            end: (header_end + raw.end) as u64,
        }) && header_end + raw.start <= u64::MAX && header_end + raw.end <= u64::MAX,
    ensures
        describes(e, t, header_end as int),
{
    match e.1 {
        JsonTree::Object(es) => {
            lemma_field(es, "dtype"@);
            lemma_field(es, "shape"@);
            lemma_field(es, "data_offsets"@);
            match safetensors::field(es, "shape"@) {
                Some(JsonTree::Array(ds)) => lemma_dimensions(ds),
                _ => {},
            }
        },
        _ => {},
    }
}

/// Whether the entry of a header is one for a tensor.
pub open spec fn is_tensor_entry(e: (Seq<char>, JsonTree)) -> bool {
    e.0 != "__metadata__"@
}

spec fn stems(es: Seq<(Seq<char>, JsonTree)>, t: types::Tensor, header_end: u64) -> bool {
    exists|i: int|
        0 <= i < es.len() && is_tensor_entry(es[i]) && #[trigger] describes(
            es[i],
            t,
            header_end as int,
        )
}

spec fn listed(ts: Seq<types::Tensor>, e: (Seq<char>, JsonTree), header_end: u64) -> bool {
    exists|k: int| 0 <= k < ts.len() && #[trigger] describes(e, ts[k], header_end as int)
}

proof fn lemma_entries(es: Seq<(Seq<char>, JsonTree)>, header_end: u64)
    requires
        safetensors::entries_fit(es, header_end),
    ensures
        safetensors::tensors_of_entries(es, header_end) matches Ok(ts) ==> {
            &&& forall|k: int| 0 <= k < ts.len() ==> #[trigger] stems(es, ts[k], header_end)
            &&& forall|i: int|
                0 <= i < es.len() && is_tensor_entry(es[i]) ==> #[trigger] listed(
                    ts,
                    es[i],
                    header_end,
                )
        },
    decreases es.len(),
{
    if es.len() > 0 {
        let init = es.drop_last();
        let n = es.len() - 1;
        lemma_entries(init, header_end);
        match (
            safetensors::tensors_of_entries(init, header_end),
            safetensors::tensors_of_entries(es, header_end),
        ) {
            (Ok(before), Ok(ts)) => {
                if is_tensor_entry(es[n]) {
                    lemma_described(es[n], ts[ts.len() - 1], header_end);
                }
                assert forall|k: int| 0 <= k < ts.len() implies #[trigger] stems(
                    es,
                    ts[k],
                    header_end,
                ) by {
                    if k < before.len() {
                        assert(stems(init, before[k], header_end));
                        let i = choose|i: int|
                            0 <= i < init.len() && is_tensor_entry(init[i]) && #[trigger] describes(
                                init[i],
                                before[k],
                                header_end as int,
                            );
                        assert(es[i] == init[i] && ts[k] == before[k]);
                        assert(describes(es[i], ts[k], header_end as int));
                    } else {
                        assert(describes(es[n], ts[k], header_end as int));
                    }
                }
                assert forall|i: int|
                    0 <= i < es.len() && is_tensor_entry(es[i]) implies #[trigger] listed(
                    ts,
                    es[i],
                    header_end,
                ) by {
                    if i < n {
                        assert(init[i] == es[i]);
                        assert(listed(before, init[i], header_end));
                        let k = choose|k: int|
                            0 <= k < before.len() && #[trigger] describes(
                                init[i],
                                before[k],
                                header_end as int,
                            );
                        assert(ts[k] == before[k]);
                        assert(describes(es[i], ts[k], header_end as int));
                    } else {
                        assert(describes(es[i], ts[ts.len() - 1], header_end as int));
                    }
                }
            },
            _ => {},
        }
    }
}

/// The tensors of a header are those that its entries describe: each of them
/// is described by an entry, and each entry but the file's own metadata
/// describes one of them.
pub proof fn tensors_are_as_described(
    es: Seq<(Seq<char>, JsonTree)>,
    header_end: u64,
    v: Vec<TensorMeta>,
    k: int,
    i: int,
)
    requires
        safetensors::entries_fit(es, header_end),
        safetensors::outcome(
            Ok::<Vec<TensorMeta>, HeaderError>(v),
            safetensors::tensors_of_header(JsonTree::Object(es), header_end),
        ),
    ensures
        0 <= k < v@.len() ==> exists|e: int|
            0 <= e < es.len() && is_tensor_entry(es[e]) && #[trigger] describes(
                es[e],
                v@[k]@,
                header_end as int,
            ),
        0 <= i < es.len() && is_tensor_entry(es[i]) ==> exists|t: int|
            0 <= t < v@.len() && #[trigger] describes(es[i], v@[t]@, header_end as int),
{
    lemma_entries(es, header_end);
    let all = safetensors::tensors_of_entries(es, header_end)->Ok_0;
    let ts = types::tensors(v@);
    let le = |a: types::Tensor, b: types::Tensor| a.start <= b.start;
    assert(ts == order::stable_sort(all, le));
    if 0 <= k < v@.len() {
        assert(ts[k] == v@[k]@);
        assert(ts.contains(ts[k]));
        diff_laws::sorting_keeps_members(all, le, ts[k]);
        let j = choose|j: int| 0 <= j < all.len() && all[j] == ts[k];
        assert(stems(es, all[j], header_end));
    }
    if 0 <= i < es.len() && is_tensor_entry(es[i]) {
        assert(listed(all, es[i], header_end));
        let j = choose|j: int|
            0 <= j < all.len() && #[trigger] describes(es[i], all[j], header_end as int);
        assert(all.contains(all[j]));
        diff_laws::sorting_keeps_members(all, le, all[j]);
        let t = choose|t: int| 0 <= t < ts.len() && ts[t] == all[j];
        assert(ts[t] == v@[t]@);
        assert(describes(es[i], v@[t]@, header_end as int));
    }
}

/// A header that is read ends as many bytes behind its first eight as these
/// say, no more than the file and the limit allow.
pub proof fn headers_end_where_they_say(
    data: Seq<u8>,
    r: Result<(Vec<TensorMeta>, u64), HeaderError>,
)
    requires
        safetensors::header_outcome(r, safetensors::header_of(data)),
        data.len() >= 8 ==> 8 + safetensors::declared_size(data) <= u64::MAX,
    ensures
        r matches Ok(p) ==> 8 <= p.1 <= data.len() && p.1 - 8 <= 100 * 1024 * 1024 && p.1 - 8
            == vstd::bytes::spec_u64_from_le_bytes(data.take(8)),
        data.len() < 8 ==> r matches Err(HeaderError::TooShort),
        data.len() >= 8 && 8 + vstd::bytes::spec_u64_from_le_bytes(data.take(8)) > data.len()
            ==> r matches Err(HeaderError::ExceedsFile { .. }),
{
}

/// The range is one of the list.
pub open spec fn holds_range(rs: Seq<ColorRange>, start: u64, end: u64, color: Rgb) -> bool {
    rs.contains(ColorRange { start, end, color })
}

proof fn lemma_leading_keep(
    ts: Seq<types::Tensor>,
    header_end: u64,
    k: int,
    n: int,
    r: ColorRange,
)
    requires
        0 <= k <= n,
        safetensors::leading_ranges(ts, header_end, k).contains(r),
    ensures
        safetensors::leading_ranges(ts, header_end, n).contains(r),
    decreases n - k,
{
    if k < n {
        lemma_leading_keep(ts, header_end, k, n - 1, r);
        let a = safetensors::leading_ranges(ts, header_end, n - 1);
        let b = safetensors::leading_ranges(ts, header_end, n);
        let i = choose|i: int| 0 <= i < a.len() && a[i] == r;
        assert(b[i] == r);
    }
}

/// A file is coloured by what it holds: the header grey, each tensor with the
/// colour of its element type.
pub proof fn tensors_have_their_colour(
    ts: Seq<types::Tensor>,
    header_end: u64,
    file_size: u64,
    k: int,
)
    requires
        0 <= k < ts.len(),
    ensures
        ts[k].start < ts[k].end ==> holds_range(
            safetensors::file_ranges(ts, header_end, file_size),
            ts[k].start,
            ts[k].end,
            dtype::dtype_color(ts[k].dtype),
        ),
        header_end > 0 ==> holds_range(
            safetensors::file_ranges(ts, header_end, file_size),
            0,
            header_end,
            Rgb { r: 100, g: 100, b: 100 },
        ),
{
    let n = ts.len() as int;
    let all = safetensors::file_ranges(ts, header_end, file_size);
    let lead = safetensors::leading_ranges(ts, header_end, n);
    if ts[k].start < ts[k].end {
        let r = ColorRange {
            start: ts[k].start,
            end: ts[k].end,
            color: dtype::dtype_color(ts[k].dtype),
        };
        let here = safetensors::leading_ranges(ts, header_end, k + 1);
        assert(here[here.len() - 1] == r);
        lemma_leading_keep(ts, header_end, k + 1, n, r);
        let i = choose|i: int| 0 <= i < lead.len() && lead[i] == r;
        assert(all[i] == r);
    }
    if header_end > 0 {
        let r = ColorRange { start: 0, end: header_end, color: Rgb { r: 100, g: 100, b: 100 } };
        let first = safetensors::leading_ranges(ts, header_end, 0);
        assert(first[0] == r);
        lemma_leading_keep(ts, header_end, 0, n, r);
        let i = choose|i: int| 0 <= i < lead.len() && lead[i] == r;
        assert(all[i] == r);
    }
}

spec fn known_range(ts: Seq<types::Tensor>, header_end: u64, r: ColorRange) -> bool {
    ||| r == (ColorRange { start: 0, end: header_end, color: Rgb { r: 100, g: 100, b: 100 } })
    ||| r.color == (Rgb { r: 0, g: 0, b: 0 })
    ||| exists|k: int|
        0 <= k < ts.len() && r == (ColorRange {
            start: (#[trigger] ts[k]).start,
            end: ts[k].end,
            color: dtype::dtype_color(ts[k].dtype),
        })
}

proof fn lemma_leading_known(ts: Seq<types::Tensor>, header_end: u64, n: int, i: int)
    requires
        0 <= n <= ts.len(),
        0 <= i < safetensors::leading_ranges(ts, header_end, n).len(),
    ensures
        known_range(ts, header_end, safetensors::leading_ranges(ts, header_end, n)[i]),
    decreases n,
{
    if n > 0 {
        let a = safetensors::leading_ranges(ts, header_end, n - 1);
        if i < a.len() {
            lemma_leading_known(ts, header_end, n - 1, i);
            assert(safetensors::leading_ranges(ts, header_end, n)[i] == a[i]);
        } else {
            assert(ts[n - 1] == ts[n - 1]);
        }
    }
}

/// What is neither header nor tensor is black.
pub proof fn gaps_are_black(
    ts: Seq<types::Tensor>,
    header_end: u64,
    file_size: u64,
    i: int,
)
    requires
        0 <= i < safetensors::file_ranges(ts, header_end, file_size).len(),
    ensures
        ({
            let r = safetensors::file_ranges(ts, header_end, file_size)[i];
            ||| (r.start == 0 && r.end == header_end)
            ||| r.color == (Rgb { r: 0, g: 0, b: 0 })
            ||| exists|k: int|
                0 <= k < ts.len() && r.start == (#[trigger] ts[k]).start && r.end == ts[k].end
                    && r.color == dtype::dtype_color(ts[k].dtype)
        }),
{
    let n = ts.len() as int;
    let lead = safetensors::leading_ranges(ts, header_end, n);
    if i < lead.len() {
        lemma_leading_known(ts, header_end, n, i);
        assert(safetensors::file_ranges(ts, header_end, file_size)[i] == lead[i]);
    }
}

/// Whether the element type is a float.
pub open spec fn is_float(d: Dtype) -> bool {
    d is F64 || d is F32 || d is F16 || d is BF16 || d is F8E4M3 || d is F8E5M2
}

/// Types of one colour are integers of about one width: every float has a
/// colour of its own, and black is left to what is unknown.
pub proof fn colours_tell_types_apart(a: Dtype, b: Dtype)
    requires
        dtype::dtype_color(a) == dtype::dtype_color(b),
    ensures
        is_float(a) ==> a == b,
        a is Unknown ==> b is Unknown,
        dtype::size_of_element(a) <= 2 && !(a is Bool) && !(b is Bool)
            ==> dtype::size_of_element(a) == dtype::size_of_element(b),
        dtype::dtype_color(a) == (Rgb { r: 0, g: 0, b: 0 }) <==> a is Unknown,
{
}

} // verus!
