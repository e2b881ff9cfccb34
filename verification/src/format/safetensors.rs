//! Safetensors header parser.
//!
//! The format is:
//!   - 8 bytes: little-endian u64 `header_size`
//!   - `header_size` bytes: JSON object mapping tensor name → `{dtype, shape,
//!     data_offsets: [start, end]}` plus an optional `__metadata__` key
//!   - tensor data at byte offset `8 + header_size`
//!
//! `data_offsets` are relative to the end of the header; `TensorMeta`
//! stores absolute file offsets.

use vstd::prelude::*;
use vstd::slice::slice_subrange;
use vstd::string::StringExecFns;
use crate::color::{rgb, Rgb};
use crate::order;
use crate::order::sort_by;
use crate::text;
use crate::text::{decimal_string, str_eq};
use super::dtype;
use super::dtype::Dtype;
use super::json;
use super::json::{parse_json, Json};
use super::types;
use super::types::TensorMeta;

verus! {

/// The largest header that is read.
pub const MAX_HEADER_SIZE: u64 = 104_857_600;

/// Why a header was refused.
#[derive(Debug)]
pub enum HeaderError {
    TooShort,
    ExceedsFile { header_size: u64, file_len: u64 },
    ExceedsLimit { header_size: u64 },
    InvalidJson { reason: String },
    NotAnObject,
    TensorNotAnObject { name: String },
    MissingDtype { name: String },
    MissingShape { name: String },
    BadDimension { name: String },
    MissingOffsets { name: String },
    BadStart { name: String },
    BadEnd { name: String },
}

/// Why a header is refused.
pub ghost enum HeaderFault {
    TooShort,
    ExceedsFile { header_size: u64, file_len: u64 },
    ExceedsLimit { header_size: u64 },
    InvalidJson { reason: Seq<char> },
    NotAnObject,
    TensorNotAnObject { name: Seq<char> },
    MissingDtype { name: Seq<char> },
    MissingShape { name: Seq<char> },
    BadDimension { name: Seq<char> },
    MissingOffsets { name: Seq<char> },
    BadStart { name: Seq<char> },
    BadEnd { name: Seq<char> },
}

impl View for HeaderError {
    type V = HeaderFault;

    open spec fn view(&self) -> HeaderFault {
        match *self {
            HeaderError::TooShort => HeaderFault::TooShort,
            HeaderError::ExceedsFile { header_size, file_len } => HeaderFault::ExceedsFile {
                header_size,
                file_len,
            },
            HeaderError::ExceedsLimit { header_size } => HeaderFault::ExceedsLimit { header_size },
            HeaderError::InvalidJson { reason } => HeaderFault::InvalidJson { reason: reason@ },
            HeaderError::NotAnObject => HeaderFault::NotAnObject,
            HeaderError::TensorNotAnObject { name } => HeaderFault::TensorNotAnObject {
                name: name@,
            },
            HeaderError::MissingDtype { name } => HeaderFault::MissingDtype { name: name@ },
            HeaderError::MissingShape { name } => HeaderFault::MissingShape { name: name@ },
            HeaderError::BadDimension { name } => HeaderFault::BadDimension { name: name@ },
            HeaderError::MissingOffsets { name } => HeaderFault::MissingOffsets { name: name@ },
            HeaderError::BadStart { name } => HeaderFault::BadStart { name: name@ },
            HeaderError::BadEnd { name } => HeaderFault::BadEnd { name: name@ },
        }
    }
}

/// The message for a fault.
pub open spec fn fault_message(f: HeaderFault) -> Seq<char> {
    match f {
        HeaderFault::TooShort => "safetensors: file too short to contain header size field"@,
        HeaderFault::ExceedsFile { header_size, file_len } => "safetensors: header_size="@
            + text::decimal(header_size as nat) + " exceeds file length="@ + text::decimal(
            file_len as nat,
        ),
        HeaderFault::ExceedsLimit { header_size } => "safetensors: header_size="@ + text::decimal(
            header_size as nat,
        ) + " exceeds 100 MB safety limit"@,
        HeaderFault::InvalidJson { reason } => "safetensors: invalid JSON header: "@ + reason,
        HeaderFault::NotAnObject => "safetensors: header JSON is not an object"@,
        HeaderFault::TensorNotAnObject { name } => "safetensors: tensor '"@ + name
            + "' is not an object"@,
        HeaderFault::MissingDtype { name } => "safetensors: tensor '"@ + name
            + "' missing 'dtype'"@,
        HeaderFault::MissingShape { name } => "safetensors: tensor '"@ + name
            + "' missing 'shape'"@,
        HeaderFault::BadDimension { name } => "safetensors: tensor '"@ + name
            + "' shape dim is not u64"@,
        HeaderFault::MissingOffsets { name } => "safetensors: tensor '"@ + name
            + "' missing valid 'data_offsets'"@,
        HeaderFault::BadStart { name } => "safetensors: tensor '"@ + name
            + "' data_offsets[0] not u64"@,
        HeaderFault::BadEnd { name } => "safetensors: tensor '"@ + name
            + "' data_offsets[1] not u64"@,
    }
}

fn tensor_message(name: &String, what: &str) -> (s: String)
    ensures
        s@ == "safetensors: tensor '"@ + name@ + what@,
{
    "safetensors: tensor '".to_owned().concat(name.as_str()).concat(what)
}

impl HeaderError {
    /// The message for the error.
    pub fn message(&self) -> (s: String)
        ensures
            s@ == fault_message(self@),
    {
        match self {
            HeaderError::TooShort => {
                "safetensors: file too short to contain header size field".to_owned()
            },
            HeaderError::ExceedsFile { header_size, file_len } => {
                "safetensors: header_size=".to_owned().concat(
                    decimal_string(*header_size).as_str(),
                ).concat(" exceeds file length=").concat(decimal_string(*file_len).as_str())
            },
            HeaderError::ExceedsLimit { header_size } => {
                "safetensors: header_size=".to_owned().concat(
                    decimal_string(*header_size).as_str(),
                ).concat(" exceeds 100 MB safety limit")
            },
            HeaderError::InvalidJson { reason } => {
                "safetensors: invalid JSON header: ".to_owned().concat(reason.as_str())
            },
            HeaderError::NotAnObject => "safetensors: header JSON is not an object".to_owned(),
            HeaderError::TensorNotAnObject { name } => tensor_message(name, "' is not an object"),
            HeaderError::MissingDtype { name } => tensor_message(name, "' missing 'dtype'"),
            HeaderError::MissingShape { name } => tensor_message(name, "' missing 'shape'"),
            HeaderError::BadDimension { name } => tensor_message(name, "' shape dim is not u64"),
            HeaderError::MissingOffsets { name } => {
                tensor_message(name, "' missing valid 'data_offsets'")
            },
            HeaderError::BadStart { name } => tensor_message(name, "' data_offsets[0] not u64"),
            HeaderError::BadEnd { name } => tensor_message(name, "' data_offsets[1] not u64"),
        }
    }
}

/// The value of the first entry with the given key.
pub open spec fn field(
    es: Seq<(Seq<char>, json::JsonTree)>,
    key: Seq<char>,
) -> Option<json::JsonTree>
    decreases es.len(),
{
    if es.len() == 0 {
        None
    } else {
        match field(es.drop_last(), key) {
            Some(v) => Some(v),
            None => if es.last().0 == key {
                Some(es.last().1)
            } else {
                None
            },
        }
    }
}

/// The dimensions, `None` where one of the values is no 64-bit number.
pub open spec fn dimensions(vs: Seq<json::JsonTree>) -> Option<Seq<u64>>
    decreases vs.len(),
{
    if vs.len() == 0 {
        Some(seq![])
    } else {
        match (dimensions(vs.drop_last()), vs.last()) {
            (Some(ds), json::JsonTree::Number(Some(d))) => Some(ds.push(d)),
            _ => None,
        }
    }
}

/// What a tensor's entry says: element type, shape and relative byte range.
pub ghost struct RawTensor {
    pub dtype: Dtype,
    pub shape: Seq<u64>,
    pub start: u64,
    pub end: u64,
}

/// What the entry of the tensor `name` says, or what is wrong with it.
pub open spec fn raw_tensor(
    name: Seq<char>,
    val: json::JsonTree,
) -> Result<RawTensor, HeaderFault> {
    match val {
        json::JsonTree::Object(es) => match field(es, "dtype"@) {
            Some(json::JsonTree::Text(d)) => match field(es, "shape"@) {
                Some(json::JsonTree::Array(dims)) => match dimensions(dims) {
                    None => Err(HeaderFault::BadDimension { name }),
                    Some(shape) => match field(es, "data_offsets"@) {
                        Some(json::JsonTree::Array(os)) => if os.len() != 2 {
                            Err(HeaderFault::MissingOffsets { name })
                        } else {
                            match os[0] {
                                json::JsonTree::Number(Some(start)) => match os[1] {
                                    json::JsonTree::Number(Some(end)) => Ok(
                                        RawTensor {
                                            dtype: dtype::dtype_named(d),
                                            shape,
                                            start,
                                            end,
                                        },
                                    ),
                                    _ => Err(HeaderFault::BadEnd { name }),
                                },
                                _ => Err(HeaderFault::BadStart { name }),
                            }
                        },
                        _ => Err(HeaderFault::MissingOffsets { name }),
                    },
                },
                _ => Err(HeaderFault::MissingShape { name }),
            },
            _ => Err(HeaderFault::MissingDtype { name }),
        },
        _ => Err(HeaderFault::TensorNotAnObject { name }),
    }
}

/// The tensors of the entries in the order in which they are walked, or the
/// first fault among them.
pub open spec fn tensors_of_entries(
    es: Seq<(Seq<char>, json::JsonTree)>,
    header_end: u64,
) -> Result<Seq<types::Tensor>, HeaderFault>
    decreases es.len(),
{
    if es.len() == 0 {
        Ok(seq![])
    } else {
        match tensors_of_entries(es.drop_last(), header_end) {
            Err(f) => Err(f),
            Ok(ts) => if es.last().0 == "__metadata__"@ {
                Ok(ts)
            } else {
                match raw_tensor(es.last().0, es.last().1) {
                    Err(f) => Err(f),
                    Ok(raw) => Ok(
                        ts.push(
                            types::Tensor {
                                name: es.last().0,
                                dtype: raw.dtype,
                                shape: raw.shape,
                                start: (header_end + raw.start) as u64,
                                end: (header_end + raw.end) as u64,
                            },
                        ),
                    ),
                }
            },
        }
    }
}

/// The absolute byte positions of all tensors before the first fault fit into
/// 64 bits.
pub open spec fn entries_fit(
    es: Seq<(Seq<char>, json::JsonTree)>,
    header_end: u64,
) -> bool
    decreases es.len(),
{
    es.len() > 0 ==> {
        &&& entries_fit(es.drop_last(), header_end)
        &&& tensors_of_entries(es.drop_last(), header_end) is Ok && es.last().0
            != "__metadata__"@ ==> match raw_tensor(es.last().0, es.last().1) {
            Ok(raw) => header_end + raw.start <= u64::MAX && header_end + raw.end <= u64::MAX,
            Err(_) => true,
        }
    }
}

/// [`entries_fit`], for a header; one that is no object has no entries.
pub open spec fn header_fits(root: json::JsonTree, header_end: u64) -> bool {
    match root {
        json::JsonTree::Object(es) => entries_fit(es, header_end),
        _ => true,
    }
}

/// Tensors in the order of their data.
pub open spec fn by_start(ts: Seq<types::Tensor>) -> Seq<types::Tensor> {
    order::stable_sort(ts, |a: types::Tensor, b: types::Tensor| a.start <= b.start)
}

/// The tensors of a parsed header, in the order of their data.
pub open spec fn tensors_of_header(
    root: json::JsonTree,
    header_end: u64,
) -> Result<Seq<types::Tensor>, HeaderFault> {
    match root {
        json::JsonTree::Object(es) => match tensors_of_entries(es, header_end) {
            Ok(ts) => Ok(by_start(ts)),
            Err(f) => Err(f),
        },
        _ => Err(HeaderFault::NotAnObject),
    }
}

/// The executable outcome is the given one.
pub open spec fn outcome(
    r: Result<Vec<TensorMeta>, HeaderError>,
    spec: Result<Seq<types::Tensor>, HeaderFault>,
) -> bool {
    match (r, spec) {
        (Ok(v), Ok(ts)) => types::tensors(v@) == ts,
        (Err(e), Err(f)) => e@ == f,
        _ => false,
    }
}

/// The value of the first entry with the given key.
fn get_field<'a>(es: &'a Vec<(String, Json)>, key: &str) -> (r: Option<&'a Json>)
    ensures
        match r {
            Some(j) => field(json::entry_trees(es@), key@) == Some(json::json_tree(*j)),
            None => field(json::entry_trees(es@), key@) is None,
        },
{
    let ghost v = es@;
    let mut i: usize = 0;
    assert(v.take(0) =~= seq![]);
    while i < es.len()
        invariant
            i <= v.len(),
            v == es@,
            field(json::entry_trees(v.take(i as int)), key@) is None,
        decreases v.len() - i,
    {
        proof {
            assert(v.take(i + 1).drop_last() =~= v.take(i as int));
            let ts = json::entry_trees(v.take(i + 1));
            assert(ts.drop_last() =~= json::entry_trees(v.take(i as int)));
            assert(ts.last() == (v[i as int].0@, json::json_tree(v[i as int].1)));
        }
        if str_eq(es[i].0.as_str(), key) {
            proof {
                lemma_field_prefix(v, i + 1, key@);
            }
            return Some(&es[i].1);
        }
        i = i + 1;
    }
    assert(v.take(i as int) =~= v);
    None
}

proof fn lemma_field_prefix(v: Seq<(String, Json)>, n: int, key: Seq<char>)
    requires
        0 <= n <= v.len(),
        field(json::entry_trees(v.take(n)), key) is Some,
    ensures
        field(json::entry_trees(v), key) == field(json::entry_trees(v.take(n)), key),
    decreases v.len() - n,
{
    if n < v.len() {
        assert(v.take(n + 1).drop_last() =~= v.take(n));
        assert(json::entry_trees(v.take(n + 1)).drop_last() =~= json::entry_trees(v.take(n)));
        lemma_field_prefix(v, n + 1, key);
    } else {
        assert(v.take(n) =~= v);
    }
}

fn get_dimensions(vs: &Vec<Json>) -> (r: Option<Vec<u64>>)
    ensures
        match r {
            Some(ds) => dimensions(json::json_trees(vs@)) == Some(ds@),
            None => dimensions(json::json_trees(vs@)) is None,
        },
{
    let ghost v = vs@;
    let mut ds: Vec<u64> = Vec::new();
    let mut i: usize = 0;
    assert(v.take(0) =~= seq![]);
    assert(dimensions(json::json_trees(v.take(0))) == Some(ds@));
    while i < vs.len()
        invariant
            i <= v.len(),
            v == vs@,
            dimensions(json::json_trees(v.take(i as int))) == Some(ds@),
        decreases v.len() - i,
    {
        proof {
            assert(v.take(i + 1).drop_last() =~= v.take(i as int));
            let ts = json::json_trees(v.take(i + 1));
            assert(ts.drop_last() =~= json::json_trees(v.take(i as int)));
            assert(ts.last() == json::json_tree(v[i as int]));
        }
        match &vs[i] {
            Json::Number(Some(d)) => {
                ds.push(*d);
            },
            _ => {
                proof {
                    lemma_dimensions_none(v, i + 1);
                }
                return None;
            },
        }
        i = i + 1;
    }
    assert(v.take(i as int) =~= v);
    Some(ds)
}

proof fn lemma_dimensions_none(v: Seq<Json>, n: int)
    requires
        0 <= n <= v.len(),
        dimensions(json::json_trees(v.take(n))) is None,
    ensures
        dimensions(json::json_trees(v)) is None,
    decreases v.len() - n,
{
    if n < v.len() {
        assert(v.take(n + 1).drop_last() =~= v.take(n));
        assert(json::json_trees(v.take(n + 1)).drop_last() =~= json::json_trees(v.take(n)));
        lemma_dimensions_none(v, n + 1);
    } else {
        assert(v.take(n) =~= v);
    }
}

/// Reads one tensor's entry; byte positions stay relative.
fn read_tensor(name: &String, val: &Json) -> (r: Result<TensorMeta, HeaderError>)
    ensures
        match (r, raw_tensor(name@, json::json_tree(*val))) {
            (Ok(t), Ok(raw)) => t@ == (types::Tensor {
                name: name@,
                dtype: raw.dtype,
                shape: raw.shape,
                start: raw.start,
                end: raw.end,
            }),
            (Err(e), Err(f)) => e@ == f,
            _ => false,
        },
{
    let es = match val {
        Json::Object(es) => es,
        _ => {
            return Err(HeaderError::TensorNotAnObject { name: name.clone() });
        },
    };
    let dtype = match get_field(es, "dtype") {
        Some(Json::Text(d)) => Dtype::from_str(d.as_str()),
        _ => {
            return Err(HeaderError::MissingDtype { name: name.clone() });
        },
    };
    let shape = match get_field(es, "shape") {
        Some(Json::Array(dims)) => match get_dimensions(dims) {
            Some(ds) => ds,
            None => {
                return Err(HeaderError::BadDimension { name: name.clone() });
            },
        },
        _ => {
            return Err(HeaderError::MissingShape { name: name.clone() });
        },
    };
    match get_field(es, "data_offsets") {
        Some(Json::Array(os)) => {
            proof {
                json::lemma_json_trees_len(os@);
            }
            if os.len() != 2 {
                return Err(HeaderError::MissingOffsets { name: name.clone() });
            }
            proof {
                json::lemma_json_trees_index(os@, 0);
                json::lemma_json_trees_index(os@, 1);
            }
            match &os[0] {
                Json::Number(Some(start)) => match &os[1] {
                    Json::Number(Some(end)) => Ok(
                        TensorMeta {
                            name: name.clone(),
                            dtype,
                            shape,
                            file_start: *start,
                            file_end: *end,
                        },
                    ),
                    _ => Err(HeaderError::BadEnd { name: name.clone() }),
                },
                _ => Err(HeaderError::BadStart { name: name.clone() }),
            }
        },
        _ => Err(HeaderError::MissingOffsets { name: name.clone() }),
    }
}

fn starts_before(a: &TensorMeta, b: &TensorMeta) -> (r: bool)
    ensures
        r == (a.file_start <= b.file_start),
{
    a.file_start <= b.file_start
}

/// The tensors of a parsed header, in the order of their data; `None` where an
/// absolute byte position does not fit into 64 bits.
pub fn checked_tensors_of_json(
    root: &Json,
    header_end: u64,
) -> (r: Option<Result<Vec<TensorMeta>, HeaderError>>)
    ensures
        match r {
            Some(x) => header_fits(json::json_tree(*root), header_end) && outcome(
                x,
                tensors_of_header(json::json_tree(*root), header_end),
            ),
            None => !header_fits(json::json_tree(*root), header_end),
        },
{
    let es = match root {
        Json::Object(es) => es,
        _ => {
            return Some(Err(HeaderError::NotAnObject));
        },
    };
    let ghost v = es@;
    let mut out: Vec<TensorMeta> = Vec::new();
    let mut i: usize = 0;
    assert(v.take(0) =~= seq![]);
    assert(types::tensors(out@) =~= seq![]);
    while i < es.len()
        invariant
            i <= v.len(),
            v == es@,
            json::json_tree(*root) == json::JsonTree::Object(json::entry_trees(v)),
            entries_fit(json::entry_trees(v.take(i as int)), header_end),
            tensors_of_entries(json::entry_trees(v.take(i as int)), header_end) == Ok::<
                Seq<types::Tensor>,
                HeaderFault,
            >(types::tensors(out@)),
        decreases v.len() - i,
    {
        let ghost was = types::tensors(out@);
        let ghost ts = json::entry_trees(v.take(i + 1));
        proof {
            assert(v.take(i + 1).drop_last() =~= v.take(i as int));
            assert(ts.drop_last() =~= json::entry_trees(v.take(i as int)));
            assert(ts.last() == (v[i as int].0@, json::json_tree(v[i as int].1)));
        }
        let name = &es[i].0;
        if !str_eq(name.as_str(), "__metadata__") {
            match read_tensor(name, &es[i].1) {
                Err(e) => {
                    proof {
                        lemma_first_fault(v, i + 1, header_end);
                    }
                    return Some(Err(e));
                },
                Ok(t) => {
                    let start: u64 = t.file_start;
                    let end: u64 = t.file_end;
                    if start > u64::MAX - header_end || end > u64::MAX - header_end {
                        proof {
                            lemma_unfit(v, i + 1, header_end);
                        }
                        return None;
                    }
                    let placed = TensorMeta {
                        name: t.name,
                        dtype: t.dtype,
                        shape: t.shape,
                        file_start: header_end + start,
                        file_end: header_end + end,
                    };
                    out.push(placed);
                    assert(types::tensors(out@) =~= was.push(placed@));
                },
            }
        }
        i = i + 1;
    }
    assert(v.take(i as int) =~= v);
    let ghost le = |a: TensorMeta, b: TensorMeta| a.file_start <= b.file_start;
    proof {
        order::stable_sort_map(
            out@,
            le,
            |t: TensorMeta| t@,
            |a: types::Tensor, b: types::Tensor| a.start <= b.start,
        );
    }
    Some(Ok(sort_by(out, starts_before, Ghost(le))))
}

proof fn lemma_first_fault(v: Seq<(String, Json)>, n: int, header_end: u64)
    requires
        0 <= n <= v.len(),
        entries_fit(json::entry_trees(v.take(n)), header_end),
        tensors_of_entries(json::entry_trees(v.take(n)), header_end) is Err,
    ensures
        entries_fit(json::entry_trees(v), header_end),
        tensors_of_entries(json::entry_trees(v), header_end) == tensors_of_entries(
            json::entry_trees(v.take(n)),
            header_end,
        ),
    decreases v.len() - n,
{
    if n < v.len() {
        assert(v.take(n + 1).drop_last() =~= v.take(n));
        assert(json::entry_trees(v.take(n + 1)).drop_last() =~= json::entry_trees(v.take(n)));
        lemma_first_fault(v, n + 1, header_end);
    } else {
        assert(v.take(n) =~= v);
    }
}

proof fn lemma_unfit(v: Seq<(String, Json)>, n: int, header_end: u64)
    requires
        0 <= n <= v.len(),
        !entries_fit(json::entry_trees(v.take(n)), header_end),
    ensures
        !entries_fit(json::entry_trees(v), header_end),
    decreases v.len() - n,
{
    if n < v.len() {
        assert(v.take(n + 1).drop_last() =~= v.take(n));
        assert(json::entry_trees(v.take(n + 1)).drop_last() =~= json::entry_trees(v.take(n)));
        lemma_unfit(v, n + 1, header_end);
    } else {
        assert(v.take(n) =~= v);
    }
}

/// The header size that the first eight bytes give.
pub open spec fn declared_size(data: Seq<u8>) -> u64 {
    vstd::bytes::spec_u64_from_le_bytes(data.take(8))
}

/// The bytes of the JSON header.
pub open spec fn header_bytes(data: Seq<u8>) -> Seq<u8> {
    data.subrange(8, 8 + declared_size(data))
}

/// What is wrong with the size field, before any JSON is read.
pub open spec fn size_fault(data: Seq<u8>) -> Option<HeaderFault> {
    let n = declared_size(data);
    if data.len() < 8 {
        Some(HeaderFault::TooShort)
    } else if 8 + n > data.len() {
        Some(HeaderFault::ExceedsFile { header_size: n, file_len: data.len() as u64 })
    } else if n > MAX_HEADER_SIZE {
        Some(HeaderFault::ExceedsLimit { header_size: n })
    } else {
        None
    }
}

/// The tensors of a file and the end of its header, or what is wrong with it.
pub open spec fn header_of(data: Seq<u8>) -> Result<(Seq<types::Tensor>, u64), HeaderFault> {
    let end = (8 + declared_size(data)) as u64;
    match size_fault(data) {
        Some(f) => Err(f),
        None => match json::json_of_bytes(header_bytes(data)) {
            Err(reason) => Err(HeaderFault::InvalidJson { reason }),
            Ok(root) => match tensors_of_header(root, end) {
                Err(f) => Err(f),
                Ok(ts) => Ok((ts, end)),
            },
        },
    }
}

/// All byte positions of the header fit into 64 bits.
pub open spec fn positions_fit(data: Seq<u8>) -> bool {
    &&& data.len() >= 8 ==> 8 + declared_size(data) <= u64::MAX
    &&& size_fault(data) is None ==> match json::json_of_bytes(header_bytes(data)) {
        Ok(root) => header_fits(root, (8 + declared_size(data)) as u64),
        Err(_) => true,
    }
}

/// The executable outcome is the given one.
pub open spec fn header_outcome(
    r: Result<(Vec<TensorMeta>, u64), HeaderError>,
    spec: Result<(Seq<types::Tensor>, u64), HeaderFault>,
) -> bool {
    match (r, spec) {
        (Ok(p), Ok(q)) => types::tensors(p.0@) == q.0 && p.1 == q.1,
        (Err(e), Err(f)) => e@ == f,
        _ => false,
    }
}

/// Parse a safetensors file's header from raw bytes.
///
/// Returns tensors sorted by `file_start` and the absolute end offset of the
/// header region (= start of tensor data).
pub fn parse_header(data: &[u8]) -> (r: Result<(Vec<TensorMeta>, u64), HeaderError>)
    requires
        positions_fit(data@),
    ensures
        header_outcome(r, header_of(data@)),
{
    match checked_parse_header(data) {
        Some(r) => r,
        None => Err(HeaderError::TooShort),
    }
}

/// [`parse_header`] without a condition on the bytes: `None` where a byte
/// position of the header does not fit into 64 bits.
pub fn checked_parse_header(
    data: &[u8],
) -> (r: Option<Result<(Vec<TensorMeta>, u64), HeaderError>>)
    ensures
        match r {
            Some(x) => positions_fit(data@) && header_outcome(x, header_of(data@)),
            None => !positions_fit(data@),
        },
{
    if data.len() < 8 {
        return Some(Err(HeaderError::TooShort));
    }
    assert(data@.subrange(0, 8) =~= data@.take(8));
    let header_size: u64 = vstd::bytes::u64_from_le_bytes(slice_subrange(data, 0, 8));
    if header_size > u64::MAX - 8 {
        return None;
    }
    let header_end: u64 = 8 + header_size;
    if header_end > data.len() as u64 {
        return Some(
            Err(HeaderError::ExceedsFile { header_size, file_len: data.len() as u64 }),
        );
    }
    if header_size > MAX_HEADER_SIZE {
        return Some(Err(HeaderError::ExceedsLimit { header_size }));
    }
    let root = match parse_json(slice_subrange(data, 8, header_end as usize)) {
        Ok(j) => j,
        Err(reason) => {
            return Some(Err(HeaderError::InvalidJson { reason }));
        },
    };
    match checked_tensors_of_json(&root, header_end) {
        None => None,
        Some(Err(e)) => Some(Err(e)),
        Some(Ok(ts)) => Some(Ok((ts, header_end))),
    }
}

/// How many bytes to read for the whole header, by the first eight bytes of a
/// file; headers beyond the safety limit are refused before they are read.
pub fn header_extent(first: &[u8]) -> (r: Result<u64, HeaderError>)
    requires
        first@.len() >= 8,
    ensures
        match r {
            Ok(n) => declared_size(first@) <= MAX_HEADER_SIZE && n == 8 + declared_size(first@),
            Err(e) => declared_size(first@) > MAX_HEADER_SIZE && e@ == (HeaderFault::ExceedsLimit {
                header_size: declared_size(first@),
            }),
        },
{
    assert(first@.subrange(0, 8) =~= first@.take(8));
    let header_size: u64 = vstd::bytes::u64_from_le_bytes(slice_subrange(first, 0, 8));
    if header_size > MAX_HEADER_SIZE {
        return Err(HeaderError::ExceedsLimit { header_size });
    }
    Ok(8 + header_size)
}

/// A range of bytes with its colour.
pub ghost struct ColorRange {
    pub start: u64,
    pub end: u64,
    pub color: Rgb,
}

/// The ranges that a list of tuples denotes.
pub open spec fn color_ranges(v: Seq<(u64, u64, Rgb)>) -> Seq<ColorRange> {
    v.map_values(|r: (u64, u64, Rgb)| ColorRange { start: r.0, end: r.1, color: r.2 })
}

/// Where the data of the first `n` tensors ends.
pub open spec fn data_end(ts: Seq<types::Tensor>, header_end: u64, n: int) -> u64 {
    if n <= 0 {
        header_end
    } else {
        ts[n - 1].end
    }
}

/// The ranges of the header and the first `n` tensors, gaps included.
pub open spec fn leading_ranges(
    ts: Seq<types::Tensor>,
    header_end: u64,
    n: int,
) -> Seq<ColorRange>
    decreases n,
{
    if n <= 0 {
        if header_end > 0 {
            seq![ColorRange { start: 0, end: header_end, color: Rgb { r: 100, g: 100, b: 100 } }]
        } else {
            seq![]
        }
    } else {
        let t = ts[n - 1];
        let pos = data_end(ts, header_end, n - 1);
        leading_ranges(ts, header_end, n - 1) + (if t.start > pos {
            seq![ColorRange { start: pos, end: t.start, color: Rgb { r: 0, g: 0, b: 0 } }]
        } else {
            seq![]
        }) + (if t.end > t.start {
            seq![ColorRange { start: t.start, end: t.end, color: dtype::dtype_color(t.dtype) }]
        } else {
            seq![]
        })
    }
}

/// The ranges of a whole file.
pub open spec fn file_ranges(
    ts: Seq<types::Tensor>,
    header_end: u64,
    file_size: u64,
) -> Seq<ColorRange> {
    let pos = data_end(ts, header_end, ts.len() as int);
    leading_ranges(ts, header_end, ts.len() as int) + (if pos < file_size {
        seq![ColorRange { start: pos, end: file_size, color: Rgb { r: 0, g: 0, b: 0 } }]
    } else {
        seq![]
    })
}

/// Build a sorted list of `(start, end, color)` ranges covering the entire
/// file. The header region is grey, each tensor region gets its dtype color,
/// gaps are black.
pub fn build_color_ranges(
    tensors: &[TensorMeta],
    header_end: u64,
    file_size: u64,
) -> (r: Vec<(u64, u64, Rgb)>)
    ensures
        color_ranges(r@) == file_ranges(types::tensors(tensors@), header_end, file_size),
{
    let ghost ts = types::tensors(tensors@);
    let mut ranges: Vec<(u64, u64, Rgb)> = Vec::new();
    if header_end > 0 {
        ranges.push((0, header_end, rgb(100, 100, 100)));
    }
    assert(color_ranges(ranges@) =~= leading_ranges(ts, header_end, 0));
    let mut pos: u64 = header_end;
    let mut i: usize = 0;
    while i < tensors.len()
        invariant
            i <= tensors@.len(),
            ts == types::tensors(tensors@),
            pos == data_end(ts, header_end, i as int),
            color_ranges(ranges@) == leading_ranges(ts, header_end, i as int),
        decreases tensors@.len() - i,
    {
        let t = &tensors[i];
        assert(ts[i as int] == tensors@[i as int]@);
        if t.file_start > pos {
            ranges.push((pos, t.file_start, rgb(0, 0, 0)));
        }
        if t.file_end > t.file_start {
            ranges.push((t.file_start, t.file_end, t.dtype.to_color()));
        }
        pos = t.file_end;
        i = i + 1;
        assert(color_ranges(ranges@) =~= leading_ranges(ts, header_end, i as int));
    }
    if pos < file_size {
        ranges.push((pos, file_size, rgb(0, 0, 0)));
    }
    assert(color_ranges(ranges@) =~= file_ranges(ts, header_end, file_size));
    ranges
}

/// The ranges are sorted and do not overlap.
pub open spec fn ranges_sorted(rs: Seq<(u64, u64, Rgb)>) -> bool {
    &&& forall|i: int| 0 <= i < rs.len() ==> (#[trigger] rs[i]).0 <= rs[i].1
    &&& forall|i: int, j: int| 0 <= i < j < rs.len() ==> (#[trigger] rs[i]).1 <= (#[trigger] rs[j]).0
}

/// Return the display color for a byte at `pos` within a file: that of the
/// range that holds it, black where none does.
///
/// `ranges` must be sorted by start and non-overlapping.
pub fn color_for_pos(pos: u64, ranges: &[(u64, u64, Rgb)]) -> (c: Rgb)
    requires
        ranges_sorted(ranges@),
    ensures
        forall|i: int|
            0 <= i < ranges@.len() && (#[trigger] ranges@[i]).0 <= pos < ranges@[i].1 ==> c
                == ranges@[i].2,
        (forall|i: int|
            0 <= i < ranges@.len() ==> !((#[trigger] ranges@[i]).0 <= pos < ranges@[i].1)) ==> c
            == (Rgb { r: 0, g: 0, b: 0 }),
{
    // The first range that ends behind `pos`.
    let mut lo: usize = 0;
    let mut hi: usize = ranges.len();
    while lo < hi
        invariant
            lo <= hi <= ranges@.len(),
            ranges_sorted(ranges@),
            forall|i: int| 0 <= i < lo ==> (#[trigger] ranges@[i]).1 <= pos,
            forall|i: int| hi <= i < ranges@.len() ==> (#[trigger] ranges@[i]).1 > pos,
        decreases hi - lo,
    {
        let mid: usize = lo + (hi - lo) / 2;
        if ranges[mid].1 <= pos {
            assert forall|i: int| 0 <= i < mid + 1 implies (#[trigger] ranges@[i]).1 <= pos by {
                if i < mid {
                    assert(ranges@[i].1 <= ranges@[mid as int].0);
                }
            }
            lo = mid + 1;
        } else {
            assert forall|i: int| mid <= i < ranges@.len() implies (#[trigger] ranges@[i]).1
                > pos by {
                if i > mid {
                    assert(ranges@[mid as int].1 <= ranges@[i].0);
                }
            }
            hi = mid;
        }
    }
    if lo < ranges.len() && ranges[lo].0 <= pos {
        assert forall|i: int|
            0 <= i < ranges@.len() && (#[trigger] ranges@[i]).0 <= pos < ranges@[i].1 implies i
            == lo by {
            if i > lo {
                assert(ranges@[lo as int].1 <= ranges@[i].0);
            }
        }
        ranges[lo].2
    } else {
        assert forall|i: int| 0 <= i < ranges@.len() implies !((#[trigger] ranges@[i]).0 <= pos
            < ranges@[i].1) by {
            if i > lo {
                assert(ranges@[lo as int].1 <= ranges@[i].0);
            }
        }
        rgb(0, 0, 0)
    }
}

/// The tensors lie one behind the other, behind the header and inside the file.
pub open spec fn tensors_in_order(
    ts: Seq<types::Tensor>,
    header_end: u64,
    file_size: u64,
) -> bool {
    &&& header_end <= file_size
    &&& forall|i: int|
        0 <= i < ts.len() ==> data_end(ts, header_end, i) <= (#[trigger] ts[i]).start
            <= ts[i].end <= file_size
}

/// The ranges are non-empty and follow one another from `start` to `end`.
pub open spec fn ranges_tile(rs: Seq<ColorRange>, start: int, end: int) -> bool
    decreases rs.len(),
{
    if rs.len() == 0 {
        start == end
    } else {
        rs.last().end == end && rs.last().start < end && ranges_tile(
            rs.drop_last(),
            start,
            rs.last().start as int,
        )
    }
}

proof fn lemma_ranges_tile_push(rs: Seq<ColorRange>, r: ColorRange, start: int)
    requires
        ranges_tile(rs, start, r.start as int),
        r.start < r.end,
    ensures
        ranges_tile(rs.push(r), start, r.end as int),
{
    assert(rs.push(r).drop_last() =~= rs);
}

proof fn lemma_leading_ranges_tile(
    ts: Seq<types::Tensor>,
    header_end: u64,
    file_size: u64,
    n: int,
)
    requires
        tensors_in_order(ts, header_end, file_size),
        0 <= n <= ts.len(),
    ensures
        ranges_tile(leading_ranges(ts, header_end, n), 0, data_end(ts, header_end, n) as int),
    decreases n,
{
    let none = Seq::<ColorRange>::empty();
    if n == 0 {
        let h = ColorRange { start: 0, end: header_end, color: Rgb { r: 100, g: 100, b: 100 } };
        assert(none.push(h) =~= seq![h]);
        if header_end > 0 {
            lemma_ranges_tile_push(none, h, 0);
        }
    } else {
        lemma_leading_ranges_tile(ts, header_end, file_size, n - 1);
        let t = ts[n - 1];
        let pos = data_end(ts, header_end, n - 1);
        let a = leading_ranges(ts, header_end, n - 1);
        let gap = ColorRange { start: pos, end: t.start, color: Rgb { r: 0, g: 0, b: 0 } };
        let body = ColorRange { start: t.start, end: t.end, color: dtype::dtype_color(t.dtype) };
        let b = if t.start > pos {
            lemma_ranges_tile_push(a, gap, 0);
            a.push(gap)
        } else {
            a
        };
        assert(b =~= a + (if t.start > pos {
            seq![gap]
        } else {
            none
        }));
        if t.end > t.start {
            lemma_ranges_tile_push(b, body, 0);
            assert(leading_ranges(ts, header_end, n) =~= b.push(body));
        } else {
            assert(leading_ranges(ts, header_end, n) =~= b);
        }
    }
}

/// The colour ranges of a file whose tensors lie in order cover every byte of
/// it exactly once.
pub proof fn color_ranges_cover_file(
    ts: Seq<types::Tensor>,
    header_end: u64,
    file_size: u64,
)
    requires
        tensors_in_order(ts, header_end, file_size),
    ensures
        ranges_tile(file_ranges(ts, header_end, file_size), 0, file_size as int),
{
    let n = ts.len() as int;
    lemma_leading_ranges_tile(ts, header_end, file_size, n);
    let pos = data_end(ts, header_end, n);
    let a = leading_ranges(ts, header_end, n);
    let tail = ColorRange { start: pos, end: file_size, color: Rgb { r: 0, g: 0, b: 0 } };
    if n > 0 {
        assert(ts[n - 1].end <= file_size);
    }
    if pos < file_size {
        lemma_ranges_tile_push(a, tail, 0);
        assert(file_ranges(ts, header_end, file_size) =~= a.push(tail));
    } else {
        assert(file_ranges(ts, header_end, file_size) =~= a);
    }
}

/// The tensors of a header are sorted by where their data starts, and sorting
/// drops none.
pub proof fn header_tensors_are_sorted(root: json::JsonTree, header_end: u64)
    ensures
        tensors_of_header(root, header_end) matches Ok(ts) ==> {
            &&& forall|i: int, j: int|
                0 <= i < j < ts.len() ==> (#[trigger] ts[i]).start <= (#[trigger] ts[j]).start
            &&& root matches json::JsonTree::Object(es) && tensors_of_entries(
                es,
                header_end,
            ) matches Ok(all) && all.to_multiset() == ts.to_multiset()
        },
{
    match root {
        json::JsonTree::Object(es) => match tensors_of_entries(es, header_end) {
            Ok(all) => {
                let le = |a: types::Tensor, b: types::Tensor| a.start <= b.start;
                order::stable_sort_sorts(all, le);
                order::stable_sort_permutes(all, le);
                let ts = by_start(all);
                assert forall|i: int, j: int| 0 <= i < j < ts.len() implies (#[trigger] ts[i]).start
                    <= (#[trigger] ts[j]).start by {
                    assert(le(ts[i], ts[j]));
                }
            },
            Err(_) => {},
        },
        _ => {},
    }
}

} // verus!
