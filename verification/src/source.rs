//! Render sources: what lies on the canvas, in which order, and how its bytes
//! are read.

use vstd::prelude::*;
use crate::format::dtype::Dtype;
use crate::format::safetensors;
use crate::format::types;
use crate::format::types::{DiffFill, DiffMetric, TensorMeta};
use crate::color;
use crate::color::Rgb;
use crate::hf_url;
use crate::hf_url::RemoteFileSpec;
use crate::path;
use crate::path::filename_label;

verus! {

/// The two sides of a diff.
#[derive(Debug, Clone, Copy, PartialEq, Eq, Structural)]
pub enum Side {
    Original,
    Modified,
}

/// How a source's bytes are stored. What a diff reads from is named by path,
/// by side, or by the index of a file in the list that was opened for it.
#[derive(Debug)]
pub enum SourceKind {
    Buffered(Vec<u8>),
    File(String),
    Diff { original: String, modified: String },
    /// Remote HF file, accessed via range requests per tile.
    Http(RemoteFileSpec),
    /// Byte diff of two equally long ranges of the two whole files.
    RangeDiff { orig_start: u64, mod_start: u64 },
    /// Bytes of one side only, shown with a tint.
    OneSidedRange { side: Side, start: u64, fill: DiffFill },
    /// Per-tensor diff computed lazily from two files. `byte_size` output
    /// bytes are produced on demand. `metric` selects how per-element deltas
    /// are encoded.
    TensorDiff {
        orig_file: usize,
        mod_file: usize,
        orig_start: u64,
        mod_start: u64,
        orig_dtype: Dtype,
        mod_dtype: Dtype,
        metric: DiffMetric,
    },
    /// A canvas region for a tensor / file that exists on only one side of a
    /// diff. The bytes are zero (the renderer paints a crosshatch pattern
    /// based on `fill` instead of using the byte LUT).
    UnmatchedRegion { fill: DiffFill },
}

/// The parsed header of a safetensors source.
#[derive(Debug)]
pub struct SafetensorsInfo {
    pub tensors: Vec<TensorMeta>,
    pub color_ranges: Vec<(u64, u64, Rgb)>,
}

/// Metadata and storage descriptor for one input.
#[derive(Debug)]
pub struct Source {
    pub file_idx: usize,
    pub kind: SourceKind,
    pub byte_size: u64,
    /// Populated for safetensors sources.
    pub safetensors: Option<SafetensorsInfo>,
    /// Override the display name.
    pub name_override: Option<String>,
}

/// Input specification: local file path or resolved remote HF file.
#[derive(Debug)]
pub enum InputSpec {
    Local(String),
    Remote(RemoteFileSpec),
}

/// What a source's storage stands for.
pub ghost enum Storage {
    Buffered(Seq<u8>),
    File(Seq<char>),
    Diff { original: Seq<char>, modified: Seq<char> },
    Http(hf_url::RemoteFile),
    RangeDiff { orig_start: u64, mod_start: u64 },
    OneSidedRange { side: Side, start: u64, fill: DiffFill },
    TensorDiff {
        orig_file: usize,
        mod_file: usize,
        orig_start: u64,
        mod_start: u64,
        orig_dtype: Dtype,
        mod_dtype: Dtype,
        metric: DiffMetric,
    },
    UnmatchedRegion { fill: DiffFill },
}

/// What a parsed header stands for.
pub ghost struct Model {
    pub tensors: Seq<types::Tensor>,
    pub ranges: Seq<safetensors::ColorRange>,
}

/// One stretch of the canvas.
pub ghost struct Region {
    pub storage: Storage,
    pub size: u64,
    pub model: Option<Model>,
    pub name: Option<Seq<char>>,
}

/// What a source's storage stands for.
pub open spec fn storage_of(k: SourceKind) -> Storage {
    match k {
        SourceKind::Buffered(v) => Storage::Buffered(v@),
        SourceKind::File(p) => Storage::File(p@),
        SourceKind::Diff { original, modified } => Storage::Diff {
            original: original@,
            modified: modified@,
        },
        SourceKind::Http(s) => Storage::Http(s@),
        SourceKind::RangeDiff { orig_start, mod_start } => Storage::RangeDiff {
            orig_start,
            mod_start,
        },
        SourceKind::OneSidedRange { side, start, fill } => Storage::OneSidedRange {
            side,
            start,
            fill,
        },
        SourceKind::TensorDiff {
            orig_file,
            mod_file,
            orig_start,
            mod_start,
            orig_dtype,
            mod_dtype,
            metric,
        } => Storage::TensorDiff {
            orig_file,
            mod_file,
            orig_start,
            mod_start,
            orig_dtype,
            mod_dtype,
            metric,
        },
        SourceKind::UnmatchedRegion { fill } => Storage::UnmatchedRegion { fill },
    }
}

/// What an optional header stands for.
pub open spec fn model_of(m: Option<SafetensorsInfo>) -> Option<Model> {
    match m {
        Some(i) => Some(
            Model {
                tensors: types::tensors(i.tensors@),
                ranges: safetensors::color_ranges(i.color_ranges@),
            },
        ),
        None => None,
    }
}

impl View for Source {
    type V = Region;

    open spec fn view(&self) -> Region {
        Region {
            storage: storage_of(self.kind),
            size: self.byte_size,
            model: model_of(self.safetensors),
            name: hf_url::optional_text(self.name_override),
        }
    }
}

/// The stretches of the canvas that a list of sources makes up.
pub open spec fn regions(v: Seq<Source>) -> Seq<Region> {
    v.map_values(|s: Source| s@)
}

/// Every source knows its place in the list.
pub open spec fn indexed(v: Seq<Source>) -> bool {
    forall|i: int| 0 <= i < v.len() ==> (#[trigger] v[i]).file_idx == i
}

/// The bytes of all stretches together.
pub open spec fn total_size(rs: Seq<Region>) -> int
    decreases rs.len(),
{
    if rs.len() == 0 {
        0
    } else {
        total_size(rs.drop_last()) + rs.last().size
    }
}

/// The executable outcome of planning: the stretches in order, each source
/// knowing its place, with their total size.
pub open spec fn planned(r: (Vec<Source>, u64), rs: Seq<Region>) -> bool {
    regions(r.0@) == rs && indexed(r.0@) && r.1 == total_size(rs)
}

/// A stretch with nothing but its storage, size and name.
pub open spec fn plain_region(storage: Storage, size: u64, name: Option<Seq<char>>) -> Region {
    Region { storage, size, model: None, name }
}

/// The total grows with the list.
pub proof fn lemma_total_concat(a: Seq<Region>, b: Seq<Region>)
    ensures
        total_size(a + b) == total_size(a) + total_size(b),
        total_size(a) >= 0,
        total_size(b) >= 0,
    decreases b.len(),
{
    lemma_total_nonneg(a);
    lemma_total_nonneg(b);
    if b.len() == 0 {
        assert(a + b =~= a);
    } else {
        lemma_total_concat(a, b.drop_last());
        assert((a + b).drop_last() =~= a + b.drop_last());
    }
}

proof fn lemma_total_nonneg(a: Seq<Region>)
    ensures
        total_size(a) >= 0,
    decreases a.len(),
{
    if a.len() > 0 {
        lemma_total_nonneg(a.drop_last());
    }
}

/// Appends a source at the end of a plan.
pub(crate) fn push_source(
    out: &mut Vec<Source>,
    total: &mut u64,
    kind: SourceKind,
    size: u64,
    name: Option<String>,
)
    requires
        indexed(old(out)@),
        *old(total) == total_size(regions(old(out)@)),
        *old(total) + size <= u64::MAX,
    ensures
        indexed(final(out)@),
        regions(final(out)@) == regions(old(out)@).push(
            plain_region(storage_of(kind), size, hf_url::optional_text(name)),
        ),
        *final(total) == total_size(regions(final(out)@)),
        *final(total) == *old(total) + size,
{
    let ghost was = regions(out@);
    let ghost r = plain_region(storage_of(kind), size, hf_url::optional_text(name));
    let idx: usize = out.len();
    out.push(
        Source { file_idx: idx, kind, byte_size: size, safetensors: None, name_override: name },
    );
    assert(regions(out@) =~= was.push(r));
    assert(was.push(r).drop_last() =~= was);
    *total = *total + size;
}

/// The sources whose storage alone does not name them carry a name.
pub open spec fn nameable(s: Source) -> bool {
    s.name_override is None ==> (s.kind is File || s.kind is Buffered || s.kind is Diff
        || s.kind is Http)
}

/// The display name of a stretch.
pub open spec fn region_name(r: Region) -> Seq<char> {
    match r.name {
        Some(n) => n,
        None => match r.storage {
            Storage::File(p) => path::label(p),
            Storage::Diff { original, .. } => path::label(original),
            Storage::Http(f) => f.filename,
            _ => "stdin"@,
        },
    }
}

impl Source {
    /// Human-readable name for this source (file name or "stdin").
    pub fn name(&self) -> (s: String)
        requires
            nameable(*self),
        ensures
            s@ == region_name(self@),
    {
        if let Some(n) = &self.name_override {
            return n.clone();
        }
        match &self.kind {
            SourceKind::File(p) => filename_label(p.as_str()),
            SourceKind::Diff { original, .. } => filename_label(original.as_str()),
            SourceKind::Http(spec) => spec.filename.clone(),
            _ => "stdin".to_owned(),
        }
    }

    /// The source kept as a local copy at `path`. It keeps its display name.
    pub fn materialized(self, path: String) -> (s: Source)
        requires
            nameable(self),
        ensures
            s.file_idx == self.file_idx,
            s@ == (Region {
                storage: Storage::File(path@),
                name: Some(region_name(self@)),
                ..self@
            }),
    {
        let display = self.name();
        Source {
            file_idx: self.file_idx,
            kind: SourceKind::File(path),
            byte_size: self.byte_size,
            safetensors: self.safetensors,
            name_override: Some(display),
        }
    }

    /// Whether the source's bytes still lie on the Hub.
    pub fn is_remote(&self) -> (r: bool)
        ensures
            r == (self.kind is Http),
    {
        match &self.kind {
            SourceKind::Http(_) => true,
            _ => false,
        }
    }

    /// Whether reading the source's bytes needs no request: not for a remote
    /// file, and not for a diff, whose sides may be remote.
    pub fn is_local(&self) -> (r: bool)
        ensures
            r == (self.kind is File || self.kind is Buffered || self.kind is UnmatchedRegion),
    {
        match &self.kind {
            SourceKind::File(_) | SourceKind::Buffered(_) | SourceKind::UnmatchedRegion { .. } => true,
            _ => false,
        }
    }
}

/// One file of the input: where it lies, its size where it could be read, and
/// the parsed header where it has one.
#[derive(Debug)]
pub struct InputFile {
    pub spec: InputSpec,
    pub size: Option<u64>,
    pub safetensors: Option<SafetensorsInfo>,
}

/// The stretch of an input file; none for a local file without a size.
pub open spec fn input_region(f: InputFile) -> Option<Region> {
    match f.spec {
        InputSpec::Local(p) => match f.size {
            Some(n) => Some(
                Region {
                    storage: Storage::File(p@),
                    size: n,
                    model: model_of(f.safetensors),
                    name: None,
                },
            ),
            None => None,
        },
        InputSpec::Remote(s) => Some(
            Region {
                storage: Storage::Http(s@),
                size: s.size,
                model: model_of(f.safetensors),
                name: None,
            },
        ),
    }
}

/// The stretches of the input files, those without a size left out.
pub open spec fn input_regions(fs: Seq<InputFile>) -> Seq<Region>
    decreases fs.len(),
{
    if fs.len() == 0 {
        seq![]
    } else {
        match input_region(fs.last()) {
            Some(r) => input_regions(fs.drop_last()).push(r),
            None => input_regions(fs.drop_last()),
        }
    }
}

proof fn lemma_input_prefix(fs: Seq<InputFile>, n: int)
    requires
        0 <= n <= fs.len(),
    ensures
        total_size(input_regions(fs.take(n))) <= total_size(input_regions(fs)),
    decreases fs.len() - n,
{
    if n < fs.len() {
        lemma_input_prefix(fs, n + 1);
        assert(fs.take(n + 1).drop_last() =~= fs.take(n));
        let a = input_regions(fs.take(n));
        match input_region(fs[n]) {
            Some(r) => {
                assert(a.push(r).drop_last() =~= a);
            },
            None => {},
        }
    } else {
        assert(fs.take(n) =~= fs);
    }
}

/// Build sources from a mixed list of local files and remote HF file specs and
/// return the total byte count. Local files that could not be read are
/// skipped; remote ones are turned into `SourceKind::Http` entries (no
/// download).
pub fn prepare_sources_from_specs(files: Vec<InputFile>) -> (r: (Vec<Source>, u64))
    requires
        total_size(input_regions(files@)) <= u64::MAX,
    ensures
        planned(r, input_regions(files@)),
{
    let ghost fs = files@;
    let mut rest = files;
    let mut todo: Vec<InputFile> = Vec::new();
    while rest.len() > 0
        invariant
            rest@.len() + todo@.len() == fs.len(),
            rest@ == fs.take(rest@.len() as int),
            forall|i: int| 0 <= i < todo@.len() ==> #[trigger] todo@[i] == fs[fs.len() - 1 - i],
        decreases rest@.len(),
    {
        if let Some(f) = rest.pop() {
            todo.push(f);
        }
    }
    let mut out: Vec<Source> = Vec::new();
    let mut total: u64 = 0;
    let ghost mut n: int = 0;
    assert(fs.take(0) =~= seq![]);
    assert(regions(out@) =~= seq![]);
    while todo.len() > 0
        invariant
            0 <= n <= fs.len(),
            todo@.len() == fs.len() - n,
            forall|i: int| 0 <= i < todo@.len() ==> #[trigger] todo@[i] == fs[fs.len() - 1 - i],
            total_size(input_regions(fs)) <= u64::MAX,
            regions(out@) == input_regions(fs.take(n)),
            indexed(out@),
            total == total_size(regions(out@)),
        decreases todo@.len(),
    {
        if let Some(f) = todo.pop() {
            proof {
                assert(fs.take(n + 1).drop_last() =~= fs.take(n));
                assert(fs.take(n + 1).last() == f);
                lemma_input_prefix(fs, n + 1);
            }
            let ghost was = regions(out@);
            let ghost r = input_region(f);
            proof {
                if r is Some {
                    assert(was.push(r->0).drop_last() =~= was);
                }
            }
            let idx: usize = out.len();
            let (kind, size): (SourceKind, u64) = match f.spec {
                InputSpec::Local(p) => match f.size {
                    Some(k) => (SourceKind::File(p), k),
                    None => {
                        proof {
                            n = n + 1;
                        }
                        continue;
                    },
                },
                InputSpec::Remote(s) => {
                    let k: u64 = s.size;
                    (SourceKind::Http(s), k)
                },
            };
            out.push(
                Source {
                    file_idx: idx,
                    kind,
                    byte_size: size,
                    safetensors: f.safetensors,
                    name_override: None,
                },
            );
            total = total + size;
            proof {
                assert(regions(out@) =~= was.push(r->0));
                n = n + 1;
            }
        }
    }
    assert(fs.take(n) =~= fs);
    (out, total)
}

/// The single source for bytes read from standard input.
pub fn stdin_source(buf: Vec<u8>) -> (r: (Vec<Source>, u64))
    ensures
        planned(
            r,
            seq![plain_region(Storage::Buffered(buf@), buf@.len() as u64, None)],
        ),
{
    let len: u64 = buf.len() as u64;
    let mut out: Vec<Source> = Vec::new();
    let mut total: u64 = 0;
    assert(regions(out@) =~= seq![]);
    push_source(&mut out, &mut total, SourceKind::Buffered(buf), len, None);
    assert(regions(out@) =~= seq![
        plain_region(Storage::Buffered(buf@), buf@.len() as u64, None),
    ]);
    (out, total)
}

/// How a byte diff is shown: 127 for no change, brighter the larger the step,
/// above 127 where the byte grew and below where it shrank. The step of up to
/// 255 is scaled to 127 and rounded to the nearest.
pub open spec fn diff_level(a: u8, b: u8) -> u8 {
    let d = if b >= a {
        b - a
    } else {
        a - b
    };
    let brightness = (254 * d + 255) / 510;
    if b >= a {
        (127 + brightness) as u8
    } else {
        (127 - brightness) as u8
    }
}

/// Encodes the difference of two bytes.
pub fn diff_byte(a: u8, b: u8) -> (r: u8)
    ensures
        r == diff_level(a, b),
{
    let d: u32 = if b >= a {
        (b - a) as u32
    } else {
        (a - b) as u32
    };
    let brightness: u32 = (254 * d + 255) / 510;
    if b >= a {
        (127 + brightness) as u8
    } else {
        (127 - brightness) as u8
    }
}

/// Swapping the sides mirrors the level round 127, which stands for bytes that
/// are at most one apart; a byte that grew is never darker, one that shrank
/// never brighter.
pub proof fn diff_level_is_antisymmetric(a: u8, b: u8)
    ensures
        diff_level(a, b) + diff_level(b, a) == 254,
        diff_level(a, b) == 127 <==> -1 <= a - b <= 1,
        a < b ==> diff_level(a, b) >= 127,
        a > b ==> diff_level(a, b) <= 127,
{
}

/// How far two bytes lie apart.
pub open spec fn distance(a: u8, b: u8) -> int {
    if a <= b {
        b - a
    } else {
        a - b
    }
}

/// Identical bytes are drawn black, and bytes that lie further apart are drawn
/// at least as bright.
pub proof fn larger_deltas_are_brighter(a: u8, b: u8, c: u8, d: u8)
    ensures
        color::diff_brightness(diff_level(a, a)) == 0,
        distance(a, b) <= distance(c, d) ==> color::diff_brightness(diff_level(a, b))
            <= color::diff_brightness(diff_level(c, d)),
{
}

/// The byte at `i`, zero behind the end.
pub open spec fn padded(s: Seq<u8>, i: int) -> u8 {
    if 0 <= i < s.len() {
        s[i]
    } else {
        0
    }
}

/// Diffs the bytes `start..start + len` of two files, the shorter one padded
/// with zeros, so that files of different sizes can share one diff source.
pub fn diff_range(orig: &[u8], modified: &[u8], start: u64, len: usize) -> (r: Vec<u8>)
    requires
        start + len <= usize::MAX,
    ensures
        r@.len() == len,
        forall|i: int|
            0 <= i < len ==> #[trigger] r@[i] == diff_level(
                padded(orig@, start + i),
                padded(modified@, start + i),
            ),
{
    let mut out: Vec<u8> = Vec::new();
    let mut i: usize = 0;
    let base: usize = start as usize;
    while i < len
        invariant
            i <= len,
            base == start,
            start + len <= usize::MAX,
            out@.len() == i,
            forall|k: int|
                0 <= k < i ==> #[trigger] out@[k] == diff_level(
                    padded(orig@, start + k),
                    padded(modified@, start + k),
                ),
        decreases len - i,
    {
        let p: usize = base + i;
        let a: u8 = if p < orig.len() {
            orig[p]
        } else {
            0
        };
        let b: u8 = if p < modified.len() {
            modified[p]
        } else {
            0
        };
        out.push(diff_byte(a, b));
        i = i + 1;
    }
    out
}

/// The largest sample of a tensor from which its scale is estimated.
pub const SCALE_SAMPLE_BYTES: u64 = 65_536;

/// How many bytes of a tensor are sampled for its scale: at most the sample
/// size, at most the whole tensor, and only whole elements.
pub fn rms_sample_len(t: &TensorMeta) -> (n: u64)
    ensures
        ({
            let size = if t.file_end > t.file_start {
                t.file_end - t.file_start
            } else {
                0
            };
            let want = if size < SCALE_SAMPLE_BYTES {
                size
            } else {
                SCALE_SAMPLE_BYTES as int
            };
            let elem = crate::format::dtype::size_of_element(t.dtype);
            n == want / elem * elem && n <= size && n % (elem as u64) == 0
        }),
{
    let elem: u64 = t.dtype.element_size() as u64;
    let size: u64 = if t.file_end > t.file_start {
        t.file_end - t.file_start
    } else {
        0
    };
    let want: u64 = if size < SCALE_SAMPLE_BYTES {
        size
    } else {
        SCALE_SAMPLE_BYTES
    };
    want / elem * elem
}

/// The bytes that a lazy tensor diff reads from one side for `len` elements
/// from `start`: where they begin, and how many they are.
pub fn tensor_window(tensor_start: u64, dtype: Dtype, start: u64, len: u64) -> (r: (u64, u64))
    requires
        tensor_start + start * 8 <= u64::MAX,
        len * 8 <= u64::MAX,
    ensures
        r.0 == tensor_start + start * crate::format::dtype::size_of_element(dtype),
        r.1 == len * crate::format::dtype::size_of_element(dtype),
{
    let elem: u64 = dtype.element_size() as u64;
    assert(start * elem <= start * 8) by (nonlinear_arith)
        requires
            elem <= 8,
    ;
    assert(len * elem <= len * 8) by (nonlinear_arith)
        requires
            elem <= 8,
    ;
    (tensor_start + start * elem, len * elem)
}

} // verus!
