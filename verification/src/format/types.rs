//! Format-agnostic tensor / model types.
//!
//! `file_start`/`file_end` are absolute byte ranges in the underlying file, so
//! the renderer can treat all formats identically.

use vstd::prelude::*;
use vstd::string::StringExecFns;
use crate::color::{rgb, Rgb};
use crate::text;
use crate::text::{decimal_string, join};
use super::dtype;
use super::dtype::Dtype;

verus! {

/// Crosshatched-fill kind for unmatched-tensor / unmatched-file regions in diff mode.
///
/// `Grey` is for the "expected" finetune case (tensor present in base but
/// absent from finetune). `Red` and `Green` flag genuine structural divergence
/// between two otherwise-compatible files. Each region is filled with diagonal
/// crosshatch lines so it's instantly distinguishable from a real signed-diff
/// color.
#[derive(Debug, Clone, Copy, PartialEq, Eq, PartialOrd, Ord, Structural)]
pub enum DiffFill {
    /// Tensor/file present in original only, finetune mode (informational).
    Grey,
    /// Tensor/file present in original only, non-finetune mode (divergence).
    Red,
    /// Tensor/file present in modified only, non-finetune mode (divergence).
    Green,
}

/// The `(stripe, base)` colours of a fill.
pub open spec fn fill_colors(f: DiffFill) -> (Rgb, Rgb) {
    match f {
        DiffFill::Grey => (Rgb { r: 80, g: 80, b: 80 }, Rgb { r: 160, g: 160, b: 160 }),
        DiffFill::Red => (Rgb { r: 120, g: 0, b: 0 }, Rgb { r: 220, g: 40, b: 40 }),
        DiffFill::Green => (Rgb { r: 0, g: 120, b: 0 }, Rgb { r: 40, g: 220, b: 40 }),
    }
}

/// The fill of what only the original has.
pub open spec fn fill_of_original(is_finetune: bool) -> DiffFill {
    if is_finetune {
        DiffFill::Grey
    } else {
        DiffFill::Red
    }
}

impl DiffFill {
    /// `(stripe, base)` colors for the crosshatch pattern. `stripe` is the
    /// foreground diagonal line color; `base` is the fill behind it.
    pub fn colors(self) -> (c: (Rgb, Rgb))
        ensures
            c == fill_colors(self),
    {
        match self {
            DiffFill::Grey => (rgb(80, 80, 80), rgb(160, 160, 160)),
            DiffFill::Red => (rgb(120, 0, 0), rgb(220, 40, 40)),
            DiffFill::Green => (rgb(0, 120, 0), rgb(40, 220, 40)),
        }
    }

    /// The fill of what only the original has.
    pub fn of_original(is_finetune: bool) -> (f: Self)
        ensures
            f == fill_of_original(is_finetune),
    {
        if is_finetune {
            DiffFill::Grey
        } else {
            DiffFill::Red
        }
    }
}

/// Selects how per-element diffs are encoded for visualization.
///
/// All three preserve the sign convention (green = grew, red = shrank,
/// black = no change, white = NaN/Inf in either side). They differ in how
/// brightness is computed.
#[derive(Debug, Clone, Copy, PartialEq, Eq, Structural)]
pub enum DiffMetric {
    /// Per-tensor RMS-normalized signed delta. Requires a per-tensor scale
    /// (computed at setup via sampling). Default.
    Rms,
    /// Absolute delta on a log brightness scale, no normalization.
    AbsLog,
    /// Ternary: identical bytes → black, any change → full saturation in the
    /// direction of the change.
    Exact,
}

impl Default for DiffMetric {
    fn default() -> (m: Self)
        ensures
            m == DiffMetric::Rms,
    {
        DiffMetric::Rms
    }
}

/// Per-tensor metadata, format-agnostic.
#[derive(Debug)]
pub struct TensorMeta {
    pub name: String,
    pub dtype: Dtype,
    pub shape: Vec<u64>,
    /// Absolute byte positions in the file [start, end)
    pub file_start: u64,
    pub file_end: u64,
}

/// What is known of a tensor.
pub ghost struct Tensor {
    pub name: Seq<char>,
    pub dtype: Dtype,
    pub shape: Seq<u64>,
    pub start: u64,
    pub end: u64,
}

impl View for TensorMeta {
    type V = Tensor;

    open spec fn view(&self) -> Tensor {
        Tensor {
            name: self.name@,
            dtype: self.dtype,
            shape: self.shape@,
            start: self.file_start,
            end: self.file_end,
        }
    }
}

/// The tensors of a list.
pub open spec fn tensors(v: Seq<TensorMeta>) -> Seq<Tensor> {
    v.map_values(|t: TensorMeta| t@)
}

/// The product of the dimensions; 1 where there are none.
pub open spec fn product(s: Seq<u64>) -> nat
    decreases s.len(),
{
    if s.len() == 0 {
        1
    } else {
        product(s.drop_last()) * s.last() as nat
    }
}

/// The product, multiplied up from the front, never leaves 64 bits.
pub open spec fn product_fits(s: Seq<u64>) -> bool {
    forall|k: int| 0 <= k <= s.len() ==> #[trigger] product(s.take(k)) <= u64::MAX
}

/// The decimal numerals of a list of dimensions.
pub open spec fn numerals(s: Seq<u64>) -> Seq<Seq<char>> {
    s.map_values(|d: u64| text::decimal(d as nat))
}

/// The label of a tensor: its name, element type and shape.
pub open spec fn tensor_label(t: Tensor) -> Seq<char> {
    t.name + " ["@ + dtype::dtype_label(t.dtype) + ", "@ + text::joined(numerals(t.shape), "×"@)
        + "]"@
}

/// The number of elements of a tensor with the given shape.
pub fn element_count(shape: &Vec<u64>) -> (n: u64)
    requires
        product_fits(shape@),
    ensures
        n == product(shape@),
{
    assert(shape@.skip(0) =~= shape@);
    product_from(shape, 0)
}

/// The product of the dimensions from `from` on.
fn product_from(shape: &Vec<u64>, from: usize) -> (n: u64)
    requires
        from <= shape@.len(),
        product_fits(shape@.skip(from as int)),
    ensures
        n == product(shape@.skip(from as int)),
{
    let ghost s = shape@.skip(from as int);
    let mut n: u64 = 1;
    let mut i: usize = from;
    assert(s.take(0) =~= seq![]);
    while i < shape.len()
        invariant
            from <= i <= shape@.len(),
            s == shape@.skip(from as int),
            product_fits(s),
            n == product(s.take(i - from)),
        decreases shape@.len() - i,
    {
        proof {
            assert(s.take(i - from + 1).drop_last() =~= s.take(i - from));
            assert(s.take(i - from + 1).last() == shape@[i as int]);
            assert(product(s.take(i - from + 1)) <= u64::MAX);
        }
        n = n * shape[i];
        i = i + 1;
    }
    assert(s.take(i - from) =~= s);
    n
}

/// The number of elements of a tensor, `None` where 64 bits do not hold it.
pub fn checked_element_count(shape: &Vec<u64>) -> (n: Option<u64>)
    ensures
        match n {
            Some(k) => product_fits(shape@) && k == product(shape@),
            None => !product_fits(shape@),
        },
{
    let ghost s = shape@;
    let mut n: u64 = 1;
    let mut i: usize = 0;
    assert(s.take(0) =~= seq![]);
    while i < shape.len()
        invariant
            i <= shape@.len(),
            s == shape@,
            n == product(s.take(i as int)),
            forall|k: int| 0 <= k <= i ==> #[trigger] product(s.take(k)) <= u64::MAX,
        decreases shape@.len() - i,
    {
        proof {
            assert(s.take(i + 1).drop_last() =~= s.take(i as int));
        }
        match n.checked_mul(shape[i]) {
            Some(k) => {
                n = k;
            },
            None => {
                assert(product(s.take(i + 1)) > u64::MAX);
                return None;
            },
        }
        i = i + 1;
    }
    assert(s.take(i as int) =~= s);
    Some(n)
}

/// The 2D pixel grid of a tensor with the given shape.
pub open spec fn grid_of(shape: Seq<u64>) -> (int, int) {
    if shape.len() == 0 {
        (1, 1)
    } else if shape.len() == 1 {
        (1, shape[0] as int)
    } else {
        (shape[0] as int, product(shape.skip(1)) as int)
    }
}

impl TensorMeta {
    /// 2D pixel-grid shape used by the architectural layout. Distinct from
    /// `shape`, which is the raw tensor shape: this collapses to exactly two
    /// dimensions so a tensor occupies a flat rectangle on the canvas.
    ///
    /// - 0-D (scalar) → `(1, 1)`
    /// - 1-D `(n)` → `(1, n)` (one-pixel-tall strip)
    /// - 2-D `(r, c)` → `(r, c)` (preserved)
    /// - ≥3-D `(a, b, c, …)` → `(a, b*c*…)` (last dims collapsed into the
    ///   column axis). The element index within the resulting rect uses
    ///   row-major order, which matches the byte order in the underlying
    ///   file: element `(row, col)` lives at the logical position
    ///   `row*cols + col`.
    pub fn element_shape(&self) -> (r: (u64, u64))
        requires
            self.shape@.len() > 2 ==> product_fits(self.shape@.skip(1)),
        ensures
            (r.0 as int, r.1 as int) == grid_of(self.shape@),
    {
        let n: usize = self.shape.len();
        if n == 0 {
            (1, 1)
        } else if n == 1 {
            (1, self.shape[0])
        } else if n == 2 {
            proof {
                let tail = self.shape@.skip(1);
                assert(tail.drop_last() =~= seq![]);
                assert(product(tail.drop_last()) == 1);
                assert(product(tail) == 1 * tail.last() as nat);
            }
            (self.shape[0], self.shape[1])
        } else {
            (self.shape[0], product_from(&self.shape, 1))
        }
    }

    /// The tensor's name with its element type and shape.
    pub fn label(&self) -> (s: String)
        ensures
            s@ == tensor_label(self@),
    {
        let mut dims: Vec<String> = Vec::new();
        let mut i: usize = 0;
        while i < self.shape.len()
            invariant
                i <= self.shape@.len(),
                dims@.len() == i,
                forall|k: int|
                    0 <= k < i ==> (#[trigger] dims@[k])@ == text::decimal(
                        self.shape@[k] as nat,
                    ),
            decreases self.shape@.len() - i,
        {
            dims.push(decimal_string(self.shape[i]));
            i = i + 1;
        }
        assert(dims@.map_values(|p: String| p@) =~= numerals(self.shape@));
        self.name.clone().concat(" [").concat(self.dtype.label()).concat(", ").concat(
            join(&dims, "×").as_str(),
        ).concat("]")
    }
}

impl Clone for TensorMeta {
    fn clone(&self) -> (t: Self)
        ensures
            t@ == self@,
    {
        let mut shape: Vec<u64> = Vec::new();
        let mut i: usize = 0;
        while i < self.shape.len()
            invariant
                i <= self.shape@.len(),
                shape@ == self.shape@.take(i as int),
            decreases self.shape@.len() - i,
        {
            shape.push(self.shape[i]);
            i = i + 1;
            assert(shape@ =~= self.shape@.take(i as int));
        }
        assert(shape@ =~= self.shape@);
        TensorMeta {
            name: self.name.clone(),
            dtype: self.dtype,
            shape,
            file_start: self.file_start,
            file_end: self.file_end,
        }
    }
}

} // verus!
