//! Per-element colorizers shared between the tiled and single-image paths.
//!
//! The architectural layout calls these once per output pixel, where each
//! pixel corresponds to one element of one tensor. The byte-Hilbert path
//! doesn't use these — it operates per byte through a precomputed LUT.

use vstd::prelude::*;
use crate::color::{rgb, Rgb};
use crate::format::dtype;
use crate::format::dtype::Dtype;

verus! {

/// Neutral background colour for canvas pixels that fall outside every
/// tensor's rectangle. Not pure black so the 2×2 pyramid average doesn't push a
/// near-zero diff toward the background and steal contrast from genuinely-zero
/// diffs.
pub fn padding_rgb() -> (c: Rgb)
    ensures
        c == padding(),
{
    rgb(20, 20, 20)
}

/// The background colour.
pub open spec fn padding() -> Rgb {
    Rgb { r: 20, g: 20, b: 20 }
}

/// The number that bytes denote, the lowest byte first.
pub open spec fn little_endian(raw: Seq<u8>) -> int
    decreases raw.len(),
{
    if raw.len() == 0 {
        0
    } else {
        raw[0] + 256 * little_endian(raw.skip(1))
    }
}

/// How many numbers `n` bytes can denote.
pub open spec fn byte_range(n: nat) -> int
    decreases n,
{
    if n == 0 {
        1
    } else {
        256 * byte_range((n - 1) as nat)
    }
}

/// The number that bytes denote in two's complement, the lowest byte first.
pub open spec fn signed_little_endian(raw: Seq<u8>) -> int {
    if raw.len() > 0 && raw.last() >= 0x80 {
        little_endian(raw) - byte_range(raw.len())
    } else {
        little_endian(raw)
    }
}

/// A number kept within a byte.
pub open spec fn clamped(v: int) -> u8 {
    if v < 0 {
        0
    } else if v > 255 {
        255
    } else {
        v as u8
    }
}

/// The byte that stands for an element: the last one of a float, where sign
/// and exponent lie; the value of an integer, clamped to a byte; else the first
/// byte. 0 where there is none.
pub open spec fn proxy_byte(d: Dtype, raw: Seq<u8>) -> u8 {
    if raw.len() == 0 {
        0
    } else {
        match d {
            Dtype::F64 | Dtype::F32 | Dtype::F16 | Dtype::BF16 => raw.last(),
            Dtype::I64 | Dtype::I32 | Dtype::I16 | Dtype::I8 => clamped(signed_little_endian(raw)),
            Dtype::U64 | Dtype::U32 | Dtype::U16 | Dtype::U8 => clamped(little_endian(raw)),
            _ => raw[0],
        }
    }
}

proof fn lemma_little_endian(raw: Seq<u8>)
    ensures
        0 <= little_endian(raw) < byte_range(raw.len()),
    decreases raw.len(),
{
    if raw.len() > 0 {
        lemma_little_endian(raw.skip(1));
    }
}

proof fn lemma_high_byte(raw: Seq<u8>, k: int)
    requires
        0 <= k < raw.len(),
        raw[k] != 0,
    ensures
        little_endian(raw) >= 1,
        k > 0 ==> little_endian(raw) > 255,
    decreases raw.len(),
{
    lemma_little_endian(raw.skip(1));
    if k > 0 {
        assert(raw.skip(1)[k - 1] == raw[k]);
        lemma_high_byte(raw.skip(1), k - 1);
    }
}

proof fn lemma_all_zero(raw: Seq<u8>)
    requires
        forall|k: int| 0 <= k < raw.len() ==> raw[k] == 0,
    ensures
        little_endian(raw) == 0,
    decreases raw.len(),
{
    if raw.len() > 0 {
        lemma_all_zero(raw.skip(1));
    }
}

/// The number that bytes denote, clamped to a byte.
fn clamp_bytes(raw: &[u8]) -> (b: u8)
    requires
        raw@.len() > 0,
    ensures
        b == clamped(little_endian(raw@)),
{
    let mut k: usize = 1;
    while k < raw.len()
        invariant
            1 <= k <= raw@.len(),
            forall|j: int| 1 <= j < k ==> raw@[j] == 0,
        decreases raw@.len() - k,
    {
        if raw[k] != 0 {
            proof {
                lemma_high_byte(raw@, k as int);
            }
            return 255;
        }
        k = k + 1;
    }
    proof {
        lemma_all_zero(raw@.skip(1));
    }
    raw[0]
}

/// Map a single element to one of the 256-entry pixel LUT indices used in
/// plain-byte mode. We pick the MSB of the dtype's little-endian bytewise
/// representation for float types (since that's the byte the byte-LUT colouring
/// is most responsive to), and the raw value clamped to [0, 255] for ints.
pub fn element_to_byte_proxy(dtype: Dtype, raw: &[u8]) -> (b: u8)
    ensures
        b == proxy_byte(dtype, raw@),
{
    if raw.len() == 0 {
        return 0;
    }
    match dtype {
        Dtype::F64 | Dtype::F32 | Dtype::F16 | Dtype::BF16 => raw[raw.len() - 1],
        Dtype::I64 | Dtype::I32 | Dtype::I16 | Dtype::I8 => {
            if raw[raw.len() - 1] >= 0x80 {
                proof {
                    lemma_little_endian(raw@);
                }
                0
            } else {
                clamp_bytes(raw)
            }
        },
        Dtype::U64 | Dtype::U32 | Dtype::U16 | Dtype::U8 => clamp_bytes(raw),
        _ => raw[0],
    }
}

/// The bytes of the element at `idx`, `None` where they are not all there.
pub open spec fn element_bytes(d: Dtype, bytes: Seq<u8>, idx: int) -> Option<Seq<u8>> {
    let n = dtype::size_of_element(d);
    if idx * n + n > bytes.len() {
        None
    } else {
        Some(bytes.subrange(idx * n, idx * n + n))
    }
}

/// The proxy byte of the element at `elem_idx`.
fn proxy_at(dtype: Dtype, bytes: &[u8], elem_idx: usize) -> (r: Option<u8>)
    requires
        elem_idx * 8 + 8 <= usize::MAX,
    ensures
        match element_bytes(dtype, bytes@, elem_idx as int) {
            Some(raw) => r == Some(proxy_byte(dtype, raw)),
            None => r is None,
        },
{
    let elem: usize = dtype.element_size();
    assert(elem_idx * elem <= elem_idx * 8) by (nonlinear_arith)
        requires
            elem <= 8,
    ;
    let start: usize = elem_idx * elem;
    if start + elem > bytes.len() {
        return None;
    }
    let raw = vstd::slice::slice_subrange(bytes, start, start + elem);
    Some(element_to_byte_proxy(dtype, raw))
}

/// Element-aware colour for plain-mode visualisation. Reads one element
/// from `bytes` at `[idx*elem_size, (idx+1)*elem_size)` and runs it through
/// `pixel_lut` via the byte-proxy mapping.
pub fn plain_element_color(
    dtype: Dtype,
    bytes: &[u8],
    elem_idx: usize,
    pixel_lut: &[Rgb; 256],
) -> (c: Rgb)
    requires
        elem_idx * 8 + 8 <= usize::MAX,
    ensures
        c == (match element_bytes(dtype, bytes@, elem_idx as int) {
            Some(raw) => pixel_lut@[proxy_byte(dtype, raw) as int],
            None => padding(),
        }),
{
    match proxy_at(dtype, bytes, elem_idx) {
        Some(b) => pixel_lut[b as usize],
        None => padding_rgb(),
    }
}

/// The xorb ranges follow one another without overlap.
pub open spec fn ranges_in_order(ranges: Seq<(u64, u64, u8)>) -> bool {
    &&& forall|i: int| 0 <= i < ranges.len() ==> (#[trigger] ranges[i]).0 <= ranges[i].1
    &&& forall|i: int, j: int|
        0 <= i < j < ranges.len() ==> (#[trigger] ranges[i]).1 <= (#[trigger] ranges[j]).0
}

/// The colour index of the range that holds `pos`.
pub open spec fn xorb_at(ranges: Seq<(u64, u64, u8)>, pos: u64) -> Option<u8>
    decreases ranges.len(),
{
    if ranges.len() == 0 {
        None
    } else if ranges.last().0 <= pos < ranges.last().1 {
        Some(ranges.last().2)
    } else {
        xorb_at(ranges.drop_last(), pos)
    }
}

proof fn lemma_xorb_found(ranges: Seq<(u64, u64, u8)>, pos: u64, i: int)
    requires
        ranges_in_order(ranges),
        0 <= i < ranges.len(),
        ranges[i].0 <= pos < ranges[i].1,
    ensures
        xorb_at(ranges, pos) == Some(ranges[i].2),
    decreases ranges.len(),
{
    if i < ranges.len() - 1 {
        assert(ranges[i].1 <= ranges[ranges.len() - 1].0);
        lemma_xorb_found(ranges.drop_last(), pos, i);
    }
}

proof fn lemma_xorb_missing(ranges: Seq<(u64, u64, u8)>, pos: u64)
    requires
        forall|i: int|
            0 <= i < ranges.len() ==> !((#[trigger] ranges[i]).0 <= pos < ranges[i].1),
    ensures
        xorb_at(ranges, pos) is None,
    decreases ranges.len(),
{
    if ranges.len() > 0 {
        assert(!(ranges[ranges.len() - 1].0 <= pos < ranges[ranges.len() - 1].1));
        assert forall|i: int| 0 <= i < ranges.len() - 1 implies !((
        #[trigger] ranges.drop_last()[i]).0 <= pos < ranges.drop_last()[i].1) by {
            assert(ranges.drop_last()[i] == ranges[i]);
        }
        lemma_xorb_missing(ranges.drop_last(), pos);
    }
}

/// Binary-search a sorted-non-overlapping `(start, end, color_idx)` list for
/// the entry that contains `pos`.
pub fn xorb_color_idx(ranges: &[(u64, u64, u8)], pos: u64) -> (r: Option<u8>)
    requires
        ranges_in_order(ranges@),
    ensures
        r == xorb_at(ranges@, pos),
{
    let mut lo: usize = 0;
    let mut hi: usize = ranges.len();
    while lo < hi
        invariant
            lo <= hi <= ranges@.len(),
            ranges_in_order(ranges@),
            forall|i: int| 0 <= i < lo ==> (#[trigger] ranges@[i]).1 <= pos,
            forall|i: int| hi <= i < ranges@.len() ==> pos < (#[trigger] ranges@[i]).0,
        decreases hi - lo,
    {
        let mid: usize = lo + (hi - lo) / 2;
        let (s, e, c): (u64, u64, u8) = ranges[mid];
        if pos < s {
            assert forall|i: int| mid <= i < ranges@.len() implies pos < (
            #[trigger] ranges@[i]).0 by {
                if i > mid {
                    assert(ranges@[mid as int].1 <= ranges@[i].0);
                }
            }
            hi = mid;
        } else if pos >= e {
            assert forall|i: int| 0 <= i <= mid implies (#[trigger] ranges@[i]).1 <= pos by {
                if i < mid {
                    assert(ranges@[i].1 <= ranges@[mid as int].0);
                }
            }
            lo = mid + 1;
        } else {
            proof {
                lemma_xorb_found(ranges@, pos, mid as int);
            }
            return Some(c);
        }
    }
    proof {
        lemma_xorb_missing(ranges@, pos);
    }
    None
}

/// A channel at `s / 255` of its intensity, rounded.
pub open spec fn scaled(x: u8, s: u8) -> u8 {
    ((x * s + 127) / 255) as u8
}

pub(crate) fn scale(x: u8, s: u8) -> (r: u8)
    ensures
        r == scaled(x, s),
{
    assert(x * s <= 255 * 255) by (nonlinear_arith)
        requires
            x <= 255,
            s <= 255,
    ;
    ((x as u32 * s as u32 + 127) / 255) as u8
}

/// A colour at `s / 255` of its intensity.
pub open spec fn dimmed(c: Rgb, s: u8) -> Rgb {
    Rgb { r: scaled(c.r, s), g: scaled(c.g, s), b: scaled(c.b, s) }
}

/// The mean of two channels at `s / 255` of its intensity, rounded.
pub open spec fn blended(x: u8, y: u8, s: u8) -> u8 {
    (((x + y) * s + 255) / 510) as u8
}

fn blend(x: u8, y: u8, s: u8) -> (r: u8)
    ensures
        r == blended(x, y, s),
{
    assert((x + y) * s <= 510 * 255) by (nonlinear_arith)
        requires
            x + y <= 510,
            s <= 255,
    ;
    (((x as u32 + y as u32) * s as u32 + 255) / 510) as u8
}

/// Every colour index names an entry of the tableau.
pub open spec fn indices_valid(ranges: Seq<(u64, u64, u8)>) -> bool {
    forall|i: int| 0 <= i < ranges.len() ==> (#[trigger] ranges[i]).2 < 20
}

pub(crate) proof fn lemma_xorb_valid(ranges: Seq<(u64, u64, u8)>, pos: u64)
    requires
        indices_valid(ranges),
    ensures
        xorb_at(ranges, pos) matches Some(i) ==> i < 20,
    decreases ranges.len(),
{
    if ranges.len() > 0 {
        assert(ranges[ranges.len() - 1].2 < 20);
        assert forall|i: int| 0 <= i < ranges.len() - 1 implies (
        #[trigger] ranges.drop_last()[i]).2 < 20 by {
            assert(ranges.drop_last()[i] == ranges[i]);
        }
        lemma_xorb_valid(ranges.drop_last(), pos);
    }
}

/// Where the element at `idx` starts in its source.
pub open spec fn element_pos(d: Dtype, tensor_byte_start: u64, idx: int) -> int {
    tensor_byte_start + idx * dtype::size_of_element(d)
}

fn position_of(dtype: Dtype, tensor_byte_start: u64, elem_idx: usize) -> (p: u64)
    requires
        tensor_byte_start + elem_idx * 8 <= u64::MAX,
    ensures
        p == element_pos(dtype, tensor_byte_start, elem_idx as int),
{
    let elem: u64 = dtype.element_size() as u64;
    assert(elem_idx * elem <= elem_idx * 8) by (nonlinear_arith)
        requires
            elem <= 8,
    ;
    tensor_byte_start + elem_idx as u64 * elem
}

/// Look up an xorb colour for a byte offset, then blend it 50/50 with the
/// tensor's dtype hue and modulate by the per-element intensity proxy.
pub fn xet_dtype_element_color(
    dtype: Dtype,
    bytes: &[u8],
    elem_idx: usize,
    tensor_byte_start: u64,
    xorb_ranges: &[(u64, u64, u8)],
    tableau: &[Rgb; 20],
) -> (c: Rgb)
    requires
        elem_idx * 8 + 8 <= usize::MAX,
        tensor_byte_start + elem_idx * 8 <= u64::MAX,
        ranges_in_order(xorb_ranges@),
        indices_valid(xorb_ranges@),
    ensures
        c == (match element_bytes(dtype, bytes@, elem_idx as int) {
            Some(raw) => {
                let s = proxy_byte(dtype, raw);
                let d = dtype::dtype_color(dtype);
                match xorb_at(
                    xorb_ranges@,
                    element_pos(dtype, tensor_byte_start, elem_idx as int) as u64,
                ) {
                    Some(i) => {
                        let t = tableau@[i as int];
                        Rgb {
                            r: blended(d.r, t.r, s),
                            g: blended(d.g, t.g, s),
                            b: blended(d.b, t.b, s),
                        }
                    },
                    None => dimmed(d, s),
                }
            },
            None => padding(),
        }),
{
    let s: u8 = match proxy_at(dtype, bytes, elem_idx) {
        Some(b) => b,
        None => {
            return padding_rgb();
        },
    };
    let d = dtype.to_color();
    let pos: u64 = position_of(dtype, tensor_byte_start, elem_idx);
    proof {
        lemma_xorb_valid(xorb_ranges@, pos);
    }
    match xorb_color_idx(xorb_ranges, pos) {
        Some(i) => {
            let t = tableau[i as usize];
            rgb(blend(d.r, t.r, s), blend(d.g, t.g, s), blend(d.b, t.b, s))
        },
        None => rgb(scale(d.r, s), scale(d.g, s), scale(d.b, s)),
    }
}

/// Plain xet colour: byte intensity × xorb tableau hue (no dtype blend).
pub fn xet_element_color(
    dtype: Dtype,
    bytes: &[u8],
    elem_idx: usize,
    tensor_byte_start: u64,
    xorb_ranges: &[(u64, u64, u8)],
    tableau: &[Rgb; 20],
    pixel_lut: &[Rgb; 256],
) -> (c: Rgb)
    requires
        elem_idx * 8 + 8 <= usize::MAX,
        tensor_byte_start + elem_idx * 8 <= u64::MAX,
        ranges_in_order(xorb_ranges@),
        indices_valid(xorb_ranges@),
    ensures
        c == (match element_bytes(dtype, bytes@, elem_idx as int) {
            Some(raw) => {
                let s = proxy_byte(dtype, raw);
                match xorb_at(
                    xorb_ranges@,
                    element_pos(dtype, tensor_byte_start, elem_idx as int) as u64,
                ) {
                    Some(i) => dimmed(tableau@[i as int], s),
                    None => pixel_lut@[s as int],
                }
            },
            None => padding(),
        }),
{
    let s: u8 = match proxy_at(dtype, bytes, elem_idx) {
        Some(b) => b,
        None => {
            return padding_rgb();
        },
    };
    let pos: u64 = position_of(dtype, tensor_byte_start, elem_idx);
    proof {
        lemma_xorb_valid(xorb_ranges@, pos);
    }
    match xorb_color_idx(xorb_ranges, pos) {
        Some(i) => {
            let t = tableau[i as usize];
            rgb(scale(t.r, s), scale(t.g, s), scale(t.b, s))
        },
        None => pixel_lut[s as usize],
    }
}

} // verus!
