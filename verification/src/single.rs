//! The single-image path: how large the image is, which bytes it samples, what
//! each pixel shows, and where the borders between files run.

use vstd::prelude::*;
use crate::color::{rgb, Rgb};
use crate::format::types;
use crate::format::types::DiffFill;
use crate::geometry;
use crate::geometry::hilbert_to_xy_u64;
use crate::hilbert3d;
use crate::layout::render;
use crate::layout::render::xorb_color_idx;
use crate::source;
use crate::source::Source;

verus! {

/// Two-pixel-wide diagonal crosshatch.
pub open spec fn on_stripe(x: int, y: int) -> bool {
    (x + y) % 8 < 2 || (x + (8 - y % 8)) % 8 < 2
}

/// Two-pixel-wide diagonal crosshatch on (x, y) for unmatched-region sources.
pub fn is_crosshatch_stripe_single(x: u32, y: u32) -> (r: bool)
    requires
        x + y <= u32::MAX,
        x + 8 <= u32::MAX,
    ensures
        r == on_stripe(x as int, y as int),
{
    let a: u32 = (x + y) % 8;
    let b: u32 = (x + (8 - y % 8)) % 8;
    a < 2 || b < 2
}

/// The quotient rounded up.
pub open spec fn ceil_div(a: int, b: int) -> int {
    (a + b - 1) / b
}

fn divide_up(a: u64, b: u64) -> (q: u64)
    requires
        b > 0,
    ensures
        q == ceil_div(a as int, b as int),
        q <= a,
{
    let q: u64 = a / b;
    assert(ceil_div(a as int, b as int) == (if a % b == 0 {
        q as int
    } else {
        q + 1
    }) && (q == a ==> b == 1 || a == 0) && q <= a) by (nonlinear_arith)
        requires
            b > 0,
            q == a / b,
    ;
    if a % b == 0 {
        q
    } else {
        assert(q < a) by (nonlinear_arith)
            requires
                q == a / b,
                a % b != 0,
                b > 0,
                a >= 0,
        ;
        q + 1
    }
}

/// How many multiples of `stride` lie in `start..end`.
pub fn sampled_in_range(start: u64, end: u64, stride: u64) -> (n: u64)
    requires
        start <= end,
        stride > 0,
    ensures
        n == ceil_div(end as int, stride as int) - ceil_div(start as int, stride as int),
{
    proof {
        lemma_ceil_mono(start as int, end as int, stride as int);
    }
    divide_up(end, stride) - divide_up(start, stride)
}

proof fn lemma_ceil_mono(a: int, b: int, s: int)
    requires
        a <= b,
        s > 0,
    ensures
        ceil_div(a, s) <= ceil_div(b, s),
{
    assert((a + s - 1) / s <= (b + s - 1) / s) by (nonlinear_arith)
        requires
            a <= b,
            s > 0,
    ;
}

/// The smallest order from `k` on whose square holds `total` pixels, at most 12.
pub open spec fn order_from(k: nat, total: int) -> nat
    decreases 12 - k,
{
    if k >= 12 || geometry::pow4(k) >= total {
        k
    } else {
        order_from(k + 1, total)
    }
}

/// The size of the image and how its bytes are sampled.
#[derive(Debug, Clone, Copy)]
pub struct CanvasPlan {
    /// Order of the curve: the image is `2^k` pixels wide and high.
    pub k: u32,
    pub side: u32,
    pub canvas_size: u64,
    /// Every `stride`-th byte is shown.
    pub stride: u64,
    /// How many bytes are rendered at a time.
    pub chunk_bytes: u64,
}

/// The plan of an image of `total` bytes: the smallest square that holds them,
/// up to a limit, and the stride that thins them out to fit.
pub open spec fn is_plan_for(p: CanvasPlan, total: u64) -> bool {
    &&& p.wf()
    &&& p.k == order_from(
        1,
        if total >= 1 {
            total as int
        } else {
            1
        },
    )
    &&& p.stride == (if total > p.canvas_size {
        ceil_div(total as int, p.canvas_size as int)
    } else {
        1
    })
    &&& p.chunk_bytes == (if p.stride > 4_194_304 {
        p.stride as int
    } else {
        4_194_304
    })
}

impl CanvasPlan {
    /// The image is a square of the curve's order.
    pub open spec fn wf(&self) -> bool {
        &&& 1 <= self.k <= 12
        &&& self.side == hilbert3d::pow2(self.k as nat)
        &&& self.canvas_size == geometry::pow4(self.k as nat)
        &&& self.side <= 4096
        &&& self.canvas_size == self.side * self.side
        &&& self.stride >= 1
    }

    /// Smallest square that holds `total` bytes, capped at 4096×4096 (~50MB
    /// RGB8) to stay within GPU buffer limits. Subsamples if there are more
    /// bytes than canvas pixels.
    pub fn for_total(total: u64) -> (p: Self)
        ensures
            is_plan_for(p, total),
    {
        let want: u64 = if total >= 1 {
            total
        } else {
            1
        };
        let mut k: u32 = 1;
        let mut side: u32 = 2;
        let mut size: u64 = 4;
        proof {
            reveal_with_fuel(geometry::pow4, 2);
            reveal_with_fuel(hilbert3d::pow2, 2);
        }
        while k < 12 && size < want
            invariant
                1 <= k <= 12,
                side == hilbert3d::pow2(k as nat),
                size == geometry::pow4(k as nat),
                order_from(k as nat, want as int) == order_from(1, want as int),
            decreases 12 - k,
        {
            proof {
                lemma_order_bounds(k as nat);
            }
            k = k + 1;
            side = 2 * side;
            size = 4 * size;
        }
        proof {
            lemma_order_bounds(k as nat);
            geometry::square_of_side(k as nat);
        }
        let stride: u64 = if total > size {
            divide_up(total, size)
        } else {
            1
        };
        proof {
            if total > size {
                assert(ceil_div(total as int, size as int) >= 1) by (nonlinear_arith)
                    requires
                        total > size,
                        size > 0,
                ;
            }
        }
        CanvasPlan {
            k,
            side,
            canvas_size: size,
            stride,
            chunk_bytes: if stride > 4_194_304 {
                stride
            } else {
                4_194_304
            },
        }
    }
}

pub proof fn lemma_order_bounds(k: nat)
    requires
        k <= 12,
    ensures
        1 <= geometry::pow4(k) <= 16_777_216,
        1 <= hilbert3d::pow2(k) <= 4096,
{
    reveal_with_fuel(geometry::pow4, 13);
    reveal_with_fuel(hilbert3d::pow2, 13);
}

proof fn lemma_order_holds(k: nat, total: int)
    requires
        k <= 12,
        total <= 16_777_216,
    ensures
        geometry::pow4(order_from(k, total)) >= total,
    decreases 12 - k,
{
    if k < 12 {
        if geometry::pow4(k) < total {
            lemma_order_holds(k + 1, total);
        }
    } else {
        assert(geometry::pow4(12) == 16_777_216) by {
            reveal_with_fuel(geometry::pow4, 13);
        }
    }
}

/// Up to the size limit the image has room for every byte.
pub proof fn lemma_room(p: CanvasPlan, total: int)
    requires
        0 <= total <= 16_777_216,
        is_plan_for(p, total as u64),
    ensures
        p.canvas_size >= total,
        p.stride == 1,
        ceil_div(total, p.stride as int) == total,
{
    lemma_order_holds(
        1,
        if total >= 1 {
            total
        } else {
            1
        },
    );
}

/// Every sampled byte has a pixel: the image is never too small for the stride.
pub proof fn every_sample_has_a_pixel(total: int, canvas: int, stride: int)
    requires
        total >= 0,
        canvas > 0,
        stride == (if total > canvas {
            ceil_div(total, canvas)
        } else {
            1
        }),
    ensures
        ceil_div(total, stride) <= canvas,
{
    if total > canvas {
        assert(stride * canvas >= total) by (nonlinear_arith)
            requires
                stride == (total + canvas - 1) / canvas,
                canvas > 0,
        ;
        assert(stride >= 1) by (nonlinear_arith)
            requires
                stride == (total + canvas - 1) / canvas,
                total > canvas,
                canvas > 0,
        ;
        assert((total + stride - 1) / stride <= canvas) by (nonlinear_arith)
            requires
                stride * canvas >= total,
                stride >= 1,
        {
            assert(total + stride - 1 < stride * (canvas + 1)) by (nonlinear_arith)
                requires
                    stride * canvas >= total,
                    stride >= 1,
            ;
            assert((total + stride - 1) / stride < canvas + 1) by (nonlinear_arith)
                requires
                    total + stride - 1 < stride * (canvas + 1),
                    stride >= 1,
            ;
        }
    }
}

/// Where each source starts in the concatenated bytes.
pub fn cumulative_offsets(sources: &[Source]) -> (r: Vec<u64>)
    requires
        source::total_size(source::regions(sources@)) <= u64::MAX,
    ensures
        r@.len() == sources@.len(),
        forall|i: int|
            0 <= i < r@.len() ==> #[trigger] r@[i] == start_of(sources@, i),
{
    let mut out: Vec<u64> = Vec::new();
    let mut at: u64 = 0;
    let mut i: usize = 0;
    assert(source::regions(sources@.take(0)) =~= seq![]);
    while i < sources.len()
        invariant
            i <= sources@.len(),
            source::total_size(source::regions(sources@)) <= u64::MAX,
            at == start_of(sources@, i as int),
            out@.len() == i,
            forall|k: int| 0 <= k < i ==> #[trigger] out@[k] == start_of(sources@, k),
        decreases sources@.len() - i,
    {
        proof {
            lemma_start_step(sources@, i as int);
        }
        out.push(at);
        at = at + sources[i].byte_size;
        i = i + 1;
    }
    out
}

/// Where the `i`-th source starts in the concatenated bytes.
pub open spec fn start_of(sources: Seq<Source>, i: int) -> int {
    source::total_size(source::regions(sources.take(i)))
}

pub proof fn lemma_start_step(sources: Seq<Source>, i: int)
    requires
        0 <= i < sources.len(),
    ensures
        start_of(sources, i + 1) == start_of(sources, i) + sources[i].byte_size,
        start_of(sources, i + 1) <= source::total_size(source::regions(sources)),
        start_of(sources, i) >= 0,
{
    let a = source::regions(sources.take(i));
    let b = source::regions(sources.take(i + 1));
    assert(b.drop_last() =~= a);
    assert(b.last() == sources[i]@);
    let rest = source::regions(sources.skip(i + 1));
    assert(source::regions(sources) =~= b + rest);
    source::lemma_total_concat(b, rest);
    source::lemma_total_concat(a, seq![]);
}

/// A stretch of one source that is rendered at a time.
#[derive(Debug, Clone, Copy, PartialEq, Eq, Structural)]
pub struct Chunk {
    pub file_idx: usize,
    /// Where the source starts in the concatenated bytes.
    pub src_start: u64,
    pub start: u64,
    pub end: u64,
    /// Index on the curve of the first pixel of the chunk.
    pub pixel: u64,
}

/// The smaller of two numbers.
pub open spec fn least(a: int, b: int) -> int {
    if a <= b {
        a
    } else {
        b
    }
}

/// The chunks of the bytes `at..end` of a source; the first pixel of each is
/// the number of samples before it.
pub open spec fn chunks_from(
    file: usize,
    src: int,
    at: int,
    end: int,
    size: int,
    stride: int,
) -> Seq<Chunk>
    decreases end - at,
{
    if at >= end || size <= 0 {
        seq![]
    } else {
        let stop = least(at + size, end);
        seq![
            Chunk {
                file_idx: file,
                src_start: src as u64,
                start: at as u64,
                end: stop as u64,
                pixel: ceil_div(at, stride) as u64,
            },
        ] + chunks_from(file, src, stop, end, size, stride)
    }
}

fn chunks_of_source(file_idx: usize, start: u64, end: u64, plan: &CanvasPlan) -> (r: Vec<Chunk>)
    requires
        plan.stride > 0,
        plan.chunk_bytes > 0,
        start <= end,
    ensures
        r@ == chunks_from(
            file_idx,
            start as int,
            start as int,
            end as int,
            plan.chunk_bytes as int,
            plan.stride as int,
        ),
{
    let ghost size = plan.chunk_bytes as int;
    let ghost stride = plan.stride as int;
    let ghost all = chunks_from(file_idx, start as int, start as int, end as int, size, stride);
    let mut out: Vec<Chunk> = Vec::new();
    let mut at: u64 = start;
    assert(out@ + all =~= all);
    while at < end
        invariant
            start <= at <= end,
            plan.stride > 0,
            plan.chunk_bytes > 0,
            size == plan.chunk_bytes,
            stride == plan.stride,
            out@ + chunks_from(file_idx, start as int, at as int, end as int, size, stride) == all,
        decreases end - at,
    {
        let stop: u64 = if end - at <= plan.chunk_bytes {
            end
        } else {
            at + plan.chunk_bytes
        };
        let c = Chunk {
            file_idx,
            src_start: start,
            start: at,
            end: stop,
            pixel: divide_up(at, plan.stride),
        };
        let ghost was = out@;
        let ghost rest = chunks_from(
            file_idx,
            start as int,
            stop as int,
            end as int,
            size,
            stride,
        );
        out.push(c);
        assert(was + (seq![c] + rest) =~= was.push(c) + rest);
        at = stop;
    }
    assert(out@ =~= all);
    out
}

/// Compute the chunks of every source.
pub fn plan_chunks(sources: &[Source], plan: &CanvasPlan) -> (r: Vec<Vec<Chunk>>)
    requires
        plan.stride > 0,
        plan.chunk_bytes > 0,
        source::total_size(source::regions(sources@)) <= u64::MAX,
    ensures
        r@.len() == sources@.len(),
        forall|i: int|
            0 <= i < r@.len() ==> (#[trigger] r@[i])@ == chunks_from(
                sources@[i].file_idx,
                start_of(sources@, i),
                start_of(sources@, i),
                start_of(sources@, i + 1),
                plan.chunk_bytes as int,
                plan.stride as int,
            ),
{
    let mut out: Vec<Vec<Chunk>> = Vec::new();
    let mut at: u64 = 0;
    let mut i: usize = 0;
    assert(source::regions(sources@.take(0)) =~= seq![]);
    while i < sources.len()
        invariant
            i <= sources@.len(),
            plan.stride > 0,
            plan.chunk_bytes > 0,
            source::total_size(source::regions(sources@)) <= u64::MAX,
            at == start_of(sources@, i as int),
            out@.len() == i,
            forall|k: int|
                0 <= k < i ==> (#[trigger] out@[k])@ == chunks_from(
                    sources@[k].file_idx,
                    start_of(sources@, k),
                    start_of(sources@, k),
                    start_of(sources@, k + 1),
                    plan.chunk_bytes as int,
                    plan.stride as int,
                ),
        decreases sources@.len() - i,
    {
        proof {
            lemma_start_step(sources@, i as int);
        }
        let end: u64 = at + sources[i].byte_size;
        out.push(chunks_of_source(sources[i].file_idx, at, end, plan));
        at = end;
        i = i + 1;
    }
    out
}

/// The chunks of a source follow one another from its first byte to its last,
/// and the pixels of one chunk end where those of the next begin.
pub proof fn chunks_tile_source(
    file: usize,
    src: int,
    at: int,
    end: int,
    size: int,
    stride: int,
    i: int,
)
    requires
        0 <= at <= end <= u64::MAX,
        size > 0,
        stride > 0,
        0 <= i < chunks_from(file, src, at, end, size, stride).len(),
    ensures
        ({
            let cs = chunks_from(file, src, at, end, size, stride);
            &&& cs[0].start == at
            &&& cs.last().end == end
            &&& cs[i].start < cs[i].end <= end
            &&& i + 1 < cs.len() ==> cs[i + 1].start == cs[i].end
            &&& cs[i].pixel == ceil_div(cs[i].start as int, stride)
        }),
    decreases end - at,
{
    let cs = chunks_from(file, src, at, end, size, stride);
    let stop = least(at + size, end);
    let rest = chunks_from(file, src, stop, end, size, stride);
    assert(ceil_div(at, stride) <= at && 0 <= ceil_div(at, stride)) by (nonlinear_arith)
        requires
            stride > 0,
            at >= 0,
    ;
    assert(cs.drop_first() =~= rest);
    if rest.len() > 0 {
        assert(cs.last() == rest.last());
        assert(cs[1] == rest[0]);
        if i > 0 {
            chunks_tile_source(file, src, stop, end, size, stride, i - 1);
            assert(cs[i] == rest[i - 1]);
            if i + 1 < cs.len() {
                assert(cs[i + 1] == rest[i]);
            }
        } else {
            chunks_tile_source(file, src, stop, end, size, stride, 0);
        }
    } else {
        assert(stop >= end);
    }
}

/// The image in the making: the colour of each pixel, and which file painted it.
#[derive(Debug)]
pub struct Picture {
    pub pixels: Vec<Rgb>,
    pub owner: Vec<Option<usize>>,
}

/// What the image in the making holds.
pub ghost struct Painting {
    pub pixels: Seq<Rgb>,
    pub owner: Seq<Option<usize>>,
}

impl View for Picture {
    type V = Painting;

    open spec fn view(&self) -> Painting {
        Painting { pixels: self.pixels@, owner: self.owner@ }
    }
}

/// The picture has one colour and one owner per pixel of the canvas.
pub open spec fn sized(p: Painting, plan: CanvasPlan) -> bool {
    p.pixels.len() == plan.canvas_size && p.owner.len() == plan.canvas_size
}

/// The place in the picture of the `n`-th pixel of the curve.
pub open spec fn spot(k: nat, n: int) -> int {
    let c = geometry::curve(n, k, 0);
    c.y * hilbert3d::pow2(k) + c.x
}

/// The pixels `from..to` of the curve got a colour and an owner; the others
/// were left alone.
pub open spec fn painted(
    was: Painting,
    now: Painting,
    k: nat,
    from: int,
    to: int,
    file: usize,
    color: spec_fn(int) -> Rgb,
) -> bool {
    &&& now.pixels.len() == was.pixels.len()
    &&& now.owner.len() == was.owner.len()
    &&& forall|n: int|
        from <= n < to ==> now.pixels[#[trigger] spot(k, n)] == color(n) && now.owner[spot(k, n)]
            == Some(file)
    &&& forall|i: int|
        0 <= i < was.pixels.len() && untouched(k, from, to, i) ==> #[trigger] now.pixels[i]
            == was.pixels[i] && now.owner[i] == was.owner[i]
}

/// None of the pixels `from..to` of the curve lies at `i`.
pub open spec fn untouched(k: nat, from: int, to: int, i: int) -> bool {
    forall|n: int| from <= n < to ==> #[trigger] spot(k, n) != i
}

/// The smallest box round the pixels `from..to` of the curve.
pub open spec fn box_of(k: nat, from: int, to: int) -> Option<(int, int, int, int)>
    decreases to - from,
{
    if to <= from {
        None
    } else {
        let c = geometry::curve(to - 1, k, 0);
        match box_of(k, from, to - 1) {
            None => Some((c.x, c.y, c.x, c.y)),
            Some(b) => Some(
                (
                    least(b.0, c.x),
                    least(b.1, c.y),
                    if b.2 >= c.x {
                        b.2
                    } else {
                        c.x
                    },
                    if b.3 >= c.y {
                        b.3
                    } else {
                        c.y
                    },
                ),
            ),
        }
    }
}

/// The box that an executable box denotes.
pub open spec fn box_view(b: Option<(u32, u32, u32, u32)>) -> Option<(int, int, int, int)> {
    match b {
        Some((x0, y0, x1, y1)) => Some((x0 as int, y0 as int, x1 as int, y1 as int)),
        None => None,
    }
}

pub proof fn lemma_spot(k: nat, n: int)
    requires
        0 <= n < geometry::pow4(k),
    ensures
        0 <= spot(k, n) < geometry::pow4(k),
{
    geometry::curve_in_square(n, k, 0);
    geometry::square_of_side(k);
    let c = geometry::curve(n, k, 0);
    let s = hilbert3d::pow2(k);
    assert(0 <= c.y * s + c.x < s * s) by (nonlinear_arith)
        requires
            0 <= c.x < s,
            0 <= c.y < s,
    ;
}

pub proof fn lemma_spot_injective(k: nat, m: int, n: int)
    requires
        0 <= m < geometry::pow4(k),
        0 <= n < geometry::pow4(k),
        spot(k, m) == spot(k, n),
    ensures
        m == n,
{
    geometry::curve_in_square(m, k, 0);
    geometry::curve_in_square(n, k, 0);
    let a = geometry::curve(m, k, 0);
    let b = geometry::curve(n, k, 0);
    let s = hilbert3d::pow2(k);
    assert(a.y == b.y && a.x == b.x) by (nonlinear_arith)
        requires
            a.y * s + a.x == b.y * s + b.x,
            0 <= a.x < s,
            0 <= b.x < s,
            0 <= a.y,
            0 <= b.y,
    ;
    geometry::curve_is_injective(m, n, k, 0);
}

/// Grows a box so that it holds a point.
fn grow(b: Option<(u32, u32, u32, u32)>, x: u32, y: u32) -> (r: Option<(u32, u32, u32, u32)>)
    ensures
        box_view(r) == (match box_view(b) {
            None => Some((x as int, y as int, x as int, y as int)),
            Some(b) => Some(
                (
                    least(b.0, x as int),
                    least(b.1, y as int),
                    if b.2 >= x {
                        b.2
                    } else {
                        x as int
                    },
                    if b.3 >= y {
                        b.3
                    } else {
                        y as int
                    },
                ),
            ),
        }),
{
    match b {
        None => Some((x, y, x, y)),
        Some((x0, y0, x1, y1)) => Some(
            (
                if x0 <= x {
                    x0
                } else {
                    x
                },
                if y0 <= y {
                    y0
                } else {
                    y
                },
                if x1 >= x {
                    x1
                } else {
                    x
                },
                if y1 >= y {
                    y1
                } else {
                    y
                },
            ),
        ),
    }
}

/// Paints the `n`-th pixel of the curve and returns where it lies.
fn paint_one(pic: &mut Picture, plan: &CanvasPlan, n: u64, file: usize, at: (u32, u32), c: Rgb)
    requires
        plan.wf(),
        sized(old(pic)@, *plan),
        n < plan.canvas_size,
        (geometry::Cell { x: at.0 as int, y: at.1 as int }) == geometry::curve(
            n as int,
            plan.k as nat,
            0,
        ),
    ensures
        final(pic)@ == (Painting {
            pixels: old(pic)@.pixels.update(spot(plan.k as nat, n as int), c),
            owner: old(pic)@.owner.update(spot(plan.k as nat, n as int), Some(file)),
        }),
{
    proof {
        lemma_spot(plan.k as nat, n as int);
        assert(at.1 * plan.side + at.0 == spot(plan.k as nat, n as int));
        assert(at.1 * plan.side >= 0) by (nonlinear_arith)
            requires
                at.1 >= 0,
                plan.side >= 0,
        ;
        lemma_order_bounds(plan.k as nat);
    }
    let i: usize = at.1 as usize * plan.side as usize + at.0 as usize;
    pic.pixels.set(i, c);
    pic.owner.set(i, Some(file));
}

/// Painting one more pixel of the curve.
proof fn lemma_paint_step(
    was: Painting,
    mid: Painting,
    k: nat,
    from: int,
    to: int,
    file: usize,
    color: spec_fn(int) -> Rgb,
)
    requires
        0 <= from <= to < geometry::pow4(k),
        was.pixels.len() == geometry::pow4(k),
        was.owner.len() == geometry::pow4(k),
        painted(was, mid, k, from, to, file, color),
    ensures
        painted(
            was,
            (Painting {
                pixels: mid.pixels.update(spot(k, to), color(to)),
                owner: mid.owner.update(spot(k, to), Some(file)),
            }),
            k,
            from,
            to + 1,
            file,
            color,
        ),
{
    lemma_spot(k, to);
    let now = Painting {
        pixels: mid.pixels.update(spot(k, to), color(to)),
        owner: mid.owner.update(spot(k, to), Some(file)),
    };
    assert forall|n: int| from <= n < to + 1 implies now.pixels[#[trigger] spot(k, n)] == color(n)
        && now.owner[spot(k, n)] == Some(file) by {
        lemma_spot(k, n);
        if n < to {
            if spot(k, n) == spot(k, to) {
                lemma_spot_injective(k, n, to);
            }
        }
    }
    assert forall|i: int|
        0 <= i < was.pixels.len() && untouched(k, from, to + 1, i) implies #[trigger] now.pixels[i]
        == was.pixels[i] && now.owner[i] == was.owner[i] by {
        assert(spot(k, to) != i);
        assert(untouched(k, from, to, i));
        assert(mid.pixels[i] == was.pixels[i]);
    }
}

/// The pixel behind the last one of a chunk.
pub open spec fn last_pixel(c: Chunk, plan: CanvasPlan) -> int {
    least(ceil_div(c.end as int, plan.stride as int), plan.canvas_size as int)
}

/// The chunk belongs to the plan.
pub open spec fn chunk_fits(c: Chunk, plan: CanvasPlan) -> bool {
    &&& c.src_start <= c.start <= c.end
    &&& c.pixel == ceil_div(c.start as int, plan.stride as int)
}

pub proof fn lemma_sample(n: int, start: int, end: int, stride: int)
    requires
        stride > 0,
        0 <= start <= end,
        ceil_div(start, stride) <= n < ceil_div(end, stride),
    ensures
        start <= n * stride < end,
{
    assert(start <= n * stride < end) by (nonlinear_arith)
        requires
            stride > 0,
            (start + stride - 1) / stride <= n,
            n < (end + stride - 1) / stride,
    ;
}

/// The colour of a byte: the plain one, or that of the xorb it comes from,
/// dimmed by the byte.
pub open spec fn byte_color(
    byte: u8,
    pos: u64,
    lut: Seq<Rgb>,
    xorbs: Seq<(u64, u64, u8)>,
    tableau: Seq<Rgb>,
) -> Rgb {
    match render::xorb_at(xorbs, pos) {
        Some(i) => render::dimmed(tableau[i as int], byte),
        None => lut[byte as int],
    }
}

/// The colour of each pixel of a chunk: that of the byte which it samples.
pub open spec fn byte_painter(
    c: Chunk,
    stride: int,
    bytes: Seq<u8>,
    lut: Seq<Rgb>,
    xorbs: Seq<(u64, u64, u8)>,
    tableau: Seq<Rgb>,
) -> spec_fn(int) -> Rgb {
    |n: int|
        byte_color(bytes[n * stride - c.start], (n * stride) as u64, lut, xorbs, tableau)
}

/// Nothing is painted where the range is empty.
proof fn lemma_painted_empty(
    was: Painting,
    now: Painting,
    k: nat,
    from: int,
    to: int,
    file: usize,
    color: spec_fn(int) -> Rgb,
)
    requires
        painted(was, now, k, from, from, file, color),
        to <= from,
    ensures
        painted(was, now, k, from, to, file, color),
{
    assert forall|i: int|
        0 <= i < was.pixels.len() && untouched(k, from, to, i) implies #[trigger] now.pixels[i]
        == was.pixels[i] && now.owner[i] == was.owner[i] by {
        assert(untouched(k, from, from, i));
        assert(now.pixels[i] == was.pixels[i]);
        assert(now.owner[i] == was.owner[i]);
    }
}

/// Paints the sampled bytes of a chunk. Returns the smallest box round them.
pub fn paint_bytes(
    pic: &mut Picture,
    plan: &CanvasPlan,
    chunk: &Chunk,
    bytes: &[u8],
    pixel_lut: &[Rgb; 256],
    xorb_ranges: &[(u64, u64, u8)],
    tableau: &[Rgb; 20],
) -> (b: Option<(u32, u32, u32, u32)>)
    requires
        plan.wf(),
        sized(old(pic)@, *plan),
        chunk_fits(*chunk, *plan),
        bytes@.len() == chunk.end - chunk.start,
        render::ranges_in_order(xorb_ranges@),
        render::indices_valid(xorb_ranges@),
    ensures
        painted(
            old(pic)@,
            final(pic)@,
            plan.k as nat,
            chunk.pixel as int,
            last_pixel(*chunk, *plan),
            chunk.file_idx,
            byte_painter(
                *chunk,
                plan.stride as int,
                bytes@,
                pixel_lut@,
                xorb_ranges@,
                tableau@,
            ),
        ),
        box_view(b) == box_of(
            plan.k as nat,
            chunk.pixel as int,
            last_pixel(*chunk, *plan),
        ),
{
    let ghost color = byte_painter(
        *chunk,
        plan.stride as int,
        bytes@,
        pixel_lut@,
        xorb_ranges@,
        tableau@,
    );
    let ghost before = pic@;
    let ghost k = plan.k as nat;
    let last: u64 = stop_of(chunk, plan);
    let mut n: u64 = chunk.pixel;
    let mut b: Option<(u32, u32, u32, u32)> = None;
    proof {
        lemma_order_bounds(k);
    }
    while n < last
        invariant
            plan.wf(),
            k == plan.k,
            sized(before, *plan),
            chunk_fits(*chunk, *plan),
            bytes@.len() == chunk.end - chunk.start,
            render::ranges_in_order(xorb_ranges@),
            render::indices_valid(xorb_ranges@),
            last == last_pixel(*chunk, *plan),
            last <= plan.canvas_size,
            chunk.pixel <= n,
            color == byte_painter(
                *chunk,
                plan.stride as int,
                bytes@,
                pixel_lut@,
                xorb_ranges@,
                tableau@,
            ),
            n <= last || n == chunk.pixel,
            painted(before, pic@, k, chunk.pixel as int, n as int, chunk.file_idx, color),
            box_view(b) == box_of(k, chunk.pixel as int, n as int),
        decreases last - n,
    {
        proof {
            lemma_sample(
                n as int,
                chunk.start as int,
                chunk.end as int,
                plan.stride as int,
            );
            lemma_paint_step(
                before,
                pic@,
                k,
                chunk.pixel as int,
                n as int,
                chunk.file_idx,
                color,
            );
        }
        let pos: u64 = n * plan.stride;
        assert(pos - chunk.start < bytes.len());
        let byte: u8 = bytes[(pos - chunk.start) as usize];
        let at: (u32, u32) = hilbert_to_xy_u64(n, plan.k as u8);
        proof {
            render::lemma_xorb_valid(xorb_ranges@, pos);
        }
        let c = match xorb_color_idx(xorb_ranges, pos) {
            Some(i) => {
                let t = tableau[i as usize];
                rgb(
                    render::scale(t.r, byte),
                    render::scale(t.g, byte),
                    render::scale(t.b, byte),
                )
            },
            None => pixel_lut[byte as usize],
        };
        assert(c == color(n as int));
        paint_one(pic, plan, n, chunk.file_idx, at, c);
        b = grow(b, at.0, at.1);
        n = n + 1;
    }
    proof {
        if last < chunk.pixel {
            assert(box_of(k, chunk.pixel as int, last as int) is None);
            assert(box_of(k, chunk.pixel as int, chunk.pixel as int) is None);
            lemma_painted_empty(
                before,
                pic@,
                k,
                chunk.pixel as int,
                last as int,
                chunk.file_idx,
                color,
            );
        }
    }
    b
}

/// The pixel behind the last one of a chunk.
fn stop_of(chunk: &Chunk, plan: &CanvasPlan) -> (n: u64)
    requires
        plan.wf(),
    ensures
        n == last_pixel(*chunk, *plan),
        n <= plan.canvas_size,
{
    let all: u64 = divide_up(chunk.end, plan.stride);
    if all <= plan.canvas_size {
        all
    } else {
        plan.canvas_size
    }
}

/// The colour of each pixel of a crosshatch.
pub open spec fn crosshatch_painter(k: nat, fill: DiffFill) -> spec_fn(int) -> Rgb {
    |n: int|
        {
            let c = geometry::curve(n, k, 0);
            if on_stripe(c.x, c.y) {
                types::fill_colors(fill).0
            } else {
                types::fill_colors(fill).1
            }
        }
}

/// Paints the crosshatch of a region without counterpart. Returns the smallest
/// box round it.
pub fn paint_crosshatch(pic: &mut Picture, plan: &CanvasPlan, chunk: &Chunk, fill: DiffFill) -> (b:
    Option<(u32, u32, u32, u32)>)
    requires
        plan.wf(),
        sized(old(pic)@, *plan),
        chunk_fits(*chunk, *plan),
    ensures
        painted(
            old(pic)@,
            final(pic)@,
            plan.k as nat,
            chunk.pixel as int,
            last_pixel(*chunk, *plan),
            chunk.file_idx,
            crosshatch_painter(plan.k as nat, fill),
        ),
        box_view(b) == box_of(
            plan.k as nat,
            chunk.pixel as int,
            last_pixel(*chunk, *plan),
        ),
{
    let ghost color = crosshatch_painter(plan.k as nat, fill);
    let ghost before = pic@;
    let ghost k = plan.k as nat;
    let (stripe, base): (Rgb, Rgb) = fill.colors();
    let last: u64 = stop_of(chunk, plan);
    let mut n: u64 = chunk.pixel;
    let mut b: Option<(u32, u32, u32, u32)> = None;
    while n < last
        invariant
            plan.wf(),
            k == plan.k,
            sized(before, *plan),
            chunk_fits(*chunk, *plan),
            (stripe, base) == types::fill_colors(fill),
            last == last_pixel(*chunk, *plan),
            last <= plan.canvas_size,
            chunk.pixel <= n,
            color == crosshatch_painter(k, fill),
            n <= last || n == chunk.pixel,
            painted(before, pic@, k, chunk.pixel as int, n as int, chunk.file_idx, color),
            box_view(b) == box_of(k, chunk.pixel as int, n as int),
        decreases last - n,
    {
        proof {
            lemma_paint_step(
                before,
                pic@,
                k,
                chunk.pixel as int,
                n as int,
                chunk.file_idx,
                color,
            );
        }
        let at: (u32, u32) = hilbert_to_xy_u64(n, plan.k as u8);
        proof {
            lemma_order_bounds(k);
        }
        let c = if is_crosshatch_stripe_single(at.0, at.1) {
            stripe
        } else {
            base
        };
        assert(c == color(n as int));
        paint_one(pic, plan, n, chunk.file_idx, at, c);
        b = grow(b, at.0, at.1);
        n = n + 1;
    }
    proof {
        if last < chunk.pixel {
            assert(box_of(k, chunk.pixel as int, last as int) is None);
            assert(box_of(k, chunk.pixel as int, chunk.pixel as int) is None);
            lemma_painted_empty(
                before,
                pic@,
                k,
                chunk.pixel as int,
                last as int,
                chunk.file_idx,
                color,
            );
        }
    }
    b
}

/// The smallest box round two boxes.
pub open spec fn joint_box(
    a: Option<(int, int, int, int)>,
    b: Option<(int, int, int, int)>,
) -> Option<(int, int, int, int)> {
    match (a, b) {
        (Some(a), Some(b)) => Some(
            (
                least(a.0, b.0),
                least(a.1, b.1),
                if a.2 >= b.2 {
                    a.2
                } else {
                    b.2
                },
                if a.3 >= b.3 {
                    a.3
                } else {
                    b.3
                },
            ),
        ),
        (Some(a), None) => Some(a),
        (None, b) => b,
    }
}

/// Grows the box of a file by that of one of its chunks.
pub fn merge_box(boxes: &mut Vec<Option<(u32, u32, u32, u32)>>, file_idx: usize, b: Option<
    (u32, u32, u32, u32),
>)
    requires
        file_idx < old(boxes)@.len(),
    ensures
        final(boxes)@.len() == old(boxes)@.len(),
        box_view(final(boxes)@[file_idx as int]) == joint_box(
            box_view(old(boxes)@[file_idx as int]),
            box_view(b),
        ),
        forall|i: int|
            0 <= i < old(boxes)@.len() && i != file_idx ==> #[trigger] final(boxes)@[i] == old(
                boxes,
            )@[i],
{
    if let Some((x0, y0, x1, y1)) = b {
        let merged = match boxes[file_idx] {
            None => b,
            Some((a0, c0, a1, c1)) => Some(
                (
                    if a0 <= x0 {
                        a0
                    } else {
                        x0
                    },
                    if c0 <= y0 {
                        c0
                    } else {
                        y0
                    },
                    if a1 >= x1 {
                        a1
                    } else {
                        x1
                    },
                    if c1 >= y1 {
                        c1
                    } else {
                        y1
                    },
                ),
            ),
        };
        boxes.set(file_idx, merged);
    }
}

/// Two sources belong to different files.
pub open spec fn has_several_files(sources: Seq<Source>) -> bool {
    exists|i: int, j: int|
        0 <= i < sources.len() && 0 <= j < sources.len() && (#[trigger] sources[i]).file_idx != (
        #[trigger] sources[j]).file_idx
}

/// Whether two sources belong to different files.
pub fn several_files(sources: &[Source]) -> (r: bool)
    ensures
        r == has_several_files(sources@),
{
    let mut i: usize = 0;
    while i < sources.len()
        invariant
            i <= sources@.len(),
            forall|k: int| 0 <= k < i ==> (#[trigger] sources@[k]).file_idx == sources@[0].file_idx,
        decreases sources@.len() - i,
    {
        if sources[i].file_idx != sources[0].file_idx {
            assert(sources@[i as int].file_idx != sources@[0].file_idx);
            return true;
        }
        i = i + 1;
    }
    false
}

/// The owner of the pixel at `(x, y)`; nobody outside the picture.
pub open spec fn owner_at(owner: Seq<Option<usize>>, side: int, x: int, y: int) -> Option<usize> {
    if 0 <= x < side && 0 <= y < side {
        owner[y * side + x]
    } else {
        None
    }
}

/// Somebody else owns the pixel at `(x, y)`.
pub open spec fn foreign(
    owner: Seq<Option<usize>>,
    side: int,
    x: int,
    y: int,
    file: usize,
) -> bool {
    owner_at(owner, side, x, y) matches Some(f) && f != file
}

/// The pixel has an owner, and one of its four neighbours has another.
pub open spec fn is_border(owner: Seq<Option<usize>>, side: int, x: int, y: int) -> bool {
    owner_at(owner, side, x, y) matches Some(f) && (foreign(owner, side, x, y + 1, f) || foreign(
        owner,
        side,
        x,
        y - 1,
        f,
    ) || foreign(owner, side, x + 1, y, f) || foreign(owner, side, x - 1, y, f))
}

fn is_foreign(owner: &Vec<Option<usize>>, side: usize, x: usize, y: usize, file: usize) -> (r: bool)
    requires
        x < side,
        y < side,
        owner@.len() == side * side,
    ensures
        r == foreign(owner@, side as int, x as int, y as int, file),
{
    proof {
        lemma_cell(side as int, x as int, y as int);
        assert(owner.len() == owner@.len());
    }
    match owner[y * side + x] {
        Some(f) => f != file,
        None => false,
    }
}

proof fn lemma_cell(side: int, x: int, y: int)
    requires
        0 <= x < side,
        0 <= y < side,
    ensures
        0 <= y * side + x < side * side,
        0 <= y * side,
{
    assert(0 <= y * side + x < side * side && 0 <= y * side) by (nonlinear_arith)
        requires
            0 <= x < side,
            0 <= y < side,
    ;
}

fn touches_other(owner: &Vec<Option<usize>>, side: usize, x: usize, y: usize) -> (r: bool)
    requires
        x < side,
        y < side,
        owner@.len() == side * side,
    ensures
        r == is_border(owner@, side as int, x as int, y as int),
{
    proof {
        lemma_cell(side as int, x as int, y as int);
        assert(owner.len() == owner@.len());
    }
    match owner[y * side + x] {
        Some(f) => (y + 1 < side && is_foreign(owner, side, x, y + 1, f)) || (y > 0 && is_foreign(
            owner,
            side,
            x,
            y - 1,
            f,
        )) || (x + 1 < side && is_foreign(owner, side, x + 1, y, f)) || (x > 0 && is_foreign(
            owner,
            side,
            x - 1,
            y,
            f,
        )),
        None => false,
    }
}

/// Marks the pixels where two files meet black. The pixel at index `i` lies in
/// column `i % side` of row `i / side`.
pub fn mark_borders(pic: &mut Picture, side: u32)
    requires
        old(pic)@.owner.len() == side * side,
        old(pic)@.pixels.len() == side * side,
    ensures
        final(pic)@.owner == old(pic)@.owner,
        final(pic)@.pixels.len() == old(pic)@.pixels.len(),
        forall|i: int|
            0 <= i < old(pic)@.pixels.len() ==> #[trigger] final(pic)@.pixels[i] == (if is_border(
                old(pic)@.owner,
                side as int,
                i % (side as int),
                i / (side as int),
            ) {
                Rgb { r: 0, g: 0, b: 0 }
            } else {
                old(pic)@.pixels[i]
            }),
{
    let ghost before = pic@;
    let w: usize = side as usize;
    let size: usize = pic.pixels.len();
    let mut i: usize = 0;
    while i < size
        invariant
            w == side,
            size == side * side,
            i <= size,
            before.owner.len() == size,
            before.pixels.len() == size,
            pic@.owner == before.owner,
            pic@.pixels.len() == size,
            forall|j: int|
                0 <= j < size ==> #[trigger] pic@.pixels[j] == (if j < i && is_border(
                    before.owner,
                    side as int,
                    j % (side as int),
                    j / (side as int),
                ) {
                    Rgb { r: 0, g: 0, b: 0 }
                } else {
                    before.pixels[j]
                }),
        decreases size - i,
    {
        assert(w > 0) by (nonlinear_arith)
            requires
                i < size,
                size == w * w,
        ;
        assert(i / w < w && i % w < w) by (nonlinear_arith)
            requires
                i < w * w,
                w > 0,
        ;
        if touches_other(&pic.owner, w, i % w, i / w) {
            pic.pixels.set(i, rgb(0, 0, 0));
        }
        i = i + 1;
    }
}

/// A colour as a `0x00RRGGBB` word.
pub fn pixel_word(c: Rgb) -> (w: u32)
    ensures
        w == c.r * 0x1_0000 + c.g * 0x100 + c.b,
{
    c.r as u32 * 0x1_0000 + c.g as u32 * 0x100 + c.b as u32
}

} // verus!
