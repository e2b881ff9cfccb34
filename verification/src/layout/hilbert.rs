//! The geometry of the byte-Hilbert canvas.

use vstd::prelude::*;
use crate::hilbert3d;

verus! {

/// Side of a square tile in pixels.
pub const TILE: u32 = 256;

/// The binary logarithm of [`TILE`].
pub const TILE_LOG2: u8 = 8;

/// The smallest exponent from `s` on whose power of two reaches `total`.
pub open spec fn exponent_from(s: nat, total: int) -> nat
    decreases 64 - s,
{
    if s >= 64 || hilbert3d::pow2(s) >= total {
        s
    } else {
        exponent_from(s + 1, total)
    }
}

/// The binary logarithm of the number of pixels of the canvas for `total`
/// bytes: at least one tile.
pub open spec fn canvas_exponent(total: int) -> nat {
    exponent_from(
        2 * TILE_LOG2 as nat,
        if total >= 1 {
            total
        } else {
            1
        },
    )
}

#[derive(Debug, Clone, Copy)]
pub struct HilbertLayout {
    pub kh: u8,
    pub width_tiles: u32,
    pub height_tiles: u32,
    pub world_w: u32,
    pub height: u32,
    pub max_zoom: u32,
    pub total_tiles: u64,
    pub square_pixels: u64,
    /// Total bytes the curve covers. Pixels with index `>= total` paint black.
    pub total: u64,
}

/// Canvas geometry every layout populates. The tile pipeline reads this
/// once to size the leaflet world, decide pyramid depth, and (for the
/// Hilbert path) walk the curve.
#[derive(Debug, Clone, Copy)]
pub struct CanvasGeom {
    /// Hilbert order in y (`height = 1 << kh`). Zero for non-Hilbert layouts
    /// — those paths don't index into the curve.
    pub kh: u8,
    pub width_tiles: u32,
    pub height_tiles: u32,
    /// World extent in leaflet coordinates at zoom 0 (one of the two axes
    /// always collapses to one tile).
    pub world_w: u32,
    pub world_h: u32,
    pub width: u32,
    pub height: u32,
    pub max_zoom: u32,
    pub total_tiles: u64,
    /// Pixel count of one Hilbert "square" (`height * height` for Hilbert,
    /// `1` for arch — the arch path doesn't divide by this value).
    pub square_pixels: u64,
    /// Total pixels the canvas covers (the Hilbert curve's byte budget /
    /// the arch canvas's pixel rectangle).
    pub total: u64,
}

/// The layout is that of a canvas with `2^s` pixels: two powers of two, the
/// width as large as the height or twice as large.
pub open spec fn laid_out(l: HilbertLayout, s: nat, total: u64) -> bool {
    let kh = s / 2;
    let kw = (s + 1) as nat / 2;
    &&& l.kh == kh
    &&& l.height == hilbert3d::pow2(kh)
    &&& l.height_tiles * TILE == hilbert3d::pow2(kh)
    &&& l.width_tiles * TILE == hilbert3d::pow2(kw)
    &&& l.world_w == TILE * hilbert3d::pow2((kw - kh) as nat)
    &&& l.max_zoom == kh - TILE_LOG2
    &&& l.total_tiles == l.width_tiles * l.height_tiles
    &&& l.square_pixels == l.height * l.height
    &&& l.total == total
}

pub(crate) proof fn lemma_exponent(s: nat, total: int)
    requires
        s <= 62,
        total <= hilbert3d::pow2(62),
    ensures
        s <= exponent_from(s, total) <= 62,
        hilbert3d::pow2(exponent_from(s, total)) >= total,
        exponent_from(s, total) > s ==> hilbert3d::pow2((exponent_from(s, total) - 1) as nat)
            < total,
    decreases 62 - s,
{
    if hilbert3d::pow2(s) < total {
        lemma_exponent(s + 1, total);
    }
}

pub(crate) proof fn lemma_pow2_add(a: nat, b: nat)
    ensures
        hilbert3d::pow2(a + b) == hilbert3d::pow2(a) * hilbert3d::pow2(b),
        hilbert3d::pow2(a) >= 1,
    decreases a,
{
    if a == 0 {
        assert(hilbert3d::pow2(0) * hilbert3d::pow2(b) == hilbert3d::pow2(b)) by (nonlinear_arith)
            requires
                hilbert3d::pow2(0) == 1,
        ;
    } else {
        let j = (a - 1) as nat;
        lemma_pow2_add(j, b);
        assert(a + b - 1 == j + b);
        let x = hilbert3d::pow2(j);
        let y = hilbert3d::pow2(b);
        assert(2 * (x * y) == (2 * x) * y) by (nonlinear_arith);
    }
}

pub(crate) proof fn lemma_pow2_mono(a: nat, b: nat)
    requires
        a <= b,
    ensures
        1 <= hilbert3d::pow2(a) <= hilbert3d::pow2(b),
    decreases b - a,
{
    lemma_pow2_add(a, 0);
    if a < b {
        lemma_pow2_mono(a, (b - 1) as nat);
    }
}

pub(crate) proof fn lemma_pow2_values()
    ensures
        hilbert3d::pow2(4) == 16,
        hilbert3d::pow2(8) == 256,
        hilbert3d::pow2(16) == 0x1_0000,
        hilbert3d::pow2(24) == 0x100_0000,
        hilbert3d::pow2(31) == 0x8000_0000,
        hilbert3d::pow2(32) == 0x1_0000_0000,
        hilbert3d::pow2(62) == 0x4000_0000_0000_0000,
{
    reveal_with_fuel(hilbert3d::pow2, 17);
    assert(hilbert3d::pow2(16) == 0x1_0000);
    assert(hilbert3d::pow2(24) == 0x100_0000);
    assert(hilbert3d::pow2(31) == 0x8000_0000);
    assert(hilbert3d::pow2(32) == 0x1_0000_0000);
    assert(hilbert3d::pow2(47) == 0x8000_0000_0000);
    assert(hilbert3d::pow2(62) == 0x4000_0000_0000_0000);
}

/// A power of two that fits 32 bits.
fn power(k: u32) -> (r: u32)
    requires
        k < 32,
    ensures
        r == hilbert3d::pow2(k as nat),
{
    let mut r: u32 = 1;
    let mut i: u32 = 0;
    while i < k
        invariant
            i <= k < 32,
            r == hilbert3d::pow2(i as nat),
        decreases k - i,
    {
        proof {
            lemma_pow2_mono((i + 1) as nat, 31);
            lemma_pow2_values();
        }
        r = 2 * r;
        i = i + 1;
    }
    r
}

impl HilbertLayout {
    /// Compute the canvas dimensions for `total` bytes laid out via a
    /// 1px-per-byte square-tiled Hilbert curve. A larger total would need a
    /// width beyond 32 bits.
    pub fn from_total(total: u64) -> (l: Self)
        requires
            total <= 0x4000_0000_0000_0000,
        ensures
            laid_out(l, canvas_exponent(total as int), total),
    {
        let want: u64 = if total >= 1 {
            total
        } else {
            1
        };
        let mut s: u32 = 16;
        let mut size: u64 = 0x1_0000;
        proof {
            lemma_pow2_values();
            lemma_exponent(16, want as int);
        }
        while size < want
            invariant
                16 <= s <= 62,
                want <= 0x4000_0000_0000_0000,
                size == hilbert3d::pow2(s as nat),
                exponent_from(s as nat, want as int) == exponent_from(16, want as int),
            decreases 62 - s,
        {
            proof {
                lemma_pow2_values();
                if s == 62 {
                    assert(false);
                }
                lemma_pow2_mono((s + 1) as nat, 62);
            }
            size = 2 * size;
            s = s + 1;
        }
        let kh: u32 = s / 2;
        let kw: u32 = (s + 1) / 2;
        let height: u32 = power(kh);
        let width: u32 = power(kw);
        proof {
            lemma_pow2_values();
            lemma_pow2_add(8, (kh - 8) as nat);
            lemma_pow2_add(8, (kw - 8) as nat);
            lemma_pow2_mono((kh - 8) as nat, 23);
            lemma_pow2_mono((kw - 8) as nat, 23);
            lemma_pow2_add(8, 23);
            lemma_pow2_mono((kw - kh) as nat, 1);
            assert(hilbert3d::pow2(1) == 2) by {
                reveal_with_fuel(hilbert3d::pow2, 2);
            }
        }
        let width_tiles: u32 = width / TILE;
        let height_tiles: u32 = height / TILE;
        assert(width_tiles * height_tiles <= u64::MAX && height * height <= u64::MAX)
            by (nonlinear_arith)
            requires
                width_tiles <= u32::MAX,
                height_tiles <= u32::MAX,
                height <= u32::MAX,
        ;
        HilbertLayout {
            kh: kh as u8,
            width_tiles,
            height_tiles,
            world_w: TILE * power(kw - kh),
            height,
            max_zoom: kh - TILE_LOG2 as u32,
            total_tiles: width_tiles as u64 * height_tiles as u64,
            square_pixels: (height as u64) * (height as u64),
            total,
        }
    }
}

/// Behaviour every concrete layout provides to the tile pipeline.
pub trait LayoutShape {
    spec fn name(&self) -> Seq<char>;

    spec fn measurable(&self) -> bool;

    spec fn geom(&self) -> CanvasGeom;

    spec fn by_bytes(&self) -> bool;

    /// Short stable identifier.
    fn id(&self) -> (s: &'static str)
        ensures
            s@ == self.name(),
    ;

    /// Canvas dimensions.
    fn canvas_geom(&self) -> (g: CanvasGeom)
        requires
            self.measurable(),
        ensures
            g == self.geom(),
    ;

    /// Number of extra zoom levels rendered as sparse detail tiles past the
    /// last zoom.
    fn detail_depth(&self) -> (n: u32)
        default_ensures
            n == 0,
    {
        0
    }

    /// Whether a tile shows one contiguous run of bytes.
    fn is_byte_layout(&self) -> (r: bool)
        ensures
            r == self.by_bytes(),
    ;
}

impl LayoutShape for HilbertLayout {
    open spec fn name(&self) -> Seq<char> {
        "hilbert-bytes"@
    }

    open spec fn measurable(&self) -> bool {
        self.width_tiles * TILE <= u32::MAX
    }

    /// Hilbert always has the wider axis on `world_w`, the shorter axis
    /// collapsed to `TILE`.
    open spec fn geom(&self) -> CanvasGeom {
        CanvasGeom {
            kh: self.kh,
            width_tiles: self.width_tiles,
            height_tiles: self.height_tiles,
            world_w: self.world_w,
            world_h: TILE,
            width: (self.width_tiles * TILE) as u32,
            height: self.height,
            max_zoom: self.max_zoom,
            total_tiles: self.total_tiles,
            square_pixels: self.square_pixels,
            total: self.total,
        }
    }

    open spec fn by_bytes(&self) -> bool {
        true
    }

    fn id(&self) -> (s: &'static str) {
        "hilbert-bytes"
    }

    fn canvas_geom(&self) -> (g: CanvasGeom) {
        CanvasGeom {
            kh: self.kh,
            width_tiles: self.width_tiles,
            height_tiles: self.height_tiles,
            world_w: self.world_w,
            world_h: TILE,
            width: self.width_tiles * TILE,
            height: self.height,
            max_zoom: self.max_zoom,
            total_tiles: self.total_tiles,
            square_pixels: self.square_pixels,
            total: self.total,
        }
    }

    fn is_byte_layout(&self) -> (r: bool) {
        true
    }
}

/// Every layout that a total leads to can be measured.
pub proof fn laid_out_is_measurable(l: HilbertLayout, total: u64)
    requires
        total <= 0x4000_0000_0000_0000,
        laid_out(l, canvas_exponent(total as int), total),
    ensures
        l.measurable(),
        l.geom().width == hilbert3d::pow2((canvas_exponent(total as int) + 1) as nat / 2),
{
    lemma_pow2_values();
    let want = if total >= 1 {
        total as int
    } else {
        1
    };
    lemma_exponent(16, want);
    let s = canvas_exponent(total as int);
    lemma_pow2_mono((s + 1) as nat / 2, 31);
}

/// The canvas has a pixel for every byte, and with half as many pixels it would
/// not, unless it is a single tile.
pub proof fn canvas_holds_every_byte(total: int)
    requires
        total <= hilbert3d::pow2(62),
    ensures
        ({
            let s = canvas_exponent(total);
            &&& hilbert3d::pow2(s / 2) * hilbert3d::pow2((s + 1) as nat / 2) >= total
            &&& s == 2 * TILE_LOG2 as nat || hilbert3d::pow2(s / 2) * hilbert3d::pow2(
                (s + 1) as nat / 2,
            ) < 2 * total
        }),
{
    lemma_pow2_values();
    let want = if total >= 1 {
        total
    } else {
        1
    };
    lemma_pow2_mono(0, 62);
    lemma_exponent(16, want);
    let s = canvas_exponent(total);
    lemma_pow2_add(s / 2, (s + 1) as nat / 2);
    assert(s / 2 + (s + 1) as nat / 2 == s);
    if s > 16 {
        assert(hilbert3d::pow2(s) == 2 * hilbert3d::pow2((s - 1) as nat));
        lemma_pow2_mono(0, (s - 1) as nat);
    }
}

} // verus!
