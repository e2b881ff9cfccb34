//! Colours: the byte palette and its lookup table.

use vstd::prelude::*;

verus! {

/// An 8-bit RGB colour.
#[derive(Debug, Clone, Copy, PartialEq, Eq, Structural)]
pub struct Rgb {
    pub r: u8,
    pub g: u8,
    pub b: u8,
}

/// The colour with the given channels.
pub fn rgb(r: u8, g: u8, b: u8) -> (c: Rgb)
    ensures
        c == (Rgb { r, g, b }),
{
    Rgb { r, g, b }
}

/// Where `b` stands in the run of byte values `lo..=hi`, scaled to 1..=255, so
/// that no byte of a run is black.
pub open spec fn ramp(b: u8, lo: int, hi: int) -> u8 {
    if b == lo {
        1
    } else {
        ((b - lo) * 255 / (hi - lo)) as u8
    }
}

/// The palette: black for zero, white for 0xff, a green ramp for control
/// bytes, a blue one for printable ASCII and a red one for the rest.
pub open spec fn palette(v: u8) -> Rgb {
    if v == 0 {
        Rgb { r: 0, g: 0, b: 0 }
    } else if v == 0xFF {
        Rgb { r: 255, g: 255, b: 255 }
    } else if v <= 0x1F {
        Rgb { r: 0, g: ramp(v, 0x01, 0x1F), b: 0 }
    } else if v <= 0x7E {
        Rgb { r: 0, g: 0, b: ramp(v, 0x20, 0x7E) }
    } else {
        Rgb { r: ramp(v, 0x7F, 0xFE), g: 0, b: 0 }
    }
}

fn level(b: u8, lo: u8, hi: u8) -> (r: u8)
    requires
        lo <= b <= hi,
        lo < hi,
    ensures
        r == ramp(b, lo as int, hi as int),
{
    if b == lo {
        1
    } else {
        assert(0 <= (b - lo) * 255 / (hi - lo) <= 255) by (nonlinear_arith)
            requires
                lo <= b <= hi,
                lo < hi,
        ;
        ((b - lo) as u32 * 255 / (hi - lo) as u32) as u8
    }
}

/// Map a byte to a color based on value range.
///
/// Color scheme from
/// https://stairwell.com/resources/hilbert-curves-visualizing-binary-files-with-color-and-patterns/
pub fn byte_to_pixel(v: u8) -> (c: Rgb)
    ensures
        c == palette(v),
{
    if v == 0 {
        rgb(0, 0, 0)
    } else if v == 0xFF {
        rgb(255, 255, 255)
    } else if v <= 0x1F {
        rgb(0, level(v, 0x01, 0x1F), 0)
    } else if v <= 0x7E {
        rgb(0, 0, level(v, 0x20, 0x7E))
    } else {
        rgb(level(v, 0x7F, 0xFE), 0, 0)
    }
}

/// Pre-computed 256-entry color lookup table.
pub fn build_pixel_lut() -> (lut: [Rgb; 256])
    ensures
        forall|i: int| 0 <= i < 256 ==> #[trigger] lut@[i] == palette(i as u8),
{
    let mut lut: [Rgb; 256] = [rgb(0, 0, 0); 256];
    let mut i: usize = 0;
    while i < 256
        invariant
            i <= 256,
            forall|k: int| 0 <= k < i ==> #[trigger] lut@[k] == palette(k as u8),
        decreases 256 - i,
    {
        lut[i] = byte_to_pixel(i as u8);
        i = i + 1;
    }
    lut
}

/// How bright a difference level is drawn: black for no difference (127), and
/// brighter the further the level lies from it.
pub open spec fn diff_brightness(v: u8) -> u8 {
    if v == 255 {
        255
    } else if v >= 127 {
        (2 * (v - 127)) as u8
    } else {
        (2 * (127 - v)) as u8
    }
}

/// Lookup table for difference levels: a grey ramp that starts at black in the
/// middle.
pub fn build_diff_signed_lut() -> (lut: [Rgb; 256])
    ensures
        forall|i: int|
            0 <= i < 256 ==> #[trigger] lut@[i] == (Rgb {
                r: diff_brightness(i as u8),
                g: diff_brightness(i as u8),
                b: diff_brightness(i as u8),
            }),
{
    let mut lut: [Rgb; 256] = [rgb(0, 0, 0); 256];
    let mut i: usize = 0;
    while i < 256
        invariant
            i <= 256,
            forall|k: int|
                0 <= k < i ==> #[trigger] lut@[k] == (Rgb {
                    r: diff_brightness(k as u8),
                    g: diff_brightness(k as u8),
                    b: diff_brightness(k as u8),
                }),
        decreases 256 - i,
    {
        let level: u8 = if i == 255 {
            255
        } else if i >= 127 {
            (2 * (i - 127)) as u8
        } else {
            (2 * (127 - i)) as u8
        };
        lut[i] = rgb(level, level, level);
        i = i + 1;
    }
    lut
}

/// Every byte but 0x00 and 0xff lights exactly one channel: control bytes
/// green, printable ASCII blue, all others red.
pub proof fn palette_families(v: u8)
    ensures
        0 < v <= 0x1F ==> palette(v).r == 0 && palette(v).g > 0 && palette(v).b == 0,
        0x20 <= v <= 0x7E ==> palette(v).r == 0 && palette(v).g == 0 && palette(v).b > 0,
        0x7F <= v < 0xFF ==> palette(v).r > 0 && palette(v).g == 0 && palette(v).b == 0,
{
    if 0x01 < v <= 0x1F {
        lemma_ramp_lit(v, 0x01, 0x1F);
    } else if 0x20 < v <= 0x7E {
        lemma_ramp_lit(v, 0x20, 0x7E);
    } else if 0x7F < v < 0xFF {
        lemma_ramp_lit(v, 0x7F, 0xFE);
    }
}

/// A ramp is lit from its second byte on, and fully by its last one alone.
pub(crate) proof fn lemma_ramp_lit(b: u8, lo: int, hi: int)
    requires
        0 <= lo < b <= hi,
        hi - lo <= 255,
    ensures
        ramp(b, lo, hi) > 0,
        b < hi ==> ramp(b, lo, hi) < 255,
        b == hi ==> ramp(b, lo, hi) == 255,
{
    let d = b - lo;
    let n = hi - lo;
    assert(1 <= d * 255 / n <= 255) by (nonlinear_arith)
        requires
            0 < d <= n <= 255,
    ;
    if b < hi {
        assert(d * 255 / n < 255) by (nonlinear_arith)
            requires
                0 < d < n,
        ;
    } else {
        assert(d * 255 / n == 255) by (nonlinear_arith)
            requires
                d == n,
                0 < n,
        ;
    }
}

/// Within a family a larger byte is at least as bright.
pub proof fn palette_is_monotone(v: u8, w: u8)
    requires
        v <= w,
        (0 < v && w <= 0x1F) || (0x20 <= v && w <= 0x7E) || (0x7F <= v && w < 0xFF),
    ensures
        palette(v).r <= palette(w).r,
        palette(v).g <= palette(w).g,
        palette(v).b <= palette(w).b,
{
    if 0 < v && w <= 0x1F {
        lemma_ramp_rises(v, w, 0x01, 0x1F);
    } else if 0x20 <= v && w <= 0x7E {
        lemma_ramp_rises(v, w, 0x20, 0x7E);
    } else {
        lemma_ramp_rises(v, w, 0x7F, 0xFE);
    }
}

proof fn lemma_ramp_rises(v: u8, w: u8, lo: int, hi: int)
    requires
        0 <= lo <= v <= w <= hi,
        lo < hi <= lo + 255,
    ensures
        ramp(v, lo, hi) <= ramp(w, lo, hi),
{
    let n = hi - lo;
    let a = v - lo;
    let b = w - lo;
    assert(0 <= a * 255 / n <= b * 255 / n <= 255) by (nonlinear_arith)
        requires
            0 <= a <= b <= n,
            0 < n,
    ;
    if v == lo && w > lo {
        lemma_ramp_lit(w, lo, hi);
    }
}

} // verus!
