//! Laws of the element colours: which byte stands for an element, where an
//! element lies among its bytes, and how colours are dimmed and mixed.

use vstd::prelude::*;
use crate::color;
use crate::color::Rgb;
use crate::format::dtype;
use crate::format::dtype::Dtype;
use crate::layout::render;

verus! {

/// A little-endian number grows by its highest byte.
proof fn lemma_top_byte(raw: Seq<u8>)
    requires
        raw.len() > 0,
    ensures
        render::little_endian(raw) == render::little_endian(raw.drop_last()) + raw.last()
            * render::byte_range((raw.len() - 1) as nat),
        0 <= render::little_endian(raw.drop_last()) < render::byte_range((raw.len() - 1) as nat),
    decreases raw.len(),
{
    let init = raw.drop_last();
    if init.len() == 0 {
        assert(raw.skip(1) =~= seq![]);
        assert(init =~= seq![]);
    } else {
        lemma_top_byte(raw.skip(1));
        assert(raw.skip(1).drop_last() =~= init.skip(1));
        let r = render::byte_range((raw.len() - 2) as nat);
        assert(256 * (raw.last() * r) == raw.last() * (256 * r)) by (nonlinear_arith);
        assert(init[0] == raw[0]);
    }
}

/// The byte that stands for a float wider than a byte is the most significant
/// one of the number that its bytes write, so that the lower bytes do not
/// count.
pub proof fn floats_show_their_top_byte(d: Dtype, raw: Seq<u8>)
    requires
        d == Dtype::F64 || d == Dtype::F32 || d == Dtype::F16 || d == Dtype::BF16,
        raw.len() == dtype::size_of_element(d),
    ensures
        render::proxy_byte(d, raw) == render::little_endian(raw) / render::byte_range(
            (raw.len() - 1) as nat,
        ),
        forall|other: Seq<u8>|
            other.len() == raw.len() && other.last() == raw.last() ==> #[trigger]
            render::proxy_byte(d, other) == render::proxy_byte(d, raw),
{
    lemma_top_byte(raw);
    let low = render::little_endian(raw.drop_last());
    let r = render::byte_range((raw.len() - 1) as nat);
    let top = raw.last() as int;
    let v = render::little_endian(raw);
    assert(v / r == top) by (nonlinear_arith)
        requires
            v == low + top * r,
            0 <= low < r,
            0 <= top,
    ;
}

/// Bytes of one number: each stands for 256 times as much as the one before it.
pub proof fn higher_bytes_weigh_more(raw: Seq<u8>, b: u8)
    ensures
        render::little_endian(seq![b]) == b,
        render::little_endian(seq![b] + raw) == b + 256 * render::little_endian(raw),
        0 <= render::little_endian(raw) < render::byte_range(raw.len()),
    decreases raw.len(),
{
    assert(seq![b].skip(1) =~= Seq::<u8>::empty());
    assert(render::little_endian(Seq::<u8>::empty()) == 0);
    assert((seq![b] + raw).skip(1) =~= raw);
    if raw.len() > 0 {
        lemma_top_byte(raw);
        let r = render::byte_range((raw.len() - 1) as nat);
        let top = raw.last() as int;
        assert(top * r + r <= 256 * r) by (nonlinear_arith)
            requires
                0 <= top <= 255,
                r >= 0,
        ;
    }
}

/// Whether the numbers of an element type can be negative.
pub open spec fn is_signed_integer(d: Dtype) -> bool {
    d == Dtype::I64 || d == Dtype::I32 || d == Dtype::I16 || d == Dtype::I8
}

/// Whether the numbers of an element type are integers that are never negative.
pub open spec fn is_unsigned_integer(d: Dtype) -> bool {
    d == Dtype::U64 || d == Dtype::U32 || d == Dtype::U16 || d == Dtype::U8
}

proof fn lemma_only_low(raw: Seq<u8>)
    requires
        raw.len() > 0,
        forall|k: int| 1 <= k < raw.len() ==> raw[k] == 0,
    ensures
        render::little_endian(raw) == raw[0],
    decreases raw.len(),
{
    let t = raw.skip(1);
    if t.len() > 0 {
        assert forall|k: int| 1 <= k < t.len() implies t[k] == 0 by {
            assert(t[k] == raw[k + 1]);
        }
        lemma_only_low(t);
        assert(t[0] == raw[1]);
    } else {
        assert(t =~= Seq::<u8>::empty());
        assert(render::little_endian(Seq::<u8>::empty()) == 0);
    }
}

proof fn lemma_more_than_low(raw: Seq<u8>, k: int)
    requires
        1 <= k < raw.len(),
        raw[k] != 0,
    ensures
        render::little_endian(raw) > 255,
    decreases raw.len(),
{
    let t = raw.skip(1);
    higher_bytes_weigh_more(t, raw[0]);
    assert(t[k - 1] == raw[k]);
    if k > 1 {
        lemma_more_than_low(t, k - 1);
    } else {
        higher_bytes_weigh_more(t.skip(1), t[0]);
    }
}

/// An integer is shown by its value as far as a byte holds it: a negative one
/// by the darkest byte, one that needs more than its lowest byte by the
/// brightest, any other by that lowest byte.
pub proof fn integers_show_their_clamped_value(d: Dtype, raw: Seq<u8>)
    requires
        is_signed_integer(d) || is_unsigned_integer(d),
        raw.len() == dtype::size_of_element(d),
    ensures
        ({
            let negative = is_signed_integer(d) && raw[raw.len() - 1] >= 128;
            let wide = exists|k: int| 1 <= k < raw.len() && raw[k] != 0;
            render::proxy_byte(d, raw) == (if negative {
                0u8
            } else if wide {
                255u8
            } else {
                raw[0]
            })
        }),
{
    higher_bytes_weigh_more(raw, 0);
    if exists|k: int| 1 <= k < raw.len() && raw[k] != 0 {
        let k = choose|k: int| 1 <= k < raw.len() && raw[k] != 0;
        lemma_more_than_low(raw, k);
    } else {
        lemma_only_low(raw);
    }
}

/// An element that takes one byte and is no integer is shown by that byte.
pub proof fn single_bytes_show_themselves(d: Dtype, b: u8)
    requires
        dtype::size_of_element(d) == 1,
        !is_signed_integer(d),
    ensures
        render::proxy_byte(d, seq![b]) == b,
{
    lemma_only_low(seq![b]);
}

/// Types that name their width in bits take that many: an eighth in bytes, a
/// type of twice the bits twice the bytes.
pub proof fn widths_follow_the_names()
    ensures
        dtype::size_of_element(Dtype::U8) == 1,
        dtype::size_of_element(Dtype::I8) == dtype::size_of_element(Dtype::U8),
        dtype::size_of_element(Dtype::Bool) == dtype::size_of_element(Dtype::U8),
        dtype::size_of_element(Dtype::F8E4M3) == dtype::size_of_element(Dtype::U8),
        dtype::size_of_element(Dtype::F8E5M2) == dtype::size_of_element(Dtype::U8),
        dtype::size_of_element(Dtype::U16) == 2 * dtype::size_of_element(Dtype::U8),
        dtype::size_of_element(Dtype::I16) == dtype::size_of_element(Dtype::U16),
        dtype::size_of_element(Dtype::F16) == dtype::size_of_element(Dtype::U16),
        dtype::size_of_element(Dtype::BF16) == dtype::size_of_element(Dtype::U16),
        dtype::size_of_element(Dtype::U32) == 2 * dtype::size_of_element(Dtype::U16),
        dtype::size_of_element(Dtype::I32) == dtype::size_of_element(Dtype::U32),
        dtype::size_of_element(Dtype::F32) == dtype::size_of_element(Dtype::U32),
        dtype::size_of_element(Dtype::U64) == 2 * dtype::size_of_element(Dtype::U32),
        dtype::size_of_element(Dtype::I64) == dtype::size_of_element(Dtype::U64),
        dtype::size_of_element(Dtype::F64) == dtype::size_of_element(Dtype::U64),
{
}

/// The elements of a buffer follow one another without gaps from its start: the
/// first one is what the buffer begins with, and what lies behind it holds the
/// others, counted from there. There is none where bytes are missing.
pub proof fn elements_follow_one_another(d: Dtype, first: Seq<u8>, rest: Seq<u8>, idx: int)
    requires
        first.len() == dtype::size_of_element(d),
        idx >= 0,
    ensures
        render::element_bytes(d, first + rest, 0) == Some(first),
        render::element_bytes(d, first + rest, idx + 1) == render::element_bytes(d, rest, idx),
        rest.len() < first.len() ==> render::element_bytes(d, rest, idx) is None,
{
    let n = dtype::size_of_element(d);
    assert((first + rest).subrange(0, n) =~= first);
    assert((idx + 1) * n == idx * n + n) by (nonlinear_arith);
    assert(idx * n >= 0) by (nonlinear_arith)
        requires
            idx >= 0,
            n >= 0,
    ;
    if idx * n + n <= rest.len() {
        assert((first + rest).subrange((idx + 1) * n, (idx + 1) * n + n) =~= rest.subrange(
            idx * n,
            idx * n + n,
        ));
    }
}

/// The byte of an element in its source lies as far behind the start of the
/// tensor as the elements before it take bytes.
pub proof fn element_positions_step_by_width(d: Dtype, start: u64, idx: int)
    ensures
        render::element_pos(d, start, 0) == start,
        render::element_pos(d, start, idx + 1) - render::element_pos(d, start, idx)
            == dtype::size_of_element(d),
{
    let n = dtype::size_of_element(d);
    assert((idx + 1) * n == idx * n + n) by (nonlinear_arith);
    assert(0 * n == 0) by (nonlinear_arith);
}

/// A position has the colour of the range that holds it, and none where no
/// range does.
pub proof fn xorbs_color_their_bytes(ranges: Seq<(u64, u64, u8)>, pos: u64)
    requires
        render::ranges_in_order(ranges),
    ensures
        match render::xorb_at(ranges, pos) {
            Some(c) => exists|i: int|
                0 <= i < ranges.len() && (#[trigger] ranges[i]).0 <= pos < ranges[i].1
                    && ranges[i].2 == c,
            None => forall|i: int|
                0 <= i < ranges.len() ==> !((#[trigger] ranges[i]).0 <= pos < ranges[i].1),
        },
        forall|i: int|
            0 <= i < ranges.len() && (#[trigger] ranges[i]).0 <= pos < ranges[i].1
                ==> render::xorb_at(ranges, pos) == Some(ranges[i].2),
    decreases ranges.len(),
{
    if ranges.len() > 0 {
        let init = ranges.drop_last();
        let n = ranges.len() - 1;
        assert forall|i: int, j: int| 0 <= i < j < init.len() implies (
        #[trigger] init[i]).1 <= (#[trigger] init[j]).0 by {
            assert(init[i] == ranges[i] && init[j] == ranges[j]);
        }
        assert forall|i: int| 0 <= i < init.len() implies (#[trigger] init[i]).0 <= init[i].1 by {
            assert(init[i] == ranges[i]);
        }
        xorbs_color_their_bytes(init, pos);
        assert(ranges.last() == ranges[n]);
        if ranges[n].0 <= pos < ranges[n].1 {
            assert forall|i: int|
                0 <= i < ranges.len() && (#[trigger] ranges[i]).0 <= pos < ranges[i].1 implies
            render::xorb_at(ranges, pos) == Some(ranges[i].2) by {
                if i < n {
                    assert(ranges[i].1 <= ranges[n].0);
                }
            }
        } else {
            assert forall|i: int|
                0 <= i < ranges.len() && (#[trigger] ranges[i]).0 <= pos < ranges[i].1 implies
            render::xorb_at(ranges, pos) == Some(ranges[i].2) by {
                assert(init[i] == ranges[i]);
            }
            match render::xorb_at(ranges, pos) {
                Some(c) => {
                    let i = choose|i: int|
                        0 <= i < init.len() && (#[trigger] init[i]).0 <= pos < init[i].1
                            && init[i].2 == c;
                    assert(ranges[i] == init[i]);
                },
                None => {
                    assert forall|i: int| 0 <= i < ranges.len() implies !((
                    #[trigger] ranges[i]).0 <= pos < ranges[i].1) by {
                        if i < n {
                            assert(init[i] == ranges[i]);
                        }
                    }
                },
            }
        }
    }
}

/// Dimming by a byte rounds `x * s / 255` to the nearest whole number: full
/// intensity keeps a channel, none leaves it black.
pub proof fn dimming_rounds_to_nearest(x: u8, s: u8)
    ensures
        x * s - 127 <= 255 * render::scaled(x, s) <= x * s + 127,
        render::scaled(x, 255) == x,
        render::scaled(x, 0) == 0,
{
    assert(0 <= x * s <= 255 * 255) by (nonlinear_arith)
        requires
            x <= 255,
            s <= 255,
    ;
    assert(x * 0 == 0) by (nonlinear_arith);
    let p: int = x * s;
    let q: int = (p + 127) / 255;
    assert(0 <= q <= 255 && p - 127 <= 255 * q <= p + 127);
    assert(render::scaled(x, s) == q);
}

/// Mixing takes the mean of two channels, the same from either side, and dims
/// it: a channel mixed with itself is only dimmed.
pub proof fn mixing_is_even(x: u8, y: u8, s: u8)
    ensures
        render::blended(x, y, s) == render::blended(y, x, s),
        render::blended(x, x, s) == render::scaled(x, s),
        (x + y) * s - 255 <= 510 * render::blended(x, y, s) <= (x + y) * s + 255,
{
    assert(0 <= (x + y) * s <= 510 * 255) by (nonlinear_arith)
        requires
            x + y <= 510,
            s <= 255,
    ;
    assert(0 <= x * s <= 255 * 255) by (nonlinear_arith)
        requires
            x <= 255,
            s <= 255,
    ;
    assert((x + x) * s == 2 * (x * s)) by (nonlinear_arith);
    let p: int = (x + y) * s;
    let q: int = (p + 255) / 510;
    assert(0 <= q <= 255 && p - 255 <= 510 * q <= p + 255);
    assert(render::blended(x, y, s) == q);
}

/// A dimmed colour keeps its channels apart: each is dimmed by itself.
pub proof fn dimming_keeps_the_hue(c: Rgb, s: u8)
    ensures
        render::dimmed(c, 255) == c,
        c.r <= c.g ==> render::dimmed(c, s).r <= render::dimmed(c, s).g,
        c.g <= c.b ==> render::dimmed(c, s).g <= render::dimmed(c, s).b,
        c.b <= c.r ==> render::dimmed(c, s).b <= render::dimmed(c, s).r,
        c.r == 0 ==> render::dimmed(c, s).r == 0,
        c.g == 0 ==> render::dimmed(c, s).g == 0,
        c.b == 0 ==> render::dimmed(c, s).b == 0,
{
    lemma_scaled_monotone(c.r, c.g, s);
    lemma_scaled_monotone(c.g, c.b, s);
    lemma_scaled_monotone(c.b, c.r, s);
    dimming_rounds_to_nearest(c.r, s);
    dimming_rounds_to_nearest(c.g, s);
    dimming_rounds_to_nearest(c.b, s);
    assert(0 * s == 0) by (nonlinear_arith);
}

proof fn lemma_scaled_monotone(x: u8, y: u8, s: u8)
    ensures
        x <= y ==> render::scaled(x, s) <= render::scaled(y, s),
{
    if x <= y {
        assert(0 <= x * s <= y * s <= 255 * 255) by (nonlinear_arith)
            requires
                0 <= x <= y <= 255,
                0 <= s <= 255,
        ;
    }
}

/// Black is for the zero byte and white for 0xff alone, and the largest byte of
/// each family lights its channel fully.
pub proof fn palette_ends()
    ensures
        forall|v: u8|
            #[trigger] color::palette(v) == (Rgb { r: 0, g: 0, b: 0 }) <==> v == 0,
        forall|v: u8|
            #[trigger] color::palette(v) == (Rgb { r: 255, g: 255, b: 255 }) <==> v == 255,
        forall|v: u8|
            #[trigger] color::palette(v).g == 255 && v < 0x20 ==> v == 0x1F,
        color::palette(0x1F).g == 255,
        color::palette(0x7E).b == 255,
        color::palette(0xFE).r == 255,
{
    assert forall|v: u8| #[trigger] color::palette(v) == (Rgb { r: 0, g: 0, b: 0 }) <==> v
        == 0 by {
        color::palette_families(v);
    }
    assert forall|v: u8|
        #[trigger] color::palette(v) == (Rgb { r: 255, g: 255, b: 255 }) <==> v == 255 by {
        color::palette_families(v);
    }
    assert forall|v: u8| #[trigger] color::palette(v).g == 255 && v < 0x20 implies v == 0x1F by {
        if 0x01 < v < 0x1F {
            color::lemma_ramp_lit(v, 0x01, 0x1F);
        }
    }
    color::lemma_ramp_lit(0x1F, 0x01, 0x1F);
    color::lemma_ramp_lit(0x7E, 0x20, 0x7E);
    color::lemma_ramp_lit(0xFE, 0x7F, 0xFE);
}

/// The further a level lies from the middle, the brighter it is drawn, the same
/// on either side.
pub proof fn diff_colors_mirror(k: int, j: int)
    requires
        0 <= k <= 127,
        0 <= j < k,
    ensures
        color::diff_brightness((127 + k) as u8) == color::diff_brightness((127 - k) as u8),
        color::diff_brightness((127 + j) as u8) < color::diff_brightness((127 + k) as u8),
        color::diff_brightness(127) == 0,
        color::diff_brightness(255) == 255,
{
}

} // verus!
