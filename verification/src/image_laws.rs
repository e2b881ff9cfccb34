//! What one square image shows: which byte each pixel stands for, how large
//! the image is, and where files border on each other.

use vstd::prelude::*;
use crate::color;
use crate::color::Rgb;
use crate::compose;
use crate::compose::Inks;
use crate::format::types;
use crate::format::types::DiffFill;
use crate::geometry;
use crate::layout::color_laws;
use crate::layout::render;
use crate::single;
use crate::single::{CanvasPlan, Painting};
use crate::source;
use crate::source::Source;

verus! {

/// The pixel at a cell of the image.
pub open spec fn pixel_at(p: Painting, side: int, x: int, y: int) -> Rgb {
    p.pixels[y * side + x]
}

/// The pixel lies at the edge of its file: a neighbour belongs to another.
pub open spec fn at_edge(p: Painting, side: int, x: int, y: int) -> bool {
    exists|dx: int, dy: int|
        (dx, dy) != (0int, 0int) && (dx == 0 || dy == 0) && -1 <= dx <= 1 && -1 <= dy <= 1
            && #[trigger] differs(p, side, x, y, dx, dy)
}

/// Two pixels of the image belong to different files.
pub open spec fn differs(p: Painting, side: int, x: int, y: int, dx: int, dy: int) -> bool {
    &&& 0 <= x < side && 0 <= y < side
    &&& 0 <= x + dx < side && 0 <= y + dy < side
    &&& p.owner[y * side + x] is Some
    &&& p.owner[(y + dy) * side + (x + dx)] is Some
    &&& p.owner[y * side + x] != p.owner[(y + dy) * side + (x + dx)]
}

/// A pixel is at the border of its file just where a neighbour above, below or
/// beside it belongs to another file.
pub proof fn borders_part_two_files(p: Painting, side: int, x: int, y: int)
    requires
        0 <= x < side,
        0 <= y < side,
    ensures
        single::is_border(p.owner, side, x, y) == at_edge(p, side, x, y),
{
    if single::is_border(p.owner, side, x, y) {
        let f = p.owner[y * side + x]->0;
        if single::foreign(p.owner, side, x, y + 1, f) {
            assert(differs(p, side, x, y, 0, 1));
        } else if single::foreign(p.owner, side, x, y - 1, f) {
            assert(differs(p, side, x, y, 0, -1));
        } else if single::foreign(p.owner, side, x + 1, y, f) {
            assert(differs(p, side, x, y, 1, 0));
        } else {
            assert(differs(p, side, x, y, -1, 0));
        }
    }
    if at_edge(p, side, x, y) {
        let (dx, dy) = choose|dx: int, dy: int|
            (dx, dy) != (0int, 0int) && (dx == 0 || dy == 0) && -1 <= dx <= 1 && -1 <= dy <= 1
                && #[trigger] differs(p, side, x, y, dx, dy);
        let f = p.owner[y * side + x]->0;
        assert(single::foreign(p.owner, side, x + dx, y + dy, f));
        if dx == 0 && dy == 1 {
        } else if dx == 0 && dy == -1 {
        } else if dx == 1 {
        } else {
            assert(dx == -1);
        }
    }
}

proof fn lemma_quotient(pos: int, stride: int, total: int)
    requires
        stride >= 1,
        0 <= pos < total,
        pos % stride == 0,
    ensures
        0 <= pos / stride < single::ceil_div(total, stride),
        pos / stride * stride == pos,
{
    assert(0 <= pos / stride < (total + stride - 1) / stride && pos / stride * stride == pos)
        by (nonlinear_arith)
        requires
            stride >= 1,
            0 <= pos < total,
            pos % stride == 0,
    ;
}

/// Each byte that is sampled shows itself: where byte `j` of source `i` falls
/// on the stride, the pixel on the curve that as many samples come before
/// belongs to that source's file and has the colour of that byte, unless it is
/// blackened at the edge of the file.
pub proof fn samples_show_their_byte(
    p: Painting,
    sources: Seq<Source>,
    contents: Seq<Seq<u8>>,
    plan: CanvasPlan,
    inks: Inks,
    diff_mode: bool,
    i: int,
    j: int,
)
    requires
        compose::shows(p, sources, contents, plan, inks),
        compose::is_lut(inks.lut, diff_mode),
        inks.xorbs.len() == 0,
        plan.wf(),
        single::ceil_div(source::total_size(source::regions(sources)), plan.stride as int)
            <= plan.canvas_size,
        0 <= i < sources.len(),
        !(sources[i].kind is UnmatchedRegion),
        0 <= j < sources[i].byte_size,
        (single::start_of(sources, i) + j) % (plan.stride as int) == 0,
    ensures
        ({
            let n = (single::start_of(sources, i) + j) / (plan.stride as int);
            let c = geometry::curve(n, plan.k as nat, 0);
            let side = plan.side as int;
            let b = contents[i][j];
            let grey = color::diff_brightness(b);
            &&& 0 <= c.x < side && 0 <= c.y < side
            &&& p.owner[c.y * side + c.x] == Some(sources[i].file_idx)
            &&& pixel_at(p, side, c.x, c.y) == (if single::has_several_files(sources) && at_edge(
                p,
                side,
                c.x,
                c.y,
            ) {
                Rgb { r: 0, g: 0, b: 0 }
            } else if diff_mode {
                Rgb { r: grey, g: grey, b: grey }
            } else {
                color::palette(b)
            })
        }),
{
    let stride = plan.stride as int;
    let side = plan.side as int;
    let total = source::total_size(source::regions(sources));
    let pos = single::start_of(sources, i) + j;
    single::lemma_start_step(sources, i);
    lemma_quotient(pos, stride, total);
    let n = pos / stride;
    compose::lemma_holder(sources, i, pos);
    let c = geometry::curve(n, plan.k as nat, 0);
    geometry::curve_in_square(n, plan.k as nat, 0);
    assert(single::spot(plan.k as nat, n) == c.y * side + c.x);
    assert((c.y * side + c.x) % side == c.x && (c.y * side + c.x) / side == c.y) by (nonlinear_arith)
        requires
            0 <= c.x < side,
            0 <= c.y,
    ;
    borders_part_two_files(p, side, c.x, c.y);
    assert(render::xorb_at(inks.xorbs, pos as u64) is None);
    assert(inks.lut[contents[i][j] as int] == compose::pixel_of(
        sources,
        contents,
        plan,
        inks,
        n,
    ));
}

/// A byte that lies in a range of a xorb is shown in that xorb's colour, dimmed
/// by the byte.
pub proof fn xorb_samples_are_tinted(
    p: Painting,
    sources: Seq<Source>,
    contents: Seq<Seq<u8>>,
    plan: CanvasPlan,
    inks: Inks,
    i: int,
    j: int,
    x: int,
)
    requires
        compose::shows(p, sources, contents, plan, inks),
        render::ranges_in_order(inks.xorbs),
        source::total_size(source::regions(sources)) <= u64::MAX,
        plan.wf(),
        single::ceil_div(source::total_size(source::regions(sources)), plan.stride as int)
            <= plan.canvas_size,
        0 <= i < sources.len(),
        !(sources[i].kind is UnmatchedRegion),
        0 <= j < sources[i].byte_size,
        (single::start_of(sources, i) + j) % (plan.stride as int) == 0,
        0 <= x < inks.xorbs.len(),
        inks.xorbs[x].0 <= single::start_of(sources, i) + j < inks.xorbs[x].1,
        !single::has_several_files(sources),
    ensures
        ({
            let n = (single::start_of(sources, i) + j) / (plan.stride as int);
            let c = geometry::curve(n, plan.k as nat, 0);
            pixel_at(p, plan.side as int, c.x, c.y) == render::dimmed(
                inks.tableau[inks.xorbs[x].2 as int],
                contents[i][j],
            )
        }),
{
    let stride = plan.stride as int;
    let side = plan.side as int;
    let total = source::total_size(source::regions(sources));
    let pos = single::start_of(sources, i) + j;
    single::lemma_start_step(sources, i);
    lemma_quotient(pos, stride, total);
    let n = pos / stride;
    compose::lemma_holder(sources, i, pos);
    let c = geometry::curve(n, plan.k as nat, 0);
    assert(single::spot(plan.k as nat, n) == c.y * side + c.x);
    color_laws::xorbs_color_their_bytes(inks.xorbs, pos as u64);
    assert(render::xorb_at(inks.xorbs, pos as u64) == Some(inks.xorbs[x].2));
    assert(compose::pixel_of(sources, contents, plan, inks, n) == render::dimmed(
        inks.tableau[inks.xorbs[x].2 as int],
        contents[i][j],
    ));
}

/// What only one side has is hatched: its pixels are the dark colour of its
/// fill on the stripes and the light one between them.
pub proof fn unmatched_regions_are_hatched(
    p: Painting,
    sources: Seq<Source>,
    contents: Seq<Seq<u8>>,
    plan: CanvasPlan,
    inks: Inks,
    i: int,
    j: int,
    fill: DiffFill,
)
    requires
        compose::shows(p, sources, contents, plan, inks),
        plan.wf(),
        single::ceil_div(source::total_size(source::regions(sources)), plan.stride as int)
            <= plan.canvas_size,
        0 <= i < sources.len(),
        sources[i].kind == (source::SourceKind::UnmatchedRegion { fill }),
        0 <= j < sources[i].byte_size,
        (single::start_of(sources, i) + j) % (plan.stride as int) == 0,
    ensures
        ({
            let n = (single::start_of(sources, i) + j) / (plan.stride as int);
            let c = geometry::curve(n, plan.k as nat, 0);
            let side = plan.side as int;
            &&& p.owner[c.y * side + c.x] == Some(sources[i].file_idx)
            &&& pixel_at(p, side, c.x, c.y) == (if single::has_several_files(sources) && at_edge(
                p,
                side,
                c.x,
                c.y,
            ) {
                Rgb { r: 0, g: 0, b: 0 }
            } else if (c.x + c.y) % 8 < 2 || (c.x - c.y) % 8 < 2 {
                types::fill_colors(fill).0
            } else {
                types::fill_colors(fill).1
            })
        }),
{
    let stride = plan.stride as int;
    let side = plan.side as int;
    let total = source::total_size(source::regions(sources));
    let pos = single::start_of(sources, i) + j;
    single::lemma_start_step(sources, i);
    lemma_quotient(pos, stride, total);
    let n = pos / stride;
    compose::lemma_holder(sources, i, pos);
    let c = geometry::curve(n, plan.k as nat, 0);
    geometry::curve_in_square(n, plan.k as nat, 0);
    assert(single::spot(plan.k as nat, n) == c.y * side + c.x);
    assert((c.y * side + c.x) % side == c.x && (c.y * side + c.x) / side == c.y) by (nonlinear_arith)
        requires
            0 <= c.x < side,
            0 <= c.y,
    ;
    borders_part_two_files(p, side, c.x, c.y);
    stripes_run_both_ways(c.x, c.y);
    assert(compose::pixel_of(sources, contents, plan, inks, n) == single::crosshatch_painter(
        plan.k as nat,
        fill,
    )(n));
}

/// The stripes of a hatching run along both diagonals, two pixels in eight.
pub proof fn stripes_run_both_ways(x: int, y: int)
    ensures
        single::on_stripe(x, y) == ((x + y) % 8 < 2 || (x - y) % 8 < 2),
{
}

/// Each fill is of its own hue, darker on the stripes than between them.
pub proof fn fills_have_their_hue(fill: DiffFill)
    ensures
        ({
            let (dark, light) = types::fill_colors(fill);
            &&& dark.r <= light.r && dark.g <= light.g && dark.b <= light.b && dark != light
            &&& match fill {
                DiffFill::Grey => dark.r == dark.g == dark.b && light.r == light.g == light.b,
                DiffFill::Red => dark.r > dark.g == dark.b && light.r > light.g == light.b,
                DiffFill::Green => dark.g > dark.r == dark.b && light.g > light.r == light.b,
            }
        }),
{
}

proof fn lemma_order_smallest(k: nat, total: int)
    requires
        k <= 12,
    ensures
        k <= single::order_from(k, total) <= 12,
        single::order_from(k, total) < 12 ==> geometry::pow4(single::order_from(k, total)) >= total,
        single::order_from(k, total) > k ==> geometry::pow4(
            (single::order_from(k, total) - 1) as nat,
        ) < total,
    decreases 12 - k,
{
    if k < 12 && geometry::pow4(k) < total {
        lemma_order_smallest(k + 1, total);
    }
}

/// The image is the smallest that has a pixel for every byte, up to 4096 pixels
/// a side: an image of half the side would be too small. Where even the largest
/// is too small the stride is the smallest with which the samples fit.
pub proof fn images_are_as_small_as_can_be(plan: CanvasPlan, total: u64)
    requires
        single::is_plan_for(plan, total),
    ensures
        plan.canvas_size == plan.side * plan.side,
        plan.side <= 4096,
        plan.side > 2 ==> plan.canvas_size / 4 < total,
        plan.side < 4096 ==> plan.canvas_size >= total,
        plan.stride * plan.canvas_size >= total,
        (plan.stride - 1) * plan.canvas_size < total || plan.stride == 1,
{
    let want = if total >= 1 {
        total as int
    } else {
        1
    };
    lemma_order_smallest(1, want);
    let k = plan.k as nat;
    reveal_with_fuel(geometry::pow4, 13);
    reveal_with_fuel(crate::hilbert3d::pow2, 13);
    assert(k > 1 ==> geometry::pow4((k - 1) as nat) * 4 == plan.canvas_size);
    let t = total as int;
    let c = plan.canvas_size as int;
    let s = plan.stride as int;
    if t > c {
        assert(s * c >= t && (s - 1) * c < t) by (nonlinear_arith)
            requires
                s == (t + c - 1) / c,
                c > 0,
        ;
    } else {
        assert(s * c == c) by (nonlinear_arith)
            requires
                s == 1,
        ;
    }
}

/// The cell lies in the box.
pub open spec fn in_box(b: (int, int, int, int), x: int, y: int) -> bool {
    b.0 <= x <= b.2 && b.1 <= y <= b.3
}

/// The box of a file holds each of its pixels, and there is none where the file
/// has no pixel.
pub proof fn boxes_hold_their_file(
    sources: Seq<Source>,
    plan: CanvasPlan,
    file: int,
    upto: int,
    n: int,
)
    requires
        0 <= n < upto,
        compose::file_of(sources, plan, n) == file,
    ensures
        compose::file_box(sources, plan, file, upto) matches Some(b) && in_box(
            b,
            geometry::curve(n, plan.k as nat, 0).x,
            geometry::curve(n, plan.k as nat, 0).y,
        ),
    decreases upto,
{
    reveal_with_fuel(single::box_of, 2);
    if n < upto - 1 {
        boxes_hold_their_file(sources, plan, file, upto - 1, n);
    }
}

/// The file has a pixel among the first `upto` in the given column or row.
pub open spec fn has_pixel(
    sources: Seq<Source>,
    plan: CanvasPlan,
    file: int,
    upto: int,
    n: int,
) -> bool {
    0 <= n < upto && compose::file_of(sources, plan, n) == file
}

spec fn reaches(
    sources: Seq<Source>,
    plan: CanvasPlan,
    file: int,
    upto: int,
    b: (int, int, int, int),
) -> bool {
    &&& exists|n: int| #[trigger]
        has_pixel(sources, plan, file, upto, n) && geometry::curve(n, plan.k as nat, 0).x == b.0
    &&& exists|n: int| #[trigger]
        has_pixel(sources, plan, file, upto, n) && geometry::curve(n, plan.k as nat, 0).y == b.1
    &&& exists|n: int| #[trigger]
        has_pixel(sources, plan, file, upto, n) && geometry::curve(n, plan.k as nat, 0).x == b.2
    &&& exists|n: int| #[trigger]
        has_pixel(sources, plan, file, upto, n) && geometry::curve(n, plan.k as nat, 0).y == b.3
}

/// The box of a file is no larger than it has to be: the file has a pixel on
/// each of its four sides.
pub proof fn boxes_are_tight(
    sources: Seq<Source>,
    plan: CanvasPlan,
    file: int,
    upto: int,
    b: (int, int, int, int),
)
    requires
        compose::file_box(sources, plan, file, upto) == Some(b),
    ensures
        exists|n: int| #[trigger]
            has_pixel(sources, plan, file, upto, n) && geometry::curve(n, plan.k as nat, 0).x
                == b.0,
        exists|n: int| #[trigger]
            has_pixel(sources, plan, file, upto, n) && geometry::curve(n, plan.k as nat, 0).y
                == b.1,
        exists|n: int| #[trigger]
            has_pixel(sources, plan, file, upto, n) && geometry::curve(n, plan.k as nat, 0).x
                == b.2,
        exists|n: int| #[trigger]
            has_pixel(sources, plan, file, upto, n) && geometry::curve(n, plan.k as nat, 0).y
                == b.3,
    decreases upto,
{
    reveal_with_fuel(single::box_of, 2);
    if upto > 0 {
        let before = compose::file_box(sources, plan, file, upto - 1);
        let here = compose::file_of(sources, plan, upto - 1) == file;
        if here {
            assert(has_pixel(sources, plan, file, upto, upto - 1));
        }
        match before {
            Some(a) => {
                boxes_are_tight(sources, plan, file, upto - 1, a);
                assert(reaches(sources, plan, file, upto - 1, a));
                assert forall|n: int| #[trigger]
                    has_pixel(sources, plan, file, upto - 1, n) implies has_pixel(
                    sources,
                    plan,
                    file,
                    upto,
                    n,
                ) by {}
                assert(reaches(sources, plan, file, upto, a));
            },
            None => {},
        }
    }
}

} // verus!
