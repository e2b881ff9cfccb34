//! The whole image: every source painted along one curve, with a border where
//! files meet.

use crate::color;
use crate::color::{build_diff_signed_lut, build_pixel_lut, rgb, Rgb};
use crate::geometry;
use crate::layout::render;
use crate::single;
use crate::single::{
    mark_borders, merge_box, paint_bytes, paint_crosshatch, plan_chunks, several_files, CanvasPlan,
    Chunk, Picture,
};
use crate::source;
use crate::source::{Source, SourceKind};
use vstd::prelude::*;

verus! {

/// What the colours of an image are taken from.
pub ghost struct Inks {
    pub lut: Seq<Rgb>,
    pub xorbs: Seq<(u64, u64, u8)>,
    pub tableau: Seq<Rgb>,
}

/// The source that the byte at `pos` of the concatenated sources comes from:
/// the last one that starts at or before it.
pub open spec fn holder(sources: Seq<Source>, pos: int) -> int
    decreases sources.len(),
{
    if sources.len() == 0 {
        -1
    } else if single::start_of(sources, sources.len() - 1) <= pos {
        sources.len() - 1
    } else {
        holder(sources.drop_last(), pos)
    }
}

/// The colour of the `n`-th pixel of the curve: that of the byte it samples, or
/// the crosshatch of a region without counterpart.
pub open spec fn pixel_of(
    sources: Seq<Source>,
    contents: Seq<Seq<u8>>,
    plan: CanvasPlan,
    inks: Inks,
    n: int,
) -> Rgb {
    let pos = n * plan.stride;
    let i = holder(sources, pos);
    match sources[i].kind {
        SourceKind::UnmatchedRegion { fill } => single::crosshatch_painter(plan.k as nat, fill)(n),
        _ => single::byte_color(
            contents[i][pos - single::start_of(sources, i)],
            pos as u64,
            inks.lut,
            inks.xorbs,
            inks.tableau,
        ),
    }
}

/// The file that the `n`-th pixel of the curve belongs to.
pub open spec fn file_of(sources: Seq<Source>, plan: CanvasPlan, n: int) -> usize {
    sources[holder(sources, n * plan.stride)].file_idx
}

/// The first `upto` pixels of the curve are painted as they should be, all
/// others are black and belong to nobody.
pub open spec fn composed(
    p: single::Painting,
    sources: Seq<Source>,
    contents: Seq<Seq<u8>>,
    plan: CanvasPlan,
    inks: Inks,
    upto: int,
) -> bool {
    &&& single::sized(p, plan)
    &&& forall|n: int|
        0 <= n < upto ==> p.pixels[#[trigger] single::spot(plan.k as nat, n)] == pixel_of(
            sources,
            contents,
            plan,
            inks,
            n,
        ) && p.owner[single::spot(plan.k as nat, n)] == Some(file_of(sources, plan, n))
    &&& forall|i: int|
        0 <= i < p.pixels.len() && single::untouched(plan.k as nat, 0, upto, i)
            ==> #[trigger] p.pixels[i] == (Rgb { r: 0, g: 0, b: 0 }) && p.owner[i] is None
}

/// The smallest box round those of the first `upto` pixels of the curve that
/// belong to a file.
pub open spec fn file_box(sources: Seq<Source>, plan: CanvasPlan, file: int, upto: int) -> Option<
    (int, int, int, int),
>
    decreases upto,
{
    if upto <= 0 {
        None
    } else {
        let before = file_box(sources, plan, file, upto - 1);
        if file_of(sources, plan, upto - 1) == file {
            single::joint_box(before, single::box_of(plan.k as nat, upto - 1, upto))
        } else {
            before
        }
    }
}

/// The bytes that belong to the sources: as many as each source has, none for a
/// region without counterpart.
pub open spec fn contents_fit(sources: Seq<Source>, contents: Seq<Seq<u8>>) -> bool {
    &&& contents.len() == sources.len()
    &&& forall|i: int|
        0 <= i < sources.len() ==> (#[trigger] sources[i]).kind is UnmatchedRegion
            || contents[i].len() == sources[i].byte_size
}

/// The plan fits the sources: it has a pixel for every sampled byte.
pub open spec fn plan_fits(sources: Seq<Source>, plan: CanvasPlan) -> bool {
    &&& plan.wf()
    &&& plan.chunk_bytes > 0
    &&& source::total_size(source::regions(sources)) <= u64::MAX
    &&& single::ceil_div(source::total_size(source::regions(sources)), plan.stride as int)
        <= plan.canvas_size
}

/// The bytes of the sources.
pub open spec fn bytes_of(v: Seq<Vec<u8>>) -> Seq<Seq<u8>> {
    v.map_values(|b: Vec<u8>| b@)
}

/// The starts of the sources rise.
proof fn lemma_starts_rise(sources: Seq<Source>, i: int, j: int)
    requires
        0 <= i <= j <= sources.len(),
    ensures
        0 <= single::start_of(sources, i) <= single::start_of(sources, j),
        single::start_of(sources, j) <= source::total_size(source::regions(sources)),
    decreases j - i,
{
    if i < j {
        single::lemma_start_step(sources, j - 1);
        lemma_starts_rise(sources, i, j - 1);
    } else if i > 0 {
        single::lemma_start_step(sources, i - 1);
    } else {
        assert(source::regions(sources.take(0)) =~= seq![]);
        if sources.len() > 0 {
            single::lemma_start_step(sources, 0);
        } else {
            assert(sources.take(0) =~= sources);
        }
    }
}

/// A byte within a source comes from it.
pub(crate) proof fn lemma_holder(sources: Seq<Source>, i: int, pos: int)
    requires
        0 <= i < sources.len(),
        single::start_of(sources, i) <= pos < single::start_of(sources, i + 1),
    ensures
        holder(sources, pos) == i,
    decreases sources.len(),
{
    let last = sources.len() - 1;
    if i < last {
        lemma_starts_rise(sources, i + 1, last);
        let rest = sources.drop_last();
        assert(rest.take(i) =~= sources.take(i));
        assert(rest.take(i + 1) =~= sources.take(i + 1));
        lemma_holder(rest, i, pos);
    }
}

/// The box round a run of pixels can be put together from those of its parts.
proof fn lemma_box_step(k: nat, from: int, to: int)
    requires
        from <= to,
    ensures
        single::box_of(k, from, to + 1) == single::joint_box(
            single::box_of(k, from, to),
            single::box_of(k, to, to + 1),
        ),
{
    reveal_with_fuel(single::box_of, 2);
}

/// A run of pixels of one file grows the box of that file, and no other.
proof fn lemma_run_grows_box(
    sources: Seq<Source>,
    plan: CanvasPlan,
    owner: int,
    file: int,
    from: int,
    to: int,
)
    requires
        0 <= from <= to,
        forall|n: int| from <= n < to ==> #[trigger] file_of(sources, plan, n) == owner,
    ensures
        file_box(sources, plan, file, to) == (if file == owner {
            single::joint_box(
                file_box(sources, plan, file, from),
                single::box_of(plan.k as nat, from, to),
            )
        } else {
            file_box(sources, plan, file, from)
        }),
    decreases to - from,
{
    if from < to {
        lemma_run_grows_box(sources, plan, owner, file, from, to - 1);
        lemma_box_step(plan.k as nat, from, to - 1);
        assert(file_of(sources, plan, to - 1) == owner);
    }
}

/// Painting the next run of the curve as it should be keeps the picture
/// composed.
proof fn lemma_composed_step(
    was: single::Painting,
    now: single::Painting,
    sources: Seq<Source>,
    contents: Seq<Seq<u8>>,
    plan: CanvasPlan,
    inks: Inks,
    from: int,
    to: int,
    file: usize,
    color: spec_fn(int) -> Rgb,
)
    requires
        plan.wf(),
        0 <= from <= to <= plan.canvas_size,
        composed(was, sources, contents, plan, inks, from),
        single::painted(was, now, plan.k as nat, from, to, file, color),
        forall|n: int| from <= n < to ==> #[trigger] color(n) == pixel_of(sources, contents, plan, inks, n),
        forall|n: int| from <= n < to ==> #[trigger] file_of(sources, plan, n) == file,
    ensures
        composed(now, sources, contents, plan, inks, to),
{
    let k = plan.k as nat;
    assert forall|n: int| 0 <= n < to implies now.pixels[#[trigger] single::spot(k, n)] == pixel_of(
        sources,
        contents,
        plan,
        inks,
        n,
    ) && now.owner[single::spot(k, n)] == Some(file_of(sources, plan, n)) by {
        single::lemma_spot(k, n);
        if n < from {
            let i = single::spot(k, n);
            assert(single::untouched(k, from, to, i)) by {
                assert forall|m: int| from <= m < to implies #[trigger] single::spot(k, m) != i by {
                    if single::spot(k, m) == i {
                        single::lemma_spot_injective(k, m, n);
                    }
                }
            }
            assert(now.pixels[i] == was.pixels[i]);
        } else {
            assert(color(n) == pixel_of(sources, contents, plan, inks, n));
            assert(file_of(sources, plan, n) == file);
        }
    }
    assert forall|i: int|
        0 <= i < now.pixels.len() && single::untouched(k, 0, to, i) implies #[trigger] now.pixels[i]
        == (Rgb { r: 0, g: 0, b: 0 }) && now.owner[i] is None by {
        assert(single::untouched(k, from, to, i));
        assert(single::untouched(k, 0, from, i));
        assert(now.pixels[i] == was.pixels[i]);
        assert(was.pixels[i] == (Rgb { r: 0, g: 0, b: 0 }));
    }
}

/// A black picture that belongs to nobody.
fn blank(plan: &CanvasPlan) -> (p: Picture)
    requires
        plan.wf(),
    ensures
        single::sized(p@, *plan),
        forall|i: int|
            0 <= i < p@.pixels.len() ==> #[trigger] p@.pixels[i] == (Rgb { r: 0, g: 0, b: 0 })
                && p@.owner[i] is None,
{
    let mut pixels: Vec<Rgb> = Vec::new();
    let mut owner: Vec<Option<usize>> = Vec::new();
    let mut i: u64 = 0;
    while i < plan.canvas_size
        invariant
            i <= plan.canvas_size,
            pixels@.len() == i,
            owner@.len() == i,
            forall|j: int|
                0 <= j < i ==> #[trigger] pixels@[j] == (Rgb { r: 0, g: 0, b: 0 }) && owner@[j] is None,
        decreases plan.canvas_size - i,
    {
        pixels.push(rgb(0, 0, 0));
        owner.push(None);
        i = i + 1;
    }
    Picture { pixels, owner }
}

/// Where the next chunk of a source starts, the end of the source behind the
/// last one.
pub open spec fn chunk_start(cs: Seq<Chunk>, c: int, end: int) -> int {
    if c < cs.len() {
        cs[c].start as int
    } else {
        end
    }
}

/// What a chunk of a source paints is what should be there.
proof fn lemma_chunk_colors(
    sources: Seq<Source>,
    contents: Seq<Seq<u8>>,
    plan: CanvasPlan,
    inks: Inks,
    i: int,
    chunk: Chunk,
    color: spec_fn(int) -> Rgb,
)
    requires
        plan_fits(sources, plan),
        contents_fit(sources, contents),
        0 <= i < sources.len(),
        chunk.src_start == single::start_of(sources, i),
        chunk.src_start <= chunk.start <= chunk.end <= single::start_of(sources, i + 1),
        match sources[i].kind {
            SourceKind::UnmatchedRegion { fill } => color == single::crosshatch_painter(
                plan.k as nat,
                fill,
            ),
            _ => color == single::byte_painter(
                chunk,
                plan.stride as int,
                contents[i].subrange(
                    chunk.start - chunk.src_start,
                    chunk.end - chunk.src_start,
                ),
                inks.lut,
                inks.xorbs,
                inks.tableau,
            ),
        },
    ensures
        forall|n: int|
            single::ceil_div(chunk.start as int, plan.stride as int) <= n < single::ceil_div(
                chunk.end as int,
                plan.stride as int,
            ) ==> #[trigger] color(n) == pixel_of(sources, contents, plan, inks, n),
        forall|n: int|
            single::ceil_div(chunk.start as int, plan.stride as int) <= n < single::ceil_div(
                chunk.end as int,
                plan.stride as int,
            ) ==> #[trigger] file_of(sources, plan, n) == sources[i].file_idx,
{
    let stride = plan.stride as int;
    single::lemma_start_step(sources, i);
    assert forall|n: int|
        single::ceil_div(chunk.start as int, stride) <= n < single::ceil_div(
            chunk.end as int,
            stride,
        ) implies #[trigger] color(n) == pixel_of(sources, contents, plan, inks, n) by {
        single::lemma_sample(n, chunk.start as int, chunk.end as int, stride);
        lemma_holder(sources, i, n * stride);
    }
    assert forall|n: int|
        single::ceil_div(chunk.start as int, stride) <= n < single::ceil_div(
            chunk.end as int,
            stride,
        ) implies #[trigger] file_of(sources, plan, n) == sources[i].file_idx by {
        single::lemma_sample(n, chunk.start as int, chunk.end as int, stride);
        lemma_holder(sources, i, n * stride);
    }
}

/// Rounding up keeps the order.
proof fn lemma_ceil_monotone(a: int, b: int, stride: int)
    requires
        0 <= a <= b,
        stride > 0,
    ensures
        0 <= single::ceil_div(a, stride) <= single::ceil_div(b, stride),
{
    assert((a + stride - 1) / stride <= (b + stride - 1) / stride) by (nonlinear_arith)
        requires
            a <= b,
            stride > 0,
    ;
    assert((a + stride - 1) / stride >= 0) by (nonlinear_arith)
        requires
            a >= 0,
            stride > 0,
    ;
}

/// Paints every source along the curve. Returns the picture and the smallest
/// box round the pixels of each file.
pub fn render_chunks(
    sources: &[Source],
    contents: &Vec<Vec<u8>>,
    num_files: usize,
    plan: &CanvasPlan,
    pixel_lut: &[Rgb; 256],
    xorb_ranges: &[(u64, u64, u8)],
    tableau: &[Rgb; 20],
) -> (r: (Picture, Vec<Option<(u32, u32, u32, u32)>>))
    requires
        plan_fits(sources@, *plan),
        contents_fit(sources@, bytes_of(contents@)),
        forall|i: int| 0 <= i < sources@.len() ==> (#[trigger] sources@[i]).file_idx < num_files,
        render::ranges_in_order(xorb_ranges@),
        render::indices_valid(xorb_ranges@),
    ensures
        composed(
            r.0@,
            sources@,
            bytes_of(contents@),
            *plan,
            (Inks { lut: pixel_lut@, xorbs: xorb_ranges@, tableau: tableau@ }),
            single::ceil_div(
                source::total_size(source::regions(sources@)),
                plan.stride as int,
            ),
        ),
        r.1@.len() == num_files,
        forall|f: int|
            0 <= f < num_files ==> single::box_view(#[trigger] r.1@[f]) == file_box(
                sources@,
                *plan,
                f,
                single::ceil_div(
                    source::total_size(source::regions(sources@)),
                    plan.stride as int,
                ),
            ),
{
    let ghost ss = sources@;
    let ghost cc = bytes_of(contents@);
    let ghost inks = Inks { lut: pixel_lut@, xorbs: xorb_ranges@, tableau: tableau@ };
    let ghost stride = plan.stride as int;
    let ghost total = source::total_size(source::regions(ss));
    let chunks = plan_chunks(sources, plan);
    let mut pic = blank(plan);
    let mut boxes: Vec<Option<(u32, u32, u32, u32)>> = Vec::new();
    let mut f: usize = 0;
    while f < num_files
        invariant
            f <= num_files,
            boxes@.len() == f,
            forall|j: int| 0 <= j < f ==> #[trigger] boxes@[j] is None,
        decreases num_files - f,
    {
        boxes.push(None);
        f = f + 1;
    }
    proof {
        assert(source::regions(ss.take(0)) =~= seq![]);
        assert(single::ceil_div(0, stride) == 0) by (nonlinear_arith)
            requires
                stride >= 1,
                single::ceil_div(0, stride) == (0 + stride - 1) / stride,
        ;
        assert forall|j: int| 0 <= j < num_files implies single::box_view(#[trigger] boxes@[j])
            == file_box(ss, *plan, j, 0) by {}
    }
    let mut i: usize = 0;
    while i < sources.len()
        invariant
            i <= sources@.len(),
            ss == sources@,
            cc == bytes_of(contents@),
            inks == (Inks { lut: pixel_lut@, xorbs: xorb_ranges@, tableau: tableau@ }),
            stride == plan.stride,
            total == source::total_size(source::regions(ss)),
            plan_fits(ss, *plan),
            contents_fit(ss, cc),
            forall|j: int| 0 <= j < ss.len() ==> (#[trigger] ss[j]).file_idx < num_files,
            render::ranges_in_order(xorb_ranges@),
            render::indices_valid(xorb_ranges@),
            chunks@.len() == ss.len(),
            forall|j: int|
                0 <= j < chunks@.len() ==> (#[trigger] chunks@[j])@ == single::chunks_from(
                    ss[j].file_idx,
                    single::start_of(ss, j),
                    single::start_of(ss, j),
                    single::start_of(ss, j + 1),
                    plan.chunk_bytes as int,
                    plan.stride as int,
                ),
            composed(
                pic@,
                ss,
                cc,
                *plan,
                inks,
                single::ceil_div(single::start_of(ss, i as int), stride),
            ),
            boxes@.len() == num_files,
            forall|j: int|
                0 <= j < num_files ==> single::box_view(#[trigger] boxes@[j]) == file_box(
                    ss,
                    *plan,
                    j,
                    single::ceil_div(single::start_of(ss, i as int), stride),
                ),
        decreases ss.len() - i,
    {
        let ghost start = single::start_of(ss, i as int);
        let ghost end = single::start_of(ss, i + 1);
        let ghost cs = chunks@[i as int]@;
        proof {
            single::lemma_start_step(ss, i as int);
        }
        let mut c: usize = 0;
        while c < chunks[i].len()
            invariant
                i < sources@.len(),
                c <= cs.len(),
                cs == chunks@[i as int]@,
                ss == sources@,
                cc == bytes_of(contents@),
                inks == (Inks { lut: pixel_lut@, xorbs: xorb_ranges@, tableau: tableau@ }),
                stride == plan.stride,
                total == source::total_size(source::regions(ss)),
                plan_fits(ss, *plan),
                contents_fit(ss, cc),
                forall|j: int| 0 <= j < ss.len() ==> (#[trigger] ss[j]).file_idx < num_files,
                render::ranges_in_order(xorb_ranges@),
                render::indices_valid(xorb_ranges@),
                chunks@.len() == ss.len(),
                start == single::start_of(ss, i as int),
                end == single::start_of(ss, i + 1),
                0 <= start <= end <= total,
                end == start + ss[i as int].byte_size,
                cs == single::chunks_from(
                    ss[i as int].file_idx,
                    start,
                    start,
                    end,
                    plan.chunk_bytes as int,
                    plan.stride as int,
                ),
                composed(
                    pic@,
                    ss,
                    cc,
                    *plan,
                    inks,
                    single::ceil_div(chunk_start(cs, c as int, end), stride),
                ),
                boxes@.len() == num_files,
                forall|j: int|
                    0 <= j < num_files ==> single::box_view(#[trigger] boxes@[j]) == file_box(
                        ss,
                        *plan,
                        j,
                        single::ceil_div(chunk_start(cs, c as int, end), stride),
                    ),
            decreases cs.len() - c,
        {
            let chunk = chunks[i][c];
            let ghost was = pic@;
            let ghost from = single::ceil_div(chunk.start as int, stride);
            let ghost to = single::ceil_div(chunk.end as int, stride);
            proof {
                single::chunks_tile_source(
                    ss[i as int].file_idx,
                    start,
                    start,
                    end,
                    plan.chunk_bytes as int,
                    stride,
                    c as int,
                );
                lemma_chunk_belongs(
                    ss[i as int].file_idx,
                    start,
                    start,
                    end,
                    plan.chunk_bytes as int,
                    stride,
                    c as int,
                );
                lemma_ceil_monotone(chunk.start as int, chunk.end as int, stride);
                lemma_ceil_monotone(chunk.end as int, total, stride);
            }
            let ghost color: spec_fn(int) -> Rgb;
            let b = match &sources[i].kind {
                SourceKind::UnmatchedRegion { fill } => {
                    proof {
                        color = single::crosshatch_painter(plan.k as nat, *fill);
                    }
                    paint_crosshatch(&mut pic, plan, &chunk, *fill)
                },
                _ => {
                    assert(cc[i as int] == contents@[i as int]@);
                    assert(contents[i as int].len() == contents@[i as int]@.len());
                    let bytes = vstd::slice::slice_subrange(
                        contents[i].as_slice(),
                        (chunk.start - chunk.src_start) as usize,
                        (chunk.end - chunk.src_start) as usize,
                    );
                    proof {
                        color = single::byte_painter(
                            chunk,
                            stride,
                            bytes@,
                            pixel_lut@,
                            xorb_ranges@,
                            tableau@,
                        );
                    }
                    paint_bytes(&mut pic, plan, &chunk, bytes, pixel_lut, xorb_ranges, tableau)
                },
            };
            let ghost old_boxes = boxes@;
            merge_box(&mut boxes, chunk.file_idx, b);
            proof {
                lemma_chunk_colors(ss, cc, *plan, inks, i as int, chunk, color);
                lemma_composed_step(
                    was,
                    pic@,
                    ss,
                    cc,
                    *plan,
                    inks,
                    from,
                    to,
                    chunk.file_idx,
                    color,
                );
                assert forall|j: int| 0 <= j < num_files implies single::box_view(
                    #[trigger] boxes@[j],
                ) == file_box(ss, *plan, j, to) by {
                    assert(single::box_view(old_boxes[j]) == file_box(ss, *plan, j, from));
                    lemma_run_grows_box(ss, *plan, chunk.file_idx as int, j, from, to);
                }
                assert(chunk_start(cs, c + 1, end) == chunk.end);
            }
            c = c + 1;
        }
        i = i + 1;
    }
    assert(ss.take(i as int) =~= ss);
    (pic, boxes)
}

/// Every chunk of a source belongs to the source's file and start.
proof fn lemma_chunk_belongs(
    file: usize,
    src: int,
    at: int,
    end: int,
    size: int,
    stride: int,
    i: int,
)
    requires
        0 <= src <= at <= end <= u64::MAX,
        size > 0,
        stride > 0,
        0 <= i < single::chunks_from(file, src, at, end, size, stride).len(),
    ensures
        single::chunks_from(file, src, at, end, size, stride)[i].file_idx == file,
        single::chunks_from(file, src, at, end, size, stride)[i].src_start == src,
        single::chunks_from(file, src, at, end, size, stride)[i].start >= at,
    decreases i,
{
    let stop = single::least(at + size, end);
    if i > 0 {
        let rest = single::chunks_from(file, src, stop, end, size, stride);
        assert(single::chunks_from(file, src, at, end, size, stride).drop_first() =~= rest);
        lemma_chunk_belongs(file, src, stop, end, size, stride, i - 1);
        assert(single::chunks_from(file, src, at, end, size, stride)[i] == rest[i - 1]);
    }
}

/// A finished image.
#[derive(Debug)]
pub struct Image {
    pub plan: CanvasPlan,
    pub picture: Picture,
    /// The smallest box round the pixels of each file.
    pub boxes: Vec<Option<(u32, u32, u32, u32)>>,
}

/// How many pixels of the curve are painted.
pub open spec fn sample_count(sources: Seq<Source>, plan: CanvasPlan) -> int {
    single::ceil_div(source::total_size(source::regions(sources)), plan.stride as int)
}

/// The table that bytes are coloured by.
pub open spec fn is_lut(lut: Seq<Rgb>, diff_mode: bool) -> bool {
    &&& lut.len() == 256
    &&& forall|i: int|
        0 <= i < 256 ==> #[trigger] lut[i] == (if diff_mode {
            let v = color::diff_brightness(i as u8);
            Rgb { r: v, g: v, b: v }
        } else {
            color::palette(i as u8)
        })
}

/// The picture shows the sources: the `n`-th pixel of the curve belongs to the
/// file of the byte that it samples and has its colour, black where it touches
/// another file; pixels behind the last sample are black and belong to nobody.
pub open spec fn shows(
    p: single::Painting,
    sources: Seq<Source>,
    contents: Seq<Seq<u8>>,
    plan: CanvasPlan,
    inks: Inks,
) -> bool {
    &&& single::sized(p, plan)
    &&& forall|n: int|
        0 <= n < sample_count(sources, plan) ==> p.owner[#[trigger] single::spot(plan.k as nat, n)]
            == Some(file_of(sources, plan, n)) && p.pixels[single::spot(plan.k as nat, n)] == (
        if single::has_several_files(sources) && single::is_border(
            p.owner,
            plan.side as int,
            single::spot(plan.k as nat, n) % (plan.side as int),
            single::spot(plan.k as nat, n) / (plan.side as int),
        ) {
            Rgb { r: 0, g: 0, b: 0 }
        } else {
            pixel_of(sources, contents, plan, inks, n)
        })
    &&& forall|i: int|
        0 <= i < p.pixels.len() && single::untouched(
            plan.k as nat,
            0,
            sample_count(sources, plan),
            i,
        ) ==> #[trigger] p.pixels[i] == (Rgb { r: 0, g: 0, b: 0 }) && p.owner[i] is None
}

/// Draws the sources as one square image: bytes in their order along the
/// Hilbert curve, every byte where the image has room for all of them, evenly
/// spaced samples where it has not.
pub fn run_single_hilbert(
    sources: &[Source],
    contents: &Vec<Vec<u8>>,
    num_files: usize,
    diff_mode: bool,
    xorb_ranges: &[(u64, u64, u8)],
    tableau: &[Rgb; 20],
) -> (r: Image)
    requires
        source::total_size(source::regions(sources@)) <= u64::MAX,
        contents_fit(sources@, bytes_of(contents@)),
        forall|i: int| 0 <= i < sources@.len() ==> (#[trigger] sources@[i]).file_idx < num_files,
        render::ranges_in_order(xorb_ranges@),
        render::indices_valid(xorb_ranges@),
    ensures
        single::is_plan_for(r.plan, source::total_size(source::regions(sources@)) as u64),
        exists|lut: Seq<Rgb>| #[trigger]
            is_lut(lut, diff_mode) && shows(
                r.picture@,
                sources@,
                bytes_of(contents@),
                r.plan,
                (Inks { lut, xorbs: xorb_ranges@, tableau: tableau@ }),
            ),
        r.boxes@.len() == num_files,
        forall|f: int|
            0 <= f < num_files ==> single::box_view(#[trigger] r.boxes@[f]) == file_box(
                sources@,
                r.plan,
                f,
                sample_count(sources@, r.plan),
            ),
{
    let ghost ss = sources@;
    let ghost cc = bytes_of(contents@);
    let mut total: u64 = 0;
    let mut i: usize = 0;
    assert(source::regions(ss.take(0)) =~= seq![]);
    while i < sources.len()
        invariant
            i <= sources@.len(),
            ss == sources@,
            source::total_size(source::regions(ss)) <= u64::MAX,
            total == single::start_of(ss, i as int),
        decreases ss.len() - i,
    {
        proof {
            single::lemma_start_step(ss, i as int);
        }
        total = total + sources[i].byte_size;
        i = i + 1;
    }
    assert(ss.take(i as int) =~= ss);
    let plan = CanvasPlan::for_total(total);
    proof {
        single::lemma_order_bounds(plan.k as nat);
        single::every_sample_has_a_pixel(
            total as int,
            plan.canvas_size as int,
            plan.stride as int,
        );
    }
    let lut = if diff_mode {
        build_diff_signed_lut()
    } else {
        build_pixel_lut()
    };
    let ghost inks = Inks { lut: lut@, xorbs: xorb_ranges@, tableau: tableau@ };
    assert(is_lut(lut@, diff_mode));
    let (mut picture, boxes) = render_chunks(
        sources,
        contents,
        num_files,
        &plan,
        &lut,
        xorb_ranges,
        tableau,
    );
    let ghost plain = picture@;
    if several_files(sources) {
        mark_borders(&mut picture, plan.side);
    }
    proof {
        let k = plan.k as nat;
        assert forall|n: int| 0 <= n < sample_count(ss, plan) implies picture@.owner[
            #[trigger] single::spot(k, n)
        ] == Some(file_of(ss, plan, n)) && picture@.pixels[single::spot(k, n)] == (
        if single::has_several_files(ss) && single::is_border(
            picture@.owner,
            plan.side as int,
            single::spot(k, n) % (plan.side as int),
            single::spot(k, n) / (plan.side as int),
        ) {
            Rgb { r: 0, g: 0, b: 0 }
        } else {
            pixel_of(ss, cc, plan, inks, n)
        }) by {
            single::lemma_spot(k, n);
            assert(plain.pixels[single::spot(k, n)] == pixel_of(ss, cc, plan, inks, n));
        }
        assert forall|i: int|
            0 <= i < picture@.pixels.len() && single::untouched(
                k,
                0,
                sample_count(ss, plan),
                i,
            ) implies #[trigger] picture@.pixels[i] == (Rgb { r: 0, g: 0, b: 0 })
            && picture@.owner[i] is None by {
            assert(plain.pixels[i] == (Rgb { r: 0, g: 0, b: 0 }));
        }
        assert(shows(picture@, ss, cc, plan, inks));
    }
    Image { plan, picture, boxes }
}

/// Where the image has room for every byte, every byte has a pixel of its own,
/// and bytes that follow one another lie side by side.
pub proof fn one_pixel_per_byte(sources: Seq<Source>, plan: CanvasPlan, n: int)
    requires
        0 <= source::total_size(source::regions(sources)) <= 16_777_216,
        single::is_plan_for(plan, source::total_size(source::regions(sources)) as u64),
        0 <= n,
        n + 1 < source::total_size(source::regions(sources)),
    ensures
        plan.stride == 1,
        sample_count(sources, plan) == source::total_size(source::regions(sources)),
        ({
            let a = geometry::curve(n, plan.k as nat, 0);
            let b = geometry::curve(n + 1, plan.k as nat, 0);
            geometry::cell_steps(a, b) == 1
        }),
{
    single::lemma_room(plan, source::total_size(source::regions(sources)));
    geometry::curve_steps_by_one(n, plan.k as nat, 0);
}

} // verus!
