//! Which builder, layout and place is chosen: what files are told by, when the
//! structure of a model is shown, and where labels and centres lie.

use vstd::prelude::*;
use crate::cli;
use crate::cli::{Args, CliError, PlaceSpec, RunSpec};
use crate::diff::{DiffSourceBuilder, JsonDiffBuilder, TensorDiffBuilder};
use crate::geometry;
use crate::geometry::Rect;
use crate::hf_url;
use crate::json_diff::source as json_source;
use crate::label;
use crate::label::Room;
use crate::layout::select;
use crate::layout::select::{LayoutMode, SourceMeta};
use crate::path;
use crate::registry;
use crate::registry::{
    BuiltinProvider, ByteDiffProvider, NormalBytesProvider, SourceCtx, SourceProvider,
};
use crate::source::Source;
use crate::text_laws;

verus! {

/// A diff goes to the provider for diffs, every other invocation to the one
/// for plain bytes, in whichever order the two stand.
pub proof fn diffs_go_to_their_provider(ctx: SourceCtx, i: int)
    requires
        0 <= i < 2,
    ensures
        ({
            let d = BuiltinProvider::ByteDiff(ByteDiffProvider {  });
            let n = BuiltinProvider::NormalBytes(NormalBytesProvider {  });
            let one = seq![d, n];
            let two = seq![n, d];
            &&& registry::is_choice(registry::ranks(one), registry::accepting(one, ctx), i) <==> (
            i == 0) == (ctx.diff is Some)
            &&& registry::is_choice(registry::ranks(two), registry::accepting(two, ctx), i) <==> (
            i == 1) == (ctx.diff is Some)
        }),
{
    let d = BuiltinProvider::ByteDiff(ByteDiffProvider {  });
    let n = BuiltinProvider::NormalBytes(NormalBytesProvider {  });
    let is_diff = ctx.diff is Some;
    assert(registry::accepting(seq![d, n], ctx) =~= seq![is_diff, true]);
    assert(registry::accepting(seq![n, d], ctx) =~= seq![true, is_diff]);
    assert(registry::ranks(seq![d, n])[0] > registry::ranks(seq![d, n])[1]);
    assert(registry::ranks(seq![n, d])[0] < registry::ranks(seq![n, d])[1]);
    assert(seq![is_diff, true][0] == is_diff && seq![is_diff, true][1]);
    assert(seq![true, is_diff][1] == is_diff && seq![true, is_diff][0]);
}

/// A file of the given directory, stem and extension.
pub open spec fn file_at(dir: Seq<char>, stem: Seq<char>, ext: Seq<char>) -> Seq<char> {
    dir + seq!['/'] + (stem + seq!['.'] + ext)
}

/// Files are told by their extension alone: two `.safetensors` files are
/// compared tensor by tensor, two files of `.json` or `.jsonl` by structure, and
/// line by line where one of them is `.jsonl`.
pub proof fn extensions_decide(
    dir: Seq<char>,
    stem: Seq<char>,
    ext: Seq<char>,
    dir2: Seq<char>,
    stem2: Seq<char>,
    ext2: Seq<char>,
)
    requires
        text_laws::is_plain(stem + seq!['.'] + ext),
        text_laws::is_plain(stem2 + seq!['.'] + ext2),
        stem.len() > 0,
        stem2.len() > 0,
        !ext.contains('.'),
        !ext2.contains('.'),
    ensures
        ({
            let a = file_at(dir, stem, ext);
            let b = file_at(dir2, stem2, ext2);
            let json = |e: Seq<char>| e == "json"@ || e == "jsonl"@;
            &&& (TensorDiffBuilder {  }).handles(a, b) <==> ext == "safetensors"@ && ext2
                == "safetensors"@
            &&& (JsonDiffBuilder {  }).handles(a, b) <==> json(ext) && json(ext2)
            &&& json_source::is_line_delimited(a, b) <==> ext == "jsonl"@ || ext2 == "jsonl"@
        }),
{
    text_laws::extensions_follow_the_last_dot(dir, stem, ext);
    text_laws::extensions_follow_the_last_dot(dir2, stem2, ext2);
}

/// The structure of a model is never shown where the plain layout was asked
/// for, only where a source has a header, and where it is chosen by itself it
/// is shown when asked for too. A diff asks for one header, everything else for
/// a header of every source.
pub proof fn structure_needs_headers(
    sources: Seq<Source>,
    offsets: Seq<u64>,
    diff_mode: bool,
    i: int,
)
    ensures
        !select::shows_structure(LayoutMode::Hilbert, sources, offsets, diff_mode),
        select::shows_structure(LayoutMode::Auto, sources, offsets, diff_mode)
            ==> select::shows_structure(LayoutMode::Arch, sources, offsets, diff_mode),
        select::shows_structure(LayoutMode::Arch, sources, offsets, false)
            ==> select::shows_structure(LayoutMode::Arch, sources, offsets, true),
        select::shows_structure(LayoutMode::Arch, sources, offsets, false) && 0 <= i
            < sources.len() ==> sources[i].safetensors is Some,
        select::shows_structure(LayoutMode::Arch, sources, offsets, diff_mode) ==> exists|k: int|
            0 <= k < sources.len() && (#[trigger] sources[k]).safetensors is Some,
{
    if select::shows_structure(LayoutMode::Arch, sources, offsets, false) {
        assert(sources[0].safetensors is Some);
    }
}

/// What is known of a model is taken from the first source that has a config.
pub proof fn first_configs_count(metas: Seq<SourceMeta>, i: int)
    requires
        0 <= i < metas.len(),
        metas[i].config is Some,
        forall|k: int| 0 <= k < i ==> (#[trigger] metas[k]).config is None,
    ensures
        select::first_config(metas) == metas[i].config,
        select::declared_layers(metas) == (metas[i].config->0).num_hidden_layers,
    decreases metas.len(),
{
    let init = metas.drop_last();
    if i < metas.len() - 1 {
        assert(init[i] == metas[i]);
        assert forall|k: int| 0 <= k < i implies (#[trigger] init[k]).config is None by {
            assert(init[k] == metas[k]);
        }
        first_configs_count(init, i);
    } else {
        assert forall|k: int| 0 <= k < init.len() implies (#[trigger] init[k]).config is None by {
            assert(init[k] == metas[k]);
        }
        lemma_no_config(init);
    }
}

proof fn lemma_no_config(metas: Seq<SourceMeta>)
    requires
        forall|k: int| 0 <= k < metas.len() ==> (#[trigger] metas[k]).config is None,
    ensures
        select::first_config(metas) is None,
    decreases metas.len(),
{
    if metas.len() > 0 {
        let init = metas.drop_last();
        assert forall|k: int| 0 <= k < init.len() implies (#[trigger] init[k]).config is None by {
            assert(init[k] == metas[k]);
        }
        lemma_no_config(init);
        assert(metas[metas.len() - 1].config is None);
    }
}

/// What is run follows the arguments: a page is regenerated in the directory
/// that asks for it, a deployment takes a finished local directory to its Space,
/// and everything else is rendered to where the output says: to a local
/// directory, up to the Hub, or into a Space.
pub proof fn plans_follow_the_arguments(args: Args)
    ensures
        match cli::plan_of(args) {
            Ok(RunSpec::Regenerate { dir, three_d }) => args.regen_html matches Some(d) && d@ == dir
                && three_d == args.three_d,
            Ok(RunSpec::Deploy { dir, space, three_d }) => {
                &&& args.regen_html is None
                &&& args.out matches Some(d) && d@ == dir && !cli::is_hub(dir)
                &&& args.space matches Some(n) && n@ == space
                &&& args.files@.len() == 0 && args.file_list is None
                &&& three_d == args.three_d
            },
            Ok(RunSpec::Render { dest }) => {
                &&& args.regen_html is None
                &&& dest.space == hf_url::optional_text(args.space)
                &&& args.out matches Some(d) ==> if cli::is_hub(d@) {
                    dest.upload_hf == Some(d@) && dest.place !is UserDir
                } else {
                    dest.upload_hf is None && dest.place == (PlaceSpec::UserDir { dir: d@ })
                }
                &&& args.out is None ==> dest.upload_hf is None && dest.space is Some && dest.place
                    !is UserDir
            },
            Err(CliError::NoOutput) => args.out is None && args.space is None,
            Err(CliError::OutputAlternatives) => args.out is Some && args.space is Some,
            Err(CliError::XorbsWithDiff) => args.show_xet_xorbs && args.diff is Some,
            Err(CliError::BadGrid { side }) => side == args.grid && args.three_d,
            Err(_) => false,
        },
        args.regen_html is Some ==> cli::plan_of(args) matches Ok(RunSpec::Regenerate { .. }),
        args.regen_html is None && args.show_xet_xorbs && args.diff is Some ==> cli::plan_of(
            args,
        ) is Err,
{
}

/// The rectangles, all moved by the same distance.
pub open spec fn moved(rs: Seq<Rect>, dx: int, dy: int) -> Seq<Rect> {
    rs.map_values(
        |r: Rect| Rect { x0: r.x0 + dx, y0: r.y0 + dy, x1: r.x1 + dx, y1: r.y1 + dy },
    )
}

/// Moving all rectangles moves their centre of mass by the same distance and
/// keeps their area.
pub proof fn centres_move_along(rs: Seq<Rect>, dx: int, dy: int)
    ensures
        geometry::area(moved(rs, dx, dy)) == geometry::area(rs),
        geometry::moment_x(moved(rs, dx, dy)) == geometry::moment_x(rs) + 2 * dx
            * geometry::area(rs),
        geometry::moment_y(moved(rs, dx, dy)) == geometry::moment_y(rs) + 2 * dy
            * geometry::area(rs),
    decreases rs.len(),
{
    if rs.len() > 0 {
        let init = rs.drop_last();
        centres_move_along(init, dx, dy);
        let ms = moved(rs, dx, dy);
        assert(ms.drop_last() =~= moved(init, dx, dy));
        let r = rs.last();
        let w = (r.x1 - r.x0) * (r.y1 - r.y0);
        let a = geometry::area(init);
        assert(ms.last() == Rect { x0: r.x0 + dx, y0: r.y0 + dy, x1: r.x1 + dx, y1: r.y1 + dy });
        lemma_shift(w, r.x0 + r.x1, dx, a);
        lemma_shift(w, r.y0 + r.y1, dy, a);
    } else {
        assert(moved(rs, dx, dy) =~= rs);
        assert(2 * dx * 0 == 0 && 2 * dy * 0 == 0) by (nonlinear_arith);
    }
}

proof fn lemma_shift(w: int, s: int, d: int, a: int)
    ensures
        w * (s + 2 * d) + 2 * d * a == w * s + 2 * d * (a + w),
{
    assert(w * (s + 2 * d) + 2 * d * a == w * s + 2 * d * (a + w)) by (nonlinear_arith);
}

/// The centre of one rectangle is its middle.
pub proof fn one_rectangle_is_centred(r: Rect)
    ensures
        geometry::area(seq![r]) == (r.x1 - r.x0) * (r.y1 - r.y0),
        geometry::moment_x(seq![r]) == geometry::area(seq![r]) * (r.x0 + r.x1),
        geometry::moment_y(seq![r]) == geometry::area(seq![r]) * (r.y0 + r.y1),
{
    reveal_with_fuel(geometry::area, 2);
    reveal_with_fuel(geometry::moment_x, 2);
    reveal_with_fuel(geometry::moment_y, 2);
    assert(seq![r].drop_last() =~= seq![]);
}

/// A label strays at most a hundred pixels from the corner of its cell, which
/// stand 512 pixels apart.
pub proof fn labels_stray_little(r: Room, i: int, j: int)
    requires
        0 <= r.x0,
        0 <= r.y0,
        0 <= i,
        0 <= j,
    ensures
        ({
            let (x, y) = label::cell_place(r, i, j);
            &&& -100 <= x - (r.x0 + 20 + 512 * i) <= 100
            &&& -100 <= y - (r.y0 + 20 + 512 * j) <= 100
            &&& 0 <= x && 0 <= y
        }),
{
}

proof fn lemma_row_scanned(r: Room, x: int, y: int, k: int)
    requires
        label::scan_row(r, x, y) is None,
        0 <= k,
        x + 8 * k <= label::down(r.x1 + 1, r.w),
    ensures
        !label::fits(r, x + 8 * k, y),
    decreases k,
{
    if k > 0 {
        lemma_row_scanned(r, x + 8, y, k - 1);
    }
}

proof fn lemma_scanned(r: Room, y: int, a: int, b: int)
    requires
        label::scan(r, y) is None,
        0 <= a,
        0 <= b,
        r.x0 + 8 * a <= label::down(r.x1 + 1, r.w),
        y + 8 * b <= label::down(r.y1 + 1, r.h),
    ensures
        !label::fits(r, r.x0 + 8 * a, y + 8 * b),
    decreases b,
{
    if b > 0 {
        lemma_scanned(r, y + 8, a, b - 1);
    } else {
        lemma_row_scanned(r, r.x0, y, a);
    }
}

/// A file goes without a label only where there is no room for one, neither in
/// a corner of its box nor at any place of a grid of eight pixels.
pub proof fn no_room_is_overlooked(r: Room, a: int, b: int)
    requires
        label::label_places(r).len() == 0,
        0 <= r.x0,
        0 <= r.y0,
        0 <= r.w,
        0 <= r.h,
        0 <= a,
        0 <= b,
    ensures
        !label::fits(r, r.x0 + 8 * a, r.y0 + 8 * b),
        !label::fits(r, label::down(r.x1 + 1, r.w + 20), r.y0 + 20),
        !label::fits(r, r.x0 + 20, label::down(r.y1 + 1, r.h + 20)),
        !label::fits(r, label::down(r.x1 + 1, r.w + 20), label::down(r.y1 + 1, r.h + 20)),
{
    let x = r.x0 + 8 * a;
    let y = r.y0 + 8 * b;
    if x <= label::down(r.x1 + 1, r.w) && y <= label::down(r.y1 + 1, r.h) {
        lemma_scanned(r, r.y0, a, b);
    }
}

/// A label is the name of the file, cut behind forty characters where it is
/// longer.
pub proof fn labels_begin_with_the_name(p: Seq<char>)
    ensures
        ({
            let l = label::label_of(p);
            match path::file_name(p) {
                Some(n) => (n.len() <= 40 ==> l == n) && (n.len() > 40 ==> l.take(40) == n.take(40)
                    && l.len() == 41 && l[40] == '…'),
                None => l.len() == 0,
            }
        }),
{
    reveal_strlit("…");
    let l = label::label_of(p);
    match path::file_name(p) {
        Some(n) => {
            if n.len() > 40 {
                assert(l.take(40) =~= n.take(40));
            }
        },
        None => {},
    }
}

} // verus!
