//! What the sources of an invocation read, and how a byte diff is scaled.

use vstd::prelude::*;
use crate::source;
use crate::source::{InputFile, InputSpec, Source, SourceKind};

verus! {

/// The file can be shown: it is remote, or its size could be read.
pub open spec fn readable(f: InputFile) -> bool {
    f.spec is Remote || f.size is Some
}

/// How many of the first `k` files can be shown.
pub open spec fn readable_before(fs: Seq<InputFile>, k: int) -> int
    decreases k,
{
    if k <= 0 {
        0
    } else {
        readable_before(fs, k - 1) + (if readable(fs[k - 1]) {
            1int
        } else {
            0
        })
    }
}

/// The source reads the file, all of it, under the file's own name, and with
/// the file's header.
pub open spec fn reads_file(s: Source, f: InputFile) -> bool {
    &&& match f.spec {
        InputSpec::Local(p) => s.kind matches SourceKind::File(q) && q@ == p@ && f.size == Some(
            s.byte_size,
        ),
        InputSpec::Remote(t) => s.kind matches SourceKind::Http(u) && u@ == t@ && s.byte_size
            == t.size,
    }
    &&& source::model_of(s.safetensors) == source::model_of(f.safetensors)
    &&& s.name_override is None
}

proof fn lemma_input_regions(fs: Seq<InputFile>, k: int)
    requires
        0 <= k <= fs.len(),
    ensures
        source::input_regions(fs.take(k)).len() == readable_before(fs, k),
        forall|j: int|
            0 <= j < k && readable(#[trigger] fs[j]) ==> 0 <= readable_before(fs, j)
                < readable_before(fs, k) && Some(
                source::input_regions(fs.take(k))[readable_before(fs, j)],
            ) == source::input_region(fs[j]),
    decreases k,
{
    if k > 0 {
        lemma_input_regions(fs, k - 1);
        assert(fs.take(k).drop_last() =~= fs.take(k - 1));
        assert(fs.take(k).last() == fs[k - 1]);
        assert forall|j: int| 0 <= j < k && readable(#[trigger] fs[j]) implies 0
            <= readable_before(fs, j) < readable_before(fs, k) && Some(
            source::input_regions(fs.take(k))[readable_before(fs, j)],
        ) == source::input_region(fs[j]) by {
            if j == k - 1 {
                assert(source::input_regions(fs.take(k - 1)).len() == readable_before(fs, j));
            }
        }
    } else {
        assert(fs.take(0) =~= seq![]);
    }
}

/// The files of an invocation become its sources one for one and in order:
/// each file that can be shown is read by the source that as many others come
/// before, and there are no further sources.
pub proof fn files_become_sources(files: Seq<InputFile>, r: (Vec<Source>, u64), k: int)
    requires
        source::planned(r, source::input_regions(files)),
        0 <= k < files.len(),
    ensures
        r.0@.len() == readable_before(files, files.len() as int),
        readable(files[k]) ==> 0 <= readable_before(files, k) < r.0@.len() && reads_file(
            r.0@[readable_before(files, k)],
            files[k],
        ) && r.0@[readable_before(files, k)].file_idx == readable_before(files, k),
{
    let n = files.len() as int;
    lemma_input_regions(files, n);
    assert(files.take(n) =~= files);
    let i = readable_before(files, k);
    if readable(files[k]) {
        let s = r.0@[i];
        assert(source::regions(r.0@)[i] == s@);
        assert(Some(s@) == source::input_region(files[k]));
    }
}

/// A byte diff is the step scaled to the levels on either side of 127 and
/// rounded to the nearest: it is off by at most half a level.
pub proof fn diff_levels_round_to_nearest(a: u8, b: u8)
    ensures
        -255 <= 510 * (source::diff_level(a, b) - 127) - 254 * (b - a) <= 255,
{
}

/// The bytes of all sources together: those of one list and of another add up,
/// and one source alone counts its own.
pub proof fn totals_add_up(a: Seq<source::Region>, b: Seq<source::Region>, r: source::Region)
    ensures
        source::total_size(a + b) == source::total_size(a) + source::total_size(b),
        source::total_size(seq![r]) == r.size,
{
    source::lemma_total_concat(a, b);
    reveal_with_fuel(source::total_size, 2);
    assert(seq![r].drop_last() =~= seq![]);
}

/// A source that was copied to the local disk is shown as it was before: under
/// the same name, with the same bytes and the same header.
pub proof fn copies_keep_their_name(s: Source, t: Source, path: Seq<char>)
    requires
        t@ == (source::Region {
            storage: source::Storage::File(path),
            name: Some(source::region_name(s@)),
            ..s@
        }),
    ensures
        source::region_name(t@) == source::region_name(s@),
        t.byte_size == s.byte_size,
        t.kind matches SourceKind::File(p) && p@ == path,
{
}

} // verus!
