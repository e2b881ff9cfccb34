//! Laws of the tensor-by-tensor diff: what every source of the result reads,
//! and that no tensor of either model is left out.

use vstd::prelude::*;
use crate::format::dtype::Dtype;
use crate::format::types;
use crate::format::types::{DiffFill, DiffMetric, TensorMeta};
use crate::hf_url;
use crate::source;
use crate::source::{Source, SourceKind};
use crate::tensor_diff;
use crate::tensor_diff::Located;
use crate::tensor_match;

verus! {

/// The tensor at place `a` of file `f` starts, is typed and is shaped so.
pub open spec fn holds_tensor(
    files: Seq<Vec<TensorMeta>>,
    f: int,
    a: int,
    start: u64,
    dtype: Dtype,
    shape: Seq<u64>,
) -> bool {
    &&& 0 <= f < files.len()
    &&& 0 <= a < files[f]@.len()
    &&& files[f]@[a].file_start == start
    &&& files[f]@[a].dtype == dtype
    &&& files[f]@[a].shape@ == shape
}

/// The tensor at place `a` of file `f` is the first of its name among all files.
pub open spec fn is_first_of_name(files: Seq<Vec<TensorMeta>>, f: int, a: int) -> bool {
    &&& 0 <= f < files.len()
    &&& 0 <= a < files[f]@.len()
    &&& forall|g: int, b: int|
        0 <= g < files.len() && 0 <= b < files[g]@.len() && (g < f || (g == f && b < a))
            ==> (#[trigger] files[g]@[b]).name@ != files[f]@[a].name@
}

/// The tensors of the two models, and what the diff of them was asked to be.
pub open spec fn is_diff_of(
    r: (Vec<Source>, u64),
    orig: Seq<Vec<TensorMeta>>,
    modified: Seq<Vec<TensorMeta>>,
    is_finetune: bool,
    metric: DiffMetric,
) -> bool {
    &&& tensor_diff::counts_fit(tensor_diff::all_tensors(orig))
    &&& tensor_diff::counts_fit(tensor_diff::all_tensors(modified))
    &&& orig.len() <= usize::MAX
    &&& modified.len() <= usize::MAX
    &&& source::planned(
        r,
        tensor_diff::tensor_regions(
            tensor_diff::all_tensors(orig),
            tensor_diff::all_tensors(modified),
            is_finetune,
            metric,
        ),
    )
}

/// How many tensors the files before `f` hold.
spec fn held_before(files: Seq<Vec<TensorMeta>>, f: int) -> int
    decreases f,
{
    if f <= 0 {
        0
    } else {
        held_before(files, f - 1) + files[f - 1]@.len()
    }
}

proof fn lemma_held(files: Seq<Vec<TensorMeta>>, n: int)
    requires
        0 <= n <= files.len(),
    ensures
        tensor_diff::all_tensors(files.take(n)).len() == held_before(files, n),
        held_before(files, n) >= 0,
    decreases n,
{
    if n > 0 {
        lemma_held(files, n - 1);
        assert(files.take(n).drop_last() =~= files.take(n - 1));
    } else {
        assert(files.take(0) =~= seq![]);
    }
}

/// The tensor at place `a` of file `f` in the list of all.
proof fn lemma_at(files: Seq<Vec<TensorMeta>>, f: int, a: int)
    requires
        0 <= f < files.len() <= usize::MAX,
        0 <= a < files[f]@.len(),
    ensures
        0 <= held_before(files, f) + a < tensor_diff::all_tensors(files).len(),
        tensor_diff::all_tensors(files)[held_before(files, f) + a] == (Located {
            file: f as usize,
            tensor: files[f]@[a]@,
        }),
    decreases files.len(),
{
    let n = files.len() as int;
    let init = files.drop_last();
    lemma_held(files, n - 1);
    assert(files.take(n - 1) =~= init);
    lemma_held(files, f);
    if f < n - 1 {
        lemma_at(init, f, a);
        lemma_held_init(files, f);
        assert(init[f] == files[f]);
    } else {
        assert(types::tensors(files[f]@)[a] == files[f]@[a]@);
    }
}

proof fn lemma_held_init(files: Seq<Vec<TensorMeta>>, f: int)
    requires
        0 <= f < files.len(),
    ensures
        held_before(files.drop_last(), f) == held_before(files, f),
    decreases f,
{
    if f > 0 {
        lemma_held_init(files, f - 1);
    }
}

/// Every tensor in the list of all stems from a place of a file.
proof fn lemma_from(files: Seq<Vec<TensorMeta>>, k: int) -> (p: (int, int))
    requires
        0 <= k < tensor_diff::all_tensors(files).len(),
        files.len() <= usize::MAX,
    ensures
        0 <= p.0 < files.len(),
        0 <= p.1 < files[p.0]@.len(),
        k == held_before(files, p.0) + p.1,
        tensor_diff::all_tensors(files)[k] == (Located {
            file: p.0 as usize,
            tensor: files[p.0]@[p.1]@,
        }),
    decreases files.len(),
{
    let n = files.len() as int;
    let init = files.drop_last();
    lemma_held(files, n - 1);
    assert(files.take(n - 1) =~= init);
    if k < tensor_diff::all_tensors(init).len() {
        let p = lemma_from(init, k);
        lemma_held_init(files, p.0);
        assert(init[p.0] == files[p.0]);
        p
    } else {
        let a = k - held_before(files, n - 1);
        assert(types::tensors(files[n - 1]@)[a] == files[n - 1]@[a]@);
        (n - 1, a)
    }
}

/// The first tensor with a name, in the list of all.
proof fn lemma_place_first(ls: Seq<Located>, name: Seq<char>)
    requires
        tensor_diff::names(ls).contains(name),
    ensures
        0 <= tensor_diff::place(ls, name) < ls.len(),
        ls[tensor_diff::place(ls, name)].tensor.name == name,
        forall|k: int|
            0 <= k < tensor_diff::place(ls, name) ==> (#[trigger] ls[k]).tensor.name != name,
    decreases ls.len(),
{
    let init = ls.drop_last();
    let i = choose|i: int| 0 <= i < tensor_diff::names(ls).len() && tensor_diff::names(ls)[i] == name;
    if tensor_diff::names(init).contains(name) {
        lemma_place_first(init, name);
        assert forall|k: int| 0 <= k < tensor_diff::place(ls, name) implies (
        #[trigger] ls[k]).tensor.name != name by {
            assert(init[k] == ls[k]);
        }
    } else {
        lemma_place_absent(init, name);
        if i < ls.len() - 1 {
            assert(tensor_diff::names(init)[i] == name);
        }
        assert forall|k: int| 0 <= k < tensor_diff::place(ls, name) implies (
        #[trigger] ls[k]).tensor.name != name by {
            assert(tensor_diff::names(init)[k] == ls[k].tensor.name);
        }
    }
}

proof fn lemma_place_absent(ls: Seq<Located>, name: Seq<char>)
    requires
        !tensor_diff::names(ls).contains(name),
    ensures
        tensor_diff::place(ls, name) == ls.len(),
    decreases ls.len(),
{
    if ls.len() > 0 {
        let init = ls.drop_last();
        assert forall|k: int| 0 <= k < init.len() implies tensor_diff::names(init)[k] != name by {
            assert(tensor_diff::names(ls)[k] == tensor_diff::names(init)[k]);
        }
        lemma_place_absent(init, name);
        assert(tensor_diff::names(ls)[ls.len() - 1] == ls.last().tensor.name);
    }
}

/// The tensor that a name stands for is the first of that name in the files.
proof fn lemma_named(files: Seq<Vec<TensorMeta>>, name: Seq<char>) -> (p: (int, int))
    requires
        files.len() <= usize::MAX,
        tensor_diff::names(tensor_diff::all_tensors(files)).contains(name),
    ensures
        is_first_of_name(files, p.0, p.1),
        files[p.0]@[p.1].name@ == name,
        tensor_diff::named(tensor_diff::all_tensors(files), name) == (Located {
            file: p.0 as usize,
            tensor: files[p.0]@[p.1]@,
        }),
        tensor_diff::all_tensors(files).contains(
            tensor_diff::named(tensor_diff::all_tensors(files), name),
        ),
{
    let ls = tensor_diff::all_tensors(files);
    lemma_place_first(ls, name);
    let k = tensor_diff::place(ls, name);
    let p = lemma_from(files, k);
    assert forall|g: int, b: int|
        0 <= g < files.len() && 0 <= b < files[g]@.len() && (g < p.0 || (g == p.0 && b < p.1))
            implies (#[trigger] files[g]@[b]).name@ != files[p.0]@[p.1].name@ by {
        lemma_at(files, g, b);
        lemma_held_grows(files, g, p.0);
        assert(ls[held_before(files, g) + b].tensor.name == files[g]@[b].name@);
    }
    p
}

proof fn lemma_held_grows(files: Seq<Vec<TensorMeta>>, g: int, f: int)
    requires
        0 <= g <= f <= files.len(),
    ensures
        g < f ==> held_before(files, g) + files[g]@.len() <= held_before(files, f),
        held_before(files, g) <= held_before(files, f),
    decreases f - g,
{
    if g < f {
        lemma_held_grows(files, g, f - 1);
    }
}

/// The first tensor of a name is the one that the name stands for.
proof fn lemma_first_is_named(files: Seq<Vec<TensorMeta>>, f: int, a: int)
    requires
        files.len() <= usize::MAX,
        is_first_of_name(files, f, a),
    ensures
        tensor_diff::names(tensor_diff::all_tensors(files)).contains(files[f]@[a].name@),
        tensor_diff::named(tensor_diff::all_tensors(files), files[f]@[a].name@) == (Located {
            file: f as usize,
            tensor: files[f]@[a]@,
        }),
{
    let ls = tensor_diff::all_tensors(files);
    let name = files[f]@[a].name@;
    lemma_at(files, f, a);
    assert(tensor_diff::names(ls)[held_before(files, f) + a] == name);
    let p = lemma_named(files, name);
    if p.0 < f || (p.0 == f && p.1 < a) {
        assert(files[p.0]@[p.1].name@ != files[f]@[a].name@);
    } else if f < p.0 || (p.0 == f && a < p.1) {
        assert(files[f]@[a].name@ != files[p.0]@[p.1].name@);
    }
}

proof fn lemma_matched_member(
    o: Seq<Located>,
    m: Seq<Located>,
    ps: Seq<(Seq<char>, Seq<char>)>,
    metric: DiffMetric,
    i: int,
) -> (j: int)
    requires
        0 <= i < tensor_diff::matched_run(o, m, ps, metric).len(),
    ensures
        0 <= j < ps.len(),
        tensor_diff::same_shape(o, m, ps[j]),
        tensor_diff::matched_run(o, m, ps, metric)[i] == tensor_diff::compared_tensors(
            tensor_diff::named(o, ps[j].0),
            tensor_diff::named(m, ps[j].1),
            metric,
        ),
    decreases ps.len(),
{
    let before = tensor_diff::matched_run(o, m, ps.drop_last(), metric);
    if i < before.len() {
        lemma_matched_member(o, m, ps.drop_last(), metric, i)
    } else {
        ps.len() - 1
    }
}

proof fn lemma_matched_found(
    o: Seq<Located>,
    m: Seq<Located>,
    ps: Seq<(Seq<char>, Seq<char>)>,
    metric: DiffMetric,
    j: int,
) -> (i: int)
    requires
        0 <= j < ps.len(),
        tensor_diff::same_shape(o, m, ps[j]),
    ensures
        0 <= i < tensor_diff::matched_run(o, m, ps, metric).len(),
        tensor_diff::matched_run(o, m, ps, metric)[i] == tensor_diff::compared_tensors(
            tensor_diff::named(o, ps[j].0),
            tensor_diff::named(m, ps[j].1),
            metric,
        ),
    decreases ps.len(),
{
    let before = tensor_diff::matched_run(o, m, ps.drop_last(), metric);
    if j < ps.len() - 1 {
        assert(ps.drop_last()[j] == ps[j]);
        lemma_matched_found(o, m, ps.drop_last(), metric, j)
    } else {
        before.len() as int
    }
}

proof fn lemma_lone_member(
    ls: Seq<Located>,
    ns: Seq<Seq<char>>,
    fill: DiffFill,
    prefix: Seq<char>,
    i: int,
) -> (j: int)
    requires
        0 <= i < tensor_diff::lone_run(ls, ns, fill, prefix).len(),
    ensures
        0 <= j < ns.len(),
        tensor_diff::lone_tensor(tensor_diff::named(ls, ns[j]), fill, prefix).len() == 1,
        tensor_diff::lone_run(ls, ns, fill, prefix)[i] == tensor_diff::lone_tensor(
            tensor_diff::named(ls, ns[j]),
            fill,
            prefix,
        )[0],
    decreases ns.len(),
{
    let before = tensor_diff::lone_run(ls, ns.drop_last(), fill, prefix);
    if i < before.len() {
        lemma_lone_member(ls, ns.drop_last(), fill, prefix, i)
    } else {
        ns.len() - 1
    }
}

proof fn lemma_lone_found(
    ls: Seq<Located>,
    ns: Seq<Seq<char>>,
    fill: DiffFill,
    prefix: Seq<char>,
    j: int,
) -> (i: int)
    requires
        0 <= j < ns.len(),
        tensor_diff::elements(tensor_diff::named(ls, ns[j])) > 0,
    ensures
        0 <= i < tensor_diff::lone_run(ls, ns, fill, prefix).len(),
        tensor_diff::lone_run(ls, ns, fill, prefix)[i] == tensor_diff::lone_tensor(
            tensor_diff::named(ls, ns[j]),
            fill,
            prefix,
        )[0],
    decreases ns.len(),
{
    let before = tensor_diff::lone_run(ls, ns.drop_last(), fill, prefix);
    if j < ns.len() - 1 {
        assert(ns.drop_last()[j] == ns[j]);
        lemma_lone_found(ls, ns.drop_last(), fill, prefix, j)
    } else {
        before.len() as int
    }
}

/// The pairs that cannot be compared are those whose shapes differ.
proof fn lemma_reshaped(o: Seq<Located>, m: Seq<Located>, ps: Seq<(Seq<char>, Seq<char>)>)
    ensures
        forall|i: int|
            0 <= i < tensor_diff::reshaped(o, m, ps).len() ==> ps.contains(
                #[trigger] tensor_diff::reshaped(o, m, ps)[i],
            ),
        forall|j: int|
            0 <= j < ps.len() && !tensor_diff::same_shape(o, m, #[trigger] ps[j])
                ==> tensor_diff::reshaped(o, m, ps).contains(ps[j]),
    decreases ps.len(),
{
    if ps.len() > 0 {
        let init = ps.drop_last();
        let n = ps.len() - 1;
        lemma_reshaped(o, m, init);
        let r = tensor_diff::reshaped(o, m, ps);
        let q = tensor_diff::reshaped(o, m, init);
        assert forall|i: int| 0 <= i < r.len() implies ps.contains(#[trigger] r[i]) by {
            if i < q.len() {
                assert(init.contains(q[i]));
                let k = choose|k: int| 0 <= k < init.len() && init[k] == q[i];
                assert(ps[k] == r[i]);
            } else {
                assert(ps[n] == r[i]);
            }
        }
        assert forall|j: int|
            0 <= j < ps.len() && !tensor_diff::same_shape(o, m, #[trigger] ps[j]) implies r.contains(
            ps[j],
        ) by {
            if j < n {
                assert(init[j] == ps[j]);
                assert(q.contains(init[j]));
                let k = choose|k: int| 0 <= k < q.len() && q[k] == ps[j];
                assert(r[k] == ps[j]);
            } else {
                assert(r[q.len() as int] == ps[j]);
            }
        }
    }
}

proof fn lemma_count(ls: Seq<Located>, l: Located)
    requires
        tensor_diff::counts_fit(ls),
        ls.contains(l),
    ensures
        tensor_diff::elements(l) == types::product(l.tensor.shape),
{
    let k = choose|k: int| 0 <= k < ls.len() && ls[k] == l;
    let s = l.tensor.shape;
    assert(types::product_fits(ls[k].tensor.shape));
    assert(s.take(s.len() as int) =~= s);
    assert(types::product(s.take(s.len() as int)) <= u64::MAX);
}

/// What a source without counterpart says: it has the size of one tensor of one
/// model and is named after it.
pub open spec fn stands_for(
    s: Source,
    files: Seq<Vec<TensorMeta>>,
    f: int,
    a: int,
    prefix: Seq<char>,
) -> bool {
    &&& is_first_of_name(files, f, a)
    &&& s.byte_size == types::product(files[f]@[a].shape@)
    &&& s.byte_size > 0
    &&& hf_url::optional_text(s.name_override) == Some(
        prefix + types::tensor_label(files[f]@[a]@),
    )
}

proof fn lemma_lone_stands(
    files: Seq<Vec<TensorMeta>>,
    ns: Seq<Seq<char>>,
    fill: DiffFill,
    prefix: Seq<char>,
    i: int,
    s: Source,
)
    requires
        files.len() <= usize::MAX,
        tensor_diff::counts_fit(tensor_diff::all_tensors(files)),
        forall|j: int|
            0 <= j < ns.len() ==> tensor_diff::names(tensor_diff::all_tensors(files)).contains(
                #[trigger] ns[j],
            ),
        0 <= i < tensor_diff::lone_run(
            tensor_diff::all_tensors(files),
            ns,
            fill,
            prefix,
        ).len(),
        s@ == tensor_diff::lone_run(tensor_diff::all_tensors(files), ns, fill, prefix)[i],
    ensures
        s.kind matches SourceKind::UnmatchedRegion { fill: g } && g == fill,
        exists|f: int, a: int| stands_for(s, files, f, a, prefix),
{
    let ls = tensor_diff::all_tensors(files);
    let j = lemma_lone_member(ls, ns, fill, prefix, i);
    assert(tensor_diff::names(ls).contains(ns[j]));
    let p = lemma_named(files, ns[j]);
    lemma_count(ls, tensor_diff::named(ls, ns[j]));
    assert(stands_for(s, files, p.0, p.1, prefix));
}

/// Every source of the result is of one of three kinds. One that compares
/// carries the metric that was asked for and reads, on either side, the bytes
/// of one tensor, by its own file, start and element type; the two tensors
/// belong to a matched pair and have one shape, whose elements it shows, one
/// byte each. Any other marks a tensor of one side: in green one of the
/// modified model, in grey or red one of the original.
pub proof fn sources_read_their_tensors(
    r: (Vec<Source>, u64),
    orig: Seq<Vec<TensorMeta>>,
    modified: Seq<Vec<TensorMeta>>,
    is_finetune: bool,
    metric: DiffMetric,
    i: int,
)
    requires
        is_diff_of(r, orig, modified, is_finetune, metric),
        0 <= i < r.0@.len(),
    ensures
        match r.0@[i].kind {
            SourceKind::TensorDiff {
                orig_file,
                mod_file,
                orig_start,
                mod_start,
                orig_dtype,
                mod_dtype,
                metric: used,
            } => {
                &&& used == metric
                &&& exists|a: int, b: int, shape: Seq<u64>|
                    {
                        &&& #[trigger] holds_tensor(
                            orig,
                            orig_file as int,
                            a,
                            orig_start,
                            orig_dtype,
                            shape,
                        )
                        &&& #[trigger] holds_tensor(
                            modified,
                            mod_file as int,
                            b,
                            mod_start,
                            mod_dtype,
                            shape,
                        )
                        &&& is_first_of_name(orig, orig_file as int, a)
                        &&& is_first_of_name(modified, mod_file as int, b)
                        &&& r.0@[i].byte_size == types::product(shape)
                        &&& tensor_match::matching(
                            tensor_diff::names(tensor_diff::all_tensors(orig)),
                            tensor_diff::names(tensor_diff::all_tensors(modified)),
                        ).pairs.contains(
                            (
                                orig[orig_file as int]@[a].name@,
                                modified[mod_file as int]@[b].name@,
                            ),
                        )
                    }
            },
            SourceKind::UnmatchedRegion { fill } => if fill == DiffFill::Green {
                exists|f: int, a: int|
                    stands_for(r.0@[i], modified, f, a, "[only in modified] "@)
            } else {
                fill == (if is_finetune {
                    DiffFill::Grey
                } else {
                    DiffFill::Red
                }) && exists|f: int, a: int|
                    stands_for(r.0@[i], orig, f, a, "[only in original] "@)
            },
            _ => false,
        },
{
    let o = tensor_diff::all_tensors(orig);
    let m = tensor_diff::all_tensors(modified);
    let k = tensor_match::matching(tensor_diff::names(o), tensor_diff::names(m));
    let fill = types::fill_of_original(is_finetune);
    let changed = tensor_diff::reshaped(o, m, k.pairs);
    let pa = "[only in original] "@;
    let pb = "[only in modified] "@;
    let a = tensor_diff::matched_run(o, m, k.pairs, metric);
    let b = tensor_diff::lone_run(o, k.orig_only, fill, pa);
    let c = tensor_diff::lone_run(o, tensor_match::firsts(changed), fill, pa);
    let d = tensor_diff::lone_run(m, k.mod_only, DiffFill::Green, pb);
    let e = tensor_diff::lone_run(m, tensor_match::seconds(changed), DiffFill::Green, pb);
    let s = r.0@[i];
    let rs = source::regions(r.0@);
    assert(rs == a + b + c + d + e);
    assert(rs[i] == s@);
    tensor_diff::lemma_names_known(o, m);
    lemma_changed_known(o, m);
    let n1 = a.len() as int;
    let n2 = n1 + b.len();
    let n3 = n2 + c.len();
    let n4 = n3 + d.len();
    if i < n1 {
        let j = lemma_matched_member(o, m, k.pairs, metric, i);
        assert(s@ == a[i]);
        let p = lemma_named(orig, k.pairs[j].0);
        let q = lemma_named(modified, k.pairs[j].1);
        lemma_count(o, tensor_diff::named(o, k.pairs[j].0));
        assert(k.pairs.contains(k.pairs[j]));
        if let SourceKind::TensorDiff {
            orig_file,
            mod_file,
            orig_start,
            mod_start,
            orig_dtype,
            mod_dtype,
            metric: _,
        } = s.kind {
            let shape = orig[p.0]@[p.1].shape@;
            assert(holds_tensor(
                orig,
                orig_file as int,
                p.1,
                orig_start,
                orig_dtype,
                shape,
            ));
            assert(holds_tensor(
                modified,
                mod_file as int,
                q.1,
                mod_start,
                mod_dtype,
                shape,
            ));
        }
    } else if i < n2 {
        assert(s@ == b[i - n1]);
        lemma_lone_stands(orig, k.orig_only, fill, pa, i - n1, s);
    } else if i < n3 {
        assert(s@ == c[i - n2]);
        lemma_lone_stands(orig, tensor_match::firsts(changed), fill, pa, i - n2, s);
    } else if i < n4 {
        assert(s@ == d[i - n3]);
        lemma_lone_stands(modified, k.mod_only, DiffFill::Green, pb, i - n3, s);
    } else {
        assert(s@ == e[i - n4]);
        lemma_lone_stands(
            modified,
            tensor_match::seconds(changed),
            DiffFill::Green,
            pb,
            i - n4,
            s,
        );
    }
}

proof fn lemma_changed_known(o: Seq<Located>, m: Seq<Located>)
    ensures
        ({
            let k = tensor_match::matching(tensor_diff::names(o), tensor_diff::names(m));
            let changed = tensor_diff::reshaped(o, m, k.pairs);
            &&& forall|i: int|
                0 <= i < tensor_match::firsts(changed).len() ==> tensor_diff::names(o).contains(
                    #[trigger] tensor_match::firsts(changed)[i],
                )
            &&& forall|i: int|
                0 <= i < tensor_match::seconds(changed).len() ==> tensor_diff::names(m).contains(
                    #[trigger] tensor_match::seconds(changed)[i],
                )
        }),
{
    let k = tensor_match::matching(tensor_diff::names(o), tensor_diff::names(m));
    let changed = tensor_diff::reshaped(o, m, k.pairs);
    tensor_diff::lemma_names_known(o, m);
    lemma_reshaped(o, m, k.pairs);
    assert forall|i: int| 0 <= i < changed.len() implies tensor_diff::names(o).contains(
        (#[trigger] changed[i]).0,
    ) && tensor_diff::names(m).contains(changed[i].1) by {
        assert(k.pairs.contains(changed[i]));
        let j = choose|j: int| 0 <= j < k.pairs.len() && k.pairs[j] == changed[i];
        assert(tensor_diff::names(o).contains(k.pairs[j].0));
    }
    assert forall|i: int| 0 <= i < tensor_match::firsts(changed).len() implies tensor_diff::names(
        o,
    ).contains(#[trigger] tensor_match::firsts(changed)[i]) by {
        assert(tensor_match::firsts(changed)[i] == changed[i].0);
    }
    assert forall|i: int| 0 <= i < tensor_match::seconds(changed).len() implies tensor_diff::names(
        m,
    ).contains(#[trigger] tensor_match::seconds(changed)[i]) by {
        assert(tensor_match::seconds(changed)[i] == changed[i].1);
    }
}

/// A source reads a tensor on the original's side, or marks it.
pub open spec fn shows_original(s: Source, orig: Seq<Vec<TensorMeta>>, f: int, a: int) -> bool {
    match s.kind {
        SourceKind::TensorDiff { orig_file, orig_start, orig_dtype, .. } => orig_file == f
            && orig_start == orig[f]@[a].file_start && orig_dtype == orig[f]@[a].dtype,
        SourceKind::UnmatchedRegion { fill } => fill != DiffFill::Green && stands_for(
            s,
            orig,
            f,
            a,
            "[only in original] "@,
        ),
        _ => false,
    }
}

/// A source reads a tensor on the modified side, or marks it.
pub open spec fn shows_modified(
    s: Source,
    modified: Seq<Vec<TensorMeta>>,
    f: int,
    a: int,
) -> bool {
    match s.kind {
        SourceKind::TensorDiff { mod_file, mod_start, mod_dtype, .. } => mod_file == f
            && mod_start == modified[f]@[a].file_start && mod_dtype == modified[f]@[a].dtype,
        SourceKind::UnmatchedRegion { fill } => fill == DiffFill::Green && stands_for(
            s,
            modified,
            f,
            a,
            "[only in modified] "@,
        ),
        _ => false,
    }
}

/// No tensor of the original is left out: every one that is the first of its
/// name and has elements is compared or marked.
pub proof fn no_original_tensor_is_left_out(
    r: (Vec<Source>, u64),
    orig: Seq<Vec<TensorMeta>>,
    modified: Seq<Vec<TensorMeta>>,
    is_finetune: bool,
    metric: DiffMetric,
    f: int,
    t: int,
)
    requires
        is_diff_of(r, orig, modified, is_finetune, metric),
        is_first_of_name(orig, f, t),
        types::product(orig[f]@[t].shape@) > 0,
    ensures
        exists|i: int| 0 <= i < r.0@.len() && #[trigger] shows_original(r.0@[i], orig, f, t),
{
    let o = tensor_diff::all_tensors(orig);
    let m = tensor_diff::all_tensors(modified);
    let k = tensor_match::matching(tensor_diff::names(o), tensor_diff::names(m));
    let fill = types::fill_of_original(is_finetune);
    let changed = tensor_diff::reshaped(o, m, k.pairs);
    let pa = "[only in original] "@;
    let pb = "[only in modified] "@;
    let a = tensor_diff::matched_run(o, m, k.pairs, metric);
    let b = tensor_diff::lone_run(o, k.orig_only, fill, pa);
    let c = tensor_diff::lone_run(o, tensor_match::firsts(changed), fill, pa);
    let d = tensor_diff::lone_run(m, k.mod_only, DiffFill::Green, pb);
    let e = tensor_diff::lone_run(m, tensor_match::seconds(changed), DiffFill::Green, pb);
    let rs = source::regions(r.0@);
    assert(rs == a + b + c + d + e);
    let name = orig[f]@[t].name@;
    lemma_first_is_named(orig, f, t);
    let l = tensor_diff::named(o, name);
    let _p = lemma_named(orig, name);
    lemma_count(o, l);
    tensor_match::matching_is_one_to_one(tensor_diff::names(o), tensor_diff::names(m));
    let all = tensor_match::firsts(k.pairs) + k.orig_only;
    assert(all.contains(name));
    let x = choose|x: int| 0 <= x < all.len() && all[x] == name;
    lemma_reshaped(o, m, k.pairs);
    let at: int = if x < k.pairs.len() {
        assert(k.pairs[x].0 == name);
        if tensor_diff::same_shape(o, m, k.pairs[x]) {
            lemma_matched_found(o, m, k.pairs, metric, x)
        } else {
            assert(changed.contains(k.pairs[x]));
            let y = choose|y: int| 0 <= y < changed.len() && changed[y] == k.pairs[x];
            assert(tensor_match::firsts(changed)[y] == name);
            a.len() + b.len() + lemma_lone_found(o, tensor_match::firsts(changed), fill, pa, y)
        }
    } else {
        a.len() + lemma_lone_found(o, k.orig_only, fill, pa, x - k.pairs.len())
    };
    assert(rs[at] == r.0@[at]@);
    assert(shows_original(r.0@[at], orig, f, t));
}

/// No tensor of the modified model is left out: every one that is the first of
/// its name and has elements is compared or marked.
pub proof fn no_modified_tensor_is_left_out(
    r: (Vec<Source>, u64),
    orig: Seq<Vec<TensorMeta>>,
    modified: Seq<Vec<TensorMeta>>,
    is_finetune: bool,
    metric: DiffMetric,
    f: int,
    t: int,
)
    requires
        is_diff_of(r, orig, modified, is_finetune, metric),
        is_first_of_name(modified, f, t),
        types::product(modified[f]@[t].shape@) > 0,
    ensures
        exists|i: int|
            0 <= i < r.0@.len() && #[trigger] shows_modified(r.0@[i], modified, f, t),
{
    let o = tensor_diff::all_tensors(orig);
    let m = tensor_diff::all_tensors(modified);
    let k = tensor_match::matching(tensor_diff::names(o), tensor_diff::names(m));
    let fill = types::fill_of_original(is_finetune);
    let changed = tensor_diff::reshaped(o, m, k.pairs);
    let pa = "[only in original] "@;
    let pb = "[only in modified] "@;
    let a = tensor_diff::matched_run(o, m, k.pairs, metric);
    let b = tensor_diff::lone_run(o, k.orig_only, fill, pa);
    let c = tensor_diff::lone_run(o, tensor_match::firsts(changed), fill, pa);
    let d = tensor_diff::lone_run(m, k.mod_only, DiffFill::Green, pb);
    let e = tensor_diff::lone_run(m, tensor_match::seconds(changed), DiffFill::Green, pb);
    let rs = source::regions(r.0@);
    assert(rs == a + b + c + d + e);
    let name = modified[f]@[t].name@;
    lemma_first_is_named(modified, f, t);
    let l = tensor_diff::named(m, name);
    let _p = lemma_named(modified, name);
    lemma_count(m, l);
    tensor_match::matching_is_one_to_one(tensor_diff::names(o), tensor_diff::names(m));
    let all = tensor_match::seconds(k.pairs) + k.mod_only;
    assert(all.contains(name));
    let x = choose|x: int| 0 <= x < all.len() && all[x] == name;
    lemma_reshaped(o, m, k.pairs);
    let at: int = if x < k.pairs.len() {
        assert(k.pairs[x].1 == name);
        if tensor_diff::same_shape(o, m, k.pairs[x]) {
            lemma_matched_found(o, m, k.pairs, metric, x)
        } else {
            assert(changed.contains(k.pairs[x]));
            let y = choose|y: int| 0 <= y < changed.len() && changed[y] == k.pairs[x];
            assert(tensor_match::seconds(changed)[y] == name);
            a.len() + b.len() + c.len() + d.len() + lemma_lone_found(
                m,
                tensor_match::seconds(changed),
                DiffFill::Green,
                pb,
                y,
            )
        }
    } else {
        a.len() + b.len() + c.len() + lemma_lone_found(
            m,
            k.mod_only,
            DiffFill::Green,
            pb,
            x - k.pairs.len(),
        )
    };
    assert(rs[at] == r.0@[at]@);
    assert(shows_modified(r.0@[at], modified, f, t));
}

/// Two tensors of one name and one shape are compared with each other, with the
/// metric that was asked for.
pub proof fn same_tensors_are_compared(
    r: (Vec<Source>, u64),
    orig: Seq<Vec<TensorMeta>>,
    modified: Seq<Vec<TensorMeta>>,
    is_finetune: bool,
    metric: DiffMetric,
    f: int,
    t: int,
    g: int,
    u: int,
)
    requires
        is_diff_of(r, orig, modified, is_finetune, metric),
        is_first_of_name(orig, f, t),
        is_first_of_name(modified, g, u),
        orig[f]@[t].name@ == modified[g]@[u].name@,
        orig[f]@[t].shape@ == modified[g]@[u].shape@,
    ensures
        exists|i: int|
            {
                &&& 0 <= i < r.0@.len()
                &&& (#[trigger] r.0@[i]).kind == (SourceKind::TensorDiff {
                    orig_file: f as usize,
                    mod_file: g as usize,
                    orig_start: orig[f]@[t].file_start,
                    mod_start: modified[g]@[u].file_start,
                    orig_dtype: orig[f]@[t].dtype,
                    mod_dtype: modified[g]@[u].dtype,
                    metric,
                })
                &&& r.0@[i].byte_size == types::product(orig[f]@[t].shape@)
            },
{
    let o = tensor_diff::all_tensors(orig);
    let m = tensor_diff::all_tensors(modified);
    let k = tensor_match::matching(tensor_diff::names(o), tensor_diff::names(m));
    let name = orig[f]@[t].name@;
    lemma_first_is_named(orig, f, t);
    lemma_first_is_named(modified, g, u);
    let _p = lemma_named(orig, name);
    lemma_count(o, tensor_diff::named(o, name));
    tensor_match::same_names_match(tensor_diff::names(o), tensor_diff::names(m), name);
    let x = choose|x: int| 0 <= x < k.pairs.len() && k.pairs[x] == (name, name);
    let at = lemma_matched_found(o, m, k.pairs, metric, x);
    assert(source::regions(r.0@)[at] == r.0@[at]@);
}

} // verus!
