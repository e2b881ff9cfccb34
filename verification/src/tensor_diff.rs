//! The diff of two models, tensor by tensor, over all their files.

use vstd::prelude::*;
use vstd::string::StringExecFns;
use crate::format::types;
use crate::format::types::{element_count, DiffFill, DiffMetric, TensorMeta};
use crate::order;
use crate::source;
use crate::source::{push_source, Source, SourceKind};
use crate::tensor_match;
use crate::tensor_match::find_matched_tensor_pairs;
use crate::text::str_eq;

verus! {

/// A tensor with the file that holds it.
#[derive(Debug)]
pub struct LocatedTensor {
    pub file: usize,
    pub meta: TensorMeta,
}

/// What a tensor and its file stand for.
pub ghost struct Located {
    pub file: usize,
    pub tensor: types::Tensor,
}

impl View for LocatedTensor {
    type V = Located;

    open spec fn view(&self) -> Located {
        Located { file: self.file, tensor: self.meta@ }
    }
}

/// The tensors of a list.
pub open spec fn located(v: Seq<LocatedTensor>) -> Seq<Located> {
    v.map_values(|t: LocatedTensor| t@)
}

/// The tensors of one file.
pub open spec fn tensors_of_file(file: usize, ts: Seq<types::Tensor>) -> Seq<Located> {
    ts.map_values(|t: types::Tensor| Located { file, tensor: t })
}

/// The tensors of all files, in order.
pub open spec fn all_tensors(files: Seq<Vec<TensorMeta>>) -> Seq<Located>
    decreases files.len(),
{
    if files.len() == 0 {
        seq![]
    } else {
        all_tensors(files.drop_last()) + tensors_of_file(
            (files.len() - 1) as usize,
            types::tensors(files.last()@),
        )
    }
}

/// The names of the tensors.
pub open spec fn names(ls: Seq<Located>) -> Seq<Seq<char>> {
    ls.map_values(|l: Located| l.tensor.name)
}

/// The place of the first tensor with a name; the length where there is none.
pub open spec fn place(ls: Seq<Located>, name: Seq<char>) -> int
    decreases ls.len(),
{
    if ls.len() == 0 {
        0
    } else if place(ls.drop_last(), name) < ls.len() - 1 {
        place(ls.drop_last(), name)
    } else if ls.last().tensor.name == name {
        ls.len() - 1
    } else {
        ls.len() as int
    }
}

/// The first tensor with a name.
pub open spec fn named(ls: Seq<Located>, name: Seq<char>) -> Located {
    ls[place(ls, name)]
}

/// Whether the two tensors of a pair can be compared element by element.
pub open spec fn same_shape(o: Seq<Located>, m: Seq<Located>, p: (Seq<char>, Seq<char>)) -> bool {
    named(o, p.0).tensor.shape == named(m, p.1).tensor.shape
}

/// The number of elements of a tensor.
pub open spec fn elements(l: Located) -> u64 {
    types::product(l.tensor.shape) as u64
}

/// The stretch of two tensors that are compared: one byte per element.
pub open spec fn compared_tensors(a: Located, b: Located, metric: DiffMetric) -> source::Region {
    source::plain_region(
        source::Storage::TensorDiff {
            orig_file: a.file,
            mod_file: b.file,
            orig_start: a.tensor.start,
            mod_start: b.tensor.start,
            orig_dtype: a.tensor.dtype,
            mod_dtype: b.tensor.dtype,
            metric,
        },
        elements(a),
        Some(types::tensor_label(a.tensor)),
    )
}

/// The stretch of a tensor that stands alone, unless it is empty.
pub open spec fn lone_tensor(l: Located, fill: DiffFill, prefix: Seq<char>) -> Seq<source::Region> {
    if elements(l) > 0 {
        seq![
            source::plain_region(
                source::Storage::UnmatchedRegion { fill },
                elements(l),
                Some(prefix + types::tensor_label(l.tensor)),
            ),
        ]
    } else {
        seq![]
    }
}

/// The stretches of the pairs that can be compared.
pub open spec fn matched_run(
    o: Seq<Located>,
    m: Seq<Located>,
    ps: Seq<(Seq<char>, Seq<char>)>,
    metric: DiffMetric,
) -> Seq<source::Region>
    decreases ps.len(),
{
    if ps.len() == 0 {
        seq![]
    } else {
        let before = matched_run(o, m, ps.drop_last(), metric);
        if same_shape(o, m, ps.last()) {
            before.push(compared_tensors(named(o, ps.last().0), named(m, ps.last().1), metric))
        } else {
            before
        }
    }
}

/// The stretches of tensors that stand alone.
pub open spec fn lone_run(
    ls: Seq<Located>,
    ns: Seq<Seq<char>>,
    fill: DiffFill,
    prefix: Seq<char>,
) -> Seq<source::Region>
    decreases ns.len(),
{
    if ns.len() == 0 {
        seq![]
    } else {
        lone_run(ls, ns.drop_last(), fill, prefix) + lone_tensor(
            named(ls, ns.last()),
            fill,
            prefix,
        )
    }
}

/// The pairs that cannot be compared.
pub open spec fn reshaped(
    o: Seq<Located>,
    m: Seq<Located>,
    ps: Seq<(Seq<char>, Seq<char>)>,
) -> Seq<(Seq<char>, Seq<char>)>
    decreases ps.len(),
{
    if ps.len() == 0 {
        seq![]
    } else if same_shape(o, m, ps.last()) {
        reshaped(o, m, ps.drop_last())
    } else {
        reshaped(o, m, ps.drop_last()).push(ps.last())
    }
}

/// What two models put on the canvas: the matched tensors of one shape, then
/// what only the original has, with its side of the pairs whose shape changed,
/// then the same of the modified model.
pub open spec fn tensor_regions(
    o: Seq<Located>,
    m: Seq<Located>,
    is_finetune: bool,
    metric: DiffMetric,
) -> Seq<source::Region> {
    let r = tensor_match::matching(names(o), names(m));
    let fill = types::fill_of_original(is_finetune);
    let changed = reshaped(o, m, r.pairs);
    matched_run(o, m, r.pairs, metric) + lone_run(o, r.orig_only, fill, "[only in original] "@)
        + lone_run(o, tensor_match::firsts(changed), fill, "[only in original] "@) + lone_run(
        m,
        r.mod_only,
        DiffFill::Green,
        "[only in modified] "@,
    ) + lone_run(
        m,
        tensor_match::seconds(changed),
        DiffFill::Green,
        "[only in modified] "@,
    )
}

/// No tensor has more elements than 64 bits hold.
pub open spec fn counts_fit(ls: Seq<Located>) -> bool {
    forall|i: int| 0 <= i < ls.len() ==> types::product_fits((#[trigger] ls[i]).tensor.shape)
}

fn locate(files: &Vec<Vec<TensorMeta>>) -> (r: Vec<LocatedTensor>)
    ensures
        located(r@) == all_tensors(files@),
{
    let mut out: Vec<LocatedTensor> = Vec::new();
    let mut i: usize = 0;
    assert(files@.take(0) =~= seq![]);
    assert(located(out@) =~= seq![]);
    while i < files.len()
        invariant
            i <= files@.len(),
            located(out@) == all_tensors(files@.take(i as int)),
        decreases files@.len() - i,
    {
        let ghost was = located(out@);
        let ghost ts = tensors_of_file(i, types::tensors(files@[i as int]@));
        let mut j: usize = 0;
        assert(was + ts.take(0) =~= was);
        while j < files[i].len()
            invariant
                i < files@.len(),
                j <= files@[i as int]@.len(),
                ts == tensors_of_file(i, types::tensors(files@[i as int]@)),
                ts.len() == files@[i as int]@.len(),
                located(out@) == was + ts.take(j as int),
            decreases files@[i as int]@.len() - j,
        {
            let t = LocatedTensor { file: i, meta: files[i][j].clone() };
            assert(t@ == ts[j as int]);
            let ghost here = located(out@);
            out.push(t);
            assert(located(out@) =~= here.push(ts[j as int]));
            assert(located(out@) =~= was + ts.take(j + 1));
            j = j + 1;
        }
        assert(ts.take(j as int) =~= ts);
        assert(files@.take(i + 1).drop_last() =~= files@.take(i as int));
        assert(files@.take(i + 1).last() == files@[i as int]);
        assert(files.len() == files@.len());
        i = i + 1;
    }
    assert(files@.take(i as int) =~= files@);
    out
}

fn names_of(ls: &Vec<LocatedTensor>) -> (r: Vec<String>)
    ensures
        order::texts(r@) == names(located(ls@)),
{
    let mut out: Vec<String> = Vec::new();
    let mut i: usize = 0;
    while i < ls.len()
        invariant
            i <= ls@.len(),
            out@.len() == i,
            forall|j: int| 0 <= j < i ==> (#[trigger] out@[j])@ == ls@[j].meta.name@,
        decreases ls@.len() - i,
    {
        out.push(ls[i].meta.name.clone());
        i = i + 1;
    }
    assert(order::texts(out@) =~= names(located(ls@)));
    out
}

proof fn lemma_place(ls: Seq<Located>, name: Seq<char>)
    ensures
        0 <= place(ls, name) <= ls.len(),
        names(ls).contains(name) ==> place(ls, name) < ls.len(),
    decreases ls.len(),
{
    if ls.len() > 0 {
        lemma_place(ls.drop_last(), name);
        if names(ls).contains(name) {
            let i = choose|i: int| 0 <= i < names(ls).len() && names(ls)[i] == name;
            if i < ls.len() - 1 {
                assert(names(ls.drop_last())[i] == name);
                assert(names(ls.drop_last()).contains(name));
            }
        }
    }
}

fn find_tensor(ls: &Vec<LocatedTensor>, name: &str) -> (i: usize)
    requires
        names(located(ls@)).contains(name@),
    ensures
        i < ls@.len(),
        i == place(located(ls@), name@),
        named(located(ls@), name@) == ls@[i as int]@,
{
    let ghost all = located(ls@);
    let mut found: usize = ls.len();
    let mut i: usize = 0;
    assert(all.take(0) =~= seq![]);
    while i < ls.len()
        invariant
            i <= ls@.len(),
            all == located(ls@),
            found < i || found == ls@.len(),
            place(all.take(i as int), name@) == (if found < i {
                found as int
            } else {
                i as int
            }),
        decreases ls@.len() - i,
    {
        assert(all.take(i + 1).drop_last() =~= all.take(i as int));
        assert(all.take(i + 1).last() == ls@[i as int]@);
        if found == ls.len() && str_eq(ls[i].meta.name.as_str(), name) {
            found = i;
        }
        i = i + 1;
    }
    proof {
        assert(all.take(i as int) =~= all);
        lemma_place(all, name@);
    }
    found
}

fn shapes_agree(a: &Vec<u64>, b: &Vec<u64>) -> (r: bool)
    ensures
        r == (a@ == b@),
{
    if a.len() != b.len() {
        return false;
    }
    let mut i: usize = 0;
    while i < a.len()
        invariant
            i <= a@.len(),
            a@.len() == b@.len(),
            forall|j: int| 0 <= j < i ==> a@[j] == b@[j],
        decreases a@.len() - i,
    {
        if a[i] != b[i] {
            return false;
        }
        i = i + 1;
    }
    assert(a@ =~= b@);
    true
}

proof fn lemma_count_fits(l: Located)
    requires
        types::product_fits(l.tensor.shape),
    ensures
        elements(l) == types::product(l.tensor.shape),
{
    let s = l.tensor.shape;
    assert(s.take(s.len() as int) =~= s);
    assert(types::product(s.take(s.len() as int)) <= u64::MAX);
}

/// Appends tensors that stand alone.
fn push_lone_run(
    out: &mut Vec<Source>,
    total: &mut u64,
    ls: &Vec<LocatedTensor>,
    ns: &Vec<String>,
    fill: DiffFill,
    prefix: &str,
)
    requires
        counts_fit(located(ls@)),
        forall|i: int| 0 <= i < ns@.len() ==> names(located(ls@)).contains((#[trigger] ns@[i])@),
        source::indexed(old(out)@),
        *old(total) == source::total_size(source::regions(old(out)@)),
        *old(total) + source::total_size(
            lone_run(located(ls@), order::texts(ns@), fill, prefix@),
        ) <= u64::MAX,
    ensures
        source::indexed(final(out)@),
        source::regions(final(out)@) == source::regions(old(out)@) + lone_run(
            located(ls@),
            order::texts(ns@),
            fill,
            prefix@,
        ),
        *final(total) == source::total_size(source::regions(final(out)@)),
{
    let ghost all = located(ls@);
    let ghost ts = order::texts(ns@);
    let ghost was = source::regions(out@);
    let mut i: usize = 0;
    assert(ts.take(0) =~= seq![]);
    assert(was + seq![] =~= was);
    while i < ns.len()
        invariant
            i <= ns@.len(),
            all == located(ls@),
            ts == order::texts(ns@),
            counts_fit(all),
            forall|j: int| 0 <= j < ns@.len() ==> names(all).contains((#[trigger] ns@[j])@),
            source::total_size(was) + source::total_size(lone_run(all, ts, fill, prefix@))
                <= u64::MAX,
            source::indexed(out@),
            source::regions(out@) == was + lone_run(all, ts.take(i as int), fill, prefix@),
            *total == source::total_size(source::regions(out@)),
        decreases ns@.len() - i,
    {
        let k: usize = find_tensor(ls, ns[i].as_str());
        let t = &ls[k].meta;
        let ghost done = lone_run(all, ts.take(i as int), fill, prefix@);
        let ghost rs = lone_tensor(named(all, ns@[i as int]@), fill, prefix@);
        proof {
            assert(all[k as int] == ls@[k as int]@);
            lemma_count_fits(all[k as int]);
            assert(ts.take(i + 1).drop_last() =~= ts.take(i as int));
            lemma_lone_prefix(all, ts, fill, prefix@, i + 1);
            source::lemma_total_concat(done, rs);
            source::lemma_total_concat(was, done);
            lemma_lone_total(named(all, ns@[i as int]@), fill, prefix@);
        }
        let n: u64 = element_count(&t.shape);
        if n > 0 {
            push_source(
                out,
                total,
                SourceKind::UnmatchedRegion { fill },
                n,
                Some(prefix.to_owned().concat(t.label().as_str())),
            );
        }
        assert(source::regions(out@) =~= was + (done + rs));
        i = i + 1;
    }
    assert(ts.take(i as int) =~= ts);
}

proof fn lemma_lone_total(l: Located, fill: DiffFill, prefix: Seq<char>)
    ensures
        source::total_size(lone_tensor(l, fill, prefix)) == elements(l),
{
    reveal_with_fuel(source::total_size, 2);
    if elements(l) > 0 {
        assert(lone_tensor(l, fill, prefix).drop_last() =~= seq![]);
    }
}

proof fn lemma_lone_prefix(
    ls: Seq<Located>,
    ns: Seq<Seq<char>>,
    fill: DiffFill,
    prefix: Seq<char>,
    n: int,
)
    requires
        0 <= n <= ns.len(),
    ensures
        source::total_size(lone_run(ls, ns.take(n), fill, prefix)) <= source::total_size(
            lone_run(ls, ns, fill, prefix),
        ),
    decreases ns.len() - n,
{
    if n < ns.len() {
        lemma_lone_prefix(ls, ns, fill, prefix, n + 1);
        assert(ns.take(n + 1).drop_last() =~= ns.take(n));
        source::lemma_total_concat(
            lone_run(ls, ns.take(n), fill, prefix),
            lone_tensor(named(ls, ns[n]), fill, prefix),
        );
    } else {
        assert(ns.take(n) =~= ns);
    }
}

proof fn lemma_matched_prefix(
    o: Seq<Located>,
    m: Seq<Located>,
    ps: Seq<(Seq<char>, Seq<char>)>,
    metric: DiffMetric,
    n: int,
)
    requires
        0 <= n <= ps.len(),
    ensures
        source::total_size(matched_run(o, m, ps.take(n), metric)) <= source::total_size(
            matched_run(o, m, ps, metric),
        ),
    decreases ps.len() - n,
{
    if n < ps.len() {
        lemma_matched_prefix(o, m, ps, metric, n + 1);
        assert(ps.take(n + 1).drop_last() =~= ps.take(n));
        let before = matched_run(o, m, ps.take(n), metric);
        let r = compared_tensors(named(o, ps[n].0), named(m, ps[n].1), metric);
        assert(before.push(r).drop_last() =~= before);
    } else {
        assert(ps.take(n) =~= ps);
    }
}

/// Appends the pairs that can be compared and returns the names of the others,
/// those of the original and those of the modified model.
fn push_matched_run(
    out: &mut Vec<Source>,
    total: &mut u64,
    o: &Vec<LocatedTensor>,
    m: &Vec<LocatedTensor>,
    pairs: &Vec<(String, String)>,
    metric: DiffMetric,
) -> (others: (Vec<String>, Vec<String>))
    requires
        counts_fit(located(o@)),
        forall|i: int|
            0 <= i < pairs@.len() ==> names(located(o@)).contains((#[trigger] pairs@[i]).0@)
                && names(located(m@)).contains(pairs@[i].1@),
        source::indexed(old(out)@),
        *old(total) == source::total_size(source::regions(old(out)@)),
        *old(total) + source::total_size(
            matched_run(
                located(o@),
                located(m@),
                tensor_match::pair_texts(pairs@),
                metric,
            ),
        ) <= u64::MAX,
    ensures
        source::indexed(final(out)@),
        source::regions(final(out)@) == source::regions(old(out)@) + matched_run(
            located(o@),
            located(m@),
            tensor_match::pair_texts(pairs@),
            metric,
        ),
        *final(total) == source::total_size(source::regions(final(out)@)),
        ({
            let changed = reshaped(
                located(o@),
                located(m@),
                tensor_match::pair_texts(pairs@),
            );
            &&& order::texts(others.0@) == tensor_match::firsts(changed)
            &&& order::texts(others.1@) == tensor_match::seconds(changed)
        }),
        forall|i: int|
            0 <= i < others.0@.len() ==> names(located(o@)).contains((#[trigger] others.0@[i])@),
        forall|i: int|
            0 <= i < others.1@.len() ==> names(located(m@)).contains((#[trigger] others.1@[i])@),
{
    let ghost os = located(o@);
    let ghost ms = located(m@);
    let ghost ps = tensor_match::pair_texts(pairs@);
    let ghost was = source::regions(out@);
    let mut firsts: Vec<String> = Vec::new();
    let mut seconds: Vec<String> = Vec::new();
    let mut i: usize = 0;
    assert(ps.take(0) =~= seq![]);
    assert(was + seq![] =~= was);
    assert(order::texts(firsts@) =~= tensor_match::firsts(reshaped(os, ms, ps.take(0))));
    assert(order::texts(seconds@) =~= tensor_match::seconds(reshaped(os, ms, ps.take(0))));
    while i < pairs.len()
        invariant
            i <= pairs@.len(),
            os == located(o@),
            ms == located(m@),
            ps == tensor_match::pair_texts(pairs@),
            counts_fit(os),
            forall|j: int|
                0 <= j < pairs@.len() ==> names(os).contains((#[trigger] pairs@[j]).0@) && names(
                    ms,
                ).contains(pairs@[j].1@),
            source::total_size(was) + source::total_size(matched_run(os, ms, ps, metric))
                <= u64::MAX,
            source::indexed(out@),
            source::regions(out@) == was + matched_run(os, ms, ps.take(i as int), metric),
            *total == source::total_size(source::regions(out@)),
            order::texts(firsts@) == tensor_match::firsts(reshaped(os, ms, ps.take(i as int))),
            order::texts(seconds@) == tensor_match::seconds(reshaped(os, ms, ps.take(i as int))),
            forall|j: int|
                0 <= j < firsts@.len() ==> names(os).contains((#[trigger] firsts@[j])@),
            forall|j: int|
                0 <= j < seconds@.len() ==> names(ms).contains((#[trigger] seconds@[j])@),
        decreases pairs@.len() - i,
    {
        let a: usize = find_tensor(o, pairs[i].0.as_str());
        let b: usize = find_tensor(m, pairs[i].1.as_str());
        let ta = &o[a];
        let tb = &m[b];
        let ghost done = matched_run(os, ms, ps.take(i as int), metric);
        let ghost r = compared_tensors(ta@, tb@, metric);
        let ghost changed = reshaped(os, ms, ps.take(i as int));
        let ghost was_firsts = order::texts(firsts@);
        let ghost was_seconds = order::texts(seconds@);
        proof {
            assert(os[a as int] == ta@);
            lemma_count_fits(os[a as int]);
            assert(ps.take(i + 1).drop_last() =~= ps.take(i as int));
            assert(ps.take(i + 1).last() == (pairs@[i as int].0@, pairs@[i as int].1@));
            lemma_matched_prefix(os, ms, ps, metric, i + 1);
            source::lemma_total_concat(was, done);
            assert(done.push(r).drop_last() =~= done);
        }
        if shapes_agree(&ta.meta.shape, &tb.meta.shape) {
            let n: u64 = element_count(&ta.meta.shape);
            push_source(
                out,
                total,
                SourceKind::TensorDiff {
                    orig_file: ta.file,
                    mod_file: tb.file,
                    orig_start: ta.meta.file_start,
                    mod_start: tb.meta.file_start,
                    orig_dtype: ta.meta.dtype,
                    mod_dtype: tb.meta.dtype,
                    metric,
                },
                n,
                Some(ta.meta.label()),
            );
            assert(source::regions(out@) =~= was + done.push(r));
        } else {
            firsts.push(pairs[i].0.clone());
            seconds.push(pairs[i].1.clone());
            let ghost p = (pairs@[i as int].0@, pairs@[i as int].1@);
            assert(order::texts(firsts@) =~= was_firsts.push(p.0));
            assert(order::texts(seconds@) =~= was_seconds.push(p.1));
            assert(tensor_match::firsts(changed.push(p)) =~= was_firsts.push(p.0));
            assert(tensor_match::seconds(changed.push(p)) =~= was_seconds.push(p.1));
        }
        i = i + 1;
    }
    assert(ps.take(i as int) =~= ps);
    (firsts, seconds)
}

pub(crate) proof fn lemma_names_known(o: Seq<Located>, m: Seq<Located>)
    ensures
        ({
            let r = tensor_match::matching(names(o), names(m));
            &&& forall|i: int|
                0 <= i < r.pairs.len() ==> names(o).contains((#[trigger] r.pairs[i]).0) && names(
                    m,
                ).contains(r.pairs[i].1)
            &&& forall|i: int|
                0 <= i < r.orig_only.len() ==> names(o).contains(#[trigger] r.orig_only[i])
            &&& forall|i: int|
                0 <= i < r.mod_only.len() ==> names(m).contains(#[trigger] r.mod_only[i])
        }),
{
    let r = tensor_match::matching(names(o), names(m));
    tensor_match::matching_is_one_to_one(names(o), names(m));
    let a = tensor_match::firsts(r.pairs) + r.orig_only;
    let b = tensor_match::seconds(r.pairs) + r.mod_only;
    assert forall|i: int| 0 <= i < r.pairs.len() implies names(o).contains(
        (#[trigger] r.pairs[i]).0,
    ) && names(m).contains(r.pairs[i].1) by {
        assert(a[i] == r.pairs[i].0);
        assert(b[i] == r.pairs[i].1);
        assert(a.contains(a[i]) && b.contains(b[i]));
    }
    assert forall|i: int| 0 <= i < r.orig_only.len() implies names(o).contains(
        #[trigger] r.orig_only[i],
    ) by {
        assert(a[r.pairs.len() + i] == r.orig_only[i]);
        assert(a.contains(r.orig_only[i]));
    }
    assert forall|i: int| 0 <= i < r.mod_only.len() implies names(m).contains(
        #[trigger] r.mod_only[i],
    ) by {
        assert(b[r.pairs.len() + i] == r.mod_only[i]);
        assert(b.contains(r.mod_only[i]));
    }
}

/// Core tensor diff builder: given the parsed headers of all files of both
/// sides, lay out the per-tensor diff entries without reading any tensor
/// bytes. A name that several files hold counts where it comes first.
///
/// Tensors present in both, but with incompatible shapes, can't be diffed
/// element-wise; each side is shown as if it stood alone.
pub fn build_multi_safetensors_diff_sources(
    orig_files: &Vec<Vec<TensorMeta>>,
    mod_files: &Vec<Vec<TensorMeta>>,
    is_finetune: bool,
    metric: DiffMetric,
) -> (r: (Vec<Source>, u64))
    requires
        counts_fit(all_tensors(orig_files@)),
        counts_fit(all_tensors(mod_files@)),
        source::total_size(
            tensor_regions(
                all_tensors(orig_files@),
                all_tensors(mod_files@),
                is_finetune,
                metric,
            ),
        ) <= u64::MAX,
    ensures
        source::planned(
            r,
            tensor_regions(
                all_tensors(orig_files@),
                all_tensors(mod_files@),
                is_finetune,
                metric,
            ),
        ),
{
    let o = locate(orig_files);
    let m = locate(mod_files);
    let ghost os = located(o@);
    let ghost ms = located(m@);
    let found = find_matched_tensor_pairs(&names_of(&o), &names_of(&m));
    let fill = DiffFill::of_original(is_finetune);
    let ghost k = found@;
    let ghost a = matched_run(os, ms, k.pairs, metric);
    let ghost b = lone_run(os, k.orig_only, fill, "[only in original] "@);
    let ghost changed = reshaped(os, ms, k.pairs);
    let ghost c = lone_run(os, tensor_match::firsts(changed), fill, "[only in original] "@);
    let ghost d = lone_run(ms, k.mod_only, DiffFill::Green, "[only in modified] "@);
    let ghost e = lone_run(
        ms,
        tensor_match::seconds(changed),
        DiffFill::Green,
        "[only in modified] "@,
    );
    proof {
        lemma_names_known(os, ms);
        source::lemma_total_concat(a, b);
        source::lemma_total_concat(a + b, c);
        source::lemma_total_concat(a + b + c, d);
        source::lemma_total_concat(a + b + c + d, e);
        assert forall|i: int| 0 <= i < found.pairs@.len() implies names(os).contains(
            (#[trigger] found.pairs@[i]).0@,
        ) && names(ms).contains(found.pairs@[i].1@) by {
            assert(k.pairs[i] == (found.pairs@[i].0@, found.pairs@[i].1@));
        }
        assert forall|i: int| 0 <= i < found.orig_only@.len() implies names(os).contains(
            (#[trigger] found.orig_only@[i])@,
        ) by {
            assert(k.orig_only[i] == found.orig_only@[i]@);
        }
        assert forall|i: int| 0 <= i < found.mod_only@.len() implies names(ms).contains(
            (#[trigger] found.mod_only@[i])@,
        ) by {
            assert(k.mod_only[i] == found.mod_only@[i]@);
        }
    }
    let mut out: Vec<Source> = Vec::new();
    let mut total: u64 = 0;
    assert(source::regions(out@) =~= seq![]);
    let others = push_matched_run(&mut out, &mut total, &o, &m, &found.pairs, metric);
    assert(source::regions(out@) =~= a);
    push_lone_run(&mut out, &mut total, &o, &found.orig_only, fill, "[only in original] ");
    push_lone_run(&mut out, &mut total, &o, &others.0, fill, "[only in original] ");
    push_lone_run(
        &mut out,
        &mut total,
        &m,
        &found.mod_only,
        DiffFill::Green,
        "[only in modified] ",
    );
    push_lone_run(
        &mut out,
        &mut total,
        &m,
        &others.1,
        DiffFill::Green,
        "[only in modified] ",
    );
    (out, total)
}

} // verus!
