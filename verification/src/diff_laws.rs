//! Laws of the diffs of files, directories and repositories: what every source
//! of the result reads, and that nothing of either side is left out.

use vstd::prelude::*;
use crate::diff;
use crate::diff::{Compared, DiffError, DirEntry, DirFile, RemoteDiffPlan, RemoteEntry, SizeRule};
use crate::format::types::DiffFill;
use crate::hf_url;
use crate::json_diff;
use crate::order;
use crate::path;
use crate::source;
use crate::source::{Source, SourceKind};
use crate::tensor_match;

verus! {

/// Sorting keeps what a list holds.
pub proof fn sorting_keeps_members<T>(s: Seq<T>, le: spec_fn(T, T) -> bool, x: T)
    ensures
        order::stable_sort(s, le).contains(x) == s.contains(x),
        order::stable_sort(s, le).len() == s.len(),
{
    let r = order::stable_sort(s, le);
    order::stable_sort_permutes(s, le);
    r.to_multiset_ensures();
    s.to_multiset_ensures();
    assert(r.to_multiset().count(x) == s.to_multiset().count(x));
    assert(r.contains(x) <==> r.to_multiset().count(x) > 0);
    assert(s.contains(x) <==> s.to_multiset().count(x) > 0);
}

// ---- directories ----

/// The file at place `a` is the last with its relative path.
pub open spec fn is_last_of_path(files: Seq<DirFile>, a: int) -> bool {
    &&& 0 <= a < files.len()
    &&& forall|b: int| a < b < files.len() ==> (#[trigger] files[b]).rel@ != files[a].rel@
}

/// No file has the relative path.
pub open spec fn lacks_path(files: Seq<DirFile>, rel: Seq<char>) -> bool {
    forall|b: int| 0 <= b < files.len() ==> (#[trigger] files[b]).rel@ != rel
}

/// The sources are the prepared ones and then the diff of the two directories.
pub open spec fn is_directory_diff(
    r: Result<(Vec<Source>, u64), DiffError>,
    prepared: Seq<Source>,
    orig: Seq<DirFile>,
    modified: Seq<DirFile>,
    rule: SizeRule,
    is_finetune: bool,
) -> bool {
    let all = source::regions(prepared) + diff::directory_regions(
        diff::entries(orig),
        diff::entries(modified),
        rule,
        is_finetune,
    );
    match r {
        Ok(p) => all.len() > 0 && source::planned(p, all),
        Err(e) => all.len() == 0 && e@ == diff::DiffFault::NoDirectoryPairs,
    }
}

proof fn lemma_entry(files: Seq<DirFile>, rel: Seq<char>) -> (a: int)
    ensures
        match diff::entry_at(diff::entries(files), rel) {
            Some(e) => is_last_of_path(files, a) && files[a]@ == e && files[a].rel@ == rel,
            None => lacks_path(files, rel),
        },
    decreases files.len(),
{
    let es = diff::entries(files);
    if files.len() == 0 {
        0
    } else {
        let n = files.len() - 1;
        assert(es.last() == files[n]@);
        if es.last().rel == rel {
            n
        } else {
            let init = files.drop_last();
            assert(es.drop_last() =~= diff::entries(init));
            let a = lemma_entry(init, rel);
            match diff::entry_at(es, rel) {
                Some(_) => {
                    assert(init[a] == files[a]);
                    assert forall|b: int| a < b < files.len() implies (
                    #[trigger] files[b]).rel@ != files[a].rel@ by {
                        if b < n {
                            assert(init[b] == files[b]);
                        }
                    }
                },
                None => {
                    assert forall|b: int| 0 <= b < files.len() implies (
                    #[trigger] files[b]).rel@ != rel by {
                        if b < n {
                            assert(init[b] == files[b]);
                        }
                    }
                },
            }
            a
        }
    }
}

proof fn lemma_last_is_entry(files: Seq<DirFile>, a: int)
    requires
        is_last_of_path(files, a),
    ensures
        diff::entry_at(diff::entries(files), files[a].rel@) == Some(files[a]@),
        diff::rels(diff::entries(files)).contains(files[a].rel@),
{
    let rel = files[a].rel@;
    let b = lemma_entry(files, rel);
    assert(diff::rels(diff::entries(files))[a] == rel);
    match diff::entry_at(diff::entries(files), rel) {
        Some(_) => {
            if b < a {
                assert(files[a].rel@ != files[b].rel@);
            } else if a < b {
                assert(files[b].rel@ != files[a].rel@);
            }
        },
        None => {
            assert(files[a].rel@ != rel);
        },
    }
}

proof fn lemma_lacking(files: Seq<DirFile>, rel: Seq<char>)
    ensures
        lacks_path(files, rel) == (diff::entry_at(diff::entries(files), rel) is None),
        lacks_path(files, rel) == !diff::rels(diff::entries(files)).contains(rel),
{
    let a = lemma_entry(files, rel);
    let rs = diff::rels(diff::entries(files));
    assert forall|b: int| 0 <= b < files.len() implies #[trigger] rs[b] == files[b].rel@ by {}
    if diff::entry_at(diff::entries(files), rel) is Some {
        assert(files[a].rel@ == rel);
        assert(rs[a] == rel);
    } else if rs.contains(rel) {
        let b = choose|b: int| 0 <= b < rs.len() && rs[b] == rel;
        assert(files[b].rel@ != rel);
    }
}

proof fn lemma_in_order(es: Seq<DirEntry>, rel: Seq<char>)
    ensures
        diff::names_in_order(es).contains(rel) == diff::rels(es).contains(rel),
{
    sorting_keeps_members(
        tensor_match::distinct(diff::rels(es)),
        |a: Seq<char>, b: Seq<char>| path::path_le(a, b),
        rel,
    );
    tensor_match::lemma_distinct_contains(diff::rels(es), rel);
}

proof fn lemma_orig_run_member(
    names: Seq<Seq<char>>,
    o: Seq<DirEntry>,
    m: Seq<DirEntry>,
    rule: SizeRule,
    is_finetune: bool,
    n: int,
    i: int,
) -> (p: (int, int))
    requires
        0 <= n <= names.len(),
        0 <= i < diff::orig_run(names, o, m, rule, is_finetune, n).len(),
    ensures
        0 <= p.0 < n,
        0 <= p.1 < diff::orig_entry_regions(o, m, names[p.0], rule, is_finetune).len(),
        diff::orig_run(names, o, m, rule, is_finetune, n)[i] == diff::orig_entry_regions(
            o,
            m,
            names[p.0],
            rule,
            is_finetune,
        )[p.1],
    decreases n,
{
    let before = diff::orig_run(names, o, m, rule, is_finetune, n - 1);
    if i < before.len() {
        lemma_orig_run_member(names, o, m, rule, is_finetune, n - 1, i)
    } else {
        (n - 1, i - before.len())
    }
}

proof fn lemma_orig_run_found(
    names: Seq<Seq<char>>,
    o: Seq<DirEntry>,
    m: Seq<DirEntry>,
    rule: SizeRule,
    is_finetune: bool,
    n: int,
    j: int,
    k: int,
) -> (i: int)
    requires
        0 <= j < n <= names.len(),
        0 <= k < diff::orig_entry_regions(o, m, names[j], rule, is_finetune).len(),
    ensures
        0 <= i < diff::orig_run(names, o, m, rule, is_finetune, n).len(),
        diff::orig_run(names, o, m, rule, is_finetune, n)[i] == diff::orig_entry_regions(
            o,
            m,
            names[j],
            rule,
            is_finetune,
        )[k],
    decreases n,
{
    let before = diff::orig_run(names, o, m, rule, is_finetune, n - 1);
    if j < n - 1 {
        lemma_orig_run_found(names, o, m, rule, is_finetune, n - 1, j, k)
    } else {
        before.len() + k
    }
}

proof fn lemma_mod_run_member(
    names: Seq<Seq<char>>,
    o: Seq<DirEntry>,
    m: Seq<DirEntry>,
    n: int,
    i: int,
) -> (p: (int, int))
    requires
        0 <= n <= names.len(),
        0 <= i < diff::mod_run(names, o, m, n).len(),
    ensures
        0 <= p.0 < n,
        !diff::rels(o).contains(names[p.0]),
        0 <= p.1 < diff::mod_entry_regions(m, names[p.0]).len(),
        diff::mod_run(names, o, m, n)[i] == diff::mod_entry_regions(m, names[p.0])[p.1],
    decreases n,
{
    let before = diff::mod_run(names, o, m, n - 1);
    if i < before.len() {
        lemma_mod_run_member(names, o, m, n - 1, i)
    } else {
        (n - 1, i - before.len())
    }
}

proof fn lemma_mod_run_found(
    names: Seq<Seq<char>>,
    o: Seq<DirEntry>,
    m: Seq<DirEntry>,
    n: int,
    j: int,
    k: int,
) -> (i: int)
    requires
        0 <= j < n <= names.len(),
        !diff::rels(o).contains(names[j]),
        0 <= k < diff::mod_entry_regions(m, names[j]).len(),
    ensures
        0 <= i < diff::mod_run(names, o, m, n).len(),
        diff::mod_run(names, o, m, n)[i] == diff::mod_entry_regions(m, names[j])[k],
    decreases n,
{
    let before = diff::mod_run(names, o, m, n - 1);
    if j < n - 1 {
        lemma_mod_run_found(names, o, m, n - 1, j, k)
    } else {
        before.len() + k
    }
}

/// A source reads two files of one relative path, one of each directory, each
/// by its own path. Their sizes agree, or the shorter one counts as filled up.
pub open spec fn compares_files(
    s: Source,
    orig: Seq<DirFile>,
    modified: Seq<DirFile>,
    rule: SizeRule,
    a: int,
    b: int,
) -> bool {
    &&& is_last_of_path(orig, a)
    &&& is_last_of_path(modified, b)
    &&& orig[a].rel@ == modified[b].rel@
    &&& s.kind matches SourceKind::Diff { original, modified: other } && original@
        == orig[a].path@ && other@ == modified[b].path@
    &&& orig[a].size matches Some(so) && modified[b].size matches Some(sm) && s.byte_size >= so
        && s.byte_size >= sm && (s.byte_size == so || s.byte_size == sm) && (so == sm || rule
        == SizeRule::Pad)
}

/// A source marks a file of one directory that has no counterpart, or one of
/// another size where sizes have to agree.
pub open spec fn marks_file(
    s: Source,
    files: Seq<DirFile>,
    others: Seq<DirFile>,
    rule: SizeRule,
    fill: DiffFill,
    prefix: Seq<char>,
    a: int,
) -> bool {
    &&& is_last_of_path(files, a)
    &&& s.kind == (SourceKind::UnmatchedRegion { fill })
    &&& files[a].size == Some(s.byte_size)
    &&& s.byte_size > 0
    &&& hf_url::optional_text(s.name_override) == Some(prefix + files[a].rel@)
    &&& lacks_path(others, files[a].rel@) || (rule == SizeRule::Separate && exists|b: int|
        is_last_of_path(others, b) && (#[trigger] others[b]).rel@ == files[a].rel@
            && others[b].size is Some && others[b].size != files[a].size)
}

/// The fill that marks what only the original has.
pub open spec fn original_fill(is_finetune: bool) -> DiffFill {
    if is_finetune {
        DiffFill::Grey
    } else {
        DiffFill::Red
    }
}

proof fn lemma_orig_region(
    orig: Seq<DirFile>,
    modified: Seq<DirFile>,
    rule: SizeRule,
    is_finetune: bool,
    rel: Seq<char>,
    k: int,
    s: Source,
)
    requires
        0 <= k < diff::orig_entry_regions(
            diff::entries(orig),
            diff::entries(modified),
            rel,
            rule,
            is_finetune,
        ).len(),
        s@ == diff::orig_entry_regions(
            diff::entries(orig),
            diff::entries(modified),
            rel,
            rule,
            is_finetune,
        )[k],
    ensures
        (exists|a: int, b: int| compares_files(s, orig, modified, rule, a, b)) || (exists|a: int|
            marks_file(
                s,
                orig,
                modified,
                rule,
                original_fill(is_finetune),
                "[only in original] "@,
                a,
            )) || (exists|b: int|
            marks_file(
                s,
                modified,
                orig,
                rule,
                DiffFill::Green,
                "[only in modified] "@,
                b,
            )),
{
    let a = lemma_entry(orig, rel);
    let b = lemma_entry(modified, rel);
    let pa = "[only in original] "@;
    let pb = "[only in modified] "@;
    let fill = original_fill(is_finetune);
    match diff::entry_at(diff::entries(modified), rel) {
        Some(fm) => {
            let so = orig[a].size->0;
            let sm = modified[b].size->0;
            if rule == SizeRule::Pad || so == sm {
                assert(compares_files(s, orig, modified, rule, a, b));
            } else if k == 0 && so > 0 {
                assert(modified[b].size != orig[a].size);
                assert(marks_file(s, orig, modified, rule, fill, pa, a));
            } else {
                assert(orig[a].size != modified[b].size);
                assert(marks_file(s, modified, orig, rule, DiffFill::Green, pb, b));
            }
        },
        None => {
            assert(marks_file(s, orig, modified, rule, fill, pa, a));
        },
    }
}

/// Every source behind the prepared ones reads one path of each directory, of
/// files that share a relative path, or marks a file of one directory; the
/// prepared ones stay as they are.
pub proof fn directory_sources_read_their_files(
    p: (Vec<Source>, u64),
    prepared: Seq<Source>,
    orig: Seq<DirFile>,
    modified: Seq<DirFile>,
    rule: SizeRule,
    is_finetune: bool,
    i: int,
)
    requires
        is_directory_diff(Ok(p), prepared, orig, modified, rule, is_finetune),
        0 <= i < p.0@.len(),
    ensures
        prepared.len() <= p.0@.len(),
        i < prepared.len() ==> p.0@[i]@ == prepared[i]@,
        i >= prepared.len() ==> {
            let s = p.0@[i];
            ||| exists|a: int, b: int| compares_files(s, orig, modified, rule, a, b)
            ||| exists|a: int|
                marks_file(
                    s,
                    orig,
                    modified,
                    rule,
                    original_fill(is_finetune),
                    "[only in original] "@,
                    a,
                )
            ||| exists|b: int|
                marks_file(
                    s,
                    modified,
                    orig,
                    rule,
                    DiffFill::Green,
                    "[only in modified] "@,
                    b,
                )
        },
{
    let o = diff::entries(orig);
    let m = diff::entries(modified);
    let on = diff::names_in_order(o);
    let mn = diff::names_in_order(m);
    let was = source::regions(prepared);
    let x = diff::orig_run(on, o, m, rule, is_finetune, on.len() as int);
    let y = diff::mod_run(mn, o, m, mn.len() as int);
    let rs = source::regions(p.0@);
    assert(rs == was + (x + y));
    assert(rs[i] == p.0@[i]@);
    let s = p.0@[i];
    if i < was.len() {
        assert(was[i] == prepared[i]@);
    } else if i - was.len() < x.len() {
        let k = i - was.len();
        assert(s@ == x[k]);
        let q = lemma_orig_run_member(on, o, m, rule, is_finetune, on.len() as int, k);
        lemma_orig_region(orig, modified, rule, is_finetune, on[q.0], q.1, s);
    } else {
        let k = i - was.len() - x.len();
        assert(s@ == y[k]);
        let q = lemma_mod_run_member(mn, o, m, mn.len() as int, k);
        let b = lemma_entry(modified, mn[q.0]);
        lemma_lacking(orig, mn[q.0]);
        assert(marks_file(
            s,
            modified,
            orig,
            rule,
            DiffFill::Green,
            "[only in modified] "@,
            b,
        ));
    }
}

/// Two readable files of one relative path and one size, not empty, are
/// compared with each other, each read by its own path; so are files of
/// different sizes where the shorter one is filled up.
pub proof fn files_of_one_path_are_compared(
    r: Result<(Vec<Source>, u64), DiffError>,
    prepared: Seq<Source>,
    orig: Seq<DirFile>,
    modified: Seq<DirFile>,
    rule: SizeRule,
    is_finetune: bool,
    a: int,
    b: int,
)
    requires
        is_directory_diff(r, prepared, orig, modified, rule, is_finetune),
        is_last_of_path(orig, a),
        is_last_of_path(modified, b),
        orig[a].rel@ == modified[b].rel@,
        orig[a].size is Some,
        modified[b].size is Some,
        orig[a].size == modified[b].size || rule == SizeRule::Pad,
        orig[a].size != Some(0u64) || modified[b].size != Some(0u64),
    ensures
        r matches Ok(p) && exists|i: int|
            0 <= i < p.0@.len() && compares_files(
                #[trigger] p.0@[i],
                orig,
                modified,
                rule,
                a,
                b,
            ),
{
    let o = diff::entries(orig);
    let m = diff::entries(modified);
    let on = diff::names_in_order(o);
    let mn = diff::names_in_order(m);
    let rel = orig[a].rel@;
    let was = source::regions(prepared);
    let x = diff::orig_run(on, o, m, rule, is_finetune, on.len() as int);
    let y = diff::mod_run(mn, o, m, mn.len() as int);
    lemma_last_is_entry(orig, a);
    lemma_last_is_entry(modified, b);
    lemma_in_order(o, rel);
    let j = choose|j: int| 0 <= j < on.len() && on[j] == rel;
    let k = lemma_orig_run_found(on, o, m, rule, is_finetune, on.len() as int, j, 0);
    let at = was.len() + k;
    assert((was + (x + y))[at] == x[k]);
    match r {
        Ok(p) => {
            assert(source::regions(p.0@)[at] == p.0@[at]@);
            assert(compares_files(p.0@[at], orig, modified, rule, a, b));
        },
        Err(_) => {},
    }
}

/// A readable file that is not empty and has no counterpart is marked as
/// present in the original only, or in the modified directory only.
pub proof fn lone_files_are_marked(
    r: Result<(Vec<Source>, u64), DiffError>,
    prepared: Seq<Source>,
    orig: Seq<DirFile>,
    modified: Seq<DirFile>,
    rule: SizeRule,
    is_finetune: bool,
    a: int,
)
    requires
        is_directory_diff(r, prepared, orig, modified, rule, is_finetune),
    ensures
        is_last_of_path(orig, a) && lacks_path(modified, orig[a].rel@) && (orig[a].size matches Some(
            n,
        ) && n > 0) ==> (r matches Ok(p) && exists|i: int|
            0 <= i < p.0@.len() && marks_file(
                #[trigger] p.0@[i],
                orig,
                modified,
                rule,
                original_fill(is_finetune),
                "[only in original] "@,
                a,
            )),
        is_last_of_path(modified, a) && lacks_path(orig, modified[a].rel@) && (modified[a].size
            matches Some(n) && n > 0) ==> (r matches Ok(p) && exists|i: int|
            0 <= i < p.0@.len() && marks_file(
                #[trigger] p.0@[i],
                modified,
                orig,
                rule,
                DiffFill::Green,
                "[only in modified] "@,
                a,
            )),
{
    let o = diff::entries(orig);
    let m = diff::entries(modified);
    let on = diff::names_in_order(o);
    let mn = diff::names_in_order(m);
    let was = source::regions(prepared);
    let x = diff::orig_run(on, o, m, rule, is_finetune, on.len() as int);
    let y = diff::mod_run(mn, o, m, mn.len() as int);
    if is_last_of_path(orig, a) && lacks_path(modified, orig[a].rel@) && (orig[a].size matches Some(
        n,
    ) && n > 0) {
        let rel = orig[a].rel@;
        lemma_last_is_entry(orig, a);
        lemma_lacking(modified, rel);
        lemma_in_order(o, rel);
        let j = choose|j: int| 0 <= j < on.len() && on[j] == rel;
        let k = lemma_orig_run_found(on, o, m, rule, is_finetune, on.len() as int, j, 0);
        let at = was.len() + k;
        assert((was + (x + y))[at] == x[k]);
        if let Ok(p) = r {
            assert(source::regions(p.0@)[at] == p.0@[at]@);
            assert(marks_file(
                p.0@[at],
                orig,
                modified,
                rule,
                original_fill(is_finetune),
                "[only in original] "@,
                a,
            ));
        }
    }
    if is_last_of_path(modified, a) && lacks_path(orig, modified[a].rel@) && (modified[a].size
        matches Some(n) && n > 0) {
        let rel = modified[a].rel@;
        lemma_last_is_entry(modified, a);
        lemma_lacking(orig, rel);
        lemma_in_order(m, rel);
        let j = choose|j: int| 0 <= j < mn.len() && mn[j] == rel;
        let k = lemma_mod_run_found(mn, o, m, mn.len() as int, j, 0);
        let at = was.len() + x.len() + k;
        assert((was + (x + y))[at] == y[k]);
        if let Ok(p) = r {
            assert(source::regions(p.0@)[at] == p.0@[at]@);
            assert(marks_file(
                p.0@[at],
                modified,
                orig,
                rule,
                DiffFill::Green,
                "[only in modified] "@,
                a,
            ));
        }
    }
}

// ---- repositories ----

/// The entry at place `a` is the last of its name in a listing.
pub open spec fn is_last_listed(files: Seq<(String, u64)>, a: int) -> bool {
    &&& 0 <= a < files.len()
    &&& forall|b: int| a < b < files.len() ==> (#[trigger] files[b]).0@ != files[a].0@
}

/// No entry has the name.
pub open spec fn lacks_listed(files: Seq<(String, u64)>, name: Seq<char>) -> bool {
    forall|b: int| 0 <= b < files.len() ==> (#[trigger] files[b]).0@ != name
}

/// Whether a name is that of a tensor file.
pub open spec fn names_tensor_file(name: Seq<char>) -> bool {
    let tail = ".safetensors"@;
    name.len() >= tail.len() && name.skip(name.len() - tail.len()) == tail
}

proof fn lemma_tensor_name(name: Seq<char>)
    ensures
        names_tensor_file(name) == diff::is_tensor_name(name),
{
    let tail = ".safetensors"@;
    if name.len() >= tail.len() {
        assert(name.skip(name.len() - tail.len()) =~= name.subrange(
            name.len() - tail.len(),
            name.len() as int,
        ));
    }
}

proof fn lemma_listed(files: Seq<(String, u64)>, name: Seq<char>) -> (a: int)
    ensures
        match diff::listed_size(diff::remote_entries(files), name) {
            Some(n) => is_last_listed(files, a) && files[a].0@ == name && files[a].1 == n,
            None => lacks_listed(files, name),
        },
    decreases files.len(),
{
    let es = diff::remote_entries(files);
    if files.len() == 0 {
        0
    } else {
        let n = files.len() - 1;
        assert(es.last() == (RemoteEntry { name: files[n].0@, size: files[n].1 }));
        if es.last().name == name {
            n
        } else {
            let init = files.drop_last();
            assert(es.drop_last() =~= diff::remote_entries(init));
            let a = lemma_listed(init, name);
            match diff::listed_size(es, name) {
                Some(_) => {
                    assert(init[a] == files[a]);
                    assert forall|b: int| a < b < files.len() implies (
                    #[trigger] files[b]).0@ != files[a].0@ by {
                        if b < n {
                            assert(init[b] == files[b]);
                        }
                    }
                },
                None => {
                    assert forall|b: int| 0 <= b < files.len() implies (
                    #[trigger] files[b]).0@ != name by {
                        if b < n {
                            assert(init[b] == files[b]);
                        }
                    }
                },
            }
            a
        }
    }
}

proof fn lemma_last_is_listed(files: Seq<(String, u64)>, a: int)
    requires
        is_last_listed(files, a),
    ensures
        diff::listed_size(diff::remote_entries(files), files[a].0@) == Some(files[a].1),
{
    let name = files[a].0@;
    let b = lemma_listed(files, name);
    match diff::listed_size(diff::remote_entries(files), name) {
        Some(_) => {
            if b < a {
                assert(files[a].0@ != files[b].0@);
            } else if a < b {
                assert(files[b].0@ != files[a].0@);
            }
        },
        None => {
            assert(files[a].0@ != name);
        },
    }
}

proof fn lemma_byte_names(files: Seq<(String, u64)>, name: Seq<char>)
    ensures
        diff::byte_names(diff::remote_entries(files)).contains(name) == (!lacks_listed(files, name)
            && !names_tensor_file(name)),
    decreases files.len(),
{
    let es = diff::remote_entries(files);
    lemma_tensor_name(name);
    if files.len() > 0 {
        let n = files.len() - 1;
        let init = files.drop_last();
        assert(es.drop_last() =~= diff::remote_entries(init));
        assert(es.last() == (RemoteEntry { name: files[n].0@, size: files[n].1 }));
        lemma_byte_names(init, name);
        lemma_tensor_name(files[n].0@);
        let was = diff::byte_names(es.drop_last());
        let now = diff::byte_names(es);
        if was.contains(name) {
            let k = choose|k: int| 0 <= k < was.len() && was[k] == name;
            assert(now[k] == name);
        }
        if now.contains(name) && !was.contains(name) {
            let k = choose|k: int| 0 <= k < now.len() && now[k] == name;
            if k < was.len() {
                assert(was[k] == name);
            }
        }
        if files[n].0@ == name && !names_tensor_file(name) {
            assert(now[was.len() as int] == name);
        }
        if lacks_listed(files, name) {
            assert forall|b: int| 0 <= b < init.len() implies (#[trigger] init[b]).0@ != name by {
                assert(init[b] == files[b]);
            }
            assert(files[n].0@ != name);
        } else {
            let b = choose|b: int| 0 <= b < files.len() && (#[trigger] files[b]).0@ == name;
            if b < n {
                assert(init[b].0@ == name);
            }
        }
        if !lacks_listed(init, name) {
            let b = choose|b: int| 0 <= b < init.len() && (#[trigger] init[b]).0@ == name;
            assert(files[b].0@ == name);
        }
    }
}

proof fn lemma_sorted_names(files: Seq<(String, u64)>, name: Seq<char>)
    ensures
        order::sorted_texts(
            tensor_match::distinct(diff::byte_names(diff::remote_entries(files))),
        ).contains(name) == (!lacks_listed(files, name) && !names_tensor_file(name)),
{
    let bs = diff::byte_names(diff::remote_entries(files));
    sorting_keeps_members(
        tensor_match::distinct(bs),
        |a: Seq<char>, b: Seq<char>| order::text_le(a, b),
        name,
    );
    tensor_match::lemma_distinct_contains(bs, name);
    lemma_byte_names(files, name);
}

/// A file of both listings that is compared byte by byte: of one size, at most
/// sixteen mebibytes, and no tensor file.
pub open spec fn comparable(
    orig: Seq<(String, u64)>,
    modified: Seq<(String, u64)>,
    name: Seq<char>,
) -> bool {
    &&& !names_tensor_file(name)
    &&& exists|a: int, b: int|
        {
            &&& is_last_listed(orig, a)
            &&& is_last_listed(modified, b)
            &&& (#[trigger] orig[a]).0@ == name
            &&& (#[trigger] modified[b]).0@ == name
            &&& orig[a].1 == modified[b].1
            &&& orig[a].1 <= 16 * 1024 * 1024
        }
}

/// The size with which a listing names a file.
pub open spec fn listed_with(files: Seq<(String, u64)>, name: Seq<char>, size: u64) -> bool {
    exists|a: int|
        is_last_listed(files, a) && (#[trigger] files[a]).0@ == name && files[a].1 == size
}

proof fn lemma_listed_with(files: Seq<(String, u64)>, name: Seq<char>, size: u64)
    ensures
        listed_with(files, name, size) == (diff::listed_size(diff::remote_entries(files), name)
            == Some(size)),
{
    let a = lemma_listed(files, name);
    if listed_with(files, name, size) {
        let b = choose|b: int|
            is_last_listed(files, b) && (#[trigger] files[b]).0@ == name && files[b].1 == size;
        lemma_last_is_listed(files, b);
    }
}

proof fn lemma_comparable(
    orig: Seq<(String, u64)>,
    modified: Seq<(String, u64)>,
    name: Seq<char>,
)
    ensures
        comparable(orig, modified, name) == (!names_tensor_file(name) && exists|n: u64|
            n <= 16 * 1024 * 1024 && #[trigger] listed_with(orig, name, n) && listed_with(
                modified,
                name,
                n,
            )),
{
    if comparable(orig, modified, name) {
        let (a, b) = choose|a: int, b: int|
            {
                &&& is_last_listed(orig, a)
                &&& is_last_listed(modified, b)
                &&& (#[trigger] orig[a]).0@ == name
                &&& (#[trigger] modified[b]).0@ == name
                &&& orig[a].1 == modified[b].1
                &&& orig[a].1 <= 16 * 1024 * 1024
            };
        assert(listed_with(orig, name, orig[a].1) && listed_with(modified, name, orig[a].1));
    } else if !names_tensor_file(name) {
        assert forall|n: u64|
            n <= 16 * 1024 * 1024 && #[trigger] listed_with(orig, name, n) implies !listed_with(
            modified,
            name,
            n,
        ) by {
            if listed_with(modified, name, n) {
                let a = choose|a: int|
                    is_last_listed(orig, a) && (#[trigger] orig[a]).0@ == name && orig[a].1 == n;
                let b = choose|b: int|
                    is_last_listed(modified, b) && (#[trigger] modified[b]).0@ == name
                        && modified[b].1 == n;
                assert(orig[a].1 == modified[b].1);
            }
        }
    }
}

/// What the first `n` names of the original come to.
proof fn lemma_split_orig(
    orig: Seq<(String, u64)>,
    modified: Seq<(String, u64)>,
    names: Seq<Seq<char>>,
    n: int,
)
    requires
        0 <= n <= names.len(),
        forall|j: int|
            0 <= j < names.len() ==> !lacks_listed(orig, #[trigger] names[j])
                && !names_tensor_file(names[j]),
    ensures
        ({
            let o = diff::remote_entries(orig);
            let m = diff::remote_entries(modified);
            let s = diff::split_orig(names, o, m, n);
            &&& forall|x: Seq<char>| #[trigger]
                s.jobs.contains(x) == (names.take(n).contains(x) && comparable(orig, modified, x))
            &&& forall|e: RemoteEntry| #[trigger]
                s.orig_only.contains(e) == (names.take(n).contains(e.name) && e.size > 0
                    && listed_with(orig, e.name, e.size) && (!listed_with(
                    modified,
                    e.name,
                    e.size,
                ) || e.size > 16 * 1024 * 1024))
            &&& forall|e: RemoteEntry| #[trigger]
                s.mod_only.contains(e) == (names.take(n).contains(e.name) && e.size > 0
                    && listed_with(modified, e.name, e.size) && !listed_with(
                    orig,
                    e.name,
                    e.size,
                ))
        }),
    decreases n,
{
    let o = diff::remote_entries(orig);
    let m = diff::remote_entries(modified);
    let s = diff::split_orig(names, o, m, n);
    if n > 0 {
        lemma_split_orig(orig, modified, names, n - 1);
        let t = diff::split_orig(names, o, m, n - 1);
        let name = names[n - 1];
        let a = lemma_listed(orig, name);
        let b = lemma_listed(modified, name);
        let so = diff::listed_size(o, name)->0;
        assert(diff::listed_size(o, name) is Some) by {
            if diff::listed_size(o, name) is None {
                assert(lacks_listed(orig, name));
            }
        }
        assert(names.take(n) =~= names.take(n - 1).push(name));
        assert forall|x: Seq<char>| #[trigger]
            s.jobs.contains(x) == (names.take(n).contains(x) && comparable(orig, modified, x)) by {
            lemma_push_contains(names.take(n - 1), name, x);
            lemma_comparable(orig, modified, x);
            assert(t.jobs.contains(x) == (names.take(n - 1).contains(x) && comparable(
                orig,
                modified,
                x,
            )));
            if s.jobs.len() > t.jobs.len() {
                lemma_push_contains(t.jobs, name, x);
            }
            if x == name {
                lemma_listed_with(orig, name, so);
                lemma_listed_with(modified, name, so);
                assert forall|k: u64| #[trigger] listed_with(orig, name, k) implies k == so by {
                    lemma_listed_with(orig, name, k);
                }
            }
        }
        assert forall|e: RemoteEntry| #[trigger]
            s.orig_only.contains(e) == (names.take(n).contains(e.name) && e.size > 0
                && listed_with(orig, e.name, e.size) && (!listed_with(modified, e.name, e.size)
                || e.size > 16 * 1024 * 1024)) by {
            lemma_push_contains(names.take(n - 1), name, e.name);
            lemma_listed_with(orig, e.name, e.size);
            lemma_listed_with(modified, e.name, e.size);
            assert(t.orig_only.contains(e) == (names.take(n - 1).contains(e.name) && e.size > 0
                && listed_with(orig, e.name, e.size) && (!listed_with(modified, e.name, e.size)
                || e.size > 16 * 1024 * 1024)));
            lemma_add_entry(t.orig_only, name, so, e);
        }
        assert forall|e: RemoteEntry| #[trigger]
            s.mod_only.contains(e) == (names.take(n).contains(e.name) && e.size > 0
                && listed_with(modified, e.name, e.size) && !listed_with(orig, e.name, e.size)) by {
            lemma_push_contains(names.take(n - 1), name, e.name);
            lemma_listed_with(orig, e.name, e.size);
            lemma_listed_with(modified, e.name, e.size);
            assert(t.mod_only.contains(e) == (names.take(n - 1).contains(e.name) && e.size > 0
                && listed_with(modified, e.name, e.size) && !listed_with(orig, e.name, e.size)));
            lemma_add_entry(t.mod_only, name, diff::listed_size(m, name)->0, e);
        }
    }
}

pub(crate) proof fn lemma_push_contains<T>(s: Seq<T>, x: T, y: T)
    ensures
        s.push(x).contains(y) == (s.contains(y) || x == y),
{
    if s.contains(y) {
        let k = choose|k: int| 0 <= k < s.len() && s[k] == y;
        assert(s.push(x)[k] == y);
    }
    if x == y {
        assert(s.push(x)[s.len() as int] == y);
    }
}

proof fn lemma_add_entry(s: Seq<RemoteEntry>, name: Seq<char>, size: u64, e: RemoteEntry)
    ensures
        (s + diff::non_empty(name, size)).contains(e) == (s.contains(e) || (e.name == name
            && e.size == size && size > 0)),
{
    if size > 0 {
        let x = RemoteEntry { name, size };
        assert(s + diff::non_empty(name, size) =~= s.push(x));
        lemma_push_contains(s, x, e);
    } else {
        assert(s + diff::non_empty(name, size) =~= s);
    }
}

proof fn lemma_split_mod(
    orig: Seq<(String, u64)>,
    modified: Seq<(String, u64)>,
    names: Seq<Seq<char>>,
    n: int,
)
    requires
        0 <= n <= names.len(),
        forall|j: int|
            0 <= j < names.len() ==> !lacks_listed(modified, #[trigger] names[j])
                && !names_tensor_file(names[j]),
    ensures
        forall|e: RemoteEntry| #[trigger]
            diff::split_mod(
                names,
                diff::remote_entries(orig),
                diff::remote_entries(modified),
                n,
            ).contains(e) == (names.take(n).contains(e.name) && e.size > 0 && listed_with(
                modified,
                e.name,
                e.size,
            ) && lacks_listed(orig, e.name)),
    decreases n,
{
    let o = diff::remote_entries(orig);
    let m = diff::remote_entries(modified);
    let s = diff::split_mod(names, o, m, n);
    if n > 0 {
        lemma_split_mod(orig, modified, names, n - 1);
        let t = diff::split_mod(names, o, m, n - 1);
        let name = names[n - 1];
        let b = lemma_listed(modified, name);
        assert(diff::listed_size(m, name) is Some) by {
            if diff::listed_size(m, name) is None {
                assert(lacks_listed(modified, name));
            }
        }
        assert(names.take(n) =~= names.take(n - 1).push(name));
        lemma_byte_names(orig, name);
        assert forall|e: RemoteEntry| #[trigger]
            s.contains(e) == (names.take(n).contains(e.name) && e.size > 0 && listed_with(
                modified,
                e.name,
                e.size,
            ) && lacks_listed(orig, e.name)) by {
            lemma_push_contains(names.take(n - 1), name, e.name);
            lemma_listed_with(modified, e.name, e.size);
            assert(t.contains(e) == (names.take(n - 1).contains(e.name) && e.size > 0
                && listed_with(modified, e.name, e.size) && lacks_listed(orig, e.name)));
            lemma_add_entry(t, name, diff::listed_size(m, name)->0, e);
        }
    }
}

/// What becomes of a file of two repositories. Exactly the files that both list
/// with one size, small enough and no tensor files, are compared. A file that
/// is not empty is shown as one of the original where the modified repository
/// does not list it with the same size, or where it is too large to compare;
/// and as one of the modified repository where the original does not list it
/// with the same size. Nothing else is shown.
pub proof fn remote_files_are_parted(
    plan: RemoteDiffPlan,
    orig: Seq<(String, u64)>,
    modified: Seq<(String, u64)>,
    name: Seq<char>,
    size: u64,
)
    requires
        plan@ == diff::remote_split(
            diff::remote_entries(orig),
            diff::remote_entries(modified),
        ),
    ensures
        plan@.jobs.contains(name) == comparable(orig, modified, name),
        plan@.orig_only.contains(RemoteEntry { name, size }) == (!names_tensor_file(name) && size
            > 0 && listed_with(orig, name, size) && (!listed_with(modified, name, size) || size
            > 16 * 1024 * 1024)),
        plan@.mod_only.contains(RemoteEntry { name, size }) == (!names_tensor_file(name) && size
            > 0 && listed_with(modified, name, size) && !listed_with(orig, name, size)),
{
    let o = diff::remote_entries(orig);
    let m = diff::remote_entries(modified);
    let on = order::sorted_texts(tensor_match::distinct(diff::byte_names(o)));
    let mn = order::sorted_texts(tensor_match::distinct(diff::byte_names(m)));
    let e = RemoteEntry { name, size };
    assert forall|j: int| 0 <= j < on.len() implies !lacks_listed(orig, #[trigger] on[j])
        && !names_tensor_file(on[j]) by {
        lemma_sorted_names(orig, on[j]);
        assert(on.contains(on[j]));
    }
    assert forall|j: int| 0 <= j < mn.len() implies !lacks_listed(modified, #[trigger] mn[j])
        && !names_tensor_file(mn[j]) by {
        lemma_sorted_names(modified, mn[j]);
        assert(mn.contains(mn[j]));
    }
    let s = diff::split_orig(on, o, m, on.len() as int);
    let t = diff::split_mod(mn, o, m, mn.len() as int);
    lemma_split_orig(orig, modified, on, on.len() as int);
    lemma_split_mod(orig, modified, mn, mn.len() as int);
    assert(on.take(on.len() as int) =~= on);
    assert(mn.take(mn.len() as int) =~= mn);
    lemma_sorted_names(orig, name);
    lemma_sorted_names(modified, name);
    let le = |a: RemoteEntry, b: RemoteEntry| order::text_le(a.name, b.name);
    sorting_keeps_members(s.orig_only, le, e);
    sorting_keeps_members(s.mod_only + t, le, e);
    assert((s.mod_only + t).contains(e) == (s.mod_only.contains(e) || t.contains(e))) by {
        if s.mod_only.contains(e) {
            let k = choose|k: int| 0 <= k < s.mod_only.len() && s.mod_only[k] == e;
            assert((s.mod_only + t)[k] == e);
        }
        if t.contains(e) {
            let k = choose|k: int| 0 <= k < t.len() && t[k] == e;
            assert((s.mod_only + t)[s.mod_only.len() + k] == e);
        }
    }
    assert(s.jobs.contains(name) == (on.contains(name) && comparable(orig, modified, name)));
    assert(s.orig_only.contains(e) == (on.contains(name) && size > 0 && listed_with(
        orig,
        name,
        size,
    ) && (!listed_with(modified, name, size) || size > 16 * 1024 * 1024)));
    assert(s.mod_only.contains(e) == (on.contains(name) && size > 0 && listed_with(
        modified,
        name,
        size,
    ) && !listed_with(orig, name, size)));
    assert(t.contains(e) == (mn.contains(name) && size > 0 && listed_with(modified, name, size)
        && lacks_listed(orig, name)));
    lemma_listed_with(orig, name, size);
    lemma_listed_with(modified, name, size);
    let a = lemma_listed(orig, name);
    let b = lemma_listed(modified, name);
    if listed_with(orig, name, size) {
        assert(!lacks_listed(orig, name)) by {
            assert(orig[a].0@ == name);
        }
    }
    if listed_with(modified, name, size) {
        assert(!lacks_listed(modified, name)) by {
            assert(modified[b].0@ == name);
        }
    }
    if comparable(orig, modified, name) {
        lemma_comparable(orig, modified, name);
        let n = choose|n: u64|
            n <= 16 * 1024 * 1024 && #[trigger] listed_with(orig, name, n) && listed_with(
                modified,
                name,
                n,
            );
        lemma_listed_with(orig, name, n);
        assert(orig[a].0@ == name);
    }
}

/// The sources are the prepared ones and then the diff of the two repositories.
pub open spec fn is_remote_diff(
    r: Result<(Vec<Source>, u64), DiffError>,
    prepared: Seq<Source>,
    diffs: Seq<(String, Vec<u8>)>,
    plan: RemoteDiffPlan,
    is_finetune: bool,
) -> bool {
    let all = source::regions(prepared) + diff::remote_regions(
        diff::compared(diffs),
        plan@,
        is_finetune,
    );
    match r {
        Ok(p) => all.len() > 0 && source::planned(p, all),
        Err(e) => all.len() == 0 && e@ == diff::DiffFault::NoRepoPairs,
    }
}

/// A source shows the bytes of a downloaded diff under its name.
pub open spec fn shows_download(s: Source, d: (String, Vec<u8>)) -> bool {
    &&& s.kind matches SourceKind::Buffered(v) && v@ == d.1@
    &&& s.byte_size == d.1@.len()
    &&& hf_url::optional_text(s.name_override) == Some(d.0@)
}

/// A source marks a listed file of one side.
pub open spec fn marks_listed(
    s: Source,
    e: (String, u64),
    fill: DiffFill,
    prefix: Seq<char>,
) -> bool {
    &&& s.kind == (SourceKind::UnmatchedRegion { fill })
    &&& s.byte_size == e.1
    &&& hf_url::optional_text(s.name_override) == Some(prefix + e.0@)
}

/// Every source behind the prepared ones shows a downloaded diff or marks a
/// file of one side, as the plan says.
pub proof fn remote_sources_follow_the_plan(
    p: (Vec<Source>, u64),
    prepared: Seq<Source>,
    diffs: Seq<(String, Vec<u8>)>,
    plan: RemoteDiffPlan,
    is_finetune: bool,
    i: int,
)
    requires
        is_remote_diff(Ok(p), prepared, diffs, plan, is_finetune),
        0 <= i < p.0@.len(),
        forall|k: int| 0 <= k < diffs.len() ==> (#[trigger] diffs[k]).1@.len() <= u64::MAX,
    ensures
        i < prepared.len() ==> p.0@[i]@ == prepared[i]@,
        i >= prepared.len() ==> {
            let s = p.0@[i];
            ||| exists|k: int| 0 <= k < diffs.len() && shows_download(s, #[trigger] diffs[k])
            ||| exists|k: int|
                0 <= k < plan.orig_only@.len() && marks_listed(
                    s,
                    #[trigger] plan.orig_only@[k],
                    original_fill(is_finetune),
                    "[only in original] "@,
                )
            ||| exists|k: int|
                0 <= k < plan.mod_only@.len() && marks_listed(
                    s,
                    #[trigger] plan.mod_only@[k],
                    DiffFill::Green,
                    "[only in modified] "@,
                )
        },
        p.0@.len() == prepared.len() + diffs.len() + plan.orig_only@.len() + plan.mod_only@.len(),
{
    let cs = diff::compared(diffs);
    let le = |a: Compared, b: Compared| order::text_le(a.name, b.name);
    let sorted = diff::compared_by_name(cs);
    order::stable_sort_permutes(cs, le);
    let was = source::regions(prepared);
    let x = sorted.map_values(|c: Compared| diff::compared_region(c));
    let y = diff::one_sided_regions(
        plan@.orig_only,
        crate::format::types::fill_of_original(is_finetune),
        "[only in original] "@,
    );
    let z = diff::one_sided_regions(plan@.mod_only, DiffFill::Green, "[only in modified] "@);
    let rs = source::regions(p.0@);
    assert(rs == was + (x + y + z));
    assert(rs[i] == p.0@[i]@);
    let s = p.0@[i];
    let n0 = was.len() as int;
    let n1 = n0 + x.len();
    let n2 = n1 + y.len();
    if i < n0 {
        assert(was[i] == prepared[i]@);
    } else if i < n1 {
        let c = sorted[i - n0];
        assert(s@ == x[i - n0]);
        assert(sorted.contains(c));
        sorting_keeps_members(cs, le, c);
        let k = choose|k: int| 0 <= k < cs.len() && cs[k] == c;
        assert(diffs[k].1@.len() <= u64::MAX);
        assert(shows_download(s, diffs[k]));
    } else if i < n2 {
        assert(s@ == y[i - n1]);
        assert(plan@.orig_only[i - n1] == (RemoteEntry {
            name: plan.orig_only@[i - n1].0@,
            size: plan.orig_only@[i - n1].1,
        }));
        assert(marks_listed(
            s,
            plan.orig_only@[i - n1],
            original_fill(is_finetune),
            "[only in original] "@,
        ));
    } else {
        assert(s@ == z[i - n2]);
        assert(plan@.mod_only[i - n2] == (RemoteEntry {
            name: plan.mod_only@[i - n2].0@,
            size: plan.mod_only@[i - n2].1,
        }));
        assert(marks_listed(
            s,
            plan.mod_only@[i - n2],
            DiffFill::Green,
            "[only in modified] "@,
        ));
    }
}

// ---- files ----

/// The byte-by-byte diff of two files of one size reads the one path and the
/// other, whole; files of different sizes are only marked, each with its own
/// size, unless it is empty.
pub proof fn whole_files_are_compared_or_marked(
    p: (Vec<Source>, u64),
    original: Seq<char>,
    modified: Seq<char>,
    orig_len: u64,
    mod_len: u64,
    is_finetune: bool,
)
    requires
        source::planned(
            p,
            json_diff::source::fallback_regions(
                original,
                modified,
                orig_len as int,
                mod_len as int,
                is_finetune,
            ),
        ),
    ensures
        orig_len == mod_len ==> p.0@.len() == 1 && p.1 == orig_len && p.0@[0].byte_size
            == orig_len && (p.0@[0].kind matches SourceKind::Diff {
            original: a,
            modified: b,
        } && a@ == original && b@ == modified),
        orig_len != mod_len ==> p.1 == orig_len + mod_len && forall|i: int|
            0 <= i < p.0@.len() ==> {
                let s = #[trigger] p.0@[i];
                ||| i == 0 && orig_len > 0 && s.byte_size == orig_len && s.kind == (
                SourceKind::UnmatchedRegion { fill: original_fill(is_finetune) })
                ||| i == p.0@.len() - 1 && mod_len > 0 && s.byte_size == mod_len && s.kind == (
                SourceKind::UnmatchedRegion { fill: DiffFill::Green })
            },
        orig_len != mod_len ==> p.0@.len() == (if orig_len > 0 {
            1int
        } else {
            0
        }) + (if mod_len > 0 {
            1int
        } else {
            0
        }),
{
    let rs = source::regions(p.0@);
    reveal_with_fuel(source::total_size, 3);
    assert forall|i: int| 0 <= i < p.0@.len() implies rs[i] == (#[trigger] p.0@[i])@ by {}
    if orig_len == mod_len {
        assert(rs.drop_last() =~= seq![]);
        assert(rs[0] == p.0@[0]@);
    } else {
        if orig_len > 0 && mod_len > 0 {
            assert(rs.drop_last().drop_last() =~= seq![]);
            assert(rs.drop_last().last() == rs[0]);
        } else {
            assert(rs.drop_last() =~= seq![]);
        }
    }
}

/// JSON files of which one does not parse are compared as a whole, byte by byte
/// where they are of one size, and otherwise only marked.
pub proof fn unparsed_files_are_compared_whole(
    p: (Vec<Source>, u64),
    original: Seq<char>,
    modified: Seq<char>,
    o: Seq<u8>,
    m: Seq<u8>,
    is_finetune: bool,
)
    requires
        source::planned(
            p,
            json_diff::source::json_regions(original, modified, o, m, is_finetune),
        ),
        !json_diff::source::is_line_delimited(original, modified),
        json_diff::grammar::document(o) is Fail || json_diff::grammar::document(m) is Fail,
        o.len() <= u64::MAX,
        m.len() <= u64::MAX,
    ensures
        o.len() == m.len() ==> p.0@.len() == 1 && p.1 == o.len() && p.0@[0].byte_size == o.len()
            && (p.0@[0].kind matches SourceKind::Diff { original: a, modified: b } && a@ == original
            && b@ == modified),
        o.len() != m.len() ==> p.1 == o.len() + m.len() && forall|i: int|
            0 <= i < p.0@.len() ==> (#[trigger] p.0@[i]).kind is UnmatchedRegion,
{
    whole_files_are_compared_or_marked(
        p,
        original,
        modified,
        o.len() as u64,
        m.len() as u64,
        is_finetune,
    );
}

} // verus!
