//! Paths as texts with `/` between their components.

use vstd::prelude::*;
use crate::order;
use crate::order::{sort_by, str_le};
use crate::text;
use crate::text::{chars_of, parts, rfind_char, str_eq, text_of};

verus! {

/// The last of the parts that is not `.`; `None` where there is none.
pub open spec fn last_component(ps: Seq<Seq<char>>) -> Option<Seq<char>>
    decreases ps.len(),
{
    if ps.len() == 0 {
        None
    } else if ps.last() == "."@ {
        last_component(ps.drop_last())
    } else {
        Some(ps.last())
    }
}

/// The file name of a path: its last component, unless that leads upwards.
pub open spec fn file_name(path: Seq<char>) -> Option<Seq<char>> {
    match last_component(text::parts_from(path, '/', 0)) {
        Some(c) => if c == ".."@ {
            None
        } else {
            Some(c)
        },
        None => None,
    }
}

/// What a path is called: its file name, or the whole path where it has none.
pub open spec fn label(path: Seq<char>) -> Seq<char> {
    match file_name(path) {
        Some(n) => n,
        None => path,
    }
}

/// What stands behind the last dot of a file name; a dot at the very start
/// does not count.
pub open spec fn extension(path: Seq<char>) -> Option<Seq<char>> {
    match file_name(path) {
        Some(n) => {
            let i = text::rfind_before(n, '.', n.len() as int);
            if i > 0 {
                Some(n.skip(i + 1))
            } else {
                None
            }
        },
        None => None,
    }
}

fn name_of(path: &str) -> (r: Option<String>)
    ensures
        match r {
            Some(n) => file_name(path@) == Some(n@),
            None => file_name(path@) is None,
        },
{
    let ps = parts(path, '/');
    let ghost ts = ps@.map_values(|p: String| p@);
    let mut i: usize = ps.len();
    assert(ts.take(i as int) =~= ts);
    while i > 0
        invariant
            i <= ps@.len(),
            ts == ps@.map_values(|p: String| p@),
            ts == text::parts_from(path@, '/', 0),
            last_component(ts.take(i as int)) == last_component(ts),
        decreases i,
    {
        assert(ts.take(i as int).last() == ps@[i - 1]@);
        if !str_eq(ps[i - 1].as_str(), ".") {
            if str_eq(ps[i - 1].as_str(), "..") {
                return None;
            }
            return Some(ps[i - 1].clone());
        }
        assert(ts.take(i as int).drop_last() =~= ts.take(i - 1));
        i = i - 1;
    }
    None
}

/// What a path is called: its file name, or the whole path where it has none.
pub fn filename_label(path: &str) -> (s: String)
    ensures
        s@ == label(path@),
{
    match name_of(path) {
        Some(n) => n,
        None => path.to_owned(),
    }
}

/// The file name of a path, empty where it has none.
pub(crate) fn file_name_or_empty(path: &str) -> (s: String)
    ensures
        s@ == (match file_name(path@) {
            Some(n) => n,
            None => seq![],
        }),
{
    match name_of(path) {
        Some(n) => n,
        None => {
            let s = String::new();
            assert(s@ =~= seq![]);
            s
        },
    }
}

/// Whether the extension of a path is the given one.
pub fn has_extension(path: &str, ext: &str) -> (r: bool)
    ensures
        r == (extension(path@) == Some(ext@)),
{
    match name_of(path) {
        Some(n) => {
            let v = chars_of(n.as_str());
            match rfind_char(&v, '.') {
                Some(i) => {
                    if i == 0 {
                        return false;
                    }
                    assert(v@.subrange(i + 1, v@.len() as int) =~= v@.skip(i + 1));
                    assert(i < v.len());
                    let e = text_of(&v, i + 1, v.len());
                    str_eq(e.as_str(), ext)
                },
                None => false,
            }
        },
        None => false,
    }
}

/// Whether a path names a JSON or JSONL file.
pub fn is_json_path(path: &str) -> (r: bool)
    ensures
        r == (extension(path@) == Some("json"@) || extension(path@) == Some("jsonl"@)),
{
    has_extension(path, "json") || has_extension(path, "jsonl")
}

/// Lists of components in order: the first component that differs decides, and
/// a list comes before its continuations.
pub open spec fn components_le(a: Seq<Seq<char>>, b: Seq<Seq<char>>) -> bool
    decreases a.len(),
{
    if a.len() == 0 {
        true
    } else if b.len() == 0 {
        false
    } else if a[0] != b[0] {
        order::text_le(a[0], b[0])
    } else {
        components_le(a.skip(1), b.skip(1))
    }
}

/// Relative paths in order, component by component.
pub open spec fn path_le(a: Seq<char>, b: Seq<char>) -> bool {
    components_le(text::parts_from(a, '/', 0), text::parts_from(b, '/', 0))
}

/// A list of relative paths in order.
pub open spec fn sorted_paths(s: Seq<Seq<char>>) -> Seq<Seq<char>> {
    order::stable_sort(s, |a: Seq<char>, b: Seq<char>| path_le(a, b))
}

fn path_before(a: &String, b: &String) -> (r: bool)
    ensures
        r == path_le(a@, b@),
{
    let x = parts(a.as_str(), '/');
    let y = parts(b.as_str(), '/');
    let ghost xs = x@.map_values(|p: String| p@);
    let ghost ys = y@.map_values(|p: String| p@);
    let mut i: usize = 0;
    assert(xs.skip(0) =~= xs && ys.skip(0) =~= ys);
    while i < x.len()
        invariant
            i <= x@.len(),
            i <= y@.len(),
            xs == x@.map_values(|p: String| p@),
            ys == y@.map_values(|p: String| p@),
            xs == text::parts_from(a@, '/', 0),
            ys == text::parts_from(b@, '/', 0),
            components_le(xs.skip(i as int), ys.skip(i as int)) == components_le(xs, ys),
        decreases x@.len() - i,
    {
        if i == y.len() {
            return false;
        }
        assert(xs.skip(i as int)[0] == x@[i as int]@);
        assert(ys.skip(i as int)[0] == y@[i as int]@);
        if !str_eq(x[i].as_str(), y[i].as_str()) {
            return str_le(x[i].as_str(), y[i].as_str());
        }
        assert(xs.skip(i as int).skip(1) =~= xs.skip(i + 1));
        assert(ys.skip(i as int).skip(1) =~= ys.skip(i + 1));
        i = i + 1;
    }
    true
}

/// Sorts relative paths.
pub fn sort_paths(v: Vec<String>) -> (r: Vec<String>)
    ensures
        order::texts(r@) == sorted_paths(order::texts(v@)),
{
    let ghost le = |a: String, b: String| path_le(a@, b@);
    proof {
        order::stable_sort_map(
            v@,
            le,
            |s: String| s@,
            |a: Seq<char>, b: Seq<char>| path_le(a, b),
        );
    }
    sort_by(v, path_before, Ghost(le))
}

/// A path without separator, and not made of dots alone, is its own label.
pub proof fn plain_name_is_its_label(s: Seq<char>)
    requires
        s.len() > 0,
        !s.contains('/'),
        s != "."@,
        s != ".."@,
    ensures
        label(s) == s,
{
    lemma_find_none(s, 0);
    assert(s.subrange(0, s.len() as int) =~= s);
    let ps = text::parts_from(s, '/', 0);
    assert(ps =~= seq![s]);
}

proof fn lemma_find_none(s: Seq<char>, from: int)
    requires
        0 <= from,
        !s.contains('/'),
    ensures
        text::find_from(s, '/', from) == s.len(),
    decreases s.len() - from,
{
    if from < s.len() {
        assert(s[from] != '/') by {
            if s[from] == '/' {
                assert(s.contains('/'));
            }
        }
        lemma_find_none(s, from + 1);
    }
}

} // verus!
