//! Ordering: the order of text, and stable sorting by a given order.

use vstd::prelude::*;
use crate::text::chars_of;

verus! {

/// Text order: by the first character in which two texts differ, a prefix
/// before what it begins. This is the order of `str` in `std`.
pub open spec fn text_le(a: Seq<char>, b: Seq<char>) -> bool
    decreases a.len(),
{
    if a.len() == 0 {
        true
    } else if b.len() == 0 {
        false
    } else if a[0] != b[0] {
        (a[0] as int) < (b[0] as int)
    } else {
        text_le(a.drop_first(), b.drop_first())
    }
}

fn char_before(a: char, b: char) -> (r: bool)
    ensures
        r == ((a as int) < (b as int)),
{
    (a as u32) < (b as u32)
}

fn chars_le(a: &Vec<char>, b: &Vec<char>) -> (r: bool)
    ensures
        r == text_le(a@, b@),
{
    let mut i: usize = 0;
    assert(a@.skip(0) =~= a@);
    assert(b@.skip(0) =~= b@);
    while i < a.len() && i < b.len()
        invariant
            i <= a@.len(),
            i <= b@.len(),
            text_le(a@, b@) == text_le(a@.skip(i as int), b@.skip(i as int)),
        decreases a@.len() - i,
    {
        if a[i] != b[i] {
            return char_before(a[i], b[i]);
        }
        assert(a@.skip(i as int).drop_first() =~= a@.skip(i + 1));
        assert(b@.skip(i as int).drop_first() =~= b@.skip(i + 1));
        i = i + 1;
    }
    i >= a.len()
}

/// Whether `a` comes before `b` in text order, or is the same text.
pub fn str_le(a: &str, b: &str) -> (r: bool)
    ensures
        r == text_le(a@, b@),
{
    let ca = chars_of(a);
    let cb = chars_of(b);
    chars_le(&ca, &cb)
}

/// Texts of which each comes before the other are the same.
pub proof fn text_le_antisymmetric(a: Seq<char>, b: Seq<char>)
    requires
        text_le(a, b),
        text_le(b, a),
    ensures
        a == b,
    decreases a.len(),
{
    if a.len() > 0 && b.len() > 0 {
        assert(a[0] == b[0]);
        let c = a.drop_first();
        let d = b.drop_first();
        text_le_antisymmetric(c, d);
        assert(a.len() == b.len());
        assert forall|i: int| 0 <= i < a.len() implies a[i] == b[i] by {
            if i > 0 {
                assert(a[i] == c[i - 1] && b[i] == d[i - 1]);
            }
        }
    }
    assert(a =~= b);
}

/// Of two texts one comes before the other.
pub proof fn text_le_total(a: Seq<char>, b: Seq<char>)
    ensures
        text_le(a, b) || text_le(b, a),
    decreases a.len(),
{
    if a.len() > 0 && b.len() > 0 {
        text_le_total(a.drop_first(), b.drop_first());
    }
}

/// Text order is transitive.
pub proof fn text_le_transitive(a: Seq<char>, b: Seq<char>, c: Seq<char>)
    requires
        text_le(a, b),
        text_le(b, c),
    ensures
        text_le(a, c),
    decreases a.len(),
{
    if a.len() > 0 && b.len() > 0 && c.len() > 0 && a[0] == b[0] && b[0] == c[0] {
        text_le_transitive(a.drop_first(), b.drop_first(), c.drop_first());
    }
}

/// `x` put into a sorted list, behind everything that comes before it or ties
/// with it.
pub open spec fn sorted_insert<T>(s: Seq<T>, x: T, le: spec_fn(T, T) -> bool) -> Seq<T>
    decreases s.len(),
{
    if s.len() == 0 {
        seq![x]
    } else if le(s.last(), x) {
        s.push(x)
    } else {
        sorted_insert(s.drop_last(), x, le).push(s.last())
    }
}

/// The list in the given order; what ties keeps its place.
pub open spec fn stable_sort<T>(s: Seq<T>, le: spec_fn(T, T) -> bool) -> Seq<T>
    decreases s.len(),
{
    if s.len() == 0 {
        seq![]
    } else {
        sorted_insert(stable_sort(s.drop_last(), le), s.last(), le)
    }
}

/// The list is in the given order.
pub open spec fn is_sorted<T>(s: Seq<T>, le: spec_fn(T, T) -> bool) -> bool {
    forall|i: int, j: int| 0 <= i < j < s.len() ==> #[trigger] le(s[i], s[j])
}

/// An order in which any two things can be compared.
pub open spec fn is_total<T>(le: spec_fn(T, T) -> bool) -> bool {
    &&& forall|a: T, b: T| #[trigger] le(a, b) || le(b, a)
    &&& forall|a: T, b: T, c: T| #[trigger] le(a, b) && #[trigger] le(b, c) ==> le(a, c)
}

/// Sorts a list, keeping the place of what ties.
pub(crate) fn sort_by<T, F: Fn(&T, &T) -> bool>(v: Vec<T>, f: F, Ghost(le): Ghost<spec_fn(T, T) -> bool>) -> (r:
    Vec<T>)
    requires
        forall|a: T, b: T| call_requires(f, (&a, &b)),
        forall|a: T, b: T, r: bool| call_ensures(f, (&a, &b), r) ==> r == le(a, b),
    ensures
        r@ == stable_sort(v@, le),
{
    let mut rest = v;
    let mut todo: Vec<T> = Vec::new();
    // Reverse the input, so that its first item is taken first.
    let ghost all = v@;
    while rest.len() > 0
        invariant
            rest@.len() + todo@.len() == all.len(),
            rest@ == all.take(rest@.len() as int),
            forall|i: int| 0 <= i < todo@.len() ==> #[trigger] todo@[i] == all[all.len() - 1 - i],
        decreases rest@.len(),
    {
        if let Some(x) = rest.pop() {
            todo.push(x);
        }
    }
    let mut out: Vec<T> = Vec::new();
    let ghost mut n: int = 0;
    assert(all.take(0) =~= seq![]);
    while todo.len() > 0
        invariant
            0 <= n <= all.len(),
            todo@.len() == all.len() - n,
            forall|i: int| 0 <= i < todo@.len() ==> #[trigger] todo@[i] == all[all.len() - 1 - i],
            out@ == stable_sort(all.take(n), le),
            forall|a: T, b: T| call_requires(f, (&a, &b)),
            forall|a: T, b: T, r: bool| call_ensures(f, (&a, &b), r) ==> r == le(a, b),
        decreases todo@.len(),
    {
        if let Some(x) = todo.pop() {
            assert(all.take(n + 1).drop_last() =~= all.take(n));
            insert_sorted(&mut out, x, &f, Ghost(le));
            proof {
                n = n + 1;
            }
        }
    }
    assert(all.take(n) =~= all);
    out
}

fn insert_sorted<T, F: Fn(&T, &T) -> bool>(
    out: &mut Vec<T>,
    x: T,
    f: &F,
    Ghost(le): Ghost<spec_fn(T, T) -> bool>,
)
    requires
        forall|a: T, b: T| call_requires(*f, (&a, &b)),
        forall|a: T, b: T, r: bool| call_ensures(*f, (&a, &b), r) ==> r == le(a, b),
    ensures
        final(out)@ == sorted_insert(old(out)@, x, le),
{
    let ghost before = out@;
    let mut j: usize = out.len();
    assert(before.take(j as int) =~= before);
    assert(before.skip(j as int) =~= seq![]);
    assert(sorted_insert(before, x, le) =~= sorted_insert(before.take(j as int), x, le)
        + before.skip(j as int));
    while j > 0 && !f(&out[j - 1], &x)
        invariant
            out@ == before,
            j <= before.len(),
            forall|a: T, b: T| call_requires(*f, (&a, &b)),
            forall|a: T, b: T, r: bool| call_ensures(*f, (&a, &b), r) ==> r == le(a, b),
            sorted_insert(before, x, le) == sorted_insert(before.take(j as int), x, le)
                + before.skip(j as int),
        decreases j,
    {
        assert(before.take(j as int).drop_last() =~= before.take(j - 1));
        assert(seq![before[j - 1]] + before.skip(j as int) =~= before.skip(j - 1));
        assert(sorted_insert(before.take(j as int), x, le) + before.skip(j as int)
            =~= sorted_insert(before.take(j - 1), x, le) + (seq![before[j - 1]] + before.skip(
            j as int,
        )));
        j = j - 1;
    }
    assert(sorted_insert(before.take(j as int), x, le) =~= before.take(j as int).push(x));
    assert(before.insert(j as int, x) =~= before.take(j as int).push(x) + before.skip(j as int));
    out.insert(j, x);
}

/// Inserting adds one item and keeps all others.
pub proof fn sorted_insert_permutes<T>(s: Seq<T>, x: T, le: spec_fn(T, T) -> bool)
    ensures
        sorted_insert(s, x, le).to_multiset() == s.to_multiset().insert(x),
        sorted_insert(s, x, le).len() == s.len() + 1,
    decreases s.len(),
{
    broadcast use vstd::seq_lib::group_to_multiset_ensures;

    if s.len() == 0 {
        assert(Seq::<T>::empty().push(x) =~= seq![x]);
        assert(s =~= Seq::<T>::empty());
    } else if le(s.last(), x) {
    } else {
        sorted_insert_permutes(s.drop_last(), x, le);
        assert(s.drop_last().push(s.last()) =~= s);
        assert(sorted_insert(s, x, le).to_multiset() =~= s.to_multiset().insert(x));
    }
}

/// Sorting neither adds nor drops an item.
pub proof fn stable_sort_permutes<T>(s: Seq<T>, le: spec_fn(T, T) -> bool)
    ensures
        stable_sort(s, le).to_multiset() == s.to_multiset(),
        stable_sort(s, le).len() == s.len(),
    decreases s.len(),
{
    broadcast use vstd::seq_lib::group_to_multiset_ensures;

    if s.len() == 0 {
        assert(s =~= Seq::<T>::empty());
    } else {
        stable_sort_permutes(s.drop_last(), le);
        sorted_insert_permutes(stable_sort(s.drop_last(), le), s.last(), le);
        assert(s.drop_last().push(s.last()) =~= s);
    }
}

proof fn lemma_sorted_insert_sorted<T>(s: Seq<T>, x: T, le: spec_fn(T, T) -> bool)
    requires
        is_total(le),
        is_sorted(s, le),
    ensures
        is_sorted(sorted_insert(s, x, le), le),
        forall|i: int| 0 <= i < sorted_insert(s, x, le).len() ==> #[trigger] sorted_insert(s, x, le)[i]
            == x || s.contains(sorted_insert(s, x, le)[i]),
    decreases s.len(),
{
    if s.len() == 0 {
    } else if le(s.last(), x) {
        let r = s.push(x);
        assert forall|i: int, j: int| 0 <= i < j < r.len() implies #[trigger] le(r[i], r[j]) by {
            if j == s.len() && i < s.len() - 1 {
                assert(le(s[i], s[s.len() - 1]));
            }
        }
        assert forall|i: int| 0 <= i < r.len() implies #[trigger] r[i] == x || s.contains(r[i]) by {
            if i < s.len() {
                assert(s[i] == r[i]);
            }
        }
    } else {
        let init = s.drop_last();
        lemma_sorted_insert_sorted(init, x, le);
        let head = sorted_insert(init, x, le);
        let r = head.push(s.last());
        assert(le(x, s.last())) by {
            assert(le(s.last(), x) || le(x, s.last()));
        }
        assert forall|i: int| 0 <= i < head.len() implies #[trigger] le(head[i], s.last()) by {
            assert(head[i] == x || init.contains(head[i]));
            if head[i] != x {
                let k = choose|k: int| 0 <= k < init.len() && init[k] == head[i];
                assert(le(s[k], s[s.len() - 1]));
            }
        }
        assert forall|i: int| 0 <= i < r.len() implies #[trigger] r[i] == x || s.contains(r[i]) by {
            if i < head.len() {
                assert(head[i] == x || init.contains(head[i]));
                if head[i] != x {
                    let k = choose|k: int| 0 <= k < init.len() && init[k] == head[i];
                    assert(s[k] == r[i]);
                }
            } else {
                assert(s[s.len() - 1] == r[i]);
            }
        }
    }
}

/// A sorted list is in order.
pub proof fn stable_sort_sorts<T>(s: Seq<T>, le: spec_fn(T, T) -> bool)
    requires
        is_total(le),
    ensures
        is_sorted(stable_sort(s, le), le),
    decreases s.len(),
{
    if s.len() > 0 {
        stable_sort_sorts(s.drop_last(), le);
        lemma_sorted_insert_sorted(stable_sort(s.drop_last(), le), s.last(), le);
    }
}

proof fn lemma_sorted_insert_map<T, U>(
    s: Seq<T>,
    x: T,
    le: spec_fn(T, T) -> bool,
    f: spec_fn(T) -> U,
    le2: spec_fn(U, U) -> bool,
)
    requires
        forall|a: T, b: T| #[trigger] le(a, b) == le2(f(a), f(b)),
    ensures
        sorted_insert(s, x, le).map_values(f) == sorted_insert(s.map_values(f), f(x), le2),
    decreases s.len(),
{
    if s.len() == 0 {
        assert(seq![x].map_values(f) =~= seq![f(x)]);
    } else if le(s.last(), x) {
        assert(s.push(x).map_values(f) =~= s.map_values(f).push(f(x)));
    } else {
        lemma_sorted_insert_map(s.drop_last(), x, le, f, le2);
        assert(s.map_values(f).drop_last() =~= s.drop_last().map_values(f));
        assert(sorted_insert(s, x, le).map_values(f) =~= sorted_insert(
            s.drop_last(),
            x,
            le,
        ).map_values(f).push(f(s.last())));
    }
}

/// Sorting commutes with a map that keeps the order.
pub proof fn stable_sort_map<T, U>(
    s: Seq<T>,
    le: spec_fn(T, T) -> bool,
    f: spec_fn(T) -> U,
    le2: spec_fn(U, U) -> bool,
)
    requires
        forall|a: T, b: T| #[trigger] le(a, b) == le2(f(a), f(b)),
    ensures
        stable_sort(s, le).map_values(f) == stable_sort(s.map_values(f), le2),
    decreases s.len(),
{
    if s.len() == 0 {
        assert(stable_sort(s, le).map_values(f) =~= seq![]);
        assert(s.map_values(f) =~= seq![]);
    } else {
        stable_sort_map(s.drop_last(), le, f, le2);
        assert(s.map_values(f).drop_last() =~= s.drop_last().map_values(f));
        lemma_sorted_insert_map(stable_sort(s.drop_last(), le), s.last(), le, f, le2);
    }
}

/// The texts of a list of strings.
pub open spec fn texts(v: Seq<String>) -> Seq<Seq<char>> {
    v.map_values(|s: String| s@)
}

/// A list of texts in text order.
pub open spec fn sorted_texts(s: Seq<Seq<char>>) -> Seq<Seq<char>> {
    stable_sort(s, |a: Seq<char>, b: Seq<char>| text_le(a, b))
}

fn string_le(a: &String, b: &String) -> (r: bool)
    ensures
        r == text_le(a@, b@),
{
    str_le(a.as_str(), b.as_str())
}

/// Sorts strings in text order.
pub fn sort_strings(v: Vec<String>) -> (r: Vec<String>)
    ensures
        texts(r@) == sorted_texts(texts(v@)),
{
    let ghost le = |a: String, b: String| text_le(a@, b@);
    proof {
        stable_sort_map(
            v@,
            le,
            |s: String| s@,
            |a: Seq<char>, b: Seq<char>| text_le(a, b),
        );
    }
    sort_by(v, string_le, Ghost(le))
}

/// Lists that hold the same texts are sorted into the same list.
pub proof fn texts_sort_alike(a: Seq<Seq<char>>, b: Seq<Seq<char>>)
    requires
        a.to_multiset() == b.to_multiset(),
    ensures
        sorted_texts(a) == sorted_texts(b),
{
    let le = |x: Seq<char>, y: Seq<char>| text_le(x, y);
    assert forall|x: Seq<char>, y: Seq<char>| #[trigger] le(x, y) || le(y, x) by {
        text_le_total(x, y);
    }
    assert forall|x: Seq<char>, y: Seq<char>, z: Seq<char>| #[trigger]
        le(x, y) && #[trigger] le(y, z) implies le(x, z) by {
        text_le_transitive(x, y, z);
    }
    assert forall|x: Seq<char>, y: Seq<char>| #[trigger] le(x, y) && #[trigger] le(y, x) implies x
        == y by {
        text_le_antisymmetric(x, y);
    }
    stable_sort_permutes(a, le);
    stable_sort_permutes(b, le);
    stable_sort_sorts(a, le);
    stable_sort_sorts(b, le);
    lemma_sorted_once(stable_sort(a, le), stable_sort(b, le), le);
}

/// Two sorted lists of the same items are the same.
proof fn lemma_sorted_once<T>(x: Seq<T>, y: Seq<T>, le: spec_fn(T, T) -> bool)
    requires
        is_total(le),
        forall|a: T, b: T| #[trigger] le(a, b) && #[trigger] le(b, a) ==> a == b,
        is_sorted(x, le),
        is_sorted(y, le),
        x.to_multiset() == y.to_multiset(),
    ensures
        x == y,
    decreases x.len(),
{
    broadcast use vstd::multiset::group_multiset_axioms;
    broadcast use vstd::seq_lib::group_to_multiset_ensures;

    assert(x.len() == x.to_multiset().len() && y.len() == y.to_multiset().len());
    if x.len() == 0 {
        assert(x =~= y);
    } else {
        let n = x.len() - 1;
        assert(x.contains(x[n]) && y.contains(y[n]));
        assert(y.to_multiset().count(x[n]) > 0 && x.to_multiset().count(y[n]) > 0);
        assert(y.contains(x[n]) && x.contains(y[n]));
        let i = choose|i: int| 0 <= i < y.len() && y[i] == x[n];
        let j = choose|j: int| 0 <= j < x.len() && x[j] == y[n];
        assert(i == n || le(y[i], y[n]));
        assert(j == n || le(x[j], x[n]));
        assert(x[n] == y[n]);
        assert(x.drop_last().push(x[n]) =~= x);
        assert(y.drop_last().push(y[n]) =~= y);
        assert(x.drop_last().to_multiset() =~= x.to_multiset().remove(x[n]));
        assert(y.drop_last().to_multiset() =~= y.to_multiset().remove(y[n]));
        assert(is_sorted(x.drop_last(), le)) by {
            assert forall|a: int, b: int| 0 <= a < b < x.drop_last().len() implies #[trigger] le(
                x.drop_last()[a],
                x.drop_last()[b],
            ) by {
                assert(le(x[a], x[b]));
            }
        }
        assert(is_sorted(y.drop_last(), le)) by {
            assert forall|a: int, b: int| 0 <= a < b < y.drop_last().len() implies #[trigger] le(
                y.drop_last()[a],
                y.drop_last()[b],
            ) by {
                assert(le(y[a], y[b]));
            }
        }
        lemma_sorted_once(x.drop_last(), y.drop_last(), le);
    }
}

} // verus!
