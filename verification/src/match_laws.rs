//! What tensor names are matched by: the end of a dotted name.

use vstd::prelude::*;
use crate::diff_laws;
use crate::order;
use crate::tensor_match;
use crate::tensor_match::TensorMatch;
use crate::text;

verus! {

/// How many dots the text holds.
pub open spec fn dots(s: Seq<char>) -> nat
    decreases s.len(),
{
    if s.len() == 0 {
        0
    } else {
        dots(s.drop_last()) + if s.last() == '.' {
            1nat
        } else {
            0
        }
    }
}

/// The text is made of `n` components, each with the dot behind it.
pub open spec fn is_head(s: Seq<char>, n: nat) -> bool {
    dots(s) == n && (s.len() > 0 ==> s.last() == '.')
}

/// The name is a head of `n` components and the given rest.
pub open spec fn splits(name: Seq<char>, n: nat, rest: Seq<char>) -> bool {
    exists|head: Seq<char>| name == #[trigger] (head + rest) && is_head(head, n)
}

proof fn lemma_dots_concat(a: Seq<char>, b: Seq<char>)
    ensures
        dots(a + b) == dots(a) + dots(b),
    decreases b.len(),
{
    if b.len() == 0 {
        assert(a + b =~= a);
    } else {
        lemma_dots_concat(a, b.drop_last());
        assert((a + b).drop_last() =~= a + b.drop_last());
    }
}

proof fn lemma_no_dots(s: Seq<char>)
    requires
        forall|i: int| 0 <= i < s.len() ==> #[trigger] s[i] != '.',
    ensures
        dots(s) == 0,
    decreases s.len(),
{
    if s.len() > 0 {
        let init = s.drop_last();
        assert forall|i: int| 0 <= i < init.len() implies #[trigger] init[i] != '.' by {
            assert(init[i] == s[i]);
        }
        lemma_no_dots(init);
        assert(s[s.len() - 1] != '.');
    }
}

proof fn lemma_find(s: Seq<char>, from: int)
    requires
        0 <= from <= s.len(),
    ensures
        from <= text::find_from(s, '.', from) <= s.len(),
        text::find_from(s, '.', from) < s.len() ==> s[text::find_from(s, '.', from)] == '.',
        forall|i: int| from <= i < text::find_from(s, '.', from) ==> #[trigger] s[i] != '.',
    decreases s.len() - from,
{
    if from < s.len() && s[from] != '.' {
        lemma_find(s, from + 1);
    }
}

/// Dropping components takes them off the front, each with the dot behind it,
/// and fails just where the name has no more dots.
pub proof fn stripping_takes_off_the_front(name: Seq<char>, n: nat)
    ensures
        match tensor_match::stripped(name, n) {
            Some(rest) => splits(name, n, rest),
            None => dots(name) < n,
        },
    decreases n,
{
    if n == 0 {
        assert(name =~= seq![] + name);
        assert(dots(Seq::<char>::empty()) == 0);
        assert(is_head(Seq::<char>::empty(), 0));
        assert(name == Seq::<char>::empty() + name);
    } else {
        let i = text::find_from(name, '.', 0);
        lemma_find(name, 0);
        if i < name.len() {
            let first = name.take(i + 1);
            let tail = name.skip(i + 1);
            assert(name =~= first + tail);
            assert(first.drop_last() =~= name.take(i));
            lemma_no_dots(name.take(i));
            assert(dots(first) == 1);
            lemma_dots_concat(first, tail);
            stripping_takes_off_the_front(tail, (n - 1) as nat);
            match tensor_match::stripped(tail, (n - 1) as nat) {
                Some(rest) => {
                    let head = choose|head: Seq<char>|
                        tail == #[trigger] (head + rest) && is_head(head, (n - 1) as nat);
                    lemma_dots_concat(first, head);
                    assert(name =~= (first + head) + rest);
                    if head.len() > 0 {
                        assert((first + head).last() == head.last());
                    } else {
                        assert(first + head =~= first);
                    }
                    assert(is_head(first + head, n));
                },
                None => {},
            }
        } else {
            assert(forall|k: int| 0 <= k < name.len() ==> #[trigger] name[k] != '.');
            lemma_no_dots(name);
        }
    }
}

/// Both names end in the same text, in front of which each has at most five
/// components of its own.
pub open spec fn ends_alike(a: Seq<char>, b: Seq<char>) -> bool {
    exists|t: Seq<char>, n: nat, k: nat|
        t.len() > 0 && n <= 5 && k <= 5 && #[trigger] splits(a, n, t) && #[trigger] splits(
            b,
            k,
            t,
        )
}

spec fn all_alike(ps: Seq<(Seq<char>, Seq<char>)>) -> bool {
    forall|i: int| 0 <= i < ps.len() ==> alike(#[trigger] ps[i])
}

spec fn alike(p: (Seq<char>, Seq<char>)) -> bool {
    p.0 == p.1 || ends_alike(p.0, p.1)
}

proof fn lemma_found_alike(o: Seq<Seq<char>>, m: Seq<Seq<char>>, so: nat, sm: nat)
    requires
        so <= 5,
        sm <= 5,
    ensures
        all_alike(tensor_match::pairs_under(o, m, so, sm)),
{
    let names = order::sorted_texts(o);
    let le = |a: Seq<char>, b: Seq<char>| order::text_le(a, b);
    order::stable_sort_permutes(o, le);
    let ps = tensor_match::pairs_under(o, m, so, sm);
    assert forall|i: int| 0 <= i < ps.len() implies alike(#[trigger] ps[i]) by {
        tensor_match::lemma_pairs_among(names, o, m, so, sm, o.len() as int, i);
        let p = ps[i];
        let t = tensor_match::key(p.0, so)->0;
        stripping_takes_off_the_front(p.0, so);
        stripping_takes_off_the_front(p.1, sm);
        assert(splits(p.0, so, t) && splits(p.1, sm, t));
    }
}

proof fn lemma_rounds_alike(s: tensor_match::Matching)
    requires
        all_alike(s.pairs),
    ensures
        all_alike(tensor_match::rounds(s).pairs),
    decreases s.orig_only.len(),
{
    let (so, sm) = tensor_match::best_depths(s.orig_only, s.mod_only);
    let found = tensor_match::pairs_under(s.orig_only, s.mod_only, so, sm);
    let rest = tensor_match::without(s.orig_only, tensor_match::firsts(found));
    if !((so == 0 && sm == 0) || found.len() == 0 || rest.len() >= s.orig_only.len()) {
        best_depths_match_most(s.orig_only, s.mod_only, 0, 0);
        lemma_found_alike(s.orig_only, s.mod_only, so, sm);
        let ps = s.pairs + found;
        assert forall|i: int| 0 <= i < ps.len() implies alike(#[trigger] ps[i]) by {
            if i < s.pairs.len() {
                assert(alike(s.pairs[i]));
            } else {
                assert(alike(found[i - s.pairs.len()]));
            }
        }
        lemma_rounds_alike(
            tensor_match::Matching {
                pairs: ps,
                orig_only: rest,
                mod_only: tensor_match::without(s.mod_only, tensor_match::seconds(found)),
            },
        );
    }
}

/// Matched names are equal or end alike: they differ only in the first
/// components of either one.
pub proof fn matched_names_end_alike(
    orig_names: Seq<String>,
    mod_names: Seq<String>,
    r: TensorMatch,
    i: int,
)
    requires
        r@ == tensor_match::matching(order::texts(orig_names), order::texts(mod_names)),
        0 <= i < r.pairs@.len(),
    ensures
        r.pairs@[i].0@ == r.pairs@[i].1@ || ends_alike(r.pairs@[i].0@, r.pairs@[i].1@),
{
    let o = order::texts(orig_names);
    let m = order::texts(mod_names);
    let e = tensor_match::exact_matches(o, m);
    lemma_rounds_alike(e);
    let ps = tensor_match::rounds(e).pairs;
    let le = |a: (Seq<char>, Seq<char>), b: (Seq<char>, Seq<char>)| order::text_le(a.0, b.0);
    let p = r@.pairs[i];
    assert(p == (r.pairs@[i].0@, r.pairs@[i].1@));
    diff_laws::sorting_keeps_members(ps, le, p);
    assert(order::stable_sort(ps, le).contains(p));
    let j = choose|j: int| 0 <= j < ps.len() && ps[j] == p;
    assert(alike(ps[j]));
}

proof fn lemma_best_choice(o: Seq<Seq<char>>, m: Seq<Seq<char>>, t: nat, u: nat)
    requires
        0 < u <= t,
    ensures
        ({
            let b = tensor_match::best_choice(o, m, t);
            let c = tensor_match::match_count(o, m, u / 6, u % 6);
            &&& b.0 <= t
            &&& c <= b.1
            &&& u < b.0 ==> c < b.1
            &&& b.0 == 0 ==> b.1 == 0
            &&& b.0 > 0 ==> b.1 == tensor_match::match_count(o, m, b.0 / 6, b.0 % 6) && b.1 > 0
        }),
    decreases t,
{
    let p = tensor_match::best_choice(o, m, (t - 1) as nat);
    if t > 1 {
        if u < t {
            lemma_best_choice(o, m, (t - 1) as nat, u);
        } else {
            lemma_best_choice(o, m, (t - 1) as nat, 1);
        }
    } else {
        assert(p == (0nat, 0nat));
    }
}

/// The numbers of components to drop are at most five on either side, and no
/// others up to five match more names; of those that match as many they drop the
/// fewest of the original's components, and then of the modified side's. Where
/// whole names match, or nothing does, nothing is dropped.
pub proof fn best_depths_match_most(o: Seq<Seq<char>>, m: Seq<Seq<char>>, so: nat, sm: nat)
    requires
        so <= 5,
        sm <= 5,
    ensures
        ({
            let b = tensor_match::best_depths(o, m);
            let c = tensor_match::match_count(o, m, so, sm);
            let top = tensor_match::match_count(o, m, b.0, b.1);
            &&& b.0 <= 5 && b.1 <= 5
            &&& tensor_match::match_count(o, m, 0, 0) > 0 ==> b == (0nat, 0nat)
            &&& tensor_match::match_count(o, m, 0, 0) == 0 ==> c <= top
            &&& tensor_match::match_count(o, m, 0, 0) == 0 && c == top ==> b.0 < so || (b.0 == so
                && b.1 <= sm) || c == 0
            &&& b != (0nat, 0nat) ==> top > 0
        }),
{
    let u = so * 6 + sm;
    assert(u / 6 == so && u % 6 == sm);
    let t = tensor_match::best_choice(o, m, 35).0;
    if tensor_match::match_count(o, m, 0, 0) == 0 {
        lemma_best_choice(o, m, 35, 1);
        if u > 0 {
            lemma_best_choice(o, m, 35, u as nat);
        }
        assert(t == (t / 6) * 6 + t % 6);
    }
}

proof fn lemma_once(ks: Seq<Option<Seq<char>>>, k: Seq<char>, i: int)
    requires
        0 <= i < ks.len(),
        ks[i] == Some(k),
        forall|j: int| 0 <= j < ks.len() && j != i ==> #[trigger] ks[j] != Some(k),
    ensures
        tensor_match::occurrences(ks, k) == 1,
    decreases ks.len(),
{
    let init = ks.drop_last();
    if i < ks.len() - 1 {
        assert forall|j: int| 0 <= j < init.len() && j != i implies #[trigger] init[j] != Some(
            k,
        ) by {
            assert(init[j] == ks[j]);
        }
        lemma_once(init, k, i);
        assert(ks[ks.len() - 1] != Some(k));
    } else {
        assert forall|j: int| 0 <= j < init.len() implies #[trigger] init[j] != Some(k) by {
            assert(init[j] == ks[j]);
        }
        lemma_never(init, k);
    }
}

proof fn lemma_never(ks: Seq<Option<Seq<char>>>, k: Seq<char>)
    requires
        forall|j: int| 0 <= j < ks.len() ==> #[trigger] ks[j] != Some(k),
    ensures
        tensor_match::occurrences(ks, k) == 0,
    decreases ks.len(),
{
    if ks.len() > 0 {
        let init = ks.drop_last();
        assert forall|j: int| 0 <= j < init.len() implies #[trigger] init[j] != Some(k) by {
            assert(init[j] == ks[j]);
        }
        lemma_never(init, k);
        assert(ks[ks.len() - 1] != Some(k));
    }
}

proof fn lemma_pair_found(
    names: Seq<Seq<char>>,
    o: Seq<Seq<char>>,
    m: Seq<Seq<char>>,
    so: nat,
    sm: nat,
    n: int,
    a: int,
)
    requires
        0 <= a < n <= names.len(),
        tensor_match::is_unique(
            tensor_match::key(names[a], so),
            tensor_match::keys(o, so),
            tensor_match::keys(m, sm),
        ),
    ensures
        tensor_match::pairs_among(names, o, m, so, sm, n).contains(
            (
                names[a],
                m[tensor_match::key_place(
                    tensor_match::keys(m, sm),
                    tensor_match::key(names[a], so)->0,
                )],
            ),
        ),
    decreases n,
{
    let ps = tensor_match::pairs_among(names, o, m, so, sm, n);
    let p = (
        names[a],
        m[tensor_match::key_place(
            tensor_match::keys(m, sm),
            tensor_match::key(names[a], so)->0,
        )],
    );
    if a == n - 1 {
        assert(ps.last() == p);
        assert(ps[ps.len() - 1] == p);
    } else {
        lemma_pair_found(names, o, m, so, sm, n - 1, a);
        let before = tensor_match::pairs_among(names, o, m, so, sm, n - 1);
        let k = choose|k: int| 0 <= k < before.len() && before[k] == p;
        assert(ps[k] == p);
    }
}

/// Names that alone on their side end in a text, once their first components
/// are dropped, are paired.
pub proof fn unique_ends_are_paired(
    o: Seq<Seq<char>>,
    m: Seq<Seq<char>>,
    so: nat,
    sm: nat,
    i: int,
    j: int,
    t: Seq<char>,
)
    requires
        0 <= i < o.len(),
        0 <= j < m.len(),
        t.len() > 0,
        tensor_match::stripped(o[i], so) == Some(t),
        tensor_match::stripped(m[j], sm) == Some(t),
        forall|k: int|
            0 <= k < o.len() && k != i ==> tensor_match::stripped(#[trigger] o[k], so) != Some(t),
        forall|k: int|
            0 <= k < m.len() && k != j ==> tensor_match::stripped(#[trigger] m[k], sm) != Some(t),
    ensures
        tensor_match::pairs_under(o, m, so, sm).contains((o[i], m[j])),
{
    let oks = tensor_match::keys(o, so);
    let mks = tensor_match::keys(m, sm);
    assert forall|k: int| 0 <= k < oks.len() && k != i implies #[trigger] oks[k] != Some(t) by {
        assert(oks[k] == tensor_match::key(o[k], so));
    }
    assert forall|k: int| 0 <= k < mks.len() && k != j implies #[trigger] mks[k] != Some(t) by {
        assert(mks[k] == tensor_match::key(m[k], sm));
    }
    assert(oks[i] == Some(t) && mks[j] == Some(t));
    lemma_once(oks, t, i);
    lemma_once(mks, t, j);
    tensor_match::lemma_key_place(mks, t);
    let place = tensor_match::key_place(mks, t);
    assert(place == j);
    let names = order::sorted_texts(o);
    let le = |a: Seq<char>, b: Seq<char>| order::text_le(a, b);
    order::stable_sort_permutes(o, le);
    diff_laws::sorting_keeps_members(o, le, o[i]);
    assert(o.contains(o[i]));
    let a = choose|a: int| 0 <= a < names.len() && names[a] == o[i];
    lemma_pair_found(names, o, m, so, sm, o.len() as int, a);
}

proof fn lemma_occurrence(ks: Seq<Option<Seq<char>>>, k: Seq<char>) -> (i: int)
    requires
        tensor_match::occurrences(ks, k) >= 1,
    ensures
        0 <= i < ks.len(),
        ks[i] == Some(k),
    decreases ks.len(),
{
    if ks.last() == Some(k) {
        ks.len() - 1
    } else {
        lemma_occurrence(ks.drop_last(), k)
    }
}

proof fn lemma_two_occurrences(ks: Seq<Option<Seq<char>>>, k: Seq<char>) -> (p: (int, int))
    requires
        tensor_match::occurrences(ks, k) >= 2,
    ensures
        0 <= p.0 < p.1 < ks.len(),
        ks[p.0] == Some(k),
        ks[p.1] == Some(k),
    decreases ks.len(),
{
    if ks.last() == Some(k) {
        let i = lemma_occurrence(ks.drop_last(), k);
        (i, ks.len() - 1)
    } else {
        lemma_two_occurrences(ks.drop_last(), k)
    }
}

proof fn lemma_some_unique(
    oks: Seq<Option<Seq<char>>>,
    mks: Seq<Option<Seq<char>>>,
    n: int,
) -> (i: int)
    requires
        tensor_match::unique_keys(oks, mks, n) > 0,
    ensures
        0 <= i < n,
        tensor_match::is_unique(oks[i], oks, mks),
    decreases n,
{
    if tensor_match::is_unique(oks[n - 1], oks, mks) {
        n - 1
    } else {
        lemma_some_unique(oks, mks, n - 1)
    }
}

proof fn lemma_unique_counts(
    oks: Seq<Option<Seq<char>>>,
    mks: Seq<Option<Seq<char>>>,
    n: int,
    i: int,
)
    requires
        0 <= i < n,
        tensor_match::is_unique(oks[i], oks, mks),
    ensures
        tensor_match::unique_keys(oks, mks, n) > 0,
    decreases n,
{
    if i < n - 1 {
        lemma_unique_counts(oks, mks, n - 1, i);
    }
}

proof fn lemma_without(names: Seq<Seq<char>>, gone: Seq<Seq<char>>, x: Seq<char>)
    ensures
        tensor_match::without(names, gone).contains(x) == (names.contains(x) && !gone.contains(x)),
    decreases names.len(),
{
    if names.len() > 0 {
        let init = names.drop_last();
        let l = names.last();
        lemma_without(init, gone, x);
        assert(names =~= init.push(l));
        diff_laws::lemma_push_contains(init, l, x);
        diff_laws::lemma_push_contains(tensor_match::without(init, gone), l, x);
    }
}

proof fn lemma_shared(names: Seq<Seq<char>>, other: Seq<Seq<char>>, x: Seq<char>)
    ensures
        tensor_match::shared(names, other).contains(x) == (names.contains(x) && other.contains(x)),
    decreases names.len(),
{
    if names.len() > 0 {
        let init = names.drop_last();
        let l = names.last();
        lemma_shared(init, other, x);
        assert(names =~= init.push(l));
        diff_laws::lemma_push_contains(init, l, x);
        diff_laws::lemma_push_contains(tensor_match::shared(init, other), l, x);
    }
}

/// No name is left on both sides.
spec fn sides_differ(s: tensor_match::Matching) -> bool {
    forall|x: Seq<char>| s.orig_only.contains(x) ==> !s.mod_only.contains(x)
}

proof fn lemma_no_whole_match(o: Seq<Seq<char>>, m: Seq<Seq<char>>)
    requires
        forall|x: Seq<char>| o.contains(x) ==> !m.contains(x),
    ensures
        tensor_match::match_count(o, m, 0, 0) == 0,
{
    let oks = tensor_match::keys(o, 0);
    let mks = tensor_match::keys(m, 0);
    if tensor_match::match_count(o, m, 0, 0) > 0 {
        let i = lemma_some_unique(oks, mks, o.len() as int);
        let t = oks[i]->0;
        let j = lemma_occurrence(mks, t);
        assert(oks[i] == tensor_match::key(o[i], 0));
        assert(mks[j] == tensor_match::key(m[j], 0));
        assert(o.contains(o[i]) && m.contains(m[j]));
        assert(o[i] == m[j]);
    }
}

/// Nothing that is left matches under any numbers of dropped components.
spec fn exhausted(s: tensor_match::Matching) -> bool {
    forall|so: nat, sm: nat|
        so <= 5 && sm <= 5 ==> #[trigger] tensor_match::match_count(
            s.orig_only,
            s.mod_only,
            so,
            sm,
        ) == 0
}

proof fn lemma_rounds_exhaust(s: tensor_match::Matching)
    requires
        sides_differ(s),
    ensures
        exhausted(tensor_match::rounds(s)),
    decreases s.orig_only.len(),
{
    let o = s.orig_only;
    let m = s.mod_only;
    lemma_no_whole_match(o, m);
    let (so, sm) = tensor_match::best_depths(o, m);
    let found = tensor_match::pairs_under(o, m, so, sm);
    let rest = tensor_match::without(o, tensor_match::firsts(found));
    best_depths_match_most(o, m, 0, 0);
    if so == 0 && sm == 0 {
        assert forall|a: nat, b: nat| a <= 5 && b <= 5 implies #[trigger] tensor_match::match_count(
            o,
            m,
            a,
            b,
        ) == 0 by {
            best_depths_match_most(o, m, a, b);
        }
    } else {
        let oks = tensor_match::keys(o, so);
        let mks = tensor_match::keys(m, sm);
        let i = lemma_some_unique(oks, mks, o.len() as int);
        let names = order::sorted_texts(o);
        let le = |a: Seq<char>, b: Seq<char>| order::text_le(a, b);
        diff_laws::sorting_keeps_members(o, le, o[i]);
        assert(o.contains(o[i]));
        let a = choose|a: int| 0 <= a < names.len() && names[a] == o[i];
        assert(oks[i] == tensor_match::key(names[a], so));
        lemma_pair_found(names, o, m, so, sm, o.len() as int, a);
        assert(found.len() > 0);
        tensor_match::lemma_round_shrinks(o, m, so, sm);
        let next = tensor_match::Matching {
            pairs: s.pairs + found,
            orig_only: rest,
            mod_only: tensor_match::without(m, tensor_match::seconds(found)),
        };
        assert forall|x: Seq<char>| next.orig_only.contains(x) implies !next.mod_only.contains(
            x,
        ) by {
            lemma_without(o, tensor_match::firsts(found), x);
            lemma_without(m, tensor_match::seconds(found), x);
        }
        lemma_rounds_exhaust(next);
    }
}

/// A name with the given end is left besides the one at `i`.
pub open spec fn another_ends_so(names: Seq<String>, i: int, n: nat, t: Seq<char>) -> bool {
    exists|k: int|
        0 <= k < names.len() && k != i && tensor_match::stripped(#[trigger] names[k]@, n) == Some(t)
}

proof fn lemma_another(
    all: Seq<Seq<char>>,
    names: Seq<String>,
    i: int,
    n: nat,
    t: Seq<char>,
)
    requires
        0 <= i < names.len(),
        order::texts(names) == order::sorted_texts(all),
        order::texts(names).no_duplicates(),
        tensor_match::occurrences(tensor_match::keys(all, n), t) >= 2,
    ensures
        another_ends_so(names, i, n, t),
{
    let ks = tensor_match::keys(all, n);
    let le = |a: Seq<char>, b: Seq<char>| order::text_le(a, b);
    let (a, b) = lemma_two_occurrences(ks, t);
    assert(ks[a] == tensor_match::key(all[a], n) && ks[b] == tensor_match::key(all[b], n));
    let ts = order::texts(names);
    order::stable_sort_permutes(all, le);
    all.to_multiset_ensures();
    ts.to_multiset_ensures();
    ts.lemma_multiset_has_no_duplicates();
    lemma_distinct_from(all, ts, a, b);
    let x = if all[a] != names[i]@ {
        all[a]
    } else {
        all[b]
    };
    assert(all.contains(x));
    diff_laws::sorting_keeps_members(all, le, x);
    let k = choose|k: int| 0 <= k < ts.len() && ts[k] == x;
    assert(ts[k] == names[k]@);
}

proof fn lemma_distinct_from(all: Seq<Seq<char>>, ts: Seq<Seq<char>>, a: int, b: int)
    requires
        all.to_multiset() == ts.to_multiset(),
        ts.no_duplicates(),
        0 <= a < b < all.len(),
    ensures
        all[a] != all[b],
{
    if all[a] == all[b] {
        let x = all[a];
        ts.lemma_multiset_has_no_duplicates();
        let init = all.take(b);
        let tail = all.skip(b + 1);
        assert(all =~= init.push(all[b]) + tail);
        vstd::seq_lib::lemma_multiset_commutative(init.push(all[b]), tail);
        init.to_multiset_ensures();
        assert(init[a] == x);
        assert(init.contains(x));
        assert(init.push(all[b]).to_multiset().count(x) >= 2);
        assert(all.to_multiset().count(x) >= 2);
        assert(ts.to_multiset().count(x) <= 1);
    }
}

/// Matching leaves nothing that it could match: where a name that is left over
/// ends like one that is left over on the other side, the end is not unique on
/// one of the two.
pub proof fn leftovers_have_no_unique_end(
    orig_names: Seq<String>,
    mod_names: Seq<String>,
    r: TensorMatch,
    i: int,
    j: int,
    so: nat,
    sm: nat,
    t: Seq<char>,
)
    requires
        r@ == tensor_match::matching(order::texts(orig_names), order::texts(mod_names)),
        0 <= i < r.orig_only@.len(),
        0 <= j < r.mod_only@.len(),
        so <= 5,
        sm <= 5,
        t.len() > 0,
        tensor_match::stripped(r.orig_only@[i]@, so) == Some(t),
        tensor_match::stripped(r.mod_only@[j]@, sm) == Some(t),
    ensures
        another_ends_so(r.orig_only@, i, so, t) || another_ends_so(r.mod_only@, j, sm, t),
{
    let o = order::texts(orig_names);
    let m = order::texts(mod_names);
    let e = tensor_match::exact_matches(o, m);
    let od = tensor_match::distinct(o);
    let md = tensor_match::distinct(m);
    let same = tensor_match::shared(od, md);
    assert forall|x: Seq<char>| e.orig_only.contains(x) implies !e.mod_only.contains(x) by {
        lemma_without(od, same, x);
        lemma_without(md, same, x);
        lemma_shared(od, md, x);
    }
    lemma_rounds_exhaust(e);
    let s = tensor_match::rounds(e);
    tensor_match::matching_is_one_to_one(o, m);
    let firsts = tensor_match::firsts(r@.pairs);
    let seconds = tensor_match::seconds(r@.pairs);
    lemma_tail_distinct(firsts, r@.orig_only);
    lemma_tail_distinct(seconds, r@.mod_only);
    let le = |a: Seq<char>, b: Seq<char>| order::text_le(a, b);
    let x = r.orig_only@[i]@;
    let y = r.mod_only@[j]@;
    assert(r@.orig_only[i] == x && r@.mod_only[j] == y);
    diff_laws::sorting_keeps_members(s.orig_only, le, x);
    diff_laws::sorting_keeps_members(s.mod_only, le, y);
    assert(r@.orig_only.contains(x) && r@.mod_only.contains(y));
    let a = choose|a: int| 0 <= a < s.orig_only.len() && s.orig_only[a] == x;
    let b = choose|b: int| 0 <= b < s.mod_only.len() && s.mod_only[b] == y;
    let oks = tensor_match::keys(s.orig_only, so);
    let mks = tensor_match::keys(s.mod_only, sm);
    assert(oks[a] == tensor_match::key(x, so) && oks[a] == Some(t));
    assert(mks[b] == tensor_match::key(y, sm) && mks[b] == Some(t));
    tensor_match::lemma_occurs_once(oks, t, a);
    tensor_match::lemma_occurs_once(mks, t, b);
    assert(tensor_match::match_count(s.orig_only, s.mod_only, so, sm) == 0);
    if tensor_match::is_unique(oks[a], oks, mks) {
        lemma_unique_counts(oks, mks, s.orig_only.len() as int, a);
    }
    if tensor_match::occurrences(oks, t) >= 2 {
        lemma_another(s.orig_only, r.orig_only@, i, so, t);
    } else {
        lemma_another(s.mod_only, r.mod_only@, j, sm, t);
    }
}

proof fn lemma_tail_distinct(a: Seq<Seq<char>>, b: Seq<Seq<char>>)
    requires
        (a + b).no_duplicates(),
    ensures
        b.no_duplicates(),
{
    assert forall|i: int, j: int| 0 <= i < b.len() && 0 <= j < b.len() && i != j implies b[i]
        != b[j] by {
        assert((a + b)[a.len() + i] == b[i]);
        assert((a + b)[a.len() + j] == b[j]);
    }
}

} // verus!
