//! Which tensors of two models belong together.
//!
//! Names that are the same on both sides are matched first. The rest is matched
//! by what is left of the names once leading path components are dropped, with
//! the number of components chosen per side such that most names match.

use vstd::prelude::*;
use crate::hf_url;
use crate::order;
use crate::order::{sort_by, sort_strings, str_le};
use crate::text;
use crate::text::{chars_of, find_char, str_eq, text_of};

verus! {

/// What is left of a dotted name without its first `n` components.
pub open spec fn stripped(name: Seq<char>, n: nat) -> Option<Seq<char>>
    decreases n,
{
    if n == 0 {
        Some(name)
    } else {
        let i = text::find_from(name, '.', 0);
        if i < name.len() {
            stripped(name.skip(i + 1), (n - 1) as nat)
        } else {
            None
        }
    }
}

/// What a name is matched by; nothing where nothing is left of it.
pub open spec fn key(name: Seq<char>, n: nat) -> Option<Seq<char>> {
    match stripped(name, n) {
        Some(s) => if s.len() > 0 {
            Some(s)
        } else {
            None
        },
        None => None,
    }
}

/// What each name is matched by.
pub open spec fn keys(names: Seq<Seq<char>>, n: nat) -> Seq<Option<Seq<char>>> {
    names.map_values(|s: Seq<char>| key(s, n))
}

/// How often a key occurs.
pub open spec fn occurrences(ks: Seq<Option<Seq<char>>>, k: Seq<char>) -> nat
    decreases ks.len(),
{
    if ks.len() == 0 {
        0
    } else {
        occurrences(ks.drop_last(), k) + if ks.last() == Some(k) {
            1nat
        } else {
            0
        }
    }
}

/// The key occurs exactly once on both sides.
pub open spec fn is_unique(
    k: Option<Seq<char>>,
    oks: Seq<Option<Seq<char>>>,
    mks: Seq<Option<Seq<char>>>,
) -> bool {
    match k {
        Some(t) => occurrences(oks, t) == 1 && occurrences(mks, t) == 1,
        None => false,
    }
}

/// How many of the first `n` keys occur exactly once on both sides.
pub open spec fn unique_keys(
    oks: Seq<Option<Seq<char>>>,
    mks: Seq<Option<Seq<char>>>,
    n: int,
) -> nat
    decreases n,
{
    if n <= 0 {
        0
    } else {
        unique_keys(oks, mks, n - 1) + if is_unique(oks[n - 1], oks, mks) {
            1nat
        } else {
            0
        }
    }
}

/// How many names match with these numbers of components dropped.
pub open spec fn match_count(o: Seq<Seq<char>>, m: Seq<Seq<char>>, so: nat, sm: nat) -> nat {
    unique_keys(keys(o, so), keys(m, sm), o.len() as int)
}

/// The best of the first `t` choices after the first, counted row by row from
/// `(0, 0)`, with the number of its matches; an earlier one wins a tie.
pub open spec fn best_choice(o: Seq<Seq<char>>, m: Seq<Seq<char>>, t: nat) -> (nat, nat)
    decreases t,
{
    if t == 0 {
        (0, 0)
    } else {
        let prev = best_choice(o, m, (t - 1) as nat);
        let c = match_count(o, m, t / 6, t % 6);
        if c > prev.1 {
            (t, c)
        } else {
            prev
        }
    }
}

/// How many components to drop on either side, up to five; none where whole
/// names match already.
pub open spec fn best_depths(o: Seq<Seq<char>>, m: Seq<Seq<char>>) -> (nat, nat) {
    if match_count(o, m, 0, 0) > 0 {
        (0, 0)
    } else {
        let t = best_choice(o, m, 35).0;
        (t / 6, t % 6)
    }
}

/// The place of the first occurrence of a key.
pub open spec fn key_place(ks: Seq<Option<Seq<char>>>, k: Seq<char>) -> int
    decreases ks.len(),
{
    if ks.len() == 0 {
        0
    } else if key_place(ks.drop_last(), k) < ks.len() - 1 {
        key_place(ks.drop_last(), k)
    } else if ks.last() == Some(k) {
        ks.len() - 1
    } else {
        ks.len() as int
    }
}

/// The pairs of the first `n` names of a list.
pub open spec fn pairs_among(
    names: Seq<Seq<char>>,
    o: Seq<Seq<char>>,
    m: Seq<Seq<char>>,
    so: nat,
    sm: nat,
    n: int,
) -> Seq<(Seq<char>, Seq<char>)>
    decreases n,
{
    if n <= 0 {
        seq![]
    } else {
        let before = pairs_among(names, o, m, so, sm, n - 1);
        if is_unique(key(names[n - 1], so), keys(o, so), keys(m, sm)) {
            before.push(
                (names[n - 1], m[key_place(keys(m, sm), key(names[n - 1], so)->0)]),
            )
        } else {
            before
        }
    }
}

/// The pairs under fixed numbers of dropped components, ordered by the
/// original's names.
pub open spec fn pairs_under(
    o: Seq<Seq<char>>,
    m: Seq<Seq<char>>,
    so: nat,
    sm: nat,
) -> Seq<(Seq<char>, Seq<char>)> {
    pairs_among(order::sorted_texts(o), o, m, so, sm, o.len() as int)
}

/// The list without the given names.
pub open spec fn without(names: Seq<Seq<char>>, gone: Seq<Seq<char>>) -> Seq<Seq<char>>
    decreases names.len(),
{
    if names.len() == 0 {
        seq![]
    } else if gone.contains(names.last()) {
        without(names.drop_last(), gone)
    } else {
        without(names.drop_last(), gone).push(names.last())
    }
}

/// The first name of each pair.
pub open spec fn firsts(ps: Seq<(Seq<char>, Seq<char>)>) -> Seq<Seq<char>> {
    ps.map_values(|p: (Seq<char>, Seq<char>)| p.0)
}

/// The second name of each pair.
pub open spec fn seconds(ps: Seq<(Seq<char>, Seq<char>)>) -> Seq<Seq<char>> {
    ps.map_values(|p: (Seq<char>, Seq<char>)| p.1)
}

/// The names without repetition.
pub open spec fn distinct(names: Seq<Seq<char>>) -> Seq<Seq<char>>
    decreases names.len(),
{
    if names.len() == 0 {
        seq![]
    } else if names.drop_last().contains(names.last()) {
        distinct(names.drop_last())
    } else {
        distinct(names.drop_last()).push(names.last())
    }
}

/// The names that the other list holds too.
pub open spec fn shared(names: Seq<Seq<char>>, other: Seq<Seq<char>>) -> Seq<Seq<char>>
    decreases names.len(),
{
    if names.len() == 0 {
        seq![]
    } else if other.contains(names.last()) {
        shared(names.drop_last(), other).push(names.last())
    } else {
        shared(names.drop_last(), other)
    }
}

/// Pairs found, and what is left on either side.
pub ghost struct Matching {
    pub pairs: Seq<(Seq<char>, Seq<char>)>,
    pub orig_only: Seq<Seq<char>>,
    pub mod_only: Seq<Seq<char>>,
}

/// Matches what is left, round by round, until a round finds nothing.
pub open spec fn rounds(s: Matching) -> Matching
    decreases s.orig_only.len(),
{
    let (so, sm) = best_depths(s.orig_only, s.mod_only);
    let found = pairs_under(s.orig_only, s.mod_only, so, sm);
    let rest = without(s.orig_only, firsts(found));
    if (so == 0 && sm == 0) || found.len() == 0 || rest.len() >= s.orig_only.len() {
        s
    } else {
        rounds(
            Matching {
                pairs: s.pairs + found,
                orig_only: rest,
                mod_only: without(s.mod_only, seconds(found)),
            },
        )
    }
}

/// Names that both sides hold are pairs at once.
pub open spec fn exact_matches(o: Seq<Seq<char>>, m: Seq<Seq<char>>) -> Matching {
    let od = distinct(o);
    let md = distinct(m);
    let same = shared(od, md);
    Matching {
        pairs: same.map_values(|s: Seq<char>| (s, s)),
        orig_only: without(od, same),
        mod_only: without(md, same),
    }
}

/// Pairs in the order of the original's names.
pub open spec fn sorted_pairs(ps: Seq<(Seq<char>, Seq<char>)>) -> Seq<(Seq<char>, Seq<char>)> {
    order::stable_sort(
        ps,
        |a: (Seq<char>, Seq<char>), b: (Seq<char>, Seq<char>)| order::text_le(a.0, b.0),
    )
}

/// The whole matching, each list in order.
pub open spec fn matching(o: Seq<Seq<char>>, m: Seq<Seq<char>>) -> Matching {
    let r = rounds(exact_matches(o, m));
    Matching {
        pairs: sorted_pairs(r.pairs),
        orig_only: order::sorted_texts(r.orig_only),
        mod_only: order::sorted_texts(r.mod_only),
    }
}

/// Result of tensor-name matching across the two sides of a diff.
#[derive(Debug)]
pub struct TensorMatch {
    /// 1-to-1 matched pairs `(orig_full, mod_full)`, sorted by `orig_full`.
    pub pairs: Vec<(String, String)>,
    /// Tensor full names present only on the original side, sorted.
    pub orig_only: Vec<String>,
    /// Tensor full names present only on the modified side, sorted.
    pub mod_only: Vec<String>,
}

/// The texts of a list of pairs.
pub open spec fn pair_texts(v: Seq<(String, String)>) -> Seq<(Seq<char>, Seq<char>)> {
    v.map_values(|p: (String, String)| (p.0@, p.1@))
}

impl View for TensorMatch {
    type V = Matching;

    open spec fn view(&self) -> Matching {
        Matching {
            pairs: pair_texts(self.pairs@),
            orig_only: order::texts(self.orig_only@),
            mod_only: order::texts(self.mod_only@),
        }
    }
}

/// The optional texts of a list.
spec fn optional_texts(v: Seq<Option<String>>) -> Seq<Option<Seq<char>>> {
    v.map_values(|o: Option<String>| hf_url::optional_text(o))
}

/// Strip the first `n` dot-delimited path components from `name`.
/// Returns the remainder after the n-th dot, or `None` if `name` has fewer
/// than n+1 components.
pub fn strip_prefix_components(name: &str, n: usize) -> (r: Option<String>)
    ensures
        hf_url::optional_text(r) == stripped(name@, n as nat),
{
    let v = chars_of(name);
    let mut at: usize = 0;
    let mut left: usize = n;
    assert(v@.skip(0) =~= v@);
    while left > 0
        invariant
            at <= v@.len(),
            stripped(v@.skip(at as int), left as nat) == stripped(name@, n as nat),
        decreases left,
    {
        let i: usize = find_char(&v, '.', at);
        proof {
            lemma_find_skip(v@, '.', at as int, 0);
        }
        if i == v.len() {
            return None;
        }
        assert(i < v.len());
        assert(v@.skip(at as int).skip(i - at + 1) =~= v@.skip(i + 1));
        at = i + 1;
        left = left - 1;
    }
    assert(v@.subrange(at as int, v@.len() as int) =~= v@.skip(at as int));
    Some(text_of(&v, at, v.len()))
}

proof fn lemma_find_skip(s: Seq<char>, c: char, at: int, from: int)
    requires
        0 <= at <= s.len(),
        0 <= from,
    ensures
        text::find_from(s.skip(at), c, from) + at == text::find_from(s, c, from + at),
    decreases s.len() - from,
{
    if from < s.len() - at {
        assert(s.skip(at)[from] == s[from + at]);
        lemma_find_skip(s, c, at, from + 1);
    }
}

fn key_of(name: &str, n: usize) -> (r: Option<String>)
    ensures
        hf_url::optional_text(r) == key(name@, n as nat),
{
    match strip_prefix_components(name, n) {
        Some(s) => {
            if str_eq(s.as_str(), "") {
                proof {
                    reveal_strlit("");
                }
                None
            } else {
                proof {
                    reveal_strlit("");
                    if s@.len() == 0 {
                        assert(s@ =~= ""@);
                    }
                }
                Some(s)
            }
        },
        None => None,
    }
}

fn keys_of(names: &Vec<String>, n: usize) -> (ks: Vec<Option<String>>)
    ensures
        optional_texts(ks@) == keys(order::texts(names@), n as nat),
{
    let mut ks: Vec<Option<String>> = Vec::new();
    let mut i: usize = 0;
    while i < names.len()
        invariant
            i <= names@.len(),
            ks@.len() == i,
            forall|j: int|
                0 <= j < i ==> hf_url::optional_text(#[trigger] ks@[j]) == key(
                    names@[j]@,
                    n as nat,
                ),
        decreases names@.len() - i,
    {
        ks.push(key_of(names[i].as_str(), n));
        i = i + 1;
    }
    assert(optional_texts(ks@) =~= keys(order::texts(names@), n as nat));
    ks
}

fn has_text(o: &Option<String>, k: &str) -> (r: bool)
    ensures
        r == (hf_url::optional_text(*o) == Some(k@)),
{
    match o {
        Some(s) => str_eq(s.as_str(), k),
        None => false,
    }
}

fn count_key(ks: &Vec<Option<String>>, k: &str) -> (n: usize)
    ensures
        n == occurrences(optional_texts(ks@), k@),
{
    let ghost ts = optional_texts(ks@);
    let mut n: usize = 0;
    let mut i: usize = 0;
    assert(ts.take(0) =~= seq![]);
    while i < ks.len()
        invariant
            i <= ks@.len(),
            n <= i,
            ts == optional_texts(ks@),
            n == occurrences(ts.take(i as int), k@),
        decreases ks@.len() - i,
    {
        assert(ts.take(i + 1).drop_last() =~= ts.take(i as int));
        assert(ts.take(i + 1).last() == hf_url::optional_text(ks@[i as int]));
        assert(i < ks.len());
        if has_text(&ks[i], k) {
            n = n + 1;
        }
        i = i + 1;
    }
    assert(ts.take(i as int) =~= ts);
    n
}

fn unique_key(k: &Option<String>, oks: &Vec<Option<String>>, mks: &Vec<Option<String>>) -> (r: bool)
    ensures
        r == is_unique(
            hf_url::optional_text(*k),
            optional_texts(oks@),
            optional_texts(mks@),
        ),
{
    match k {
        Some(t) => count_key(oks, t.as_str()) == 1 && count_key(mks, t.as_str()) == 1,
        None => false,
    }
}

fn count_matches(oks: &Vec<Option<String>>, mks: &Vec<Option<String>>) -> (n: usize)
    ensures
        n == unique_keys(optional_texts(oks@), optional_texts(mks@), oks@.len() as int),
{
    let mut n: usize = 0;
    let mut i: usize = 0;
    while i < oks.len()
        invariant
            i <= oks@.len(),
            n <= i,
            n == unique_keys(optional_texts(oks@), optional_texts(mks@), i as int),
        decreases oks@.len() - i,
    {
        assert(optional_texts(oks@)[i as int] == hf_url::optional_text(oks@[i as int]));
        assert(i < oks.len());
        if unique_key(&oks[i], oks, mks) {
            n = n + 1;
        }
        i = i + 1;
    }
    n
}

/// Find (strip_orig, strip_mod) prefix depths that maximise unique 1-to-1
/// tensor name matches. Returns (0, 0) if exact matching already produces
/// matches, and where no depths give a match.
pub fn find_strip_depths(orig_names: &Vec<String>, mod_names: &Vec<String>) -> (r: (usize, usize))
    ensures
        (r.0 as nat, r.1 as nat) == best_depths(
            order::texts(orig_names@),
            order::texts(mod_names@),
        ),
{
    let ghost o = order::texts(orig_names@);
    let ghost m = order::texts(mod_names@);
    let whole_o = keys_of(orig_names, 0);
    let whole_m = keys_of(mod_names, 0);
    assert(whole_o@.len() == optional_texts(whole_o@).len());
    if count_matches(&whole_o, &whole_m) > 0 {
        return (0, 0);
    }
    let mut best: usize = 0;
    let mut best_count: usize = 0;
    let mut t: usize = 0;
    while t < 35
        invariant
            t <= 35,
            best <= t,
            o == order::texts(orig_names@),
            m == order::texts(mod_names@),
            (best as nat, best_count as nat) == best_choice(o, m, t as nat),
        decreases 35 - t,
    {
        t = t + 1;
        let oks = keys_of(orig_names, t / 6);
        let mks = keys_of(mod_names, t % 6);
        assert(oks@.len() == optional_texts(oks@).len());
        let c: usize = count_matches(&oks, &mks);
        if c > best_count {
            best = t;
            best_count = c;
        }
    }
    (best / 6, best % 6)
}

fn place_of(ks: &Vec<Option<String>>, k: &str) -> (i: usize)
    ensures
        i == key_place(optional_texts(ks@), k@),
        i <= ks@.len(),
{
    let ghost ts = optional_texts(ks@);
    let mut found: usize = ks.len();
    let mut i: usize = 0;
    assert(ts.take(0) =~= seq![]);
    while i < ks.len()
        invariant
            i <= ks@.len(),
            ts == optional_texts(ks@),
            found <= ks@.len(),
            found < i || found == ks@.len(),
            key_place(ts.take(i as int), k@) == (if found < i {
                found as int
            } else {
                i as int
            }),
        decreases ks@.len() - i,
    {
        assert(ts.take(i + 1).drop_last() =~= ts.take(i as int));
        assert(ts.take(i + 1).last() == hf_url::optional_text(ks@[i as int]));
        if found == ks.len() && has_text(&ks[i], k) {
            found = i;
        }
        i = i + 1;
    }
    assert(ts.take(i as int) =~= ts);
    found
}

pub(crate) proof fn lemma_key_place(ks: Seq<Option<Seq<char>>>, k: Seq<char>)
    ensures
        0 <= key_place(ks, k) <= ks.len(),
        key_place(ks, k) < ks.len() ==> ks[key_place(ks, k)] == Some(k),
        occurrences(ks, k) > 0 ==> key_place(ks, k) < ks.len(),
    decreases ks.len(),
{
    if ks.len() > 0 {
        lemma_key_place(ks.drop_last(), k);
    }
}

/// Match tensors under a fixed `(strip_o, strip_m)` strip pair: pair up names
/// whose remainders occur exactly once on both sides. Returns the matched
/// `(orig_full, mod_full)` pairs only — caller drives iteration and tracks the
/// unmatched residual.
pub fn match_under_strip_depths(
    orig_names: &Vec<String>,
    mod_names: &Vec<String>,
    strip_o: usize,
    strip_m: usize,
) -> (r: Vec<(String, String)>)
    ensures
        pair_texts(r@) == pairs_under(
            order::texts(orig_names@),
            order::texts(mod_names@),
            strip_o as nat,
            strip_m as nat,
        ),
{
    let ghost o = order::texts(orig_names@);
    let ghost m = order::texts(mod_names@);
    let oks = keys_of(orig_names, strip_o);
    let mks = keys_of(mod_names, strip_m);
    let names = sort_strings(copy_strings(orig_names));
    let ghost ns = order::texts(names@);
    proof {
        order::stable_sort_permutes(o, |a: Seq<char>, b: Seq<char>| order::text_le(a, b));
        assert(ns.len() == o.len()) by {
            ns.to_multiset_ensures();
            o.to_multiset_ensures();
        }
    }
    let mut out: Vec<(String, String)> = Vec::new();
    let mut i: usize = 0;
    assert(pair_texts(out@) =~= seq![]);
    while i < names.len()
        invariant
            i <= names@.len(),
            ns == order::texts(names@),
            o == order::texts(orig_names@),
            m == order::texts(mod_names@),
            ns == order::sorted_texts(o),
            optional_texts(oks@) == keys(o, strip_o as nat),
            optional_texts(mks@) == keys(m, strip_m as nat),
            pair_texts(out@) == pairs_among(
                ns,
                o,
                m,
                strip_o as nat,
                strip_m as nat,
                i as int,
            ),
        decreases names@.len() - i,
    {
        let ghost was = pair_texts(out@);
        let k = key_of(names[i].as_str(), strip_o);
        assert(ns[i as int] == names@[i as int]@);
        if unique_key(&k, &oks, &mks) {
            if let Some(t) = k {
                let j: usize = place_of(&mks, t.as_str());
                proof {
                    lemma_key_place(keys(m, strip_m as nat), t@);
                    assert(mks@.len() == optional_texts(mks@).len());
                    assert(keys(m, strip_m as nat).len() == mod_names@.len());
                    assert(m[j as int] == mod_names@[j as int]@);
                }
                out.push((names[i].clone(), mod_names[j].clone()));
                assert(pair_texts(out@) =~= was.push((ns[i as int], m[j as int])));
            }
        }
        i = i + 1;
    }
    out
}

fn copy_strings(v: &Vec<String>) -> (c: Vec<String>)
    ensures
        order::texts(c@) == order::texts(v@),
{
    let mut c: Vec<String> = Vec::new();
    let mut i: usize = 0;
    while i < v.len()
        invariant
            i <= v@.len(),
            c@.len() == i,
            forall|j: int| 0 <= j < i ==> (#[trigger] c@[j])@ == v@[j]@,
        decreases v@.len() - i,
    {
        c.push(v[i].clone());
        i = i + 1;
    }
    assert(order::texts(c@) =~= order::texts(v@));
    c
}

/// Whether a list of strings holds a text.
pub(crate) fn holds(v: &Vec<String>, s: &str) -> (r: bool)
    ensures
        r == order::texts(v@).contains(s@),
{
    let mut i: usize = 0;
    while i < v.len()
        invariant
            i <= v@.len(),
            forall|j: int| 0 <= j < i ==> (#[trigger] v@[j])@ != s@,
        decreases v@.len() - i,
    {
        if str_eq(v[i].as_str(), s) {
            assert(order::texts(v@)[i as int] == s@);
            return true;
        }
        i = i + 1;
    }
    proof {
        if order::texts(v@).contains(s@) {
            let j = choose|j: int| 0 <= j < order::texts(v@).len() && order::texts(v@)[j] == s@;
            assert(v@[j]@ == s@);
        }
    }
    false
}

proof fn lemma_push_texts(v: Seq<String>, s: String)
    ensures
        order::texts(v.push(s)) == order::texts(v).push(s@),
{
    assert(order::texts(v.push(s)) =~= order::texts(v).push(s@));
}

pub(crate) fn distinct_names(names: &Vec<String>) -> (r: Vec<String>)
    ensures
        order::texts(r@) == distinct(order::texts(names@)),
{
    let ghost ns = order::texts(names@);
    let mut out: Vec<String> = Vec::new();
    let mut i: usize = 0;
    assert(ns.take(0) =~= seq![]);
    assert(order::texts(out@) =~= seq![]);
    while i < names.len()
        invariant
            i <= names@.len(),
            ns == order::texts(names@),
            order::texts(out@) == distinct(ns.take(i as int)),
        decreases names@.len() - i,
    {
        proof {
            assert(ns.take(i + 1).drop_last() =~= ns.take(i as int));
            assert(ns.take(i + 1).last() == names@[i as int]@);
            lemma_distinct_contains(ns.take(i as int), ns[i as int]);
        }
        if !holds(&out, names[i].as_str()) {
            proof {
                lemma_push_texts(out@, names@[i as int]);
            }
            let ghost was = order::texts(out@);
            out.push(names[i].clone());
            assert(order::texts(out@) =~= was.push(ns[i as int]));
        }
        i = i + 1;
    }
    assert(ns.take(i as int) =~= ns);
    out
}

pub(crate) proof fn lemma_distinct_contains(names: Seq<Seq<char>>, s: Seq<char>)
    ensures
        distinct(names).contains(s) == names.contains(s),
    decreases names.len(),
{
    if names.len() > 0 {
        let init = names.drop_last();
        lemma_distinct_contains(init, s);
        lemma_contains_last(names, s);
        if !init.contains(names.last()) {
            lemma_contains_push(distinct(init), names.last(), s);
        }
    }
}

proof fn lemma_contains_push<T>(v: Seq<T>, x: T, s: T)
    ensures
        v.push(x).contains(s) == (v.contains(s) || s == x),
{
    if v.contains(s) {
        let i = choose|i: int| 0 <= i < v.len() && v[i] == s;
        assert(v.push(x)[i] == s);
    }
    if s == x {
        assert(v.push(x)[v.len() as int] == s);
    }
    if v.push(x).contains(s) {
        let i = choose|i: int| 0 <= i < v.push(x).len() && v.push(x)[i] == s;
        if i < v.len() {
            assert(v[i] == s);
        }
    }
}

proof fn lemma_contains_last<T>(v: Seq<T>, s: T)
    requires
        v.len() > 0,
    ensures
        v.contains(s) == (v.drop_last().contains(s) || s == v.last()),
{
    assert(v.drop_last().push(v.last()) =~= v);
    lemma_contains_push(v.drop_last(), v.last(), s);
}

fn shared_names(names: &Vec<String>, other: &Vec<String>) -> (r: Vec<String>)
    ensures
        order::texts(r@) == shared(order::texts(names@), order::texts(other@)),
{
    let ghost ns = order::texts(names@);
    let mut out: Vec<String> = Vec::new();
    let mut i: usize = 0;
    assert(ns.take(0) =~= seq![]);
    assert(order::texts(out@) =~= seq![]);
    while i < names.len()
        invariant
            i <= names@.len(),
            ns == order::texts(names@),
            order::texts(out@) == shared(ns.take(i as int), order::texts(other@)),
        decreases names@.len() - i,
    {
        assert(ns.take(i + 1).drop_last() =~= ns.take(i as int));
        assert(ns.take(i + 1).last() == names@[i as int]@);
        if holds(other, names[i].as_str()) {
            let ghost was = order::texts(out@);
            out.push(names[i].clone());
            assert(order::texts(out@) =~= was.push(ns[i as int]));
        }
        i = i + 1;
    }
    assert(ns.take(i as int) =~= ns);
    out
}

fn names_without(names: Vec<String>, gone: &Vec<String>) -> (r: Vec<String>)
    ensures
        order::texts(r@) == without(order::texts(names@), order::texts(gone@)),
{
    let ghost ns = order::texts(names@);
    let mut out: Vec<String> = Vec::new();
    let mut i: usize = 0;
    assert(ns.take(0) =~= seq![]);
    assert(order::texts(out@) =~= seq![]);
    while i < names.len()
        invariant
            i <= names@.len(),
            ns == order::texts(names@),
            order::texts(out@) == without(ns.take(i as int), order::texts(gone@)),
        decreases names@.len() - i,
    {
        assert(ns.take(i + 1).drop_last() =~= ns.take(i as int));
        assert(ns.take(i + 1).last() == names@[i as int]@);
        if !holds(gone, names[i].as_str()) {
            let ghost was = order::texts(out@);
            out.push(names[i].clone());
            assert(order::texts(out@) =~= was.push(ns[i as int]));
        }
        i = i + 1;
    }
    assert(ns.take(i as int) =~= ns);
    out
}

/// One side of a list of pairs.
fn side_of(pairs: &Vec<(String, String)>, second: bool) -> (r: Vec<String>)
    ensures
        order::texts(r@) == (if second {
            seconds(pair_texts(pairs@))
        } else {
            firsts(pair_texts(pairs@))
        }),
{
    let mut out: Vec<String> = Vec::new();
    let mut i: usize = 0;
    while i < pairs.len()
        invariant
            i <= pairs@.len(),
            out@.len() == i,
            forall|j: int|
                0 <= j < i ==> (#[trigger] out@[j])@ == (if second {
                    pairs@[j].1@
                } else {
                    pairs@[j].0@
                }),
        decreases pairs@.len() - i,
    {
        if second {
            out.push(pairs[i].1.clone());
        } else {
            out.push(pairs[i].0.clone());
        }
        i = i + 1;
    }
    proof {
        if second {
            assert(order::texts(out@) =~= seconds(pair_texts(pairs@)));
        } else {
            assert(order::texts(out@) =~= firsts(pair_texts(pairs@)));
        }
    }
    out
}

proof fn lemma_without_len(names: Seq<Seq<char>>, gone: Seq<Seq<char>>)
    ensures
        without(names, gone).len() <= names.len(),
        (exists|i: int| 0 <= i < names.len() && gone.contains(#[trigger] names[i])) ==> without(
            names,
            gone,
        ).len() < names.len(),
    decreases names.len(),
{
    if names.len() > 0 {
        lemma_without_len(names.drop_last(), gone);
        if exists|i: int| 0 <= i < names.len() && gone.contains(#[trigger] names[i]) {
            let i = choose|i: int| 0 <= i < names.len() && gone.contains(#[trigger] names[i]);
            if i < names.len() - 1 {
                assert(gone.contains(names.drop_last()[i]));
            }
        }
    }
}

pub(crate) proof fn lemma_pairs_among(
    names: Seq<Seq<char>>,
    o: Seq<Seq<char>>,
    m: Seq<Seq<char>>,
    so: nat,
    sm: nat,
    n: int,
    i: int,
)
    requires
        0 <= n <= names.len(),
        0 <= i < pairs_among(names, o, m, so, sm, n).len(),
    ensures
        ({
            let p = pairs_among(names, o, m, so, sm, n)[i];
            &&& exists|j: int| 0 <= j < n && names[j] == p.0
            &&& is_unique(key(p.0, so), keys(o, so), keys(m, sm))
            &&& key(p.1, sm) == key(p.0, so)
            &&& m.contains(p.1)
        }),
    decreases n,
{
    if n > 0 {
        let before = pairs_among(names, o, m, so, sm, n - 1);
        if i < before.len() {
            lemma_pairs_among(names, o, m, so, sm, n - 1, i);
            let j = choose|j: int| 0 <= j < n - 1 && names[j] == before[i].0;
            assert(0 <= j < n && names[j] == before[i].0);
        } else {
            let k = key(names[n - 1], so)->0;
            lemma_key_place(keys(m, sm), k);
            let j = key_place(keys(m, sm), k);
            assert(keys(m, sm)[j] == key(m[j], sm));
            assert(m.contains(m[j]));
        }
    }
}

pub(crate) proof fn lemma_round_shrinks(o: Seq<Seq<char>>, m: Seq<Seq<char>>, so: nat, sm: nat)
    requires
        pairs_under(o, m, so, sm).len() > 0,
    ensures
        without(o, firsts(pairs_under(o, m, so, sm))).len() < o.len(),
{
    let le = |a: Seq<char>, b: Seq<char>| order::text_le(a, b);
    let names = order::sorted_texts(o);
    let found = pairs_under(o, m, so, sm);
    order::stable_sort_permutes(o, le);
    names.to_multiset_ensures();
    o.to_multiset_ensures();
    assert(names.len() == o.len());
    lemma_pairs_among(names, o, m, so, sm, o.len() as int, 0);
    let j = choose|j: int| 0 <= j < o.len() && names[j] == found[0].0;
    assert(names.contains(found[0].0));
    assert(names.to_multiset().count(found[0].0) > 0);
    assert(o.contains(found[0].0));
    let i = choose|i: int| 0 <= i < o.len() && o[i] == found[0].0;
    assert(firsts(found)[0] == found[0].0);
    assert(firsts(found).contains(o[i]));
    lemma_without_len(o, firsts(found));
}

fn pair_le(a: &(String, String), b: &(String, String)) -> (r: bool)
    ensures
        r == order::text_le(a.0@, b.0@),
{
    str_le(a.0.as_str(), b.0.as_str())
}

fn sort_pairs(v: Vec<(String, String)>) -> (r: Vec<(String, String)>)
    ensures
        pair_texts(r@) == sorted_pairs(pair_texts(v@)),
{
    let ghost le = |a: (String, String), b: (String, String)| order::text_le(a.0@, b.0@);
    proof {
        order::stable_sort_map(
            v@,
            le,
            |p: (String, String)| (p.0@, p.1@),
            |a: (Seq<char>, Seq<char>), b: (Seq<char>, Seq<char>)| order::text_le(a.0, b.0),
        );
    }
    sort_by(v, pair_le, Ghost(le))
}

/// Find matched + unmatched tensor name groupings between two name sets.
///
/// **Multi-pass strip heuristic.** Real-world model files frequently mix
/// multiple wrapper-induced prefix nestings — e.g. language tensors that live
/// under `model.language_model.language_model.language_model.*` (matching the
/// base's `model.language_model.*` at strip depths `(1, 3)`) while vision
/// tensors live under `model.language_model.visual.*` (matching the base's
/// `model.visual.*` at strip depths `(2, 3)`). A single `(strip_o, strip_m)`
/// pair can't capture both — so we iterate:
///
/// 1. Pull out all exact-name matches first.
/// 2. Greedily pick the best `(strip_o, strip_m)` over the remaining
///    unmatched tensors, apply those matches, repeat.
/// 3. Stop when no further pair yields any matches.
///
/// Unmatched tensors are returned so callers can surface them (e.g. as
/// crosshatch fill) rather than silently dropping them.
pub fn find_matched_tensor_pairs(orig_names: &Vec<String>, mod_names: &Vec<String>) -> (r:
    TensorMatch)
    ensures
        r@ == matching(order::texts(orig_names@), order::texts(mod_names@)),
{
    let ghost o = order::texts(orig_names@);
    let ghost m = order::texts(mod_names@);
    let od = distinct_names(orig_names);
    let md = distinct_names(mod_names);
    let same = shared_names(&od, &md);
    let mut pairs: Vec<(String, String)> = Vec::new();
    let mut i: usize = 0;
    while i < same.len()
        invariant
            i <= same@.len(),
            pairs@.len() == i,
            forall|j: int|
                0 <= j < i ==> (#[trigger] pairs@[j]).0@ == same@[j]@ && pairs@[j].1@ == same@[j]@,
        decreases same@.len() - i,
    {
        pairs.push((same[i].clone(), same[i].clone()));
        i = i + 1;
    }
    let mut rest_o = names_without(od, &same);
    let mut rest_m = names_without(md, &same);
    assert(pair_texts(pairs@) =~= exact_matches(o, m).pairs);
    let mut done = false;
    while !done
        invariant
            rounds(
                (Matching {
                    pairs: pair_texts(pairs@),
                    orig_only: order::texts(rest_o@),
                    mod_only: order::texts(rest_m@),
                }),
            ) == rounds(exact_matches(o, m)),
            done ==> (Matching {
                pairs: pair_texts(pairs@),
                orig_only: order::texts(rest_o@),
                mod_only: order::texts(rest_m@),
            }) == rounds(exact_matches(o, m)),
        decreases rest_o@.len(), (if done {
            0nat
        } else {
            1nat
        }),
    {
        let ghost ro = order::texts(rest_o@);
        let ghost rm = order::texts(rest_m@);
        let (so, sm): (usize, usize) = find_strip_depths(&rest_o, &rest_m);
        let found = match_under_strip_depths(&rest_o, &rest_m, so, sm);
        let ghost fs = pair_texts(found@);
        assert(found@.len() == fs.len());
        if (so == 0 && sm == 0) || found.len() == 0 {
            done = true;
        } else {
            proof {
                lemma_round_shrinks(ro, rm, so as nat, sm as nat);
            }
            let ghost was = pair_texts(pairs@);
            rest_o = names_without(rest_o, &side_of(&found, false));
            rest_m = names_without(rest_m, &side_of(&found, true));
            let mut more = found;
            pairs.append(&mut more);
            assert(pair_texts(pairs@) =~= was + fs);
            assert(order::texts(rest_o@).len() == rest_o@.len());
        }
    }
    TensorMatch {
        pairs: sort_pairs(pairs),
        orig_only: sort_strings(rest_o),
        mod_only: sort_strings(rest_m),
    }
}

// ---- the law of the matching ----

/// How often a name stands in a list.
spec fn copies(names: Seq<Seq<char>>, x: Seq<char>) -> nat {
    names.to_multiset().count(x)
}

proof fn lemma_copies(names: Seq<Seq<char>>, x: Seq<char>)
    ensures
        copies(names, x) > 0 <==> names.contains(x),
        names.no_duplicates() ==> copies(names, x) <= 1,
        names.len() > 0 ==> copies(names, x) == copies(names.drop_last(), x) + if names.last()
            == x {
            1nat
        } else {
            0
        },
        names.len() == 0 ==> copies(names, x) == 0,
{
    names.to_multiset_ensures();
    if names.len() > 0 {
        names.drop_last().to_multiset_ensures();
        assert(names.drop_last().push(names.last()) =~= names);
    }
    if names.no_duplicates() {
        names.lemma_multiset_has_no_duplicates();
        assert(names.to_multiset().contains(x) ==> names.to_multiset().count(x) == 1);
    }
}

proof fn lemma_copies_concat(a: Seq<Seq<char>>, b: Seq<Seq<char>>, x: Seq<char>)
    ensures
        copies(a + b, x) == copies(a, x) + copies(b, x),
{
    vstd::seq_lib::lemma_multiset_commutative(a, b);
}

proof fn lemma_copies_without(names: Seq<Seq<char>>, gone: Seq<Seq<char>>, x: Seq<char>)
    ensures
        copies(without(names, gone), x) == (if gone.contains(x) {
            0
        } else {
            copies(names, x)
        }),
    decreases names.len(),
{
    lemma_copies(names, x);
    lemma_copies(without(names, gone), x);
    if names.len() > 0 {
        let init = names.drop_last();
        lemma_copies_without(init, gone, x);
        if !gone.contains(names.last()) {
            assert(without(names, gone).drop_last() =~= without(init, gone));
        }
    }
}

proof fn lemma_no_duplicates_from_copies(names: Seq<Seq<char>>)
    requires
        forall|x: Seq<char>| #[trigger] copies(names, x) <= 1,
    ensures
        names.no_duplicates(),
{
    names.to_multiset_ensures();
    assert forall|x: Seq<char>| #[trigger] names.to_multiset().contains(x) implies names.to_multiset().count(
        x,
    ) == 1 by {
        assert(copies(names, x) <= 1);
    }
    names.lemma_multiset_has_no_duplicates_conv();
}

proof fn lemma_distinct_copies(names: Seq<Seq<char>>, x: Seq<char>)
    ensures
        copies(distinct(names), x) == (if names.contains(x) {
            1nat
        } else {
            0
        }),
    decreases names.len(),
{
    lemma_copies(distinct(names), x);
    if names.len() > 0 {
        let init = names.drop_last();
        lemma_distinct_copies(init, x);
        lemma_contains_last(names, x);
        if !init.contains(names.last()) {
            assert(distinct(names).drop_last() =~= distinct(init));
        }
    }
}

proof fn lemma_shared_copies(names: Seq<Seq<char>>, other: Seq<Seq<char>>, x: Seq<char>)
    ensures
        copies(shared(names, other), x) == (if other.contains(x) {
            copies(names, x)
        } else {
            0
        }),
    decreases names.len(),
{
    lemma_copies(names, x);
    lemma_copies(shared(names, other), x);
    if names.len() > 0 {
        lemma_shared_copies(names.drop_last(), other, x);
        if other.contains(names.last()) {
            assert(shared(names, other).drop_last() =~= shared(names.drop_last(), other));
        }
    }
}

/// Each side's names are paired or left over, each exactly once.
spec fn accounts_for(s: Matching, o: Seq<Seq<char>>, m: Seq<Seq<char>>) -> bool {
    &&& forall|x: Seq<char>|
        copies(firsts(s.pairs), x) + #[trigger] copies(s.orig_only, x) == copies(distinct(o), x)
    &&& forall|x: Seq<char>|
        copies(seconds(s.pairs), x) + #[trigger] copies(s.mod_only, x) == copies(distinct(m), x)
}

proof fn lemma_occurs_twice(ks: Seq<Option<Seq<char>>>, k: Seq<char>, i: int, j: int)
    requires
        0 <= i < j < ks.len(),
        ks[i] == Some(k),
        ks[j] == Some(k),
    ensures
        occurrences(ks, k) >= 2,
    decreases ks.len(),
{
    let init = ks.drop_last();
    if j < ks.len() - 1 {
        lemma_occurs_twice(init, k, i, j);
    } else {
        lemma_occurs_once(init, k, i);
    }
}

pub(crate) proof fn lemma_occurs_once(ks: Seq<Option<Seq<char>>>, k: Seq<char>, i: int)
    requires
        0 <= i < ks.len(),
        ks[i] == Some(k),
    ensures
        occurrences(ks, k) >= 1,
    decreases ks.len(),
{
    if i < ks.len() - 1 {
        lemma_occurs_once(ks.drop_last(), k, i);
    }
}

/// Names under one unique key are the same name.
proof fn lemma_unique_name(o: Seq<Seq<char>>, n: nat, k: Seq<char>, a: Seq<char>, b: Seq<char>)
    requires
        o.contains(a),
        o.contains(b),
        key(a, n) == Some(k),
        key(b, n) == Some(k),
        occurrences(keys(o, n), k) == 1,
    ensures
        a == b,
{
    let i = choose|i: int| 0 <= i < o.len() && o[i] == a;
    let j = choose|j: int| 0 <= j < o.len() && o[j] == b;
    assert(keys(o, n)[i] == Some(k) && keys(o, n)[j] == Some(k));
    if i < j {
        lemma_occurs_twice(keys(o, n), k, i, j);
    } else if j < i {
        lemma_occurs_twice(keys(o, n), k, j, i);
    }
}

proof fn lemma_firsts_unique(
    names: Seq<Seq<char>>,
    o: Seq<Seq<char>>,
    m: Seq<Seq<char>>,
    so: nat,
    sm: nat,
    n: int,
)
    requires
        0 <= n <= names.len(),
        names.no_duplicates(),
    ensures
        firsts(pairs_among(names, o, m, so, sm, n)).no_duplicates(),
    decreases n,
{
    if n > 0 {
        let before = pairs_among(names, o, m, so, sm, n - 1);
        let all = pairs_among(names, o, m, so, sm, n);
        lemma_firsts_unique(names, o, m, so, sm, n - 1);
        assert forall|i: int, j: int| 0 <= i < j < firsts(all).len() implies firsts(all)[i]
            != firsts(all)[j] by {
            assert(firsts(before)[i] == before[i].0);
            lemma_pairs_among(names, o, m, so, sm, n - 1, i);
            if j < before.len() {
                assert(firsts(before)[j] == before[j].0);
                assert(firsts(before)[i] != firsts(before)[j]);
            } else {
                let a = choose|a: int| 0 <= a < n - 1 && names[a] == before[i].0;
                assert(names[a] != names[n - 1]);
            }
        }
    }
}

/// One round pairs names of both sides one to one.
proof fn lemma_round(s: Matching, o: Seq<Seq<char>>, m: Seq<Seq<char>>, so: nat, sm: nat)
    requires
        accounts_for(s, o, m),
    ensures
        ({
            let found = pairs_under(s.orig_only, s.mod_only, so, sm);
            accounts_for(
                (Matching {
                    pairs: s.pairs + found,
                    orig_only: without(s.orig_only, firsts(found)),
                    mod_only: without(s.mod_only, seconds(found)),
                }),
                o,
                m,
            )
        }),
{
    let ro = s.orig_only;
    let rm = s.mod_only;
    let le = |a: Seq<char>, b: Seq<char>| order::text_le(a, b);
    let names = order::sorted_texts(ro);
    let found = pairs_under(ro, rm, so, sm);
    order::stable_sort_permutes(ro, le);
    names.to_multiset_ensures();
    ro.to_multiset_ensures();
    assert forall|x: Seq<char>| #[trigger] copies(ro, x) <= 1 by {
        lemma_distinct_copies(o, x);
        assert(copies(firsts(s.pairs), x) + copies(s.orig_only, x) == copies(distinct(o), x));
    }
    lemma_no_duplicates_from_copies(ro);
    assert forall|x: Seq<char>| #[trigger] copies(names, x) <= 1 by {
        assert(copies(ro, x) <= 1);
    }
    lemma_no_duplicates_from_copies(names);
    lemma_firsts_unique(names, ro, rm, so, sm, ro.len() as int);
    // Every pair comes from the two lists.
    assert forall|i: int| 0 <= i < found.len() implies ro.contains((#[trigger] found[i]).0)
        && rm.contains(found[i].1) && key(found[i].1, sm) == key(found[i].0, so) && is_unique(
        key(found[i].0, so),
        keys(ro, so),
        keys(rm, sm),
    ) by {
        lemma_pairs_among(names, ro, rm, so, sm, ro.len() as int, i);
        assert(names.contains(found[i].0));
        lemma_copies(names, found[i].0);
        lemma_copies(ro, found[i].0);
    }
    // Different names have different keys, so their partners differ.
    assert(seconds(found).no_duplicates()) by {
        assert forall|i: int, j: int| 0 <= i < j < seconds(found).len() implies seconds(found)[i]
            != seconds(found)[j] by {
            if found[i].1 == found[j].1 {
                lemma_unique_name(ro, so, key(found[i].0, so)->0, found[i].0, found[j].0);
                assert(firsts(found)[i] == firsts(found)[j]);
            }
        }
    }
    assert(firsts(s.pairs + found) =~= firsts(s.pairs) + firsts(found));
    assert(seconds(s.pairs + found) =~= seconds(s.pairs) + seconds(found));
    assert forall|x: Seq<char>|
        copies(firsts(s.pairs + found), x) + #[trigger] copies(without(ro, firsts(found)), x)
            == copies(distinct(o), x) by {
        lemma_copies_concat(firsts(s.pairs), firsts(found), x);
        lemma_copies_without(ro, firsts(found), x);
        lemma_copies(firsts(found), x);
        lemma_copies(ro, x);
        assert(copies(firsts(s.pairs), x) + copies(s.orig_only, x) == copies(distinct(o), x));
        if firsts(found).contains(x) {
            let i = choose|i: int| 0 <= i < firsts(found).len() && firsts(found)[i] == x;
            assert(found[i].0 == x);
            assert(copies(ro, x) <= 1);
        }
    }
    assert forall|x: Seq<char>|
        copies(seconds(s.pairs + found), x) + #[trigger] copies(without(rm, seconds(found)), x)
            == copies(distinct(m), x) by {
        lemma_copies_concat(seconds(s.pairs), seconds(found), x);
        lemma_copies_without(rm, seconds(found), x);
        lemma_copies(seconds(found), x);
        lemma_copies(rm, x);
        lemma_distinct_copies(m, x);
        assert(copies(seconds(s.pairs), x) + copies(s.mod_only, x) == copies(distinct(m), x));
        if seconds(found).contains(x) {
            let i = choose|i: int| 0 <= i < seconds(found).len() && seconds(found)[i] == x;
            assert(found[i].1 == x);
        }
    }
}

proof fn lemma_rounds(s: Matching, o: Seq<Seq<char>>, m: Seq<Seq<char>>)
    requires
        accounts_for(s, o, m),
    ensures
        accounts_for(rounds(s), o, m),
    decreases s.orig_only.len(),
{
    let (so, sm) = best_depths(s.orig_only, s.mod_only);
    let found = pairs_under(s.orig_only, s.mod_only, so, sm);
    let rest = without(s.orig_only, firsts(found));
    if !((so == 0 && sm == 0) || found.len() == 0 || rest.len() >= s.orig_only.len()) {
        lemma_round(s, o, m, so, sm);
        lemma_rounds(
            Matching {
                pairs: s.pairs + found,
                orig_only: rest,
                mod_only: without(s.mod_only, seconds(found)),
            },
            o,
            m,
        );
    }
}

proof fn lemma_exact(o: Seq<Seq<char>>, m: Seq<Seq<char>>)
    ensures
        accounts_for(exact_matches(o, m), o, m),
{
    let od = distinct(o);
    let md = distinct(m);
    let same = shared(od, md);
    let s = exact_matches(o, m);
    assert(firsts(s.pairs) =~= same);
    assert(seconds(s.pairs) =~= same);
    assert forall|x: Seq<char>|
        copies(firsts(s.pairs), x) + #[trigger] copies(s.orig_only, x) == copies(od, x) by {
        lemma_copies_without(od, same, x);
        lemma_shared_copies(od, md, x);
        lemma_copies(same, x);
        lemma_copies(od, x);
    }
    assert forall|x: Seq<char>|
        copies(seconds(s.pairs), x) + #[trigger] copies(s.mod_only, x) == copies(md, x) by {
        lemma_copies_without(md, same, x);
        lemma_shared_copies(od, md, x);
        lemma_copies(same, x);
        lemma_copies(md, x);
        lemma_distinct_copies(m, x);
        lemma_distinct_copies(o, x);
    }
}

proof fn lemma_sorted_sides(ps: Seq<(Seq<char>, Seq<char>)>, x: Seq<char>)
    ensures
        copies(firsts(sorted_pairs(ps)), x) == copies(firsts(ps), x),
        copies(seconds(sorted_pairs(ps)), x) == copies(seconds(ps), x),
{
    let le = |a: (Seq<char>, Seq<char>), b: (Seq<char>, Seq<char>)| order::text_le(a.0, b.0);
    lemma_sort_keeps_sides(ps, le, x);
}

proof fn lemma_sort_keeps_sides(
    ps: Seq<(Seq<char>, Seq<char>)>,
    le: spec_fn((Seq<char>, Seq<char>), (Seq<char>, Seq<char>)) -> bool,
    x: Seq<char>,
)
    ensures
        copies(firsts(order::stable_sort(ps, le)), x) == copies(firsts(ps), x),
        copies(seconds(order::stable_sort(ps, le)), x) == copies(seconds(ps), x),
    decreases ps.len(),
{
    if ps.len() > 0 {
        lemma_sort_keeps_sides(ps.drop_last(), le, x);
        lemma_insert_sides(order::stable_sort(ps.drop_last(), le), ps.last(), le, x);
        lemma_copies(firsts(ps), x);
        lemma_copies(seconds(ps), x);
        assert(firsts(ps).drop_last() =~= firsts(ps.drop_last()));
        assert(seconds(ps).drop_last() =~= seconds(ps.drop_last()));
    } else {
        assert(order::stable_sort(ps, le) =~= ps);
    }
}

proof fn lemma_insert_sides(
    s: Seq<(Seq<char>, Seq<char>)>,
    p: (Seq<char>, Seq<char>),
    le: spec_fn((Seq<char>, Seq<char>), (Seq<char>, Seq<char>)) -> bool,
    x: Seq<char>,
)
    ensures
        copies(firsts(order::sorted_insert(s, p, le)), x) == copies(firsts(s), x) + if p.0 == x {
            1nat
        } else {
            0
        },
        copies(seconds(order::sorted_insert(s, p, le)), x) == copies(seconds(s), x) + if p.1 == x {
            1nat
        } else {
            0
        },
    decreases s.len(),
{
    let r = order::sorted_insert(s, p, le);
    lemma_copies(firsts(r), x);
    lemma_copies(seconds(r), x);
    lemma_copies(firsts(s), x);
    lemma_copies(seconds(s), x);
    if s.len() == 0 {
        assert(firsts(r).drop_last() =~= firsts(s));
        assert(seconds(r).drop_last() =~= seconds(s));
    } else if le(s.last(), p) {
        assert(firsts(r).drop_last() =~= firsts(s));
        assert(seconds(r).drop_last() =~= seconds(s));
    } else {
        lemma_insert_sides(s.drop_last(), p, le, x);
        let t = order::sorted_insert(s.drop_last(), p, le);
        assert(firsts(r).drop_last() =~= firsts(t));
        assert(seconds(r).drop_last() =~= seconds(t));
        assert(firsts(s).drop_last() =~= firsts(s.drop_last()));
        assert(seconds(s).drop_last() =~= seconds(s.drop_last()));
    }
}

/// Matching is one to one and loses no name: on each side every name is either
/// in exactly one pair or left over exactly once, and no other name appears.
pub proof fn matching_is_one_to_one(o: Seq<Seq<char>>, m: Seq<Seq<char>>)
    ensures
        (firsts(matching(o, m).pairs) + matching(o, m).orig_only).no_duplicates(),
        (seconds(matching(o, m).pairs) + matching(o, m).mod_only).no_duplicates(),
        forall|x: Seq<char>|
            (#[trigger] o.contains(x)) == (firsts(matching(o, m).pairs) + matching(
                o,
                m,
            ).orig_only).contains(x),
        forall|x: Seq<char>|
            (#[trigger] m.contains(x)) == (seconds(matching(o, m).pairs) + matching(
                o,
                m,
            ).mod_only).contains(x),
{
    let r = rounds(exact_matches(o, m));
    let s = matching(o, m);
    lemma_exact(o, m);
    lemma_rounds(exact_matches(o, m), o, m);
    let le = |a: Seq<char>, b: Seq<char>| order::text_le(a, b);
    order::stable_sort_permutes(r.orig_only, le);
    order::stable_sort_permutes(r.mod_only, le);
    let a = firsts(s.pairs) + s.orig_only;
    let b = seconds(s.pairs) + s.mod_only;
    assert forall|x: Seq<char>| #[trigger]
        copies(a, x) == (if o.contains(x) {
            1nat
        } else {
            0
        }) by {
        lemma_copies_concat(firsts(s.pairs), s.orig_only, x);
        lemma_sorted_sides(r.pairs, x);
        lemma_distinct_copies(o, x);
        assert(copies(firsts(r.pairs), x) + copies(r.orig_only, x) == copies(distinct(o), x));
    }
    assert forall|x: Seq<char>| #[trigger]
        copies(b, x) == (if m.contains(x) {
            1nat
        } else {
            0
        }) by {
        lemma_copies_concat(seconds(s.pairs), s.mod_only, x);
        lemma_sorted_sides(r.pairs, x);
        lemma_distinct_copies(m, x);
        assert(copies(seconds(r.pairs), x) + copies(r.mod_only, x) == copies(distinct(m), x));
    }
    lemma_no_duplicates_from_copies(a);
    lemma_no_duplicates_from_copies(b);
    assert forall|x: Seq<char>| (#[trigger] o.contains(x)) == a.contains(x) by {
        lemma_copies(a, x);
        assert(copies(a, x) <= 1);
    }
    assert forall|x: Seq<char>| (#[trigger] m.contains(x)) == b.contains(x) by {
        lemma_copies(b, x);
        assert(copies(b, x) <= 1);
    }
}

proof fn lemma_rounds_extend(s: Matching, i: int)
    requires
        0 <= i < s.pairs.len(),
    ensures
        i < rounds(s).pairs.len(),
        rounds(s).pairs[i] == s.pairs[i],
    decreases s.orig_only.len(),
{
    let (so, sm) = best_depths(s.orig_only, s.mod_only);
    let found = pairs_under(s.orig_only, s.mod_only, so, sm);
    let rest = without(s.orig_only, firsts(found));
    if !((so == 0 && sm == 0) || found.len() == 0 || rest.len() >= s.orig_only.len()) {
        lemma_rounds_extend(
            Matching {
                pairs: s.pairs + found,
                orig_only: rest,
                mod_only: without(s.mod_only, seconds(found)),
            },
            i,
        );
    }
}

/// A name that both sides hold is paired with itself.
pub proof fn same_names_match(o: Seq<Seq<char>>, m: Seq<Seq<char>>, x: Seq<char>)
    requires
        o.contains(x),
        m.contains(x),
    ensures
        matching(o, m).pairs.contains((x, x)),
{
    let s = exact_matches(o, m);
    let same = shared(distinct(o), distinct(m));
    lemma_distinct_copies(o, x);
    lemma_distinct_copies(m, x);
    lemma_copies(distinct(o), x);
    lemma_copies(distinct(m), x);
    lemma_shared_copies(distinct(o), distinct(m), x);
    lemma_copies(same, x);
    let i = choose|i: int| 0 <= i < same.len() && same[i] == x;
    assert(s.pairs[i] == (x, x));
    lemma_rounds_extend(s, i);
    let r = rounds(s);
    let le = |a: (Seq<char>, Seq<char>), b: (Seq<char>, Seq<char>)| order::text_le(a.0, b.0);
    order::stable_sort_permutes(r.pairs, le);
    r.pairs.to_multiset_ensures();
    sorted_pairs(r.pairs).to_multiset_ensures();
    assert(r.pairs.contains((x, x)));
    assert(sorted_pairs(r.pairs).to_multiset().count((x, x)) > 0);
}

} // verus!
