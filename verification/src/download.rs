//! Downloads of remote inputs: when an attempt is given up, how the answers of
//! a batch are put back in order, and what a finished batch makes of the
//! sources.

use crate::order;
use crate::order::sort_by;
use crate::source;
use crate::source::Source;
use crate::text;
use crate::text::{chars_of, decimal_string};
use crate::throttle::{ErrorClassify, Outcome, RequestFailure};
use vstd::prelude::*;
use vstd::string::StringExecFns;

verus! {

/// Bounded concurrency of the requests made before rendering.
pub const SETUP_FETCH_CONCURRENCY: usize = 16;

/// How many seconds a download may stay silent.
pub const DEFAULT_DOWNLOAD_STALL_SECS: u64 = 30;

/// The number that decimal digits write; `None` where one is no digit.
pub open spec fn digits_value(s: Seq<char>) -> Option<nat>
    decreases s.len(),
{
    if s.len() == 0 {
        Some(0)
    } else {
        match digits_value(s.drop_last()) {
            Some(n) => if '0' <= s.last() && s.last() <= '9' {
                Some(10 * n + (s.last() as int - 48) as nat)
            } else {
                None
            },
            None => None,
        }
    }
}

/// The number that a text writes: at least one decimal digit behind an optional
/// plus sign, and no more than 64 bits hold.
pub open spec fn number_in(s: Seq<char>) -> Option<u64> {
    let digits = if s.len() > 0 && s[0] == '+' {
        s.skip(1)
    } else {
        s
    };
    match digits_value(digits) {
        Some(n) => if digits.len() > 0 && n <= u64::MAX {
            Some(n as u64)
        } else {
            None
        },
        None => None,
    }
}

/// The prefix up to `i` writes `n`, or something that no longer fits.
proof fn lemma_digits_grow(s: Seq<char>, i: int)
    requires
        0 <= i <= s.len(),
        match digits_value(s.take(i)) {
            None => true,
            Some(n) => n > u64::MAX,
        },
    ensures
        match digits_value(s) {
            None => true,
            Some(n) => n > u64::MAX,
        },
    decreases s.len() - i,
{
    if i == s.len() {
        assert(s.take(i) =~= s);
    } else {
        assert(s.take(i + 1).drop_last() =~= s.take(i));
        lemma_digits_grow(s, i + 1);
    }
}

/// Reads an unsigned number.
pub fn parse_number(s: &str) -> (r: Option<u64>)
    ensures
        r == number_in(s@),
{
    let v = chars_of(s);
    let start: usize = if v.len() > 0 && v[0] == '+' { 1 } else { 0 };
    let ghost digits = v@.skip(start as int);
    assert(start == 0 ==> digits =~= s@);
    if start == v.len() {
        return None;
    }
    let mut n: u64 = 0;
    let mut i: usize = start;
    assert(digits.take(0) =~= seq![]);
    while i < v.len()
        invariant
            start <= i <= v@.len(),
            digits == v@.skip(start as int),
            digits.len() > 0,
            digits == (if s@.len() > 0 && s@[0] == '+' {
                s@.skip(1)
            } else {
                s@
            }),
            digits_value(digits.take(i - start)) == Some(n as nat),
        decreases v@.len() - i,
    {
        let c = v[i];
        assert(digits.take(i + 1 - start).drop_last() =~= digits.take(i - start));
        assert(digits.take(i + 1 - start).last() == c);
        if c < '0' || c > '9' {
            proof {
                lemma_digits_grow(digits, i + 1 - start);
            }
            return None;
        }
        let d: u64 = (c as u64) - 48;
        if n > (u64::MAX - d) / 10 {
            proof {
                lemma_digits_grow(digits, i + 1 - start);
            }
            return None;
        }
        n = 10 * n + d;
        i = i + 1;
    }
    assert(digits.take(i - start) =~= digits);
    Some(n)
}

/// How many seconds a download may stay silent: what is configured, if it is a
/// number.
pub fn stall_secs(configured: Option<&str>) -> (n: u64)
    ensures
        n == (match configured {
            Some(s) => match number_in(s@) {
                Some(k) => k,
                None => DEFAULT_DOWNLOAD_STALL_SECS,
            },
            None => DEFAULT_DOWNLOAD_STALL_SECS,
        }),
{
    match configured {
        Some(s) => match parse_number(s) {
            Some(k) => k,
            None => DEFAULT_DOWNLOAD_STALL_SECS,
        },
        None => DEFAULT_DOWNLOAD_STALL_SECS,
    }
}

/// The nearest number that 64 bits with a sign hold.
pub open spec fn clamped(x: int) -> int {
    if x > i64::MAX {
        i64::MAX as int
    } else if x < i64::MIN {
        i64::MIN as int
    } else {
        x
    }
}

/// The product of two numbers, kept within 64 bits.
fn saturating_product(a: i64, b: i64) -> (r: i64)
    requires
        b > 0,
    ensures
        r == clamped(a * b),
{
    match a.checked_mul(b) {
        Some(p) => p,
        None => {
            assert(a >= 0 ==> a * b >= 0) by (nonlinear_arith)
                requires
                    b > 0,
            ;
            assert(a < 0 ==> a * b < 0) by (nonlinear_arith)
                requires
                    b > 0,
            ;
            if a >= 0 {
                i64::MAX
            } else {
                i64::MIN
            }
        },
    }
}

/// The difference of two numbers, kept within 64 bits.
fn saturating_difference(a: i64, b: i64) -> (r: i64)
    ensures
        r == clamped(a - b),
{
    match a.checked_sub(b) {
        Some(d) => d,
        None => if a >= 0 {
            i64::MAX
        } else {
            i64::MIN
        },
    }
}

/// For how many whole seconds a download has been silent, where that is as long
/// as it may be: the attempt is then given up and tried again.
pub fn stalled_secs(now_ms: i64, last_event_ms: i64, stall_secs: u64) -> (r: Option<u64>)
    ensures
        ({
            let idle = clamped(now_ms - last_event_ms);
            r == (if idle < clamped((stall_secs as i64) * 1000) {
                None
            } else if idle < 0 {
                Some(0u64)
            } else {
                Some((idle / 1000) as u64)
            })
        }),
{
    let limit: i64 = saturating_product(#[verifier::truncate] (stall_secs as i64), 1000);
    let idle: i64 = saturating_difference(now_ms, last_event_ms);
    if idle < limit {
        None
    } else if idle < 0 {
        Some(0)
    } else {
        Some((idle / 1000) as u64)
    }
}

/// Why an attempt to download a file failed.
#[derive(Debug)]
pub enum DownloadAttemptError {
    /// The request failed.
    Request { failure: RequestFailure, text: String },
    /// No bytes came for too long.
    Stalled { filename: String, idle_secs: u64 },
}

/// What is said of a failed attempt.
pub open spec fn attempt_message(e: DownloadAttemptError) -> Seq<char> {
    match e {
        DownloadAttemptError::Request { failure: _, text } => text@,
        DownloadAttemptError::Stalled { filename, idle_secs } => filename@ + ": no progress for "@
            + text::decimal(idle_secs as nat) + "s — treating as transient timeout"@,
    }
}

impl DownloadAttemptError {
    /// What is said of the failed attempt.
    pub fn message(&self) -> (s: String)
        ensures
            s@ == attempt_message(*self),
    {
        match self {
            DownloadAttemptError::Request { failure: _, text } => text.clone(),
            DownloadAttemptError::Stalled { filename, idle_secs } => filename.clone().concat(
                ": no progress for ",
            ).concat(decimal_string(*idle_secs).as_str()).concat(
                "s — treating as transient timeout",
            ),
        }
    }
}

impl ErrorClassify for DownloadAttemptError {
    open spec fn outcome(&self) -> Outcome {
        match self {
            DownloadAttemptError::Request { failure, text: _ } => failure.outcome(),
            DownloadAttemptError::Stalled { .. } => Outcome::Timeout,
        }
    }

    fn classify(&self) -> (r: Outcome) {
        match self {
            DownloadAttemptError::Request { failure, text: _ } => failure.classify(),
            DownloadAttemptError::Stalled { .. } => Outcome::Timeout,
        }
    }
}

/// One answer for each of the first `s.len()` jobs, in whatever order.
pub open spec fn is_batch<T, E>(s: Seq<(usize, Result<T, E>)>) -> bool {
    &&& forall|k: int| 0 <= k < s.len() ==> (#[trigger] s[k]).0 < s.len()
    &&& forall|j: int, k: int|
        0 <= j < k < s.len() ==> (#[trigger] s[j]).0 != (#[trigger] s[k]).0
}

fn job_le<T, E>(a: &(usize, Result<T, E>), b: &(usize, Result<T, E>)) -> (r: bool)
    ensures
        r == (a.0 <= b.0),
{
    a.0 <= b.0
}

proof fn lemma_sorted_batch<T, E>(s: Seq<(usize, Result<T, E>)>, t: Seq<(usize, Result<T, E>)>)
    requires
        is_batch(s),
        t == order::stable_sort(
            s,
            |a: (usize, Result<T, E>), b: (usize, Result<T, E>)| a.0 <= b.0,
        ),
    ensures
        t.len() == s.len(),
        forall|k: int| 0 <= k < t.len() ==> (#[trigger] t[k]).0 == k,
        forall|k: int| 0 <= k < s.len() ==> t[(#[trigger] s[k]).0 as int] == s[k],
        forall|k: int| 0 <= k < t.len() ==> s.contains(#[trigger] t[k]),
{
    let le = |a: (usize, Result<T, E>), b: (usize, Result<T, E>)| a.0 <= b.0;
    order::stable_sort_permutes(s, le);
    assert(order::is_total(le));
    order::stable_sort_sorts(s, le);
    broadcast use vstd::seq_lib::group_to_multiset_ensures;

    assert forall|k: int| 0 <= k < t.len() implies s.contains(#[trigger] t[k]) by {
        assert(t.contains(t[k]));
        assert(t.to_multiset().count(t[k]) > 0);
    }
    assert forall|j: int, k: int| 0 <= j < k < t.len() implies (#[trigger] t[j]).0 < (
    #[trigger] t[k]).0 by {
        assert(le(t[j], t[k]));
        if t[j].0 == t[k].0 {
            let a = choose|a: int| 0 <= a < s.len() && s[a] == t[j];
            let b = choose|b: int| 0 <= b < s.len() && s[b] == t[k];
            assert(s[a].0 == s[b].0);
            assert(a == b);
            lemma_twice(t, j, k);
            lemma_once(s, a);
        }
    }
    lemma_climbs(t, t.len() as int);
    assert forall|k: int| 0 <= k < s.len() implies t[(#[trigger] s[k]).0 as int] == s[k] by {
        assert(s.contains(s[k]));
        assert(s.to_multiset().count(s[k]) > 0);
        assert(t.contains(s[k]));
        let p = choose|p: int| 0 <= p < t.len() && t[p] == s[k];
        assert(t[p].0 == p);
    }
}

/// Numbers that rise and stay below their count are 0, 1, 2 and so on.
proof fn lemma_climbs<T, E>(t: Seq<(usize, Result<T, E>)>, n: int)
    requires
        0 <= n <= t.len(),
        forall|j: int, k: int| 0 <= j < k < t.len() ==> (#[trigger] t[j]).0 < (#[trigger] t[k]).0,
        forall|k: int| 0 <= k < t.len() ==> (#[trigger] t[k]).0 < t.len(),
    ensures
        forall|k: int| 0 <= k < n ==> (#[trigger] t[k]).0 == k,
{
    assert forall|k: int| 0 <= k < n implies (#[trigger] t[k]).0 == k by {
        lemma_at_least(t, k);
        lemma_at_most(t, k);
    }
}

proof fn lemma_at_least<T, E>(t: Seq<(usize, Result<T, E>)>, k: int)
    requires
        0 <= k < t.len(),
        forall|i: int, j: int| 0 <= i < j < t.len() ==> (#[trigger] t[i]).0 < (#[trigger] t[j]).0,
    ensures
        t[k].0 >= k,
    decreases k,
{
    if k > 0 {
        lemma_at_least(t, k - 1);
        assert(t[k - 1].0 < t[k].0);
    }
}

proof fn lemma_at_most<T, E>(t: Seq<(usize, Result<T, E>)>, k: int)
    requires
        0 <= k < t.len(),
        forall|i: int, j: int| 0 <= i < j < t.len() ==> (#[trigger] t[i]).0 < (#[trigger] t[j]).0,
        forall|i: int| 0 <= i < t.len() ==> (#[trigger] t[i]).0 < t.len(),
    ensures
        t[k].0 <= k,
    decreases t.len() - k,
{
    if k + 1 < t.len() {
        lemma_at_most(t, k + 1);
        assert(t[k].0 < t[k + 1].0);
    }
}

/// What stands at two places is counted twice.
proof fn lemma_twice<A>(t: Seq<A>, j: int, k: int)
    requires
        0 <= j < k < t.len(),
        t[j] == t[k],
    ensures
        t.to_multiset().count(t[j]) >= 2,
{
    broadcast use vstd::seq_lib::group_to_multiset_ensures;

    let u = t.remove(k);
    assert(u[j] == t[j]);
    assert(u.contains(t[j]));
    assert(u.to_multiset() =~= t.to_multiset().remove(t[k]));
    assert(u.to_multiset().count(t[j]) >= 1);
}

/// What stands at one place alone is counted once.
proof fn lemma_once<A>(s: Seq<A>, a: int)
    requires
        0 <= a < s.len(),
        forall|b: int| 0 <= b < s.len() && b != a ==> s[b] != s[a],
    ensures
        s.to_multiset().count(s[a]) == 1,
{
    broadcast use vstd::seq_lib::group_to_multiset_ensures;

    let u = s.remove(a);
    assert(!u.contains(s[a])) by {
        if u.contains(s[a]) {
            let i = choose|i: int| 0 <= i < u.len() && u[i] == s[a];
            if i < a {
                assert(s[i] == s[a]);
            } else {
                assert(s[i + 1] == s[a]);
            }
        }
    }
    assert(u.to_multiset() =~= s.to_multiset().remove(s[a]));
    assert(u.to_multiset().count(s[a]) == 0);
    assert(s.contains(s[a]));
    assert(s.to_multiset().count(s[a]) >= 1);
}

/// Puts the answers of a batch of jobs in the order of the jobs. Where jobs
/// failed, the failure of the first of them is what comes out.
pub fn in_job_order<T, E>(answers: Vec<(usize, Result<T, E>)>) -> (r: Result<Vec<T>, E>)
    requires
        is_batch(answers@),
    ensures
        match r {
            Ok(v) => v@.len() == answers@.len() && forall|k: int|
                0 <= k < answers@.len() ==> (#[trigger] answers@[k]).1 == Ok::<T, E>(
                    v@[answers@[k].0 as int],
                ),
            Err(e) => exists|k: int|
                0 <= k < answers@.len() && (#[trigger] answers@[k]).1 == Err::<T, E>(e) && forall|
                    j: int,
                |
                    0 <= j < answers@.len() && (#[trigger] answers@[j]).1 is Err ==> answers@[k].0
                        <= answers@[j].0,
        },
{
    let ghost s = answers@;
    let ghost le = |a: (usize, Result<T, E>), b: (usize, Result<T, E>)| a.0 <= b.0;
    let mut rest = sort_by(answers, job_le::<T, E>, Ghost(le));
    let ghost t = rest@;
    proof {
        lemma_sorted_batch(s, t);
    }
    let mut back: Vec<T> = Vec::new();
    let mut first: Option<E> = None;
    let ghost mut at: int = t.len() as int;
    while rest.len() > 0
        invariant
            rest@ == t.take(rest@.len() as int),
            rest@.len() <= t.len(),
            match first {
                None => {
                    &&& back@.len() == t.len() - rest@.len()
                    &&& forall|i: int|
                        0 <= i < back@.len() ==> (#[trigger] t[t.len() - 1 - i]).1 == Ok::<T, E>(
                            back@[i],
                        )
                },
                Some(e) => {
                    &&& rest@.len() <= at < t.len()
                    &&& t[at].1 == Err::<T, E>(e)
                    &&& forall|i: int| rest@.len() <= i < at ==> (#[trigger] t[i]).1 is Ok
                },
            },
        decreases rest@.len(),
    {
        if let Some(x) = rest.pop() {
            match x.1 {
                Ok(v) => {
                    if first.is_none() {
                        back.push(v);
                    }
                },
                Err(e) => {
                    first = Some(e);
                    proof {
                        at = rest@.len() as int;
                    }
                },
            }
        }
    }
    match first {
        Some(e) => {
            proof {
                assert(s.contains(t[at]));
                let k = choose|k: int| 0 <= k < s.len() && s[k] == t[at];
                assert forall|j: int| 0 <= j < s.len() && (#[trigger] s[j]).1 is Err implies s[k].0
                    <= s[j].0 by {
                    assert(t[s[j].0 as int] == s[j]);
                }
                assert(s[k].1 == Err::<T, E>(e));
            }
            Err(e)
        },
        None => {
            let mut out: Vec<T> = Vec::new();
            let ghost all = back@;
            while back.len() > 0
                invariant
                    back@ == all.take(back@.len() as int),
                    out@.len() == all.len() - back@.len(),
                    forall|i: int|
                        0 <= i < out@.len() ==> #[trigger] out@[i] == all[all.len() - 1 - i],
                decreases back@.len(),
            {
                if let Some(v) = back.pop() {
                    out.push(v);
                }
            }
            proof {
                assert forall|k: int| 0 <= k < s.len() implies (#[trigger] s[k]).1 == Ok::<T, E>(
                    out@[s[k].0 as int],
                ) by {
                    let p = s[k].0 as int;
                    assert(t[p] == s[k]);
                    assert(t[t.len() - 1 - (t.len() - 1 - p)].1 == Ok::<T, E>(
                        all[t.len() - 1 - p],
                    ));
                    assert(out@[p] == all[all.len() - 1 - p]);
                }
            }
            Ok(out)
        },
    }
}

/// The number of the first job of a batch that failed, the size of the batch
/// where none did.
pub open spec fn first_failed<T, E>(s: Seq<(usize, Result<T, E>)>, size: int) -> int
    decreases s.len(),
{
    if s.len() == 0 {
        size
    } else {
        let m = first_failed(s.drop_last(), size);
        if s.last().1 is Err && s.last().0 < m {
            s.last().0 as int
        } else {
            m
        }
    }
}

pub(crate) proof fn lemma_first_failed<T, E>(s: Seq<(usize, Result<T, E>)>, size: int)
    ensures
        first_failed(s, size) <= size,
        forall|k: int|
            0 <= k < s.len() && (#[trigger] s[k]).1 is Err ==> first_failed(s, size) <= s[k].0,
        first_failed(s, size) < size ==> exists|k: int|
            0 <= k < s.len() && (#[trigger] s[k]).1 is Err && s[k].0 == first_failed(s, size),
    decreases s.len(),
{
    if s.len() > 0 {
        let init = s.drop_last();
        lemma_first_failed(init, size);
        let m = first_failed(init, size);
        assert forall|k: int| 0 <= k < s.len() && (#[trigger] s[k]).1 is Err implies first_failed(
            s,
            size,
        ) <= s[k].0 by {
            if k < init.len() {
                assert(init[k] == s[k]);
            }
        }
        if first_failed(s, size) < size {
            if s.last().1 is Err && s.last().0 < m {
                assert(s[s.len() - 1].1 is Err);
            } else {
                let k = choose|k: int|
                    0 <= k < init.len() && (#[trigger] init[k]).1 is Err && init[k].0 == m;
                assert(s[k] == init[k]);
            }
        }
    }
}

/// Notes the reconstruction terms of the sources, one answer for each source.
/// The first source whose terms could not be had decides the error; it and those
/// behind it keep what they had, so that "not fetched" and "none" stay apart.
pub fn populate_xet_terms<T, E>(
    terms: &mut Vec<Option<Vec<T>>>,
    answers: Vec<(usize, Result<Vec<T>, E>)>,
) -> (r: Result<(), E>)
    requires
        is_batch(answers@),
        old(terms)@.len() == answers@.len(),
    ensures
        final(terms)@.len() == old(terms)@.len(),
        ({
            let cut = first_failed(answers@, answers@.len() as int);
            &&& forall|k: int|
                0 <= k < answers@.len() && (#[trigger] answers@[k]).0 < cut ==> {
                    let got = final(terms)@[answers@[k].0 as int];
                    got is Some && answers@[k].1 == Ok::<Vec<T>, E>(got->0)
                }
            &&& forall|i: int|
                cut <= i < answers@.len() ==> #[trigger] final(terms)@[i] == old(terms)@[i]
            &&& match r {
                Ok(_) => cut == answers@.len(),
                Err(e) => cut < answers@.len() && exists|k: int|
                    0 <= k < answers@.len() && (#[trigger] answers@[k]).0 == cut && answers@[k].1
                        == Err::<Vec<T>, E>(e),
            }
        }),
{
    let ghost s = answers@;
    let ghost was = terms@;
    let ghost n = s.len() as int;
    let mut cut: usize = answers.len();
    let mut i: usize = 0;
    assert(s.take(0) =~= seq![]);
    while i < answers.len()
        invariant
            i <= answers@.len(),
            s == answers@,
            n == s.len(),
            cut == first_failed(s.take(i as int), n),
        decreases answers@.len() - i,
    {
        assert(s.take(i + 1).drop_last() =~= s.take(i as int));
        assert(s.take(i + 1).last() == s[i as int]);
        if answers[i].1.is_err() && answers[i].0 < cut {
            cut = answers[i].0;
        }
        i = i + 1;
    }
    assert(s.take(i as int) =~= s);
    proof {
        lemma_first_failed(s, n);
    }
    let mut rest = answers;
    let mut failure: Option<E> = None;
    while rest.len() > 0
        invariant
            is_batch(s),
            n == s.len(),
            cut == first_failed(s, n),
            forall|k: int| 0 <= k < n && (#[trigger] s[k]).1 is Err ==> cut <= s[k].0,
            was.len() == n,
            terms@.len() == n,
            rest@ == s.take(rest@.len() as int),
            rest@.len() <= n,
            forall|k: int|
                rest@.len() <= k < n && (#[trigger] s[k]).0 < cut ==> {
                    let got = terms@[s[k].0 as int];
                    got is Some && s[k].1 == Ok::<Vec<T>, E>(got->0)
                },
            forall|j: int| cut <= j < n ==> #[trigger] terms@[j] == was[j],
            match failure {
                Some(e) => exists|k: int|
                    0 <= k < n && (#[trigger] s[k]).0 == cut && s[k].1 == Err::<Vec<T>, E>(e),
                None => forall|k: int|
                    rest@.len() <= k < n && (#[trigger] s[k]).0 == cut ==> s[k].1 is Ok,
            },
        decreases rest@.len(),
    {
        let ghost m = rest@.len() - 1;
        if let Some((j, answer)) = rest.pop() {
            assert((j, answer) == s[m]);
            match answer {
                Ok(v) => {
                    if j < cut {
                        terms.set(j, Some(v));
                    }
                },
                Err(e) => {
                    if j == cut {
                        failure = Some(e);
                    }
                },
            }
        }
    }
    match failure {
        Some(e) => Err(e),
        None => Ok(()),
    }
}

/// How many stretches still lie on the Hub.
pub open spec fn remote_count(rs: Seq<source::Region>) -> nat
    decreases rs.len(),
{
    if rs.len() == 0 {
        0
    } else {
        remote_count(rs.drop_last()) + (if rs.last().storage is Http {
            1nat
        } else {
            0nat
        })
    }
}

/// The stretches with every remote one kept as a local copy, the copies taken
/// in order. A stretch keeps its display name.
pub open spec fn localized(rs: Seq<source::Region>, paths: Seq<Seq<char>>) -> Seq<source::Region>
    decreases rs.len(),
{
    if rs.len() == 0 {
        seq![]
    } else if rs.last().storage is Http {
        localized(rs.drop_last(), paths.drop_last()).push(
            source::Region {
                storage: source::Storage::File(paths.last()),
                name: Some(source::region_name(rs.last())),
                ..rs.last()
            },
        )
    } else {
        localized(rs.drop_last(), paths).push(rs.last())
    }
}

/// The positions of the remote sources, in order: these are to be downloaded.
pub fn download_jobs(sources: &Vec<Source>) -> (r: Vec<usize>)
    ensures
        r@.len() == remote_count(source::regions(sources@)),
        forall|k: int|
            0 <= k < r@.len() ==> #[trigger] r@[k] < sources@.len() && sources@[r@[k] as int].kind is Http,
        forall|j: int, k: int| 0 <= j < k < r@.len() ==> r@[j] < r@[k],
{
    let mut out: Vec<usize> = Vec::new();
    let ghost rs = source::regions(sources@);
    let mut i: usize = 0;
    assert(rs.take(0) =~= seq![]);
    while i < sources.len()
        invariant
            i <= sources@.len(),
            rs == source::regions(sources@),
            out@.len() == remote_count(rs.take(i as int)),
            forall|k: int|
                0 <= k < out@.len() ==> #[trigger] out@[k] < i && sources@[out@[k] as int].kind is Http,
            forall|j: int, k: int| 0 <= j < k < out@.len() ==> out@[j] < out@[k],
        decreases sources@.len() - i,
    {
        assert(rs.take(i + 1).drop_last() =~= rs.take(i as int));
        assert(rs.take(i + 1).last() == sources@[i as int]@);
        if sources[i].is_remote() {
            out.push(i);
        }
        i = i + 1;
    }
    assert(rs.take(i as int) =~= rs);
    out
}

/// Swaps every remote source for its local copy; `paths` holds the copies in
/// the order of the sources.
pub fn materialize_http_sources(sources: Vec<Source>, paths: Vec<String>) -> (r: Vec<Source>)
    requires
        paths@.len() == remote_count(source::regions(sources@)),
    ensures
        source::regions(r@) == localized(source::regions(sources@), order::texts(paths@)),
        r@.len() == sources@.len(),
        forall|i: int| 0 <= i < r@.len() ==> (#[trigger] r@[i]).file_idx == sources@[i].file_idx,
{
    let ghost all = sources@;
    let ghost rs = source::regions(sources@);
    let ghost ps = order::texts(paths@);
    let ghost goal = localized(rs, ps);
    let mut rest = sources;
    let mut copies = paths;
    let mut back: Vec<Source> = Vec::new();
    proof {
        lemma_localized_len(rs, ps);
        assert(rs.take(rs.len() as int) =~= rs);
        assert(goal.take(goal.len() as int) =~= goal);
    }
    while rest.len() > 0
        invariant
            rs == source::regions(all),
            rest@ == all.take(rest@.len() as int),
            rest@.len() <= all.len(),
            back@.len() == all.len() - rest@.len(),
            goal.len() == all.len(),
            copies@.len() == remote_count(rs.take(rest@.len() as int)),
            localized(rs.take(rest@.len() as int), order::texts(copies@)) == goal.take(
                rest@.len() as int,
            ),
            forall|i: int|
                0 <= i < back@.len() ==> (#[trigger] back@[i])@ == goal[all.len() - 1 - i]
                    && back@[i].file_idx == all[all.len() - 1 - i].file_idx,
        decreases rest@.len(),
    {
        let ghost n = rest@.len() as int;
        let ghost before = order::texts(copies@);
        if let Some(s) = rest.pop() {
            assert(rs.take(n).drop_last() =~= rs.take(n - 1));
            assert(rs.take(n).last() == s@);
            assert(goal.take(n).last() == goal[n - 1]);
            assert(goal.take(n).drop_last() =~= goal.take(n - 1));
            let ghost run = localized(rs.take(n), before);
            if s.is_remote() {
                if let Some(p) = copies.pop() {
                    assert(before.last() == p@);
                    assert(order::texts(copies@) =~= before.drop_last());
                    let t = s.materialized(p);
                    assert(run.last() == t@);
                    assert(run.drop_last() =~= localized(rs.take(n - 1), before.drop_last()));
                    back.push(t);
                }
            } else {
                assert(run.last() == s@);
                assert(run.drop_last() =~= localized(rs.take(n - 1), before));
                back.push(s);
            }
        }
    }
    let ghost reversed = back@;
    let mut out: Vec<Source> = Vec::new();
    while back.len() > 0
        invariant
            back@ == reversed.take(back@.len() as int),
            out@.len() == reversed.len() - back@.len(),
            forall|i: int|
                0 <= i < out@.len() ==> #[trigger] out@[i] == reversed[reversed.len() - 1 - i],
        decreases back@.len(),
    {
        if let Some(s) = back.pop() {
            out.push(s);
        }
    }
    assert(source::regions(out@) =~= goal);
    out
}

proof fn lemma_localized_len(rs: Seq<source::Region>, paths: Seq<Seq<char>>)
    ensures
        localized(rs, paths).len() == rs.len(),
    decreases rs.len(),
{
    if rs.len() > 0 {
        lemma_localized_len(rs.drop_last(), paths);
        lemma_localized_len(rs.drop_last(), paths.drop_last());
    }
}

/// Keeping remote stretches as local copies leaves none remote, and changes no
/// size and no display name.
pub proof fn localizing_keeps_the_canvas(rs: Seq<source::Region>, paths: Seq<Seq<char>>, i: int)
    requires
        0 <= i < rs.len(),
    ensures
        localized(rs, paths).len() == rs.len(),
        localized(rs, paths)[i].storage !is Http,
        localized(rs, paths)[i].size == rs[i].size,
        source::region_name(localized(rs, paths)[i]) == source::region_name(rs[i]),
    decreases rs.len(),
{
    lemma_localized_len(rs, paths);
    let shorter = if rs.last().storage is Http {
        paths.drop_last()
    } else {
        paths
    };
    lemma_localized_len(rs.drop_last(), shorter);
    if i < rs.len() - 1 {
        localizing_keeps_the_canvas(rs.drop_last(), shorter, i);
    }
}

} // verus!
