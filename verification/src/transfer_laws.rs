//! How transfers behave over time: which source a copy stands for, how setbacks
//! slow requests down, and how often a request is tried again.

use vstd::prelude::*;
use crate::download;
use crate::source;
use crate::text;
use crate::throttle;
use crate::throttle::{Outcome, Retries, Throttle};

verus! {

/// How many of the first `k` stretches are remote.
pub open spec fn remotes_before(rs: Seq<source::Region>, k: int) -> int
    decreases k,
{
    if k <= 0 {
        0
    } else {
        remotes_before(rs, k - 1) + (if rs[k - 1].storage is Http {
            1int
        } else {
            0
        })
    }
}

proof fn lemma_remote_count(rs: Seq<source::Region>)
    ensures
        download::remote_count(rs) == remotes_before(rs, rs.len() as int),
    decreases rs.len(),
{
    if rs.len() > 0 {
        lemma_remote_count(rs.drop_last());
        lemma_remotes_prefix(rs, rs.drop_last(), rs.len() - 1);
    }
}

proof fn lemma_remotes_prefix(a: Seq<source::Region>, b: Seq<source::Region>, k: int)
    requires
        0 <= k <= a.len(),
        k <= b.len(),
        forall|i: int| 0 <= i < k ==> a[i] == b[i],
    ensures
        remotes_before(a, k) == remotes_before(b, k),
    decreases k,
{
    if k > 0 {
        lemma_remotes_prefix(a, b, k - 1);
    }
}

proof fn lemma_remotes_monotone(rs: Seq<source::Region>, i: int, k: int)
    requires
        0 <= i <= k,
    ensures
        0 <= remotes_before(rs, i) <= remotes_before(rs, k),
    decreases k,
{
    if i < k {
        lemma_remotes_monotone(rs, i, k - 1);
    } else if k > 0 {
        lemma_remotes_monotone(rs, 0, k - 1);
    }
}

/// The `n`-th remote stretch reads the `n`-th copy, all of it and under its own
/// name and header; every other stretch stays as it is.
pub proof fn remotes_read_their_copy(rs: Seq<source::Region>, paths: Seq<Seq<char>>, i: int)
    requires
        0 <= i < rs.len(),
        paths.len() == remotes_before(rs, rs.len() as int),
    ensures
        download::localized(rs, paths).len() == rs.len(),
        rs[i].storage is Http ==> {
            let r = download::localized(rs, paths)[i];
            &&& 0 <= remotes_before(rs, i) < paths.len()
            &&& r.storage == source::Storage::File(paths[remotes_before(rs, i)])
            &&& r.size == rs[i].size
            &&& r.model == rs[i].model
            &&& source::region_name(r) == source::region_name(rs[i])
        },
        rs[i].storage !is Http ==> download::localized(rs, paths)[i] == rs[i],
    decreases rs.len(),
{
    let n = rs.len() - 1;
    let init = rs.drop_last();
    download::localizing_keeps_the_canvas(rs, paths, i);
    lemma_remotes_prefix(rs, init, n);
    lemma_remotes_monotone(rs, i, n);
    let shorter = if rs.last().storage is Http {
        paths.drop_last()
    } else {
        paths
    };
    if n > 0 {
        download::localizing_keeps_the_canvas(init, shorter, 0);
    }
    if i < n {
        remotes_read_their_copy(init, shorter, i);
        lemma_remotes_prefix(rs, init, i);
    } else {
        assert(n == 0 ==> download::localized(init, shorter).len() == 0);
    }
}

proof fn lemma_digits_of_decimal(n: nat)
    ensures
        download::digits_value(text::decimal(n)) == Some(n),
        text::decimal(n).len() > 0,
        '0' <= text::decimal(n)[0] <= '9',
    decreases n,
{
    reveal_with_fuel(download::digits_value, 2);
    if n < 10 {
        let s = text::decimal(n);
        assert(s.drop_last() =~= Seq::<char>::empty());
        assert(download::digits_value(Seq::<char>::empty()) == Some(0nat));
        assert(s.last() == (n + 48) as char);
        assert((n + 48) as char as int == n + 48);
    } else {
        lemma_digits_of_decimal(n / 10);
        let s = text::decimal(n);
        assert(s.drop_last() =~= text::decimal(n / 10));
        assert(s.last() == (n % 10 + 48) as char);
        assert((n % 10 + 48) as char as int == n % 10 + 48);
        assert(s[0] == text::decimal(n / 10)[0]);
    }
}

/// A number is read as it is written, with or without a plus sign before it.
pub proof fn numbers_read_back(n: u64)
    ensures
        download::number_in(text::decimal(n as nat)) == Some(n),
        download::number_in(seq!['+'] + text::decimal(n as nat)) == Some(n),
{
    lemma_digits_of_decimal(n as nat);
    let d = text::decimal(n as nat);
    assert((seq!['+'] + d).skip(1) =~= d);
}

/// Growth pauses after a setback: while the cooldown of a rate limit, or of a
/// transient failure that lowered the limit, lasts, no success counts.
pub proof fn setbacks_pause_growth(t: Throttle, at: i64, now: i64)
    requires
        0 < at,
        now - at <= 60,
    ensures
        !t.after_rate_limit(at).counts_success(now),
        t.after_timeout(at).active_limit < t.active_limit ==> !t.after_timeout(
            at,
        ).counts_success(now),
{
}

/// A setback ends the doubling for good and starts the count of successes anew;
/// each kind of setback is counted on its own.
pub proof fn setbacks_end_the_slow_start(t: Throttle, at: i64)
    requires
        t.wf(),
        0 < at,
    ensures
        ({
            let r = t.after_rate_limit(at);
            &&& !r.slow_start()
            &&& r.successes_since_scale_up == 0
            &&& r.total_rate_limits == t.total_rate_limits.wrapping_add(1)
            &&& r.total_timeouts == t.total_timeouts
            &&& r.in_flight == t.in_flight
            &&& r.max_workers == t.max_workers
            &&& r.last_timeout == t.last_timeout
            &&& r.active_limit >= 1
            &&& 2 * r.active_limit >= t.active_limit - 1
            &&& r.active_limit > t.active_limit / 2 ==> r.active_limit <= 4 || r.active_limit * 64
                <= t.max_workers
        }),
        ({
            let r = t.after_timeout(at);
            &&& r.active_limit < t.active_limit ==> !r.slow_start() && r.successes_since_scale_up
                == 0
            &&& r.active_limit == t.active_limit ==> r.last_timeout == t.last_timeout
                && r.successes_since_scale_up == t.successes_since_scale_up
            &&& r.total_timeouts == t.total_timeouts.wrapping_add(1)
            &&& r.total_rate_limits == t.total_rate_limits
            &&& r.last_rate_limit == t.last_rate_limit
            &&& 10 * r.active_limit >= 9 * t.active_limit - 9
            &&& r.active_limit <= t.active_limit
            &&& 10 * r.active_limit > 9 * t.active_limit ==> r.active_limit <= 4 || r.active_limit
                * 16 <= t.max_workers || r.active_limit == t.active_limit
        }),
{
}

/// The limit grows only on the tenth success that counts: the nine before it
/// leave it as it is, and the tenth doubles it up to the ceiling, or adds one
/// once there was a setback. The next growth is a minute and a half away.
pub proof fn ten_successes_scale_up(t: Throttle, now: i64)
    requires
        t.wf(),
        0 < now,
    ensures
        ({
            let r = t.after_success(now);
            &&& !t.counts_success(now) ==> r == t
            &&& t.counts_success(now) && t.successes_since_scale_up < 9 ==> r.active_limit
                == t.active_limit && r.successes_since_scale_up == t.successes_since_scale_up + 1
                && r.last_scale_up == t.last_scale_up
            &&& t.counts_success(now) && t.successes_since_scale_up >= 9 ==> {
                &&& r.active_limit > t.active_limit
                &&& r.active_limit <= t.max_workers
                &&& r.successes_since_scale_up == 0
                &&& t.slow_start() ==> r.active_limit == 2 * t.active_limit || r.active_limit
                    == t.max_workers && 2 * t.active_limit > t.max_workers
                &&& !t.slow_start() ==> r.active_limit == t.active_limit + 1
                &&& forall|later: i64|
                    later - now < 90 ==> !#[trigger] r.counts_success(later)
            }
        }),
{
}

/// Once all cooldowns are over every success counts below the ceiling.
pub proof fn growth_resumes(t: Throttle, now: i64)
    requires
        t.active_limit < t.max_workers,
        now - t.last_rate_limit > 60,
        now - t.last_timeout > 60,
        now - t.last_scale_up >= 90,
    ensures
        t.counts_success(now),
{
}

/// A status tells a setback from a failure: 429 alone is a rate limit, of the
/// others only some server errors are worth another try.
pub proof fn statuses_are_told_apart(status: u16)
    ensures
        throttle::status_outcome(status) == Outcome::RateLimit <==> status == 429,
        throttle::status_outcome(status) == Outcome::Timeout ==> 500 <= status <= 504 && status
            != 501,
        status < 500 && status != 429 ==> throttle::status_outcome(status) == Outcome::Permanent,
        status == 500 || 502 <= status <= 504 ==> throttle::status_outcome(status)
            == Outcome::Timeout,
{
}

/// How often the request was tried again after outcomes of one kind.
pub open spec fn tries(r: Retries, outcome: Outcome) -> int {
    match outcome {
        Outcome::RateLimit => r.rate_limit_retries as int,
        Outcome::Timeout => r.timeout_retries as int,
        _ => 0,
    }
}

/// Each kind of setback has tries of its own: one setback uses up one try of
/// its kind and none of the other, ten of them for rate limits and five for
/// transient failures. Neither a success nor a permanent failure is tried again.
pub proof fn tries_are_counted_apart(r: Retries, outcome: Outcome, other: Outcome)
    requires
        r.wf(),
    ensures
        !throttle::tries_again(r, None),
        !throttle::tries_again(r, Some(Outcome::Permanent)),
        outcome == Outcome::RateLimit ==> (throttle::tries_again(r, Some(outcome)) <==> tries(
            r,
            outcome,
        ) < 10),
        outcome == Outcome::Timeout ==> (throttle::tries_again(r, Some(outcome)) <==> tries(
            r,
            outcome,
        ) < 5),
        throttle::tries_again(r, Some(outcome)) ==> tries(
            throttle::counted(r, Some(outcome)),
            outcome,
        ) == tries(r, outcome) + 1,
        other != outcome ==> tries(throttle::counted(r, Some(outcome)), other) == tries(r, other),
{
}

/// A wait after a rate limit takes between one second and just over a minute,
/// and up to the cap the longest wait grows fourfold from try to try.
pub proof fn waits_grow_fourfold(attempt: u32, r: u64)
    requires
        1 <= attempt <= 3,
    ensures
        1000 <= throttle::backoff_ms(attempt, r) <= 64_000,
        1000 <= throttle::backoff_ms(4, r) <= 64_000,
        999 + throttle::backoff_span((attempt + 1) as u32) == 4 * (999 + throttle::backoff_span(
            attempt,
        )),
        throttle::backoff_ms(1, r) <= 3000,
        r < throttle::backoff_span(attempt) && r <= 63_000 ==> throttle::backoff_ms(attempt, r) == 1000
            + r,
{
    let span = throttle::backoff_span(attempt);
    if r < span {
        assert(r % span == r) by (nonlinear_arith)
            requires
                r < span,
        ;
    }
}

} // verus!
