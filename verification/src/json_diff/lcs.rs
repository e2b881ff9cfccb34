//! Longest common subsequence of two hash sequences.

use vstd::prelude::*;

verus! {

/// The length of a longest common subsequence of the first `i` items of `a`
/// and the first `j` items of `b`.
pub open spec fn lcs_len(a: Seq<u64>, b: Seq<u64>, i: int, j: int) -> int
    decreases i, j,
{
    if i <= 0 || j <= 0 {
        0
    } else if a[i - 1] == b[j - 1] {
        lcs_len(a, b, i - 1, j - 1) + 1
    } else if lcs_len(a, b, i - 1, j) >= lcs_len(a, b, i, j - 1) {
        lcs_len(a, b, i - 1, j)
    } else {
        lcs_len(a, b, i, j - 1)
    }
}

/// The index pairs of one such subsequence: equal last items are matched, and
/// otherwise the side is shortened on which the common subsequence stays
/// longest, `a` where both are as good.
pub open spec fn lcs_trace(a: Seq<u64>, b: Seq<u64>, i: int, j: int) -> Seq<(int, int)>
    decreases i, j,
{
    if i <= 0 || j <= 0 {
        seq![]
    } else if a[i - 1] == b[j - 1] {
        lcs_trace(a, b, i - 1, j - 1).push((i - 1, j - 1))
    } else if lcs_len(a, b, i - 1, j) >= lcs_len(a, b, i, j - 1) {
        lcs_trace(a, b, i - 1, j)
    } else {
        lcs_trace(a, b, i, j - 1)
    }
}

/// The pairs match equal items of the first `i` items of `a` and the first `j`
/// items of `b`, in increasing order on both sides.
pub open spec fn is_common(
    p: Seq<(int, int)>,
    a: Seq<u64>,
    b: Seq<u64>,
    i: int,
    j: int,
) -> bool {
    &&& forall|k: int|
        0 <= k < p.len() ==> 0 <= (#[trigger] p[k]).0 < i && 0 <= p[k].1 < j && a[p[k].0]
            == b[p[k].1]
    &&& forall|k: int, l: int|
        0 <= k < l < p.len() ==> (#[trigger] p[k]).0 < (#[trigger] p[l]).0 && p[k].1 < p[l].1
}

/// The index pairs that a list of machine-integer pairs denotes.
pub open spec fn index_pairs(v: Seq<(usize, usize)>) -> Seq<(int, int)> {
    v.map_values(|p: (usize, usize)| (p.0 as int, p.1 as int))
}

pub(crate) proof fn lemma_lcs_len_bounds(a: Seq<u64>, b: Seq<u64>, i: int, j: int)
    requires
        0 <= i,
        0 <= j,
    ensures
        0 <= lcs_len(a, b, i, j) <= i,
        lcs_len(a, b, i, j) <= j,
    decreases i, j,
{
    if i > 0 && j > 0 {
        lemma_lcs_len_bounds(a, b, i - 1, j - 1);
        lemma_lcs_len_bounds(a, b, i - 1, j);
        lemma_lcs_len_bounds(a, b, i, j - 1);
    }
}

/// The traced pairs form a common subsequence of the computed length.
pub proof fn lcs_trace_is_common(a: Seq<u64>, b: Seq<u64>, i: int, j: int)
    requires
        0 <= i <= a.len(),
        0 <= j <= b.len(),
    ensures
        is_common(lcs_trace(a, b, i, j), a, b, i, j),
        lcs_trace(a, b, i, j).len() == lcs_len(a, b, i, j),
    decreases i, j,
{
    if i > 0 && j > 0 {
        if a[i - 1] == b[j - 1] {
            lcs_trace_is_common(a, b, i - 1, j - 1);
        } else if lcs_len(a, b, i - 1, j) >= lcs_len(a, b, i, j - 1) {
            lcs_trace_is_common(a, b, i - 1, j);
        } else {
            lcs_trace_is_common(a, b, i, j - 1);
        }
    }
}

/// No common subsequence is longer than the computed length.
pub proof fn lcs_len_is_longest(
    p: Seq<(int, int)>,
    a: Seq<u64>,
    b: Seq<u64>,
    i: int,
    j: int,
)
    requires
        0 <= i <= a.len(),
        0 <= j <= b.len(),
        is_common(p, a, b, i, j),
    ensures
        p.len() <= lcs_len(a, b, i, j),
    decreases i, j,
{
    lemma_lcs_len_bounds(a, b, i, j);
    if p.len() > 0 {
        let last = p[p.len() - 1];
        let init = p.drop_last();
        if a[i - 1] == b[j - 1] {
            assert forall|k: int| 0 <= k < init.len() implies 0 <= (#[trigger] init[k]).0 < i - 1
                && 0 <= init[k].1 < j - 1 && a[init[k].0] == b[init[k].1] by {
                assert(p[k].0 < p[p.len() - 1].0);
            }
            assert(is_common(init, a, b, i - 1, j - 1));
            lcs_len_is_longest(init, a, b, i - 1, j - 1);
        } else if last.0 < i - 1 {
            assert forall|k: int| 0 <= k < p.len() implies 0 <= (#[trigger] p[k]).0 < i - 1
                && 0 <= p[k].1 < j && a[p[k].0] == b[p[k].1] by {
                if k < p.len() - 1 {
                    assert(p[k].0 < p[p.len() - 1].0);
                }
            }
            lcs_len_is_longest(p, a, b, i - 1, j);
        } else {
            assert forall|k: int| 0 <= k < p.len() implies 0 <= (#[trigger] p[k]).0 < i && 0
                <= p[k].1 < j - 1 && a[p[k].0] == b[p[k].1] by {
                if k < p.len() - 1 {
                    assert(p[k].1 < p[p.len() - 1].1);
                }
            }
            lcs_len_is_longest(p, a, b, i, j - 1);
        }
    }
}

/// Wagner-Fischer LCS over two hash sequences. Returns matched index pairs
/// `(i_in_a, i_in_b)` in increasing order on both axes. O(n*m) time and
/// memory; caller is responsible for bounding inputs.
pub fn lcs_pairs(a: &[u64], b: &[u64]) -> (r: Vec<(usize, usize)>)
    requires
        a@.len() < usize::MAX,
        b@.len() < usize::MAX,
    ensures
        index_pairs(r@) == lcs_trace(a@, b@, a@.len() as int, b@.len() as int),
        is_common(index_pairs(r@), a@, b@, a@.len() as int, b@.len() as int),
{
    let n: usize = a.len();
    let m: usize = b.len();
    proof {
        lcs_trace_is_common(a@, b@, n as int, m as int);
    }
    // dp[i][j] = LCS length of a[..i], b[..j].
    let mut dp: Vec<Vec<usize>> = Vec::new();
    let mut first: Vec<usize> = Vec::new();
    let mut j: usize = 0;
    while j <= m
        invariant
            j <= m + 1,
            m < usize::MAX,
            first@.len() == j,
            forall|c: int| 0 <= c < j ==> #[trigger] first@[c] == lcs_len(a@, b@, 0, c),
        decreases m + 1 - j,
    {
        first.push(0);
        j = j + 1;
    }
    dp.push(first);
    let mut i: usize = 0;
    while i < n
        invariant
            i <= n,
            n == a@.len() < usize::MAX,
            m == b@.len() < usize::MAX,
            dp@.len() == i + 1,
            forall|r: int| 0 <= r <= i ==> (#[trigger] dp@[r])@.len() == m + 1,
            forall|r: int, c: int|
                0 <= r <= i && 0 <= c <= m ==> #[trigger] dp@[r]@[c] == lcs_len(a@, b@, r, c),
        decreases n - i,
    {
        let mut row: Vec<usize> = Vec::new();
        row.push(0);
        let mut j: usize = 0;
        while j < m
            invariant
                j <= m,
                i < n,
                n == a@.len() < usize::MAX,
                m == b@.len() < usize::MAX,
                dp@.len() == i + 1,
                dp@[i as int]@.len() == m + 1,
                forall|c: int|
                    0 <= c <= m ==> #[trigger] dp@[i as int]@[c] == lcs_len(a@, b@, i as int, c),
                row@.len() == j + 1,
                forall|c: int| 0 <= c <= j ==> #[trigger] row@[c] == lcs_len(a@, b@, i + 1, c),
            decreases m - j,
        {
            proof {
                lemma_lcs_len_bounds(a@, b@, i as int, j as int);
            }
            let above: usize = dp[i][j + 1];
            let left: usize = row[j];
            let value: usize = if a[i] == b[j] {
                dp[i][j] + 1
            } else if above >= left {
                above
            } else {
                left
            };
            assert(value == lcs_len(a@, b@, i + 1, j + 1));
            row.push(value);
            j = j + 1;
        }
        dp.push(row);
        i = i + 1;
    }
    // Backtrack.
    let mut back: Vec<(usize, usize)> = Vec::new();
    let mut i: usize = n;
    let mut j: usize = m;
    let ghost goal = lcs_trace(a@, b@, n as int, m as int);
    assert(lcs_trace(a@, b@, i as int, j as int) + index_pairs(back@.reverse()) =~= goal);
    while i > 0 && j > 0
        invariant
            i <= n,
            j <= m,
            n == a@.len() < usize::MAX,
            m == b@.len() < usize::MAX,
            dp@.len() == n + 1,
            forall|r: int| 0 <= r <= n ==> (#[trigger] dp@[r])@.len() == m + 1,
            forall|r: int, c: int|
                0 <= r <= n && 0 <= c <= m ==> #[trigger] dp@[r]@[c] == lcs_len(a@, b@, r, c),
            lcs_trace(a@, b@, i as int, j as int) + index_pairs(back@.reverse()) == goal,
        decreases i + j,
    {
        if a[i - 1] == b[j - 1] {
            let ghost rest = index_pairs(back@.reverse());
            back.push((i - 1, j - 1));
            assert(index_pairs(back@.reverse()) =~= seq![(i - 1, j - 1)] + rest);
            assert(lcs_trace(a@, b@, i - 1, j - 1).push((i - 1, j - 1)) + rest =~= lcs_trace(
                a@,
                b@,
                i - 1,
                j - 1,
            ) + (seq![(i - 1, j - 1)] + rest));
            i = i - 1;
            j = j - 1;
        } else if dp[i - 1][j] >= dp[i][j - 1] {
            i = i - 1;
        } else {
            j = j - 1;
        }
    }
    assert(index_pairs(back@.reverse()) =~= goal);
    let mut pairs: Vec<(usize, usize)> = Vec::new();
    let mut k: usize = back.len();
    while k > 0
        invariant
            k <= back@.len(),
            pairs@.len() == back@.len() - k,
            forall|x: int|
                0 <= x < pairs@.len() ==> #[trigger] pairs@[x] == back@[back@.len() - 1 - x],
        decreases k,
    {
        k = k - 1;
        pairs.push(back[k]);
    }
    assert(pairs@ =~= back@.reverse());
    pairs
}

} // verus!
