//! How many columns a grid of equal blocks has.

use vstd::prelude::*;

verus! {

/// How many rows `n` blocks take in `c` columns.
pub open spec fn rows_for(n: int, c: int) -> int {
    (n + c - 1) / c
}

/// The width of `c` columns.
pub open spec fn grid_width(c: int, layer_w: int, gutter: int) -> int {
    c * layer_w + (c - 1) * gutter
}

/// The height of the rows for `c` columns.
pub open spec fn grid_height(n: int, c: int, layer_h: int, gutter: int) -> int {
    rows_for(n, c) * (layer_h + gutter)
}

/// The larger of two numbers.
pub open spec fn larger(a: int, b: int) -> int {
    if a >= b {
        a
    } else {
        b
    }
}

/// The smaller of two numbers.
pub open spec fn smaller(a: int, b: int) -> int {
    if a >= b {
        b
    } else {
        a
    }
}

/// The first rectangle is closer to a square than the second: the ratio of its
/// longer to its shorter side is smaller.
pub open spec fn closer(w1: int, h1: int, w2: int, h2: int) -> bool {
    larger(w1, h1) * smaller(w2, h2) < larger(w2, h2) * smaller(w1, h1)
}

/// The grid of `a` columns is closer to a square than that of `b` columns.
pub open spec fn better(a: int, b: int, n: int, layer_w: int, layer_h: int, gutter: int) -> bool {
    closer(
        grid_width(a, layer_w, gutter),
        grid_height(n, a, layer_h, gutter),
        grid_width(b, layer_w, gutter),
        grid_height(n, b, layer_h, gutter),
    )
}

/// The best number of columns up to `k`; the smaller one wins a tie.
pub open spec fn best_up_to(k: int, n: int, layer_w: int, layer_h: int, gutter: int) -> int
    decreases k,
{
    if k <= 1 {
        1
    } else {
        let b = best_up_to(k - 1, n, layer_w, layer_h, gutter);
        if better(k, b, n, layer_w, layer_h, gutter) {
            k
        } else {
            b
        }
    }
}

/// The number of columns: none without blocks, one for a single block or for
/// blocks without area, else the best one.
pub open spec fn column_count(n: int, layer_w: int, layer_h: int, gutter: int) -> int {
    if n == 0 {
        0
    } else if n == 1 || layer_w == 0 || layer_h == 0 {
        1
    } else {
        best_up_to(n, n, layer_w, layer_h, gutter)
    }
}

proof fn lemma_best_range(k: int, n: int, layer_w: int, layer_h: int, gutter: int)
    requires
        k >= 1,
    ensures
        1 <= best_up_to(k, n, layer_w, layer_h, gutter) <= k,
    decreases k,
{
    if k > 1 {
        lemma_best_range(k - 1, n, layer_w, layer_h, gutter);
    }
}

/// The number of columns lies between one and the number of blocks.
pub proof fn column_count_in_range(n: int, layer_w: int, layer_h: int, gutter: int)
    requires
        n >= 1,
    ensures
        1 <= column_count(n, layer_w, layer_h, gutter) <= n,
{
    lemma_best_range(n, n, layer_w, layer_h, gutter);
}

proof fn lemma_extent(c: int, n: int, layer_w: int, layer_h: int, gutter: int)
    requires
        1 <= c <= n,
        layer_w >= 0,
        layer_h >= 0,
        gutter >= 0,
    ensures
        0 <= grid_width(c, layer_w, gutter) <= n * (layer_w + gutter),
        0 <= grid_height(n, c, layer_h, gutter) <= n * (layer_h + gutter),
        1 <= rows_for(n, c) <= n,
        layer_w > 0 ==> grid_width(c, layer_w, gutter) > 0,
        layer_h > 0 ==> grid_height(n, c, layer_h, gutter) > 0,
{
    let r = rows_for(n, c);
    assert(1 <= r <= n) by (nonlinear_arith)
        requires
            r == (n + c - 1) / c,
            1 <= c <= n,
    ;
    assert(0 <= c * layer_w + (c - 1) * gutter <= n * (layer_w + gutter)) by (nonlinear_arith)
        requires
            1 <= c <= n,
            layer_w >= 0,
            gutter >= 0,
    ;
    assert(0 <= r * (layer_h + gutter) <= n * (layer_h + gutter)) by (nonlinear_arith)
        requires
            1 <= r <= n,
            layer_h >= 0,
            gutter >= 0,
    ;
    assert(layer_w > 0 ==> c * layer_w + (c - 1) * gutter > 0) by (nonlinear_arith)
        requires
            1 <= c,
            gutter >= 0,
    ;
    assert(layer_h > 0 ==> r * (layer_h + gutter) > 0) by (nonlinear_arith)
        requires
            1 <= r,
            gutter >= 0,
    ;
}

fn extent_of(c: u32, n: u32, layer_w: u32, layer_h: u32, gutter: u32) -> (r: (u128, u128))
    requires
        1 <= c <= n,
    ensures
        r.0 == grid_width(c as int, layer_w as int, gutter as int),
        r.1 == grid_height(n as int, c as int, layer_h as int, gutter as int),
        r.0 <= 0x2_0000_0000_0000_0000,
        r.1 <= 0x2_0000_0000_0000_0000,
        r.0 <= 0x2_0000_0000_0000 || r.1 <= 0x2_0000_0000_0000,
{
    let rows: u128 = (n as u128 + c as u128 - 1) / c as u128;
    proof {
        let r = rows as int;
        assert(1 <= r <= n) by (nonlinear_arith)
            requires
                r == (n + c - 1) / (c as int),
                1 <= c <= n,
        ;
        assert(c > 0x1_0000 ==> r <= 0x1_0000) by (nonlinear_arith)
            requires
                r == (n + c - 1) / (c as int),
                1 <= c <= n,
                n <= 0xffff_ffff,
        ;
        assert(0 <= c * layer_w <= c * 0xffff_ffff && 0 <= (c - 1) * gutter <= c * 0xffff_ffff)
            by (nonlinear_arith)
            requires
                1 <= c,
                layer_w <= 0xffff_ffff,
                gutter <= 0xffff_ffff,
        ;
        assert(0 <= r * (layer_h + gutter) <= r * 0x1_ffff_fffe) by (nonlinear_arith)
            requires
                1 <= r,
                layer_h <= 0xffff_ffff,
                gutter <= 0xffff_ffff,
        ;
    }
    let w: u128 = c as u128 * layer_w as u128 + (c as u128 - 1) * gutter as u128;
    let h: u128 = rows * (layer_h as u128 + gutter as u128);
    (w, h)
}

fn is_closer(a: (u128, u128), b: (u128, u128)) -> (r: bool)
    requires
        a.0 <= 0x2_0000_0000_0000_0000,
        a.1 <= 0x2_0000_0000_0000_0000,
        a.0 <= 0x2_0000_0000_0000 || a.1 <= 0x2_0000_0000_0000,
        b.0 <= 0x2_0000_0000_0000_0000,
        b.1 <= 0x2_0000_0000_0000_0000,
        b.0 <= 0x2_0000_0000_0000 || b.1 <= 0x2_0000_0000_0000,
    ensures
        r == closer(a.0 as int, a.1 as int, b.0 as int, b.1 as int),
{
    let (a_long, a_short): (u128, u128) = if a.0 >= a.1 {
        (a.0, a.1)
    } else {
        (a.1, a.0)
    };
    let (b_long, b_short): (u128, u128) = if b.0 >= b.1 {
        (b.0, b.1)
    } else {
        (b.1, b.0)
    };
    assert(0 <= a_long * b_short <= u128::MAX && 0 <= b_long * a_short <= u128::MAX)
        by (nonlinear_arith)
        requires
            0 <= a_long <= 0x2_0000_0000_0000_0000,
            0 <= b_long <= 0x2_0000_0000_0000_0000,
            0 <= a_short <= 0x2_0000_0000_0000,
            0 <= b_short <= 0x2_0000_0000_0000,
    ;
    a_long * b_short < b_long * a_short
}

/// Pick a column count for arranging `n` transformer blocks in a grid so the
/// total grid width and height land as close to 1:1 as possible. Returns 0
/// when `n == 0` (no blocks to place) and 1 when `n == 1`.
///
/// Each candidate `c ∈ 1..=n` is scored by the ratio of the longer to the
/// shorter side of the grid, of width `c * layer_w + (c-1) * gutter` and height
/// `ceil(n/c) * (layer_h + gutter)`. Ties broken in favour of the smaller
/// `c` so small models don't get fragmented across many narrow columns.
pub fn pick_column_count(n: u32, layer_w: u32, layer_h: u32, gutter: u32) -> (c: u32)
    ensures
        c == column_count(n as int, layer_w as int, layer_h as int, gutter as int),
        c <= n,
{
    if n == 0 {
        return 0;
    }
    if n == 1 || layer_w == 0 || layer_h == 0 {
        return 1;
    }
    let mut best: u32 = 1;
    let mut c: u32 = 1;
    while c < n
        invariant
            1 <= best <= c <= n,
            best == best_up_to(c as int, n as int, layer_w as int, layer_h as int, gutter as int),
        decreases n - c,
    {
        c = c + 1;
        if is_closer(
            extent_of(c, n, layer_w, layer_h, gutter),
            extent_of(best, n, layer_w, layer_h, gutter),
        ) {
            best = c;
        }
    }
    best
}

proof fn lemma_not_closer_chain(
    w1: int,
    h1: int,
    w2: int,
    h2: int,
    w3: int,
    h3: int,
)
    requires
        w1 > 0 && h1 > 0 && w2 > 0 && h2 > 0 && w3 > 0 && h3 > 0,
        closer(w2, h2, w1, h1),
        !closer(w3, h3, w1, h1),
    ensures
        !closer(w3, h3, w2, h2),
{
    let a = larger(w1, h1);
    let b = smaller(w1, h1);
    let c = larger(w2, h2);
    let d = smaller(w2, h2);
    let e = larger(w3, h3);
    let f = smaller(w3, h3);
    // c / d < a / b <= e / f
    assert(e * d >= c * f) by (nonlinear_arith)
        requires
            c * b < a * d,
            e * b >= a * f,
            a > 0,
            b > 0,
            c > 0,
            d > 0,
            e > 0,
            f > 0,
    {
        assert((c * b) * f <= (a * d) * f) by (nonlinear_arith)
            requires
                c * b < a * d,
                f > 0,
        ;
        assert((a * f) * d <= (e * b) * d) by (nonlinear_arith)
            requires
                e * b >= a * f,
                d > 0,
        ;
        assert((c * f) * b <= (e * d) * b) by (nonlinear_arith)
            requires
                (c * b) * f <= (a * d) * f,
                (a * f) * d <= (e * b) * d,
        ;
        assert(c * f <= e * d) by (nonlinear_arith)
            requires
                (c * f) * b <= (e * d) * b,
                b > 0,
        ;
    }
}

proof fn lemma_best_is_best(k: int, c: int, n: int, layer_w: int, layer_h: int, gutter: int)
    requires
        1 <= c <= k <= n,
        layer_w > 0,
        layer_h > 0,
        gutter >= 0,
    ensures
        !better(c, best_up_to(k, n, layer_w, layer_h, gutter), n, layer_w, layer_h, gutter),
    decreases k,
{
    if k > 1 {
        let b = best_up_to(k - 1, n, layer_w, layer_h, gutter);
        lemma_best_range(k - 1, n, layer_w, layer_h, gutter);
        lemma_extent(k, n, layer_w, layer_h, gutter);
        lemma_extent(b, n, layer_w, layer_h, gutter);
        lemma_extent(c, n, layer_w, layer_h, gutter);
        if c < k {
            lemma_best_is_best(k - 1, c, n, layer_w, layer_h, gutter);
            if better(k, b, n, layer_w, layer_h, gutter) {
                lemma_not_closer_chain(
                    grid_width(b, layer_w, gutter),
                    grid_height(n, b, layer_h, gutter),
                    grid_width(k, layer_w, gutter),
                    grid_height(n, k, layer_h, gutter),
                    grid_width(c, layer_w, gutter),
                    grid_height(n, c, layer_h, gutter),
                );
            }
        }
    }
}

/// No number of columns gives a grid closer to a square than the chosen one.
pub proof fn column_count_is_best(c: int, n: int, layer_w: int, layer_h: int, gutter: int)
    requires
        1 <= c <= n,
        layer_w > 0,
        layer_h > 0,
        gutter >= 0,
    ensures
        !better(c, column_count(n, layer_w, layer_h, gutter), n, layer_w, layer_h, gutter),
{
    lemma_best_is_best(n, c, n, layer_w, layer_h, gutter);
}

} // verus!
