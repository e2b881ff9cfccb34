//! The rectangles of byte ranges part the canvas as the ranges part the bytes.

use crate::geometry;
use crate::geometry::{Cell, Rect};
use crate::hilbert3d;
use vstd::prelude::*;

verus! {

/// Every pixel of the square stands on the curve.
proof fn lemma_on_curve(c: Cell, k: nat, state: int) -> (h: int)
    requires
        0 <= state < 4,
        0 <= c.x < hilbert3d::pow2(k),
        0 <= c.y < hilbert3d::pow2(k),
    ensures
        0 <= h < geometry::pow4(k),
        geometry::curve(h, k, state) == c,
    decreases k,
{
    if k == 0 {
        0
    } else {
        let j = (k - 1) as nat;
        let half = hilbert3d::pow2(j);
        let m = geometry::pow4(j);
        geometry::lemma_pow2_pos(j);
        geometry::lemma_pow4_pos(j);
        let dx: int = if c.x >= half {
            1
        } else {
            0
        };
        let dy: int = if c.y >= half {
            1
        } else {
            0
        };
        let i: int = if (geometry::child(state, 0).0, geometry::child(state, 0).1) == (dx, dy) {
            0
        } else if (geometry::child(state, 1).0, geometry::child(state, 1).1) == (dx, dy) {
            1
        } else if (geometry::child(state, 2).0, geometry::child(state, 2).1) == (dx, dy) {
            2
        } else {
            3
        };
        let (ex, ey, next) = geometry::child(state, i);
        assert(ex == dx && ey == dy);
        assert(0 * half == 0 && 1 * half == half);
        let d = Cell { x: c.x - dx * half, y: c.y - dy * half };
        let r = lemma_on_curve(d, j, next);
        let h = m * i + r;
        assert(0 <= m * i <= 3 * m) by (nonlinear_arith)
            requires
                0 <= i <= 3,
                m > 0,
        ;
        vstd::arithmetic::div_mod::lemma_fundamental_div_mod_converse(h, m, i, r);
        h
    }
}

/// The part of `a..b` that lies below `n`.
spec fn below(a: int, b: int, n: int) -> int {
    let hi = if b < n {
        b
    } else {
        n
    };
    if hi > a {
        hi - a
    } else {
        0
    }
}

proof fn lemma_area_concat(a: Seq<Rect>, b: Seq<Rect>)
    ensures
        geometry::area(a + b) == geometry::area(a) + geometry::area(b),
    decreases b.len(),
{
    if b.len() == 0 {
        assert(a + b =~= a);
    } else {
        lemma_area_concat(a, b.drop_last());
        assert((a + b).drop_last() =~= a + b.drop_last());
    }
}

proof fn lemma_area_one(r: Rect)
    ensures
        geometry::area(seq![r]) == (r.x1 - r.x0) * (r.y1 - r.y0),
{
    reveal_with_fuel(geometry::area, 2);
    assert(seq![r].drop_last() =~= seq![]);
}

/// The rectangles of a range of the curve hold as many pixels as the range has
/// indices.
proof fn lemma_decompose_area(a: int, b: int, level: nat, x0: int, y0: int, state: int)
    requires
        0 <= a < b <= geometry::pow4(level),
    ensures
        geometry::area(
            geometry::decompose(a, b, level, x0, y0, hilbert3d::pow2(level), state),
        ) == b - a,
    decreases level, 5int,
{
    let side = hilbert3d::pow2(level);
    geometry::square_of_side(level);
    if a == 0 && b == side * side {
        lemma_area_one(Rect { x0, y0, x1: x0 + side, y1: y0 + side });
    } else if level > 0 {
        lemma_quadrants_area(a, b, level, x0, y0, state, 4);
    }
}

proof fn lemma_quadrants_area(
    a: int,
    b: int,
    level: nat,
    x0: int,
    y0: int,
    state: int,
    n: int,
)
    requires
        level > 0,
        0 <= a < b <= geometry::pow4(level),
        0 <= n <= 4,
    ensures
        geometry::area(
            geometry::decompose_quadrants(
                a,
                b,
                level,
                x0,
                y0,
                hilbert3d::pow2(level),
                state,
                n,
            ),
        ) == below(a, b, n * geometry::pow4((level - 1) as nat)),
    decreases level, n,
{
    let j = (level - 1) as nat;
    let half = hilbert3d::pow2(j);
    let m = geometry::pow4(j);
    geometry::lemma_pow4_pos(j);
    if n > 0 {
        let i = n - 1;
        geometry::square_of_side(j);
        lemma_quadrants_area(a, b, level, x0, y0, state, i);
        let ca = i * (half * half);
        let cb = ca + half * half;
        assert(ca == i * m && cb == n * m) by (nonlinear_arith)
            requires
                ca == i * (half * half),
                cb == ca + half * half,
                half * half == m,
                n == i + 1,
        ;
        assert(ca >= 0) by (nonlinear_arith)
            requires
                ca == i * m,
                i >= 0,
                m > 0,
        ;
        if !(a >= cb || b <= ca) {
            let (dx, dy, next) = geometry::child(state, i);
            let lo = if a > ca {
                a - ca
            } else {
                0
            };
            let hi = (if b < cb {
                b
            } else {
                cb
            }) - ca;
            lemma_decompose_area(lo, hi, j, x0 + dx * half, y0 + dy * half, next);
            lemma_area_concat(
                geometry::decompose_quadrants(
                    a,
                    b,
                    level,
                    x0,
                    y0,
                    hilbert3d::pow2(level),
                    state,
                    i,
                ),
                geometry::decompose(lo, hi, j, x0 + dx * half, y0 + dy * half, half, next),
            );
        }
    } else {
        assert(n * m == 0) by (nonlinear_arith)
            requires
                n == 0,
        ;
    }
}

proof fn lemma_squares_area(start: int, end: int, kh: nat, n: int)
    requires
        0 <= start < end,
        0 <= n,
    ensures
        geometry::area(
            geometry::squares_rects(
                start,
                end,
                geometry::pow4(kh),
                hilbert3d::pow2(kh),
                kh,
                n,
            ),
        ) == below(start, end, n * geometry::pow4(kh)),
    decreases n,
{
    let m = geometry::pow4(kh);
    let w = hilbert3d::pow2(kh);
    geometry::lemma_pow4_pos(kh);
    if n > 0 {
        let t = n - 1;
        lemma_squares_area(start, end, kh, t);
        let sq = t * m;
        assert(n * m == sq + m && sq >= 0) by (nonlinear_arith)
            requires
                sq == t * m,
                n == t + 1,
                t >= 0,
                m > 0,
        ;
        let a = if start > sq {
            start - sq
        } else {
            0
        };
        let b = (if end < sq + m {
            end
        } else {
            sq + m
        }) - sq;
        if b > a {
            lemma_decompose_area(a, b, kh, t * w, 0, 0);
            lemma_area_concat(
                geometry::squares_rects(start, end, m, w, kh, t),
                geometry::decompose(a, b, kh, t * w, 0, w, 0),
            );
        }
    } else {
        assert(n * m == 0) by (nonlinear_arith)
            requires
                n == 0,
        ;
    }
}

/// No rectangle reaches outside the row of squares.
proof fn lemma_squares_inside(start: int, end: int, kh: nat, n: int, c: Cell)
    requires
        0 <= n,
        !(0 <= c.x < n * hilbert3d::pow2(kh) && 0 <= c.y < hilbert3d::pow2(kh)),
    ensures
        geometry::rect_count(
            geometry::squares_rects(
                start,
                end,
                geometry::pow4(kh),
                hilbert3d::pow2(kh),
                kh,
                n,
            ),
            c,
        ) == 0,
    decreases n,
{
    if n > 0 {
        let m = geometry::pow4(kh);
        let w = hilbert3d::pow2(kh);
        let t = n - 1;
        geometry::lemma_pow2_pos(kh);
        assert(n * w == t * w + w && t * w >= 0) by (nonlinear_arith)
            requires
                n == t + 1,
                t >= 0,
                w > 0,
        ;
        lemma_squares_inside(start, end, kh, t, c);
        let sq = t * m;
        let a = if start > sq {
            start - sq
        } else {
            0
        };
        let b = (if end < sq + m {
            end
        } else {
            sq + m
        }) - sq;
        if b > a {
            geometry::lemma_decompose_inside(a, b, kh, t * w, 0, 0, c);
            geometry::lemma_rect_count_concat(
                geometry::squares_rects(start, end, m, w, kh, t),
                geometry::decompose(a, b, kh, t * w, 0, w, 0),
                c,
            );
        }
    }
}

/// The byte whose pixel this is, -1 outside the squares.
proof fn lemma_byte_at(kh: nat, n: int, c: Cell) -> (byte: int)
    requires
        0 <= n,
    ensures
        byte == -1 || 0 <= byte < n * geometry::pow4(kh),
        forall|start: int, end: int|
            0 <= start < end ==> #[trigger] geometry::rect_count(
                geometry::squares_rects(
                    start,
                    end,
                    geometry::pow4(kh),
                    hilbert3d::pow2(kh),
                    kh,
                    n,
                ),
                c,
            ) == (if start <= byte < end {
                1int
            } else {
                0int
            }),
{
    let m = geometry::pow4(kh);
    let w = hilbert3d::pow2(kh);
    geometry::lemma_pow2_pos(kh);
    geometry::lemma_pow4_pos(kh);
    if 0 <= c.x < n * w && 0 <= c.y < w {
        let s = c.x / w;
        let r = c.x % w;
        vstd::arithmetic::div_mod::lemma_fundamental_div_mod(c.x, w);
        assert(0 <= r < w && c.x == w * s + r) by (nonlinear_arith)
            requires
                s == c.x / w,
                r == c.x % w,
                w > 0,
        ;
        assert(0 <= s < n && c.x - s * w == r) by (nonlinear_arith)
            requires
                c.x == w * s + r,
                0 <= r < w,
                0 <= c.x < n * w,
        ;
        let h = lemma_on_curve(Cell { x: r, y: c.y }, kh, 0);
        assert(0 <= s * m + h < n * m) by (nonlinear_arith)
            requires
                0 <= s < n,
                0 <= h < m,
        ;
        assert forall|start: int, end: int| 0 <= start < end implies #[trigger]
            geometry::rect_count(geometry::squares_rects(start, end, m, w, kh, n), c) == (if start
            <= s * m + h < end {
            1int
        } else {
            0int
        }) by {
            geometry::file_rects_cover_bytes(start, end, kh, n, h, s);
        }
        s * m + h
    } else {
        assert forall|start: int, end: int| 0 <= start < end implies #[trigger]
            geometry::rect_count(geometry::squares_rects(start, end, m, w, kh, n), c) == 0 by {
            lemma_squares_inside(start, end, kh, n, c);
        }
        -1
    }
}

/// The rectangles of two adjoining byte ranges have no pixel in common and
/// together hold the pixels of the whole range, each once.
pub proof fn adjoining_ranges_part_the_pixels(
    a: int,
    b: int,
    c: int,
    total: int,
    kh: nat,
    n: int,
    p: Cell,
)
    requires
        0 <= a <= b <= c <= total <= n * geometry::pow4(kh),
        0 <= n,
    ensures
        ({
            let m = geometry::pow4(kh);
            let w = hilbert3d::pow2(kh);
            let left = geometry::rect_count(geometry::byte_rects(a, b, total, m, w, kh, n), p);
            let right = geometry::rect_count(geometry::byte_rects(b, c, total, m, w, kh, n), p);
            let whole = geometry::rect_count(geometry::byte_rects(a, c, total, m, w, kh, n), p);
            &&& 0 <= left
            &&& 0 <= right
            &&& left + right == whole
            &&& whole <= 1
        }),
{
    let byte = lemma_byte_at(kh, n, p);
}

/// The rectangles of a byte range hold as many pixels as the range has bytes;
/// there are none exactly where it is empty.
pub proof fn rects_hold_a_pixel_per_byte(start: int, end: int, total: int, kh: nat, n: int)
    requires
        0 <= start <= end <= total <= n * geometry::pow4(kh),
        0 <= n,
    ensures
        ({
            let rs = geometry::byte_rects(
                start,
                end,
                total,
                geometry::pow4(kh),
                hilbert3d::pow2(kh),
                kh,
                n,
            );
            &&& geometry::area(rs) == end - start
            &&& rs.len() == 0 <==> start == end
        }),
{
    if start < end {
        lemma_squares_area(start, end, kh, n);
    }
}

proof fn lemma_count_at_least(rs: Seq<Rect>, p: Cell, i: int)
    requires
        0 <= i < rs.len(),
        geometry::in_rect(rs[i], p),
    ensures
        geometry::rect_count(rs, p) >= 1,
    decreases rs.len(),
{
    lemma_count_nonnegative(rs.drop_last(), p);
    if i < rs.len() - 1 {
        lemma_count_at_least(rs.drop_last(), p, i);
    }
}

proof fn lemma_count_nonnegative(rs: Seq<Rect>, p: Cell)
    ensures
        geometry::rect_count(rs, p) >= 0,
    decreases rs.len(),
{
    if rs.len() > 0 {
        lemma_count_nonnegative(rs.drop_last(), p);
    }
}

proof fn lemma_counted_twice(rs: Seq<Rect>, p: Cell, i: int, j: int)
    requires
        0 <= i < j < rs.len(),
        geometry::in_rect(rs[i], p),
        geometry::in_rect(rs[j], p),
    ensures
        geometry::rect_count(rs, p) >= 2,
    decreases rs.len(),
{
    if j < rs.len() - 1 {
        lemma_counted_twice(rs.drop_last(), p, i, j);
    } else {
        lemma_count_at_least(rs.drop_last(), p, i);
    }
}

/// No two rectangles of a byte range have a pixel in common.
pub proof fn rects_of_a_range_are_disjoint(
    start: int,
    end: int,
    total: int,
    kh: nat,
    n: int,
    i: int,
    j: int,
    p: Cell,
)
    requires
        0 <= start <= end <= total <= n * geometry::pow4(kh),
        0 <= n,
        0 <= i < j < geometry::byte_rects(
            start,
            end,
            total,
            geometry::pow4(kh),
            hilbert3d::pow2(kh),
            kh,
            n,
        ).len(),
    ensures
        ({
            let rs = geometry::byte_rects(
                start,
                end,
                total,
                geometry::pow4(kh),
                hilbert3d::pow2(kh),
                kh,
                n,
            );
            !(geometry::in_rect(rs[i], p) && geometry::in_rect(rs[j], p))
        }),
{
    let rs = geometry::byte_rects(
        start,
        end,
        total,
        geometry::pow4(kh),
        hilbert3d::pow2(kh),
        kh,
        n,
    );
    let byte = lemma_byte_at(kh, n, p);
    if geometry::in_rect(rs[i], p) && geometry::in_rect(rs[j], p) {
        lemma_counted_twice(rs, p, i, j);
    }
}

} // verus!
