//! The 2D Hilbert curve on the canvas: index to pixel, the rectangles that a
//! byte range fills, and their outlines.

use vstd::prelude::*;
use std::collections::hash_map::DefaultHasher;
use std::hash::Hasher;
use vstd::std_specs::hash::DefaultHasherAdditionalSpecFns;
use crate::hashing;
use crate::hashing::write_text;
use crate::hilbert3d;

verus! {

/// A pixel.
pub ghost struct Cell {
    pub x: int,
    pub y: int,
}

/// A rectangle of pixels, the far edges excluded.
pub ghost struct Rect {
    pub x0: int,
    pub y0: int,
    pub x1: int,
    pub y1: int,
}

/// The rectangle that a tuple denotes.
pub open spec fn rect_of(r: (u32, u32, u32, u32)) -> Rect {
    Rect { x0: r.0 as int, y0: r.1 as int, x1: r.2 as int, y1: r.3 as int }
}

/// The rectangles that a list of tuples denotes.
pub open spec fn rects_of(v: Seq<(u32, u32, u32, u32)>) -> Seq<Rect> {
    v.map_values(|r: (u32, u32, u32, u32)| rect_of(r))
}

/// 4 to the power `k`.
pub open spec fn pow4(k: nat) -> int
    decreases k,
{
    if k == 0 {
        1
    } else {
        4 * pow4((k - 1) as nat)
    }
}

/// The quadrant that a curve in `state` visits as its `i`-th, and the state in
/// which it runs through it.
pub open spec fn child(state: int, i: int) -> (int, int, int) {
    if state == 0 {
        if i == 0 {
            (0, 0, 1)
        } else if i == 1 {
            (0, 1, 0)
        } else if i == 2 {
            (1, 1, 0)
        } else {
            (1, 0, 2)
        }
    } else if state == 1 {
        if i == 0 {
            (0, 0, 0)
        } else if i == 1 {
            (1, 0, 1)
        } else if i == 2 {
            (1, 1, 1)
        } else {
            (0, 1, 3)
        }
    } else if state == 2 {
        if i == 0 {
            (1, 1, 3)
        } else if i == 1 {
            (0, 1, 2)
        } else if i == 2 {
            (0, 0, 2)
        } else {
            (1, 0, 0)
        }
    } else {
        if i == 0 {
            (1, 1, 2)
        } else if i == 1 {
            (1, 0, 3)
        } else if i == 2 {
            (0, 0, 3)
        } else {
            (0, 1, 1)
        }
    }
}

/// The pixel at index `h` of the curve of order `k` that starts in `state`.
pub open spec fn curve(h: int, k: nat, state: int) -> Cell
    decreases k,
{
    if k == 0 {
        Cell { x: 0, y: 0 }
    } else {
        let j = (k - 1) as nat;
        let (dx, dy, next) = child(state, h / pow4(j));
        let p = curve(h % pow4(j), j, next);
        Cell { x: dx * hilbert3d::pow2(j) + p.x, y: dy * hilbert3d::pow2(j) + p.y }
    }
}

/// What `fast_hilbert::h2xy` returns for 32-bit coordinates.
pub uninterp spec fn h2xy_of(idx: u64, order: u8) -> (u32, u32);

/// `fast_hilbert::h2xy` with 32-bit coordinates. The index and the order alone
/// decide the result, and an index on the curve of that order goes to the pixel
/// that the crate's state diagram leads to: each base-4 digit of the index,
/// from the highest, picks a quadrant and the next state.
#[verifier::external_body]
fn h2xy(idx: u64, order: u8) -> (r: (u32, u32))
    ensures
        r == h2xy_of(idx, order),
        order <= 32 && idx < pow4(order as nat) ==> (Cell { x: r.0 as int, y: r.1 as int })
            == curve(idx as int, order as nat, 0),
{
    fast_hilbert::h2xy::<u32>(idx, order)
}

/// Hilbert curve index → pixel coordinates using u64 for large curves.
pub fn hilbert_to_xy_u64(idx: u64, order: u8) -> (r: (u32, u32))
    ensures
        r == h2xy_of(idx, order),
        order <= 32 && idx < pow4(order as nat) ==> (Cell { x: r.0 as int, y: r.1 as int })
            == curve(idx as int, order as nat, 0) && r.0 < hilbert3d::pow2(order as nat) && r.1 < hilbert3d::pow2(
            order as nat,
        ),
{
    proof {
        if idx < pow4(order as nat) {
            curve_in_square(idx as int, order as nat, 0);
        }
    }
    h2xy(idx, order)
}

pub(crate) proof fn lemma_pow4_pos(k: nat)
    ensures
        pow4(k) >= 1,
    decreases k,
{
    if k > 0 {
        lemma_pow4_pos((k - 1) as nat);
    }
}

pub(crate) proof fn lemma_pow2_pos(k: nat)
    ensures
        hilbert3d::pow2(k) >= 1,
    decreases k,
{
    if k > 0 {
        lemma_pow2_pos((k - 1) as nat);
    }
}

/// A square of side 2^k has 4^k pixels.
pub proof fn square_of_side(k: nat)
    ensures
        hilbert3d::pow2(k) * hilbert3d::pow2(k) == pow4(k),
    decreases k,
{
    if k > 0 {
        let j = (k - 1) as nat;
        square_of_side(j);
        assert((2 * hilbert3d::pow2(j)) * (2 * hilbert3d::pow2(j)) == 4 * (hilbert3d::pow2(j) * hilbert3d::pow2(j))) by (nonlinear_arith);
    }
}

proof fn lemma_digit(h: int, k: nat)
    requires
        k > 0,
        0 <= h < pow4(k),
    ensures
        0 <= h / pow4((k - 1) as nat) < 4,
        0 <= h % pow4((k - 1) as nat) < pow4((k - 1) as nat),
        h == pow4((k - 1) as nat) * (h / pow4((k - 1) as nat)) + h % pow4((k - 1) as nat),
{
    let m = pow4((k - 1) as nat);
    lemma_pow4_pos((k - 1) as nat);
    vstd::arithmetic::div_mod::lemma_fundamental_div_mod(h, m);
    let q = h / m;
    assert(0 <= h % m < m) by {
        vstd::arithmetic::div_mod::lemma_mod_bound(h, m);
    }
    assert(0 <= q < 4) by (nonlinear_arith)
        requires
            h == m * q + h % m,
            0 <= h < 4 * m,
            0 <= h % m < m,
            m >= 1,
    ;
}

/// The curve stays in its square.
pub proof fn curve_in_square(h: int, k: nat, state: int)
    requires
        0 <= h < pow4(k),
    ensures
        0 <= curve(h, k, state).x < hilbert3d::pow2(k),
        0 <= curve(h, k, state).y < hilbert3d::pow2(k),
    decreases k,
{
    if k > 0 {
        let j = (k - 1) as nat;
        lemma_digit(h, k);
        let (dx, dy, next) = child(state, h / pow4(j));
        curve_in_square(h % pow4(j), j, next);
        assert(0 * hilbert3d::pow2(j) == 0 && 1 * hilbert3d::pow2(j) == hilbert3d::pow2(j));
    }
}

/// The two pixels at different indices of one curve differ.
pub proof fn curve_is_injective(g: int, h: int, k: nat, state: int)
    requires
        0 <= g < pow4(k),
        0 <= h < pow4(k),
        0 <= state < 4,
        curve(g, k, state) == curve(h, k, state),
    ensures
        g == h,
    decreases k,
{
    if k > 0 {
        let j = (k - 1) as nat;
        lemma_digit(g, k);
        lemma_digit(h, k);
        let a = child(state, g / pow4(j));
        let b = child(state, h / pow4(j));
        curve_in_square(g % pow4(j), j, a.2);
        curve_in_square(h % pow4(j), j, b.2);
        assert(0 * hilbert3d::pow2(j) == 0 && 1 * hilbert3d::pow2(j) == hilbert3d::pow2(j));
        assert(a.0 == b.0 && a.1 == b.1);
        assert(g / pow4(j) == h / pow4(j));
        curve_is_injective(g % pow4(j), h % pow4(j), j, a.2);
    }
}

/// Where the curve in `state` starts and ends: in a corner of its square.
spec fn entry_corner(state: int, m: int) -> Cell {
    if state == 0 || state == 1 {
        Cell { x: 0, y: 0 }
    } else {
        Cell { x: m, y: m }
    }
}

spec fn exit_corner(state: int, m: int) -> Cell {
    if state == 0 || state == 2 {
        Cell { x: m, y: 0 }
    } else {
        Cell { x: 0, y: m }
    }
}

proof fn lemma_corners(k: nat, state: int)
    requires
        0 <= state < 4,
    ensures
        curve(0, k, state) == entry_corner(state, hilbert3d::pow2(k) - 1),
        curve(pow4(k) - 1, k, state) == exit_corner(state, hilbert3d::pow2(k) - 1),
    decreases k,
{
    if k > 0 {
        let j = (k - 1) as nat;
        let m = pow4(j);
        lemma_pow4_pos(j);
        assert(0int / m == 0 && 0int % m == 0) by {
            vstd::arithmetic::div_mod::lemma_fundamental_div_mod_converse(0, m, 0, 0);
        }
        vstd::arithmetic::div_mod::lemma_fundamental_div_mod_converse(4 * m - 1, m, 3, m - 1);
        lemma_corners(j, child(state, 0).2);
        lemma_corners(j, child(state, 3).2);
        assert(0 * hilbert3d::pow2(j) == 0 && 1 * hilbert3d::pow2(j) == hilbert3d::pow2(j));
    }
}

/// How many unit steps lead from one pixel to the other.
pub open spec fn cell_steps(a: Cell, b: Cell) -> nat {
    vstd::math::abs(a.x - b.x) + vstd::math::abs(a.y - b.y)
}

/// Consecutive indices of the curve are neighbouring pixels.
pub proof fn curve_steps_by_one(h: int, k: nat, state: int)
    requires
        0 <= h,
        h + 1 < pow4(k),
        0 <= state < 4,
    ensures
        cell_steps(curve(h, k, state), curve(h + 1, k, state)) == 1,
    decreases k,
{
    if k > 0 {
        let j = (k - 1) as nat;
        let m = pow4(j);
        lemma_pow4_pos(j);
        lemma_pow2_pos(j);
        lemma_digit(h, k);
        lemma_digit(h + 1, k);
        let q = h / m;
        let r = h % m;
        assert(0 * hilbert3d::pow2(j) == 0 && 1 * hilbert3d::pow2(j) == hilbert3d::pow2(j));
        if r + 1 < m {
            vstd::arithmetic::div_mod::lemma_fundamental_div_mod_converse(h + 1, m, q, r + 1);
            curve_steps_by_one(r, j, child(state, q).2);
        } else {
            assert(h + 1 == m * (q + 1) + 0) by (nonlinear_arith)
                requires
                    h == m * q + r,
                    r == m - 1,
            ;
            vstd::arithmetic::div_mod::lemma_fundamental_div_mod_converse(h + 1, m, q + 1, 0);
            lemma_corners(j, child(state, q).2);
            lemma_corners(j, child(state, q + 1).2);
        }
    }
}

/// The rectangles of the part of `a..b` that lies in the first `n` quadrants.
pub open spec fn decompose_quadrants(
    a: int,
    b: int,
    level: nat,
    x0: int,
    y0: int,
    side: int,
    state: int,
    n: int,
) -> Seq<Rect>
    decreases level, n,
    when level > 0
{
    if n <= 0 {
        seq![]
    } else {
        let i = n - 1;
        let half = side / 2;
        let ca = i * (half * half);
        let cb = ca + half * half;
        let before = decompose_quadrants(a, b, level, x0, y0, side, state, n - 1);
        if a >= cb || b <= ca {
            before
        } else {
            let (dx, dy, next) = child(state, i);
            before + decompose(
                if a > ca {
                    a - ca
                } else {
                    0
                },
                (if b < cb {
                    b
                } else {
                    cb
                }) - ca,
                (level - 1) as nat,
                x0 + dx * half,
                y0 + dy * half,
                half,
                next,
            )
        }
    }
}

/// The rectangles of the range `a..b` of a curve: the whole square where the
/// range is all of it, else those of the four quadrants.
pub open spec fn decompose(
    a: int,
    b: int,
    level: nat,
    x0: int,
    y0: int,
    side: int,
    state: int,
) -> Seq<Rect>
    decreases level, 5int,
{
    if a == 0 && b == side * side {
        seq![Rect { x0, y0, x1: x0 + side, y1: y0 + side }]
    } else if level == 0 {
        seq![Rect { x0, y0, x1: x0 + 1, y1: y0 + 1 }]
    } else {
        decompose_quadrants(a, b, level, x0, y0, side, state, 4)
    }
}

fn child_of(state: u8, i: u64) -> (r: (u32, u32, u8))
    requires
        state < 4,
        i < 4,
    ensures
        (r.0 as int, r.1 as int, r.2 as int) == child(state as int, i as int),
        r.0 <= 1,
        r.1 <= 1,
        r.2 < 4,
{
    if state == 0 {
        if i == 0 {
            (0, 0, 1)
        } else if i == 1 {
            (0, 1, 0)
        } else if i == 2 {
            (1, 1, 0)
        } else {
            (1, 0, 2)
        }
    } else if state == 1 {
        if i == 0 {
            (0, 0, 0)
        } else if i == 1 {
            (1, 0, 1)
        } else if i == 2 {
            (1, 1, 1)
        } else {
            (0, 1, 3)
        }
    } else if state == 2 {
        if i == 0 {
            (1, 1, 3)
        } else if i == 1 {
            (0, 1, 2)
        } else if i == 2 {
            (0, 0, 2)
        } else {
            (1, 0, 0)
        }
    } else {
        if i == 0 {
            (1, 1, 2)
        } else if i == 1 {
            (1, 0, 3)
        } else if i == 2 {
            (0, 0, 3)
        } else {
            (0, 1, 1)
        }
    }
}

fn push_rect(out: &mut Vec<(u32, u32, u32, u32)>, x0: u32, y0: u32, x1: u32, y1: u32)
    ensures
        rects_of(final(out)@) == rects_of(old(out)@) + seq![
            Rect { x0: x0 as int, y0: y0 as int, x1: x1 as int, y1: y1 as int },
        ],
{
    out.push((x0, y0, x1, y1));
    assert(rects_of(out@) =~= rects_of(old(out)@) + seq![
        Rect { x0: x0 as int, y0: y0 as int, x1: x1 as int, y1: y1 as int },
    ]);
}

/// Recursively decompose Hilbert local range [a, b) at `level` (order-`level`
/// curve on a 2^level × 2^level square) into axis-aligned pixel rectangles.
pub fn decompose_hilbert(
    a: u64,
    b: u64,
    level: u8,
    x0: u32,
    y0: u32,
    side: u32,
    state: u8,
    out: &mut Vec<(u32, u32, u32, u32)>,
)
    requires
        state < 4,
        side >= 1,
        x0 + side <= u32::MAX,
        y0 + side <= u32::MAX,
    ensures
        rects_of(final(out)@) == rects_of(old(out)@) + decompose(
            a as int,
            b as int,
            level as nat,
            x0 as int,
            y0 as int,
            side as int,
            state as int,
        ),
    decreases level,
{
    assert(side as int * side as int <= 0xffff_ffff * 0xffff_ffff) by (nonlinear_arith)
        requires
            side <= 0xffff_ffff,
    ;
    let total: u64 = (side as u64) * (side as u64);
    if a == 0 && b == total {
        push_rect(out, x0, y0, x0 + side, y0 + side);
        return;
    }
    if level == 0 {
        push_rect(out, x0, y0, x0 + 1, y0 + 1);
        return;
    }
    let child_side: u32 = side / 2;
    assert(child_side as int * child_side as int <= 0x7fff_ffff * 0x7fff_ffff) by (nonlinear_arith)
        requires
            child_side <= 0x7fff_ffff,
    ;
    let q_size: u64 = (child_side as u64) * (child_side as u64);
    let ghost before = rects_of(out@);
    let mut i: u64 = 0;
    assert(rects_of(out@) =~= before + decompose_quadrants(
        a as int,
        b as int,
        level as nat,
        x0 as int,
        y0 as int,
        side as int,
        state as int,
        0,
    ));
    while i < 4
        invariant
            i <= 4,
            level > 0,
            state < 4,
            child_side == side / 2,
            q_size == child_side * child_side,
            q_size <= 0x7fff_ffff * 0x7fff_ffff,
            x0 + side <= u32::MAX,
            y0 + side <= u32::MAX,
            rects_of(out@) == before + decompose_quadrants(
                a as int,
                b as int,
                level as nat,
                x0 as int,
                y0 as int,
                side as int,
                state as int,
                i as int,
            ),
        decreases 4 - i,
    {
        assert(i * q_size <= 3 * q_size) by (nonlinear_arith)
            requires
                i <= 3,
        ;
        let ca: u64 = i * q_size;
        let cb: u64 = ca + q_size;
        let ghost here = rects_of(out@);
        i = i + 1;
        if a >= cb || b <= ca {
            continue;
        }
        let (dx, dy, child_state): (u32, u32, u8) = child_of(state, i - 1);
        assert(q_size > 0);
        assert(child_side >= 1) by (nonlinear_arith)
            requires
                q_size > 0,
                q_size == child_side * child_side,
        ;
        assert(0 * child_side == 0 && 1 * child_side == child_side);
        let lo: u64 = if a > ca {
            a - ca
        } else {
            0
        };
        let hi: u64 = if b < cb {
            b - ca
        } else {
            cb - ca
        };
        decompose_hilbert(
            lo,
            hi,
            level - 1,
            x0 + dx * child_side,
            y0 + dy * child_side,
            child_side,
            child_state,
            out,
        );
        assert(rects_of(out@) =~= before + decompose_quadrants(
            a as int,
            b as int,
            level as nat,
            x0 as int,
            y0 as int,
            side as int,
            state as int,
            i as int,
        ));
    }
}

/// The pixel lies in the rectangle.
pub open spec fn in_rect(r: Rect, c: Cell) -> bool {
    r.x0 <= c.x < r.x1 && r.y0 <= c.y < r.y1
}

/// How many of the rectangles hold the pixel.
pub open spec fn rect_count(rs: Seq<Rect>, c: Cell) -> int
    decreases rs.len(),
{
    if rs.len() == 0 {
        0
    } else {
        rect_count(rs.drop_last(), c) + (if in_rect(rs.last(), c) {
            1int
        } else {
            0int
        })
    }
}

pub(crate) proof fn lemma_rect_count_concat(a: Seq<Rect>, b: Seq<Rect>, c: Cell)
    ensures
        rect_count(a + b, c) == rect_count(a, c) + rect_count(b, c),
    decreases b.len(),
{
    if b.len() == 0 {
        assert(a + b =~= a);
    } else {
        lemma_rect_count_concat(a, b.drop_last(), c);
        assert((a + b).drop_last() =~= a + b.drop_last());
    }
}

proof fn lemma_rect_count_one(r: Rect, c: Cell)
    ensures
        rect_count(seq![r], c) == (if in_rect(r, c) {
            1int
        } else {
            0int
        }),
{
    reveal_with_fuel(rect_count, 2);
    assert(seq![r].drop_last() =~= seq![]);
}

/// No rectangle reaches outside the square.
pub(crate) proof fn lemma_decompose_inside(
    a: int,
    b: int,
    level: nat,
    x0: int,
    y0: int,
    state: int,
    c: Cell,
)
    requires
        0 <= state < 4,
        !in_rect(Rect { x0, y0, x1: x0 + hilbert3d::pow2(level), y1: y0 + hilbert3d::pow2(level) }, c),
    ensures
        rect_count(decompose(a, b, level, x0, y0, hilbert3d::pow2(level), state), c) == 0,
    decreases level, 5int,
{
    let side = hilbert3d::pow2(level);
    lemma_pow2_pos(level);
    if a == 0 && b == side * side {
        lemma_rect_count_one(Rect { x0, y0, x1: x0 + side, y1: y0 + side }, c);
    } else if level == 0 {
        lemma_rect_count_one(Rect { x0, y0, x1: x0 + 1, y1: y0 + 1 }, c);
    } else {
        lemma_quadrants_inside(a, b, level, x0, y0, state, c, 4);
    }
}

proof fn lemma_quadrants_inside(
    a: int,
    b: int,
    level: nat,
    x0: int,
    y0: int,
    state: int,
    c: Cell,
    n: int,
)
    requires
        level > 0,
        0 <= state < 4,
        0 <= n <= 4,
        !in_rect(Rect { x0, y0, x1: x0 + hilbert3d::pow2(level), y1: y0 + hilbert3d::pow2(level) }, c),
    ensures
        rect_count(decompose_quadrants(a, b, level, x0, y0, hilbert3d::pow2(level), state, n), c) == 0,
    decreases level, n,
{
    if n > 0 {
        let i = n - 1;
        let j = (level - 1) as nat;
        let half = hilbert3d::pow2(j);
        lemma_pow2_pos(j);
        lemma_quadrants_inside(a, b, level, x0, y0, state, c, n - 1);
        let ca = i * (half * half);
        let cb = ca + half * half;
        if !(a >= cb || b <= ca) {
            let (dx, dy, next) = child(state, i);
            assert(0 * half == 0 && 1 * half == half);
            let lo = if a > ca {
                a - ca
            } else {
                0
            };
            let hi = (if b < cb {
                b
            } else {
                cb
            }) - ca;
            lemma_decompose_inside(lo, hi, j, x0 + dx * half, y0 + dy * half, next, c);
            lemma_rect_count_concat(
                decompose_quadrants(a, b, level, x0, y0, hilbert3d::pow2(level), state, n - 1),
                decompose(lo, hi, j, x0 + dx * half, y0 + dy * half, half, next),
                c,
            );
        }
    }
}

/// The rectangles of a range of the curve hold exactly the pixels at its
/// indices, each of them once.
pub proof fn decompose_covers_range(
    a: int,
    b: int,
    level: nat,
    x0: int,
    y0: int,
    state: int,
    h: int,
)
    requires
        0 <= a < b <= pow4(level),
        0 <= state < 4,
        0 <= h < pow4(level),
    ensures
        rect_count(
            decompose(a, b, level, x0, y0, hilbert3d::pow2(level), state),
            Cell { x: x0 + curve(h, level, state).x, y: y0 + curve(h, level, state).y },
        ) == (if a <= h < b {
            1int
        } else {
            0int
        }),
    decreases level, 5int,
{
    let side = hilbert3d::pow2(level);
    let p = curve(h, level, state);
    let c = Cell { x: x0 + p.x, y: y0 + p.y };
    square_of_side(level);
    curve_in_square(h, level, state);
    if a == 0 && b == side * side {
        lemma_rect_count_one(Rect { x0, y0, x1: x0 + side, y1: y0 + side }, c);
    } else if level > 0 {
        lemma_quadrants_cover(a, b, level, x0, y0, state, h, 4);
        lemma_digit(h, level);
    }
}

proof fn lemma_quadrants_cover(
    a: int,
    b: int,
    level: nat,
    x0: int,
    y0: int,
    state: int,
    h: int,
    n: int,
)
    requires
        level > 0,
        0 <= a < b <= pow4(level),
        0 <= state < 4,
        0 <= h < pow4(level),
        0 <= n <= 4,
    ensures
        rect_count(
            decompose_quadrants(a, b, level, x0, y0, hilbert3d::pow2(level), state, n),
            Cell { x: x0 + curve(h, level, state).x, y: y0 + curve(h, level, state).y },
        ) == (if a <= h < b && h / pow4((level - 1) as nat) < n {
            1int
        } else {
            0int
        }),
    decreases level, n,
{
    if n > 0 {
        let i = n - 1;
        let j = (level - 1) as nat;
        let half = hilbert3d::pow2(j);
        let m = pow4(j);
        lemma_pow2_pos(j);
        square_of_side(j);
        lemma_quadrants_cover(a, b, level, x0, y0, state, h, n - 1);
        lemma_digit(h, level);
        let q = h / m;
        let r = h % m;
        let ca = i * (half * half);
        let cb = ca + half * half;
        assert(ca == m * i) by (nonlinear_arith)
            requires
                ca == i * (half * half),
                half * half == m,
        ;
        let p = curve(h, level, state);
        let c = Cell { x: x0 + p.x, y: y0 + p.y };
        let (dx, dy, next) = child(state, i);
        let (ex, ey, own) = child(state, q);
        let s = curve(r, j, own);
        curve_in_square(r, j, own);
        assert(0 * half == 0 && 1 * half == half);
        // Where `h` lies relative to this quadrant.
        assert(q == i ==> ca <= h < cb);
        assert(q < i ==> h < ca) by (nonlinear_arith)
            requires
                h == m * q + r,
                0 <= r < m,
                ca == m * i,
        ;
        assert(q > i ==> h >= cb) by (nonlinear_arith)
            requires
                h == m * q + r,
                0 <= r < m,
                ca == m * i,
                cb == ca + m,
        ;
        if !(a >= cb || b <= ca) {
            let lo = if a > ca {
                a - ca
            } else {
                0
            };
            let hi = (if b < cb {
                b
            } else {
                cb
            }) - ca;
            let sub = decompose(lo, hi, j, x0 + dx * half, y0 + dy * half, half, next);
            lemma_rect_count_concat(
                decompose_quadrants(a, b, level, x0, y0, hilbert3d::pow2(level), state, n - 1),
                sub,
                c,
            );
            if q == i {
                decompose_covers_range(lo, hi, j, x0 + dx * half, y0 + dy * half, next, r);
                assert(c == (Cell { x: x0 + dx * half + s.x, y: y0 + dy * half + s.y }));
                assert((lo <= r < hi) == (a <= h < b));
            } else {
                assert(dx != ex || dy != ey);
                lemma_decompose_inside(lo, hi, j, x0 + dx * half, y0 + dy * half, next, c);
            }
        }
    }
}

/// The rectangles of the first `n` squares.
pub open spec fn squares_rects(
    start: int,
    end: int,
    square_pixels: int,
    height: int,
    kh: nat,
    n: int,
) -> Seq<Rect>
    decreases n,
{
    if n <= 0 {
        seq![]
    } else {
        let sq = (n - 1) * square_pixels;
        let a = if start > sq {
            start - sq
        } else {
            0
        };
        let b = (if end < sq + square_pixels {
            end
        } else {
            sq + square_pixels
        }) - sq;
        let before = squares_rects(start, end, square_pixels, height, kh, n - 1);
        if b <= a {
            before
        } else {
            before + decompose(a, b, kh, (n - 1) * height, 0, height, 0)
        }
    }
}

/// The rectangles of the bytes `start..end` of a canvas of `total` pixels in
/// `n` squares.
pub open spec fn byte_rects(
    start: int,
    end: int,
    total: int,
    square_pixels: int,
    height: int,
    kh: nat,
    n: int,
) -> Seq<Rect> {
    let stop = if end < total {
        end
    } else {
        total
    };
    if stop <= start {
        seq![]
    } else {
        squares_rects(start, stop, square_pixels, height, kh, n)
    }
}

/// Collect all dyadic pixel rectangles for a file's byte range. The canvas is
/// a row of `num_squares` squares, each with a curve of its own.
pub fn file_rects(
    byte_start: u64,
    byte_end: u64,
    total_pixels: u64,
    square_pixels: u64,
    num_squares: u32,
    height: u32,
    kh: u8,
) -> (r: Vec<(u32, u32, u32, u32)>)
    requires
        height >= 1,
        num_squares * square_pixels <= u64::MAX,
        num_squares * height <= u32::MAX,
    ensures
        rects_of(r@) == byte_rects(
            byte_start as int,
            byte_end as int,
            total_pixels as int,
            square_pixels as int,
            height as int,
            kh as nat,
            num_squares as int,
        ),
{
    let end: u64 = if byte_end < total_pixels {
        byte_end
    } else {
        total_pixels
    };
    let mut all: Vec<(u32, u32, u32, u32)> = Vec::new();
    assert(rects_of(all@) =~= seq![]);
    if end <= byte_start {
        return all;
    }
    let mut sq: u32 = 0;
    while sq < num_squares
        invariant
            sq <= num_squares,
            height >= 1,
            byte_start < end,
            num_squares * square_pixels <= u64::MAX,
            num_squares * height <= u32::MAX,
            rects_of(all@) == squares_rects(
                byte_start as int,
                end as int,
                square_pixels as int,
                height as int,
                kh as nat,
                sq as int,
            ),
        decreases num_squares - sq,
    {
        assert(sq * square_pixels + square_pixels <= num_squares * square_pixels)
            by (nonlinear_arith)
            requires
                sq < num_squares,
        ;
        assert(sq * height + height <= num_squares * height) by (nonlinear_arith)
            requires
                sq < num_squares,
        ;
        let sq_start: u64 = sq as u64 * square_pixels;
        let sq_end: u64 = sq_start + square_pixels;
        let a: u64 = if byte_start > sq_start {
            byte_start - sq_start
        } else {
            0
        };
        let stop: u64 = if end < sq_end {
            end
        } else {
            sq_end
        };
        let x_off: u32 = sq * height;
        sq = sq + 1;
        if stop <= sq_start || stop - sq_start <= a {
            continue;
        }
        decompose_hilbert(a, stop - sq_start, kh, x_off, 0, height, 0, &mut all);
    }
    all
}

proof fn lemma_squares_cover(
    start: int,
    end: int,
    kh: nat,
    n: int,
    h: int,
    s: int,
)
    requires
        0 <= start < end,
        0 <= h < pow4(kh),
        0 <= n,
        0 <= s,
    ensures
        rect_count(
            squares_rects(start, end, pow4(kh), hilbert3d::pow2(kh), kh, n),
            Cell { x: s * hilbert3d::pow2(kh) + curve(h, kh, 0).x, y: curve(h, kh, 0).y },
        ) == (if s < n && start <= s * pow4(kh) + h < end {
            1int
        } else {
            0int
        }),
    decreases n,
{
    if n > 0 {
        let m = pow4(kh);
        let w = hilbert3d::pow2(kh);
        let t = n - 1;
        lemma_squares_cover(start, end, kh, t, h, s);
        lemma_pow4_pos(kh);
        lemma_pow2_pos(kh);
        curve_in_square(h, kh, 0);
        let p = curve(h, kh, 0);
        let c = Cell { x: s * w + p.x, y: p.y };
        let sq = t * m;
        let a = if start > sq {
            start - sq
        } else {
            0
        };
        let b = (if end < sq + m {
            end
        } else {
            sq + m
        }) - sq;
        if b > a {
            let sub = decompose(a, b, kh, t * w, 0, w, 0);
            lemma_rect_count_concat(squares_rects(start, end, m, w, kh, t), sub, c);
            if s == t {
                decompose_covers_range(a, b, kh, t * w, 0, 0, h);
            } else {
                if s < t {
                    assert(s * w + w <= t * w) by (nonlinear_arith)
                        requires
                            s < t,
                            w >= 1,
                    ;
                } else {
                    assert(t * w + w <= s * w) by (nonlinear_arith)
                        requires
                            t < s,
                            w >= 1,
                    ;
                }
                lemma_decompose_inside(a, b, kh, t * w, 0, 0, c);
            }
        }
    }
}

/// The rectangles of a file hold exactly the pixels of its bytes, each once:
/// byte `s * 4^kh + h` stands in the `s`-th square, at index `h` of its curve.
pub proof fn file_rects_cover_bytes(
    start: int,
    end: int,
    kh: nat,
    num_squares: int,
    h: int,
    s: int,
)
    requires
        0 <= start < end,
        0 <= s < num_squares,
        0 <= h < pow4(kh),
    ensures
        rect_count(
            squares_rects(start, end, pow4(kh), hilbert3d::pow2(kh), kh, num_squares),
            Cell { x: s * hilbert3d::pow2(kh) + curve(h, kh, 0).x, y: curve(h, kh, 0).y },
        ) == (if start <= s * pow4(kh) + h < end {
            1int
        } else {
            0int
        }),
{
    lemma_squares_cover(start, end, kh, num_squares, h, s);
}

/// Twice the first moment of the rectangles along the first axis.
pub open spec fn moment_x(rs: Seq<Rect>) -> int
    decreases rs.len(),
{
    if rs.len() == 0 {
        0
    } else {
        let r = rs.last();
        moment_x(rs.drop_last()) + (r.x1 - r.x0) * (r.y1 - r.y0) * (r.x0 + r.x1)
    }
}

/// Twice the first moment of the rectangles along the second axis.
pub open spec fn moment_y(rs: Seq<Rect>) -> int
    decreases rs.len(),
{
    if rs.len() == 0 {
        0
    } else {
        let r = rs.last();
        moment_y(rs.drop_last()) + (r.x1 - r.x0) * (r.y1 - r.y0) * (r.y0 + r.y1)
    }
}

/// The number of pixels in the rectangles.
pub open spec fn area(rs: Seq<Rect>) -> int
    decreases rs.len(),
{
    if rs.len() == 0 {
        0
    } else {
        let r = rs.last();
        area(rs.drop_last()) + (r.x1 - r.x0) * (r.y1 - r.y0)
    }
}

/// The rectangle is the right way round and its middle can be computed.
pub open spec fn upright(r: (u32, u32, u32, u32)) -> bool {
    r.0 <= r.2 && r.1 <= r.3 && r.0 + r.2 <= u32::MAX && r.1 + r.3 <= u32::MAX
}

/// Area-weighted centroid of a set of axis-aligned pixel rectangles, rounded
/// down; `None` where they hold no pixel.
pub fn rects_centroid(rects: &[(u32, u32, u32, u32)]) -> (r: Option<(u32, u32)>)
    requires
        rects@.len() <= u32::MAX,
        forall|i: int| 0 <= i < rects@.len() ==> upright(#[trigger] rects@[i]),
    ensures
        match r {
            Some(c) => area(rects_of(rects@)) > 0 && c.0 == moment_x(rects_of(rects@)) / (2 * area(
                rects_of(rects@),
            )) && c.1 == moment_y(rects_of(rects@)) / (2 * area(rects_of(rects@))),
            None => area(rects_of(rects@)) == 0,
        },
{
    let mut total: u128 = 0;
    let mut wx: u128 = 0;
    let mut wy: u128 = 0;
    let ghost rs = rects_of(rects@);
    let mut i: usize = 0;
    assert(rs.take(0) =~= seq![]);
    while i < rects.len()
        invariant
            i <= rects@.len() <= u32::MAX,
            rs == rects_of(rects@),
            forall|k: int| 0 <= k < rects@.len() ==> upright(#[trigger] rects@[k]),
            total == area(rs.take(i as int)),
            wx == moment_x(rs.take(i as int)),
            wy == moment_y(rs.take(i as int)),
            total <= i * 0x1_0000_0000_0000_0000,
            wx <= i * 0x1_0000_0000_0000_0000_0000_0000,
            wy <= i * 0x1_0000_0000_0000_0000_0000_0000,
            wx <= total * 0xffff_ffff,
            wy <= total * 0xffff_ffff,
        decreases rects@.len() - i,
    {
        let (x0, y0, x1, y1): (u32, u32, u32, u32) = rects[i];
        proof {
            assert(upright(rects@[i as int]));
            assert(rs.take(i + 1).drop_last() =~= rs.take(i as int));
            assert(rs.take(i + 1).last() == rect_of(rects@[i as int]));
            let a = (x1 - x0) * (y1 - y0);
            assert(0 <= a < 0x1_0000_0000_0000_0000) by (nonlinear_arith)
                requires
                    a == (x1 - x0) * (y1 - y0),
                    0 <= x1 - x0 <= 0xffff_ffff,
                    0 <= y1 - y0 <= 0xffff_ffff,
            ;
            assert(0 <= a * (x0 + x1) <= a * 0xffff_ffff) by (nonlinear_arith)
                requires
                    0 <= a,
                    0 <= x0 + x1 <= 0xffff_ffff,
            ;
            assert(0 <= a * (y0 + y1) <= a * 0xffff_ffff) by (nonlinear_arith)
                requires
                    0 <= a,
                    0 <= y0 + y1 <= 0xffff_ffff,
            ;
        }
        let w: u128 = (x1 - x0) as u128;
        let h: u128 = (y1 - y0) as u128;
        let a: u128 = w * h;
        wx = wx + a * (x0 + x1) as u128;
        wy = wy + a * (y0 + y1) as u128;
        total = total + a;
        i = i + 1;
    }
    assert(rs.take(i as int) =~= rs);
    if total == 0 {
        return None;
    }
    proof {
        assert(0 <= wx as int / (2 * total as int) <= 0xffff_ffff) by (nonlinear_arith)
            requires
                0 <= wx <= total * 0xffff_ffff,
                total > 0,
        ;
        assert(0 <= wy as int / (2 * total as int) <= 0xffff_ffff) by (nonlinear_arith)
            requires
                0 <= wy <= total * 0xffff_ffff,
                total > 0,
        ;
    }
    Some(((wx / (2 * total)) as u32, (wy / (2 * total)) as u32))
}

/// The hue of a name: its hash on the colour circle, in degrees.
pub open spec fn hue_of(name: Seq<char>) -> int {
    DefaultHasher::spec_finish(hashing::text_writes(name)) as int % 360
}

/// Determine a consistent hue for a file based on its name.
pub fn name_hue(name: &str) -> (hue: u16)
    ensures
        hue == hue_of(name@),
        hue < 360,
{
    let mut h = DefaultHasher::new();
    write_text(&mut h, name);
    assert(h@ =~= hashing::text_writes(name@));
    (h.finish() % 360) as u16
}

} // verus!
