//! The 3D Hilbert curve.
//!
//! The curve of order `k + 1` visits the eight octants of its cube in Gray-code
//! order and runs through each of them along a turned or mirrored copy of the
//! curve of order `k` (J. Skilling, "Programming the Hilbert curve", 2004).

use vstd::prelude::*;

verus! {

/// A point of the cube, or one octant of it: a coordinate for each axis.
pub ghost struct Point {
    pub x: int,
    pub y: int,
    pub z: int,
}

/// 2 to the power `k`.
pub open spec fn pow2(k: nat) -> int
    decreases k,
{
    if k == 0 {
        1
    } else {
        2 * pow2((k - 1) as nat)
    }
}

/// 8 to the power `k`.
pub open spec fn pow8(k: nat) -> int
    decreases k,
{
    if k == 0 {
        1
    } else {
        8 * pow8((k - 1) as nat)
    }
}

/// The octant that the curve visits as its `d`-th, in Gray-code order. A
/// mirrored curve has the first axis the other way round.
pub open spec fn octant(d: int, mirrored: bool) -> Point {
    let p = if d == 0 {
        Point { x: 0, y: 0, z: 0 }
    } else if d == 1 {
        Point { x: 0, y: 0, z: 1 }
    } else if d == 2 {
        Point { x: 0, y: 1, z: 1 }
    } else if d == 3 {
        Point { x: 0, y: 1, z: 0 }
    } else if d == 4 {
        Point { x: 1, y: 1, z: 0 }
    } else if d == 5 {
        Point { x: 1, y: 1, z: 1 }
    } else if d == 6 {
        Point { x: 1, y: 0, z: 1 }
    } else {
        Point { x: 1, y: 0, z: 0 }
    };
    if mirrored {
        Point { x: 1 - p.x, y: p.y, z: p.z }
    } else {
        p
    }
}

/// The place of an octant in the order in which the curve visits them.
pub open spec fn octant_index(c: Point, mirrored: bool) -> int {
    let x = if mirrored {
        1 - c.x
    } else {
        c.x
    };
    if x == 0 {
        if c.y == 0 {
            c.z
        } else {
            3 - c.z
        }
    } else {
        if c.y == 1 {
            4 + c.z
        } else {
            7 - c.z
        }
    }
}

/// How the curve lies inside octant `c`, whose coordinates run from 0 to `m`:
/// for each axis from the last to the first, the first axis is mirrored where
/// the octant is on the far side, and else swapped with it.
pub open spec fn turn(c: Point, p: Point, m: int) -> Point {
    let a = if c.z != 0 {
        Point { x: m - p.x, y: p.y, z: p.z }
    } else {
        Point { x: p.z, y: p.y, z: p.x }
    };
    let b = if c.y != 0 {
        Point { x: m - a.x, y: a.y, z: a.z }
    } else {
        Point { x: a.y, y: a.x, z: a.z }
    };
    if c.x != 0 {
        Point { x: m - b.x, y: b.y, z: b.z }
    } else {
        b
    }
}

/// The inverse of [`turn`].
pub open spec fn unturn(c: Point, p: Point, m: int) -> Point {
    let b = if c.x != 0 {
        Point { x: m - p.x, y: p.y, z: p.z }
    } else {
        p
    };
    let a = if c.y != 0 {
        Point { x: m - b.x, y: b.y, z: b.z }
    } else {
        Point { x: b.y, y: b.x, z: b.z }
    };
    if c.z != 0 {
        Point { x: m - a.x, y: a.y, z: a.z }
    } else {
        Point { x: a.z, y: a.y, z: a.x }
    }
}

/// The `k`-th octal digit of the distance `h`.
pub open spec fn digit(h: int, k: nat) -> int {
    (h / pow8(k)) % 8
}

/// The point at distance `h` along the curve of order `k`.
pub open spec fn curve(h: int, k: nat, mirrored: bool) -> Point
    decreases k,
{
    if k == 0 {
        Point { x: 0, y: 0, z: 0 }
    } else {
        let j = (k - 1) as nat;
        let d = digit(h, j);
        let c = octant(d, mirrored);
        let side = pow2(j);
        let p = turn(c, curve(h, j, d % 2 == 1), side - 1);
        Point { x: c.x * side + p.x, y: c.y * side + p.y, z: c.z * side + p.z }
    }
}

/// The octant that a point of the cube of order `k + 1` lies in.
pub open spec fn octant_of(p: Point, side: int) -> Point {
    Point {
        x: if p.x >= side {
            1
        } else {
            0
        },
        y: if p.y >= side {
            1
        } else {
            0
        },
        z: if p.z >= side {
            1
        } else {
            0
        },
    }
}

/// A point relative to its octant.
pub open spec fn within(p: Point, side: int) -> Point {
    let c = octant_of(p, side);
    Point { x: p.x - c.x * side, y: p.y - c.y * side, z: p.z - c.z * side }
}

/// The distance along the curve of order `k` at which it meets `p`.
pub open spec fn distance(p: Point, k: nat, mirrored: bool) -> int
    decreases k,
{
    if k == 0 {
        0
    } else {
        let j = (k - 1) as nat;
        let side = pow2(j);
        let c = octant_of(p, side);
        let d = octant_index(c, mirrored);
        d * pow8(j) + distance(unturn(c, within(p, side), side - 1), j, d % 2 == 1)
    }
}

/// The point lies in the cube of order `k`.
pub open spec fn in_cube(p: Point, k: nat) -> bool {
    0 <= p.x < pow2(k) && 0 <= p.y < pow2(k) && 0 <= p.z < pow2(k)
}

/// How many unit steps lead from one point to the other.
pub open spec fn steps(a: Point, b: Point) -> nat {
    vstd::math::abs(a.x - b.x) + vstd::math::abs(a.y - b.y) + vstd::math::abs(a.z - b.z)
}

proof fn lemma_pow2_pos(k: nat)
    ensures
        pow2(k) >= 1,
        k >= 1 ==> pow2(k) >= 2,
    decreases k,
{
    if k > 0 {
        lemma_pow2_pos((k - 1) as nat);
    }
}

proof fn lemma_pow8_pos(k: nat)
    ensures
        pow8(k) >= 1,
    decreases k,
{
    if k > 0 {
        lemma_pow8_pos((k - 1) as nat);
    }
}

proof fn lemma_pow_bounds(k: nat)
    requires
        k <= 21,
    ensures
        1 <= pow2(k) <= 0x200000,
        1 <= pow8(k) <= 0x8000_0000_0000_0000,
        k < 21 ==> pow2(k) <= 0x100000 && pow8(k) <= 0x1000_0000_0000_0000,
    decreases 21 - k,
{
    reveal_with_fuel(pow2, 22);
    reveal_with_fuel(pow8, 22);
    if k < 21 {
        lemma_pow_bounds(k + 1);
        lemma_pow2_pos(k);
        lemma_pow8_pos(k);
    } else {
        assert(pow2(21) == 0x200000);
        assert(pow8(21) == 0x8000_0000_0000_0000);
    }
}

/// The curve stays in its cube.
pub proof fn curve_in_cube(h: int, k: nat, mirrored: bool)
    ensures
        in_cube(curve(h, k, mirrored), k),
    decreases k,
{
    if k > 0 {
        let j = (k - 1) as nat;
        let d = digit(h, j);
        lemma_pow2_pos(j);
        curve_in_cube(h, j, d % 2 == 1);
        let c = octant(d, mirrored);
        let side = pow2(j);
        assert(c.x * side == 0 || c.x * side == side) by (nonlinear_arith)
            requires
                c.x == 0 || c.x == 1,
        ;
        assert(c.y * side == 0 || c.y * side == side) by (nonlinear_arith)
            requires
                c.y == 0 || c.y == 1,
        ;
        assert(c.z * side == 0 || c.z * side == side) by (nonlinear_arith)
            requires
                c.z == 0 || c.z == 1,
        ;
    }
}

/// The curve starts at the origin; a mirrored one starts where the other ends.
pub proof fn curve_starts(h: int, k: nat, mirrored: bool)
    requires
        forall|j: nat| j < k ==> #[trigger] digit(h, j) == 0,
    ensures
        curve(h, k, mirrored) == (Point {
            x: if mirrored {
                pow2(k) - 1
            } else {
                0
            },
            y: 0,
            z: 0,
        }),
    decreases k,
{
    if k > 0 {
        let j = (k - 1) as nat;
        assert(digit(h, j) == 0);
        curve_starts(h, j, false);
        assert(1 * pow2(j) == pow2(j) && 0 * pow2(j) == 0);
    }
}

/// The curve ends at the far end of the first axis; a mirrored one ends at the
/// origin.
pub proof fn curve_ends(h: int, k: nat, mirrored: bool)
    requires
        forall|j: nat| j < k ==> #[trigger] digit(h, j) == 7,
    ensures
        curve(h, k, mirrored) == (Point {
            x: if mirrored {
                0
            } else {
                pow2(k) - 1
            },
            y: 0,
            z: 0,
        }),
    decreases k,
{
    if k > 0 {
        let j = (k - 1) as nat;
        assert(digit(h, j) == 7);
        curve_ends(h, j, true);
        assert(1 * pow2(j) == pow2(j) && 0 * pow2(j) == 0);
    }
}

proof fn lemma_same_digits(g: int, h: int, k: nat, mirrored: bool)
    requires
        forall|j: nat| j < k ==> #[trigger] digit(g, j) == digit(h, j),
    ensures
        curve(g, k, mirrored) == curve(h, k, mirrored),
    decreases k,
{
    if k > 0 {
        let j = (k - 1) as nat;
        assert(digit(g, j) == digit(h, j));
        lemma_same_digits(g, h, j, digit(h, j) % 2 == 1);
    }
}

/// Turning keeps how far two points are apart.
proof fn lemma_turn_keeps_steps(c: Point, p: Point, q: Point, m: int)
    ensures
        steps(turn(c, p, m), turn(c, q, m)) == steps(p, q),
{
}

proof fn lemma_place(c: Point, p: Point, q: Point, side: int)
    ensures
        steps(
            Point { x: c.x * side + p.x, y: c.y * side + p.y, z: c.z * side + p.z },
            Point { x: c.x * side + q.x, y: c.y * side + q.y, z: c.z * side + q.z },
        ) == steps(p, q),
{
}

/// From the end of one octant to the start of the next it is one step.
proof fn lemma_cross(d: int, mirrored: bool, side: int)
    requires
        0 <= d < 7,
        side >= 1,
    ensures
        ({
            let m = side - 1;
            let last = Point {
                x: if d % 2 == 1 {
                    0
                } else {
                    m
                },
                y: 0,
                z: 0,
            };
            let first = Point {
                x: if (d + 1) % 2 == 1 {
                    m
                } else {
                    0
                },
                y: 0,
                z: 0,
            };
            let c = octant(d, mirrored);
            let e = octant(d + 1, mirrored);
            let p = turn(c, last, m);
            let q = turn(e, first, m);
            steps(
                Point { x: c.x * side + p.x, y: c.y * side + p.y, z: c.z * side + p.z },
                Point { x: e.x * side + q.x, y: e.y * side + q.y, z: e.z * side + q.z },
            ) == 1
        }),
{
    assert(1 * side == side && 0 * side == 0);
}

/// The digits of `h + 1`: those up to the first that is not 7 change.
proof fn lemma_successor_digits(h: int, k: nat)
    requires
        0 <= h,
    ensures
        (forall|j: nat| j < k ==> #[trigger] digit(h, j) == 7) ==> (forall|j: nat|
            j < k ==> #[trigger] digit(h + 1, j) == 0) && digit(h + 1, k) == (digit(h, k) + 1) % 8
            && (h + 1) / pow8(k) == h / pow8(k) + 1,
        !(forall|j: nat| j < k ==> #[trigger] digit(h, j) == 7) ==> digit(h + 1, k) == digit(h, k)
            && (h + 1) / pow8(k) == h / pow8(k),
    decreases k,
{
    lemma_pow8_pos(k);
    if k == 0 {
        assert(h / 1 == h && (h + 1) / 1 == h + 1);
    } else {
        let j = (k - 1) as nat;
        lemma_successor_digits(h, j);
        lemma_pow8_pos(j);
        lemma_div_step(h, j);
        lemma_div_step(h + 1, j);
        let a = h / pow8(j);
        let b = (h + 1) / pow8(j);
        if forall|i: nat| i < k ==> #[trigger] digit(h, i) == 7 {
            assert(forall|i: nat| i < j ==> #[trigger] digit(h, i) == 7);
            assert(digit(h, j) == 7);
            assert(a % 8 == 7 && b == a + 1);
            assert(b / 8 == a / 8 + 1 && b % 8 == 0);
            assert(digit(h + 1, j) == 0);
        } else {
            if forall|i: nat| i < j ==> #[trigger] digit(h, i) == 7 {
                assert(digit(h, j) != 7) by {
                    if digit(h, j) == 7 {
                        assert forall|i: nat| i < k implies #[trigger] digit(h, i) == 7 by {
                            if i == j {
                            }
                        }
                    }
                }
                assert(a % 8 != 7 && b == a + 1);
                assert(b / 8 == a / 8);
            } else {
                assert(b == a);
            }
        }
    }
}

proof fn lemma_div_step(h: int, j: nat)
    requires
        0 <= h,
    ensures
        h / pow8(j + 1) == (h / pow8(j)) / 8,
{
    lemma_pow8_pos(j);
    vstd::arithmetic::div_mod::lemma_div_denominator(h, pow8(j), 8);
    assert(pow8(j + 1) == 8 * pow8(j));
    assert(pow8(j) * 8 == 8 * pow8(j)) by (nonlinear_arith);
}

/// Consecutive distances along the curve are neighbours: one unit step apart.
pub proof fn curve_steps_by_one(h: int, k: nat, mirrored: bool)
    requires
        0 <= h,
        h + 1 < pow8(k),
    ensures
        steps(curve(h, k, mirrored), curve(h + 1, k, mirrored)) == 1,
{
    lemma_steps(h, k, mirrored);
    if forall|j: nat| j < k ==> #[trigger] digit(h, j) == 7 {
        lemma_successor_digits(h, k);
        lemma_pow8_pos(k);
        assert(h / pow8(k) == 0 && (h + 1) / pow8(k) == 0) by {
            vstd::arithmetic::div_mod::lemma_basic_div(h, pow8(k));
            vstd::arithmetic::div_mod::lemma_basic_div(h + 1, pow8(k));
        }
    }
}

proof fn lemma_steps(h: int, k: nat, mirrored: bool)
    requires
        0 <= h,
    ensures
        !(forall|j: nat| j < k ==> #[trigger] digit(h, j) == 7) ==> steps(
            curve(h, k, mirrored),
            curve(h + 1, k, mirrored),
        ) == 1,
    decreases k,
{
    if k > 0 && !(forall|j: nat| j < k ==> #[trigger] digit(h, j) == 7) {
        let j = (k - 1) as nat;
        let side = pow2(j);
        let d = digit(h, j);
        lemma_pow2_pos(j);
        lemma_successor_digits(h, j);
        if forall|i: nat| i < j ==> #[trigger] digit(h, i) == 7 {
            assert(d != 7) by {
                if d == 7 {
                    assert forall|i: nat| i < k implies #[trigger] digit(h, i) == 7 by {
                        if i == j {
                        }
                    }
                }
            }
            curve_ends(h, j, d % 2 == 1);
            curve_starts(h + 1, j, (d + 1) % 2 == 1);
            lemma_cross(d, mirrored, side);
        } else {
            lemma_steps(h, j, d % 2 == 1);
            let c = octant(d, mirrored);
            let a = curve(h, j, d % 2 == 1);
            let b = curve(h + 1, j, d % 2 == 1);
            lemma_turn_keeps_steps(c, a, b, side - 1);
            lemma_place(c, turn(c, a, side - 1), turn(c, b, side - 1), side);
        }
    }
}

/// The distance at which the curve meets a point of it is the distance that
/// the point was taken from.
pub proof fn distance_inverts_curve(h: int, k: nat, mirrored: bool)
    requires
        0 <= h < pow8(k),
    ensures
        distance(curve(h, k, mirrored), k, mirrored) == h,
{
    lemma_distance_of_curve(h, k, mirrored);
    lemma_pow8_pos(k);
    vstd::arithmetic::div_mod::lemma_small_mod(h as nat, pow8(k) as nat);
}

proof fn lemma_distance_of_curve(h: int, k: nat, mirrored: bool)
    requires
        0 <= h,
    ensures
        distance(curve(h, k, mirrored), k, mirrored) == h % pow8(k),
    decreases k,
{
    lemma_pow8_pos(k);
    if k > 0 {
        let j = (k - 1) as nat;
        let side = pow2(j);
        let d = digit(h, j);
        let c = octant(d, mirrored);
        lemma_pow2_pos(j);
        lemma_pow8_pos(j);
        curve_in_cube(h, j, d % 2 == 1);
        let a = curve(h, j, d % 2 == 1);
        let p = turn(c, a, side - 1);
        assert(1 * side == side && 0 * side == 0);
        let q = curve(h, k, mirrored);
        assert(octant_of(q, side) == c);
        assert(within(q, side) == p);
        assert(unturn(c, p, side - 1) == a);
        assert(octant_index(c, mirrored) == d);
        lemma_distance_of_curve(h, j, d % 2 == 1);
        // h % 8^k == d * 8^j + h % 8^j
        let m = pow8(j);
        assert(h % (8 * m) == ((h / m) % 8) * m + h % m) by {
            vstd::arithmetic::div_mod::lemma_breakdown(h, m, 8);
            assert(m * 8 == 8 * m) by (nonlinear_arith);
            assert(m * ((h / m) % 8) == ((h / m) % 8) * m) by (nonlinear_arith);
        }
    } else {
        assert(h % 1 == 0);
    }
}

/// Every point of the cube is met, at its own distance.
pub proof fn curve_inverts_distance(p: Point, k: nat, mirrored: bool)
    requires
        in_cube(p, k),
    ensures
        0 <= distance(p, k, mirrored) < pow8(k),
        curve(distance(p, k, mirrored), k, mirrored) == p,
    decreases k,
{
    if k > 0 {
        let j = (k - 1) as nat;
        let side = pow2(j);
        let m = pow8(j);
        lemma_pow2_pos(j);
        lemma_pow8_pos(j);
        assert(1 * side == side && 0 * side == 0);
        let c = octant_of(p, side);
        let d = octant_index(c, mirrored);
        let q = unturn(c, within(p, side), side - 1);
        let r = distance(q, j, d % 2 == 1);
        assert(in_cube(q, j));
        curve_inverts_distance(q, j, d % 2 == 1);
        let h = d * m + r;
        assert(0 <= d <= 7);
        assert(0 <= h < 8 * m) by (nonlinear_arith)
            requires
                0 <= d <= 7,
                0 <= r < m,
                h == d * m + r,
        ;
        assert(h / m == d) by {
            vstd::arithmetic::div_mod::lemma_fundamental_div_mod_converse(h, m, d, r);
        }
        assert(digit(h, j) == d);
        assert forall|i: nat| i < j implies #[trigger] digit(h, i) == digit(r, i) by {
            lemma_low_digit(d, r, i, j);
        }
        lemma_same_digits(h, r, j, d % 2 == 1);
        assert(octant(d, mirrored) == c);
        assert(turn(c, q, side - 1) == within(p, side));
    }
}

proof fn lemma_low_digit(d: int, r: int, i: nat, j: nat)
    requires
        0 <= d,
        0 <= r,
        i < j,
    ensures
        digit(d * pow8(j) + r, i) == digit(r, i),
    decreases j - i,
{
    let m = pow8(i);
    lemma_pow8_pos(i);
    // 8^j is a multiple of 8 * 8^i.
    let t = lemma_pow8_multiple(i, j);
    let h = d * pow8(j) + r;
    assert(h == (d * t * 8) * m + r) by (nonlinear_arith)
        requires
            h == d * pow8(j) + r,
            pow8(j) == t * 8 * m,
    ;
    assert(h / m == d * t * 8 + r / m) by {
        vstd::arithmetic::div_mod::lemma_hoist_over_denominator(r, d * t * 8, m as nat);
        assert((d * t * 8) * m == m * (d * t * 8)) by (nonlinear_arith);
    }
    assert((d * t * 8 + r / m) % 8 == (r / m) % 8) by {
        vstd::arithmetic::div_mod::lemma_mod_multiples_vanish(d * t, r / m, 8);
        assert(8 * (d * t) == d * t * 8) by (nonlinear_arith);
    }
}

proof fn lemma_pow8_multiple(i: nat, j: nat) -> (t: int)
    requires
        i < j,
    ensures
        t >= 1,
        pow8(j) == t * 8 * pow8(i),
    decreases j - i,
{
    if j == i + 1 {
        1
    } else {
        let t = lemma_pow8_multiple(i, (j - 1) as nat);
        assert(8 * (t * 8 * pow8(i)) == (8 * t) * 8 * pow8(i)) by (nonlinear_arith);
        8 * t
    }
}

/// Different distances lead to different points.
pub proof fn curve_is_injective(g: int, h: int, k: nat)
    requires
        0 <= g < pow8(k),
        0 <= h < pow8(k),
        curve(g, k, false) == curve(h, k, false),
    ensures
        g == h,
{
    distance_inverts_curve(g, k, false);
    distance_inverts_curve(h, k, false);
}

/// Smallest curve order `bits` such that a `2^bits` cube holds at least
/// `cells` points (i.e. `2^(3*bits) >= cells`). Used to pick the 3D Hilbert
/// order for a voxel grid of a given side. Clamped to `[1, 21]` — order 21
/// fills a `2^21` cube and uses 63 of a `u64`'s 64 bits.
pub fn hilbert3d_order_for_cells(cells: u64) -> (bits: u32)
    ensures
        1 <= bits <= 21,
        bits < 21 ==> pow8(bits as nat) >= cells,
        forall|b: nat| 1 <= b < bits ==> #[trigger] pow8(b) < cells,
{
    let mut bits: u32 = 1;
    let mut size: u64 = 8;
    assert(pow8(1) == 8) by {
        reveal_with_fuel(pow8, 2);
    }
    while bits < 21 && size < cells
        invariant
            1 <= bits <= 21,
            size == pow8(bits as nat),
            forall|b: nat| 1 <= b < bits ==> #[trigger] pow8(b) < cells,
        decreases 21 - bits,
    {
        proof {
            lemma_pow_bounds(bits as nat);
        }
        size = size * 8;
        bits = bits + 1;
    }
    bits
}

/// The point that a coordinate array denotes.
pub open spec fn point_of(p: [u32; 3]) -> Point {
    Point { x: p@[0] as int, y: p@[1] as int, z: p@[2] as int }
}

fn octant_exec(d: u64, mirrored: bool) -> (c: (u32, u32, u32))
    requires
        d < 8,
    ensures
        octant(d as int, mirrored) == (Point { x: c.0 as int, y: c.1 as int, z: c.2 as int }),
        c.0 <= 1 && c.1 <= 1 && c.2 <= 1,
{
    let far: bool = d >= 4;
    let x: u32 = if far != mirrored {
        1
    } else {
        0
    };
    let y: u32 = if 2 <= d && d <= 5 {
        1
    } else {
        0
    };
    let z: u32 = if d == 1 || d == 2 || d == 5 || d == 6 {
        1
    } else {
        0
    };
    (x, y, z)
}

/// 3D Hilbert curve: map a 1D distance `h` to cube coordinates `(x, y, z)`,
/// each in `[0, 2^bits)`. Inverse of [`hilbert_xyz2d`]. Only the lowest
/// `3 * bits` bits of `h` count.
///
/// Walks the octal digits of `h` from the lowest to the highest, turning what
/// was built so far into its octant at each level. It stays on plain integers
/// and is allocation-free.
pub fn hilbert_d2xyz(h: u64, bits: u32) -> (r: [u32; 3])
    requires
        1 <= bits <= 21,
    ensures
        point_of(r) == curve(h as int, bits as nat, false),
        in_cube(point_of(r), bits as nat),
{
    let mut x: u32 = 0;
    let mut y: u32 = 0;
    let mut z: u32 = 0;
    let mut rest: u64 = h;
    let mut side: u32 = 1;
    let mut k: u32 = 0;
    proof {
        assert(h as int / 1 == h);
    }
    while k < bits
        invariant
            k <= bits <= 21,
            side == pow2(k as nat),
            rest == h as int / pow8(k as nat),
            (Point { x: x as int, y: y as int, z: z as int }) == curve(
                h as int,
                k as nat,
                k < bits && digit(h as int, k as nat) % 2 == 1,
            ),
            x < side && y < side && z < side,
        decreases bits - k,
    {
        let d: u64 = rest % 8;
        let above: u64 = rest / 8;
        let mirrored: bool = k + 1 < bits && above % 2 == 1;
        let ghost was = Point { x: x as int, y: y as int, z: z as int };
        proof {
            lemma_pow_bounds(k as nat);
            lemma_div_step(h as int, k as nat);
            assert(digit(h as int, k as nat) == d);
            assert(above == h as int / pow8((k + 1) as nat));
            assert(digit(h as int, (k + 1) as nat) == above as int % 8);
            assert((above as int % 8) % 2 == above as int % 2);
            curve_in_cube(h as int, (k + 1) as nat, mirrored);
        }
        let (cx, cy, cz): (u32, u32, u32) = octant_exec(d, mirrored);
        let m: u32 = side - 1;
        if cz != 0 {
            x = m - x;
        } else {
            let t: u32 = x;
            x = z;
            z = t;
        }
        if cy != 0 {
            x = m - x;
        } else {
            let t: u32 = x;
            x = y;
            y = t;
        }
        if cx != 0 {
            x = m - x;
        }
        proof {
            let c = octant(d as int, mirrored);
            assert(turn(c, was, m as int) == (Point { x: x as int, y: y as int, z: z as int }));
            assert(1 * side as int == side && 0 * side as int == 0);
            assert(curve(h as int, (k + 1) as nat, mirrored) == (Point {
                x: c.x * side as int + x,
                y: c.y * side as int + y,
                z: c.z * side as int + z,
            }));
        }
        if cx != 0 {
            x = x + side;
        }
        if cy != 0 {
            y = y + side;
        }
        if cz != 0 {
            z = z + side;
        }
        rest = above;
        side = side * 2;
        k = k + 1;
    }
    proof {
        curve_in_cube(h as int, bits as nat, false);
    }
    [x, y, z]
}

/// 3D Hilbert curve: map cube coordinates `(x, y, z)`, each in `[0, 2^bits)`,
/// to the 1D distance along the curve. Inverse of [`hilbert_d2xyz`].
pub fn hilbert_xyz2d(p: [u32; 3], bits: u32) -> (h: u64)
    requires
        1 <= bits <= 21,
        in_cube(point_of(p), bits as nat),
    ensures
        h == distance(point_of(p), bits as nat, false),
        h < pow8(bits as nat),
{
    let mut x: u32 = p[0];
    let mut y: u32 = p[1];
    let mut z: u32 = p[2];
    let mut h: u64 = 0;
    let mut mirrored: bool = false;
    let mut k: u32 = bits;
    let mut side: u32 = cube_side(bits);
    proof {
        lemma_pow_bounds(bits as nat);
        curve_inverts_distance(point_of(p), bits as nat, false);
    }
    let ghost goal = distance(point_of(p), bits as nat, false);
    assert(h as int * pow8(k as nat) == 0) by (nonlinear_arith)
        requires
            h == 0,
    ;
    while k > 0
        invariant
            k <= bits <= 21,
            side == pow2(k as nat),
            in_cube(Point { x: x as int, y: y as int, z: z as int }, k as nat),
            goal < pow8(bits as nat) <= 0x8000_0000_0000_0000,
            goal == h as int * pow8(k as nat) + distance(
                Point { x: x as int, y: y as int, z: z as int },
                k as nat,
                mirrored,
            ),
        decreases k,
    {
        let ghost was = Point { x: x as int, y: y as int, z: z as int };
        let ghost j = (k - 1) as nat;
        proof {
            lemma_pow2_pos(j);
            lemma_pow8_pos(j);
        }
        side = side / 2;
        k = k - 1;
        let m: u32 = side - 1;
        let cx: bool = x >= side;
        let cy: bool = y >= side;
        let cz: bool = z >= side;
        if cx {
            x = x - side;
        }
        if cy {
            y = y - side;
        }
        if cz {
            z = z - side;
        }
        let ghost c = octant_of(was, side as int);
        proof {
            assert(1 * side as int == side && 0 * side as int == 0);
            assert(within(was, side as int) == (Point { x: x as int, y: y as int, z: z as int }));
        }
        let far: bool = cx != mirrored;
        let d: u64 = if !far {
            if !cy {
                if cz {
                    1
                } else {
                    0
                }
            } else {
                if cz {
                    2
                } else {
                    3
                }
            }
        } else {
            if cy {
                if cz {
                    5
                } else {
                    4
                }
            } else {
                if cz {
                    6
                } else {
                    7
                }
            }
        };
        assert(d == octant_index(c, mirrored));
        if cx {
            x = m - x;
        }
        if cy {
            x = m - x;
        } else {
            let t: u32 = x;
            x = y;
            y = t;
        }
        if cz {
            x = m - x;
        } else {
            let t: u32 = x;
            x = z;
            z = t;
        }
        proof {
            let now = Point { x: x as int, y: y as int, z: z as int };
            assert(unturn(c, within(was, side as int), m as int) == now);
            let rest = distance(now, j, d % 2 == 1);
            curve_inverts_distance(now, j, d % 2 == 1);
            let q = pow8(j);
            let up = h as int;
            assert(goal == (up * 8 + d) * q + rest) by (nonlinear_arith)
                requires
                    goal == up * (8 * q) + (d as int * q + rest),
            ;
            assert(up * 8 + d <= goal) by (nonlinear_arith)
                requires
                    goal == (up * 8 + d) * q + rest,
                    rest >= 0,
                    q >= 1,
                    up >= 0,
                    d >= 0,
            ;
        }
        h = h * 8 + d;
        mirrored = d % 2 == 1;
    }
    assert(h as int * pow8(0) == h);
    h
}

fn cube_side(bits: u32) -> (side: u32)
    requires
        bits <= 21,
    ensures
        side == pow2(bits as nat),
{
    let mut side: u32 = 1;
    let mut k: u32 = 0;
    while k < bits
        invariant
            k <= bits <= 21,
            side == pow2(k as nat),
        decreases bits - k,
    {
        proof {
            lemma_pow_bounds(k as nat);
        }
        side = side * 2;
        k = k + 1;
    }
    side
}

} // verus!
