use arbvis::geometry::{decompose_hilbert, file_rects, hilbert_to_xy_u64, name_hue};
use arbvis::hilbert3d::{hilbert3d_order_for_cells, hilbert_d2xyz, hilbert_xyz2d};
use arbvis::outline::outer_segments;
use std::collections::hash_map::DefaultHasher;
use std::hash::{Hash, Hasher};

/// The quadrant that a curve in `state` visits as its `i`-th, and the state in
/// which it runs through it.
const CHILD: [[(u32, u32, usize); 4]; 4] = [
    [(0, 0, 1), (0, 1, 0), (1, 1, 0), (1, 0, 2)],
    [(0, 0, 0), (1, 0, 1), (1, 1, 1), (0, 1, 3)],
    [(1, 1, 3), (0, 1, 2), (0, 0, 2), (1, 0, 0)],
    [(1, 1, 2), (1, 0, 3), (0, 0, 3), (0, 1, 1)],
];

fn walk(h: u64, order: u32) -> (u32, u32) {
    let (mut x, mut y, mut state) = (0u32, 0u32, 0usize);
    for level in (0..order).rev() {
        let (dx, dy, next) = CHILD[state][((h >> (2 * level)) & 3) as usize];
        x = 2 * x + dx;
        y = 2 * y + dy;
        state = next;
    }
    (x, y)
}

#[test]
fn the_curve_follows_its_state_diagram() {
    for order in 0..=7u32 {
        for h in 0..1u64 << (2 * order) {
            assert_eq!(hilbert_to_xy_u64(h, order as u8), walk(h, order));
        }
    }
    for order in [12u32, 15, 20, 23, 31, 32] {
        let top = if order == 32 { u64::MAX } else { (1u64 << (2 * order)) - 1 };
        for h in [0, 1, 2, 3, top / 3, top / 2, top - 1, top] {
            assert_eq!(hilbert_to_xy_u64(h, order as u8), walk(h, order));
        }
    }
}

#[test]
fn neighbours_on_the_curve_are_neighbours_in_the_square() {
    for order in [5u8, 6] {
        for h in 0..(1u64 << (2 * order)) - 1 {
            let (a, b) = hilbert_to_xy_u64(h, order);
            let (c, d) = hilbert_to_xy_u64(h + 1, order);
            assert_eq!(a.abs_diff(c) + b.abs_diff(d), 1);
        }
    }
}

fn cells(rects: &[(u32, u32, u32, u32)]) -> Vec<(u32, u32)> {
    let mut out = Vec::new();
    for &(x0, y0, x1, y1) in rects {
        for y in y0..y1 {
            for x in x0..x1 {
                out.push((x, y));
            }
        }
    }
    out.sort();
    out
}

#[test]
fn ranges_are_decomposed_without_loss() {
    for (a, b) in [(0u64, 64u64), (0, 1), (5, 6), (3, 61), (16, 32), (17, 31)] {
        let mut rects = Vec::new();
        decompose_hilbert(a, b, 3, 0, 0, 8, 0, &mut rects);
        let mut want: Vec<(u32, u32)> = (a..b).map(|h| hilbert_to_xy_u64(h, 3)).collect();
        want.sort();
        assert_eq!(cells(&rects), want);
    }
}

#[test]
fn files_fill_their_rectangles() {
    // Two squares side by side, each of order 2.
    let rects = file_rects(10, 20, 32, 16, 2, 4, 2);
    let mut want: Vec<(u32, u32)> = (10..20u64)
        .map(|h| {
            let (x, y) = hilbert_to_xy_u64(h % 16, 2);
            (x + 4 * (h / 16) as u32, y)
        })
        .collect();
    want.sort();
    assert_eq!(cells(&rects), want);
}

#[test]
fn outlines_close_round_their_region() {
    let segs = outer_segments(&[(0, 0, 2, 2), (2, 0, 4, 2)]);
    let length: u32 = segs
        .iter()
        .map(|(a, b, c, d)| a.abs_diff(*c) + b.abs_diff(*d))
        .sum();
    assert_eq!(length, 12);
}

#[test]
fn the_cube_curve_has_fixed_values() {
    assert_eq!(hilbert_d2xyz(123_456_789, 21), [367, 198, 136]);
    assert_eq!(hilbert_d2xyz((1u64 << 63) - 1, 21), [2_097_151, 0, 0]);
    assert_eq!(hilbert_d2xyz(5, 2), [1, 1, 1]);
    assert_eq!(hilbert_xyz2d([367, 198, 136], 21), 123_456_789);
    assert_eq!(hilbert3d_order_for_cells(9), 2);
}

#[test]
fn hues_come_from_the_default_hasher() {
    for name in ["", "a", "model.safetensors", "ünïcode"] {
        let mut h = DefaultHasher::new();
        name.hash(&mut h);
        assert_eq!(name_hue(name), (h.finish() % 360) as u16);
    }
}
