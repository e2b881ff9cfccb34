use arbvis::geometry::{decompose_hilbert, file_rects, hilbert_to_xy_u64, name_hue, rects_centroid};
use arbvis::hilbert3d::{hilbert3d_order_for_cells, hilbert_d2xyz, hilbert_xyz2d};
use arbvis::outline::xor_intervals;

#[test]
fn test_xor_intervals_no_overlap() {
    let intervals = vec![(0, 5), (6, 10)];
    let result = xor_intervals(&intervals);
    assert_eq!(result, vec![(0, 5), (6, 10)]);
}

#[test]
fn test_xor_intervals_overlap_cancels() {
    let intervals = vec![(0, 5), (3, 5)]; // (0,3) appears once, (3,5) appears twice → cancels
    let result = xor_intervals(&intervals);
    assert_eq!(result, vec![(0, 3)]);
}

#[test]
fn test_xor_intervals_empty() {
    assert!(xor_intervals(&[]).is_empty());
}

#[test]
fn test_decompose_hilbert_full_square() {
    let mut rects = Vec::new();
    decompose_hilbert(0, 4, 1, 0, 0, 2, 0, &mut rects);
    assert_eq!(rects, vec![(0, 0, 2, 2)]);
}

#[test]
fn test_rects_centroid_single_rect() {
    let rects = vec![(10, 10, 20, 20)];
    let c = rects_centroid(&rects);
    assert_eq!(c, Some((15, 15)));
}

#[test]
fn test_rects_centroid_empty() {
    assert_eq!(rects_centroid(&[]), None);
}

#[test]
fn test_rects_centroid_zero_area() {
    assert_eq!(rects_centroid(&[(0, 0, 0, 0)]), None);
}

#[test]
fn test_name_hue_consistent() {
    let h1 = name_hue("foo");
    let h2 = name_hue("foo");
    assert_eq!(h1, h2);
    assert!(h1 < 360);
}

#[test]
fn test_hilbert_to_xy_u64_bounds() {
    let (x, y) = hilbert_to_xy_u64(0, 8);
    assert_eq!((x, y), (0, 0));
    let side = 1u32 << 8;
    let (x2, y2) = hilbert_to_xy_u64((side * side - 1) as u64, 8);
    assert!(x2 < side);
    assert!(y2 < side);
}

#[test]
fn test_hilbert3d_order_for_cells() {
    assert_eq!(hilbert3d_order_for_cells(0), 1);
    assert_eq!(hilbert3d_order_for_cells(8), 1); // 2^3 == 8
    assert_eq!(hilbert3d_order_for_cells(9), 2); // needs 4^3 = 64
    assert_eq!(hilbert3d_order_for_cells(64), 2);
    assert_eq!(hilbert3d_order_for_cells(65), 3);
    assert_eq!(hilbert3d_order_for_cells(1 << 24), 8); // 256^3
    assert_eq!(hilbert3d_order_for_cells(u64::MAX), 21); // clamp
}

#[test]
fn test_hilbert3d_origin() {
    for bits in 1..=8 {
        assert_eq!(hilbert_d2xyz(0, bits), [0, 0, 0]);
        assert_eq!(hilbert_xyz2d([0, 0, 0], bits), 0);
    }
}

#[test]
fn test_hilbert3d_roundtrip_exhaustive_small() {
    // Exhaustively round-trip every distance for small orders.
    for bits in 1..=5 {
        let cells = 1u64 << (3 * bits);
        for h in 0..cells {
            let p = hilbert_d2xyz(h, bits);
            let side = 1u32 << bits;
            assert!(
                p[0] < side && p[1] < side && p[2] < side,
                "coord OOB at h={h} bits={bits}: {p:?}"
            );
            assert_eq!(
                hilbert_xyz2d(p, bits),
                h,
                "roundtrip failed h={h} bits={bits}"
            );
        }
    }
}

#[test]
fn test_hilbert3d_bijection_small() {
    // Every distance maps to a distinct coordinate (bijection onto the cube).
    for bits in 1..=5 {
        let cells = 1u64 << (3 * bits);
        let side = 1u64 << bits;
        let mut seen = std::collections::HashSet::with_capacity(cells as usize);
        for h in 0..cells {
            let p = hilbert_d2xyz(h, bits);
            let key = (p[0] as u64) * side * side + (p[1] as u64) * side + p[2] as u64;
            assert!(seen.insert(key), "duplicate coord at h={h} bits={bits}");
        }
        assert_eq!(seen.len() as u64, cells);
    }
}

#[test]
fn test_hilbert3d_adjacency() {
    // Hilbert locality: consecutive distances are unit-distance neighbors.
    for bits in 1..=6 {
        let cells = 1u64 << (3 * bits);
        for h in 1..cells {
            let a = hilbert_d2xyz(h - 1, bits);
            let b = hilbert_d2xyz(h, bits);
            let d = (a[0].abs_diff(b[0])) + (a[1].abs_diff(b[1])) + (a[2].abs_diff(b[2]));
            assert_eq!(d, 1, "non-adjacent step h={h} bits={bits}: {a:?} -> {b:?}");
        }
    }
}

#[test]
fn test_hilbert3d_roundtrip_large_orders() {
    // Sample larger orders (can't enumerate); round-trip a deterministic
    // pseudo-random spread of distances. Uses a tiny xorshift so there's no
    // rng dependency.
    let mut state: u64 = 0x9e3779b97f4a7c15;
    let mut next = || {
        state ^= state << 13;
        state ^= state >> 7;
        state ^= state << 17;
        state
    };
    for bits in [10u32, 15, 21] {
        let max = if 3 * bits >= 64 {
            u64::MAX
        } else {
            (1u64 << (3 * bits)) - 1
        };
        for _ in 0..5000 {
            let h = next() & max;
            let p = hilbert_d2xyz(h, bits);
            let side = 1u64 << bits;
            assert!((p[0] as u64) < side && (p[1] as u64) < side && (p[2] as u64) < side);
            assert_eq!(
                hilbert_xyz2d(p, bits),
                h,
                "roundtrip failed h={h} bits={bits}"
            );
        }
    }
}

/// How often each pixel of a canvas of two 8x8 squares is held.
fn held(rects: &[(u32, u32, u32, u32)]) -> Vec<u32> {
    let mut n = vec![0u32; 16 * 8];
    for &(x0, y0, x1, y1) in rects {
        for y in y0..y1 {
            for x in x0..x1 {
                n[(y * 16 + x) as usize] += 1;
            }
        }
    }
    n
}

#[test]
fn adjoining_ranges_part_the_canvas() {
    let rects = |a: u64, b: u64| file_rects(a, b, 128, 64, 2, 8, 3);
    for (a, b, c) in [(0, 64, 128), (3, 17, 100), (60, 70, 71), (5, 5, 9)] {
        let (left, right, whole) = (held(&rects(a, b)), held(&rects(b, c)), held(&rects(a, c)));
        for i in 0..128 {
            assert_eq!(left[i] + right[i], whole[i]);
            assert!(whole[i] <= 1);
        }
        assert_eq!(left.iter().sum::<u32>() as u64, b - a);
        assert_eq!(whole.iter().sum::<u32>() as u64, c - a);
        assert_eq!(rects(a, b).is_empty(), a == b);
    }
}
