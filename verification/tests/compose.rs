use arbvis::color::{build_diff_signed_lut, build_pixel_lut, rgb, Rgb};
use arbvis::compose::{run_single_hilbert, Image};
use arbvis::format::types::DiffFill;
use arbvis::geometry::hilbert_to_xy_u64;
use arbvis::label::{jitter, label_text, place_labels, LabelBox};
use arbvis::single::{
    cumulative_offsets, is_crosshatch_stripe_single, pixel_word, sampled_in_range, several_files,
    CanvasPlan,
};
use arbvis::source::{Source, SourceKind};

fn source(file_idx: usize, size: u64) -> Source {
    Source {
        file_idx,
        kind: SourceKind::Buffered(Vec::new()),
        byte_size: size,
        safetensors: None,
        name_override: Some(format!("f{file_idx}")),
    }
}

fn draw(sources: &[Source], contents: Vec<Vec<u8>>, files: usize, diff: bool) -> Image {
    run_single_hilbert(sources, &contents, files, diff, &[], &[rgb(0, 0, 0); 20])
}

/// The colour and the owner of the `n`-th pixel of the curve.
fn at(img: &Image, n: u64) -> (Rgb, Option<usize>) {
    let (x, y) = hilbert_to_xy_u64(n, img.plan.k as u8);
    let i = (y * img.plan.side + x) as usize;
    (img.picture.pixels[i], img.picture.owner[i])
}

#[test]
fn every_byte_has_its_pixel() {
    let bytes: Vec<u8> = (0..=255u8).collect();
    let lut = build_pixel_lut();
    let img = draw(&[source(0, 256)], vec![bytes.clone()], 1, false);
    assert_eq!(img.plan.side, 16);
    assert_eq!(img.plan.stride, 1);
    for n in 0..256u64 {
        assert_eq!(at(&img, n), (lut[n as usize], Some(0)));
    }
    assert_eq!(img.boxes[0], Some((0, 0, 15, 15)));
}

#[test]
fn what_is_not_painted_stays_black() {
    let img = draw(&[source(0, 17)], vec![vec![0xff; 17]], 1, false);
    assert_eq!(img.plan.side, 8);
    for n in 0..64u64 {
        let (c, owner) = at(&img, n);
        if n < 17 {
            assert_eq!((c, owner), (rgb(255, 255, 255), Some(0)));
        } else {
            assert_eq!((c, owner), (rgb(0, 0, 0), None));
        }
    }
}

#[test]
fn an_empty_input_is_drawn_as_nothing() {
    let img = draw(&[], Vec::new(), 1, false);
    assert_eq!(img.plan.side, 2);
    assert_eq!(img.picture.owner, [None; 4]);
    assert_eq!(img.boxes, [None]);
}

#[test]
fn files_meet_at_a_black_border() {
    let sources = [source(0, 32), source(1, 32)];
    assert!(several_files(&sources));
    let img = draw(&sources, vec![vec![0xff; 32], vec![0xff; 32]], 2, false);
    assert_eq!(img.plan.side, 8);
    let side = 8i64;
    for y in 0..side {
        for x in 0..side {
            let i = (y * side + x) as usize;
            let mine = img.picture.owner[i];
            let touches = [(0, 1), (0, -1), (1, 0), (-1, 0)].iter().any(|(dx, dy)| {
                let (nx, ny) = (x + dx, y + dy);
                nx >= 0
                    && nx < side
                    && ny >= 0
                    && ny < side
                    && img.picture.owner[(ny * side + nx) as usize] != mine
            });
            let want = if touches { rgb(0, 0, 0) } else { rgb(255, 255, 255) };
            assert_eq!(img.picture.pixels[i], want);
        }
    }
}

#[test]
fn diffs_are_drawn_in_grey() {
    let img = draw(&[source(0, 4)], vec![vec![127, 129, 0, 254]], 1, true);
    let lut = build_diff_signed_lut();
    assert_eq!(at(&img, 0).0, rgb(0, 0, 0));
    assert_eq!(at(&img, 1).0, rgb(4, 4, 4));
    assert_eq!(at(&img, 2).0, rgb(254, 254, 254));
    assert_eq!(at(&img, 3).0, lut[254]);
}

#[test]
fn regions_without_counterpart_are_crosshatched() {
    let lone = Source {
        kind: SourceKind::UnmatchedRegion { fill: DiffFill::Red },
        ..source(0, 64)
    };
    let img = draw(&[lone], vec![Vec::new()], 1, true);
    let (stripe, base) = DiffFill::Red.colors();
    for n in 0..64u64 {
        let (x, y) = hilbert_to_xy_u64(n, img.plan.k as u8);
        let want = if is_crosshatch_stripe_single(x, y) { stripe } else { base };
        assert_eq!(at(&img, n), (want, Some(0)));
    }
    assert!(is_crosshatch_stripe_single(0, 0));
    assert!(is_crosshatch_stripe_single(1, 0));
    assert!(!is_crosshatch_stripe_single(3, 0));
}

#[test]
fn xorbs_color_their_bytes() {
    let mut tableau = [rgb(0, 0, 0); 20];
    tableau[5] = rgb(255, 51, 0);
    let contents = vec![vec![255u8, 100, 255, 100]];
    let img = run_single_hilbert(&[source(0, 4)], &contents, 1, false, &[(0, 2, 5)], &tableau);
    assert_eq!(at(&img, 0).0, rgb(255, 51, 0));
    assert_eq!(at(&img, 1).0, rgb(100, 20, 0));
    assert_eq!(at(&img, 2).0, rgb(255, 255, 255));
    assert_eq!(at(&img, 3).0, build_pixel_lut()[100]);
}

#[test]
fn large_inputs_are_sampled() {
    let p = CanvasPlan::for_total(16_777_216);
    assert_eq!((p.k, p.side, p.stride), (12, 4096, 1));
    let p = CanvasPlan::for_total(16_777_217);
    assert_eq!((p.k, p.side, p.stride), (12, 4096, 2));
    assert_eq!(p.chunk_bytes, 4 * 1024 * 1024);
    let p = CanvasPlan::for_total(0);
    assert_eq!((p.k, p.side, p.stride), (1, 2, 1));
    assert_eq!(sampled_in_range(0, 10, 3), 4);
    assert_eq!(sampled_in_range(1, 10, 3), 3);
    assert_eq!(sampled_in_range(4, 6, 3), 0);
}

#[test]
fn sources_follow_one_another() {
    let sources = [source(0, 5), source(1, 0), source(2, 7)];
    assert_eq!(cumulative_offsets(&sources), [0, 5, 5]);
    let img = draw(&sources, vec![vec![1; 5], vec![], vec![2; 7]], 3, false);
    for n in 0..12u64 {
        assert_eq!(at(&img, n).1, Some(if n < 5 { 0 } else { 2 }));
    }
    assert_eq!(img.boxes[1], None);
}

#[test]
fn pixels_are_packed_for_a_window() {
    assert_eq!(pixel_word(rgb(0x12, 0x34, 0x56)), 0x0012_3456);
}

#[test]
fn labels_lie_on_their_file() {
    assert_eq!(label_text("dir/name.bin"), "name.bin");
    let long = "x".repeat(41);
    assert_eq!(label_text(&long), format!("{}…", "x".repeat(40)));
    // The hash of cell (1, 0) is 0x9E3779B1.
    assert_eq!(jitter(0, 0), (0, 0, false, false));
    assert_eq!(jitter(1, 0), (76, 20, true, true));
    let side = 200u32;
    let owner = vec![Some(0usize); (side * side) as usize];
    let b = LabelBox {
        file_idx: 0,
        x0: 0,
        y0: 0,
        x1: side - 1,
        y1: side - 1,
        width: 40,
        height: 14,
        side,
    };
    let spots = place_labels(&b, &owner);
    assert!(!spots.is_empty());
    for (x, y) in spots {
        assert!(x + 40 <= side && y + 14 <= side);
    }
    let nobody: Vec<Option<usize>> = vec![None; (side * side) as usize];
    assert!(place_labels(&b, &nobody).is_empty());
}
