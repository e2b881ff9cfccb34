use arbvis::format::dtype::Dtype;
use arbvis::format::types::TensorMeta;
use arbvis::layout::arch::ArchLayout;
use arbvis::layout::bin_pack::{align_up, pack, Slot};
use arbvis::layout::hilbert::{HilbertLayout, LayoutShape, TILE};
use arbvis::layout::name_tree::{classify, detect_common_prefix, parse_layer_index};
use arbvis::layout::select::{select_layout, Layout, LayoutMode};
use arbvis::layout::sub_path::{is_input_side_name, sort_sub_paths};
use arbvis::source::{SafetensorsInfo, Source, SourceKind};

#[test]
fn the_canvas_grows_in_halves() {
    let l = HilbertLayout::from_total(0);
    assert_eq!((l.height, l.width_tiles, l.height_tiles, l.max_zoom), (256, 1, 1, 0));
    let l = HilbertLayout::from_total(65_536);
    assert_eq!(l.total_tiles, 1);
    let l = HilbertLayout::from_total(65_537);
    assert_eq!((l.height, l.width_tiles, l.height_tiles, l.world_w), (256, 2, 1, 512));
    let l = HilbertLayout::from_total(131_073);
    assert_eq!((l.height, l.width_tiles, l.height_tiles, l.max_zoom), (512, 2, 2, 1));
    assert_eq!(l.square_pixels, 512 * 512);
    let g = l.canvas_geom();
    assert_eq!((g.width, g.height, g.world_h), (512, 512, TILE));
    assert_eq!(l.id(), "hilbert-bytes");
    assert!(l.is_byte_layout());
    assert_eq!(l.detail_depth(), 0);
}

#[test]
fn boxes_are_packed_without_overlap() {
    assert_eq!(align_up(13, 4), 16);
    assert_eq!(align_up(16, 4), 16);
    let sizes = [(30, 10), (30, 20), (50, 5), (100, 7), (10, 10)];
    let slots: Vec<Slot> = sizes
        .iter()
        .map(|&(width, height)| Slot { width, height })
        .collect();
    let (at, w, h) = pack(&slots, 100, 2);
    assert_eq!(at.len(), slots.len());
    for i in 0..at.len() {
        assert!(at[i].x + slots[i].width <= w && at[i].y + slots[i].height <= h);
        for j in 0..i {
            let apart = at[i].x + slots[i].width <= at[j].x
                || at[j].x + slots[j].width <= at[i].x
                || at[i].y + slots[i].height <= at[j].y
                || at[j].y + slots[j].height <= at[i].y;
            assert!(apart, "slots {i} and {j} overlap");
        }
    }
}

fn tensor(name: &str, shape: &[u64], start: u64) -> TensorMeta {
    TensorMeta {
        name: name.to_string(),
        dtype: Dtype::F32,
        shape: shape.to_vec(),
        file_start: start,
        file_end: start + 4 * shape.iter().product::<u64>(),
    }
}

fn model(tensors: Vec<TensorMeta>) -> Source {
    Source {
        file_idx: 0,
        kind: SourceKind::File("m.safetensors".to_string()),
        byte_size: 10_000,
        safetensors: Some(SafetensorsInfo { tensors, color_ranges: Vec::new() }),
        name_override: None,
    }
}

fn plain() -> Source {
    Source {
        file_idx: 1,
        kind: SourceKind::File("x.txt".to_string()),
        byte_size: 10,
        safetensors: None,
        name_override: None,
    }
}

fn small() -> Vec<TensorMeta> {
    vec![
        tensor("model.embed_tokens.weight", &[20, 8], 0),
        tensor("model.layers.0.self_attn.q_proj.weight", &[8, 8], 640),
        tensor("model.layers.1.self_attn.q_proj.weight", &[8, 8], 896),
        tensor("lm_head.weight", &[20, 8], 1152),
    ]
}

#[test]
fn layouts_are_chosen_by_what_the_sources_hold() {
    let st = [model(small())];
    let auto = select_layout(&st, &[0], 10_000, LayoutMode::Auto, &[], false);
    assert!(auto.is_architectural());
    let forced = select_layout(&st, &[0], 10_000, LayoutMode::Hilbert, &[], false);
    assert!(!forced.is_architectural());
    let mixed = [model(small()), plain()];
    let l = select_layout(&mixed, &[0, 10_000], 10_010, LayoutMode::Auto, &[], false);
    assert!(!l.is_architectural());
    let l = select_layout(&mixed, &[0, 10_000], 10_010, LayoutMode::Auto, &[], true);
    assert!(l.is_architectural());
    let flat = [model(vec![tensor("conv.weight", &[4, 4], 0)])];
    let l = select_layout(&flat, &[0], 64, LayoutMode::Auto, &[], false);
    assert!(!l.is_architectural());
    let l = select_layout(&flat, &[0], 64, LayoutMode::Arch, &[], false);
    assert!(l.is_architectural());
    let l = select_layout(&[plain()], &[0], 10, LayoutMode::Arch, &[], false);
    match l {
        Layout::HilbertGlobal(h) => assert_eq!(h.total, 10),
        Layout::Architectural(_) => panic!("nothing to lay out"),
    }
    assert_eq!(LayoutMode::default(), LayoutMode::Auto);
}

#[test]
fn placed_tensors_do_not_overlap() {
    let layout = ArchLayout::try_build(&[model(small())], &[0], &[]).unwrap();
    assert_eq!(layout.tensors.len(), 4);
    let ts = &layout.tensors;
    for i in 0..ts.len() {
        for j in 0..i {
            let (a, b) = (&ts[i], &ts[j]);
            let apart = a.canvas_x as u64 + a.tensor_cols <= b.canvas_x as u64
                || b.canvas_x as u64 + b.tensor_cols <= a.canvas_x as u64
                || a.canvas_y as u64 + a.tensor_rows <= b.canvas_y as u64
                || b.canvas_y as u64 + b.tensor_rows <= a.canvas_y as u64;
            assert!(apart, "{} and {} overlap", a.name, b.name);
        }
    }
}

#[test]
fn tiles_show_the_tensors_that_lie_on_them() {
    let layout = ArchLayout::try_build(&[model(small())], &[0], &[]).unwrap();
    let mut seen = 0;
    for ty in 0..layout.height_tiles {
        for tx in 0..layout.width_tiles {
            for r in layout.regions_in_tile(tx, ty) {
                assert!(r.tile_x0 < r.tile_x1 && r.tile_x1 <= 256);
                assert!(r.tile_y0 < r.tile_y1 && r.tile_y1 <= 256);
                seen += ((r.tile_x1 - r.tile_x0) * (r.tile_y1 - r.tile_y0)) as u64;
            }
        }
    }
    let pixels: u64 = layout.tensors.iter().map(|t| t.tensor_rows * t.tensor_cols).sum();
    assert_eq!(seen, pixels);
}

#[test]
fn every_element_is_in_one_region() {
    let layout = ArchLayout::try_build(&[model(small())], &[0], &[]).unwrap();
    for t in &layout.tensors {
        let mut shown = vec![0u32; (t.tensor_rows * t.tensor_cols) as usize];
        for ty in 0..layout.height_tiles {
            for tx in 0..layout.width_tiles {
                for r in layout.regions_in_tile(tx, ty) {
                    if r.tensor_id != t.tensor_id {
                        continue;
                    }
                    assert_eq!(
                        (tx * 256 + r.tile_x0) as u64,
                        t.canvas_x as u64 + r.col_first
                    );
                    assert_eq!(
                        (r.tile_y1 - r.tile_y0) as u64,
                        r.row_last_exclusive - r.row_first
                    );
                    for row in r.row_first..r.row_last_exclusive {
                        for col in r.col_first..r.col_last_exclusive {
                            shown[(row * t.tensor_cols + col) as usize] += 1;
                        }
                    }
                }
            }
        }
        assert!(shown.iter().all(|&n| n == 1), "{}", t.name);
    }
}

#[test]
fn names_are_taken_apart() {
    assert_eq!(parse_layer_index("12"), 12);
    assert_eq!(detect_common_prefix(&["model.a", "model.b"]), "model.");
    assert_eq!(detect_common_prefix(&[]), "");
    let p = classify(&["model.layers.0.w", "model.layers.5.w"]);
    assert_eq!(p.num_layers, 2);
    assert!(is_input_side_name("model.Embed_Tokens.weight"));
    assert!(!is_input_side_name("lm_head.weight"));
    let sorted = sort_sub_paths(
        ["mlp.up_proj.weight", "self_attn.o_proj.weight", "self_attn.q_proj.weight"]
            .iter()
            .map(|s| s.to_string())
            .collect(),
    );
    assert_eq!(sorted, [
        "self_attn.q_proj.weight",
        "self_attn.o_proj.weight",
        "mlp.up_proj.weight"
    ]);
}
