use arbvis::format::dtype::Dtype;
use arbvis::format::types::TensorMeta;
use arbvis::layout::arch::{next_pow2, ArchLayout, PAD};
use arbvis::layout::columns::pick_column_count;
use arbvis::layout::select::{ModelConfig, SourceMeta};
use arbvis::layout::sub_path::{extract_block_sub_path, sub_path_order_key};
use arbvis::source::{SafetensorsInfo, Source, SourceKind};

#[test]
fn next_pow2_basics() {
    assert_eq!(next_pow2(0), 1);
    assert_eq!(next_pow2(1), 1);
    assert_eq!(next_pow2(2), 2);
    assert_eq!(next_pow2(3), 4);
    assert_eq!(next_pow2(4), 4);
    assert_eq!(next_pow2(5), 8);
    assert_eq!(next_pow2(17), 32);
    assert_eq!(next_pow2(100), 128);
}

#[test]
fn pick_column_count_degenerate_and_trivial() {
    // No blocks → 0 columns.
    assert_eq!(pick_column_count(0, 1000, 1000, PAD), 0);
    // Single block → 1 column (no grid to balance).
    assert_eq!(pick_column_count(1, 1000, 1000, PAD), 1);
    // Defensive: zero-sized blocks fall back to a single column rather
    // than dividing by zero.
    assert_eq!(pick_column_count(5, 0, 100, PAD), 1);
    assert_eq!(pick_column_count(5, 100, 0, PAD), 1);
}

#[test]
fn pick_column_count_two_square_blocks_prefers_two_cols() {
    // Two identically-shaped blocks: 1×2 stack is taller than wide
    // (height ≈ 2*W), 2×1 row is wider than tall (width ≈ 2*W); both
    // sit equally far from square *without* gutters, but the gutter row
    // tips it toward 2 columns.
    assert_eq!(pick_column_count(2, 1000, 1000, PAD), 2);
}

#[test]
fn pick_column_count_tall_many_blocks() {
    // 70 transformer blocks where each block is much wider than tall.
    // 1 column would be 1× : 70× tall (catastrophically vertical);
    // ideal is around sqrt(70 * layer_h / layer_w) = sqrt(70 * 0.2) ≈ 3.7,
    // so 4 columns gets us a near-square grid.
    let c = pick_column_count(70, 10_000, 2_000, PAD);
    assert_eq!(
        c, 4,
        "70 blocks of 10000×2000 should pick 4 columns to balance aspect; got {c}",
    );
}

#[test]
fn pick_column_count_wide_blocks_stays_at_one_col() {
    // When each block is itself much wider than tall, even four of them
    // stack into a roughly-square canvas in a single column — adding more
    // columns would create a strip far wider than tall.
    let c = pick_column_count(4, 4_000, 1_000, PAD);
    assert_eq!(c, 1, "wide blocks already balance horizontally; got {c}");
}

/// Build a synthetic tensor for testing. `name`, `shape`.
fn mk_t(name: &str, shape: Vec<u64>) -> TensorMeta {
    let elem_size = 4u64; // f32
    let n: u64 = shape.iter().product();
    TensorMeta {
        name: name.to_string(),
        dtype: Dtype::F32,
        shape,
        file_start: 0,
        file_end: n * elem_size,
    }
}

#[test]
fn element_shape_3d_collapses_last() {
    let t = mk_t("conv1d.weight", vec![6144, 1, 4]);
    let (r, c) = t.element_shape();
    assert_eq!((r, c), (6144, 4));
}

#[test]
fn element_shape_1d_is_strip() {
    let t = mk_t("norm.weight", vec![4096]);
    let (r, c) = t.element_shape();
    assert_eq!((r, c), (1, 4096));
}

#[test]
fn sub_path_order_attention_before_mlp() {
    let attn = sub_path_order_key("self_attn.q_proj.weight");
    let mlp = sub_path_order_key("mlp.gate_proj.weight");
    assert!(attn < mlp);
}

#[test]
fn sub_path_order_qkvo() {
    let q = sub_path_order_key("self_attn.q_proj.weight");
    let k = sub_path_order_key("self_attn.k_proj.weight");
    let v = sub_path_order_key("self_attn.v_proj.weight");
    let o = sub_path_order_key("self_attn.o_proj.weight");
    assert!(q < k && k < v && v < o);
}

#[test]
fn extract_block_sub_path_strips_prefix_and_index() {
    assert_eq!(
        extract_block_sub_path("model.layers.7.self_attn.q_proj.weight"),
        Some("self_attn.q_proj.weight".to_string()),
    );
    assert_eq!(
        extract_block_sub_path("transformer.h.0.attn.c_attn.weight"),
        Some("attn.c_attn.weight".to_string()),
    );
    assert_eq!(extract_block_sub_path("lm_head.weight"), None);
}

/// Build a `Source` whose model header reports the listed tensors with
/// sequential byte offsets. The Source's `kind` is `Buffered(empty)`
/// only so we don't need a real file on disk; `ArchLayout::try_build`
/// actually looks only at `safetensors`.
fn synthetic_source(tensors: Vec<TensorMeta>) -> Source {
    let total: u64 = tensors.iter().map(|t| t.file_end - t.file_start).sum();
    Source {
        file_idx: 0,
        kind: SourceKind::Buffered(Vec::new()),
        byte_size: total,
        safetensors: Some(SafetensorsInfo {
            tensors,
            color_ranges: Vec::new(),
        }),
        name_override: None,
    }
}

#[test]
fn config_extends_layer_stack_for_partial_shard() {
    // Simulate loading 4 of 8 transformer layers (shards split half/half).
    // Without config: layout shows 4 layer-bounds. With config that
    // declares 8 hidden layers, the layout should expose 8.
    let mut tensors: Vec<TensorMeta> = Vec::new();
    let mut off: u64 = 1024;
    for i in 0..4u64 {
        let n_elem = 64u64;
        let bytes = n_elem * 4;
        tensors.push(TensorMeta {
            name: format!("model.layers.{i}.self_attn.q_proj.weight"),
            dtype: Dtype::F32,
            shape: vec![8, 8],
            file_start: off,
            file_end: off + bytes,
        });
        off += bytes;
    }
    let source = synthetic_source(tensors);
    let cumulative = vec![0u64];

    // No config: 4 layer bounds.
    let no_config = ArchLayout::try_build(&[source], &cumulative, &[]).unwrap();
    assert_eq!(no_config.layer_bounds.len(), 4);
    assert!(no_config.architecture.is_empty());

    // With config (rebuild source since it was moved): 8 layer bounds.
    let mut tensors2: Vec<TensorMeta> = Vec::new();
    let mut off2: u64 = 1024;
    for i in 0..4u64 {
        let n_elem = 64u64;
        let bytes = n_elem * 4;
        tensors2.push(TensorMeta {
            name: format!("model.layers.{i}.self_attn.q_proj.weight"),
            dtype: Dtype::F32,
            shape: vec![8, 8],
            file_start: off2,
            file_end: off2 + bytes,
        });
        off2 += bytes;
    }
    let source2 = synthetic_source(tensors2);
    let config = ModelConfig {
        architectures: vec!["LlamaForCausalLM".to_string()],
        num_hidden_layers: Some(8),
        hidden_size: Some(8),
    };
    let meta = SourceMeta {
        config: Some(config),
        index: None,
    };
    let with_config = ArchLayout::try_build(&[source2], &cumulative, &[meta]).unwrap();
    assert_eq!(with_config.layer_bounds.len(), 8);
    assert!(with_config.architecture.contains("LlamaForCausalLM"));
    assert!(with_config.architecture.contains("8 layers"));
}

/// `PyramidAccumulator` only emits a parent tile once all 4 children
/// arrive, so canvas tile counts have to be powers of two on each axis
/// AND `max_zoom = log2(min(w_p2, h_p2))` for the pyramid to drain all
/// the way down to zoom 0. Without this, the leaflet viewer asks for
/// `tiles/0/0/0.avif`, gets a 404, and renders a blank canvas — which is
/// exactly the regression this test guards.
#[test]
fn canvas_dimensions_are_power_of_two() {
    // A non-square stack: 11 transformer layers, hidden=384, intermediate=1280.
    // That gives raw tile counts in the high-tens / low-hundreds — neither
    // a power of two on its own.
    let mut tensors: Vec<TensorMeta> = Vec::new();
    let mut off: u64 = 1024;
    for i in 0..11u64 {
        for (sub, shape) in [
            ("self_attn.q_proj.weight", vec![384, 384]),
            ("self_attn.k_proj.weight", vec![384, 384]),
            ("self_attn.v_proj.weight", vec![384, 384]),
            ("self_attn.o_proj.weight", vec![384, 384]),
            ("mlp.gate_proj.weight", vec![1280, 384]),
            ("mlp.up_proj.weight", vec![1280, 384]),
            ("mlp.down_proj.weight", vec![384, 1280]),
            ("input_layernorm.weight", vec![384]),
            ("post_attention_layernorm.weight", vec![384]),
        ] {
            let n: u64 = shape.iter().product();
            let bytes = n * 4;
            tensors.push(TensorMeta {
                name: format!("model.layers.{i}.{sub}"),
                dtype: Dtype::F32,
                shape,
                file_start: off,
                file_end: off + bytes,
            });
            off += bytes;
        }
    }
    let source = synthetic_source(tensors);
    let cumulative = vec![0u64];
    let layout = ArchLayout::try_build(&[source], &cumulative, &[]).unwrap();

    assert!(
        layout.width_tiles.is_power_of_two(),
        "width_tiles {} must be a power of two for the pyramid to drain",
        layout.width_tiles,
    );
    assert!(
        layout.height_tiles.is_power_of_two(),
        "height_tiles {} must be a power of two for the pyramid to drain",
        layout.height_tiles,
    );
    let smaller = layout.width_tiles.min(layout.height_tiles);
    assert_eq!(
        layout.max_zoom,
        smaller.trailing_zeros(),
        "max_zoom should be log2 of the smaller tile dim so 2^max_zoom divides both",
    );
    // Sanity: zoom 0 must have at least one tile in each dim, and exactly
    // one of the two should be exactly 1 (the smaller axis collapsed).
    let zoom0_w = layout.width_tiles >> layout.max_zoom;
    let zoom0_h = layout.height_tiles >> layout.max_zoom;
    assert!(zoom0_w >= 1 && zoom0_h >= 1);
    assert!(
        zoom0_w == 1 || zoom0_h == 1,
        "zoom 0 grid should be 1xN or Nx1, got {zoom0_w}x{zoom0_h}",
    );
}

/// With the multi-column grid, layers should arrange themselves into N×M
/// blocks so that within a column corresponding sub-tensors stay
/// pixel-aligned across rows (q_proj-in-layer-0 shares an x with
/// q_proj-in-layer-cols, etc.). This is the alignment property the module
/// comment promises — guards against regressions in the column/row math.
#[test]
fn multi_column_grid_preserves_within_column_alignment() {
    // 30 layers — same sub-tensors per layer (matches SmolLM2-135M's per-layer
    // shape). Picker chooses cols so the canvas trends toward near-square.
    let mut tensors: Vec<TensorMeta> = Vec::new();
    let mut off: u64 = 1024;
    for i in 0..30u64 {
        for (sub, shape) in [
            ("self_attn.q_proj.weight", vec![576, 576]),
            ("self_attn.k_proj.weight", vec![192, 576]),
            ("self_attn.v_proj.weight", vec![192, 576]),
            ("self_attn.o_proj.weight", vec![576, 576]),
            ("mlp.gate_proj.weight", vec![1536, 576]),
            ("mlp.up_proj.weight", vec![1536, 576]),
            ("mlp.down_proj.weight", vec![576, 1536]),
            ("input_layernorm.weight", vec![576]),
            ("post_attention_layernorm.weight", vec![576]),
        ] {
            let n: u64 = shape.iter().product();
            let bytes = n * 2; // BF16 is 2 bytes/elem
            tensors.push(TensorMeta {
                name: format!("model.layers.{i}.{sub}"),
                dtype: Dtype::BF16,
                shape,
                file_start: off,
                file_end: off + bytes,
            });
            off += bytes;
        }
    }
    let source = synthetic_source(tensors);
    let cumulative = vec![0u64];
    let layout = ArchLayout::try_build(&[source], &cumulative, &[]).unwrap();

    // Picker should have spread the 30 layers across more than one column —
    // a single column for 30 nearly-square blocks would be ~30× taller than
    // wide.
    assert_eq!(layout.layer_bounds.len(), 30);
    let unique_xs: std::collections::BTreeSet<u32> =
        layout.layer_bounds.iter().map(|b| b.canvas_x).collect();
    let unique_ys: std::collections::BTreeSet<u32> =
        layout.layer_bounds.iter().map(|b| b.canvas_y).collect();
    let cols = unique_xs.len();
    let rows = unique_ys.len();
    assert!(
        cols > 1,
        "30 layers should spread across multiple columns; got {cols}",
    );
    assert!(cols * rows >= 30, "{cols}x{rows} can't hold 30 layers");

    // Within each column, every layer's q_proj must share an x-coordinate.
    // Equivalently, blocks at the same column index must have the same
    // canvas_x.
    let mut x_by_col: std::collections::BTreeMap<u32, Vec<u32>> = Default::default();
    for b in &layout.layer_bounds {
        x_by_col.entry(b.canvas_x).or_default().push(b.canvas_y);
    }
    // Every column should have a consistent x, by construction (each
    // canvas_x is itself a "column key"). The check that matters: layers
    // sharing canvas_x should ALSO have grid-spaced canvas_y values (i.e.
    // they're stacked rows in the same column).
    let row_pitch = layout
        .layer_bounds
        .iter()
        .map(|b| b.height)
        .next()
        .expect("at least one layer")
        + PAD;
    for (col_x, ys) in &x_by_col {
        let mut sorted_ys = ys.clone();
        sorted_ys.sort();
        for w in sorted_ys.windows(2) {
            assert_eq!(
                w[1] - w[0],
                row_pitch,
                "layers in column at x={col_x} must be row-aligned at pitch {row_pitch}; got {} between {} and {}",
                w[1] - w[0],
                w[0],
                w[1],
            );
        }
    }
}

#[test]
fn no_two_tensors_share_a_pixel() {
    let mut tensors: Vec<TensorMeta> = vec![
        mk_t("model.embed_tokens.weight", vec![40, 300]),
        mk_t("model.norm.weight", vec![64]),
        mk_t("lm_head.weight", vec![300, 64]),
    ];
    for i in 0..5u64 {
        tensors.push(mk_t(
            &format!("model.layers.{i}.self_attn.q_proj.weight"),
            vec![64, 64],
        ));
        tensors.push(mk_t(
            &format!("model.layers.{i}.mlp.up_proj.weight"),
            vec![96 + i, 33],
        ));
    }
    let layout = ArchLayout::try_build(&[synthetic_source(tensors)], &[0u64], &[]).unwrap();
    assert_eq!(layout.tensors.len(), 13);
    for (i, a) in layout.tensors.iter().enumerate() {
        let (ax, ay) = (a.canvas_x as u64, a.canvas_y as u64);
        assert!(ax + a.tensor_cols <= layout.width);
        assert!(ay + a.tensor_rows <= layout.height);
        for b in &layout.tensors[i + 1..] {
            let (bx, by) = (b.canvas_x as u64, b.canvas_y as u64);
            assert!(
                ax + a.tensor_cols <= bx
                    || bx + b.tensor_cols <= ax
                    || ay + a.tensor_rows <= by
                    || by + b.tensor_rows <= ay,
                "{} and {} overlap",
                a.name,
                b.name,
            );
        }
    }
}

#[test]
fn a_last_shard_gets_the_whole_stack() {
    let tensors: Vec<TensorMeta> = (4..8u64)
        .map(|i| mk_t(&format!("model.layers.{i}.self_attn.q_proj.weight"), vec![8, 8]))
        .collect();
    let meta = SourceMeta {
        config: Some(ModelConfig {
            architectures: Vec::new(),
            num_hidden_layers: Some(8),
            hidden_size: None,
        }),
        index: None,
    };
    let layout = ArchLayout::try_build(&[synthetic_source(tensors)], &[0u64], &[meta]).unwrap();
    let ids: Vec<u32> = layout.layer_bounds.iter().map(|b| b.layer_idx).collect();
    assert_eq!(ids, [0, 1, 2, 3, 4, 5, 6, 7]);
}

#[test]
fn a_stack_above_the_declared_count_is_kept() {
    let bounds_of = |declared: u32| -> Vec<u32> {
        let tensors: Vec<TensorMeta> = [0u64, 5]
            .iter()
            .map(|i| mk_t(&format!("model.layers.{i}.self_attn.q_proj.weight"), vec![8, 8]))
            .collect();
        let meta = SourceMeta {
            config: Some(ModelConfig {
                architectures: Vec::new(),
                num_hidden_layers: Some(declared),
                hidden_size: None,
            }),
            index: None,
        };
        let layout =
            ArchLayout::try_build(&[synthetic_source(tensors)], &[0u64], &[meta]).unwrap();
        layout.layer_bounds.iter().map(|b| b.layer_idx).collect()
    };
    assert_eq!(bounds_of(0), [0, 5]);
    assert_eq!(bounds_of(3), [0, 5]);
    assert_eq!(bounds_of(5), [0, 5]);
    assert_eq!(bounds_of(6), [0, 1, 2, 3, 4, 5]);
    assert_eq!(bounds_of(7), [0, 1, 2, 3, 4, 5, 6]);
}
