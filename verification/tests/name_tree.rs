use arbvis::layout::name_tree::{block_captures, block_regex_for_arch, classify, LayerSlot};

#[test]
fn classifies_qwen_style_llm() {
    let names = vec![
        "model.embed_tokens.weight",
        "model.layers.0.self_attn.q_proj.weight",
        "model.layers.0.self_attn.k_proj.weight",
        "model.layers.0.self_attn.v_proj.weight",
        "model.layers.0.self_attn.o_proj.weight",
        "model.layers.0.mlp.gate_proj.weight",
        "model.layers.0.mlp.up_proj.weight",
        "model.layers.0.mlp.down_proj.weight",
        "model.layers.0.input_layernorm.weight",
        "model.layers.0.post_attention_layernorm.weight",
        "model.layers.1.self_attn.q_proj.weight",
        "model.layers.1.self_attn.k_proj.weight",
        "model.layers.1.self_attn.v_proj.weight",
        "model.layers.1.self_attn.o_proj.weight",
        "model.layers.1.mlp.gate_proj.weight",
        "model.layers.1.mlp.up_proj.weight",
        "model.layers.1.mlp.down_proj.weight",
        "model.layers.1.input_layernorm.weight",
        "model.layers.1.post_attention_layernorm.weight",
        "model.norm.weight",
        "lm_head.weight",
    ];
    let p = classify(&names);
    assert!(
        p.block_regex.is_some(),
        "expected transformer classification"
    );
    assert_eq!(p.num_layers, 2);
    assert_eq!(p.prefix, "model.");

    let block_count = p
        .slots
        .iter()
        .filter(|s| matches!(s, LayerSlot::Block { .. }))
        .count();
    let top_count = p
        .slots
        .iter()
        .filter(|s| matches!(s, LayerSlot::TopLevel { .. }))
        .count();
    assert_eq!(block_count, 18);
    // embed_tokens, norm, lm_head — lm_head has no `model.` prefix so prefix-stripping is a no-op for it.
    assert_eq!(top_count, 3);
}

#[test]
fn classifies_gpt2_h_style() {
    let names = vec![
        "transformer.wte.weight",
        "transformer.wpe.weight",
        "transformer.h.0.ln_1.weight",
        "transformer.h.0.attn.c_attn.weight",
        "transformer.h.0.mlp.c_fc.weight",
        "transformer.h.1.ln_1.weight",
        "transformer.h.1.attn.c_attn.weight",
        "transformer.h.1.mlp.c_fc.weight",
        "transformer.ln_f.weight",
    ];
    let p = classify(&names);
    assert!(p.block_regex.is_some());
    assert_eq!(p.num_layers, 2);
    assert_eq!(p.prefix, "transformer.");
}

#[test]
fn falls_back_to_generic_for_non_transformer() {
    let names = vec![
        "first_stage_model.encoder.conv_in.weight",
        "first_stage_model.encoder.conv_in.bias",
        "first_stage_model.decoder.conv_out.weight",
        "first_stage_model.decoder.conv_out.bias",
    ];
    let p = classify(&names);
    assert!(
        p.block_regex.is_none(),
        "should not classify as transformer"
    );
}

#[test]
fn asymmetric_prefix_uses_majority() {
    // Mixed prefixes; "model." wins because it's the supermajority.
    let mut names: Vec<&'static str> = Vec::new();
    for i in 0..20 {
        names.push(Box::leak(
            format!("model.layers.{i}.weight").into_boxed_str(),
        ));
    }
    names.push("lm_head.weight");
    names.push("model.norm.weight");
    let p = classify(&names);
    assert_eq!(p.prefix, "model.");
    assert!(p.block_regex.is_some());
}

#[test]
fn single_tensor_no_group() {
    let names = vec!["foo.weight"];
    let p = classify(&names);
    assert!(p.block_regex.is_none());
    assert_eq!(p.slots.len(), 1);
    // No common prefix to strip.
    match &p.slots[0] {
        LayerSlot::TopLevel { name } => assert_eq!(name, "foo.weight"),
        other => panic!("unexpected slot {other:?}"),
    }
}

#[test]
fn block_regex_matches_bert_encoder_layer() {
    let caps = block_captures("encoder.layer.5.attention.self.query.weight").unwrap();
    assert_eq!(caps.0, "5");
    assert_eq!(caps.1, "attention.self.query.weight");
}

#[test]
fn only_block_names_are_parted() {
    let pair = |d: &str, s: &str| Some((d.to_string(), s.to_string()));
    assert_eq!(block_captures("layers.0.w"), pair("0", "w"));
    assert_eq!(
        block_captures("transformer.h.12.attn.c_attn.weight"),
        pair("12", "attn.c_attn.weight")
    );
    assert_eq!(block_captures("module.encoder.layer.3.w"), pair("3", "w"));
    assert_eq!(block_captures("backbone.blocks.007..x"), pair("007", ".x"));
    for name in [
        "",
        "model.layers.3.",
        "model.layers.3",
        "model.layers..w",
        "model.layers.x.w",
        "model.model.layers.3.w",
        "layers.3.a\nb",
        "encoder.layers.3.w",
        "xlayers.3.w",
    ] {
        assert_eq!(block_captures(name), None, "{name}");
    }
}

#[test]
fn layers_are_counted_by_distinct_index() {
    let p = classify(&["layers.0.w", "layers.5.w"]);
    assert_eq!(p.block_regex, Some(block_regex_for_arch()));
    assert_eq!(p.prefix, "");
    assert_eq!(p.num_layers, 2);
    assert_eq!(
        p.slots,
        [
            LayerSlot::Block { idx: 0, sub_path: "w".to_string() },
            LayerSlot::Block { idx: 5, sub_path: "w".to_string() },
        ]
    );
    let p = classify(&["layers.5.w", "layers.5.b"]);
    assert_eq!(p.block_regex, None);
    assert_eq!(p.num_layers, 0);
}
