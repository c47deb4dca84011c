//! Shapes, queries and weights of the models.

use paddleocr_vl::architecture::{
    head_length, level_order, BlockChannels, DecoderSelfAttentionConfig, GlobalPointerConfig,
    LinearShape, MLPPredictionHeadConfig, MultiscaleDeformableAttentionConfig,
    PaddleOcrProjectorConfig, PaddleOcrTextAttentionConfig, PaddleOcrTextMLPConfig,
    PaddleOcrVisionEmbeddingsConfig, PaddleOcrVisionMLPConfig, PaddleOcrVlModelConfig,
    ReadingOrderSelfAttentionConfig,
};
use paddleocr_vl::checkpoint::{
    LayoutDTypeAdapter, PyTorchToBurnDTypeAdapter, PyTorchToBurnF32Adapter,
    LAYOUT_V2_KEY_REMAPPINGS, LAYOUT_V3_KEY_REMAPPINGS, VL_KEY_REMAPPINGS,
};
use paddleocr_vl::dtype::DType;
use paddleocr_vl::float::F32;
use paddleocr_vl::queries::{
    arrange_queries, attention_mask, element_counts, level_starts, lower_triangle, mask_extent,
    position_ids, reading_input_ids, relation_box_dim_min_for_dtype, top_queries, Extent,
    ReadingTokens,
};
use paddleocr_vl::version::PaddleOcrVersion;
use paddleocr_vl::vision::{image_spans, merged_blocks, patch_positions, rotary_sections, Span};

fn f(x: f32) -> F32 {
    F32 { bits: x.to_bits() }
}

fn singles(values: &[f32]) -> Vec<F32> {
    values.iter().map(|v| f(*v)).collect()
}

#[test]
fn feature_maps_follow_each_other() {
    assert_eq!(
        level_starts(&vec![(100, 100), (50, 50), (25, 25)]),
        vec![0, 10000, 12500]
    );
    assert_eq!(level_starts(&Vec::new()), Vec::<usize>::new());
}

#[test]
fn the_best_queries_of_every_page_are_chosen() {
    let scores = singles(&[0.1, 0.9, 0.5, 0.9, -1.0, -3.0, -2.0, 0.0]);
    assert_eq!(top_queries(&scores, 2, 4, 3), vec![1, 3, 2, 3, 0, 2]);
}

#[test]
fn confident_queries_come_first() {
    let probs = singles(&[0.3, 0.6, 0.45, 0.5, 0.2, 0.9]);
    let classes = vec![0, 1, 5, 7, 0, -1];
    let thresholds = singles(&[0.5, 0.5, 0.5, 0.5, 0.5, 0.4]);
    let at = arrange_queries(&probs, &classes, 2, 3, &thresholds, &vec![4, 2, 14, 1, 5, 7]);
    assert_eq!(at.order, vec![1, 2, 0, 0, 2, 1]);
    assert_eq!(at.mask, vec![1, 1, 0, 1, 1, 0]);
    assert_eq!(at.class_ids, vec![1, 5, 0, 7, -1, 0]);
    assert_eq!(at.labels, vec![2, 7, 0, 0, 0, 0]);
}

#[test]
fn pages_are_framed_for_the_reading_order() {
    let tokens = ReadingTokens::default();
    let counts = element_counts(&vec![1, 1, 0, 0, 0, 0], 2, 3);
    assert_eq!(counts, vec![2, 0]);
    let ids = reading_input_ids(&counts, 3, tokens);
    assert_eq!(ids, vec![0, 3, 3, 2, 1, 0, 2, 1, 1, 1]);
    assert_eq!(
        position_ids(&ids, 5, tokens.pad),
        vec![2, 3, 4, 5, 1, 2, 3, 1, 1, 1]
    );
    assert_eq!(
        position_ids(&vec![0, 3, 3, 2, 1, 1], 6, 1),
        vec![2, 3, 4, 5, 1, 1]
    );
    let mask: Vec<f32> = attention_mask(&counts, 3)
        .iter()
        .map(|v| f32::from_bits(v.bits))
        .collect();
    assert_eq!(
        mask,
        vec![0.0, 0.0, 0.0, 0.0, -1e4, 0.0, 0.0, -1e4, -1e4, -1e4]
    );
}

#[test]
fn pairs_point_forward() {
    let mask: Vec<f32> = lower_triangle(3)
        .iter()
        .map(|v| f32::from_bits(v.bits))
        .collect();
    assert_eq!(mask, vec![1.0, 0.0, 0.0, 1.0, 1.0, 0.0, 1.0, 1.0, 1.0]);
}

#[test]
fn masks_have_extents() {
    let mut masks = singles(&[0.0; 24]);
    masks[12 + 4 + 2] = f(0.5);
    masks[12 + 8 + 1] = f(3.0);
    assert_eq!(mask_extent(&masks, 0, 4, 3), None);
    assert_eq!(
        mask_extent(&masks, 12, 4, 3),
        Some(Extent {
            min_x: 1,
            min_y: 1,
            max_x: 2,
            max_y: 2
        })
    );
}

#[test]
fn half_precision_raises_the_least_side() {
    assert_eq!(relation_box_dim_min_for_dtype(DType::F16, f(1e-3)), f(0.1));
    assert_eq!(relation_box_dim_min_for_dtype(DType::F16, f(0.5)), f(0.5));
    assert_eq!(relation_box_dim_min_for_dtype(DType::F32, f(1e-3)), f(1e-3));
    assert_eq!(
        relation_box_dim_min_for_dtype(DType::F16, f(f32::NAN)),
        f(f32::NAN.max(0.1))
    );
}

#[test]
fn images_take_all_rows() {
    let spans = image_spans(&vec![(2, 3), (1, 4)], 10).unwrap();
    assert_eq!(
        spans,
        vec![Span { start: 0, end: 6 }, Span { start: 6, end: 10 }]
    );
    assert!(image_spans(&vec![(2, 3)], 7).is_none());
    assert!(image_spans(&vec![(2, 3)], 5).is_none());
    assert!(image_spans(&vec![(usize::MAX, 2)], 5).is_none());
}

#[test]
fn patches_know_their_rows_and_columns() {
    let at = patch_positions(&vec![(2, 3), (1, 2)]);
    assert_eq!(at.rows, vec![0, 0, 0, 1, 1, 1, 0, 0]);
    assert_eq!(at.columns, vec![0, 1, 2, 0, 1, 2, 0, 1]);
    assert_eq!(at.longest, 3);
    assert_eq!(merged_blocks(4, 6, 2), Some((2, 3)));
    assert_eq!(merged_blocks(5, 6, 2), None);
    assert_eq!(merged_blocks(4, 7, 2), None);
}

#[test]
fn frequencies_are_divided_among_the_axes() {
    assert_eq!(
        rotary_sections([16, 24, 24], 128),
        Some([
            Span { start: 0, end: 16 },
            Span { start: 16, end: 40 },
            Span { start: 40, end: 64 }
        ])
    );
    assert_eq!(rotary_sections([16, 24, 25], 128), None);
    assert_eq!(rotary_sections([usize::MAX, 2, 0], 2), None);
}

#[test]
fn layers_have_the_sizes_of_the_model() {
    let config = PaddleOcrVlModelConfig::for_version(PaddleOcrVersion::V1_5);
    assert_eq!(config, PaddleOcrVlModelConfig::new());
    assert_eq!(config.projector(), PaddleOcrProjectorConfig::new());
    let projector = config.projector().layers();
    assert_eq!((projector[0].input, projector[0].output), (4608, 4608));
    assert_eq!((projector[1].input, projector[1].output), (4608, 1024));
    assert_eq!(
        config.lm_head(),
        LinearShape {
            input: 1024,
            output: 103424,
            bias: false
        }
    );
    let attention = PaddleOcrTextAttentionConfig::new().plan();
    assert_eq!(attention.num_kv_groups, 8);
    assert_eq!(attention.q_proj.output, 2048);
    assert_eq!(attention.k_proj.output, 256);
    assert_eq!(attention.v_proj.output, 256);
    assert_eq!(attention.o_proj.output, 1024);
    let text = PaddleOcrTextMLPConfig::new().layers();
    assert_eq!((text[0].output, text[1].output, text[2].output), (3072, 3072, 1024));
    let vision = PaddleOcrVisionMLPConfig::new().layers();
    assert_eq!((vision[0].output, vision[1].output), (4304, 1152));
    assert_eq!(PaddleOcrVisionEmbeddingsConfig::new().num_positions(), 729);
    let head = MLPPredictionHeadConfig::new(256, 64, 4).layers();
    let sizes: Vec<(usize, usize)> = head.iter().map(|l| (l.input, l.output)).collect();
    assert_eq!(sizes, vec![(256, 64), (64, 64), (64, 4)]);
    let sampling = MultiscaleDeformableAttentionConfig::new().sampling_layers();
    assert_eq!((sampling[0].output, sampling[1].output), (192, 96));
    assert_eq!(DecoderSelfAttentionConfig::new().head_dim(), 32);
    assert_eq!(ReadingOrderSelfAttentionConfig::new().attention_head_size(), 64);
    assert_eq!(GlobalPointerConfig::new().dense().output, 128);
}

#[test]
fn scale_heads_reach_the_least_stride() {
    assert_eq!(head_length(8, 8), 1);
    assert_eq!(head_length(16, 8), 1);
    assert_eq!(head_length(32, 8), 2);
    assert_eq!(head_length(4, 0), 3);
    assert_eq!(level_order([32, 8, 16]), vec![1, 2, 0]);
    assert_eq!(level_order([8, 8, 4]), vec![2, 0, 1]);
    let block = BlockChannels {
        in_ch: 128,
        mid_ch: 96,
        out_ch: 512,
        layer_num: 6,
    };
    assert_eq!(block.gathering(), [704, 256, 512]);
    assert_eq!((block.layer_input(0), block.layer_input(3)), (128, 96));
}

#[test]
fn vision_weights_stay_in_single_precision() {
    let adapter = PyTorchToBurnDTypeAdapter::new(DType::BF16);
    let path = |names: &[&str]| -> Option<Vec<String>> {
        Some(names.iter().map(|n| (*n).to_owned()).collect())
    };
    assert_eq!(
        adapter.target_dtype_for_path(&path(&["vision", "encoder"])),
        DType::F32
    );
    assert_eq!(
        adapter.target_dtype_for_path(&path(&["a", "mlp_AR"])),
        DType::F32
    );
    assert_eq!(
        adapter.target_dtype_for_path(&path(&["text_model", "visions"])),
        DType::BF16
    );
    assert_eq!(adapter.target_dtype_for_path(&None), DType::BF16);
    assert_eq!(
        adapter.conversion(&path(&["vision"]), DType::F32),
        None
    );
    assert_eq!(
        adapter.conversion(&path(&["lm_head"]), DType::F32),
        Some(DType::BF16)
    );
    let mut all = PyTorchToBurnDTypeAdapter::new(DType::F16);
    all.keep_vision_projector_f32 = false;
    assert_eq!(
        all.target_dtype_for_path(&path(&["projector"])),
        DType::F16
    );
    assert_eq!(
        LayoutDTypeAdapter::new(DType::F16).conversion(DType::F32),
        Some(DType::F16)
    );
    assert_eq!(LayoutDTypeAdapter::new(DType::F16).conversion(DType::F16), None);
    assert_eq!(
        PyTorchToBurnF32Adapter::default().conversion(DType::BF16),
        Some(DType::F32)
    );
    assert_eq!(PyTorchToBurnF32Adapter.conversion(DType::F32), None);
}

#[test]
fn tensor_names_are_rewritten_in_order() {
    let rewrite = |rules: &[[&'static str; 2]], key: &str| -> String {
        let mut name = key.to_owned();
        for [pattern, replacement] in rules {
            name = regex::Regex::new(pattern)
                .unwrap()
                .replace_all(&name, *replacement)
                .into_owned();
        }
        name
    };
    assert_eq!(
        rewrite(&VL_KEY_REMAPPINGS, "visual.vision_model.encoder.layers.0.layer_norm1.weight"),
        "vision.encoder.layers.0.layer_norm1.gamma"
    );
    assert_eq!(
        rewrite(&VL_KEY_REMAPPINGS, "mlp_AR.pre_norm.bias"),
        "projector.pre_norm.beta"
    );
    assert_eq!(
        rewrite(&LAYOUT_V2_KEY_REMAPPINGS, "model.backbone.model.encoder.stages.2.blocks.0.layers.1.conv1.convolution.weight"),
        "backbone.stage3.blocks.0.layers.1.Light.conv1.conv.weight"
    );
    assert_eq!(
        rewrite(&LAYOUT_V3_KEY_REMAPPINGS, "model.encoder.encoder.0.layers.0.self_attn.out_proj.bias"),
        "encoder.aifi.0.layers.0.o_proj.bias"
    );
}
