//! Settings of the layout models.

use crate::float::{F32, F64};
use crate::precision::{denom, numer};
use crate::rounding;
use vstd::arithmetic::power2::lemma2_to64;
use vstd::prelude::*;

verus! {

/// Bits of the confidence that is asked of every class.
pub const CLASS_THRESHOLDS: [u32; 25] = [
    0x3f00_0000,
    0x3f00_0000,
    0x3f00_0000,
    0x3f00_0000,
    0x3f00_0000,
    0x3ecc_cccd,
    0x3ecc_cccd,
    0x3f00_0000,
    0x3f00_0000,
    0x3f00_0000,
    0x3f00_0000,
    0x3f00_0000,
    0x3f00_0000,
    0x3f00_0000,
    0x3f00_0000,
    0x3ecc_cccd,
    0x3f00_0000,
    0x3ecc_cccd,
    0x3f00_0000,
    0x3f00_0000,
    0x3ee6_6666,
    0x3f00_0000,
    0x3ecc_cccd,
    0x3ecc_cccd,
    0x3f00_0000,
];

/// Group of every class for the reading-order model.
pub const CLASS_ORDER: [usize; 25] = [
    4,
    2,
    14,
    1,
    5,
    7,
    8,
    6,
    11,
    11,
    9,
    13,
    10,
    10,
    1,
    2,
    3,
    0,
    2,
    2,
    12,
    1,
    2,
    15,
    6,
];

/// Settings of the reading-order model.
#[derive(Clone, Copy, Debug, PartialEq, Eq, Structural)]
pub struct ReadingOrderConfig {
    pub hidden_size: usize,
    pub num_attention_heads: usize,
    pub attention_probs_dropout_prob: F64,
    pub has_relative_attention_bias: bool,
    pub has_spatial_attention_bias: bool,
    pub layer_norm_eps: F64,
    pub hidden_dropout_prob: F64,
    pub intermediate_size: usize,
    pub num_hidden_layers: usize,
    pub rel_pos_bins: usize,
    pub max_rel_pos: usize,
    pub rel_2d_pos_bins: usize,
    pub max_rel_2d_pos: usize,
    pub max_position_embeddings: usize,
    pub max_2d_position_embeddings: usize,
    pub type_vocab_size: usize,
    pub vocab_size: usize,
    pub initializer_range: F64,
    pub start_token_id: usize,
    pub pad_token_id: usize,
    pub end_token_id: usize,
    pub pred_token_id: usize,
    pub coordinate_size: usize,
    pub shape_size: usize,
    pub num_classes: usize,
    pub relation_bias_embed_dim: usize,
    pub relation_bias_theta: F64,
    pub relation_bias_scale: F64,
    pub relation_box_dim_min: F64,
    pub global_pointer_head_size: usize,
    pub gp_dropout_value: F64,
}

impl ReadingOrderConfig {
    pub open spec fn preset() -> ReadingOrderConfig {
        ReadingOrderConfig {
            hidden_size: 512,
            num_attention_heads: 8,
            attention_probs_dropout_prob: F64 { bits: 0x3fb9_9999_9999_999a },
            has_relative_attention_bias: false,
            has_spatial_attention_bias: true,
            layer_norm_eps: F64 { bits: 0x3ee4_f8b5_88e3_68f1 },
            hidden_dropout_prob: F64 { bits: 0x3fb9_9999_9999_999a },
            intermediate_size: 2048,
            num_hidden_layers: 6,
            rel_pos_bins: 32,
            max_rel_pos: 128,
            rel_2d_pos_bins: 64,
            max_rel_2d_pos: 256,
            max_position_embeddings: 514,
            max_2d_position_embeddings: 1024,
            type_vocab_size: 1,
            vocab_size: 4,
            initializer_range: F64 { bits: 0x3f84_7ae1_47ae_147b },
            start_token_id: 0,
            pad_token_id: 1,
            end_token_id: 2,
            pred_token_id: 3,
            coordinate_size: 171,
            shape_size: 170,
            num_classes: 20,
            relation_bias_embed_dim: 16,
            relation_bias_theta: F64 { bits: 0x40c3_8800_0000_0000 },
            relation_bias_scale: F64 { bits: 0x4059_0000_0000_0000 },
            relation_box_dim_min: F64 { bits: 0x3f50_624d_d2f1_a9fc },
            global_pointer_head_size: 64,
            gp_dropout_value: F64 { bits: 0x0000_0000_0000_0000 },
        }
    }

    pub fn new() -> (config: Self)
        ensures
            config == ReadingOrderConfig::preset(),
    {
        ReadingOrderConfig {
            hidden_size: 512,
            num_attention_heads: 8,
            attention_probs_dropout_prob: F64 { bits: 0x3fb9_9999_9999_999a },
            has_relative_attention_bias: false,
            has_spatial_attention_bias: true,
            layer_norm_eps: F64 { bits: 0x3ee4_f8b5_88e3_68f1 },
            hidden_dropout_prob: F64 { bits: 0x3fb9_9999_9999_999a },
            intermediate_size: 2048,
            num_hidden_layers: 6,
            rel_pos_bins: 32,
            max_rel_pos: 128,
            rel_2d_pos_bins: 64,
            max_rel_2d_pos: 256,
            max_position_embeddings: 514,
            max_2d_position_embeddings: 1024,
            type_vocab_size: 1,
            vocab_size: 4,
            initializer_range: F64 { bits: 0x3f84_7ae1_47ae_147b },
            start_token_id: 0,
            pad_token_id: 1,
            end_token_id: 2,
            pred_token_id: 3,
            coordinate_size: 171,
            shape_size: 170,
            num_classes: 20,
            relation_bias_embed_dim: 16,
            relation_bias_theta: F64 { bits: 0x40c3_8800_0000_0000 },
            relation_bias_scale: F64 { bits: 0x4059_0000_0000_0000 },
            relation_box_dim_min: F64 { bits: 0x3f50_624d_d2f1_a9fc },
            global_pointer_head_size: 64,
            gp_dropout_value: F64 { bits: 0x0000_0000_0000_0000 },
        }
    }

    /// Numbers that describe where a token stands: four coordinates and two sides.
    pub fn spatial_embed_dim(&self) -> (dim: usize)
        requires
            4 * self.coordinate_size + 2 * self.shape_size <= usize::MAX,
        ensures
            dim == 4 * self.coordinate_size + 2 * self.shape_size,
    {
        4 * self.coordinate_size + 2 * self.shape_size
    }
}

/// Confidence of every class where none is set.
pub open spec fn preset_thresholds() -> Seq<F32> {
    CLASS_THRESHOLDS@.map_values(|bits: u32| F32 { bits })
}

pub open spec fn floats(list: Option<Vec<F32>>) -> Seq<F32> {
    match list {
        Some(list) => list@,
        None => preset_thresholds(),
    }
}

pub open spec fn three(list: Option<[usize; 3]>, a: usize, b: usize, c: usize) -> Seq<usize> {
    match list {
        Some(list) => list@,
        None => seq![a, b, c],
    }
}

fn three_or(list: Option<[usize; 3]>, a: usize, b: usize, c: usize) -> (found: [usize; 3])
    ensures
        found@ == three(list, a, b, c),
{
    match list {
        Some(list) => list,
        None => {
            let found: [usize; 3] = [a, b, c];
            assert(found@ == seq![a, b, c]);
            found
        },
    }
}

fn copied(list: &Vec<usize>) -> (copy: Vec<usize>)
    ensures
        copy@ == list@,
{
    let mut copy: Vec<usize> = Vec::new();
    let mut i: usize = 0;
    while i < list.len()
        invariant
            i <= list@.len(),
            copy@ == list@.take(i as int),
        decreases list.len() - i,
    {
        copy.push(list[i]);
        i = i + 1;
        assert(copy@ == list@.take(i as int));
    }
    assert(list@.take(i as int) == list@);
    copy
}

/// Settings of the second layout model.
#[derive(Debug)]
pub struct PPDocLayoutV2Config {
    pub initializer_range: F64,
    pub layer_norm_eps: F64,
    pub batch_norm_eps: F64,
    pub freeze_backbone_batch_norms: bool,
    pub encoder_hidden_dim: usize,
    pub encoder_in_channels: Option<[usize; 3]>,
    pub feat_strides: Option<[usize; 3]>,
    pub encoder_layers: usize,
    pub encoder_ffn_dim: usize,
    pub encoder_attention_heads: usize,
    pub dropout: F64,
    pub activation_dropout: F64,
    pub encode_proj_layers: Option<Vec<usize>>,
    pub positional_encoding_temperature: F64,
    pub hidden_expansion: F64,
    pub d_model: usize,
    pub num_queries: usize,
    pub decoder_in_channels: Option<[usize; 3]>,
    pub decoder_ffn_dim: usize,
    pub num_feature_levels: usize,
    pub decoder_n_points: usize,
    pub decoder_layers: usize,
    pub decoder_attention_heads: usize,
    pub attention_dropout: F64,
    pub num_labels: usize,
    pub class_thresholds: Option<Vec<F32>>,
    pub class_order: Option<Vec<usize>>,
    pub reading_order_config: Option<ReadingOrderConfig>,
}

impl PPDocLayoutV2Config {
    pub open spec fn preset() -> PPDocLayoutV2Config {
        PPDocLayoutV2Config {
            initializer_range: F64 { bits: 0x3f84_7ae1_47ae_147b },
            layer_norm_eps: F64 { bits: 0x3ee4_f8b5_88e3_68f1 },
            batch_norm_eps: F64 { bits: 0x3ee4_f8b5_88e3_68f1 },
            freeze_backbone_batch_norms: true,
            encoder_hidden_dim: 256,
            encoder_in_channels: None,
            feat_strides: None,
            encoder_layers: 1,
            encoder_ffn_dim: 1024,
            encoder_attention_heads: 8,
            dropout: F64 { bits: 0x0000_0000_0000_0000 },
            activation_dropout: F64 { bits: 0x0000_0000_0000_0000 },
            encode_proj_layers: None,
            positional_encoding_temperature: F64 { bits: 0x40c3_8800_0000_0000 },
            hidden_expansion: F64 { bits: 0x3ff0_0000_0000_0000 },
            d_model: 256,
            num_queries: 300,
            decoder_in_channels: None,
            decoder_ffn_dim: 1024,
            num_feature_levels: 3,
            decoder_n_points: 4,
            decoder_layers: 6,
            decoder_attention_heads: 8,
            attention_dropout: F64 { bits: 0x0000_0000_0000_0000 },
            num_labels: 25,
            class_thresholds: None,
            class_order: None,
            reading_order_config: None,
        }
    }

    pub fn new() -> (config: Self)
        ensures
            config == PPDocLayoutV2Config::preset(),
    {
        PPDocLayoutV2Config {
            initializer_range: F64 { bits: 0x3f84_7ae1_47ae_147b },
            layer_norm_eps: F64 { bits: 0x3ee4_f8b5_88e3_68f1 },
            batch_norm_eps: F64 { bits: 0x3ee4_f8b5_88e3_68f1 },
            freeze_backbone_batch_norms: true,
            encoder_hidden_dim: 256,
            encoder_in_channels: None,
            feat_strides: None,
            encoder_layers: 1,
            encoder_ffn_dim: 1024,
            encoder_attention_heads: 8,
            dropout: F64 { bits: 0x0000_0000_0000_0000 },
            activation_dropout: F64 { bits: 0x0000_0000_0000_0000 },
            encode_proj_layers: None,
            positional_encoding_temperature: F64 { bits: 0x40c3_8800_0000_0000 },
            hidden_expansion: F64 { bits: 0x3ff0_0000_0000_0000 },
            d_model: 256,
            num_queries: 300,
            decoder_in_channels: None,
            decoder_ffn_dim: 1024,
            num_feature_levels: 3,
            decoder_n_points: 4,
            decoder_layers: 6,
            decoder_attention_heads: 8,
            attention_dropout: F64 { bits: 0x0000_0000_0000_0000 },
            num_labels: 25,
            class_thresholds: None,
            class_order: None,
            reading_order_config: None,
        }
    }

    pub fn default_class_thresholds() -> (thresholds: Vec<F32>)
        ensures
            thresholds@ == preset_thresholds(),
    {
        let mut thresholds: Vec<F32> = Vec::new();
        let mut i: usize = 0;
        while i < 25
            invariant
                i <= 25,
                thresholds@ == preset_thresholds().take(i as int),
            decreases 25 - i,
        {
            thresholds.push(F32 { bits: CLASS_THRESHOLDS[i] });
            i = i + 1;
            assert(thresholds@ == preset_thresholds().take(i as int));
        }
        assert(preset_thresholds().take(25) == preset_thresholds());
        thresholds
    }

    pub fn default_class_order() -> (order: Vec<usize>)
        ensures
            order@ == CLASS_ORDER@,
    {
        let mut order: Vec<usize> = Vec::new();
        let mut i: usize = 0;
        while i < 25
            invariant
                i <= 25,
                order@ == CLASS_ORDER@.take(i as int),
            decreases 25 - i,
        {
            order.push(CLASS_ORDER[i]);
            i = i + 1;
            assert(order@ == CLASS_ORDER@.take(i as int));
        }
        assert(CLASS_ORDER@.take(25) == CLASS_ORDER@);
        order
    }

    pub fn default_encode_proj_layers() -> (layers: Vec<usize>)
        ensures
            layers@ == seq![2usize],
    {
        let mut layers: Vec<usize> = Vec::new();
        layers.push(2);
        assert(layers@ == seq![2usize]);
        layers
    }

    /// The thresholds that are set, or those of the model.
    pub fn get_class_thresholds(&self) -> (thresholds: Vec<F32>)
        ensures
            thresholds@ == floats(self.class_thresholds),
    {
        match &self.class_thresholds {
            None => Self::default_class_thresholds(),
            Some(list) => {
                let mut copy: Vec<F32> = Vec::new();
                let mut i: usize = 0;
                while i < list.len()
                    invariant
                        i <= list@.len(),
                        copy@ == list@.take(i as int),
                    decreases list.len() - i,
                {
                    copy.push(list[i]);
                    i = i + 1;
                    assert(copy@ == list@.take(i as int));
                }
                assert(list@.take(i as int) == list@);
                copy
            },
        }
    }

    /// The groups that are set, or those of the model.
    pub fn get_class_order(&self) -> (order: Vec<usize>)
        ensures
            order@ == match self.class_order {
                Some(list) => list@,
                None => CLASS_ORDER@,
            },
    {
        match &self.class_order {
            None => Self::default_class_order(),
            Some(list) => copied(list),
        }
    }

    /// The levels that are set, or the coarsest.
    pub fn get_encode_proj_layers(&self) -> (layers: Vec<usize>)
        ensures
            layers@ == match self.encode_proj_layers {
                Some(list) => list@,
                None => seq![2usize],
            },
    {
        match &self.encode_proj_layers {
            None => Self::default_encode_proj_layers(),
            Some(list) => copied(list),
        }
    }

    pub fn get_encoder_in_channels(&self) -> (channels: [usize; 3])
        ensures
            channels@ == three(self.encoder_in_channels, 512, 1024, 2048),
    {
        three_or(self.encoder_in_channels, 512, 1024, 2048)
    }

    pub fn get_feat_strides(&self) -> (strides: [usize; 3])
        ensures
            strides@ == three(self.feat_strides, 8, 16, 32),
    {
        three_or(self.feat_strides, 8, 16, 32)
    }

    pub fn get_decoder_in_channels(&self) -> (channels: [usize; 3])
        ensures
            channels@ == three(self.decoder_in_channels, 256, 256, 256),
    {
        three_or(self.decoder_in_channels, 256, 256, 256)
    }

    /// The settings of the reading-order model that are set, or its own.
    pub fn get_reading_order_config(&self) -> (config: ReadingOrderConfig)
        ensures
            config == match self.reading_order_config {
                Some(config) => config,
                None => ReadingOrderConfig::preset(),
            },
    {
        match self.reading_order_config {
            Some(config) => config,
            None => ReadingOrderConfig::new(),
        }
    }
}

/// Every class of the model has a threshold, and a group that the reading-order model
/// knows.
pub proof fn law_every_class_is_ordered(class: int)
    requires
        0 <= class < PPDocLayoutV2Config::preset().num_labels,
    ensures
        class < preset_thresholds().len(),
        preset_thresholds()[class].is_number(),
        class < CLASS_ORDER@.len(),
        CLASS_ORDER@[class] < ReadingOrderConfig::preset().num_classes,
{
}

/// Settings of the third layout model.
#[derive(Clone, Copy, Debug, PartialEq, Eq)]
pub struct PPDocLayoutV3Config {
    pub layer_norm_eps: F64,
    pub batch_norm_eps: F64,
    pub encoder_hidden_dim: usize,
    pub encoder_in_channels: Option<[usize; 3]>,
    pub encoder_layers: usize,
    pub encoder_ffn_dim: usize,
    pub encoder_attention_heads: usize,
    pub positional_encoding_temperature: F64,
    pub hidden_expansion: F64,
    pub decoder_in_channels: Option<[usize; 3]>,
    pub d_model: usize,
    pub num_queries: usize,
    pub decoder_ffn_dim: usize,
    pub num_feature_levels: usize,
    pub decoder_n_points: usize,
    pub decoder_layers: usize,
    pub decoder_attention_heads: usize,
    pub num_labels: usize,
    pub global_pointer_head_size: usize,
    pub num_prototypes: usize,
    pub mask_feature_channels_in: usize,
    pub mask_feature_channels_out: usize,
    pub x4_feat_dim: usize,
    pub mask_enhanced: bool,
}

impl PPDocLayoutV3Config {
    pub open spec fn preset() -> PPDocLayoutV3Config {
        PPDocLayoutV3Config {
            layer_norm_eps: F64 { bits: 0x3ee4_f8b5_88e3_68f1 },
            batch_norm_eps: F64 { bits: 0x3ee4_f8b5_88e3_68f1 },
            encoder_hidden_dim: 256,
            encoder_in_channels: None,
            encoder_layers: 1,
            encoder_ffn_dim: 1024,
            encoder_attention_heads: 8,
            positional_encoding_temperature: F64 { bits: 0x40c3_8800_0000_0000 },
            hidden_expansion: F64 { bits: 0x3ff0_0000_0000_0000 },
            decoder_in_channels: None,
            d_model: 256,
            num_queries: 300,
            decoder_ffn_dim: 1024,
            num_feature_levels: 3,
            decoder_n_points: 4,
            decoder_layers: 6,
            decoder_attention_heads: 8,
            num_labels: 25,
            global_pointer_head_size: 64,
            num_prototypes: 32,
            mask_feature_channels_in: 64,
            mask_feature_channels_out: 64,
            x4_feat_dim: 128,
            mask_enhanced: true,
        }
    }

    pub fn new() -> (config: Self)
        ensures
            config == PPDocLayoutV3Config::preset(),
    {
        PPDocLayoutV3Config {
            layer_norm_eps: F64 { bits: 0x3ee4_f8b5_88e3_68f1 },
            batch_norm_eps: F64 { bits: 0x3ee4_f8b5_88e3_68f1 },
            encoder_hidden_dim: 256,
            encoder_in_channels: None,
            encoder_layers: 1,
            encoder_ffn_dim: 1024,
            encoder_attention_heads: 8,
            positional_encoding_temperature: F64 { bits: 0x40c3_8800_0000_0000 },
            hidden_expansion: F64 { bits: 0x3ff0_0000_0000_0000 },
            decoder_in_channels: None,
            d_model: 256,
            num_queries: 300,
            decoder_ffn_dim: 1024,
            num_feature_levels: 3,
            decoder_n_points: 4,
            decoder_layers: 6,
            decoder_attention_heads: 8,
            num_labels: 25,
            global_pointer_head_size: 64,
            num_prototypes: 32,
            mask_feature_channels_in: 64,
            mask_feature_channels_out: 64,
            x4_feat_dim: 128,
            mask_enhanced: true,
        }
    }

    pub fn get_encoder_in_channels(&self) -> (channels: [usize; 3])
        ensures
            channels@ == three(self.encoder_in_channels, 512, 1024, 2048),
    {
        three_or(self.encoder_in_channels, 512, 1024, 2048)
    }

    pub fn get_decoder_in_channels(&self) -> (channels: [usize; 3])
        ensures
            channels@ == three(self.decoder_in_channels, 256, 256, 256),
    {
        three_or(self.decoder_in_channels, 256, 256, 256)
    }
}

/// The classes belong to these groups of the reading-order model.
pub proof fn law_classes_have_their_groups(class: int)
    requires
        0 <= class < 25,
    ensures
        CLASS_ORDER@[class] == 0 <==> class == 17,
        CLASS_ORDER@[class] == 1 <==> class == 3 || class == 14 || class == 21,
        CLASS_ORDER@[class] == 2 <==> class == 1 || class == 15 || class == 18 || class == 19 || class == 22,
        CLASS_ORDER@[class] == 3 <==> class == 16,
        CLASS_ORDER@[class] == 4 <==> class == 0,
        CLASS_ORDER@[class] == 5 <==> class == 4,
        CLASS_ORDER@[class] == 6 <==> class == 7 || class == 24,
        CLASS_ORDER@[class] == 7 <==> class == 5,
        CLASS_ORDER@[class] == 8 <==> class == 6,
        CLASS_ORDER@[class] == 9 <==> class == 10,
        CLASS_ORDER@[class] == 10 <==> class == 12 || class == 13,
        CLASS_ORDER@[class] == 11 <==> class == 8 || class == 9,
        CLASS_ORDER@[class] == 12 <==> class == 20,
        CLASS_ORDER@[class] == 13 <==> class == 11,
        CLASS_ORDER@[class] == 14 <==> class == 2,
        CLASS_ORDER@[class] == 15 <==> class == 23,
{
}

/// A confidence of two fifths is asked of formulas, titles and texts, of nine twentieths
/// of seals, and of one half of every other class, each as the nearest single.
pub proof fn law_classes_have_their_thresholds(class: int)
    requires
        0 <= class < 25,
    ensures
        ({
            let x = preset_thresholds()[class];
            let n = numer(x.size());
            let d = denom(x.size());
            &&& !x.is_negative()
            &&& if class == 5 || class == 6 || class == 15 || class == 17 || class == 22 || class
                == 23 {
                0xff_ffff * 2 * d <= 0x100_0000 * 5 * n <= 0x100_0001 * 2 * d
            } else if class == 20 {
                0xff_ffff * 9 * d <= 0x100_0000 * 20 * n <= 0x100_0001 * 9 * d
            } else {
                2 * n == d
            }
        }),
{
    lemma2_to64();
    let x = preset_thresholds()[class];
    assert(x.bits == CLASS_THRESHOLDS@[class]);
    if class == 5 || class == 6 || class == 15 || class == 17 || class == 22 || class == 23 {
        assert(x.bits == 0x3ecc_cccd);
        assert(x.size().m == 0xcc_cccd && x.size().e == -25);
        assert(rounding::up(-25) == 0 && rounding::down(-25) == 25);
        assert(numer(x.size()) == 0xcc_cccd && denom(x.size()) == 0x200_0000);
    } else if class == 20 {
        assert(x.bits == 0x3ee6_6666);
        assert(x.size().m == 0xe6_6666 && x.size().e == -25);
        assert(rounding::up(-25) == 0 && rounding::down(-25) == 25);
        assert(numer(x.size()) == 0xe6_6666 && denom(x.size()) == 0x200_0000);
    } else {
        assert(x.bits == 0x3f00_0000);
        assert(x.size().m == 0x80_0000 && x.size().e == -24);
        assert(rounding::up(-24) == 0 && rounding::down(-24) == 24);
        assert(numer(x.size()) == 0x80_0000 && denom(x.size()) == 0x100_0000);
    }
}

/// What is set counts, and what is not set is what the model comes with.
pub proof fn law_settings_count_where_they_are_set(
    list: Option<[usize; 3]>,
    own: Option<Vec<F32>>,
    a: usize,
    b: usize,
    c: usize,
)
    ensures
        list matches Some(set) ==> three(list, a, b, c) == set@,
        list is None ==> three(list, a, b, c)[0] == a && three(list, a, b, c)[1] == b && three(
            list,
            a,
            b,
            c,
        )[2] == c && three(list, a, b, c).len() == 3,
        own matches Some(set) ==> floats(own) == set@,
        own is None ==> floats(own) == preset_thresholds(),
{
}

} // verus!
