//! Sizes of the layers of the models.

use crate::ordering;
use crate::version::PaddleOcrVersion;
use vstd::arithmetic::div_mod::*;
use vstd::arithmetic::power2::*;
use vstd::prelude::*;

verus! {

/// A linear layer.
#[derive(Clone, Copy, Debug, PartialEq, Eq, Structural)]
pub struct LinearShape {
    pub input: usize,
    pub output: usize,
    pub bias: bool,
}

/// Sizes of the recognition model.
#[derive(Clone, Copy, Debug, PartialEq, Eq, Structural)]
pub struct PaddleOcrVlModelConfig {
    pub vision_hidden_size: usize,
    pub text_hidden_size: usize,
    pub vocab_size: usize,
    pub spatial_merge_size: usize,
    pub image_token_id: usize,
    pub vision_start_token_id: usize,
    pub eos_token_id: usize,
}

impl PaddleOcrVlModelConfig {
    pub open spec fn preset() -> PaddleOcrVlModelConfig {
        PaddleOcrVlModelConfig {
            vision_hidden_size: 1152,
            text_hidden_size: 1024,
            vocab_size: 103424,
            spatial_merge_size: 2,
            image_token_id: 100295,
            vision_start_token_id: 101305,
            eos_token_id: 2,
        }
    }

    pub fn new() -> (config: Self)
        ensures
            config == PaddleOcrVlModelConfig::preset(),
    {
        PaddleOcrVlModelConfig {
            vision_hidden_size: 1152,
            text_hidden_size: 1024,
            vocab_size: 103424,
            spatial_merge_size: 2,
            image_token_id: 100295,
            vision_start_token_id: 101305,
            eos_token_id: 2,
        }
    }

    /// All versions share one module graph; they differ in their weights, their
    /// tokenizer and their image processor.
    pub fn for_version(_version: PaddleOcrVersion) -> (config: Self)
        ensures
            config == PaddleOcrVlModelConfig::preset(),
    {
        PaddleOcrVlModelConfig::new()
    }

    pub open spec fn projector_of(self) -> PaddleOcrProjectorConfig {
        PaddleOcrProjectorConfig {
            vision_hidden_size: self.vision_hidden_size,
            text_hidden_size: self.text_hidden_size,
            spatial_merge_size: self.spatial_merge_size,
        }
    }

    /// The projector between the vision model and the text model.
    pub fn projector(&self) -> (projector: PaddleOcrProjectorConfig)
        ensures
            projector == self.projector_of(),
    {
        PaddleOcrProjectorConfig {
            vision_hidden_size: self.vision_hidden_size,
            text_hidden_size: self.text_hidden_size,
            spatial_merge_size: self.spatial_merge_size,
        }
    }

    /// The layer that scores the vocabulary.
    pub fn lm_head(&self) -> (layer: LinearShape)
        ensures
            layer == (LinearShape {
                input: self.text_hidden_size,
                output: self.vocab_size,
                bias: false,
            }),
    {
        LinearShape { input: self.text_hidden_size, output: self.vocab_size, bias: false }
    }
}

/// Sizes of the projector.
#[derive(Clone, Copy, Debug, PartialEq, Eq, Structural)]
pub struct PaddleOcrProjectorConfig {
    pub vision_hidden_size: usize,
    pub text_hidden_size: usize,
    pub spatial_merge_size: usize,
}

impl PaddleOcrProjectorConfig {
    pub fn new() -> (config: Self)
        ensures
            config == (PaddleOcrProjectorConfig {
                vision_hidden_size: 1152,
                text_hidden_size: 1024,
                spatial_merge_size: 2,
            }),
    {
        PaddleOcrProjectorConfig {
            vision_hidden_size: 1152,
            text_hidden_size: 1024,
            spatial_merge_size: 2,
        }
    }

    /// Numbers of one merged block of patches.
    pub open spec fn merged(self) -> int {
        self.spatial_merge_size * self.spatial_merge_size * self.vision_hidden_size
    }

    /// The two layers of the projector.
    pub fn layers(&self) -> (layers: [LinearShape; 2])
        requires
            self.spatial_merge_size * self.spatial_merge_size <= usize::MAX,
            self.merged() <= usize::MAX,
        ensures
            layers@[0] == (LinearShape {
                input: self.merged() as usize,
                output: self.merged() as usize,
                bias: true,
            }),
            layers@[1] == (LinearShape {
                input: self.merged() as usize,
                output: self.text_hidden_size,
                bias: true,
            }),
    {
        let merged: usize = self.spatial_merge_size * self.spatial_merge_size
            * self.vision_hidden_size;
        [
            LinearShape { input: merged, output: merged, bias: true },
            LinearShape { input: merged, output: self.text_hidden_size, bias: true },
        ]
    }
}

/// Sizes of the layers behind the attention of the text model.
#[derive(Clone, Copy, Debug, PartialEq, Eq, Structural)]
pub struct PaddleOcrTextMLPConfig {
    pub hidden_size: usize,
    pub intermediate_size: usize,
    pub use_bias: bool,
}

impl PaddleOcrTextMLPConfig {
    pub fn new() -> (config: Self)
        ensures
            config == (PaddleOcrTextMLPConfig {
                hidden_size: 1024,
                intermediate_size: 3072,
                use_bias: false,
            }),
    {
        PaddleOcrTextMLPConfig { hidden_size: 1024, intermediate_size: 3072, use_bias: false }
    }

    /// The two ways up, of which the first opens the second, and the way down.
    pub fn layers(&self) -> (layers: [LinearShape; 3])
        ensures
            layers@[0] == (LinearShape {
                input: self.hidden_size,
                output: self.intermediate_size,
                bias: self.use_bias,
            }),
            layers@[1] == layers@[0],
            layers@[2] == (LinearShape {
                input: self.intermediate_size,
                output: self.hidden_size,
                bias: self.use_bias,
            }),
    {
        let up = LinearShape {
            input: self.hidden_size,
            output: self.intermediate_size,
            bias: self.use_bias,
        };
        let down = LinearShape {
            input: self.intermediate_size,
            output: self.hidden_size,
            bias: self.use_bias,
        };
        [up, up, down]
    }
}

/// Sizes of the attention of the text model.
#[derive(Clone, Copy, Debug, PartialEq, Eq, Structural)]
pub struct PaddleOcrTextAttentionConfig {
    pub hidden_size: usize,
    pub num_attention_heads: usize,
    pub num_key_value_heads: usize,
    pub head_dim: usize,
    pub use_bias: bool,
}

/// Layers of an attention whose queries share keys and values.
#[derive(Clone, Copy, Debug, PartialEq, Eq, Structural)]
pub struct GroupedAttentionPlan {
    /// Query heads for every head of keys and values.
    pub num_kv_groups: usize,
    pub q_proj: LinearShape,
    pub k_proj: LinearShape,
    pub v_proj: LinearShape,
    pub o_proj: LinearShape,
}

impl PaddleOcrTextAttentionConfig {
    pub fn new() -> (config: Self)
        ensures
            config == (PaddleOcrTextAttentionConfig {
                hidden_size: 1024,
                num_attention_heads: 16,
                num_key_value_heads: 2,
                head_dim: 128,
                use_bias: false,
            }),
    {
        PaddleOcrTextAttentionConfig {
            hidden_size: 1024,
            num_attention_heads: 16,
            num_key_value_heads: 2,
            head_dim: 128,
            use_bias: false,
        }
    }

    pub open spec fn layer(self, input: int, output: int) -> LinearShape {
        LinearShape { input: input as usize, output: output as usize, bias: self.use_bias }
    }

    pub fn plan(&self) -> (plan: GroupedAttentionPlan)
        requires
            self.num_key_value_heads > 0,
            self.num_attention_heads * self.head_dim <= usize::MAX,
            self.num_key_value_heads * self.head_dim <= usize::MAX,
        ensures
            plan.num_kv_groups == self.num_attention_heads / self.num_key_value_heads,
            plan.q_proj == self.layer(
                self.hidden_size as int,
                self.num_attention_heads * self.head_dim,
            ),
            plan.k_proj == self.layer(
                self.hidden_size as int,
                self.num_key_value_heads * self.head_dim,
            ),
            plan.v_proj == plan.k_proj,
            plan.o_proj == self.layer(
                self.num_attention_heads * self.head_dim,
                self.hidden_size as int,
            ),
    {
        let queries: usize = self.num_attention_heads * self.head_dim;
        let keys: usize = self.num_key_value_heads * self.head_dim;
        let to_keys = LinearShape { input: self.hidden_size, output: keys, bias: self.use_bias };
        GroupedAttentionPlan {
            num_kv_groups: self.num_attention_heads / self.num_key_value_heads,
            q_proj: LinearShape { input: self.hidden_size, output: queries, bias: self.use_bias },
            k_proj: to_keys,
            v_proj: to_keys,
            o_proj: LinearShape { input: queries, output: self.hidden_size, bias: self.use_bias },
        }
    }
}

/// Repeating every head of keys and values once for each query head of its group gives
/// one for every query head, where groups are whole.
pub proof fn law_groups_cover_the_queries(heads: int, kv_heads: int)
    requires
        0 < kv_heads,
        0 <= heads,
        heads % kv_heads == 0,
    ensures
        kv_heads * (heads / kv_heads) == heads,
{
    lemma_fundamental_div_mod(heads, kv_heads);
}

/// Sizes of the patch embeddings.
#[derive(Clone, Copy, Debug, PartialEq, Eq, Structural)]
pub struct PaddleOcrVisionEmbeddingsConfig {
    pub num_channels: usize,
    pub hidden_size: usize,
    pub image_size: usize,
    pub patch_size: usize,
}

impl PaddleOcrVisionEmbeddingsConfig {
    pub fn new() -> (config: Self)
        ensures
            config == (PaddleOcrVisionEmbeddingsConfig {
                num_channels: 3,
                hidden_size: 1152,
                image_size: 384,
                patch_size: 14,
            }),
    {
        PaddleOcrVisionEmbeddingsConfig {
            num_channels: 3,
            hidden_size: 1152,
            image_size: 384,
            patch_size: 14,
        }
    }

    /// Patches along a side of the images of the position table.
    pub open spec fn side(self) -> int {
        self.image_size as int / self.patch_size as int
    }

    /// Entries of the position table.
    pub fn num_positions(&self) -> (positions: usize)
        requires
            self.patch_size > 0,
            self.side() * self.side() <= usize::MAX,
        ensures
            positions == self.side() * self.side(),
    {
        let side: usize = self.image_size / self.patch_size;
        side * side
    }
}

/// Sizes of the layers behind the attention of the vision model.
#[derive(Clone, Copy, Debug, PartialEq, Eq, Structural)]
pub struct PaddleOcrVisionMLPConfig {
    pub hidden_size: usize,
    pub intermediate_size: usize,
}

impl PaddleOcrVisionMLPConfig {
    pub fn new() -> (config: Self)
        ensures
            config == (PaddleOcrVisionMLPConfig { hidden_size: 1152, intermediate_size: 4304 }),
    {
        PaddleOcrVisionMLPConfig { hidden_size: 1152, intermediate_size: 4304 }
    }

    pub fn layers(&self) -> (layers: [LinearShape; 2])
        ensures
            layers@[0] == (LinearShape {
                input: self.hidden_size,
                output: self.intermediate_size,
                bias: true,
            }),
            layers@[1] == (LinearShape {
                input: self.intermediate_size,
                output: self.hidden_size,
                bias: true,
            }),
    {
        [
            LinearShape { input: self.hidden_size, output: self.intermediate_size, bias: true },
            LinearShape { input: self.intermediate_size, output: self.hidden_size, bias: true },
        ]
    }
}

/// Sizes of a head that predicts from several layers.
#[derive(Clone, Copy, Debug, PartialEq, Eq, Structural)]
pub struct MLPPredictionHeadConfig {
    pub input_dim: usize,
    pub hidden_dim: usize,
    pub output_dim: usize,
    pub num_layers: usize,
}

impl MLPPredictionHeadConfig {
    pub fn new(input_dim: usize, hidden_dim: usize, output_dim: usize) -> (config: Self)
        ensures
            config == (MLPPredictionHeadConfig {
                input_dim,
                hidden_dim,
                output_dim,
                num_layers: 3,
            }),
    {
        MLPPredictionHeadConfig { input_dim, hidden_dim, output_dim, num_layers: 3 }
    }

    /// The layer at a place: the first takes the input, the last gives the output, and
    /// all others stay in between.
    pub open spec fn layer(self, at: int) -> LinearShape {
        LinearShape {
            input: if at == 0 {
                self.input_dim
            } else {
                self.hidden_dim
            },
            output: if at == self.num_layers - 1 {
                self.output_dim
            } else {
                self.hidden_dim
            },
            bias: true,
        }
    }

    pub fn layers(&self) -> (layers: Vec<LinearShape>)
        requires
            self.num_layers > 0,
        ensures
            layers@ == Seq::new(self.num_layers as nat, |at: int| self.layer(at)),
    {
        let ghost all = Seq::new(self.num_layers as nat, |at: int| self.layer(at));
        let mut layers: Vec<LinearShape> = Vec::new();
        let mut at: usize = 0;
        while at < self.num_layers
            invariant
                at <= self.num_layers,
                all == Seq::new(self.num_layers as nat, |at: int| self.layer(at)),
                layers@ == all.take(at as int),
            decreases self.num_layers - at,
        {
            layers.push(
                LinearShape {
                    input: if at == 0 {
                        self.input_dim
                    } else {
                        self.hidden_dim
                    },
                    output: if at == self.num_layers - 1 {
                        self.output_dim
                    } else {
                        self.hidden_dim
                    },
                    bias: true,
                },
            );
            at = at + 1;
            assert(layers@ == all.take(at as int));
        }
        assert(all.take(at as int) == all);
        layers
    }
}

/// The layers of a prediction head fit together.
pub proof fn law_head_layers_fit(config: MLPPredictionHeadConfig, at: int)
    requires
        0 <= at < config.num_layers - 1,
    ensures
        config.layer(at).output == config.layer(at + 1).input,
{
}

/// Sizes of the attention that samples feature maps.
#[derive(Clone, Copy, Debug, PartialEq, Eq, Structural)]
pub struct MultiscaleDeformableAttentionConfig {
    pub d_model: usize,
    pub n_heads: usize,
    pub n_levels: usize,
    pub n_points: usize,
}

impl MultiscaleDeformableAttentionConfig {
    pub fn new() -> (config: Self)
        ensures
            config == (MultiscaleDeformableAttentionConfig {
                d_model: 256,
                n_heads: 8,
                n_levels: 3,
                n_points: 4,
            }),
    {
        MultiscaleDeformableAttentionConfig { d_model: 256, n_heads: 8, n_levels: 3, n_points: 4 }
    }

    /// Samples of a query.
    pub open spec fn samples(self) -> int {
        self.n_heads * self.n_levels * self.n_points
    }

    /// The layers that place the samples and that weigh them.
    pub fn sampling_layers(&self) -> (layers: [LinearShape; 2])
        requires
            self.n_heads * self.n_levels <= usize::MAX,
            self.samples() * 2 <= usize::MAX,
        ensures
            layers@[0] == (LinearShape {
                input: self.d_model,
                output: (self.samples() * 2) as usize,
                bias: true,
            }),
            layers@[1] == (LinearShape {
                input: self.d_model,
                output: self.samples() as usize,
                bias: true,
            }),
    {
        let samples: usize = self.n_heads * self.n_levels * self.n_points;
        [
            LinearShape { input: self.d_model, output: samples * 2, bias: true },
            LinearShape { input: self.d_model, output: samples, bias: true },
        ]
    }
}

/// Sizes of the attention among detection queries.
#[derive(Clone, Copy, Debug, PartialEq, Eq, Structural)]
pub struct DecoderSelfAttentionConfig {
    pub d_model: usize,
    pub n_heads: usize,
}

impl DecoderSelfAttentionConfig {
    pub fn new() -> (config: Self)
        ensures
            config == (DecoderSelfAttentionConfig { d_model: 256, n_heads: 8 }),
    {
        DecoderSelfAttentionConfig { d_model: 256, n_heads: 8 }
    }

    pub fn head_dim(&self) -> (dim: usize)
        requires
            self.n_heads > 0,
        ensures
            dim == self.d_model / self.n_heads,
    {
        self.d_model / self.n_heads
    }
}

/// Sizes of the attention of the reading-order model.
#[derive(Clone, Copy, Debug, PartialEq, Eq, Structural)]
pub struct ReadingOrderSelfAttentionConfig {
    pub hidden_size: usize,
    pub num_attention_heads: usize,
}

impl ReadingOrderSelfAttentionConfig {
    pub fn new() -> (config: Self)
        ensures
            config == (ReadingOrderSelfAttentionConfig {
                hidden_size: 512,
                num_attention_heads: 8,
            }),
    {
        ReadingOrderSelfAttentionConfig { hidden_size: 512, num_attention_heads: 8 }
    }

    pub fn attention_head_size(&self) -> (size: usize)
        requires
            self.num_attention_heads > 0,
        ensures
            size == self.hidden_size / self.num_attention_heads,
    {
        self.hidden_size / self.num_attention_heads
    }
}

/// Sizes of the layer that scores pairs of elements.
#[derive(Clone, Copy, Debug, PartialEq, Eq, Structural)]
pub struct GlobalPointerConfig {
    pub hidden_size: usize,
    pub head_size: usize,
}

impl GlobalPointerConfig {
    pub fn new() -> (config: Self)
        ensures
            config == (GlobalPointerConfig { hidden_size: 512, head_size: 64 }),
    {
        GlobalPointerConfig { hidden_size: 512, head_size: 64 }
    }

    /// The layer that gives a query and a key.
    pub fn dense(&self) -> (layer: LinearShape)
        requires
            self.head_size * 2 <= usize::MAX,
        ensures
            layer == (LinearShape {
                input: self.hidden_size,
                output: (self.head_size * 2) as usize,
                bias: true,
            }),
    {
        LinearShape { input: self.hidden_size, output: self.head_size * 2, bias: true }
    }
}

/// How often a stride is halved until it is not above another.
pub open spec fn halvings(stride: int, base: int) -> int
    decreases stride,
{
    if stride > base && stride > 0 {
        1 + halvings(stride / 2, base)
    } else {
        0
    }
}

/// Layers that bring a feature map from its stride to the least stride: one for every
/// halving, and at least one.
pub open spec fn head_layers(stride: int, base: int) -> int {
    if halvings(stride, base) < 1 {
        1
    } else {
        halvings(stride, base)
    }
}

proof fn lemma_halvings_fit(stride: int, base: int)
    ensures
        0 <= halvings(stride, base),
        stride >= 0 ==> halvings(stride, base) <= stride,
    decreases stride,
{
    if stride > base && stride > 0 {
        lemma_halvings_fit(stride / 2, base);
    }
}

/// The layers of a head; every one is followed by an upsampling where the strides differ.
pub fn head_length(stride: usize, base: usize) -> (length: usize)
    ensures
        length == head_layers(stride as int, base as int),
{
    let mut length: usize = 0;
    let mut left: usize = stride;
    proof {
        lemma_halvings_fit(stride as int, base as int);
    }
    while left > base
        invariant
            length + halvings(left as int, base as int) == halvings(stride as int, base as int),
            halvings(stride as int, base as int) <= stride,
            0 <= halvings(left as int, base as int),
        decreases left,
    {
        proof {
            lemma_halvings_fit(left as int / 2, base as int);
        }
        length = length + 1;
        left = left / 2;
    }
    if length < 1 {
        1
    } else {
        length
    }
}

/// Where a stride is a power of two times the least one, the upsamplings of its head
/// reach the least stride.
pub proof fn law_heads_reach_the_least_stride(base: int, k: nat)
    requires
        base > 0,
        k > 0,
    ensures
        head_layers(base * pow2(k), base) == k,
{
    lemma_halvings_of_power(base, k);
}

proof fn lemma_halvings_of_power(base: int, k: nat)
    requires
        base > 0,
    ensures
        halvings(base * pow2(k), base) == k,
    decreases k,
{
    if k == 0 {
        lemma2_to64();
    } else {
        lemma_halvings_of_power(base, (k - 1) as nat);
        lemma_pow2_unfold(k);
        lemma_pow2_pos((k - 1) as nat);
        let p = pow2((k - 1) as nat) as int;
        assert(base * (2 * p) == 2 * (base * p) && base * p >= base) by (nonlinear_arith)
            requires
                base > 0,
                p >= 1,
        ;
        assert(base * pow2(k) / 2 == base * p);
    }
}

/// Feature maps from the least stride to the greatest.
pub open spec fn stride_keys(strides: Seq<usize>) -> Seq<i128> {
    strides.map_values(|s: usize| s as i128)
}

/// Puts feature maps in the order of their strides; maps of one stride stay in order.
pub fn level_order(strides: [usize; 3]) -> (order: Vec<usize>)
    ensures
        order@ == ordering::ordered(stride_keys(strides@)),
        ordering::is_order(order@, stride_keys(strides@), 3),
{
    let mut keys: Vec<i128> = Vec::new();
    keys.push(strides[0] as i128);
    keys.push(strides[1] as i128);
    keys.push(strides[2] as i128);
    assert(keys@ == stride_keys(strides@));
    ordering::stable_order(&keys)
}

/// Channels of a block of the backbone that keeps the outputs of all its layers.
#[derive(Clone, Copy, Debug, PartialEq, Eq, Structural)]
pub struct BlockChannels {
    pub in_ch: usize,
    pub mid_ch: usize,
    pub out_ch: usize,
    pub layer_num: usize,
}

impl BlockChannels {
    /// Channels of the input and of all layers together.
    pub open spec fn gathered(self) -> int {
        self.in_ch + self.layer_num * self.mid_ch
    }

    /// Channels that go into a layer: those of the block, then those of the layer before.
    pub fn layer_input(&self, at: usize) -> (channels: usize)
        ensures
            channels == if at == 0 {
                self.in_ch
            } else {
                self.mid_ch
            },
    {
        if at == 0 {
            self.in_ch
        } else {
            self.mid_ch
        }
    }

    /// The channels of the two layers that gather the outputs: what goes in, what lies
    /// between them, and what comes out.
    pub fn gathering(&self) -> (channels: [usize; 3])
        requires
            self.gathered() <= usize::MAX,
        ensures
            channels@ == seq![self.gathered() as usize, self.out_ch / 2, self.out_ch],
    {
        proof {
            assert(self.layer_num * self.mid_ch >= 0) by (nonlinear_arith)
                requires
                    self.layer_num >= 0,
                    self.mid_ch >= 0,
            ;
        }
        let channels: [usize; 3] = [
            self.in_ch + self.layer_num * self.mid_ch,
            self.out_ch / 2,
            self.out_ch,
        ];
        assert(channels@ == seq![self.gathered() as usize, self.out_ch / 2, self.out_ch]);
        channels
    }
}

/// The projector takes whole blocks of merged patches, and gives what the text model takes.
pub proof fn law_the_projector_joins_the_models(config: PaddleOcrVlModelConfig)
    ensures
        config.projector_of().vision_hidden_size == config.vision_hidden_size,
        config.projector_of().text_hidden_size == config.text_hidden_size,
        config.projector_of().merged() == config.spatial_merge_size * config.spatial_merge_size
            * config.vision_hidden_size,
        PaddleOcrVlModelConfig::preset().projector_of().merged() == 4 * 1152,
{
    assert(2 * 2 * 1152 == 4 * 1152);
}

/// Patches along a side cover it but for less than one patch.
pub proof fn law_patches_fill_the_side(config: PaddleOcrVisionEmbeddingsConfig)
    requires
        config.patch_size > 0,
    ensures
        config.side() * config.patch_size <= config.image_size,
        config.image_size < (config.side() + 1) * config.patch_size,
{
    let p = config.patch_size as int;
    let n = config.side();
    lemma_fundamental_div_mod(config.image_size as int, p);
    assert(n * p == p * n) by (nonlinear_arith);
    assert((n + 1) * p == p * n + p) by (nonlinear_arith);
}

/// A prediction head takes its input first and gives its output last, and everything
/// between has its inner width.
pub proof fn law_heads_take_and_give(config: MLPPredictionHeadConfig, at: int)
    requires
        0 <= at < config.num_layers,
    ensures
        config.layer(0).input == config.input_dim,
        config.layer(config.num_layers - 1).output == config.output_dim,
        at > 0 ==> config.layer(at).input == config.hidden_dim,
        at < config.num_layers - 1 ==> config.layer(at).output == config.hidden_dim,
        config.layer(at).bias,
{
}

/// An attention layer leads from one width to the other.
pub proof fn law_attention_layers_keep_their_widths(
    config: PaddleOcrTextAttentionConfig,
    input: usize,
    output: usize,
)
    ensures
        config.layer(input as int, output as int).input == input,
        config.layer(input as int, output as int).output == output,
        config.layer(input as int, output as int).bias == config.use_bias,
{
}

/// Every head of every query takes as many samples from every level.
pub proof fn law_samples_are_taken_from_every_level(config: MultiscaleDeformableAttentionConfig)
    ensures
        config.samples() == config.n_heads * (config.n_levels * config.n_points),
{
    let a = config.n_heads as int;
    let b = config.n_levels as int;
    let c = config.n_points as int;
    assert(a * b * c == a * (b * c)) by (nonlinear_arith);
}

/// A stride is halved as often as it takes to come down to another, and not once more.
pub proof fn law_strides_are_halved_to_the_end(stride: int, base: int)
    requires
        stride >= 0,
        base >= 0,
    ensures
        halvings(stride, base) >= 0,
        stride / pow2(halvings(stride, base) as nat) as int <= base,
        halvings(stride, base) > 0 ==> stride / pow2((halvings(stride, base) - 1) as nat) as int
            > base,
        head_layers(stride, base) >= 1,
        halvings(stride, base) >= 1 ==> head_layers(stride, base) == halvings(stride, base),
    decreases stride,
{
    lemma2_to64();
    if stride > base && stride > 0 {
        law_strides_are_halved_to_the_end(stride / 2, base);
        let h = halvings(stride / 2, base) as nat;
        lemma_pow2_pos(h);
        lemma_pow2_unfold(h + 1);
        lemma_div_denominator(stride, 2, pow2(h) as int);
        assert(2 * pow2(h) == pow2(h + 1));
        if h > 0 {
            let g = (h - 1) as nat;
            lemma_pow2_pos(g);
            lemma_pow2_unfold(h);
            lemma_div_denominator(stride, 2, pow2(g) as int);
            assert(2 * pow2(g) == pow2(h));
            assert(stride / pow2(h) as int == stride / 2 / pow2(g) as int);
        } else {
            assert(pow2(0) == 1);
            assert(stride / 1 == stride);
        }
        assert((halvings(stride, base) - 1) as nat == h);
    }
}

/// The layers of a block all give as many channels, and they are gathered with those of
/// the input.
pub proof fn law_blocks_gather_their_layers(block: BlockChannels, more: BlockChannels)
    requires
        more == (BlockChannels { layer_num: (block.layer_num + 1) as usize, ..block }),
        block.layer_num < usize::MAX,
    ensures
        block.layer_num == 0 ==> block.gathered() == block.in_ch,
        more.gathered() == block.gathered() + block.mid_ch,
{
    let n = block.layer_num as int;
    let m = block.mid_ch as int;
    assert((n + 1) * m == n * m + m) by (nonlinear_arith);
    assert(n == 0 ==> n * m == 0) by (nonlinear_arith);
}

/// Sizes of the recognition model, whatever its release.
pub proof fn law_releases_share_one_model()
    ensures
        PaddleOcrVlModelConfig::preset().vision_hidden_size == 1152,
        PaddleOcrVlModelConfig::preset().text_hidden_size == 1024,
        PaddleOcrVlModelConfig::preset().vocab_size == 103424,
        PaddleOcrVlModelConfig::preset().spatial_merge_size == 2,
        PaddleOcrVlModelConfig::preset().image_token_id == 100295,
        PaddleOcrVlModelConfig::preset().vision_start_token_id == 101305,
        PaddleOcrVlModelConfig::preset().eos_token_id == 2,
        PaddleOcrVlModelConfig::preset().image_token_id
            < PaddleOcrVlModelConfig::preset().vocab_size,
        PaddleOcrVlModelConfig::preset().vision_start_token_id
            < PaddleOcrVlModelConfig::preset().vocab_size,
{
}

/// Feature maps are ordered by their strides themselves.
pub proof fn law_maps_go_by_their_strides(strides: Seq<usize>, i: int, j: int)
    requires
        0 <= i < strides.len(),
        0 <= j < strides.len(),
    ensures
        stride_keys(strides).len() == strides.len(),
        stride_keys(strides)[i] < stride_keys(strides)[j] <==> strides[i] < strides[j],
{
}

} // verus!
