//! How the tensors of checkpoints become those of the models.

use crate::dtype::DType;
use crate::text::same_text;
use vstd::prelude::*;

verus! {

/// Patterns of tensor names of the recognition model, in the order in which they are
/// applied, and what replaces them.
pub const VL_KEY_REMAPPINGS: [[&'static str; 2]; 9] = [
    ["^visual\\.vision_model\\.", "vision."],
    ["^mlp_AR\\.", "projector."],
    ["^model\\.", "text_model."],
    ["\\.(.*?layer_norm.*?)\\.weight$", ".$1.gamma"],
    ["\\.(.*?layer_norm.*?)\\.bias$", ".$1.beta"],
    ["(\\.?)(.*?pre_norm.*?)\\.weight$", "$1$2.gamma"],
    ["(\\.?)(.*?pre_norm.*?)\\.bias$", "$1$2.beta"],
    ["\\.(.*?layernorm)\\.weight$", ".$1.gamma"],
    ["\\.norm\\.weight$", ".norm.gamma"],
];

/// Patterns of tensor names of the second layout model, and what replaces them.
pub const LAYOUT_V2_KEY_REMAPPINGS: [[&'static str; 2]; 33] = [
    ["^model\\.backbone\\.model\\.", "backbone."],
    ["^model\\.", ""],
    ["^backbone\\.embedder\\.", "backbone.embeddings."],
    ["^backbone\\.encoder\\.stages\\.0\\.", "backbone.stage1."],
    ["^backbone\\.encoder\\.stages\\.1\\.", "backbone.stage2."],
    ["^backbone\\.encoder\\.stages\\.2\\.", "backbone.stage3."],
    ["^backbone\\.encoder\\.stages\\.3\\.", "backbone.stage4."],
    ["\\.layers\\.(\\d+)\\.(conv[12])\\.convolution\\.", ".layers.$1.Light.$2.conv."],
    ["\\.layers\\.(\\d+)\\.(conv[12])\\.normalization\\.", ".layers.$1.Light.$2.bn."],
    ["\\.layers\\.(\\d+)\\.convolution\\.", ".layers.$1.Standard.conv."],
    ["\\.layers\\.(\\d+)\\.normalization\\.", ".layers.$1.Standard.bn."],
    ["\\.aggregation\\.0\\.", ".agg_squeeze."],
    ["\\.aggregation\\.1\\.", ".agg_excite."],
    ["\\.convolution\\.", ".conv."],
    ["\\.normalization\\.", ".bn."],
    ["encoder_input_proj\\.(\\d+)\\.0\\.", "encoder_input_proj.$1.conv."],
    ["encoder_input_proj\\.(\\d+)\\.1\\.", "encoder_input_proj.$1.norm."],
    ["decoder_input_proj\\.(\\d+)\\.0\\.", "decoder_input_proj.$1.conv."],
    ["decoder_input_proj\\.(\\d+)\\.1\\.", "decoder_input_proj.$1.norm."],
    ["^enc_output\\.0\\.", "enc_output_linear."],
    ["^enc_output\\.1\\.", "enc_output_norm."],
    ["encoder\\.encoder\\.", "encoder.aifi."],
    ["encoder\\.aifi\\.(\\d+)\\.layers\\.(\\d+)\\.self_attn\\.out_proj\\.", "encoder.aifi.$1.layers.$2.o_proj."],
    ["encoder\\.aifi\\.(\\d+)\\.layers\\.(\\d+)\\.self_attn\\.", "encoder.aifi.$1.layers.$2."],
    ["decoder\\.layers\\.(\\d+)\\.encoder_attn_layer_norm\\.", "decoder.layers.$1.cross_attn_layer_norm."],
    ["decoder\\.layers\\.(\\d+)\\.encoder_attn\\.", "decoder.layers.$1.cross_attn."],
    ["decoder\\.layers\\.(\\d+)\\.self_attn\\.out_proj\\.", "decoder.layers.$1.self_attn.o_proj."],
    ["reading_order\\.encoder\\.layer\\.(\\d+)\\.attention\\.self\\.", "reading_order.encoder.layers.$1.self_attention."],
    ["reading_order\\.encoder\\.layer\\.(\\d+)\\.attention\\.output\\.dense\\.", "reading_order.encoder.layers.$1.attn_dense."],
    ["reading_order\\.encoder\\.layer\\.(\\d+)\\.attention\\.output\\.norm\\.", "reading_order.encoder.layers.$1.attn_norm."],
    ["reading_order\\.encoder\\.layer\\.(\\d+)\\.intermediate\\.dense\\.", "reading_order.encoder.layers.$1.intermediate_dense."],
    ["reading_order\\.encoder\\.layer\\.(\\d+)\\.output\\.dense\\.", "reading_order.encoder.layers.$1.output_dense."],
    ["reading_order\\.encoder\\.layer\\.(\\d+)\\.output\\.norm\\.", "reading_order.encoder.layers.$1.output_norm."],
];

/// Patterns of tensor names of the third layout model, and what replaces them.
pub const LAYOUT_V3_KEY_REMAPPINGS: [[&'static str; 2]; 33] = [
    ["^model\\.backbone\\.model\\.", "backbone."],
    ["^model\\.", ""],
    ["^backbone\\.embedder\\.", "backbone.embeddings."],
    ["^backbone\\.encoder\\.stages\\.0\\.", "backbone.stage1."],
    ["^backbone\\.encoder\\.stages\\.1\\.", "backbone.stage2."],
    ["^backbone\\.encoder\\.stages\\.2\\.", "backbone.stage3."],
    ["^backbone\\.encoder\\.stages\\.3\\.", "backbone.stage4."],
    ["encoder\\.mask_feature_head\\.scale_heads\\.2\\.layers\\.2\\.", "encoder.mask_feature_head.scale_heads.2.layers.1."],
    ["encoder\\.mask_feature_head\\.scale_heads\\.(\\d+)\\.layers\\.(\\d+)\\.convolution\\.", "encoder.mask_feature_head.scale_heads.$1.layers.$2.conv."],
    ["encoder\\.mask_feature_head\\.scale_heads\\.(\\d+)\\.layers\\.(\\d+)\\.normalization\\.", "encoder.mask_feature_head.scale_heads.$1.layers.$2.norm."],
    ["\\.layers\\.(\\d+)\\.(conv[12])\\.convolution\\.", ".layers.$1.Light.$2.conv."],
    ["\\.layers\\.(\\d+)\\.(conv[12])\\.normalization\\.", ".layers.$1.Light.$2.bn."],
    ["\\.layers\\.(\\d+)\\.convolution\\.", ".layers.$1.Standard.conv."],
    ["\\.layers\\.(\\d+)\\.normalization\\.", ".layers.$1.Standard.bn."],
    ["\\.aggregation\\.0\\.", ".agg_squeeze."],
    ["\\.aggregation\\.1\\.", ".agg_excite."],
    ["encoder\\.mask_feature_head\\.(.*)\\.normalization\\.", "encoder.mask_feature_head.$1.norm."],
    ["encoder\\.encoder_mask_lateral\\.normalization\\.", "encoder.encoder_mask_lateral.norm."],
    ["encoder\\.encoder_mask_output\\.base_conv\\.normalization\\.", "encoder.encoder_mask_output.base_conv.norm."],
    ["\\.convolution\\.", ".conv."],
    ["\\.normalization\\.", ".bn."],
    ["encoder_input_proj\\.(\\d+)\\.0\\.", "encoder_input_proj.$1.conv."],
    ["encoder_input_proj\\.(\\d+)\\.1\\.", "encoder_input_proj.$1.norm."],
    ["decoder_input_proj\\.(\\d+)\\.0\\.", "decoder_input_proj.$1.conv."],
    ["decoder_input_proj\\.(\\d+)\\.1\\.", "decoder_input_proj.$1.norm."],
    ["^enc_output\\.0\\.", "enc_output_linear."],
    ["^enc_output\\.1\\.", "enc_output_norm."],
    ["encoder\\.encoder\\.", "encoder.aifi."],
    ["encoder\\.aifi\\.(\\d+)\\.layers\\.(\\d+)\\.self_attn\\.out_proj\\.", "encoder.aifi.$1.layers.$2.o_proj."],
    ["encoder\\.aifi\\.(\\d+)\\.layers\\.(\\d+)\\.self_attn\\.", "encoder.aifi.$1.layers.$2."],
    ["decoder\\.layers\\.(\\d+)\\.encoder_attn_layer_norm\\.", "decoder.layers.$1.cross_attn_layer_norm."],
    ["decoder\\.layers\\.(\\d+)\\.encoder_attn\\.", "decoder.layers.$1.cross_attn."],
    ["decoder\\.layers\\.(\\d+)\\.self_attn\\.out_proj\\.", "decoder.layers.$1.self_attn.o_proj."],
];

/// Names of modules that stay in single precision.
pub open spec fn is_kept_exact(name: Seq<char>) -> bool {
    ||| name == "vision"@
    ||| name == "projector"@
    ||| name == "visual"@
    ||| name == "vision_model"@
    ||| name == "mlp_AR"@
}

/// Whether a path leads through a module that stays in single precision.
pub open spec fn passes_exact(path: Seq<Seq<char>>) -> bool {
    exists|i: int| 0 <= i < path.len() && #[trigger] is_kept_exact(path[i])
}

fn keeps_exact(name: &str) -> (kept: bool)
    ensures
        kept == is_kept_exact(name@),
{
    same_text(name, "vision") || same_text(name, "projector") || same_text(name, "visual")
        || same_text(name, "vision_model") || same_text(name, "mlp_AR")
}

/// Gives the weights of the recognition model an element type, and keeps the vision model
/// and the projector in single precision where that is asked.
#[derive(Clone, Debug)]
pub struct PyTorchToBurnDTypeAdapter {
    pub target_dtype: DType,
    pub keep_vision_projector_f32: bool,
}

impl PyTorchToBurnDTypeAdapter {
    pub fn new(target_dtype: DType) -> (adapter: Self)
        ensures
            adapter.target_dtype == target_dtype,
            adapter.keep_vision_projector_f32,
    {
        PyTorchToBurnDTypeAdapter { target_dtype, keep_vision_projector_f32: true }
    }

    /// Element type of a tensor on a path of modules.
    pub open spec fn target(self, path: Option<Seq<Seq<char>>>) -> DType {
        match path {
            Some(names) if self.keep_vision_projector_f32 && passes_exact(names) => DType::F32,
            _ => self.target_dtype,
        }
    }

    /// Element type of a tensor; the path of its modules may be unknown.
    pub fn target_dtype_for_path(&self, path: &Option<Vec<String>>) -> (dtype: DType)
        ensures
            dtype == self.target(
                match *path {
                    Some(names) => Some(names@.map_values(|name: String| name@)),
                    None => None,
                },
            ),
    {
        let names: &Vec<String> = match path {
            Some(names) => names,
            None => return self.target_dtype,
        };
        if !self.keep_vision_projector_f32 {
            return self.target_dtype;
        }
        let ghost all = names@.map_values(|name: String| name@);
        let mut i: usize = 0;
        while i < names.len()
            invariant
                i <= names@.len(),
                self.keep_vision_projector_f32,
                *path == Some(*names),
                all == names@.map_values(|name: String| name@),
                forall|k: int| 0 <= k < i ==> !#[trigger] is_kept_exact(all[k]),
            decreases names.len() - i,
        {
            if keeps_exact(names[i].as_str()) {
                assert(is_kept_exact(all[i as int]));
                return DType::F32;
            }
            i = i + 1;
        }
        self.target_dtype
    }

    /// The element type that a tensor is converted to; none where it has it already.
    pub fn conversion(&self, path: &Option<Vec<String>>, dtype: DType) -> (target: Option<DType>)
        ensures
            ({
                let wanted = self.target(
                    match *path {
                        Some(names) => Some(names@.map_values(|name: String| name@)),
                        None => None,
                    },
                );
                target == if dtype == wanted {
                    None
                } else {
                    Some(wanted)
                }
            }),
    {
        let wanted = self.target_dtype_for_path(path);
        if dtype == wanted {
            None
        } else {
            Some(wanted)
        }
    }
}

/// Gives the weights of the layout models an element type.
#[derive(Clone, Debug)]
pub struct LayoutDTypeAdapter {
    pub target_dtype: DType,
}

impl LayoutDTypeAdapter {
    pub fn new(target_dtype: DType) -> (adapter: Self)
        ensures
            adapter.target_dtype == target_dtype,
    {
        LayoutDTypeAdapter { target_dtype }
    }

    /// The element type that a tensor is converted to; none where it has it already.
    pub fn conversion(&self, dtype: DType) -> (target: Option<DType>)
        ensures
            target == if dtype == self.target_dtype {
                None
            } else {
                Some(self.target_dtype)
            },
    {
        if dtype == self.target_dtype {
            None
        } else {
            Some(self.target_dtype)
        }
    }
}

/// Gives the weights of the layout models single precision.
#[derive(Clone, Debug, Default)]
pub struct PyTorchToBurnF32Adapter;

impl PyTorchToBurnF32Adapter {
    pub fn conversion(&self, dtype: DType) -> (target: Option<DType>)
        ensures
            target == if dtype == DType::F32 {
                None
            } else {
                Some(DType::F32)
            },
    {
        LayoutDTypeAdapter::new(DType::F32).conversion(dtype)
    }
}

/// No path through the vision model or the projector leaves single precision while they
/// are kept in it.
pub proof fn law_vision_stays_exact(
    adapter: PyTorchToBurnDTypeAdapter,
    path: Seq<Seq<char>>,
    i: int,
)
    requires
        adapter.keep_vision_projector_f32,
        0 <= i < path.len(),
        is_kept_exact(path[i]),
    ensures
        adapter.target(Some(path)) == DType::F32,
{
}

/// While the vision model and the projector are kept exact, a tensor is in single
/// precision where its path holds one of their names; every other tensor, and every
/// tensor once nothing is kept exact, has the type that was asked for.
pub proof fn law_other_weights_have_the_type_asked_for(
    adapter: PyTorchToBurnDTypeAdapter,
    path: Seq<Seq<char>>,
)
    ensures
        adapter.target(None) == adapter.target_dtype,
        !adapter.keep_vision_projector_f32 ==> adapter.target(Some(path)) == adapter.target_dtype,
        !path.contains("vision"@) && !path.contains("projector"@) && !path.contains("visual"@)
            && !path.contains("vision_model"@) && !path.contains("mlp_AR"@) ==> adapter.target(
            Some(path),
        ) == adapter.target_dtype,
        adapter.keep_vision_projector_f32 && (path.contains("vision"@) || path.contains(
            "projector"@,
        ) || path.contains("visual"@) || path.contains("vision_model"@) || path.contains(
            "mlp_AR"@,
        )) ==> adapter.target(Some(path)) == DType::F32,
{
    assert forall|i: int| 0 <= i < path.len() && #[trigger] is_kept_exact(path[i]) implies
        path.contains("vision"@) || path.contains("projector"@) || path.contains("visual"@)
        || path.contains("vision_model"@) || path.contains("mlp_AR"@) by {
        assert(path.contains(path[i]));
    }
    assert forall|name: Seq<char>| is_kept_exact(name) && #[trigger] path.contains(name) implies
        passes_exact(path) by {
        let i = path.index_of(name);
        assert(is_kept_exact(path[i]));
    }
}

} // verus!
