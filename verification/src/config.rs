//! Settings of the image processor and of the chat template.

use crate::float::F32;
use crate::precision::{denom, numer};
use crate::rounding;
use crate::version::{OcrTask, PaddleOcrVersion};
use vstd::arithmetic::power2::lemma2_to64;
use vstd::prelude::*;

verus! {

pub const V1_0_MIN_PIXELS: usize = 147_384;

pub const V1_0_MAX_PIXELS: usize = 2_822_400;

pub const V1_5_MIN_PIXELS: usize = 112_896;

pub const V1_5_MAX_PIXELS: usize = 1_003_520;

/// 2048 squares of 28 pixels.
pub const SPOTTING_MAX_PIXELS: usize = 1_605_632;

pub const CLS_TOKEN: &'static str = "<|begin_of_sentence|>";

pub const EOS_TOKEN: &'static str = "</s>";

pub const IMAGE_START_TOKEN: &'static str = "<|IMAGE_START|>";

pub const IMAGE_PLACEHOLDER_TOKEN: &'static str = "<|IMAGE_PLACEHOLDER|>";

pub const IMAGE_END_TOKEN: &'static str = "<|IMAGE_END|>";

pub const PADDLEOCR_VL_SPOTTING_MAX_NEW_TOKENS: usize = 8192;

/// Image processor and prompt settings of the recognizer.
#[derive(Clone, Copy, Debug)]
pub struct PaddleOcrCfg {
    pub min_pixels: usize,
    pub max_pixels: usize,
    pub patch_size: usize,
    pub merge_size: usize,
    pub temporal_patch_size: usize,
    pub rescale_factor: F32,
    pub image_mean: [F32; 3],
    pub image_std: [F32; 3],
    pub image_token: &'static str,
    pub image_token_id: u32,
    pub cls_token: &'static str,
    pub eos_token: &'static str,
    pub assistant_prefix: &'static str,
}

/// 1 / 255.
pub open spec fn one_255th() -> F32 {
    F32 { bits: 0x3b80_8081 }
}

/// 1 / 2.
pub open spec fn one_half() -> F32 {
    F32 { bits: 0x3f00_0000 }
}

impl PaddleOcrCfg {
    /// The settings of a release.
    pub open spec fn is_preset(self, version: PaddleOcrVersion) -> bool {
        &&& match version {
            PaddleOcrVersion::V1_0 => {
                &&& self.min_pixels == V1_0_MIN_PIXELS
                &&& self.max_pixels == V1_0_MAX_PIXELS
                &&& self.assistant_prefix@ == "Assistant: "@
            },
            PaddleOcrVersion::V1_5 => {
                &&& self.min_pixels == V1_5_MIN_PIXELS
                &&& self.max_pixels == V1_5_MAX_PIXELS
                &&& self.assistant_prefix@ == "Assistant:\n"@
            },
        }
        &&& self.patch_size == 14
        &&& self.merge_size == 2
        &&& self.temporal_patch_size == 1
        &&& self.rescale_factor == one_255th()
        &&& self.image_mean@ == seq![one_half(), one_half(), one_half()]
        &&& self.image_std@ == seq![one_half(), one_half(), one_half()]
        &&& self.image_token@ == IMAGE_PLACEHOLDER_TOKEN@
        &&& self.image_token_id == 100295
        &&& self.cls_token@ == CLS_TOKEN@
        &&& self.eos_token@ == EOS_TOKEN@
    }

    pub fn for_version(version: PaddleOcrVersion) -> (cfg: Self)
        ensures
            cfg.is_preset(version),
    {
        let half = F32 { bits: 0x3f00_0000 };
        let (min_pixels, max_pixels, assistant_prefix) = match version {
            PaddleOcrVersion::V1_0 => (V1_0_MIN_PIXELS, V1_0_MAX_PIXELS, "Assistant: "),
            PaddleOcrVersion::V1_5 => (V1_5_MIN_PIXELS, V1_5_MAX_PIXELS, "Assistant:\n"),
        };
        PaddleOcrCfg {
            min_pixels,
            max_pixels,
            patch_size: 14,
            merge_size: 2,
            temporal_patch_size: 1,
            rescale_factor: F32 { bits: 0x3b80_8081 },
            image_mean: [half, half, half],
            image_std: [half, half, half],
            image_token: IMAGE_PLACEHOLDER_TOKEN,
            image_token_id: 100295,
            cls_token: CLS_TOKEN,
            eos_token: EOS_TOKEN,
            assistant_prefix,
        }
    }

    /// Raises the pixel limit for text spotting.
    pub fn with_task(self, task: OcrTask) -> (cfg: Self)
        ensures
            cfg == (PaddleOcrCfg {
                max_pixels: if task == OcrTask::Spotting {
                    SPOTTING_MAX_PIXELS
                } else {
                    self.max_pixels
                },
                ..self
            }),
    {
        let mut cfg = self;
        if task.is_spotting() {
            cfg.max_pixels = SPOTTING_MAX_PIXELS;
        }
        cfg
    }
}

impl Default for PaddleOcrCfg {
    fn default() -> (cfg: Self)
        ensures
            cfg.is_preset(PaddleOcrVersion::V1_0),
    {
        PaddleOcrCfg::for_version(PaddleOcrVersion::V1_0)
    }
}

/// Pixel limits that a model directory writes under `size`.
#[derive(Clone, Copy, Debug)]
pub struct PreprocessorSize {
    pub shortest_edge: Option<usize>,
    pub longest_edge: Option<usize>,
    pub min_pixels: Option<usize>,
    pub max_pixels: Option<usize>,
}

/// Settings that the `preprocessor_config.json` of a model directory holds.
#[derive(Clone, Copy, Debug)]
pub struct PreprocessorConfigFile {
    pub min_pixels: Option<usize>,
    pub max_pixels: Option<usize>,
    pub size: Option<PreprocessorSize>,
    pub patch_size: Option<usize>,
    pub temporal_patch_size: Option<usize>,
    pub merge_size: Option<usize>,
    pub rescale_factor: Option<F32>,
    pub image_mean: Option<[F32; 3]>,
    pub image_std: Option<[F32; 3]>,
}

/// The first value that is present, or the fallback.
pub open spec fn first_of<T>(
    first: Option<T>,
    second: Option<T>,
    third: Option<T>,
    fallback: T,
) -> T {
    match first {
        Some(value) => value,
        None => match second {
            Some(value) => value,
            None => match third {
                Some(value) => value,
                None => fallback,
            },
        },
    }
}

pub open spec fn or_else<T>(value: Option<T>, fallback: T) -> T {
    match value {
        Some(v) => v,
        None => fallback,
    }
}

impl PreprocessorConfigFile {
    pub open spec fn size_field(self, field: spec_fn(PreprocessorSize) -> Option<usize>) -> Option<
        usize,
    > {
        match self.size {
            Some(size) => field(size),
            None => None,
        }
    }

    /// The settings with every value of the file in place. A pixel limit is the
    /// top-level one, else the edge length under `size`, else the limit there.
    pub open spec fn applied(self, cfg: PaddleOcrCfg) -> PaddleOcrCfg {
        PaddleOcrCfg {
            min_pixels: first_of(
                self.min_pixels,
                self.size_field(|size: PreprocessorSize| size.shortest_edge),
                self.size_field(|size: PreprocessorSize| size.min_pixels),
                cfg.min_pixels,
            ),
            max_pixels: first_of(
                self.max_pixels,
                self.size_field(|size: PreprocessorSize| size.longest_edge),
                self.size_field(|size: PreprocessorSize| size.max_pixels),
                cfg.max_pixels,
            ),
            patch_size: or_else(self.patch_size, cfg.patch_size),
            temporal_patch_size: or_else(self.temporal_patch_size, cfg.temporal_patch_size),
            merge_size: or_else(self.merge_size, cfg.merge_size),
            rescale_factor: or_else(self.rescale_factor, cfg.rescale_factor),
            image_mean: or_else(self.image_mean, cfg.image_mean),
            image_std: or_else(self.image_std, cfg.image_std),
            ..cfg
        }
    }

    /// Puts the values of the file over the settings.
    pub fn apply_to(self, cfg: &mut PaddleOcrCfg)
        ensures
            *final(cfg) == self.applied(*old(cfg)),
    {
        let (shortest_edge, longest_edge, size_min, size_max) = match self.size {
            Some(size) => (
                size.shortest_edge,
                size.longest_edge,
                size.min_pixels,
                size.max_pixels,
            ),
            None => (None, None, None, None),
        };
        if let Some(min_pixels) = self.min_pixels {
            cfg.min_pixels = min_pixels;
        } else if let Some(min_pixels) = shortest_edge {
            cfg.min_pixels = min_pixels;
        } else if let Some(min_pixels) = size_min {
            cfg.min_pixels = min_pixels;
        }
        if let Some(max_pixels) = self.max_pixels {
            cfg.max_pixels = max_pixels;
        } else if let Some(max_pixels) = longest_edge {
            cfg.max_pixels = max_pixels;
        } else if let Some(max_pixels) = size_max {
            cfg.max_pixels = max_pixels;
        }
        if let Some(patch_size) = self.patch_size {
            cfg.patch_size = patch_size;
        }
        if let Some(temporal_patch_size) = self.temporal_patch_size {
            cfg.temporal_patch_size = temporal_patch_size;
        }
        if let Some(merge_size) = self.merge_size {
            cfg.merge_size = merge_size;
        }
        if let Some(rescale_factor) = self.rescale_factor {
            cfg.rescale_factor = rescale_factor;
        }
        if let Some(image_mean) = self.image_mean {
            cfg.image_mean = image_mean;
        }
        if let Some(image_std) = self.image_std {
            cfg.image_std = image_std;
        }
    }
}

/// Greatest number of tokens to generate, unless the caller sets one.
pub open spec fn token_limit(
    configured: Option<usize>,
    version: PaddleOcrVersion,
    task: OcrTask,
) -> usize {
    or_else(
        configured,
        if task == OcrTask::Spotting {
            PADDLEOCR_VL_SPOTTING_MAX_NEW_TOKENS
        } else {
            match version {
                PaddleOcrVersion::V1_0 => 1024usize,
                PaddleOcrVersion::V1_5 => 512usize,
            }
        },
    )
}

pub fn default_max_new_tokens(configured: Option<usize>, version: PaddleOcrVersion) -> (limit:
    usize)
    ensures
        limit == token_limit(configured, version, OcrTask::Ocr),
{
    match configured {
        Some(limit) => limit,
        None => match version {
            PaddleOcrVersion::V1_0 => 1024,
            PaddleOcrVersion::V1_5 => 512,
        },
    }
}

pub fn default_max_new_tokens_for_task(
    configured: Option<usize>,
    version: PaddleOcrVersion,
    task: OcrTask,
) -> (limit: usize)
    ensures
        limit == token_limit(configured, version, task),
{
    match configured {
        Some(limit) => limit,
        None => if task.is_spotting() {
            PADDLEOCR_VL_SPOTTING_MAX_NEW_TOKENS
        } else {
            default_max_new_tokens(configured, version)
        },
    }
}

/// A file without values leaves the settings as they are.
pub proof fn law_empty_file_changes_nothing(file: PreprocessorConfigFile, cfg: PaddleOcrCfg)
    requires
        file.min_pixels is None,
        file.max_pixels is None,
        file.size is None,
        file.patch_size is None,
        file.temporal_patch_size is None,
        file.merge_size is None,
        file.rescale_factor is None,
        file.image_mean is None,
        file.image_std is None,
    ensures
        file.applied(cfg) == cfg,
{
}

/// Applying the same file a second time changes nothing.
pub proof fn law_applying_twice_is_applying_once(file: PreprocessorConfigFile, cfg: PaddleOcrCfg)
    ensures
        file.applied(file.applied(cfg)) == file.applied(cfg),
{
}

/// What a file says holds, and of several limits on the pixels the first one that is
/// there: that of the file itself, the edge length under `size`, the limit under `size`.
/// Settings that no file holds stay.
pub proof fn law_values_of_the_file_hold(file: PreprocessorConfigFile, cfg: PaddleOcrCfg)
    ensures
        file.min_pixels matches Some(n) ==> file.applied(cfg).min_pixels == n,
        file.max_pixels matches Some(n) ==> file.applied(cfg).max_pixels == n,
        file.size matches Some(size) ==> {
            &&& file.min_pixels is None && size.shortest_edge is Some ==> file.applied(
                cfg,
            ).min_pixels == size.shortest_edge->0
            &&& file.min_pixels is None && size.shortest_edge is None && size.min_pixels is Some
                ==> file.applied(cfg).min_pixels == size.min_pixels->0
            &&& file.max_pixels is None && size.longest_edge is Some ==> file.applied(
                cfg,
            ).max_pixels == size.longest_edge->0
            &&& file.max_pixels is None && size.longest_edge is None && size.max_pixels is Some
                ==> file.applied(cfg).max_pixels == size.max_pixels->0
        },
        file.patch_size matches Some(n) ==> file.applied(cfg).patch_size == n,
        file.temporal_patch_size matches Some(n) ==> file.applied(cfg).temporal_patch_size == n,
        file.merge_size matches Some(n) ==> file.applied(cfg).merge_size == n,
        file.rescale_factor matches Some(x) ==> file.applied(cfg).rescale_factor == x,
        file.image_mean matches Some(x) ==> file.applied(cfg).image_mean == x,
        file.image_std matches Some(x) ==> file.applied(cfg).image_std == x,
        file.applied(cfg).image_token == cfg.image_token,
        file.applied(cfg).image_token_id == cfg.image_token_id,
        file.applied(cfg).cls_token == cfg.cls_token,
        file.applied(cfg).eos_token == cfg.eos_token,
        file.applied(cfg).assistant_prefix == cfg.assistant_prefix,
{
}

/// A limit that the caller sets holds for every task; otherwise text spotting may take
/// 8192 tokens, and other tasks 1024 or 512, by the release.
pub proof fn law_answers_have_a_limit(
    configured: Option<usize>,
    version: PaddleOcrVersion,
    task: OcrTask,
)
    ensures
        configured matches Some(n) ==> token_limit(configured, version, task) == n,
        configured is None && task == OcrTask::Spotting ==> token_limit(configured, version, task)
            == 8192,
        configured is None && task != OcrTask::Spotting && version == PaddleOcrVersion::V1_0
            ==> token_limit(configured, version, task) == 1024,
        configured is None && task != OcrTask::Spotting && version == PaddleOcrVersion::V1_5
            ==> token_limit(configured, version, task) == 512,
{
}

/// The limits of a release, counted in squares of 28 pixels: 3600 of them at most for the
/// first one, 144 to 1280 for the later one, and 2048 where text is spotted.
pub proof fn law_limits_are_squares_of_patches(cfg: PaddleOcrCfg, version: PaddleOcrVersion)
    requires
        cfg.is_preset(version),
    ensures
        version == PaddleOcrVersion::V1_0 ==> cfg.min_pixels == 147_384 && cfg.max_pixels == 3600
            * 28 * 28,
        version == PaddleOcrVersion::V1_5 ==> cfg.min_pixels == 144 * 28 * 28 && cfg.max_pixels
            == 1280 * 28 * 28,
        SPOTTING_MAX_PIXELS == 2048 * 28 * 28,
        cfg.patch_size * cfg.merge_size == 28,
        cfg.patch_size == 14,
        cfg.temporal_patch_size == 1,
{
}

/// Color bytes are scaled by one 255th, and their mean and their deviation are one half.
pub proof fn law_colors_are_scaled_to_one(cfg: PaddleOcrCfg, version: PaddleOcrVersion, i: int)
    requires
        cfg.is_preset(version),
        0 <= i < 3,
    ensures
        !cfg.rescale_factor.is_negative(),
        0xff_ffff * denom(cfg.rescale_factor.size()) <= 0x100_0000 * 255 * numer(
            cfg.rescale_factor.size(),
        ) <= 0x100_0001 * denom(cfg.rescale_factor.size()),
        2 * numer(cfg.image_mean@[i].size()) == denom(cfg.image_mean@[i].size()),
        !cfg.image_mean@[i].is_negative(),
        2 * numer(cfg.image_std@[i].size()) == denom(cfg.image_std@[i].size()),
        !cfg.image_std@[i].is_negative(),
{
    lemma2_to64();
    let part = one_255th().size();
    assert(part.m == 0x80_8081 && part.e == -31);
    assert(numer(part) == 0x80_8081 && denom(part) == 0x8000_0000) by {
        assert(rounding::up(-31) == 0 && rounding::down(-31) == 31);
    }
    let half = one_half().size();
    assert(half.m == 0x80_0000 && half.e == -24);
    assert(numer(half) == 0x80_0000 && denom(half) == 0x100_0000) by {
        assert(rounding::up(-24) == 0 && rounding::down(-24) == 24);
    }
    assert(cfg.image_mean@[i] == one_half());
    assert(cfg.image_std@[i] == one_half());
}

} // verus!
