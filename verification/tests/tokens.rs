//! Prompts, tokens and answers.

use image::{DynamicImage, GenericImageView, Rgb, RgbImage};
use paddleocr_vl::chat::expand_image_placeholders;
use paddleocr_vl::config::{
    default_max_new_tokens, default_max_new_tokens_for_task, PaddleOcrCfg, PreprocessorConfigFile,
    PADDLEOCR_VL_SPOTTING_MAX_NEW_TOKENS,
};
use paddleocr_vl::encoding::{can_encode, leaves_nothing_to_chance};
use paddleocr_vl::float::F32;
use paddleocr_vl::generation::{
    can_generate, image_token_span, plan_generation, DecodeStep, Decoding, PromptTokens,
};
use paddleocr_vl::patches::{
    can_preprocess, checked_preprocess_image, cut_patches, ImageOutput, PreprocessError,
};
use paddleocr_vl::picture::prepare_image_for_task;
use paddleocr_vl::recognition::{
    checked_prepare_request, decode_answer, encode_prompt, finish_request, RecognitionError,
    Request,
};
use paddleocr_vl::resize::{checked_smart_resize, smart_resize, ResizeError};
use paddleocr_vl::rope::{build_mm_token_type_ids, get_rope_index, prompt_holds_grids};
use paddleocr_vl::spotting::{group_tokens, pair_blocks, post_process_for_spotting};
use paddleocr_vl::version::{OcrTask, PaddleOcrVersion};
use tokenizers::Tokenizer;

fn words(decoder: &str, truncation: &str) -> Tokenizer {
    let json = format!(
        "{{\"version\":\"1.0\",\"truncation\":{},\"padding\":null,\"added_tokens\":[],\
         \"normalizer\":null,\"pre_tokenizer\":{{\"type\":\"Whitespace\"}},\
         \"post_processor\":null,\"decoder\":{},\"model\":{{\"type\":\"WordLevel\",\
         \"vocab\":{{\"[UNK]\":0,\"hello\":1,\"world\":2}},\"unk_token\":\"[UNK]\"}}}}",
        truncation, decoder
    );
    Tokenizer::from_bytes(json.as_bytes()).unwrap()
}

fn request(prompt: &str, task: OcrTask) -> Request {
    Request {
        task,
        cfg: PaddleOcrCfg::for_version(PaddleOcrVersion::V1_5),
        input_size: (200, 100),
        processed_size: (200, 100),
        image: ImageOutput {
            patches: Vec::new(),
            image_grid_hw: [4, 6],
        },
        prompt: prompt.to_owned(),
    }
}

#[test]
fn prompts_become_tokens() {
    let tokenizer = words("null", "null");
    let ids = encode_prompt(&request("world hello other", OcrTask::Ocr), &tokenizer);
    assert_eq!(ids.unwrap().unwrap(), vec![2, 1, 0]);
}

#[test]
fn long_prompts_are_cut() {
    let cut = |stride: usize| {
        format!(
            "{{\"direction\":\"Right\",\"max_length\":2,\"strategy\":\"LongestFirst\",\"stride\":{}}}",
            stride
        )
    };
    let prompt = request("hello world hello", OcrTask::Ocr);
    let ids = encode_prompt(&prompt, &words("null", &cut(0)));
    assert_eq!(ids.unwrap().unwrap(), vec![1, 2]);
    // The parts would not move on.
    assert!(encode_prompt(&prompt, &words("null", &cut(2))).is_none());
}

fn with_parts(normalizer: &str, splits: &str, processor: &str, padding: &str) -> Tokenizer {
    let json = format!(
        "{{\"version\":\"1.0\",\"truncation\":null,\"padding\":{},\"added_tokens\":[],\
         \"normalizer\":{},\"pre_tokenizer\":{},\"post_processor\":{},\"decoder\":null,\
         \"model\":{{\"type\":\"WordLevel\",\"vocab\":{{\"[UNK]\":0,\"ab\":1,\"cd\":2}},\
         \"unk_token\":\"[UNK]\"}}}}",
        padding, normalizer, splits, processor
    );
    Tokenizer::from_bytes(json.as_bytes()).unwrap()
}

#[test]
fn settings_that_take_every_text_encode() {
    let prompt = request("ABcd", OcrTask::Ocr);
    let lower = "{\"type\":\"Sequence\",\"normalizers\":[{\"type\":\"Lowercase\"}]}";
    let pairs = "{\"type\":\"FixedLength\",\"length\":2}";
    let single = "{\"type\":\"TemplateProcessing\",\"single\":[{\"Sequence\":{\"id\":\"A\",\"type_id\":0}}],\
         \"pair\":[{\"Sequence\":{\"id\":\"A\",\"type_id\":0}}],\"special_tokens\":{}}";
    let fill = "{\"strategy\":{\"Fixed\":4},\"direction\":\"Right\",\"pad_to_multiple_of\":null,\
         \"pad_id\":7,\"pad_type_id\":0,\"pad_token\":\"p\"}";
    let ids = encode_prompt(&prompt, &with_parts(lower, pairs, single, fill));
    assert_eq!(ids.unwrap().unwrap(), vec![1, 2, 7, 7]);
}

#[test]
fn settings_that_fail_on_a_text_are_refused() {
    let prompt = request("abcd", OcrTask::Ocr);
    let nothing = "{\"type\":\"FixedLength\",\"length\":0}";
    assert!(encode_prompt(&prompt, &with_parts("null", nothing, "null", "null")).is_none());
    let listed = format!("{{\"type\":\"Sequence\",\"pretokenizers\":[{}]}}", nothing);
    assert!(encode_prompt(&prompt, &with_parts("null", &listed, "null", "null")).is_none());
    let second = "{\"type\":\"TemplateProcessing\",\"single\":[{\"Sequence\":{\"id\":\"B\",\"type_id\":0}}],\
         \"pair\":[{\"Sequence\":{\"id\":\"A\",\"type_id\":0}}],\"special_tokens\":{}}";
    assert!(encode_prompt(&prompt, &with_parts("null", "null", second, "null")).is_none());
    let far = format!(
        "{{\"strategy\":{{\"Fixed\":{}}},\"direction\":\"Right\",\"pad_to_multiple_of\":null,\
         \"pad_id\":7,\"pad_type_id\":0,\"pad_token\":\"p\"}}",
        u64::MAX
    );
    assert!(encode_prompt(&prompt, &with_parts("null", "null", "null", &far)).is_none());
}

fn with_added(added: &[&str], normalizer: &str) -> Tokenizer {
    let json = format!(
        "{{\"version\":\"1.0\",\"truncation\":null,\"padding\":null,\"added_tokens\":[{}],\
         \"normalizer\":{},\"pre_tokenizer\":{{\"type\":\"WhitespaceSplit\"}},\
         \"post_processor\":null,\"decoder\":null,\
         \"model\":{{\"type\":\"WordLevel\",\"vocab\":{{\"[UNK]\":0,\"x\":1}},\
         \"unk_token\":\"[UNK]\"}}}}",
        added.join(","),
        normalizer
    );
    Tokenizer::from_bytes(json.as_bytes()).unwrap()
}

fn added(id: u32, content: &str, left: bool, right: bool, normalized: bool) -> String {
    format!(
        "{{\"id\":{},\"content\":\"{}\",\"single_word\":false,\"lstrip\":{},\"rstrip\":{},\
         \"normalized\":{},\"special\":false}}",
        id, content, left, right, normalized
    )
}

#[test]
fn added_tokens_that_clash_are_refused() {
    let prompt = request("<a>  x", OcrTask::Ocr);
    let behind = added(2, "<a>", false, true, false);
    let before = added(3, " ", true, false, false);
    let both = added(3, " ", true, true, false);
    let ids = encode_prompt(&prompt, &with_added(&[&behind], "null"));
    assert_eq!(ids.unwrap().unwrap(), vec![2, 1]);
    assert!(encode_prompt(&prompt, &with_added(&[&before], "null")).is_some());
    assert!(encode_prompt(&prompt, &with_added(&[&behind, &both], "null")).is_some());
    assert!(encode_prompt(&prompt, &with_added(&[&behind, &before], "null")).is_none());
    // A token that a normalizer leaves nothing of would be found inside a character.
    let strip = "{\"type\":\"Strip\",\"strip_left\":true,\"strip_right\":true}";
    let wide = request("\u{e9}", OcrTask::Ocr);
    let plain = added(2, " ", false, false, false);
    let emptied = added(2, " ", false, false, true);
    assert!(encode_prompt(&wide, &with_added(&[&plain], strip)).is_some());
    assert!(encode_prompt(&wide, &with_added(&[&emptied], "null")).is_some());
    assert!(encode_prompt(&wide, &with_added(&[&emptied], strip)).is_none());
}

#[test]
fn normalizers_follow_one_another() {
    let prompt = request("AB", OcrTask::Ocr);
    let listed = |parts: &[&str]| {
        format!("{{\"type\":\"Sequence\",\"normalizers\":[{}]}}", parts.join(","))
    };
    let ids = |parts: &[&str]| {
        encode_prompt(&prompt, &with_parts(&listed(parts), "null", "null", "null"))
            .map(|ids| ids.unwrap())
    };
    let lower = "{\"type\":\"Lowercase\"}";
    let replace = |pattern: &str, content: &str| {
        format!(
            "{{\"type\":\"Replace\",\"pattern\":{},\"content\":\"{}\"}}",
            pattern, content
        )
    };
    assert_eq!(ids(&[lower]), Some(vec![1]));
    assert_eq!(ids(&[&listed(&[&listed(&[lower])])]), Some(vec![1]));
    let start = replace("{\"Regex\":\"^\"}", "a");
    assert_eq!(ids(&[lower, &start]), Some(vec![0]));
    assert_eq!(ids(&[&start, lower]), None);
    assert_eq!(ids(&[&listed(&[&start]), lower]), None);
    assert_eq!(ids(&[&replace("{\"Regex\":\"^\"}", ""), lower]), Some(vec![1]));
    assert_eq!(ids(&[&replace("{\"String\":\"A\"}", "c"), &replace("{\"String\":\"B\"}", "D"), lower]), Some(vec![2]));
    assert_eq!(ids(&[&replace("{\"String\":\"\"}", "a"), lower]), None);
    assert_eq!(ids(&[&replace("{\"Regex\":\"A\\\\KB\"}", "a")]), None);
    assert_eq!(ids(&[&replace("{\"String\":\"\\\\K\"}", "a")]), Some(vec![0]));
    let nothing = "{\"type\":\"Prepend\",\"prepend\":\"\"}";
    assert_eq!(ids(&[nothing, lower]), None);
    assert_eq!(ids(&["{\"type\":\"Prepend\",\"prepend\":\"c\"}", lower]), Some(vec![0]));
    // Bytes are rewritten character by character too.
    let bytes = "{\"type\":\"ByteLevel\",\"add_prefix_space\":false,\"trim_offsets\":true,\"use_regex\":true}";
    assert!(can_encode(&with_parts(lower, bytes, "null", "null")));
    assert!(!can_encode(&with_parts(nothing, bytes, "null", "null")));
}

#[test]
fn splits_may_stand_in_lists() {
    let prompt = request("abcd", OcrTask::Ocr);
    let pairs = "{\"type\":\"FixedLength\",\"length\":2}";
    let listed = |part: &str| format!("{{\"type\":\"Sequence\",\"pretokenizers\":[{}]}}", part);
    let twice = listed(&listed(pairs));
    let ids = encode_prompt(&prompt, &with_parts("null", &twice, "null", "null"));
    assert_eq!(ids.unwrap().unwrap(), vec![1, 2]);
    let expression = |text: &str| {
        format!(
            "{{\"type\":\"Split\",\"pattern\":{{\"Regex\":\"{}\"}},\"behavior\":\"Isolated\",\
             \"invert\":false}}",
            text
        )
    };
    let ids = encode_prompt(&prompt, &with_parts("null", &expression("ab"), "null", "null"));
    assert_eq!(ids.unwrap().unwrap(), vec![1, 2]);
    assert!(!can_encode(&with_parts("null", &expression("(?=ab\\\\K)a"), "null", "null")));
}

#[test]
fn templates_may_follow_one_another() {
    let prompt = request("ab", OcrTask::Ocr);
    let piece = |id: &str| format!("{{\"Sequence\":{{\"id\":\"{}\",\"type_id\":0}}}}", id);
    let template = |single: &[&str], pair: &[&str]| {
        let pieces = |ids: &[&str]| ids.iter().map(|id| piece(id)).collect::<Vec<_>>().join(",");
        format!(
            "{{\"type\":\"TemplateProcessing\",\"single\":[{}],\"pair\":[{}],\"special_tokens\":{{}}}}",
            pieces(single),
            pieces(pair)
        )
    };
    let ids = |processors: &[String]| {
        let list = format!("{{\"type\":\"Sequence\",\"processors\":[{}]}}", processors.join(","));
        encode_prompt(&prompt, &with_parts("null", "null", &list, "null"))
            .map(|ids| ids.unwrap())
    };
    let one = template(&["A"], &["A", "B"]);
    let two = template(&["A", "A"], &["A", "B"]);
    let three = template(&["A", "A", "A"], &["A", "B"]);
    assert_eq!(ids(&[one.clone(), one.clone()]), Some(vec![1]));
    assert_eq!(ids(&[two.clone(), one.clone()]), Some(vec![1, 1]));
    assert_eq!(ids(&[two, template(&["A"], &["B", "A", "B"])]), Some(vec![1, 1, 1]));
    assert_eq!(ids(&[three.clone()]), Some(vec![1, 1, 1]));
    assert_eq!(ids(&[three, one]), None);
    // A special token may look like the place of a second text.
    let special = "{\"type\":\"TemplateProcessing\",\"single\":[{\"SpecialToken\":{\"id\":\
         \"\\\"Sequence { id: B\",\"type_id\":0}},{\"Sequence\":{\"id\":\"A\",\"type_id\":0}}],\
         \"pair\":[],\"special_tokens\":{\"\\\"Sequence { id: B\":{\"id\":\"\\\"Sequence { id: B\",\
         \"ids\":[0],\"tokens\":[\"[UNK]\"]}}}";
    assert_eq!(ids(&[special.to_owned()]), Some(vec![1]));
}

#[test]
fn long_fillings_are_taken() {
    let fill = |length: u64| {
        format!(
            "{{\"strategy\":{{\"Fixed\":{}}},\"direction\":\"Right\",\"pad_to_multiple_of\":null,\
             \"pad_id\":7,\"pad_type_id\":0,\"pad_token\":\"p\"}}",
            length
        )
    };
    assert!(can_encode(&with_parts("null", "null", "null", &fill(0x20_0000))));
    assert!(!can_encode(&with_parts("null", "null", "null", &fill(u64::MAX / 2))));
}

fn byte_pairs(dropout: &str) -> Tokenizer {
    let json = format!(
        "{{\"version\":\"1.0\",\"truncation\":null,\"padding\":null,\"added_tokens\":[],\
         \"normalizer\":null,\"pre_tokenizer\":null,\"post_processor\":null,\"decoder\":null,\
         \"model\":{{\"type\":\"BPE\",\"dropout\":{},\"unk_token\":null,\
         \"continuing_subword_prefix\":null,\"end_of_word_suffix\":null,\"fuse_unk\":false,\
         \"byte_fallback\":false,\"vocab\":{{\"a\":0,\"b\":1,\"ab\":2}},\"merges\":[\"a b\"]}}}}",
        dropout
    );
    Tokenizer::from_bytes(json.as_bytes()).unwrap()
}

#[test]
fn merges_may_be_left_out_at_random() {
    let prompt = request("ab", OcrTask::Ocr);
    for settled in ["null", "0.0"] {
        let tokenizer = byte_pairs(settled);
        assert!(leaves_nothing_to_chance(&tokenizer));
        assert_eq!(encode_prompt(&prompt, &tokenizer).unwrap().unwrap(), vec![2]);
    }
    let tokenizer = byte_pairs("0.5");
    assert!(!leaves_nothing_to_chance(&tokenizer));
    let ids = encode_prompt(&prompt, &tokenizer).unwrap().unwrap();
    assert!(ids == vec![2] || ids == vec![0, 1]);
}

#[test]
fn failed_tokenization_is_reported() {
    let json = "{\"version\":\"1.0\",\"truncation\":null,\"padding\":null,\"added_tokens\":[],\
         \"normalizer\":null,\"pre_tokenizer\":null,\"post_processor\":null,\"decoder\":null,\
         \"model\":{\"type\":\"WordLevel\",\"vocab\":{\"a\":0},\"unk_token\":\"[UNK]\"}}";
    let tokenizer = Tokenizer::from_bytes(json.as_bytes()).unwrap();
    match encode_prompt(&request("b", OcrTask::Ocr), &tokenizer) {
        Some(Err(RecognitionError::Tokenization(message))) => {
            assert!(message.starts_with("tokenization failed: "));
            assert!(message.len() > "tokenization failed: ".len());
        }
        other => panic!("{:?}", other),
    }
}

#[test]
fn answers_become_text() {
    let tokenizer = words("null", "null");
    let result = decode_answer(&request("", OcrTask::Ocr), &tokenizer, vec![1, 2, 1]).unwrap();
    assert_eq!(result.text, "hello world hello");
    assert_eq!(result.generated_tokens, vec![1, 2, 1]);
    assert_eq!(result.input_size, (200, 100));
    assert_eq!(result.image_grid_hw, [4, 6]);
    assert!(result.spotting.is_none());
    assert_eq!(result.as_text(), "hello world hello");
}

#[test]
fn tokens_that_a_decoder_fails_on_are_refused() {
    let answer = |decoder: &str, ids: Vec<u32>| {
        decode_answer(&request("", OcrTask::Ocr), &words(decoder, "null"), ids)
            .map(|result| result.text)
    };
    let fuse = "{\"type\":\"Fuse\"}";
    assert_eq!(answer(fuse, vec![1, 2]).unwrap(), "helloworld");
    let pairs = "{\"type\":\"BPEDecoder\",\"suffix\":\"o\"}";
    assert_eq!(answer(pairs, vec![1, 2]).unwrap(), "hell wrld");
    assert_eq!(answer(pairs, vec![]), None);
    assert_eq!(answer(pairs, vec![99]), None);
    let strip = |content: &str, start: usize, stop: usize| {
        format!(
            "{{\"type\":\"Strip\",\"content\":\"{}\",\"start\":{},\"stop\":{}}}",
            content, start, stop
        )
    };
    assert_eq!(answer(&strip("o", 0, 1), vec![1]).unwrap(), "hell");
    // An empty token has nothing to take off.
    let emptied = format!(
        "{{\"type\":\"Sequence\",\"decoders\":[{{\"type\":\"Replace\",\
         \"pattern\":{{\"String\":\"hello\"}},\"content\":\"\"}},{}]}}",
        strip("o", 0, 1)
    );
    assert_eq!(answer(&emptied, vec![2]).unwrap(), "world");
    assert_eq!(answer(&emptied, vec![1]), None);
    let nested = format!(
        "{{\"type\":\"Sequence\",\"decoders\":[{{\"type\":\"Sequence\",\"decoders\":[{},{}]}}]}}",
        fuse, pairs
    );
    assert_eq!(answer(&nested, vec![1, 2]).unwrap(), "hellwrld");
    assert_eq!(answer(&nested, vec![]).unwrap(), "");
    let replace = "{\"type\":\"Replace\",\"pattern\":{\"Regex\":\"(?=he\\\\K)h\"},\"content\":\"x\"}";
    assert_eq!(answer(replace, vec![1]), None);
}

#[test]
fn spotted_answers_carry_boxes() {
    let raw = "word<|LOC_0|><|LOC_0|><|LOC_500|><|LOC_0|><|LOC_500|><|LOC_1000|><|LOC_0|><|LOC_1000|>";
    let result = finish_request(&request("", OcrTask::Spotting), vec![5], raw.to_owned());
    let spotting = result.spotting.unwrap();
    assert_eq!(spotting.rec_texts.len(), spotting.rec_polys.len());
    assert_eq!(spotting.rec_texts, vec!["word".to_owned()]);
    let (text, direct) = post_process_for_spotting(raw, 200, 100);
    assert_eq!(result.text, text);
    assert_eq!(direct.rec_texts, vec!["word".to_owned()]);
}

#[test]
fn a_release_that_spots_no_text_says_so() {
    let cfg = PaddleOcrCfg::for_version(PaddleOcrVersion::V1_0);
    let answer = checked_prepare_request(
        PaddleOcrVersion::V1_0,
        &cfg,
        DynamicImage::new_rgb8(64, 64),
        OcrTask::Spotting,
    );
    assert!(matches!(
        answer,
        Some(Err(RecognitionError::SpottingUnsupported))
    ));
}

#[test]
fn frames_must_be_single() {
    let mut cfg = PaddleOcrCfg::for_version(PaddleOcrVersion::V1_0);
    cfg.temporal_patch_size = 2;
    let answer = checked_prepare_request(
        PaddleOcrVersion::V1_0,
        &cfg,
        DynamicImage::new_rgb8(64, 64),
        OcrTask::Ocr,
    );
    assert!(matches!(
        answer,
        Some(Err(RecognitionError::Preprocess(
            PreprocessError::TemporalPatchSize
        )))
    ));
}

#[test]
fn narrow_images_are_refused() {
    let cfg = PaddleOcrCfg::for_version(PaddleOcrVersion::V1_0);
    let answer = checked_prepare_request(
        PaddleOcrVersion::V1_0,
        &cfg,
        DynamicImage::new_rgb8(6000, 28),
        OcrTask::Ocr,
    );
    assert!(matches!(
        answer,
        Some(Err(RecognitionError::Preprocess(PreprocessError::Aspect(
            ResizeError {
                longer: 6000,
                shorter: 28
            }
        ))))
    ));
}

#[test]
fn requests_hold_one_placeholder_for_every_block() {
    let cfg = PaddleOcrCfg::for_version(PaddleOcrVersion::V1_5);
    let request = checked_prepare_request(
        PaddleOcrVersion::V1_5,
        &cfg,
        DynamicImage::new_rgb8(280, 140),
        OcrTask::Table,
    )
    .unwrap()
    .unwrap();
    let [rows, columns] = request.image.image_grid_hw;
    let merged = rows * columns / (cfg.merge_size * cfg.merge_size);
    assert_eq!(request.prompt.matches(cfg.image_token).count(), merged);
    assert!(request.prompt.contains(OcrTask::Table.prompt()));
    assert_eq!(request.input_size, (280, 140));
    assert_eq!(
        request.image.patches.len(),
        rows * columns * 3 * cfg.patch_size * cfg.patch_size
    );
}

#[test]
fn missing_placeholders_are_reported() {
    let cfg = PaddleOcrCfg::for_version(PaddleOcrVersion::V1_0);
    assert_eq!(
        expand_image_placeholders("no place", &[[2, 2]], &cfg),
        Err("image placeholder count < image count".to_owned())
    );
    let one = expand_image_placeholders(
        &format!("a{}b", cfg.image_token),
        &[[4, 6]],
        &cfg,
    )
    .unwrap();
    assert_eq!(one, format!("a{}b", cfg.image_token.repeat(6)));
    let two = expand_image_placeholders(
        &format!("a{0}b{0}c", cfg.image_token),
        &[[4, 6], [2, 2]],
        &cfg,
    )
    .unwrap();
    assert_eq!(two.len(), 3 + 7 * cfg.image_token.len());
}

/// Sizes computed the way double-precision arithmetic does.
fn by_doubles(
    height: usize,
    width: usize,
    factor: usize,
    min_pixels: usize,
    max_pixels: usize,
) -> (usize, usize) {
    let (mut h, mut w) = (height, width);
    if h < factor {
        w = ((w as f64 * factor as f64) / h as f64).round_ties_even() as usize;
        h = factor;
    }
    if w < factor {
        h = ((h as f64 * factor as f64) / w as f64).round_ties_even() as usize;
        w = factor;
    }
    let fac = factor as f64;
    let mut h_bar = (h as f64 / fac).round_ties_even() as usize * factor;
    let mut w_bar = (w as f64 / fac).round_ties_even() as usize * factor;
    if h_bar * w_bar > max_pixels {
        let beta = ((h * w) as f64 / max_pixels as f64).sqrt();
        h_bar = factor.max((h as f64 / beta / fac).floor() as usize * factor);
        w_bar = factor.max((w as f64 / beta / fac).floor() as usize * factor);
    } else if h_bar * w_bar < min_pixels {
        let beta = (min_pixels as f64 / (h * w) as f64).sqrt();
        h_bar = (h as f64 * beta / fac).ceil() as usize * factor;
        w_bar = (w as f64 * beta / fac).ceil() as usize * factor;
    }
    (h_bar, w_bar)
}

#[test]
fn sizes_follow_double_precision() {
    for (h, w) in [
        (28usize, 28usize),
        (100, 200),
        (1, 150),
        (17, 3000),
        (1080, 1920),
        (3508, 2480),
        (42, 14),
        (5000, 5000),
        (333, 777),
    ] {
        let sizes = checked_smart_resize(h, w, 28, 28 * 28 * 130, 28 * 28 * 1280)
            .unwrap()
            .unwrap();
        assert_eq!(
            sizes,
            by_doubles(h, w, 28, 28 * 28 * 130, 28 * 28 * 1280),
            "{} {}",
            h,
            w
        );
        assert_eq!(sizes.0 % 28, 0);
        assert_eq!(sizes.1 % 28, 0);
    }
    assert_eq!(
        smart_resize(1, 201, 28, 28 * 28, 28 * 28 * 1280),
        Err(ResizeError {
            longer: 5628,
            shorter: 28
        })
    );
}

#[test]
fn pixel_limits_are_kept() {
    let (least, most) = (28 * 28 * 130, 28 * 28 * 1280);
    for (h, w) in [
        (5000usize, 5000usize),
        (30, 5900),
        (28, 5600),
        (4096, 21),
        (1001, 1003),
    ] {
        let (high, wide) = smart_resize(h, w, 28, least, most).unwrap();
        assert!(high * wide <= most, "{} {}", h, w);
    }
    for (h, w) in [(28usize, 28usize), (1, 1), (57, 300), (31, 29)] {
        let (high, wide) = smart_resize(h, w, 28, least, most).unwrap();
        assert!(high * wide >= least, "{} {}", h, w);
    }
    // A limit below the square of the factor cannot be kept: both sides are held.
    assert_eq!(smart_resize(100, 100, 28, 0, 100), Ok((28, 28)));
}

#[test]
fn sides_hold_a_factor() {
    for (h, w) in [(1usize, 1usize), (1, 150), (27, 27), (28, 3), (4000, 21), (5, 999)] {
        let (high, wide) = smart_resize(h, w, 28, 0, 28 * 28 * 4).unwrap();
        assert!(high >= 28 && wide >= 28, "{} {}", h, w);
    }
}

#[test]
fn resized_sizes_stay() {
    let (least, most) = (28 * 28 * 130, 28 * 28 * 1280);
    for (h, w) in [(5000usize, 5000usize), (1, 1), (640, 480), (1001, 1003)] {
        let (high, wide) = smart_resize(h, w, 28, least, most).unwrap();
        assert!(least <= high * wide && high * wide <= most);
        assert_eq!(smart_resize(high, wide, 28, least, most), Ok((high, wide)));
    }
}

#[test]
fn spotted_texts_are_trimmed() {
    let tokens = "<|LOC_1|><|LOC_2|><|LOC_3|><|LOC_4|><|LOC_5|><|LOC_6|><|LOC_7|><|LOC_8|>";
    let (_, official) = post_process_for_spotting(
        &format!("<|TEXT_START|> \u{3000}two words\t<|TEXT_END|><|LOC_BEGIN|>{}<|LOC_END|>", tokens),
        100,
        100,
    );
    assert_eq!(official.rec_texts, vec!["two words".to_owned()]);
    let (_, plain) = post_process_for_spotting(&format!("\n two words {}", tokens), 100, 100);
    assert_eq!(plain.rec_texts, vec!["two words".to_owned()]);
}

#[test]
fn fewer_than_eight_tokens_spot_nothing() {
    let seven = "<|LOC_1|><|LOC_2|><|LOC_3|><|LOC_4|><|LOC_5|><|LOC_6|><|LOC_7|>";
    for text in [
        format!("words {}", seven),
        format!("<|TEXT_START|>words<|TEXT_END|><|LOC_BEGIN|>{}<|LOC_END|>", seven),
    ] {
        let (_, spotting) = post_process_for_spotting(&text, 100, 100);
        assert!(spotting.rec_texts.is_empty() && spotting.rec_polys.is_empty());
    }
}

#[test]
fn twice_the_width_doubles_x() {
    let text =
        "word <|LOC_1|><|LOC_2|><|LOC_333|><|LOC_4|><|LOC_777|><|LOC_6|><|LOC_999|><|LOC_8|>";
    for width in [1u32, 7, 1023, 8_388_607, 2_147_483_647] {
        let (_, once) = post_process_for_spotting(text, width, 77);
        let (_, twice) = post_process_for_spotting(text, 2 * width, 77);
        assert_eq!(once.rec_polys.len(), 1);
        for (a, b) in once.rec_polys[0].iter().zip(twice.rec_polys[0].iter()) {
            assert_eq!(2.0 * f32::from_bits(a[0].bits), f32::from_bits(b[0].bits));
            assert_eq!(a[1].bits, b[1].bits);
        }
    }
}

#[test]
fn patches_are_cut_channel_by_channel() {
    // Two patches of two by two pixels, side by side.
    let mut rgb: Vec<u8> = Vec::new();
    for y in 0..2u8 {
        for x in 0..4u8 {
            rgb.push(10 * y + x);
            rgb.push(100 + 10 * y + x);
            rgb.push(200 + 10 * y + x);
        }
    }
    let patches = cut_patches(&rgb, 1, 2, 2);
    assert_eq!(
        patches,
        vec![
            0, 1, 10, 11, 100, 101, 110, 111, 200, 201, 210, 211, //
            2, 3, 12, 13, 102, 103, 112, 113, 202, 203, 212, 213,
        ]
    );
}

#[test]
fn images_are_resized_and_cut() {
    let mut img = RgbImage::new(56, 84);
    for pixel in img.pixels_mut() {
        *pixel = Rgb([40, 90, 200]);
    }
    let cfg = PaddleOcrCfg::for_version(PaddleOcrVersion::V1_0);
    assert!(can_preprocess((56, 84), &cfg));
    let output = checked_preprocess_image(&DynamicImage::ImageRgb8(img), &cfg)
        .unwrap()
        .unwrap();
    let (h, w) = by_doubles(84, 56, 28, cfg.min_pixels, cfg.max_pixels);
    assert_eq!(output.image_grid_hw, [h / 14, w / 14]);
    assert_eq!(output.patches[0], 40);
    assert_eq!(output.patches[14 * 14], 90);
    assert_eq!(output.patches[2 * 14 * 14], 200);
}

#[test]
fn spotting_doubles_both_sides() {
    let img = prepare_image_for_task(DynamicImage::new_rgb8(30, 40), OcrTask::Spotting);
    assert_eq!(img.dimensions(), (60, 80));
    let same = prepare_image_for_task(DynamicImage::new_rgb8(30, 40), OcrTask::Ocr);
    assert_eq!(same.dimensions(), (30, 40));
}

#[test]
fn preprocessor_files_override_presets() {
    let mut cfg = PaddleOcrCfg::for_version(PaddleOcrVersion::V1_0);
    let before = cfg.clone();
    PreprocessorConfigFile {
        min_pixels: Some(7),
        max_pixels: None,
        size: None,
        patch_size: Some(16),
        temporal_patch_size: None,
        merge_size: None,
        rescale_factor: Some(F32 {
            bits: 0.5f32.to_bits(),
        }),
        image_mean: None,
        image_std: None,
    }
    .apply_to(&mut cfg);
    assert_eq!(cfg.min_pixels, 7);
    assert_eq!(cfg.max_pixels, before.max_pixels);
    assert_eq!(cfg.patch_size, 16);
    assert_eq!(cfg.merge_size, before.merge_size);
    assert_eq!(cfg.rescale_factor.bits, 0.5f32.to_bits());
    assert_eq!(before.rescale_factor.bits, (1.0f32 / 255.0).to_bits());
}

#[test]
fn spotting_has_its_own_limit() {
    assert_eq!(
        default_max_new_tokens_for_task(None, PaddleOcrVersion::V1_5, OcrTask::Spotting),
        PADDLEOCR_VL_SPOTTING_MAX_NEW_TOKENS
    );
    assert_eq!(
        default_max_new_tokens_for_task(Some(9), PaddleOcrVersion::V1_5, OcrTask::Spotting),
        9
    );
    assert_eq!(
        default_max_new_tokens_for_task(None, PaddleOcrVersion::V1_5, OcrTask::Ocr),
        default_max_new_tokens(None, PaddleOcrVersion::V1_5)
    );
}

#[test]
fn positions_of_an_image_run_over_rows_and_columns() {
    // One text token, the start of the image, four image tokens, two text tokens.
    let ids = [5u32, 1, 9, 9, 9, 9, 6, 7];
    let grids = [(1usize, 4usize, 4usize)];
    assert!(prompt_holds_grids(&ids, &grids, 9, 1, 2));
    let index = get_rope_index(&ids, &grids, 9, 1, 2);
    assert_eq!(index.temporal, vec![0, 1, 2, 2, 2, 2, 4, 5]);
    assert_eq!(index.height, vec![0, 1, 2, 2, 3, 3, 4, 5]);
    assert_eq!(index.width, vec![0, 1, 2, 3, 2, 3, 4, 5]);
    assert_eq!(index.rope_deltas, 6 - 8);
    assert_eq!(
        build_mm_token_type_ids(&ids, 9),
        vec![0, 0, 1, 1, 1, 1, 0, 0]
    );
}

#[test]
fn text_in_front_moves_positions() {
    let ids = [1u32, 9, 9, 9, 9, 6, 1, 9, 9, 7];
    let grids = [(1usize, 4usize, 4usize), (1, 2, 4)];
    let index = get_rope_index(&ids, &grids, 9, 1, 2);
    let front = [5u32, 8, 5];
    let all: Vec<u32> = front.iter().chain(ids.iter()).copied().collect();
    assert!(prompt_holds_grids(&all, &grids, 9, 1, 2));
    let moved = get_rope_index(&all, &grids, 9, 1, 2);
    for (before, after) in [
        (&index.temporal, &moved.temporal),
        (&index.height, &moved.height),
        (&index.width, &moved.width),
    ] {
        assert_eq!(&after[..3], &[0, 1, 2]);
        let expected: Vec<i64> = before.iter().map(|p| p + 3).collect();
        assert_eq!(&after[3..], &expected[..]);
    }
    assert_eq!(moved.rope_deltas, index.rope_deltas);
}

#[test]
fn positions_of_plain_text_count_up() {
    let ids = [5u32, 6, 7];
    let index = get_rope_index(&ids, &[], 9, 1, 2);
    assert_eq!(index.temporal, vec![0, 1, 2]);
    assert_eq!(index.height, index.temporal);
    assert_eq!(index.width, index.temporal);
    assert_eq!(index.rope_deltas, 0);
}

#[test]
fn answers_continue_past_the_prompt() {
    let ids = [5u32, 1, 9, 9, 9, 9, 6, 7];
    let tokens = PromptTokens {
        image_token_id: 9,
        vision_start_token_id: 1,
        spatial_merge_size: 2,
    };
    assert_eq!(image_token_span(&ids, 9), Some((2, 4)));
    assert_eq!(image_token_span(&ids, 8), None);
    assert!(can_generate(&ids, &[(4, 4)], 4, tokens, 3));
    assert!(!can_generate(&ids, &[(4, 4)], 5, tokens, 3));
    let plan = plan_generation(&ids, &[(4, 4)], 4, tokens, 3);
    assert_eq!((plan.first_image, plan.image_tokens), (2, 4));
    assert_eq!(plan.positions.len(), 3 * 11);
    assert_eq!(&plan.positions[8..11], &[6, 7, 8]);
    assert_eq!(&plan.positions[19..22], &[6, 7, 8]);
}

#[test]
fn decoding_stops_at_the_end_token_or_the_limit() {
    let mut decoding = Decoding::new(10, 2, 2);
    assert_eq!(
        decoding.propose(7),
        DecodeStep::Feed {
            token: 7,
            index: 10
        }
    );
    assert_eq!(decoding.propose(2), DecodeStep::Stop);
    assert_eq!(decoding.generated, vec![7]);

    let mut limited = Decoding::new(10, 1, 2);
    assert_eq!(
        limited.propose(8),
        DecodeStep::Feed {
            token: 8,
            index: 10
        }
    );
    assert_eq!(limited.propose(9), DecodeStep::Stop);
    assert_eq!(limited.generated, vec![8]);
}

#[test]
fn located_texts_need_eight_numbers() {
    let located = pair_blocks(
        &vec!["a".to_owned(), "b".to_owned()],
        &vec![vec![
            "1".to_owned(),
            "2".to_owned(),
            "3".to_owned(),
            "4".to_owned(),
            "5".to_owned(),
            "6".to_owned(),
            "7".to_owned(),
            "8".to_owned(),
        ]],
    );
    assert_eq!(located.texts.len(), located.quads.len());
    assert_eq!(located.texts, vec!["a".to_owned()]);

    let text = "xy";
    let none = group_tokens(text, &Vec::new(), &Vec::new());
    assert_eq!(none.quads.len(), 0);
}
