//! Settings, prompts and answers of the recognizer.

use image::DynamicImage;
use paddleocr_vl::chat::{render_chat, Content, Message};
use paddleocr_vl::config::{
    PaddleOcrCfg, V1_0_MAX_PIXELS, V1_0_MIN_PIXELS, V1_5_MAX_PIXELS, V1_5_MIN_PIXELS,
};
use paddleocr_vl::float::F32;
use paddleocr_vl::picture::prepare_image_for_task;
use paddleocr_vl::spotting::post_process_for_spotting;
use paddleocr_vl::version::{OcrTask, PaddleOcrVersion};

fn corners(polys: &[[[F32; 2]; 4]]) -> Vec<[[f32; 2]; 4]> {
    let mut out = Vec::new();
    for poly in polys {
        let mut points = [[0.0f32; 2]; 4];
        for (point, corner) in points.iter_mut().zip(poly.iter()) {
            point[0] = f32::from_bits(corner[0].bits);
            point[1] = f32::from_bits(corner[1].bits);
        }
        out.push(points);
    }
    out
}

#[test]
fn version_presets_keep_processor_and_template_differences() {
    let v1_0 = PaddleOcrCfg::for_version(PaddleOcrVersion::V1_0);
    let v1_5 = PaddleOcrCfg::for_version(PaddleOcrVersion::V1_5);

    assert_eq!(v1_0.min_pixels, V1_0_MIN_PIXELS);
    assert_eq!(v1_0.max_pixels, V1_0_MAX_PIXELS);
    assert_eq!(v1_0.assistant_prefix, "Assistant: ");

    assert_eq!(v1_5.min_pixels, V1_5_MIN_PIXELS);
    assert_eq!(v1_5.max_pixels, V1_5_MAX_PIXELS);
    assert_eq!(v1_5.assistant_prefix, "Assistant:\n");
}

#[test]
fn render_chat_matches_official_template_for_generation_prompt() {
    let image = DynamicImage::new_rgb8(8, 8);
    let messages = [Message {
        role: "user",
        content: vec![
            Content::Image(&image),
            Content::Text(OcrTask::Seal.prompt()),
        ],
    }];

    let v1_0 = render_chat(
        &messages,
        true,
        &PaddleOcrCfg::for_version(PaddleOcrVersion::V1_0),
    );
    let v1_5 = render_chat(
        &messages,
        true,
        &PaddleOcrCfg::for_version(PaddleOcrVersion::V1_5),
    );

    assert_eq!(
        v1_0,
        "<|begin_of_sentence|>User: <|IMAGE_START|><|IMAGE_PLACEHOLDER|><|IMAGE_END|>Seal Recognition:\nAssistant: "
    );
    assert_eq!(
        v1_5,
        "<|begin_of_sentence|>User: <|IMAGE_START|><|IMAGE_PLACEHOLDER|><|IMAGE_END|>Seal Recognition:\nAssistant:\n"
    );
}

#[test]
fn render_chat_matches_official_template_for_assistant_message() {
    let messages = [Message {
        role: "assistant",
        content: vec![Content::Text("result")],
    }];

    let v1_0 = render_chat(
        &messages,
        false,
        &PaddleOcrCfg::for_version(PaddleOcrVersion::V1_0),
    );
    let v1_5 = render_chat(
        &messages,
        false,
        &PaddleOcrCfg::for_version(PaddleOcrVersion::V1_5),
    );

    assert_eq!(v1_0, "<|begin_of_sentence|>Assistant: result</s>");
    assert_eq!(v1_5, "<|begin_of_sentence|>Assistant:\nresult</s>");
}

#[test]
fn spotting_upscales_small_images_only() {
    let small = prepare_image_for_task(DynamicImage::new_rgb8(640, 480), OcrTask::Spotting);
    let large = prepare_image_for_task(DynamicImage::new_rgb8(1800, 480), OcrTask::Spotting);
    let ocr = prepare_image_for_task(DynamicImage::new_rgb8(640, 480), OcrTask::Ocr);

    assert_eq!((small.width(), small.height()), (1280, 960));
    assert_eq!((large.width(), large.height()), (1800, 480));
    assert_eq!((ocr.width(), ocr.height()), (640, 480));
}

#[test]
fn post_process_for_spotting_parses_official_blocks() {
    let (text, spotting) = post_process_for_spotting(
        "<|TEXT_START|>你好<|TEXT_END|><|LOC_BEGIN|><|LOC_0|><|LOC_0|><|LOC_500|><|LOC_0|><|LOC_500|><|LOC_250|><|LOC_0|><|LOC_250|><|LOC_END|>",
        200,
        100,
    );

    assert_eq!(text, "你好");
    assert_eq!(spotting.rec_texts, vec!["你好"]);
    assert_eq!(
        corners(&spotting.rec_polys),
        vec![[[0.0, 0.0], [100.0, 0.0], [100.0, 25.0], [0.0, 25.0]]]
    );
}

#[test]
fn post_process_for_spotting_falls_back_to_loc_tokens() {
    let (text, spotting) = post_process_for_spotting(
        "fallback text <|LOC_100|><|LOC_200|><|LOC_300|><|LOC_200|><|LOC_300|><|LOC_400|><|LOC_100|><|LOC_400|>",
        1000,
        500,
    );

    assert_eq!(text, "fallback text");
    assert_eq!(spotting.rec_texts, vec!["fallback text"]);
    assert_eq!(
        corners(&spotting.rec_polys),
        vec![[
            [100.0, 100.0],
            [300.0, 100.0],
            [300.0, 200.0],
            [100.0, 200.0]
        ]]
    );
}
