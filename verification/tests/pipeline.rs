//! Parsing of pages: what is recognized, what is reported and what is written.

use image::{DynamicImage, GenericImageView, Rgb, RgbImage};
use paddleocr_vl::crop::{bbox_to_u32, checked_crop_bbox, CropError};
use paddleocr_vl::float::F32;
use paddleocr_vl::inputs::{
    collect_images, is_image_file, output_path, required_images, DirectoryEntry, Input, OutputPlace,
};
use paddleocr_vl::layout::LayoutBlock;
use paddleocr_vl::page::{
    image_block_file_name, page_result, parse_blocks, ParsedBlock, PipelineModelSettings,
    PipelineResult,
};
use paddleocr_vl::pipeline::{
    task_for_label, PageAction, PageError, PageParser, PipelineConfig, PipelineProgress,
};
use paddleocr_vl::version::{OcrTask, PipelineVersion};

fn f(x: f32) -> F32 {
    F32 { bits: x.to_bits() }
}

fn bbox(b: [f32; 4]) -> [F32; 4] {
    [f(b[0]), f(b[1]), f(b[2]), f(b[3])]
}

fn rectangle(b: [f32; 4]) -> Vec<[F32; 2]> {
    vec![
        [f(b[0]), f(b[1])],
        [f(b[2]), f(b[1])],
        [f(b[2]), f(b[3])],
        [f(b[0]), f(b[3])],
    ]
}

fn sample_result(source_path: Option<String>) -> PipelineResult {
    PipelineResult {
        input_path: Some("sample.png".to_owned()),
        source_path,
        page_index: None,
        page_count: None,
        width: 100,
        height: 200,
        model_settings: PipelineModelSettings {
            use_doc_preprocessor: false,
            use_layout_detection: true,
            use_chart_recognition: false,
            use_seal_recognition: true,
            use_ocr_for_image_block: false,
            format_block_content: false,
            merge_layout_blocks: true,
            markdown_ignore_labels: vec!["header".to_owned()],
            return_layout_polygon_points: true,
        },
        blocks: vec![
            ParsedBlock {
                label: "header".to_owned(),
                content: "ignored header".to_owned(),
                bbox: [0, 0, 100, 20],
                id: 0,
                order: None,
                group_id: 0,
                block_polygon_points: rectangle([0.0, 0.0, 100.0, 20.0]),
                source_bbox: bbox([0.0, 0.0, 100.0, 20.0]),
            },
            ParsedBlock {
                label: "text".to_owned(),
                content: "kept text".to_owned(),
                bbox: [0, 20, 100, 80],
                id: 1,
                order: Some(1),
                group_id: 1,
                block_polygon_points: rectangle([0.0, 20.0, 100.0, 80.0]),
                source_bbox: bbox([0.0, 20.0, 100.0, 80.0]),
            },
            ParsedBlock {
                label: "image".to_owned(),
                content: String::new(),
                bbox: [10, 90, 30, 110],
                id: 2,
                order: None,
                group_id: 2,
                block_polygon_points: rectangle([10.0, 90.0, 30.0, 110.0]),
                source_bbox: bbox([10.0, 90.0, 30.0, 110.0]),
            },
        ],
    }
}

fn block(id: usize, label: &str, b: [f32; 4]) -> LayoutBlock {
    LayoutBlock {
        id,
        label_id: 0,
        label: label.to_owned(),
        score: f(0.9),
        bbox: bbox(b),
        polygon: None,
    }
}

/// A page whose pixels all differ.
fn page() -> DynamicImage {
    let mut img = RgbImage::new(40, 30);
    for (x, y, pixel) in img.enumerate_pixels_mut() {
        *pixel = Rgb([x as u8, y as u8, 7]);
    }
    DynamicImage::ImageRgb8(img)
}

#[test]
fn markdown_ignore_labels_do_not_affect_json() {
    let result = sample_result(None);
    let markdown = result.to_markdown();

    assert!(!markdown.contains("ignored header"));
    assert!(markdown.contains("kept text"));
    assert!(markdown.contains("imgs/img_in_image_box_10_90_30_110.jpg"));
    assert_eq!(result.blocks[0].label, "header");
    assert_eq!(result.blocks[0].content, "ignored header");
    assert_eq!(result.blocks.len(), 3);
}

#[test]
fn output_paths_and_markdown_image_crops_match_reference_style() {
    match output_path(false, Some("sample"), "json") {
        OutputPlace::Inside(name) => assert_eq!(name, "sample_res.json"),
        OutputPlace::AsGiven => panic!("a directory takes a file"),
    }
    match output_path(false, Some("sample"), "md") {
        OutputPlace::Inside(name) => assert_eq!(name, "sample.md"),
        OutputPlace::AsGiven => panic!("a directory takes a file"),
    }

    let result = sample_result(Some("sample.png".to_owned()));
    let crops = result.markdown_crops();
    assert_eq!(crops, vec![2]);
    let source = DynamicImage::new_rgb8(40, 140);
    let (name, crop) = result.checked_markdown_crop(2, &source).unwrap();
    assert_eq!(name, "img_in_image_box_10_90_30_110.jpg");
    let crop = crop.unwrap();
    assert_eq!(crop.dimensions(), (20, 20));
    assert!(result.to_markdown().contains(
        "<div style=\"text-align: center;\"><img src=\"imgs/img_in_image_box_10_90_30_110.jpg\""
    ));
}

#[test]
fn official_text_like_layout_labels_are_recognized() {
    let config = PipelineConfig::default();

    assert_eq!(task_for_label("header", &config), Some(OcrTask::Ocr));
    assert_eq!(task_for_label("number", &config), Some(OcrTask::Ocr));
    assert_eq!(task_for_label("footnote", &config), Some(OcrTask::Ocr));
    assert_eq!(
        task_for_label("formula_number", &config),
        Some(OcrTask::Ocr)
    );
    assert_eq!(
        task_for_label("vision_footnote", &config),
        Some(OcrTask::Ocr)
    );
    assert_eq!(task_for_label("image", &config), None);
}

#[test]
fn special_labels_have_their_own_tasks() {
    let mut config = PipelineConfig::for_version(PipelineVersion::V1_5);
    assert_eq!(task_for_label("table", &config), Some(OcrTask::Table));
    config.use_chart_recognition = false;
    assert_eq!(task_for_label("chart", &config), None);
    config.use_chart_recognition = true;
    assert_eq!(task_for_label("chart", &config), Some(OcrTask::Chart));
    config.use_seal_recognition = false;
    assert_eq!(task_for_label("seal", &config), None);
    config.use_seal_recognition = true;
    assert_eq!(task_for_label("seal", &config), Some(OcrTask::Seal));
    assert_eq!(task_for_label("formula", &config), Some(OcrTask::Formula));
    config.use_ocr_for_image_block = true;
    assert_eq!(task_for_label("image", &config), Some(OcrTask::Ocr));
}

#[test]
fn the_last_block_without_an_extension_is_named_output() {
    match output_path(false, None, "json") {
        OutputPlace::Inside(name) => assert_eq!(name, "output_res.json"),
        OutputPlace::AsGiven => panic!("a directory takes a file"),
    }
    assert!(matches!(
        output_path(true, Some("x"), "json"),
        OutputPlace::AsGiven
    ));
}

#[test]
fn a_page_is_parsed_block_by_block() {
    let config = PipelineConfig::default();
    let image = page();
    let mut parser = PageParser::new(vec![
        block(0, "text", [2.0, 3.0, 12.0, 9.0]),
        block(1, "image", [0.0, 0.0, 40.0, 30.0]),
        block(2, "table", [20.0, 10.0, 30.0, 20.0]),
    ]);

    assert!(matches!(
        parser.checked_advance(&image, &config),
        Some(PageAction::Report(PipelineProgress::LayoutDetected {
            total_blocks: 3
        }))
    ));
    match parser.checked_advance(&image, &config) {
        Some(PageAction::Report(PipelineProgress::BlockStarted {
            current,
            total,
            label,
            will_recognize,
        })) => {
            assert_eq!((current, total), (1, 3));
            assert_eq!(label, "text");
            assert!(will_recognize);
        }
        _ => panic!("the first block starts"),
    }
    match parser.checked_advance(&image, &config) {
        Some(PageAction::Recognize { crop, task }) => {
            assert_eq!(task, OcrTask::Ocr);
            assert_eq!(crop.dimensions(), (10, 6));
            assert_eq!(crop.to_rgb8().get_pixel(0, 0), &Rgb([2, 3, 7]));
            assert_eq!(crop.to_rgb8().get_pixel(9, 5), &Rgb([11, 8, 7]));
        }
        _ => panic!("the first block is read"),
    }
    match parser.recognized(Ok("said".to_owned())) {
        PageAction::Report(PipelineProgress::BlockFinished {
            current,
            total,
            label,
            recognized,
        }) => {
            assert_eq!((current, total), (1, 3));
            assert_eq!(label, "text");
            assert!(recognized);
        }
        _ => panic!("the first block ends"),
    }
    assert!(matches!(
        parser.checked_advance(&image, &config),
        Some(PageAction::Report(PipelineProgress::BlockStarted {
            current: 2,
            will_recognize: false,
            ..
        }))
    ));
    assert!(matches!(
        parser.checked_advance(&image, &config),
        Some(PageAction::Report(PipelineProgress::BlockFinished {
            current: 2,
            recognized: false,
            ..
        }))
    ));
    assert!(matches!(
        parser.checked_advance(&image, &config),
        Some(PageAction::Report(PipelineProgress::BlockStarted { current: 3, .. }))
    ));
    assert!(matches!(
        parser.checked_advance(&image, &config),
        Some(PageAction::Recognize {
            task: OcrTask::Table,
            ..
        })
    ));
    parser.recognized(Ok("<table>".to_owned()));
    assert!(matches!(
        parser.checked_advance(&image, &config),
        Some(PageAction::Finish)
    ));

    let result = page_result(&parser, &config, 40, 30, None, None);
    assert_eq!(result.blocks.len(), 3);
    assert_eq!(result.blocks[0].content, "said");
    assert_eq!(result.blocks[0].order, Some(1));
    assert_eq!(result.blocks[1].content, "");
    assert_eq!(result.blocks[2].content, "<table>");
    assert_eq!((result.width, result.height), (40, 30));
}

#[test]
fn a_failed_answer_ends_the_page() {
    let config = PipelineConfig::default();
    let image = page();
    let mut parser = PageParser::new(vec![block(0, "text", [2.0, 3.0, 12.0, 9.0])]);
    for _ in 0..3 {
        parser.checked_advance(&image, &config).unwrap();
    }
    match parser.recognized(Err("broken".to_owned())) {
        PageAction::Fail(PageError::Recognition(message)) => assert_eq!(message, "broken"),
        _ => panic!("the page fails"),
    }
}

#[test]
fn a_block_without_pixels_ends_the_page() {
    let config = PipelineConfig::default();
    let image = page();
    let mut parser = PageParser::new(vec![block(0, "text", [5.0, 3.0, f32::NAN, 9.0])]);
    parser.checked_advance(&image, &config).unwrap();
    parser.checked_advance(&image, &config).unwrap();
    match parser.checked_advance(&image, &config) {
        Some(PageAction::Fail(PageError::Crop(CropError { bbox: b }))) => {
            assert_eq!(b, bbox([5.0, 3.0, f32::NAN, 9.0]));
        }
        _ => panic!("the page fails"),
    }
}

#[test]
fn an_empty_page_is_reported_and_finished() {
    let config = PipelineConfig::default();
    let image = page();
    let mut parser = PageParser::new(Vec::new());
    assert!(matches!(
        parser.checked_advance(&image, &config),
        Some(PageAction::Report(PipelineProgress::LayoutDetected {
            total_blocks: 0
        }))
    ));
    assert!(matches!(
        parser.checked_advance(&image, &config),
        Some(PageAction::Finish)
    ));
}

#[test]
fn crops_follow_the_rounding_of_single_precision() {
    let image = page();
    for b in [
        [0.0f32, 0.0, 40.0, 30.0],
        [-3.5, -0.25, 7.25, 9.5],
        [1.5, 2.49, 38.5, 29.99],
        [10.2, 10.8, 10.9, 11.1],
        [39.5, 29.5, 100.0, 100.0],
        [50.0, 3.0, 60.0, 2.0],
    ] {
        let crop = checked_crop_bbox(&image, bbox(b)).unwrap().unwrap();
        let left = b[0].floor().clamp(0.0, 39.0) as u32;
        let top = b[1].floor().clamp(0.0, 29.0) as u32;
        let right = b[2].ceil().clamp((left + 1) as f32, 40.0) as u32;
        let bottom = b[3].ceil().clamp((top + 1) as f32, 30.0) as u32;
        assert_eq!(crop.dimensions(), (right - left, bottom - top), "{:?}", b);
        assert_eq!(
            crop.to_rgb8().get_pixel(0, 0),
            &Rgb([left as u8, top as u8, 7])
        );
    }
}

#[test]
fn boxes_become_whole_pixels() {
    for b in [
        [0.5f32, 1.5, 2.5, 3.5],
        [0.49, 1.51, 1e9, 4e9],
        [-7.0, -0.4, 3.0, 8388609.0],
    ] {
        let whole = bbox_to_u32(bbox(b));
        let expected: Vec<u32> = b.iter().map(|v| v.max(0.0).round() as u32).collect();
        assert_eq!(whole.to_vec(), expected, "{:?}", b);
    }
}

#[test]
fn orders_count_blocks_that_are_not_ignored() {
    let blocks = vec![
        block(0, "text", [0.0, 0.0, 1.0, 1.0]),
        block(1, "header", [0.0, 1.0, 1.0, 2.0]),
        block(2, "text", [0.0, 2.0, 1.0, 3.0]),
    ];
    let contents = vec![
        Some("a".to_owned()),
        Some("b".to_owned()),
        Some("c".to_owned()),
    ];
    let parsed = parse_blocks(&blocks, &contents, &vec!["header".to_owned()]);
    let orders: Vec<Option<usize>> = parsed.iter().map(|b| b.order).collect();
    assert_eq!(orders, vec![Some(1), None, Some(2)]);
    let texts: Vec<&str> = parsed.iter().map(|b| b.content.as_str()).collect();
    assert_eq!(texts, vec!["a", "b", "c"]);
    assert_eq!(
        image_block_file_name(&parsed[2]),
        "img_in_image_box_0_2_1_3.jpg"
    );
}

#[test]
fn markdown_widths_are_percentages() {
    let result = sample_result(None);
    let markdown = result.to_markdown();
    let percent = ((30.0f32 - 10.0) / 100.0 * 100.0).round() as u32;
    assert!(markdown.contains(&format!("width=\"{}%\"", percent)));
}

#[test]
fn only_image_files_are_read() {
    assert!(is_image_file(&Some("PNG".to_owned())));
    assert!(is_image_file(&Some("tif".to_owned())));
    assert!(!is_image_file(&Some("txt".to_owned())));
    assert!(!is_image_file(&None));

    let entry = |is_file: bool, extension: &str| DirectoryEntry {
        name: b"a".to_vec(),
        is_file,
        extension: Some(extension.to_owned()),
    };
    let directory = Input::Directory(vec![
        entry(true, "jpg"),
        entry(false, "png"),
        entry(true, "md"),
        entry(true, "WebP"),
    ]);
    assert_eq!(collect_images(&directory, "d"), Ok(vec![0, 3]));
    let named = |name: &[u8]| DirectoryEntry {
        name: name.to_vec(),
        is_file: true,
        extension: Some("png".to_owned()),
    };
    let directory = Input::Directory(vec![
        named(b"b.png"),
        named(b"a10.png"),
        named(b"\xff.png"),
        named(b"B.png"),
        named(b"a.png"),
        named(b"a1.png"),
    ]);
    assert_eq!(collect_images(&directory, "d"), Ok(vec![3, 4, 5, 1, 0, 2]));
    assert_eq!(required_images(&directory, "d"), Ok(vec![3, 4, 5, 1, 0, 2]));
    assert_eq!(
        collect_images(&Input::File(Some("txt".to_owned())), "a.txt"),
        Err("a.txt is not a supported image file".to_owned())
    );
    assert_eq!(
        collect_images(&Input::Missing, "nowhere"),
        Err("nowhere is not a valid file or directory".to_owned())
    );
    assert_eq!(
        required_images(&Input::Directory(Vec::new()), "empty"),
        Err("no image files found in empty".to_owned())
    );
    assert_eq!(
        required_images(&Input::File(Some("gif".to_owned())), "a.gif"),
        Ok(vec![0])
    );
}
