//! Detections, outlines and the resizing of pages.

use image::{DynamicImage, Rgb, RgbImage};
use paddleocr_vl::bicubic::{
    preprocess_page, resize_bicubic_torchvision, taps_of, DocLayoutPreprocessConfig,
    Uint8BicubicWeights,
};
use paddleocr_vl::contour::{largest_external_contour, remove_collinear_i32, signed_area_i32};
use paddleocr_vl::detection::{
    decode_page, post_process_object_detection, ranks_from_votes, select_detections,
    with_outlines, PageScores,
};
use paddleocr_vl::float::{F32, F64};
use paddleocr_vl::layout::{blocks_from_v2, blocks_from_v3, label_name, ID2LABEL};
use paddleocr_vl::layout_config::{
    PPDocLayoutV2Config, PPDocLayoutV3Config, ReadingOrderConfig,
};
use paddleocr_vl::mask::{
    can_outline, finish_polygon, mask_contour, rectangle_polygon, rotate_polygon_to_leftmost_top,
};
use paddleocr_vl::ordering::stable_order;
use paddleocr_vl::simplify::{split_point, turns, Corner, Simplifier, Vertex};

fn f(x: f32) -> F32 {
    F32 { bits: x.to_bits() }
}

fn d(x: f64) -> F64 {
    F64 { bits: x.to_bits() }
}

fn singles(values: &[f32]) -> Vec<F32> {
    values.iter().map(|v| f(*v)).collect()
}

#[test]
fn equal_keys_keep_their_order() {
    assert_eq!(stable_order(&vec![3, 1, 3, 1, 2]), vec![1, 3, 4, 0, 2]);
    assert_eq!(stable_order(&Vec::new()), Vec::<usize>::new());
}

#[test]
fn votes_rank_the_queries() {
    let ranks = ranks_from_votes(&vec![d(2.5), d(-1.0), d(2.5), d(0.0)]);
    assert_eq!(ranks, vec![2, 0, 3, 1]);
}

#[test]
fn detections_are_kept_in_reading_order() {
    // Three queries of two classes.
    let scores = singles(&[0.1, 0.9, 0.8, 0.2, 0.4, 0.7]);
    let kept = select_detections(&scores, 3, 2, &vec![2, 1, 0], f(0.5));
    let found: Vec<(usize, usize, u32)> = kept
        .iter()
        .map(|k| (k.query, k.class, k.score.bits))
        .collect();
    assert_eq!(
        found,
        vec![
            (2, 1, 0.7f32.to_bits()),
            (1, 0, 0.8f32.to_bits()),
            (0, 1, 0.9f32.to_bits()),
        ]
    );
}

#[test]
fn pages_are_decoded_one_by_one() {
    let page = |threshold_score: f32| PageScores {
        scores: singles(&[threshold_score, 0.2]),
        boxes: vec![[f(1.0), f(2.0), f(3.0), f(4.0)]],
        votes: vec![d(0.0)],
    };
    let one = decode_page(&page(0.6), 2, f(0.5));
    assert_eq!(one.labels, vec![0]);
    assert_eq!(one.boxes, vec![[f(1.0), f(2.0), f(3.0), f(4.0)]]);
    let both = post_process_object_detection(&vec![page(0.6), page(0.4)], 2, f(0.5));
    assert_eq!(both.len(), 2);
    assert_eq!(both[0].scores, singles(&[0.6]));
    assert_eq!(both[1].scores, Vec::new());

    let blocks = blocks_from_v2(&one);
    assert_eq!(blocks.len(), 1);
    assert_eq!(blocks[0].id, 0);
    assert_eq!(blocks[0].label, ID2LABEL[0]);
    assert!(blocks[0].polygon.is_none());
}

#[test]
fn outlines_stay_with_their_blocks() {
    let kept = select_detections(&singles(&[0.9]), 1, 1, &vec![0], f(0.5));
    let outline = rectangle_polygon([f(0.0), f(1.0), f(2.0), f(3.0)]);
    let result = with_outlines(
        &kept,
        &vec![[f(0.0), f(1.0), f(2.0), f(3.0)]],
        vec![outline.clone()],
    );
    let blocks = blocks_from_v3(&result);
    assert_eq!(blocks[0].polygon, Some(outline));
}

#[test]
fn unknown_labels_have_a_name() {
    assert_eq!(label_name(0), ID2LABEL[0]);
    assert_eq!(label_name(24), ID2LABEL[24]);
    assert_eq!(label_name(25), "unknown");
}

#[test]
fn a_rectangle_is_its_own_contour() {
    // Columns 1 to 3 of rows 1 and 2.
    let mut mask = vec![0u8; 5 * 4];
    for y in 1..3 {
        for x in 1..4 {
            mask[y * 5 + x] = 1;
        }
    }
    let contour = largest_external_contour(&mask, 5, 4).unwrap();
    let mut corners = contour.clone();
    corners.sort();
    assert_eq!(corners, vec![(1, 1), (1, 3), (4, 1), (4, 3)]);
    assert_eq!(signed_area_i32(&contour).abs(), 2 * 6);
}

#[test]
fn the_largest_of_two_regions_is_followed() {
    let mut mask = vec![0u8; 7 * 3];
    mask[0] = 1;
    for x in 3..6 {
        mask[7 + x] = 255;
    }
    let contour = largest_external_contour(&mask, 7, 3).unwrap();
    assert_eq!(signed_area_i32(&contour).abs(), 2 * 3);
    assert!(contour.iter().all(|p| p.0 >= 3));
    assert!(largest_external_contour(&vec![0u8; 6], 3, 2).is_none());
}

#[test]
fn points_on_a_line_are_dropped() {
    let points = vec![(0, 0), (1, 0), (3, 0), (3, 2), (0, 2), (0, 1)];
    assert_eq!(
        remove_collinear_i32(points),
        vec![(0, 0), (3, 0), (3, 2), (0, 2)]
    );
    assert_eq!(signed_area_i32(&vec![(0, 0), (3, 0), (3, 2), (0, 2)]).abs(), 12);
}

#[test]
fn masks_are_outlined_in_page_pixels() {
    // A mask of four by four samples for a page of four by four pixels.
    let mut values = vec![f(-1.0); 16];
    for (x, y) in [(1, 1), (2, 1), (1, 2), (2, 2)] {
        values[y * 4 + x] = f(1.0);
    }
    let bbox = [f(0.0), f(0.0), f(4.0), f(4.0)];
    assert!(can_outline(16, 0, 4, 4, &bbox));
    assert!(!can_outline(15, 0, 4, 4, &bbox));
    let outline = mask_contour(&values, 0, 4, 4, 4, 4, f(0.0), bbox).unwrap();
    assert!(!outline.is_empty());
    assert!(outline.iter().all(|p| 0 <= p.0 && p.0 < 4 && 0 <= p.1 && p.1 < 4));
    let empty = [f(2.0), f(2.0), f(2.0), f(4.0)];
    assert!(mask_contour(&values, 0, 4, 4, 4, 4, f(0.0), empty).is_none());
}

#[test]
fn short_polygons_become_boxes() {
    let bbox = [f(1.0), f(2.0), f(5.0), f(6.0)];
    let polygon = finish_polygon(vec![[f(0.0), f(0.0)]; 3], bbox);
    assert_eq!(polygon, rectangle_polygon(bbox));
    let square = vec![
        [f(9.0), f(0.0)],
        [f(9.0), f(9.0)],
        [f(0.0), f(9.0)],
        [f(0.0), f(0.0)],
    ];
    let turned = finish_polygon(square.clone(), bbox);
    assert_eq!(turned, rotate_polygon_to_leftmost_top(square.clone()));
    // What is not a number is not further left, and the other coordinate decides.
    let odd = vec![[f(3.0), f(5.0)], [f(f32::NAN), f(1.0)], [f(2.0), f(9.0)]];
    let started = rotate_polygon_to_leftmost_top(odd.clone());
    assert_eq!(started[0][1], f(1.0));
    assert_eq!(started[1], odd[2]);
    assert_eq!(turned.len(), 4);
    assert!(turned[0] == [f(0.0), f(0.0)]);
}

fn weights(size: usize, target: usize) -> Uint8BicubicWeights {
    // One sample for every output sample: the sample at the same place, halved when the
    // output is half as long.
    let step = size / target;
    Uint8BicubicWeights {
        index_min: (0..target).map(|i| i * step).collect(),
        index_size: vec![1; target],
        weights: vec![[16384, 0, 0, 0]; target],
        precision: 14,
    }
}

#[test]
fn pages_are_resized_by_their_weights() {
    let mut img = RgbImage::new(4, 2);
    for (x, y, pixel) in img.enumerate_pixels_mut() {
        *pixel = Rgb([x as u8, y as u8, (10 * x) as u8]);
    }
    let config = DocLayoutPreprocessConfig {
        target_size: (2, 2),
        rescale_factor: f(1.0 / 255.0),
    };
    let page = DynamicImage::ImageRgb8(img.clone());
    let (pixels, size) = preprocess_page(&page, &config, &weights(4, 2), &weights(2, 2)).unwrap();
    assert_eq!(size, (2, 4));
    assert_eq!(pixels, vec![0, 0, 0, 2, 0, 20, 0, 1, 0, 2, 1, 20]);
    let direct = resize_bicubic_torchvision(
        &img.into_raw(),
        4,
        2,
        2,
        2,
        &weights(4, 2),
        &weights(2, 2),
    );
    assert_eq!(direct, pixels);
    assert!(preprocess_page(&page, &config, &weights(8, 2), &weights(2, 2)).is_none());
    assert_eq!(DocLayoutPreprocessConfig::default().target_size, (800, 800));
    assert_eq!(
        DocLayoutPreprocessConfig::default().rescale_factor.bits,
        (1.0f32 / 255.0).to_bits()
    );
}

#[test]
fn taps_stay_inside_the_image() {
    for index in -1i64..5 {
        let taps = taps_of(index, 5);
        assert!(taps.first + taps.count <= 5);
        for (k, place) in taps.places.iter().enumerate() {
            let wanted = (index - 1 + k as i64).clamp(0, 4) as usize;
            assert_eq!(taps.first + place, wanted);
        }
    }
}

#[test]
fn layout_settings_are_those_of_the_models() {
    let config = PPDocLayoutV2Config::new();
    assert_eq!(config.num_queries, 300);
    assert_eq!(config.initializer_range, d(0.01));
    assert_eq!(config.layer_norm_eps, d(1e-5));
    assert_eq!(config.positional_encoding_temperature, d(10000.0));
    assert_eq!(config.hidden_expansion, d(1.0));
    assert_eq!(
        config.get_class_thresholds(),
        singles(&[
            0.5, 0.5, 0.5, 0.5, 0.5, 0.4, 0.4, 0.5, 0.5, 0.5, 0.5, 0.5, 0.5, 0.5, 0.5, 0.4, 0.5,
            0.4, 0.5, 0.5, 0.45, 0.5, 0.4, 0.4, 0.5,
        ])
    );
    assert_eq!(config.get_class_order()[2], 14);
    assert_eq!(config.get_encode_proj_layers(), vec![2]);
    assert_eq!(config.get_encoder_in_channels(), [512, 1024, 2048]);
    assert_eq!(config.get_feat_strides(), [8, 16, 32]);
    assert_eq!(config.get_decoder_in_channels(), [256, 256, 256]);

    let reading = config.get_reading_order_config();
    assert_eq!(reading, ReadingOrderConfig::new());
    assert_eq!(reading.relation_box_dim_min, d(1e-3));
    assert_eq!(reading.hidden_dropout_prob, d(0.1));
    assert_eq!(reading.relation_bias_scale, d(100.0));
    assert_eq!(reading.spatial_embed_dim(), 1024);

    let mut own = PPDocLayoutV2Config::new();
    own.class_thresholds = Some(singles(&[0.25]));
    own.class_order = Some(vec![4]);
    own.feat_strides = Some([1, 2, 4]);
    assert_eq!(own.get_class_thresholds(), singles(&[0.25]));
    assert_eq!(own.get_class_order(), vec![4]);
    assert_eq!(own.get_feat_strides(), [1, 2, 4]);

    let third = PPDocLayoutV3Config::new();
    assert_eq!(third.get_encoder_in_channels(), [512, 1024, 2048]);
    assert_eq!(third.num_prototypes, 32);
    assert!(third.mask_enhanced);
}

fn distance(p: (f32, f32), a: (f32, f32), b: (f32, f32)) -> f32 {
    let (vx, vy) = (b.0 - a.0, b.1 - a.1);
    let (wx, wy) = (p.0 - a.0, p.1 - a.1);
    let len_sq = vx * vx + vy * vy;
    if len_sq <= f32::EPSILON {
        return (wx.powi(2) + wy.powi(2)).sqrt();
    }
    let t = ((wx * vx + wy * vy) / len_sq).clamp(0.0, 1.0);
    ((p.0 - a.0 - t * vx).powi(2) + (p.1 - a.1 - t * vy).powi(2)).sqrt()
}

fn recursive(points: &[(f32, f32)], epsilon: f32) -> Vec<(f32, f32)> {
    if points.len() <= 2 {
        return points.to_vec();
    }
    let (first, last) = (points[0], points[points.len() - 1]);
    let mut greatest = 0.0;
    let mut at = 0;
    for (i, p) in points.iter().enumerate().take(points.len() - 1).skip(1) {
        let d = distance(*p, first, last);
        if d > greatest {
            greatest = d;
            at = i;
        }
    }
    if greatest > epsilon {
        let mut left = recursive(&points[..=at], epsilon);
        let right = recursive(&points[at..], epsilon);
        left.pop();
        left.extend(right);
        left
    } else {
        vec![first, last]
    }
}

#[test]
fn lines_keep_the_points_far_from_their_chords() {
    let points: Vec<(f32, f32)> = vec![
        (0.0, 0.0),
        (1.0, 0.1),
        (2.0, 0.0),
        (3.0, 5.0),
        (4.0, 5.2),
        (5.0, 0.0),
        (0.0, 0.0),
    ];
    for epsilon in [0.0f32, 0.15, 1.0, 10.0] {
        let mut simplifier = Simplifier::new(points.len());
        while let Some((first, last)) = simplifier.current() {
            let distances: Vec<F32> = ((first + 1)..last)
                .map(|i| f(distance(points[i], points[first], points[last])))
                .collect();
            simplifier.answer(&distances, f(epsilon), points.len());
        }
        let kept: Vec<(f32, f32)> = simplifier.kept.iter().map(|i| points[*i]).collect();
        assert_eq!(kept, recursive(&points, epsilon), "{}", epsilon);
    }
}

#[test]
fn the_first_of_the_farthest_points_splits() {
    assert_eq!(split_point(&singles(&[1.0, 3.0, 3.0, 2.0]), f(0.5)), Some(1));
    assert_eq!(split_point(&singles(&[f32::NAN, 2.0]), f(0.5)), Some(1));
    assert_eq!(split_point(&singles(&[1.0]), f(1.0)), None);
    assert_eq!(split_point(&Vec::new(), f(0.0)), None);
}

#[test]
fn vertices_are_dropped_kept_or_moved() {
    assert!(turns(f(0.5)));
    assert!(!turns(f(1e-4)));
    let corner = |cross: f32, off_angle: f32| Corner {
        cross: f(cross),
        before: f(2.0),
        behind: f(3.0),
        off_angle: f(off_angle),
        bisector: f(1.0),
    };
    assert_eq!(corner(0.0, 0.5).vertex(), Vertex::Dropped);
    assert_eq!(corner(1.0, 0.5).vertex(), Vertex::Dropped);
    assert_eq!(corner(-1.0, 0.5).vertex(), Vertex::Moved);
    assert_eq!(corner(-1.0, 1.0).vertex(), Vertex::Kept);
    let mut short = corner(-1.0, 0.5);
    short.before = f(f32::EPSILON);
    assert_eq!(short.vertex(), Vertex::Kept);
    let mut straight = corner(-1.0, 0.5);
    straight.bisector = f(0.0);
    assert_eq!(straight.vertex(), Vertex::Kept);
}
