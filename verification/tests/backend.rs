//! Devices, element types and plans of the MLX backend, and the names of releases.

use paddleocr_vl::device::{
    device_spec, ensure_default_device, parse_index_device, parse_mlx_device, parse_wgpu_device,
    MlxDevice, WgpuDevice,
};
use paddleocr_vl::dtype::DType;
use paddleocr_vl::float::F32;
use paddleocr_vl::mlx::{
    bitwise, bitwise_not, bitwise_scalar, mlx_dtype, repeat_plan, slice_bounds, supports_dtype,
    swapped_axes, tensor_dtype, tile_counts, unfold_plan, BitOp, MlxDtype, RepeatPlan, Slice,
};
use paddleocr_vl::text::{
    decimal_u32, join, parse_u32, parse_usize, slice_bytes, split_once, strip_prefix,
    to_ascii_lowercase, trim,
};
use paddleocr_vl::version::{DocLayoutVersion, OcrTask, PaddleOcrVersion, PipelineVersion};

#[test]
fn test_dtype_mapping() {
    assert_eq!(mlx_dtype(DType::F32), Some(MlxDtype::Float32));
    assert_eq!(mlx_dtype(DType::F64), Some(MlxDtype::Float64));
    assert_eq!(mlx_dtype(DType::I32), Some(MlxDtype::Int32));
    assert_eq!(mlx_dtype(DType::Bool), Some(MlxDtype::Bool));
}

#[test]
fn test_device_creation() {
    let _device = MlxDevice::Gpu;
    let _cpu = MlxDevice::Cpu;
}

#[test]
fn element_types_come_back() {
    assert_eq!(mlx_dtype(DType::QFloat), None);
    assert_eq!(tensor_dtype(MlxDtype::Bfloat16), Some(DType::BF16));
    assert_eq!(tensor_dtype(MlxDtype::Uint8), None);
    assert!(supports_dtype(DType::F16));
    assert!(!supports_dtype(DType::U8));
}

#[test]
fn device_numbers_come_back() {
    for device in [MlxDevice::Cpu, MlxDevice::Gpu] {
        assert_eq!(MlxDevice::from_id(device.to_id()), device);
    }
    assert_eq!(MlxDevice::default(), MlxDevice::Gpu);
    assert!(parse_mlx_device(Some("gpu")).is_ok());
    assert!(parse_mlx_device(Some("tpu")).is_err());
}

#[test]
fn device_names_are_parsed() {
    assert_eq!(device_spec(None), None);
    assert_eq!(device_spec(Some(" cuda:1 ")), Some("cuda:1".to_owned()));
    assert!(ensure_default_device(None, "flex").is_ok());
    assert!(ensure_default_device(Some("nonsense"), "flex").is_err());
    assert_eq!(parse_index_device(Some("3"), "cuda"), Ok(3));
    assert_eq!(parse_index_device(Some("cuda:2"), "cuda"), Ok(2));
    assert_eq!(parse_index_device(None, "cuda"), Ok(0));
    assert!(parse_index_device(Some("cuda:x"), "cuda").is_err());
    assert!(matches!(
        parse_wgpu_device(None, "wgpu"),
        Ok(WgpuDevice::Default)
    ));
    assert!(matches!(
        parse_wgpu_device(Some("integrated:1"), "wgpu"),
        Ok(WgpuDevice::Id {
            type_id: 1,
            index_id: 1
        })
    ));
    assert!(parse_wgpu_device(Some("quantum:1"), "wgpu").is_err());
}

#[test]
fn windows_cover_a_side() {
    let plan = unfold_plan(&vec![2, 7], 1, 3, 2);
    assert_eq!(plan.windows, 3);
    assert_eq!(plan.indices, vec![0, 1, 2, 2, 3, 4, 4, 5, 6]);
    assert_eq!(plan.shape, vec![2, 3, 3]);
}

#[test]
fn sides_are_repeated_and_swapped() {
    match repeat_plan(&vec![2, 1, 3], 1, 5) {
        RepeatPlan::Broadcast(shape) => assert_eq!(shape, vec![2, 5, 3]),
        RepeatPlan::Tile(_) => panic!("a side of one sample is stretched"),
    }
    match repeat_plan(&vec![2, 4], 1, 5) {
        RepeatPlan::Tile(counts) => assert_eq!(counts, vec![1, 5]),
        RepeatPlan::Broadcast(_) => panic!("a longer side is tiled"),
    }
    assert_eq!(tile_counts(3, 0, 4), vec![4, 1, 1]);
    assert_eq!(swapped_axes(4, 1, 3), vec![0, 3, 2, 1]);
}

#[test]
fn slices_are_bound_to_their_sides() {
    let bounds = slice_bounds(
        &vec![10, 4],
        &vec![
            Slice {
                start: -3,
                end: None,
                step: 1,
            },
            Slice {
                start: 1,
                end: Some(99),
                step: 1,
            },
            Slice {
                start: 2,
                end: Some(-1),
                step: 1,
            },
        ],
    );
    assert_eq!(bounds.starts, vec![7, 1, 0]);
    assert_eq!(bounds.stops, vec![10, 4, 0]);
}

#[test]
fn bits_are_combined() {
    let a = vec![0b1100, -1, 7];
    let b = vec![0b1010, 5];
    assert_eq!(bitwise(BitOp::And, &a, &b), vec![0b1000, 5]);
    assert_eq!(bitwise(BitOp::Or, &a, &b), vec![0b1110, -1]);
    assert_eq!(bitwise(BitOp::Xor, &a, &b), vec![0b0110, -6]);
    assert_eq!(bitwise_scalar(BitOp::LeftShift, &a, 2), vec![48, -4, 28]);
    assert_eq!(bitwise_scalar(BitOp::RightShift, &a, 1), vec![6, -1, 3]);
    assert_eq!(bitwise_not(&a), vec![-13, 0, -8]);
}

#[test]
fn releases_have_names() {
    assert_eq!(PaddleOcrVersion::parse("1.5"), Ok(PaddleOcrVersion::V1_5));
    assert!(PaddleOcrVersion::parse("9").is_err());
    assert_eq!(OcrTask::parse("table"), Ok(OcrTask::Table));
    assert!(OcrTask::parse("nothing").is_err());
    assert!(DocLayoutVersion::parse("v3").is_ok());
    assert!(DocLayoutVersion::parse("v9").is_err());
    assert!(PipelineVersion::parse("1.5").is_ok());
    assert!(PipelineVersion::parse("2").is_err());
    assert!(OcrTask::Spotting.is_spotting());
    assert!(!OcrTask::Ocr.is_spotting());
}

#[test]
fn texts_are_taken_apart() {
    assert_eq!(trim(" \ta b\n"), "a b");
    assert_eq!(to_ascii_lowercase("ÄBc"), "Äbc");
    assert_eq!(decimal_u32(0), "0");
    assert_eq!(decimal_u32(4294967295), "4294967295");
    assert_eq!(parse_u32("+7"), "+7".parse::<u32>().ok());
    assert_eq!(parse_u32("4294967296"), None);
    assert_eq!(parse_usize(""), None);
    assert_eq!(
        split_once("a:b:c", ':'),
        Some(("a".to_owned(), "b:c".to_owned()))
    );
    assert_eq!(split_once("abc", ':'), None);
    assert_eq!(strip_prefix("cuda:1", "cuda:"), Some("1".to_owned()));
    assert_eq!(strip_prefix("cpu", "cuda"), None);
    assert_eq!(slice_bytes("aäb", 1, 3), "ä");
    assert_eq!(join(&vec!["a".to_owned(), "b".to_owned()], "\n\n"), "a\n\nb");
}

#[test]
fn numbers_keep_single_precision() {
    for (value, extent) in [(0u32, 7u32), (1000, 1000), (333, 640), (999, 16777217), (1, 3)] {
        let expected = value as f32 / 1000.0 * extent as f32;
        assert_eq!(
            F32::of_thousandths(value, extent).bits,
            expected.to_bits(),
            "{} {}",
            value,
            extent
        );
    }
    for n in [0u32, 1, 16777217, 4294967295] {
        assert_eq!(F32::from_integer(n).bits, (n as f32).to_bits());
    }
    for x in [0.0f32, -0.5, 1.99, -7.9, 3e9, -3e9, f32::NAN, f32::INFINITY] {
        let number = F32 { bits: x.to_bits() };
        assert_eq!(number.truncate(), x as i32);
        for y in [0.0f32, -0.0, 2.0, f32::NAN] {
            let other = F32 { bits: y.to_bits() };
            assert_eq!(number.is_below(other), x < y);
        }
    }
}
