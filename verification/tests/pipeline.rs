use node_detect::config::{DecodeConfig, ModelConfig};
use node_detect::error::{CropFault, DetectError};
use node_detect::geometry::AxisScale;
use node_detect::nodes::{NodeType, PredictedNode};
use node_detect::pipeline::{
    check_crop_size, fits_limits, nodes_from_output, padding_of, prepare_input,
    try_prepare_input, PreparedInput,
};
use node_detect::preprocess::GrayBuffer;

fn sigmoid(x: f32) -> f32 {
    1.0 / (1.0 + (-x).exp())
}

fn model(in_channels: i64, max_side: i64, pad_multiple: i64) -> ModelConfig {
    ModelConfig {
        backbone: "resnet".to_string(),
        in_channels,
        internal_only: false,
        no_root_pred: true,
        normalize_input: true,
        max_side,
        pad_multiple,
        decode: DecodeConfig {
            thresh: 0.5f32.to_bits(),
            window: 3,
            per_channel_topk: 0,
            max_peaks: 0,
            fallback_topk: 0,
            assign_root_leftmost_when_two_classes: true,
        },
    }
}

fn ramp(width: u32, height: u32) -> GrayBuffer {
    let mut pixels = Vec::new();
    for y in 0..height {
        for x in 0..width {
            pixels.push(((y * 16 + x) % 256) as u8);
        }
    }
    GrayBuffer::new(width, height, pixels).unwrap()
}

fn prepare_error(r: Result<PreparedInput, DetectError>) -> DetectError {
    match r {
        Ok(_) => panic!("the input was prepared"),
        Err(e) => e,
    }
}

fn output(
    shape: &[i64],
    logits: &[f32],
    cfg: &ModelConfig,
    valid_w: u32,
    valid_h: u32,
) -> Result<Vec<PredictedNode>, DetectError> {
    let bits: Vec<u32> = logits.iter().map(|l| l.to_bits()).collect();
    let scores: Vec<u32> = logits.iter().map(|l| sigmoid(*l).to_bits()).collect();
    nodes_from_output(
        &shape.to_vec(),
        bits,
        scores,
        cfg,
        AxisScale { resized: valid_w, original: valid_w },
        AxisScale { resized: valid_h, original: valid_h },
        0,
        0,
    )
}

#[test]
fn crop_size_is_checked_first() {
    assert_eq!(check_crop_size(1, 1), Ok(()));
    assert_eq!(check_crop_size(0, 1), Err(DetectError::InvalidCrop(CropFault::ZeroSize)));
    assert_eq!(check_crop_size(1, 0), Err(DetectError::InvalidCrop(CropFault::ZeroSize)));
    assert_eq!(check_crop_size(0, 0), Err(DetectError::InvalidCrop(CropFault::ZeroSize)));
}

#[test]
fn padding_reaches_the_next_multiple() {
    assert_eq!(padding_of(5, 4), 3);
    assert_eq!(padding_of(8, 4), 0);
    assert_eq!(padding_of(0, 4), 0);
    assert_eq!(padding_of(5, 0), 0);
    assert_eq!(padding_of(5, 1), 0);
    assert_eq!(padding_of(1, 32), 31);
    assert_eq!(padding_of(u32::MAX, u32::MAX), 0);
    assert_eq!(padding_of(u32::MAX - 1, u32::MAX), 1);
}

#[test]
fn input_is_the_padded_crop_on_every_channel() {
    let img = ramp(8, 6);
    let p = prepare_input(&img, 2, 1, 3, 2, &model(2, 0, 4)).unwrap();
    assert_eq!(p.scale_x, AxisScale { resized: 3, original: 3 });
    assert_eq!(p.scale_y, AxisScale { resized: 2, original: 2 });
    assert_eq!(p.tensor.shape(), [1, 2, 4, 4]);
    let plane = vec![
        18, 19, 20, 0, //
        34, 35, 36, 0, //
        0, 0, 0, 0, //
        0, 0, 0, 0,
    ];
    let mut want = plane.clone();
    want.extend(plane);
    assert_eq!(p.tensor.data, want);
}

#[test]
fn input_is_resized_before_it_is_padded() {
    let img = GrayBuffer::new(200, 100, vec![90; 20000]).unwrap();
    let p = prepare_input(&img, 0, 0, 200, 100, &model(3, 50, 32)).unwrap();
    assert_eq!(p.scale_x, AxisScale { resized: 50, original: 200 });
    assert_eq!(p.scale_y, AxisScale { resized: 25, original: 100 });
    assert_eq!(p.tensor.shape(), [1, 3, 32, 64]);
    for c in 0..3 {
        for y in 0..32 {
            for x in 0..64 {
                let want = if x < 50 && y < 25 { 90 } else { 0 };
                assert_eq!(p.tensor.data[(c * 32 + y) * 64 + x], want);
            }
        }
    }
}

#[test]
fn crop_faults_come_before_the_channel_error() {
    let img = ramp(8, 6);
    assert_eq!(
        prepare_error(prepare_input(&img, 0, 0, 0, 3, &model(0, 0, 0))),
        DetectError::InvalidCrop(CropFault::ZeroSize)
    );
    assert_eq!(
        prepare_error(prepare_input(&img, 8, 0, 3, 3, &model(0, 0, 0))),
        DetectError::InvalidCrop(CropFault::OutsideImage)
    );
    assert_eq!(
        prepare_error(prepare_input(&img, 0, 0, 3, 3, &model(0, 0, 0))),
        DetectError::Channel
    );
    assert_eq!(
        prepare_error(prepare_input(&img, 0, 0, 3, 3, &model(-2, 4, 4))),
        DetectError::Channel
    );
}

#[test]
fn limits_are_told_before_anything_is_built() {
    let img = ramp(8, 6);
    assert!(fits_limits(8, 6, 0, 0, 8, 6, &model(3, 4, 32)));
    assert!(fits_limits(8, 6, 0, 0, 0, 6, &model(i64::MAX, 4, 32)));
    assert!(fits_limits(8, 6, 9, 0, 1, 1, &model(i64::MAX, 4, 32)));
    assert!(!fits_limits(8, 6, 0, 0, 8, 6, &model(i64::MAX, 4, 32)));
    assert!(!fits_limits(8, 6, 0, 0, 8, 6, &model(2, 0, 0xFFFF_FFFF)));
    assert!(!fits_limits(u32::MAX, 1, 0, 0, u32::MAX, 1, &model(1, 0, 4)));
    assert!(fits_limits(u32::MAX, 1, 0, 0, u32::MAX, 1, &model(1, 0, 5)));
    assert!(try_prepare_input(&img, 0, 0, 8, 6, &model(i64::MAX, 4, 32)).is_none());
    assert!(try_prepare_input(&img, 0, 0, 8, 6, &model(2, 0, 0xFFFF_FFFF)).is_none());
    match try_prepare_input(&img, 0, 0, 8, 6, &model(1, 4, 0)) {
        Some(Ok(p)) => assert_eq!(p.tensor.shape(), [1, 1, 3, 4]),
        _ => panic!("the input was not prepared"),
    }
    match try_prepare_input(&img, 0, 0, 0, 6, &model(i64::MAX, 4, 32)) {
        Some(Err(e)) => assert_eq!(e, DetectError::InvalidCrop(CropFault::ZeroSize)),
        _ => panic!("the crop was not refused"),
    }
}

#[test]
fn settings_beyond_32_bits_wrap() {
    let img = ramp(8, 6);
    // 2^32 + 4 is 4 in 32 bits, and 2^32 is no limit at all.
    let p = prepare_input(&img, 0, 0, 8, 6, &model(1, (1 << 32) + 4, 0)).unwrap();
    assert_eq!(p.tensor.shape(), [1, 1, 3, 4]);
    let p = prepare_input(&img, 0, 0, 8, 6, &model(1, 1 << 32, (1 << 32) + 5)).unwrap();
    assert_eq!(p.tensor.shape(), [1, 1, 10, 10]);
}

#[test]
fn output_becomes_nodes() {
    let logits = [
        -5.0, 2.0, -5.0, 9.0, //
        -5.0, -5.0, -5.0, 9.0, //
        1.0, -5.0, -5.0, 9.0, //
        -5.0, -5.0, 3.0, 9.0,
    ];
    let nodes = output(&[1, 2, 2, 4], &logits, &model(3, 0, 0), 3, 2).unwrap();
    assert_eq!(nodes.len(), 3);
    let found: Vec<(u64, u64, NodeType, f32)> = nodes
        .iter()
        .map(|n| (n.x.whole, n.y.whole, n.node_type, f32::from_bits(n.score)))
        .collect();
    assert_eq!(
        found,
        vec![
            (2, 1, NodeType::Internal, sigmoid(3.0)),
            (1, 0, NodeType::Tip, sigmoid(2.0)),
            (0, 0, NodeType::Root, sigmoid(1.0)),
        ]
    );
}

#[test]
fn output_that_is_not_of_rank_four_is_a_shape_error() {
    let cfg = model(3, 0, 0);
    for shape in [vec![], vec![4], vec![2, 2], vec![1, 2, 2], vec![1, 1, 1, 2, 2]] {
        assert_eq!(output(&shape, &[0.0; 4], &cfg, 1, 1), Err(DetectError::Shape));
    }
}

#[test]
fn output_that_does_not_fit_its_data_is_a_shape_error() {
    let cfg = model(3, 0, 0);
    assert_eq!(output(&[1, 1, 2, 3], &[0.0; 5], &cfg, 1, 1), Err(DetectError::Shape));
    assert_eq!(output(&[1, -1, 2, 2], &[0.0; 4], &cfg, 1, 1), Err(DetectError::Shape));
    assert_eq!(output(&[1, 1, -2, 2], &[0.0; 4], &cfg, 1, 1), Err(DetectError::Shape));
    assert_eq!(output(&[1, 1, 2, -2], &[0.0; 4], &cfg, 1, 1), Err(DetectError::Shape));
    let huge = [1, i64::MAX, i64::MAX, i64::MAX];
    assert_eq!(output(&huge, &[0.0; 4], &cfg, 1, 1), Err(DetectError::Shape));
    assert_eq!(output(&[1, 1, 2, 2], &[0.0; 4], &cfg, 3, 2), Err(DetectError::Shape));
    assert_eq!(output(&[1, 1, 2, 2], &[0.0; 4], &cfg, 2, 3), Err(DetectError::Shape));
    let mismatch = nodes_from_output(
        &vec![1, 1, 2, 2],
        vec![0; 4],
        vec![0; 3],
        &cfg,
        AxisScale { resized: 2, original: 2 },
        AxisScale { resized: 2, original: 2 },
        0,
        0,
    );
    assert_eq!(mismatch, Err(DetectError::Shape));
}

#[test]
fn output_may_hold_more_data_than_one_grid() {
    let cfg = model(3, 0, 0);
    let nodes = output(&[2, 1, 1, 2], &[1.0, 0.0, 7.0, 8.0], &cfg, 2, 1).unwrap();
    assert_eq!(nodes.len(), 1);
    assert_eq!((nodes[0].x.whole, f32::from_bits(nodes[0].score)), (0, sigmoid(1.0)));
}

#[test]
fn a_single_peak_comes_back_where_it_lies() {
    let cfg = model(3, 0, 0);
    for (px, py) in [(0usize, 0usize), (5, 3), (7, 7), (2, 6)] {
        let mut logits = vec![-8.0f32; 64];
        logits[py * 8 + px] = 4.0;
        let nodes = output(&[1, 1, 8, 8], &logits, &cfg, 8, 8).unwrap();
        assert_eq!(nodes.len(), 1);
        assert_eq!((nodes[0].x.whole, nodes[0].x.rem), (px as u64, 0));
        assert_eq!((nodes[0].y.whole, nodes[0].y.rem), (py as u64, 0));
        assert_eq!(f32::from_bits(nodes[0].score), sigmoid(4.0));
    }
}
