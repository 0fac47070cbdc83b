use node_detect::config::DecodeConfig;
use node_detect::decode::{cap_per_channel, decode_peaks, peaks_of_channel, truncate_to};
use node_detect::grid::{detect_local_maxima, half_window_of, LogitGrid, RawPeak};
use node_detect::ranking::{by_score_desc, sort_by_score_desc};
use std::cmp::Ordering;

fn sigmoid(x: f32) -> f32 {
    1.0 / (1.0 + (-x).exp())
}

fn grid(channels: usize, height: usize, width: usize, logits: &[f32]) -> LogitGrid {
    let bits: Vec<u32> = logits.iter().map(|l| l.to_bits()).collect();
    let scores: Vec<u32> = logits.iter().map(|l| sigmoid(*l).to_bits()).collect();
    LogitGrid::new(channels, height, width, bits, scores).unwrap()
}

fn config(
    thresh: f32,
    window: i64,
    per_channel: i64,
    max_peaks: i64,
    fallback: i64,
) -> DecodeConfig {
    DecodeConfig {
        thresh: thresh.to_bits(),
        window,
        per_channel_topk: per_channel,
        max_peaks,
        fallback_topk: fallback,
        assign_root_leftmost_when_two_classes: false,
    }
}

fn cells(peaks: &[RawPeak]) -> Vec<(usize, usize, usize)> {
    peaks.iter().map(|p| (p.x, p.y, p.channel)).collect()
}

fn scores(peaks: &[RawPeak]) -> Vec<f32> {
    peaks.iter().map(|p| f32::from_bits(p.score)).collect()
}

fn peak(x: usize, channel: usize, score: f32) -> RawPeak {
    RawPeak { x, y: 0, channel, score: score.to_bits() }
}

#[test]
fn grid_needs_data_for_every_cell() {
    assert!(LogitGrid::new(2, 3, 4, vec![0; 24], vec![0; 24]).is_some());
    assert!(LogitGrid::new(2, 3, 4, vec![0; 30], vec![0; 30]).is_some());
    assert!(LogitGrid::new(2, 3, 4, vec![0; 23], vec![0; 23]).is_none());
    assert!(LogitGrid::new(2, 3, 4, vec![0; 24], vec![0; 25]).is_none());
    assert!(LogitGrid::new(0, 3, 4, vec![], vec![]).is_some());
    assert!(LogitGrid::new(usize::MAX, usize::MAX, 0, vec![], vec![]).is_some());
    assert!(LogitGrid::new(usize::MAX, usize::MAX, 2, vec![0; 4], vec![0; 4]).is_none());
}

#[test]
fn half_of_a_window_is_never_negative() {
    assert_eq!(half_window_of(3), 1);
    assert_eq!(half_window_of(2), 1);
    assert_eq!(half_window_of(1), 0);
    assert_eq!(half_window_of(0), 0);
    assert_eq!(half_window_of(-7), 0);
    assert_eq!(half_window_of(5), 2);
    assert_eq!(half_window_of(i64::MAX), i64::MAX / 2);
}

#[test]
fn a_single_peak_is_found_with_its_score() {
    let mut logits = vec![-5.0f32; 9];
    logits[4] = 3.0;
    let g = grid(1, 3, 3, &logits);
    let peaks = detect_local_maxima(&g, &config(0.5, 3, 0, 0, 0), 3, 3, 0.5f32.to_bits());
    assert_eq!(peaks, vec![RawPeak { x: 1, y: 1, channel: 0, score: sigmoid(3.0).to_bits() }]);
}

#[test]
fn a_higher_neighbour_in_the_window_suppresses() {
    let g = grid(1, 1, 5, &[1.0, 2.0, 3.0, 2.0, 1.0]);
    let thresh = 0.0f32.to_bits();
    let narrow = detect_local_maxima(&g, &config(0.0, 1, 0, 0, 0), 5, 1, thresh);
    assert_eq!(cells(&narrow), vec![(0, 0, 0), (1, 0, 0), (2, 0, 0), (3, 0, 0), (4, 0, 0)]);
    for window in [2, 3] {
        let peaks = detect_local_maxima(&g, &config(0.0, window, 0, 0, 0), 5, 1, thresh);
        assert_eq!(cells(&peaks), vec![(2, 0, 0)]);
    }
    let two = grid(1, 1, 5, &[3.0, 1.0, 0.0, 1.0, 2.0]);
    let near = detect_local_maxima(&two, &config(0.0, 3, 0, 0, 0), 5, 1, thresh);
    assert_eq!(cells(&near), vec![(0, 0, 0), (4, 0, 0)]);
    let far = detect_local_maxima(&two, &config(0.0, 9, 0, 0, 0), 5, 1, thresh);
    assert_eq!(cells(&far), vec![(0, 0, 0)]);
    let huge = detect_local_maxima(&two, &config(0.0, i64::MAX, 0, 0, 0), 5, 1, thresh);
    assert_eq!(cells(&huge), vec![(0, 0, 0)]);
}

#[test]
fn a_window_looks_in_both_directions() {
    let logits = [
        0.0, 0.0, 0.0, //
        0.0, 1.0, 0.0, //
        0.0, 0.0, 2.0,
    ];
    let g = grid(1, 3, 3, &logits);
    let peaks = detect_local_maxima(&g, &config(0.0, 3, 0, 0, 0), 3, 3, 0.6f32.to_bits());
    assert_eq!(cells(&peaks), vec![(2, 2, 0)]);
}

#[test]
fn equal_logits_do_not_suppress_each_other() {
    let g = grid(1, 1, 4, &[2.0, 2.0, 1.0, 2.0]);
    let peaks = detect_local_maxima(&g, &config(0.0, 3, 0, 0, 0), 4, 1, 0.0f32.to_bits());
    assert_eq!(cells(&peaks), vec![(0, 0, 0), (1, 0, 0), (3, 0, 0)]);
}

#[test]
fn a_window_of_zero_or_less_is_one_cell() {
    let g = grid(1, 1, 3, &[1.0, 2.0, 3.0]);
    for window in [1, 0, -4, i64::MIN] {
        let peaks = detect_local_maxima(&g, &config(0.0, window, 0, 0, 0), 3, 1, 0.0f32.to_bits());
        assert_eq!(cells(&peaks), vec![(0, 0, 0), (1, 0, 0), (2, 0, 0)]);
    }
}

#[test]
fn cells_below_the_cutoff_are_passed_over() {
    let g = grid(1, 1, 4, &[-1.0, 0.0, 1.0, -0.5]);
    let peaks = detect_local_maxima(&g, &config(0.5, 1, 0, 0, 0), 4, 1, 0.5f32.to_bits());
    assert_eq!(cells(&peaks), vec![(1, 0, 0), (2, 0, 0)]);
    assert_eq!(scores(&peaks), vec![0.5, sigmoid(1.0)]);
}

#[test]
fn the_cutoff_is_the_one_handed_in() {
    let g = grid(1, 1, 3, &[-1.0, 0.0, 1.0]);
    let cfg = config(0.9, 1, 0, 0, 0);
    let all = detect_local_maxima(&g, &cfg, 3, 1, f32::NEG_INFINITY.to_bits());
    assert_eq!(all.len(), 3);
    let none = detect_local_maxima(&g, &cfg, 3, 1, 0.9f32.to_bits());
    assert!(none.is_empty());
}

#[test]
fn a_suppressed_cell_still_suppresses() {
    // The middle cell is below the cutoff, yet it outranks its neighbours.
    let logits = [0.5f32, 0.9, 0.5];
    let bits: Vec<u32> = logits.iter().map(|l| l.to_bits()).collect();
    let scores = vec![0.8f32.to_bits(), 0.1f32.to_bits(), 0.8f32.to_bits()];
    let g = LogitGrid::new(1, 1, 3, bits, scores).unwrap();
    let peaks = detect_local_maxima(&g, &config(0.5, 3, 0, 0, 0), 3, 1, 0.5f32.to_bits());
    assert!(peaks.is_empty());
}

#[test]
fn padding_is_neither_reported_nor_compared() {
    let logits = [
        1.0, 0.0, 9.0, 9.0, //
        0.0, 2.0, 9.0, 9.0, //
        9.0, 9.0, 9.0, 9.0,
    ];
    let g = grid(1, 3, 4, &logits);
    let peaks = detect_local_maxima(&g, &config(0.0, 3, 0, 0, 0), 2, 2, 0.0f32.to_bits());
    assert_eq!(cells(&peaks), vec![(1, 1, 0)]);
    let none = detect_local_maxima(&g, &config(0.0, 3, 0, 0, 0), 0, 2, 0.0f32.to_bits());
    assert!(none.is_empty());
    let none = detect_local_maxima(&g, &config(0.0, 3, 0, 0, 0), 2, 0, 0.0f32.to_bits());
    assert!(none.is_empty());
}

#[test]
fn peaks_come_plane_by_plane_then_row_by_row() {
    let logits = [
        1.0, 1.0, //
        1.0, 1.0, //
        2.0, 2.0, //
        2.0, 2.0,
    ];
    let g = grid(2, 2, 2, &logits);
    let peaks = detect_local_maxima(&g, &config(0.0, 1, 0, 0, 0), 2, 2, 0.0f32.to_bits());
    assert_eq!(
        cells(&peaks),
        vec![
            (0, 0, 0),
            (1, 0, 0),
            (0, 1, 0),
            (1, 1, 0),
            (0, 0, 1),
            (1, 0, 1),
            (0, 1, 1),
            (1, 1, 1)
        ]
    );
}

#[test]
fn planes_do_not_suppress_each_other() {
    let g = grid(2, 1, 2, &[1.0, 0.0, 5.0, 7.0]);
    let peaks = detect_local_maxima(&g, &config(0.0, 3, 0, 0, 0), 2, 1, 0.0f32.to_bits());
    assert_eq!(cells(&peaks), vec![(0, 0, 0), (1, 0, 1)]);
}

#[test]
fn what_is_not_a_number_is_neither_below_a_cutoff_nor_exceeded() {
    let logits = [f32::NAN, 1.0, 0.0];
    let g = grid(1, 1, 3, &logits);
    let peaks = detect_local_maxima(&g, &config(0.5, 3, 0, 0, 0), 3, 1, 0.5f32.to_bits());
    assert_eq!(cells(&peaks), vec![(0, 0, 0), (1, 0, 0)]);
    assert!(f32::from_bits(peaks[0].score).is_nan());
}

#[test]
fn sort_puts_the_best_first_and_keeps_ties_in_order() {
    let mut peaks = vec![
        peak(0, 0, 0.2),
        peak(1, 0, 0.9),
        peak(2, 0, 0.5),
        peak(3, 0, 0.9),
        peak(4, 0, 0.2),
        peak(5, 0, 1.0),
    ];
    sort_by_score_desc(&mut peaks);
    let xs: Vec<usize> = peaks.iter().map(|p| p.x).collect();
    assert_eq!(xs, vec![5, 1, 3, 2, 0, 4]);
}

#[test]
fn sort_takes_both_zeros_for_equal_and_what_is_not_a_number_last() {
    let mut peaks = vec![
        peak(0, 0, f32::NAN),
        peak(1, 0, -0.0),
        peak(2, 0, f32::NEG_INFINITY),
        peak(3, 0, 0.0),
        peak(4, 0, -0.0),
        peak(5, 0, f32::INFINITY),
    ];
    sort_by_score_desc(&mut peaks);
    let xs: Vec<usize> = peaks.iter().map(|p| p.x).collect();
    assert_eq!(xs, vec![5, 1, 3, 4, 2, 0]);
}

#[test]
fn comparison_orders_by_descending_score() {
    assert_eq!(by_score_desc(&peak(0, 0, 0.9), &peak(1, 0, 0.1)), Ordering::Less);
    assert_eq!(by_score_desc(&peak(0, 0, 0.1), &peak(1, 0, 0.9)), Ordering::Greater);
    assert_eq!(by_score_desc(&peak(0, 0, 0.5), &peak(1, 3, 0.5)), Ordering::Equal);
}

#[test]
fn truncation_keeps_the_first_peaks() {
    let all = vec![peak(0, 0, 0.9), peak(1, 0, 0.8), peak(2, 0, 0.7)];
    for (k, want) in [(2, 2), (3, 3), (4, 3), (0, 0), (-1, 3), (i64::MAX, 3), (i64::MIN, 3)] {
        let mut peaks = all.clone();
        truncate_to(&mut peaks, k);
        assert_eq!(peaks, all[..want].to_vec());
    }
}

#[test]
fn peaks_of_a_plane_keep_their_order() {
    let all = vec![peak(0, 1, 0.1), peak(1, 0, 0.2), peak(2, 1, 0.3), peak(3, 2, 0.4)];
    assert_eq!(peaks_of_channel(&all, 1), vec![peak(0, 1, 0.1), peak(2, 1, 0.3)]);
    assert_eq!(peaks_of_channel(&all, 0), vec![peak(1, 0, 0.2)]);
    assert!(peaks_of_channel(&all, 3).is_empty());
}

#[test]
fn cap_keeps_the_best_of_each_plane_plane_after_plane() {
    let all = vec![
        peak(0, 1, 0.1),
        peak(1, 0, 0.2),
        peak(2, 1, 0.3),
        peak(3, 1, 0.2),
        peak(4, 0, 0.9),
        peak(5, 0, 0.2),
    ];
    assert_eq!(
        cap_per_channel(&all, 2, 2),
        vec![peak(4, 0, 0.9), peak(1, 0, 0.2), peak(2, 1, 0.3), peak(3, 1, 0.2)]
    );
    assert_eq!(
        cap_per_channel(&all, 1, 5),
        vec![peak(4, 0, 0.9), peak(1, 0, 0.2), peak(5, 0, 0.2)]
    );
    assert!(cap_per_channel(&all, 0, 5).is_empty());
}

#[test]
fn decoded_peaks_come_best_first() {
    let g = grid(1, 1, 5, &[0.5, 3.0, 1.0, 2.0, 1.0]);
    let peaks = decode_peaks(&g, &config(0.5, 1, 0, 0, 0), 5, 1);
    assert_eq!(cells(&peaks), vec![(1, 0, 0), (3, 0, 0), (2, 0, 0), (4, 0, 0), (0, 0, 0)]);
    assert_eq!(
        scores(&peaks),
        vec![sigmoid(3.0), sigmoid(2.0), sigmoid(1.0), sigmoid(1.0), sigmoid(0.5)]
    );
}

#[test]
fn decoded_peaks_of_one_score_keep_scan_order() {
    // Logits this high all activate to the same score.
    let g = grid(2, 1, 3, &[40.0, 50.0, 45.0, 60.0, 30.0, 70.0]);
    let peaks = decode_peaks(&g, &config(0.5, 1, 0, 0, 0), 3, 1);
    assert!(scores(&peaks).iter().all(|s| *s == 1.0));
    assert_eq!(
        cells(&peaks),
        vec![(0, 0, 0), (1, 0, 0), (2, 0, 0), (0, 0, 1), (1, 0, 1), (2, 0, 1)]
    );
}

#[test]
fn per_channel_cap_holds_for_every_plane() {
    let logits = [
        1.0, 2.0, 3.0, 4.0, //
        8.0, 7.0, 6.0, 5.0, //
        0.1, 0.2, 0.3, 0.4,
    ];
    let g = grid(3, 1, 4, &logits);
    for cap in 1..6 {
        let peaks = decode_peaks(&g, &config(0.5, 1, cap, 0, 0), 4, 1);
        for ch in 0..3 {
            let on_plane = peaks.iter().filter(|p| p.channel == ch).count();
            assert_eq!(on_plane, std::cmp::min(cap as usize, 4));
        }
    }
    let peaks = decode_peaks(&g, &config(0.5, 1, 2, 0, 0), 4, 1);
    assert_eq!(
        cells(&peaks),
        vec![(0, 0, 1), (1, 0, 1), (3, 0, 0), (2, 0, 0), (3, 0, 2), (2, 0, 2)]
    );
}

#[test]
fn global_cap_bounds_the_number_of_peaks() {
    let g = grid(2, 2, 2, &[1.0, 2.0, 3.0, 4.0, 5.0, 6.0, 7.0, 8.0]);
    for max_peaks in 1..12 {
        let peaks = decode_peaks(&g, &config(0.5, 1, 0, max_peaks, 0), 2, 2);
        assert_eq!(peaks.len(), std::cmp::min(max_peaks as usize, 8));
    }
    let peaks = decode_peaks(&g, &config(0.5, 1, 0, 3, 0), 2, 2);
    assert_eq!(cells(&peaks), vec![(1, 1, 1), (0, 1, 1), (1, 0, 1)]);
    let unlimited = decode_peaks(&g, &config(0.5, 1, 0, 0, 0), 2, 2);
    assert_eq!(unlimited.len(), 8);
    let unlimited = decode_peaks(&g, &config(0.5, 1, 0, -3, 0), 2, 2);
    assert_eq!(unlimited.len(), 8);
}

#[test]
fn both_caps_apply_one_after_the_other() {
    let logits = [
        1.0, 2.0, 3.0, 4.0, //
        8.0, 7.0, 6.0, 5.0,
    ];
    let g = grid(2, 1, 4, &logits);
    let peaks = decode_peaks(&g, &config(0.5, 1, 2, 3, 5), 4, 1);
    assert_eq!(cells(&peaks), vec![(0, 0, 1), (1, 0, 1), (3, 0, 0)]);
}

#[test]
fn fallback_returns_the_best_cells_when_none_reaches_the_cutoff() {
    let logits = [-3.0, -1.0, -2.0, -5.0, -4.0, -6.0];
    let g = grid(1, 2, 3, &logits);
    for k in 1..10 {
        let peaks = decode_peaks(&g, &config(0.5, 1, 0, 0, k), 3, 2);
        assert_eq!(peaks.len(), std::cmp::min(k as usize, 6));
        let got = scores(&peaks);
        for pair in got.windows(2) {
            assert!(pair[0] >= pair[1]);
        }
    }
    let peaks = decode_peaks(&g, &config(0.5, 1, 0, 0, 4), 3, 2);
    assert_eq!(cells(&peaks), vec![(1, 0, 0), (2, 0, 0), (0, 0, 0), (1, 1, 0)]);
    assert_eq!(scores(&peaks), vec![sigmoid(-1.0), sigmoid(-2.0), sigmoid(-3.0), sigmoid(-4.0)]);
}

#[test]
fn fallback_returns_local_maxima_only() {
    let logits = [-3.0, -1.0, -2.0, -5.0, -4.0, -6.0];
    let g = grid(1, 2, 3, &logits);
    let peaks = decode_peaks(&g, &config(0.5, 3, 0, 0, 4), 3, 2);
    assert_eq!(cells(&peaks), vec![(1, 0, 0)]);
}

#[test]
fn fallback_is_not_subject_to_the_caps() {
    let logits = [-3.0, -1.0, -2.0, -5.0, -4.0, -6.0];
    let g = grid(1, 2, 3, &logits);
    let peaks = decode_peaks(&g, &config(0.5, 1, 1, 2, 5), 3, 2);
    assert_eq!(peaks.len(), 5);
}

#[test]
fn fallback_is_not_used_where_a_peak_reaches_the_cutoff() {
    let logits = [-3.0, 1.0, -2.0, -5.0, -4.0, -6.0];
    let g = grid(1, 2, 3, &logits);
    let peaks = decode_peaks(&g, &config(0.5, 1, 0, 0, 4), 3, 2);
    assert_eq!(cells(&peaks), vec![(1, 0, 0)]);
}

#[test]
fn without_a_fallback_nothing_comes_back() {
    let logits = [-3.0, -1.0, -2.0, -5.0, -4.0, -6.0];
    let g = grid(1, 2, 3, &logits);
    for fallback in [0, -1] {
        assert!(decode_peaks(&g, &config(0.5, 1, 0, 0, fallback), 3, 2).is_empty());
    }
}

#[test]
fn decoding_stays_inside_the_valid_region() {
    let logits = [
        1.0, 0.0, 9.0, //
        0.0, 2.0, 9.0, //
        9.0, 9.0, 9.0,
    ];
    let g = grid(1, 3, 3, &logits);
    let peaks = decode_peaks(&g, &config(0.5, 1, 0, 0, 0), 2, 2);
    assert_eq!(cells(&peaks), vec![(1, 1, 0), (0, 0, 0), (1, 0, 0), (0, 1, 0)]);
    let fallback = decode_peaks(&g, &config(0.99999, 1, 0, 0, 9), 2, 2);
    assert_eq!(fallback.len(), 4);
    assert!(fallback.iter().all(|p| p.x < 2 && p.y < 2));
}
