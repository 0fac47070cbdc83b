use node_detect::error::{CropFault, DetectError};
use node_detect::geometry::AxisScale;
use node_detect::preprocess::{
    crop_to_rect, pad_to_multiple, resize_keep_aspect, scale_side, GrayBuffer,
};

fn ramp(width: u32, height: u32) -> GrayBuffer {
    let mut pixels = Vec::new();
    for y in 0..height {
        for x in 0..width {
            pixels.push(((y * 16 + x) % 256) as u8);
        }
    }
    GrayBuffer::new(width, height, pixels).unwrap()
}

fn crop_error(r: Result<GrayBuffer, DetectError>) -> DetectError {
    match r {
        Ok(_) => panic!("the crop was accepted"),
        Err(e) => e,
    }
}

#[test]
fn buffer_needs_one_byte_for_each_pixel() {
    assert!(GrayBuffer::new(2, 3, vec![0; 6]).is_some());
    assert!(GrayBuffer::new(2, 3, vec![0; 5]).is_none());
    assert!(GrayBuffer::new(2, 3, vec![0; 7]).is_none());
    assert!(GrayBuffer::new(0, 3, vec![]).is_some());
    let b = ramp(4, 3);
    assert_eq!(b.get(0, 0), 0);
    assert_eq!(b.get(3, 2), 35);
    let copy = b.duplicate();
    assert_eq!((copy.width, copy.height), (4, 3));
    assert_eq!(copy.pixels, b.pixels);
}

#[test]
fn crop_cuts_the_rectangle_out() {
    let img = ramp(6, 5);
    let out = crop_to_rect(&img, 2, 1, 3, 2).unwrap();
    assert_eq!((out.width, out.height), (3, 2));
    assert_eq!(out.pixels, vec![18, 19, 20, 34, 35, 36]);
}

#[test]
fn crop_is_clamped_to_the_image() {
    let img = ramp(6, 5);
    let out = crop_to_rect(&img, 4, 3, 100, 100).unwrap();
    assert_eq!((out.width, out.height), (2, 2));
    assert_eq!(out.pixels, vec![52, 53, 68, 69]);
    let whole = crop_to_rect(&img, 0, 0, u32::MAX, u32::MAX).unwrap();
    assert_eq!((whole.width, whole.height), (6, 5));
    assert_eq!(whole.pixels, img.pixels);
}

#[test]
fn crop_of_zero_width_or_height_is_refused() {
    let img = ramp(6, 5);
    for (w, h) in [(0, 1), (1, 0), (0, 0), (0, 100), (100, 0)] {
        for (x, y) in [(0, 0), (2, 2), (6, 5), (100, 100)] {
            assert_eq!(
                crop_error(crop_to_rect(&img, x, y, w, h)),
                DetectError::InvalidCrop(CropFault::ZeroSize)
            );
        }
    }
}

#[test]
fn crop_outside_the_image_is_refused() {
    let img = ramp(6, 5);
    for (x, y) in [(6, 0), (0, 5), (6, 5), (7, 2), (2, 9), (u32::MAX, u32::MAX)] {
        assert_eq!(
            crop_error(crop_to_rect(&img, x, y, 3, 3)),
            DetectError::InvalidCrop(CropFault::OutsideImage)
        );
    }
    let empty = GrayBuffer::new(0, 0, vec![]).unwrap();
    assert_eq!(
        crop_error(crop_to_rect(&empty, 0, 0, 1, 1)),
        DetectError::InvalidCrop(CropFault::OutsideImage)
    );
}

#[test]
fn resize_leaves_an_image_within_the_limit_alone() {
    let img = ramp(6, 5);
    for max_side in [0, 6, 7, 1000, u32::MAX] {
        let (out, sx, sy) = resize_keep_aspect(&img, max_side);
        assert_eq!((out.width, out.height), (6, 5));
        assert_eq!(out.pixels, img.pixels);
        assert_eq!(sx, AxisScale { resized: 6, original: 6 });
        assert_eq!(sy, AxisScale { resized: 5, original: 5 });
    }
}

#[test]
fn resize_brings_the_longest_side_to_the_limit() {
    let img = GrayBuffer::new(200, 100, vec![7; 20000]).unwrap();
    let (out, sx, sy) = resize_keep_aspect(&img, 50);
    assert_eq!((out.width, out.height), (50, 25));
    assert_eq!(out.pixels.len(), 50 * 25);
    assert_eq!(sx, AxisScale { resized: 50, original: 200 });
    assert_eq!(sy, AxisScale { resized: 25, original: 100 });
    assert!(out.pixels.iter().all(|&p| p == 7));

    let tall = GrayBuffer::new(3, 90, vec![0; 270]).unwrap();
    let (out, sx, sy) = resize_keep_aspect(&tall, 30);
    assert_eq!((out.width, out.height), (1, 30));
    assert_eq!(sx, AxisScale { resized: 1, original: 3 });
    assert_eq!(sy, AxisScale { resized: 30, original: 90 });
}

#[test]
fn resize_keeps_every_side_at_least_one_pixel() {
    let strip = GrayBuffer::new(1000, 1, vec![9; 1000]).unwrap();
    let (out, sx, sy) = resize_keep_aspect(&strip, 10);
    assert_eq!((out.width, out.height), (10, 1));
    assert_eq!(sx, AxisScale { resized: 10, original: 1000 });
    assert_eq!(sy, AxisScale { resized: 1, original: 1 });
}

#[test]
fn resize_follows_the_content() {
    let mut pixels = vec![0u8; 8 * 8];
    for y in 0..8 {
        for x in 4..8 {
            pixels[y * 8 + x] = 200;
        }
    }
    let img = GrayBuffer::new(8, 8, pixels).unwrap();
    let (out, _, _) = resize_keep_aspect(&img, 4);
    assert_eq!((out.width, out.height), (4, 4));
    for y in 0..4 {
        assert!(out.get(0, y) < 50);
        assert!(out.get(3, y) > 150);
    }
}

#[test]
fn scaled_side_rounds_to_the_nearest_whole_number() {
    assert_eq!(scale_side(100, 50, 200), 25);
    assert_eq!(scale_side(200, 50, 200), 50);
    assert_eq!(scale_side(333, 512, 1000), 170);
    assert_eq!(scale_side(1, 2, 1000), 1);
    assert_eq!(scale_side(0, 2, 1000), 1);
    assert_eq!(scale_side(3, 1, 6), 1);
    // 54 * 224 / 384 is 31.5: a half goes up.
    assert_eq!(scale_side(54, 224, 384), 32);
    // 7 * 10 / 20 is 3.5, 5 * 10 / 20 is 2.5, 1 * 10 / 20 is 0.5.
    assert_eq!(scale_side(7, 10, 20), 4);
    assert_eq!(scale_side(5, 10, 20), 3);
    assert_eq!(scale_side(1, 10, 20), 1);
    assert_eq!(scale_side(u32::MAX, u32::MAX - 1, u32::MAX), u32::MAX - 1);
    assert_eq!(scale_side(u32::MAX, 0, u32::MAX), 1);
}

#[test]
fn scaled_side_agrees_with_single_precision_away_from_ties() {
    for longest in [100u32, 333, 640, 1000, 1920, 4096] {
        for max_side in [32u32, 224, 256, 512] {
            if longest <= max_side {
                continue;
            }
            for side in 1..=longest {
                let exact_twice = 2 * (side as u64) * (max_side as u64);
                if exact_twice % (2 * longest as u64) == longest as u64 {
                    continue;
                }
                let scale = max_side as f32 / longest as f32;
                let rounded = (side as f32 * scale).round().max(1.0) as u32;
                assert_eq!(scale_side(side, max_side, longest), rounded);
            }
        }
    }
}

#[test]
fn pad_fills_up_to_the_next_multiple_with_zeros() {
    let img = ramp(5, 3);
    let (out, pad_w, pad_h) = pad_to_multiple(&img, 4);
    assert_eq!((pad_w, pad_h), (3, 1));
    assert_eq!((out.width, out.height), (8, 4));
    for y in 0..4 {
        for x in 0..8 {
            let want = if x < 5 && y < 3 { img.get(x, y) } else { 0 };
            assert_eq!(out.get(x, y), want);
        }
    }
}

#[test]
fn pad_never_shrinks_and_reaches_a_multiple() {
    for multiple in 1..12u32 {
        for w in 1..20u32 {
            for h in [1u32, 7, 12] {
                let img = GrayBuffer::new(w, h, vec![1; (w * h) as usize]).unwrap();
                let (out, pad_w, pad_h) = pad_to_multiple(&img, multiple);
                assert!(out.width >= w && out.height >= h);
                assert_eq!(out.width, w + pad_w);
                assert_eq!(out.height, h + pad_h);
                assert_eq!(out.width % multiple, 0);
                assert_eq!(out.height % multiple, 0);
                assert!(pad_w < multiple && pad_h < multiple);
                assert_eq!(out.pixels.len(), (out.width * out.height) as usize);
            }
        }
    }
}

#[test]
fn pad_is_idle_for_multiple_zero_and_for_aligned_sides() {
    let img = ramp(8, 4);
    for multiple in [0, 1, 2, 4] {
        let (out, pad_w, pad_h) = pad_to_multiple(&img, multiple);
        assert_eq!((pad_w, pad_h), (0, 0));
        assert_eq!((out.width, out.height), (8, 4));
        assert_eq!(out.pixels, img.pixels);
    }
    let odd = ramp(5, 3);
    let (out, pad_w, pad_h) = pad_to_multiple(&odd, 0);
    assert_eq!((pad_w, pad_h), (0, 0));
    assert_eq!(out.pixels, odd.pixels);
}

#[test]
fn resize_takes_an_image_without_pixels() {
    let none = GrayBuffer::new(0, 0, vec![]).unwrap();
    let (out, sx, sy) = resize_keep_aspect(&none, 5);
    assert_eq!((out.width, out.height, out.pixels.len()), (0, 0, 0));
    assert_eq!(sx, AxisScale { resized: 0, original: 0 });
    assert_eq!(sy, AxisScale { resized: 0, original: 0 });

    let flat = GrayBuffer::new(0, 10, vec![]).unwrap();
    let (out, sx, sy) = resize_keep_aspect(&flat, 5);
    assert_eq!((out.width, out.height), (1, 5));
    assert_eq!(out.pixels, vec![0; 5]);
    assert_eq!(sx, AxisScale { resized: 1, original: 0 });
    assert_eq!(sy, AxisScale { resized: 5, original: 10 });
}
