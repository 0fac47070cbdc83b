//! The two halves of a detection call: from a decoded image to the model's
//! input, and from the model's output to the nodes.

use vstd::prelude::*;
use crate::config::ModelConfig;
use crate::decode::{decode_peaks, decoded};
use crate::error::{CropFault, DetectError};
use crate::geometry::AxisScale;
use crate::grid::{LogitGrid, RawPeak};
use crate::nodes::{map_nodes_to_image_space, placed, PredictedNode};
use crate::preprocess::{
    clamped_extent,
    crop_fault,
    crop_to_rect,
    keeps_size,
    lemma_pixel_index,
    longest_side,
    lemma_padding,
    pad_to_multiple,
    padding,
    resize_keep_aspect,
    scale_side,
    scaled_side,
    GrayBuffer,
};
use crate::tensor::{image_to_tensor, lemma_replicated, InputTensor};

verus! {

/// The model's input with what maps a grid position back into the image.
pub struct PreparedInput {
    pub tensor: InputTensor,
    /// Scale of the horizontal axis; its `resized` is the width of the valid
    /// region.
    pub scale_x: AxisScale,
    /// Scale of the vertical axis; its `resized` is the height of the valid
    /// region.
    pub scale_y: AxisScale,
}

/// Refuses a crop of zero width or height.
pub fn check_crop_size(crop_w: u32, crop_h: u32) -> (r: Result<(), DetectError>)
    ensures
        r == (if crop_w == 0 || crop_h == 0 {
            Err::<(), DetectError>(DetectError::InvalidCrop(CropFault::ZeroSize))
        } else {
            Ok::<(), DetectError>(())
        }),
{
    if crop_w == 0 || crop_h == 0 {
        Err(DetectError::InvalidCrop(CropFault::ZeroSize))
    } else {
        Ok(())
    }
}

/// The length of a side of the crop after the resize.
pub open spec fn resized_side(side: u32, other: u32, max_side: u32) -> int {
    if keeps_size(side, other, max_side) {
        side as int
    } else {
        scaled_side(side, max_side, longest_side(side, other))
    }
}

/// The sizes that the stages pass through for a crop that is accepted.
pub struct Sizes {
    pub crop_w: u32,
    pub crop_h: u32,
    pub max_side: u32,
    pub multiple: u32,
    pub resized_w: int,
    pub resized_h: int,
    pub padded_w: int,
    pub padded_h: int,
}

/// The sizes for a crop of an image of `img_w` by `img_h` pixels.
pub open spec fn sizes(
    img_w: u32,
    img_h: u32,
    x: u32,
    y: u32,
    w: u32,
    h: u32,
    cfg: &ModelConfig,
) -> Sizes {
    let crop_w = clamped_extent(w, x, img_w) as u32;
    let crop_h = clamped_extent(h, y, img_h) as u32;
    let max_side = cfg.max_side as u32;
    let multiple = cfg.pad_multiple as u32;
    let resized_w = resized_side(crop_w, crop_h, max_side);
    let resized_h = resized_side(crop_h, crop_w, max_side);
    Sizes {
        crop_w,
        crop_h,
        max_side,
        multiple,
        resized_w,
        resized_h,
        padded_w: resized_w + padding(resized_w as u32, multiple),
        padded_h: resized_h + padding(resized_h as u32, multiple),
    }
}

/// The machine can hold what the stages build: the padded sides fit 32 bits,
/// and the resampler's buffers and the input each fit a vector. The resampler
/// keeps 16 bytes for each pixel of an image as wide as the crop and as high
/// as the resized one.
pub open spec fn within_limits(s: Sizes, in_channels: i64) -> bool {
    &&& !keeps_size(s.crop_w, s.crop_h, s.max_side) ==> 16 * s.crop_w * s.resized_h <= isize::MAX
        && s.resized_w * s.resized_h <= isize::MAX
    &&& s.padded_w <= u32::MAX
    &&& s.padded_h <= u32::MAX
    &&& in_channels > 0 ==> in_channels <= usize::MAX && in_channels * (s.padded_w * s.padded_h)
        <= isize::MAX
}

/// Element `(c, y, x)` of the input.
pub open spec fn input_at(t: &InputTensor, c: int, y: int, x: int) -> u8 {
    t.data@[(c * t.height + y) * t.width + x]
}

/// What preparing a crop gives: the crop's fault if it has one, else a
/// channel error for a channel count of zero or less, else the input. The
/// input has the padded size and the configured channels; each of its planes
/// is zero in the padding and, where the crop was not resized, equal to the
/// crop elsewhere. The scales are those of the resize.
pub open spec fn prepared(
    r: Result<PreparedInput, DetectError>,
    img: &GrayBuffer,
    crop_x: u32,
    crop_y: u32,
    crop_w: u32,
    crop_h: u32,
    cfg: &ModelConfig,
) -> bool {
    let s = sizes(img.width, img.height, crop_x, crop_y, crop_w, crop_h, cfg);
    match crop_fault(img.width, img.height, crop_x, crop_y, crop_w, crop_h) {
        Some(f) => r is Err && r->Err_0 == DetectError::InvalidCrop(f),
        None => if cfg.in_channels <= 0 {
            r is Err && r->Err_0 == DetectError::Channel
        } else {
            r is Ok && {
                let p = r->Ok_0;
                &&& p.scale_x == (AxisScale { resized: s.resized_w as u32, original: s.crop_w })
                &&& p.scale_y == (AxisScale { resized: s.resized_h as u32, original: s.crop_h })
                &&& p.scale_x.wf() && p.scale_y.wf()
                &&& p.tensor.wf()
                &&& p.tensor.channels == cfg.in_channels
                &&& p.tensor.width == s.padded_w
                &&& p.tensor.height == s.padded_h
                &&& forall|c: int, y: int, x: int|
                    0 <= c < p.tensor.channels && 0 <= y < s.padded_h && 0 <= x < s.padded_w && (x
                        >= s.resized_w || y >= s.resized_h) ==> #[trigger] input_at(
                        &p.tensor,
                        c,
                        y,
                        x,
                    ) == 0
                &&& keeps_size(s.crop_w, s.crop_h, s.max_side) ==> forall|c: int, y: int, x: int|
                    0 <= c < p.tensor.channels && 0 <= y < s.crop_h && 0 <= x < s.crop_w
                        ==> #[trigger] input_at(&p.tensor, c, y, x) == img.pixel(
                        crop_x + x,
                        crop_y + y,
                    )
            }
        },
    }
}

/// Crops the image, brings the crop to the model's size and lays it out as
/// the model's input.
///
/// The crop is refused as `crop_to_rect` refuses it. The crop is resized to
/// `max_side`, padded to `pad_multiple` and repeated for each input channel;
/// a channel count of zero or less is refused after that.
pub fn prepare_input(
    img: &GrayBuffer,
    crop_x: u32,
    crop_y: u32,
    crop_w: u32,
    crop_h: u32,
    cfg: &ModelConfig,
) -> (r: Result<PreparedInput, DetectError>)
    requires
        img.wf(),
        crop_fault(img.width, img.height, crop_x, crop_y, crop_w, crop_h) is None
            ==> within_limits(
            sizes(img.width, img.height, crop_x, crop_y, crop_w, crop_h, cfg),
            cfg.in_channels,
        ),
    ensures
        prepared(r, img, crop_x, crop_y, crop_w, crop_h, cfg),
{
    let cropped: GrayBuffer = match crop_to_rect(img, crop_x, crop_y, crop_w, crop_h) {
        Ok(c) => c,
        Err(e) => {
            return Err(e);
        },
    };
    let max_side: u32 = #[verifier::truncate]
    (cfg.max_side as u32);
    let multiple: u32 = #[verifier::truncate]
    (cfg.pad_multiple as u32);
    let (resized, scale_x, scale_y) = resize_keep_aspect(&cropped, max_side);
    let (padded, _pad_w, _pad_h) = pad_to_multiple(&resized, multiple);
    proof {
        assert(padded.pixels@.len() == padded.width * padded.height);
    }
    let tensor: InputTensor = match image_to_tensor(&padded, cfg.in_channels) {
        Ok(t) => t,
        Err(e) => {
            return Err(e);
        },
    };
    proof {
        let plane = padded.pixels@;
        let w = padded.width as int;
        let h = padded.height as int;
        lemma_replicated(plane, cfg.in_channels as int);
        assert forall|c: int, y: int, x: int|
            0 <= c < tensor.channels && 0 <= y < h && 0 <= x < w implies #[trigger] input_at(
            &tensor,
            c,
            y,
            x,
        ) == padded.pixel(x, y) by {
            lemma_pixel_index(w, h, x, y);
            assert((c * h + y) * w + x == c * (w * h) + (y * w + x)) by (nonlinear_arith);
            assert(tensor.data@[c * plane.len() + (y * w + x)] == plane[y * w + x]);
        }
        assert forall|c: int, y: int, x: int|
            0 <= c < tensor.channels && 0 <= y < h && 0 <= x < w && (x >= resized.width || y
                >= resized.height) implies #[trigger] input_at(&tensor, c, y, x) == 0 by {
            assert(input_at(&tensor, c, y, x) == padded.pixel(x, y));
        }
        if keeps_size(cropped.width, cropped.height, max_side) {
            assert forall|c: int, y: int, x: int|
                0 <= c < tensor.channels && 0 <= y < cropped.height && 0 <= x
                    < cropped.width implies #[trigger] input_at(&tensor, c, y, x) == img.pixel(
                crop_x + x,
                crop_y + y,
            ) by {
                assert(input_at(&tensor, c, y, x) == padded.pixel(x, y));
                assert(padded.pixel(x, y) == resized.pixel(x, y));
                assert(resized.pixel(x, y) == cropped.pixel(x, y));
            }
        }
    }
    Ok(PreparedInput { tensor, scale_x, scale_y })
}

/// Computes `padding`.
pub fn padding_of(len: u32, multiple: u32) -> (r: u32)
    ensures
        r == padding(len, multiple),
{
    if multiple == 0 {
        0
    } else {
        proof {
            lemma_padding(len, multiple);
        }
        (multiple - len % multiple) % multiple
    }
}

/// Tells whether the machine can hold what preparing the crop builds. A crop
/// that is refused needs nothing.
pub fn fits_limits(
    img_w: u32,
    img_h: u32,
    crop_x: u32,
    crop_y: u32,
    crop_w: u32,
    crop_h: u32,
    cfg: &ModelConfig,
) -> (r: bool)
    ensures
        r == (crop_fault(img_w, img_h, crop_x, crop_y, crop_w, crop_h) is None ==> within_limits(
            sizes(img_w, img_h, crop_x, crop_y, crop_w, crop_h, cfg),
            cfg.in_channels,
        )),
{
    if crop_w == 0 || crop_h == 0 || crop_x >= img_w || crop_y >= img_h {
        return true;
    }
    let ghost s = sizes(img_w, img_h, crop_x, crop_y, crop_w, crop_h, cfg);
    let cw: u32 = if crop_w <= img_w - crop_x {
        crop_w
    } else {
        img_w - crop_x
    };
    let ch: u32 = if crop_h <= img_h - crop_y {
        crop_h
    } else {
        img_h - crop_y
    };
    let max_side: u32 = #[verifier::truncate]
    (cfg.max_side as u32);
    let multiple: u32 = #[verifier::truncate]
    (cfg.pad_multiple as u32);
    let longest: u32 = if cw >= ch {
        cw
    } else {
        ch
    };
    let keeps: bool = max_side == 0 || longest <= max_side;
    let rw: u32 = if keeps {
        cw
    } else {
        scale_side(cw, max_side, longest)
    };
    let rh: u32 = if keeps {
        ch
    } else {
        scale_side(ch, max_side, longest)
    };
    assert(rw == s.resized_w && rh == s.resized_h);
    assert(16 * cw * rh <= 16 * 0xFFFF_FFFF * 0xFFFF_FFFF && rw * rh <= 0xFFFF_FFFF * 0xFFFF_FFFF)
        by (nonlinear_arith)
        requires
            0 <= cw <= 0xFFFF_FFFF,
            0 <= rw <= 0xFFFF_FFFF,
            0 <= rh <= 0xFFFF_FFFF,
    ;
    let most: u128 = isize::MAX as u128;
    if !keeps {
        let scratch: u128 = 16 * (cw as u128) * (rh as u128);
        let area: u128 = (rw as u128) * (rh as u128);
        if scratch > most || area > most {
            return false;
        }
    }
    let pw: u64 = rw as u64 + padding_of(rw, multiple) as u64;
    let ph: u64 = rh as u64 + padding_of(rh, multiple) as u64;
    assert(pw == s.padded_w && ph == s.padded_h);
    if pw > u32::MAX as u64 || ph > u32::MAX as u64 {
        return false;
    }
    assert(pw * ph <= 0xFFFF_FFFF * 0xFFFF_FFFF) by (nonlinear_arith)
        requires
            0 <= pw <= 0xFFFF_FFFF,
            0 <= ph <= 0xFFFF_FFFF,
    ;
    let plane: u128 = (pw as u128) * (ph as u128);
    if cfg.in_channels > 0 {
        assert(cfg.in_channels * plane <= 0x7FFF_FFFF_FFFF_FFFF * (0xFFFF_FFFF * 0xFFFF_FFFF))
            by (nonlinear_arith)
            requires
                0 <= cfg.in_channels <= 0x7FFF_FFFF_FFFF_FFFF,
                0 <= plane <= 0xFFFF_FFFF * 0xFFFF_FFFF,
        ;
        let total: u128 = (cfg.in_channels as u128) * plane;
        if cfg.in_channels as u128 > usize::MAX as u128 || total > most {
            return false;
        }
    }
    true
}

/// Prepares the model's input where the machine can hold it, and says so
/// where it cannot: `None` exactly when `fits_limits` is false.
pub fn try_prepare_input(
    img: &GrayBuffer,
    crop_x: u32,
    crop_y: u32,
    crop_w: u32,
    crop_h: u32,
    cfg: &ModelConfig,
) -> (r: Option<Result<PreparedInput, DetectError>>)
    requires
        img.wf(),
    ensures
        r is Some <==> (crop_fault(img.width, img.height, crop_x, crop_y, crop_w, crop_h) is None
            ==> within_limits(
            sizes(img.width, img.height, crop_x, crop_y, crop_w, crop_h, cfg),
            cfg.in_channels,
        )),
        r matches Some(inner) ==> prepared(inner, img, crop_x, crop_y, crop_w, crop_h, cfg),
{
    if fits_limits(img.width, img.height, crop_x, crop_y, crop_w, crop_h, cfg) {
        Some(prepare_input(img, crop_x, crop_y, crop_w, crop_h, cfg))
    } else {
        None
    }
}

/// The planes, rows and columns of a model output of rank four whose data
/// covers them and whose valid region lies inside them.
pub open spec fn shape_fits(
    shape: Seq<i64>,
    logits: int,
    scores: int,
    valid_w: int,
    valid_h: int,
) -> bool {
    &&& shape.len() == 4
    &&& 0 <= shape[1] <= usize::MAX
    &&& 0 <= shape[2] <= usize::MAX
    &&& 0 <= shape[3] <= usize::MAX
    &&& shape[1] * shape[2] * shape[3] <= logits
    &&& scores == logits
    &&& valid_w <= shape[3]
    &&& valid_h <= shape[2]
}

/// The grid that a fitting output gives.
pub open spec fn grid_of(shape: Seq<i64>, logits: Vec<u32>, scores: Vec<u32>) -> LogitGrid {
    LogitGrid {
        channels: shape[1] as usize,
        height: shape[2] as usize,
        width: shape[3] as usize,
        logits,
        scores,
    }
}

/// Reads a model output and turns it into nodes of the original image.
///
/// `shape` is the shape of the output, `logits` its data and `scores` the
/// activation of each logit, all three as the engine and the activation gave
/// them. The valid region is what the scales say the resized crop measured.
/// An output that is not of rank four, whose data does not cover its shape or
/// whose grid is smaller than the valid region is a shape error.
pub fn nodes_from_output(
    shape: &Vec<i64>,
    logits: Vec<u32>,
    scores: Vec<u32>,
    cfg: &ModelConfig,
    scale_x: AxisScale,
    scale_y: AxisScale,
    crop_x: u32,
    crop_y: u32,
) -> (r: Result<Vec<PredictedNode>, DetectError>)
    requires
        scale_x.wf(),
        scale_y.wf(),
    ensures
        !shape_fits(
            shape@,
            logits@.len() as int,
            scores@.len() as int,
            scale_x.resized as int,
            scale_y.resized as int,
        ) ==> r is Err && r->Err_0 == DetectError::Shape,
        shape_fits(
            shape@,
            logits@.len() as int,
            scores@.len() as int,
            scale_x.resized as int,
            scale_y.resized as int,
        ) ==> r is Ok && r->Ok_0@ == placed(
            decoded(
                &grid_of(shape@, logits, scores),
                &cfg.decode,
                scale_x.resized as int,
                scale_y.resized as int,
            ),
            cfg,
            scale_x,
            scale_y,
            crop_x,
            crop_y,
        ),
{
    if shape.len() != 4 {
        return Err(DetectError::Shape);
    }
    let c: i64 = shape[1];
    let h: i64 = shape[2];
    let w: i64 = shape[3];
    if c < 0 || h < 0 || w < 0 {
        return Err(DetectError::Shape);
    }
    let most: u64 = usize::MAX as u64;
    if c as u64 > most || h as u64 > most || w as u64 > most {
        return Err(DetectError::Shape);
    }
    let valid_w: usize = scale_x.resized as usize;
    let valid_h: usize = scale_y.resized as usize;
    if valid_w > w as usize || valid_h > h as usize {
        return Err(DetectError::Shape);
    }
    let grid: LogitGrid = match LogitGrid::new(c as usize, h as usize, w as usize, logits, scores) {
        Some(g) => g,
        None => {
            return Err(DetectError::Shape);
        },
    };
    let peaks: Vec<RawPeak> = decode_peaks(&grid, &cfg.decode, valid_w, valid_h);
    Ok(map_nodes_to_image_space(peaks, cfg, scale_x, scale_y, crop_x, crop_y))
}

} // verus!
