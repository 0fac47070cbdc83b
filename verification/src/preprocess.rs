//! Preparing a crop of a grayscale image for the model: cropping, resizing to
//! a longest side and padding to a multiple.

use vstd::prelude::*;
use vstd::arithmetic::div_mod::{
    lemma_fundamental_div_mod,
    lemma_fundamental_div_mod_converse,
    lemma_mod_multiples_basic,
    lemma_small_mod,
};
use crate::error::{CropFault, DetectError};
use crate::geometry::AxisScale;
use crate::trusted::resample_catmull_rom;

verus! {

/// An image of one 8-bit channel, row after row from the top.
pub struct GrayBuffer {
    pub width: u32,
    pub height: u32,
    pub pixels: Vec<u8>,
}

impl GrayBuffer {
    /// There is one byte for each pixel.
    pub open spec fn wf(&self) -> bool {
        self.pixels@.len() == self.width * self.height
    }

    /// The pixel in column `x` of row `y`.
    pub open spec fn pixel(&self, x: int, y: int) -> u8 {
        self.pixels@[y * self.width + x]
    }

    /// Same size and same pixels.
    pub open spec fn same_as(&self, other: &GrayBuffer) -> bool {
        &&& self.width == other.width
        &&& self.height == other.height
        &&& self.pixels@ == other.pixels@
    }

    /// Builds an image; `None` unless there is one byte for each pixel.
    pub fn new(width: u32, height: u32, pixels: Vec<u8>) -> (r: Option<GrayBuffer>)
        ensures
            r is Some <==> pixels@.len() == width * height,
            r matches Some(b) ==> b.wf() && b == (GrayBuffer { width, height, pixels }),
    {
        assert(width * height <= 0xFFFF_FFFF * 0xFFFF_FFFF) by (nonlinear_arith)
            requires
                0 <= width <= 0xFFFF_FFFF,
                0 <= height <= 0xFFFF_FFFF,
        ;
        let area: u64 = (width as u64) * (height as u64);
        if pixels.len() as u128 == area as u128 {
            Some(GrayBuffer { width, height, pixels })
        } else {
            None
        }
    }

    /// Reads one pixel.
    pub fn get(&self, x: u32, y: u32) -> (p: u8)
        requires
            self.wf(),
            x < self.width,
            y < self.height,
        ensures
            p == self.pixel(x as int, y as int),
    {
        proof {
            lemma_pixel_index(self.width as int, self.height as int, x as int, y as int);
            assert(self.pixels@.len() == self.pixels.len());
        }
        self.pixels[(y as usize) * (self.width as usize) + (x as usize)]
    }

    /// A copy of the image.
    pub fn duplicate(&self) -> (copy: GrayBuffer)
        ensures
            copy.same_as(self),
    {
        let mut pixels: Vec<u8> = Vec::new();
        let mut i: usize = 0;
        while i < self.pixels.len()
            invariant
                i <= self.pixels.len(),
                pixels@ == self.pixels@.take(i as int),
            decreases self.pixels.len() - i,
        {
            pixels.push(self.pixels[i]);
            assert(pixels@ =~= self.pixels@.take(i + 1));
            i += 1;
        }
        assert(self.pixels@.take(i as int) =~= self.pixels@);
        GrayBuffer { width: self.width, height: self.height, pixels }
    }
}

/// A pixel inside a `w` by `h` image has its place among the `w * h` bytes.
pub proof fn lemma_pixel_index(w: int, h: int, x: int, y: int)
    by (nonlinear_arith)
    requires
        0 <= x < w,
        0 <= y < h,
    ensures
        0 <= y * w <= y * w + x < w * h,
{
}

/// The `k`-th byte of a `w` pixels wide image is the pixel in column `k % w`
/// of row `k / w`.
pub proof fn lemma_row_column(w: int, x: int, y: int)
    requires
        0 <= x < w,
        0 <= y,
    ensures
        (y * w + x) / w == y,
        (y * w + x) % w == x,
{
    lemma_fundamental_div_mod_converse(y * w + x, w, y, x);
}

/// Why a crop is refused, if it is: a zero width or height first, then a
/// rectangle whose corner lies to the right of the image or below it.
pub open spec fn crop_fault(img_w: u32, img_h: u32, x: u32, y: u32, w: u32, h: u32) -> Option<
    CropFault,
> {
    if w == 0 || h == 0 {
        Some(CropFault::ZeroSize)
    } else if x >= img_w || y >= img_h {
        Some(CropFault::OutsideImage)
    } else {
        None
    }
}

/// The extent `want`, cut to what is left of `limit` from `start` on.
pub open spec fn clamped_extent(want: u32, start: u32, limit: u32) -> int {
    if want <= limit - start {
        want as int
    } else {
        limit - start
    }
}

/// Cuts the rectangle at `(x, y)` of `w` by `h` pixels out of the image.
///
/// The rectangle is clamped to the image: its width and height are cut to
/// what the image has right of `x` and below `y`. A rectangle of zero width
/// or height is refused, and so is one of which nothing is left.
pub fn crop_to_rect(img: &GrayBuffer, x: u32, y: u32, w: u32, h: u32) -> (r: Result<
    GrayBuffer,
    DetectError,
>)
    requires
        img.wf(),
    ensures
        crop_fault(img.width, img.height, x, y, w, h) matches Some(f) ==> r is Err && r->Err_0
            == DetectError::InvalidCrop(f),
        crop_fault(img.width, img.height, x, y, w, h) is None ==> r is Ok && ({
            let out = r->Ok_0;
            &&& out.wf()
            &&& out.width == clamped_extent(w, x, img.width)
            &&& out.height == clamped_extent(h, y, img.height)
            &&& out.width > 0 && out.height > 0
            &&& forall|i: int, j: int|
                0 <= i < out.width && 0 <= j < out.height ==> #[trigger] out.pixel(i, j)
                    == img.pixel(x + i, y + j)
        }),
{
    if w == 0 || h == 0 {
        return Err(DetectError::InvalidCrop(CropFault::ZeroSize));
    }
    let x0: u32 = if x < img.width {
        x
    } else {
        img.width
    };
    let y0: u32 = if y < img.height {
        y
    } else {
        img.height
    };
    let cw: u32 = if w < img.width - x0 {
        w
    } else {
        img.width - x0
    };
    let ch: u32 = if h < img.height - y0 {
        h
    } else {
        img.height - y0
    };
    if cw == 0 || ch == 0 {
        return Err(DetectError::InvalidCrop(CropFault::OutsideImage));
    }
    let mut pixels: Vec<u8> = Vec::new();
    let mut j: u32 = 0;
    while j < ch
        invariant
            img.wf(),
            0 < cw,
            x0 + cw <= img.width,
            y0 + ch <= img.height,
            j <= ch,
            pixels@.len() == j * cw,
            forall|k: int|
                0 <= k < pixels@.len() ==> #[trigger] pixels@[k] == img.pixel(
                    x0 + k % (cw as int),
                    y0 + k / (cw as int),
                ),
        decreases ch - j,
    {
        let mut i: u32 = 0;
        while i < cw
            invariant
                img.wf(),
                0 < cw,
                x0 + cw <= img.width,
                y0 + ch <= img.height,
                j < ch,
                i <= cw,
                pixels@.len() == j * cw + i,
                forall|k: int|
                    0 <= k < pixels@.len() ==> #[trigger] pixels@[k] == img.pixel(
                        x0 + k % (cw as int),
                        y0 + k / (cw as int),
                    ),
            decreases cw - i,
        {
            proof {
                lemma_row_column(cw as int, i as int, j as int);
            }
            pixels.push(img.get(x0 + i, y0 + j));
            i += 1;
        }
        assert(j * cw + cw == (j + 1) * cw) by (nonlinear_arith);
        j += 1;
    }
    let out = GrayBuffer { width: cw, height: ch, pixels };
    proof {
        assert(ch * cw == cw * ch) by (nonlinear_arith);
        assert forall|i: int, j: int| 0 <= i < out.width && 0 <= j < out.height implies #[trigger]
            out.pixel(i, j) == img.pixel(x + i, y + j) by {
            lemma_row_column(cw as int, i, j);
            lemma_pixel_index(cw as int, ch as int, i, j);
        }
    }
    Ok(out)
}

/// The longer of the two sides.
pub open spec fn longest_side(w: u32, h: u32) -> u32 {
    if w >= h {
        w
    } else {
        h
    }
}

/// Whether an image of `w` by `h` pixels is left as it is: there is no limit,
/// or the image is within it.
pub open spec fn keeps_size(w: u32, h: u32, max_side: u32) -> bool {
    max_side == 0 || longest_side(w, h) <= max_side
}

/// The length that a side takes when the longest side is brought to
/// `max_side`: `side * max_side / longest` rounded to the nearest whole
/// number, halves upwards, and at least one.
pub open spec fn scaled_side(side: u32, max_side: u32, longest: u32) -> int {
    let rounded = (2 * side * max_side + longest) / (2 * longest);
    if rounded < 1 {
        1
    } else {
        rounded
    }
}

/// A side no longer than the longest scales to at most `max_side`.
pub proof fn lemma_scaled_side_bound(side: u32, max_side: u32, longest: u32)
    requires
        0 < longest,
        side <= longest,
    ensures
        1 <= scaled_side(side, max_side, longest) <= (if max_side == 0 {
            1
        } else {
            max_side as int
        }),
        side == longest && max_side > 0 ==> scaled_side(side, max_side, longest) == max_side,
{
    let num = 2 * side * max_side + longest;
    let den = 2 * longest;
    assert(0 <= num < (max_side + 1) * den) by (nonlinear_arith)
        requires
            num == 2 * side * max_side + longest,
            den == 2 * longest,
            0 <= side <= longest,
            0 < longest,
            0 <= max_side,
    ;
    lemma_fundamental_div_mod(num, den);
    let q = num / den;
    assert(0 <= q <= max_side) by (nonlinear_arith)
        requires
            num == den * q + num % den,
            0 <= num % den < den,
            0 <= num < (max_side + 1) * den,
            0 < den,
    ;
    if side == longest && max_side > 0 {
        assert(num == max_side * den + longest) by (nonlinear_arith)
            requires
                num == 2 * side * max_side + longest,
                den == 2 * longest,
                side == longest,
        ;
        lemma_fundamental_div_mod_converse(num, den, max_side as int, longest as int);
    }
}

/// A scaled side that is not held up at one pixel lies within half a pixel of
/// `side * max_side / longest`.
pub proof fn lemma_scaled_side_nearest(side: u32, max_side: u32, longest: u32)
    requires
        0 < longest,
    ensures
        ({
            let scaled = scaled_side(side, max_side, longest);
            let twice = 2 * side * max_side;
            scaled > 1 ==> twice - longest < 2 * longest * scaled <= twice + longest
        }),
{
    let num = 2 * side * max_side + longest;
    let den = 2 * longest;
    assert(0 <= 2 * side * max_side) by (nonlinear_arith)
        requires
            0 <= side,
            0 <= max_side,
    ;
    lemma_fundamental_div_mod(num, den);
    vstd::arithmetic::div_mod::lemma_mod_bound(num, den);
    let q = num / den;
    assert(den * q == 2 * longest * q) by (nonlinear_arith)
        requires
            den == 2 * longest,
    ;
}

/// Computes `scaled_side`.
pub fn scale_side(side: u32, max_side: u32, longest: u32) -> (r: u32)
    requires
        0 < longest,
        side <= longest,
    ensures
        r == scaled_side(side, max_side, longest),
{
    proof {
        lemma_scaled_side_bound(side, max_side, longest);
        assert(2 * side * max_side <= 2 * 0xFFFF_FFFF * 0xFFFF_FFFF) by (nonlinear_arith)
            requires
                0 <= side <= 0xFFFF_FFFF,
                0 <= max_side <= 0xFFFF_FFFF,
        ;
    }
    let num: u128 = 2 * (side as u128) * (max_side as u128) + (longest as u128);
    let den: u128 = 2 * (longest as u128);
    let rounded: u128 = num / den;
    if rounded < 1 {
        1
    } else {
        rounded as u32
    }
}

/// Brings the longest side of the image down to `max_side`, the other side
/// following in proportion.
///
/// With `max_side` zero, or an image already within it, the image comes back
/// unchanged with both scales the identity. Otherwise the image is resampled
/// to `scaled_side` of each of its sides; the scales returned are the ratios
/// of the new sides to the old ones, which is what maps a position back.
pub fn resize_keep_aspect(buf: &GrayBuffer, max_side: u32) -> (r: (
    GrayBuffer,
    AxisScale,
    AxisScale,
))
    requires
        buf.wf(),
        !keeps_size(buf.width, buf.height, max_side) ==> ({
            let longest = longest_side(buf.width, buf.height);
            &&& 16 * buf.width * scaled_side(buf.height, max_side, longest) <= isize::MAX
            &&& scaled_side(buf.width, max_side, longest) * scaled_side(
                buf.height,
                max_side,
                longest,
            ) <= isize::MAX
        }),
    ensures
        r.0.wf(),
        r.1 == (AxisScale { resized: r.0.width, original: buf.width }),
        r.2 == (AxisScale { resized: r.0.height, original: buf.height }),
        buf.width > 0 && buf.height > 0 ==> r.1.wf() && r.2.wf(),
        keeps_size(buf.width, buf.height, max_side) ==> r.0.same_as(buf) && r.1.is_identity()
            && r.2.is_identity(),
        !keeps_size(buf.width, buf.height, max_side) ==> ({
            let longest = longest_side(buf.width, buf.height);
            &&& r.0.width == scaled_side(buf.width, max_side, longest)
            &&& r.0.height == scaled_side(buf.height, max_side, longest)
            &&& r.0.width <= max_side && r.0.height <= max_side
            &&& r.0.width == max_side || r.0.height == max_side
        }),
{
    let longest: u32 = if buf.width >= buf.height {
        buf.width
    } else {
        buf.height
    };
    if max_side == 0 || longest <= max_side {
        return (
            buf.duplicate(),
            AxisScale { resized: buf.width, original: buf.width },
            AxisScale { resized: buf.height, original: buf.height },
        );
    }
    proof {
        lemma_scaled_side_bound(buf.width, max_side, longest);
        lemma_scaled_side_bound(buf.height, max_side, longest);
    }
    let new_w: u32 = scale_side(buf.width, max_side, longest);
    let new_h: u32 = scale_side(buf.height, max_side, longest);
    let resized: GrayBuffer = resample_catmull_rom(buf, new_w, new_h);
    (
        resized,
        AxisScale { resized: new_w, original: buf.width },
        AxisScale { resized: new_h, original: buf.height },
    )
}

/// What is added to `len` to reach the next multiple of `multiple`; nothing
/// for a multiple of zero.
pub open spec fn padding(len: u32, multiple: u32) -> int {
    if multiple == 0 || len % multiple == 0 {
        0
    } else {
        multiple - len % multiple
    }
}

/// A padded length is a multiple, the padding is less than the multiple, and
/// it is what is left of the multiple after what `len` leaves of it.
pub proof fn lemma_padding(len: u32, multiple: u32)
    requires
        multiple > 0,
    ensures
        0 <= padding(len, multiple) < multiple,
        (len + padding(len, multiple)) % (multiple as int) == 0,
        len % multiple == 0 <==> padding(len, multiple) == 0,
        padding(len, multiple) == (multiple - len % multiple) % (multiple as int),
{
    let m = multiple as int;
    let r = len as int % m;
    lemma_fundamental_div_mod(len as int, m);
    let q = len as int / m;
    if r == 0 {
        vstd::arithmetic::div_mod::lemma_mod_self_0(m);
    } else {
        lemma_small_mod((m - r) as nat, m as nat);
        assert(len + (m - r) == (q + 1) * m) by (nonlinear_arith)
            requires
                len == m * q + r,
        ;
        lemma_mod_multiples_basic(q + 1, m);
    }
}

/// Pads the image on the right and at the bottom so that both sides are
/// multiples of `multiple`. The image keeps its place at the top left; what
/// is added is zero. Returns the image with the padding of its width and of
/// its height. A side that is padded must still fit 32 bits.
pub fn pad_to_multiple(buf: &GrayBuffer, multiple: u32) -> (r: (GrayBuffer, u32, u32))
    requires
        buf.wf(),
        padding(buf.width, multiple) > 0 ==> buf.width + padding(buf.width, multiple) <= u32::MAX,
        padding(buf.height, multiple) > 0 ==> buf.height + padding(buf.height, multiple)
            <= u32::MAX,
    ensures
        r.1 == padding(buf.width, multiple),
        r.2 == padding(buf.height, multiple),
        r.0.wf(),
        r.0.width == buf.width + r.1,
        r.0.height == buf.height + r.2,
        r.0.width >= buf.width && r.0.height >= buf.height,
        multiple > 0 ==> r.0.width % multiple == 0 && r.0.height % multiple == 0,
        multiple == 0 || (buf.width % multiple == 0 && buf.height % multiple == 0) ==> r.1 == 0
            && r.2 == 0,
        r.1 == 0 && r.2 == 0 ==> r.0.same_as(buf),
        forall|x: int, y: int|
            0 <= x < r.0.width && 0 <= y < r.0.height ==> #[trigger] r.0.pixel(x, y) == (if x
                < buf.width && y < buf.height {
                buf.pixel(x, y)
            } else {
                0u8
            }),
{
    if multiple == 0 {
        let copy = buf.duplicate();
        return (copy, 0, 0);
    }
    proof {
        lemma_padding(buf.width, multiple);
        lemma_padding(buf.height, multiple);
    }
    let pad_w: u32 = (multiple - buf.width % multiple) % multiple;
    let pad_h: u32 = (multiple - buf.height % multiple) % multiple;
    if pad_w == 0 && pad_h == 0 {
        let copy = buf.duplicate();
        return (copy, 0, 0);
    }
    let nw: u32 = buf.width + pad_w;
    let nh: u32 = buf.height + pad_h;
    let mut pixels: Vec<u8> = Vec::new();
    let mut j: u32 = 0;
    while j < nh
        invariant
            buf.wf(),
            buf.width <= nw,
            buf.height <= nh,
            j <= nh,
            pixels@.len() == j * nw,
            forall|k: int|
                0 <= k < pixels@.len() ==> #[trigger] pixels@[k] == (if k % (nw as int) < buf.width
                    && k / (nw as int) < buf.height {
                    buf.pixel(k % (nw as int), k / (nw as int))
                } else {
                    0u8
                }),
        decreases nh - j,
    {
        let mut i: u32 = 0;
        while i < nw
            invariant
                buf.wf(),
                buf.width <= nw,
                buf.height <= nh,
                j < nh,
                i <= nw,
                pixels@.len() == j * nw + i,
                forall|k: int|
                    0 <= k < pixels@.len() ==> #[trigger] pixels@[k] == (if k % (nw as int)
                        < buf.width && k / (nw as int) < buf.height {
                        buf.pixel(k % (nw as int), k / (nw as int))
                    } else {
                        0u8
                    }),
            decreases nw - i,
        {
            proof {
                lemma_row_column(nw as int, i as int, j as int);
            }
            let value: u8 = if i < buf.width && j < buf.height {
                buf.get(i, j)
            } else {
                0
            };
            pixels.push(value);
            i += 1;
        }
        assert(j * nw + nw == (j + 1) * nw) by (nonlinear_arith);
        j += 1;
    }
    let out = GrayBuffer { width: nw, height: nh, pixels };
    proof {
        assert(nh * nw == nw * nh) by (nonlinear_arith);
        assert forall|x: int, y: int| 0 <= x < out.width && 0 <= y < out.height implies #[trigger]
            out.pixel(x, y) == (if x < buf.width && y < buf.height {
            buf.pixel(x, y)
        } else {
            0u8
        }) by {
            lemma_row_column(nw as int, x, y);
            lemma_pixel_index(nw as int, nh as int, x, y);
        }
    }
    (out, pad_w, pad_h)
}

} // verus!
