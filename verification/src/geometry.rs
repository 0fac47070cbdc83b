//! Exact arithmetic between the resized grid and the original image.
//!
//! A resize takes each axis from `original` to `resized` pixels. The ratio of
//! the two is kept as the pair itself, and a position in the original image
//! as a whole number of pixels and a proper fraction, so that nothing is
//! rounded on the way back.

use vstd::prelude::*;

verus! {

/// The ratio `resized / original` by which one axis was scaled.
#[derive(Clone, Copy, Debug, PartialEq, Eq, Structural)]
pub struct AxisScale {
    /// Length of the axis after the resize.
    pub resized: u32,
    /// Length of the axis before it.
    pub original: u32,
}

/// A position along one axis of the original image: `whole + rem / den`
/// pixels.
#[derive(Clone, Copy, Debug, PartialEq, Eq, Structural)]
pub struct PixelCoord {
    pub whole: u64,
    pub rem: u32,
    pub den: u32,
}

impl PixelCoord {
    /// The fraction is a proper one.
    pub open spec fn wf(self) -> bool {
        self.rem < self.den
    }

    /// The position lies strictly left of `other`.
    pub open spec fn lt(self, other: PixelCoord) -> bool {
        self.whole < other.whole || (self.whole == other.whole && self.rem * other.den < other.rem
            * self.den)
    }

    /// The position is a whole number of pixels, `n`.
    pub open spec fn is_whole(self, n: int) -> bool {
        self.whole == n && self.rem == 0
    }

    /// Tells whether the position lies strictly left of `other`.
    pub fn is_left_of(&self, other: &PixelCoord) -> (r: bool)
        ensures
            r == self.lt(*other),
    {
        if self.whole != other.whole {
            return self.whole < other.whole;
        }
        assert(self.rem * other.den <= 0xFFFF_FFFF * 0xFFFF_FFFF) by (nonlinear_arith)
            requires
                0 <= self.rem <= 0xFFFF_FFFF,
                0 <= other.den <= 0xFFFF_FFFF,
        ;
        assert(other.rem * self.den <= 0xFFFF_FFFF * 0xFFFF_FFFF) by (nonlinear_arith)
            requires
                0 <= other.rem <= 0xFFFF_FFFF,
                0 <= self.den <= 0xFFFF_FFFF,
        ;
        (self.rem as u64) * (other.den as u64) < (other.rem as u64) * (self.den as u64)
    }
}

impl AxisScale {
    /// Both lengths are at least one pixel.
    pub open spec fn wf(self) -> bool {
        self.resized > 0 && self.original > 0
    }

    /// The scale of an axis that was left as it was.
    pub open spec fn is_identity(self) -> bool {
        self.resized == self.original
    }

    /// Where grid position `grid` lies in the original image, the crop having
    /// started at `offset`: `grid / (resized / original) + offset`.
    pub open spec fn image_coord(self, grid: int, offset: int) -> PixelCoord {
        PixelCoord {
            whole: (offset + (grid * self.original) / (self.resized as int)) as u64,
            rem: ((grid * self.original) % (self.resized as int)) as u32,
            den: self.resized,
        }
    }

    /// The scale that takes `original` pixels to `resized` ones; `None` if
    /// either is zero.
    pub fn new(resized: u32, original: u32) -> (r: Option<AxisScale>)
        ensures
            r == (if resized > 0 && original > 0 {
                Some(AxisScale { resized, original })
            } else {
                None
            }),
    {
        if resized > 0 && original > 0 {
            Some(AxisScale { resized, original })
        } else {
            None
        }
    }

    /// Maps a grid position back into the original image.
    pub fn to_image(&self, grid: u32, offset: u32) -> (c: PixelCoord)
        requires
            self.wf(),
            grid < self.resized,
        ensures
            c == self.image_coord(grid as int, offset as int),
            c.wf(),
            offset <= c.whole < offset + self.original,
    {
        proof {
            lemma_scaled_back(grid as int, self.resized as int, self.original as int);
            assert(grid * self.original <= 0xFFFF_FFFF * 0xFFFF_FFFF) by (nonlinear_arith)
                requires
                    0 <= grid <= 0xFFFF_FFFF,
                    0 <= self.original <= 0xFFFF_FFFF,
            ;
        }
        let span: u64 = (grid as u64) * (self.original as u64);
        let whole: u64 = (offset as u64) + span / (self.resized as u64);
        let rem: u64 = span % (self.resized as u64);
        PixelCoord { whole, rem: rem as u32, den: self.resized }
    }
}

/// A position inside the resized axis maps inside the original one.
pub proof fn lemma_scaled_back(grid: int, resized: int, original: int)
    requires
        0 <= grid < resized,
        0 < original,
    ensures
        0 <= grid * original < resized * original,
        0 <= (grid * original) / resized < original,
        0 <= (grid * original) % resized < resized,
{
    assert(0 <= grid * original < resized * original) by (nonlinear_arith)
        requires
            0 <= grid < resized,
            0 < original,
    ;
    vstd::arithmetic::div_mod::lemma_div_pos_is_pos(grid * original, resized);
    vstd::arithmetic::div_mod::lemma_mod_bound(grid * original, resized);
    vstd::arithmetic::div_mod::lemma_fundamental_div_mod(grid * original, resized);
    let q = (grid * original) / resized;
    assert(q < original) by (nonlinear_arith)
        requires
            grid * original == resized * q + (grid * original) % resized,
            0 <= (grid * original) % resized,
            grid * original < resized * original,
            0 < resized,
    ;
}

/// With the identity scale and no offset a grid position maps to itself.
pub proof fn lemma_identity_scale_keeps_position(scale: AxisScale, grid: int)
    requires
        scale.wf(),
        scale.is_identity(),
        0 <= grid < scale.resized,
    ensures
        scale.image_coord(grid, 0).is_whole(grid),
{
    let n = scale.resized as int;
    assert(grid * n == n * grid) by (nonlinear_arith);
    vstd::arithmetic::div_mod::lemma_div_multiples_vanish(grid, n);
    vstd::arithmetic::div_mod::lemma_mod_multiples_basic(grid, n);
}

} // verus!
