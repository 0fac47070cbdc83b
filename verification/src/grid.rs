//! The score grid that a model emits and the search for its local maxima.

use vstd::prelude::*;
use crate::binary32::{greater, greater_than, is_nan, less, less_than, place};
use crate::config::DecodeConfig;

verus! {

/// One detection in grid space.
#[derive(Clone, Copy, Debug, PartialEq, Eq, Structural)]
pub struct RawPeak {
    /// Column of the cell.
    pub x: usize,
    /// Row of the cell.
    pub y: usize,
    /// Output plane of the cell.
    pub channel: usize,
    /// Score of the cell, as the bit pattern of a binary32 value.
    pub score: u32,
}

/// A model's output: `channels` planes of `height` rows of `width` cells,
/// plane after plane and row after row. Each cell has its raw logit and the
/// score that the logit activates to, both as binary32 bit patterns.
pub struct LogitGrid {
    pub channels: usize,
    pub height: usize,
    pub width: usize,
    pub logits: Vec<u32>,
    pub scores: Vec<u32>,
}

/// Where local maxima are looked for, and how far a cell is compared.
pub struct Window {
    /// Cells up to this far from a cell, in each direction, are its window.
    pub half: int,
    /// Columns `0..valid_w` hold image content; the rest is padding.
    pub valid_w: int,
    /// Rows `0..valid_h` hold image content.
    pub valid_h: int,
}

/// The window that reaches `half` cells each way, over a valid region of
/// `valid_w` by `valid_h` cells.
pub open spec fn window_over(half: int, valid_w: int, valid_h: int) -> Window {
    Window { half, valid_w, valid_h }
}

/// Half the side of a window, the side being at least one.
pub open spec fn half_window(window: i64) -> int {
    if window <= 1 {
        0
    } else {
        window as int / 2
    }
}

/// Whether cell `(yy, xx)` lies in the window around `(y, x)`, clipped to the
/// valid region.
pub open spec fn in_window(s: Window, y: int, x: int, yy: int, xx: int) -> bool {
    &&& 0 <= yy < s.valid_h
    &&& 0 <= xx < s.valid_w
    &&& y - s.half <= yy <= y + s.half
    &&& x - s.half <= xx <= x + s.half
}

impl LogitGrid {
    /// Number of cells that the three dimensions span.
    pub open spec fn cells(&self) -> int {
        self.channels * self.height * self.width
    }

    /// The data covers every cell, and every logit has its score.
    pub open spec fn wf(&self) -> bool {
        &&& self.cells() <= self.logits@.len()
        &&& self.scores@.len() == self.logits@.len()
    }

    /// Whether the valid region lies inside the grid.
    pub open spec fn admits(&self, s: Window) -> bool {
        &&& 0 <= s.half
        &&& 0 <= s.valid_w <= self.width
        &&& 0 <= s.valid_h <= self.height
    }

    /// Position of a cell in the data.
    pub open spec fn offset(&self, ch: int, y: int, x: int) -> int {
        (ch * self.height + y) * self.width + x
    }

    pub open spec fn logit(&self, ch: int, y: int, x: int) -> u32 {
        self.logits@[self.offset(ch, y, x)]
    }

    pub open spec fn score(&self, ch: int, y: int, x: int) -> u32 {
        self.scores@[self.offset(ch, y, x)]
    }

    /// No cell of the window has a strictly greater logit. Equal logits do not
    /// count against a cell.
    pub open spec fn local_max(&self, s: Window, ch: int, y: int, x: int) -> bool {
        forall|yy: int, xx: int|
            in_window(s, y, x, yy, xx) ==> !greater(
                #[trigger] self.logit(ch, yy, xx),
                self.logit(ch, y, x),
            )
    }

    /// The cell reaches the cutoff and is a local maximum.
    pub open spec fn is_peak(&self, s: Window, thresh: u32, ch: int, y: int, x: int) -> bool {
        !less(self.score(ch, y, x), thresh) && self.local_max(s, ch, y, x)
    }

    /// The detection that a cell gives.
    pub open spec fn peak_at(&self, ch: int, y: int, x: int) -> RawPeak {
        RawPeak { x: x as usize, y: y as usize, channel: ch as usize, score: self.score(ch, y, x) }
    }

    /// Peaks of row `y` of plane `ch` in columns `0..upto`, left to right.
    pub open spec fn row_peaks(
        &self,
        s: Window,
        thresh: u32,
        ch: int,
        y: int,
        upto: int,
    ) -> Seq<RawPeak>
        decreases upto,
    {
        if upto <= 0 {
            Seq::empty()
        } else {
            let before = self.row_peaks(s, thresh, ch, y, upto - 1);
            if self.is_peak(s, thresh, ch, y, upto - 1) {
                before.push(self.peak_at(ch, y, upto - 1))
            } else {
                before
            }
        }
    }

    /// Peaks of plane `ch` in rows `0..upto`, top to bottom.
    pub open spec fn plane_peaks(&self, s: Window, thresh: u32, ch: int, upto: int) -> Seq<
        RawPeak,
    >
        decreases upto,
    {
        if upto <= 0 {
            Seq::empty()
        } else {
            self.plane_peaks(s, thresh, ch, upto - 1) + self.row_peaks(
                s,
                thresh,
                ch,
                upto - 1,
                s.valid_w,
            )
        }
    }

    /// Peaks of planes `0..upto`, plane after plane.
    pub open spec fn peaks_in(&self, s: Window, thresh: u32, upto: int) -> Seq<RawPeak>
        decreases upto,
    {
        if upto <= 0 {
            Seq::empty()
        } else {
            self.peaks_in(s, thresh, upto - 1) + self.plane_peaks(s, thresh, upto - 1, s.valid_h)
        }
    }

    /// Every peak of the valid region, in scan order: by plane, then by row,
    /// then by column.
    pub open spec fn local_maxima(&self, s: Window, thresh: u32) -> Seq<RawPeak> {
        self.peaks_in(s, thresh, self.channels as int)
    }

    /// Builds a grid; `None` when the data does not cover the cells or the two
    /// vectors differ in length.
    pub fn new(
        channels: usize,
        height: usize,
        width: usize,
        logits: Vec<u32>,
        scores: Vec<u32>,
    ) -> (r: Option<LogitGrid>)
        ensures
            r is Some <==> channels * height * width <= logits@.len() && scores@.len()
                == logits@.len(),
            r matches Some(g) ==> g.wf() && g == (LogitGrid {
                channels,
                height,
                width,
                logits,
                scores,
            }),
    {
        if scores.len() != logits.len() {
            return None;
        }
        if channels == 0 || height == 0 || width == 0 {
            assert(channels * height * width == 0) by (nonlinear_arith)
                requires
                    channels == 0 || height == 0 || width == 0,
            ;
            return Some(LogitGrid { channels, height, width, logits, scores });
        }
        assert(channels * height <= 0xFFFF_FFFF_FFFF_FFFF * 0xFFFF_FFFF_FFFF_FFFF)
            by (nonlinear_arith)
            requires
                0 <= channels <= 0xFFFF_FFFF_FFFF_FFFF,
                0 <= height <= 0xFFFF_FFFF_FFFF_FFFF,
        ;
        let planes: u128 = (channels as u128) * (height as u128);
        if planes > logits.len() as u128 {
            assert(channels * height * width > logits@.len()) by (nonlinear_arith)
                requires
                    channels * height > logits@.len(),
                    width >= 1,
            ;
            return None;
        }
        assert(planes * width <= 0xFFFF_FFFF_FFFF_FFFF * 0xFFFF_FFFF_FFFF_FFFF)
            by (nonlinear_arith)
            requires
                0 <= planes <= 0xFFFF_FFFF_FFFF_FFFF,
                0 <= width <= 0xFFFF_FFFF_FFFF_FFFF,
        ;
        let total: u128 = planes * (width as u128);
        if total > logits.len() as u128 {
            return None;
        }
        Some(LogitGrid { channels, height, width, logits, scores })
    }
}

/// A cell inside the grid has its place inside the data, and the steps that
/// compute the place stay below the number of cells.
pub proof fn lemma_offset_bounds(c: int, h: int, w: int, ch: int, y: int, x: int)
    by (nonlinear_arith)
    requires
        0 <= ch < c,
        0 <= y < h,
        0 <= x < w,
    ensures
        0 <= ch * h <= ch * h + y < c * h,
        c * h <= c * h * w,
        0 <= (ch * h + y) * w <= (ch * h + y) * w + x < c * h * w,
{
}

/// Tells whether no cell of the clipped window around `(y, x)` has a greater
/// logit than the cell itself.
fn is_local_max(
    grid: &LogitGrid,
    ch: usize,
    y: usize,
    x: usize,
    half: i64,
    valid_w: usize,
    valid_h: usize,
) -> (r: bool)
    requires
        grid.wf(),
        0 <= half,
        ch < grid.channels,
        y < valid_h <= grid.height,
        x < valid_w <= grid.width,
    ensures
        r == grid.local_max(
            window_over(half as int, valid_w as int, valid_h as int),
            ch as int,
            y as int,
            x as int,
        ),
{
    let ghost s = window_over(half as int, valid_w as int, valid_h as int);
    proof {
        assert(grid.logits@.len() == grid.logits.len());
        lemma_offset_bounds(
            grid.channels as int,
            grid.height as int,
            grid.width as int,
            ch as int,
            y as int,
            x as int,
        );
    }
    let center: u32 = grid.logits[(ch * grid.height + y) * grid.width + x];
    let y_lo: i128 = y as i128 - half as i128;
    let y0: usize = if y_lo < 0 {
        0
    } else {
        y_lo as usize
    };
    let y_hi: i128 = y as i128 + half as i128;
    let y1: usize = if y_hi > (valid_h - 1) as i128 {
        valid_h - 1
    } else {
        y_hi as usize
    };
    let x_lo: i128 = x as i128 - half as i128;
    let x0: usize = if x_lo < 0 {
        0
    } else {
        x_lo as usize
    };
    let x_hi: i128 = x as i128 + half as i128;
    let x1: usize = if x_hi > (valid_w - 1) as i128 {
        valid_w - 1
    } else {
        x_hi as usize
    };
    let mut yy: usize = y0;
    while yy <= y1
        invariant
            grid.wf(),
            ch < grid.channels,
            valid_h <= grid.height,
            valid_w <= grid.width,
            y0 <= yy <= y1 + 1,
            y1 < valid_h,
            x0 <= x1 < valid_w,
            center == grid.logit(ch as int, y as int, x as int),
            s.half == half && s.valid_w == valid_w && s.valid_h == valid_h,
            forall|a: int, b: int|
                y0 <= a < yy && x0 <= b <= x1 ==> !greater(
                    #[trigger] grid.logit(ch as int, a, b),
                    center,
                ),
            forall|a: int, b: int|
                in_window(s, y as int, x as int, a, b) <==> y0 <= a <= y1 && x0 <= b <= x1,
        decreases y1 + 1 - yy,
    {
        let mut xx: usize = x0;
        while xx <= x1
            invariant
                grid.wf(),
                ch < grid.channels,
                valid_h <= grid.height,
                valid_w <= grid.width,
                y0 <= yy <= y1,
                y1 < valid_h,
                x0 <= xx <= x1 + 1,
                x1 < valid_w,
                center == grid.logit(ch as int, y as int, x as int),
            s.half == half && s.valid_w == valid_w && s.valid_h == valid_h,
                forall|b: int|
                    x0 <= b < xx ==> !greater(
                        #[trigger] grid.logit(ch as int, yy as int, b),
                        center,
                    ),
                forall|a: int, b: int|
                    in_window(s, y as int, x as int, a, b) <==> y0 <= a <= y1 && x0 <= b <= x1,
            decreases x1 + 1 - xx,
        {
            proof {
                assert(grid.logits@.len() == grid.logits.len());
                lemma_offset_bounds(
                    grid.channels as int,
                    grid.height as int,
                    grid.width as int,
                    ch as int,
                    yy as int,
                    xx as int,
                );
            }
            let other: u32 = grid.logits[(ch * grid.height + yy) * grid.width + xx];
            if greater_than(other, center) {
                assert(in_window(s, y as int, x as int, yy as int, xx as int));
                assert(greater(grid.logit(ch as int, yy as int, xx as int), center));
                return false;
            }
            xx += 1;
        }
        yy += 1;
    }
    true
}

/// Half the side of the window that `window` asks for.
pub fn half_window_of(window: i64) -> (r: i64)
    ensures
        r == half_window(window),
        0 <= r,
{
    if window <= 1 {
        0
    } else {
        window / 2
    }
}

/// Finds the local maxima of the valid region that score at least `thresh`.
///
/// Cells are visited plane after plane, row after row, left to right, and the
/// peaks come out in that order. A cell is a peak when its score is not below
/// `thresh` and no cell of the window around it, clipped to the valid region,
/// has a strictly greater logit.
pub fn detect_local_maxima(
    grid: &LogitGrid,
    cfg: &DecodeConfig,
    valid_w: usize,
    valid_h: usize,
    thresh: u32,
) -> (peaks: Vec<RawPeak>)
    requires
        grid.wf(),
        valid_w <= grid.width,
        valid_h <= grid.height,
    ensures
        peaks@ == grid.local_maxima(
            window_over(half_window(cfg.window), valid_w as int, valid_h as int),
            thresh,
        ),
{
    let half: i64 = half_window_of(cfg.window);
    let ghost s = window_over(half as int, valid_w as int, valid_h as int);
    let mut peaks: Vec<RawPeak> = Vec::new();
    let mut ch: usize = 0;
    while ch < grid.channels
        invariant
            grid.wf(),
            valid_w <= grid.width,
            valid_h <= grid.height,
            0 <= half,
            s.half == half && s.valid_w == valid_w && s.valid_h == valid_h,
            ch <= grid.channels,
            peaks@ == grid.peaks_in(s, thresh, ch as int),
        decreases grid.channels - ch,
    {
        let mut y: usize = 0;
        assert(peaks@ =~= grid.peaks_in(s, thresh, ch as int) + grid.plane_peaks(
            s,
            thresh,
            ch as int,
            0,
        ));
        while y < valid_h
            invariant
                grid.wf(),
                valid_w <= grid.width,
                valid_h <= grid.height,
                0 <= half,
                s.half == half && s.valid_w == valid_w && s.valid_h == valid_h,
                ch < grid.channels,
                y <= valid_h,
                peaks@ == grid.peaks_in(s, thresh, ch as int) + grid.plane_peaks(
                    s,
                    thresh,
                    ch as int,
                    y as int,
                ),
            decreases valid_h - y,
        {
            let ghost done = peaks@;
            let mut x: usize = 0;
            assert(peaks@ =~= done + grid.row_peaks(s, thresh, ch as int, y as int, 0));
            while x < valid_w
                invariant
                    grid.wf(),
                    valid_w <= grid.width,
                    valid_h <= grid.height,
                    0 <= half,
                    s.half == half && s.valid_w == valid_w && s.valid_h == valid_h,
                    ch < grid.channels,
                    y < valid_h,
                    x <= valid_w,
                    peaks@ == done + grid.row_peaks(s, thresh, ch as int, y as int, x as int),
                decreases valid_w - x,
            {
                proof {
                    assert(grid.scores@.len() == grid.scores.len());
                    lemma_offset_bounds(
                        grid.channels as int,
                        grid.height as int,
                        grid.width as int,
                        ch as int,
                        y as int,
                        x as int,
                    );
                }
                let score: u32 = grid.scores[(ch * grid.height + y) * grid.width + x];
                if !less_than(score, thresh) && is_local_max(
                    grid,
                    ch,
                    y,
                    x,
                    half,
                    valid_w,
                    valid_h,
                ) {
                    peaks.push(RawPeak { x, y, channel: ch, score });
                    assert(peaks@ =~= done + grid.row_peaks(
                        s,
                        thresh,
                        ch as int,
                        y as int,
                        x as int,
                    ).push(grid.peak_at(ch as int, y as int, x as int)));
                }
                x += 1;
            }
            assert(peaks@ =~= grid.peaks_in(s, thresh, ch as int) + grid.plane_peaks(
                s,
                thresh,
                ch as int,
                y as int + 1,
            ));
            y += 1;
        }
        ch += 1;
    }
    peaks
}

/// What holds of a detection of plane `ch`, row `y`, left of column `upto`.
pub open spec fn is_row_peak(
    grid: &LogitGrid,
    s: Window,
    thresh: u32,
    ch: int,
    y: int,
    upto: int,
    p: RawPeak,
) -> bool {
    &&& p.channel == ch
    &&& p.y == y
    &&& p.x < upto
    &&& grid.is_peak(s, thresh, ch, y, p.x as int)
    &&& p.score == grid.score(ch, y, p.x as int)
}

/// What holds of a detection of the valid region: it names a cell of the
/// region, on one of the first `planes` planes, that is a peak, and carries
/// the score of that cell.
pub open spec fn is_grid_peak(
    grid: &LogitGrid,
    s: Window,
    thresh: u32,
    planes: int,
    p: RawPeak,
) -> bool {
    &&& p.channel < planes
    &&& p.y < s.valid_h
    &&& p.x < s.valid_w
    &&& grid.is_peak(s, thresh, p.channel as int, p.y as int, p.x as int)
    &&& p.score == grid.score(p.channel as int, p.y as int, p.x as int)
}

/// The peaks of a row are peaks of that row, no more than it has columns.
pub proof fn lemma_row_peaks(grid: &LogitGrid, s: Window, thresh: u32, ch: int, y: int, upto: int)
    requires
        0 <= ch <= usize::MAX,
        0 <= y <= usize::MAX,
        0 <= upto <= usize::MAX,
    ensures
        grid.row_peaks(s, thresh, ch, y, upto).len() <= upto,
        forall|i: int|
            0 <= i < grid.row_peaks(s, thresh, ch, y, upto).len() ==> is_row_peak(
                grid,
                s,
                thresh,
                ch,
                y,
                upto,
                #[trigger] grid.row_peaks(s, thresh, ch, y, upto)[i],
            ),
    decreases upto,
{
    if upto > 0 {
        lemma_row_peaks(grid, s, thresh, ch, y, upto - 1);
        let before = grid.row_peaks(s, thresh, ch, y, upto - 1);
        let now = grid.row_peaks(s, thresh, ch, y, upto);
        assert forall|i: int| 0 <= i < now.len() implies is_row_peak(
            grid,
            s,
            thresh,
            ch,
            y,
            upto,
            #[trigger] now[i],
        ) by {
            if i < before.len() {
                assert(is_row_peak(grid, s, thresh, ch, y, upto - 1, before[i]));
            }
        }
    }
}

/// The peaks of a plane are peaks of its valid rows, no more than these rows
/// have cells.
pub proof fn lemma_plane_peaks(grid: &LogitGrid, s: Window, thresh: u32, ch: int, upto: int)
    requires
        0 <= ch <= usize::MAX,
        0 <= upto <= s.valid_h <= usize::MAX,
        0 <= s.valid_w <= usize::MAX,
    ensures
        grid.plane_peaks(s, thresh, ch, upto).len() <= upto * s.valid_w,
        forall|i: int|
            0 <= i < grid.plane_peaks(s, thresh, ch, upto).len() ==> ({
                let p = #[trigger] grid.plane_peaks(s, thresh, ch, upto)[i];
                p.channel == ch && p.y < upto && is_grid_peak(grid, s, thresh, ch + 1, p)
            }),
    decreases upto,
{
    if upto > 0 {
        lemma_plane_peaks(grid, s, thresh, ch, upto - 1);
        lemma_row_peaks(grid, s, thresh, ch, upto - 1, s.valid_w);
        let before = grid.plane_peaks(s, thresh, ch, upto - 1);
        let row = grid.row_peaks(s, thresh, ch, upto - 1, s.valid_w);
        let now = grid.plane_peaks(s, thresh, ch, upto);
        assert((upto - 1) * s.valid_w + s.valid_w == upto * s.valid_w) by (nonlinear_arith);
        assert forall|i: int| 0 <= i < now.len() implies {
            let p = #[trigger] now[i];
            p.channel == ch && p.y < upto && is_grid_peak(grid, s, thresh, ch + 1, p)
        } by {
            if i < before.len() {
                let p = before[i];
                assert(p.channel == ch && p.y < upto - 1 && is_grid_peak(
                    grid,
                    s,
                    thresh,
                    ch + 1,
                    p,
                ));
            } else {
                assert(is_row_peak(
                    grid,
                    s,
                    thresh,
                    ch,
                    upto - 1,
                    s.valid_w,
                    row[i - before.len()],
                ));
            }
        }
    } else {
        assert(upto * s.valid_w == 0) by (nonlinear_arith)
            requires
                upto == 0,
        ;
    }
}

/// The peaks of the first planes are peaks of the valid region of these
/// planes, no more than that region has cells.
pub proof fn lemma_peaks_in(grid: &LogitGrid, s: Window, thresh: u32, upto: int)
    requires
        0 <= upto <= usize::MAX,
        0 <= s.valid_h <= usize::MAX,
        0 <= s.valid_w <= usize::MAX,
    ensures
        grid.peaks_in(s, thresh, upto).len() <= upto * (s.valid_h * s.valid_w),
        forall|i: int|
            0 <= i < grid.peaks_in(s, thresh, upto).len() ==> is_grid_peak(
                grid,
                s,
                thresh,
                upto,
                #[trigger] grid.peaks_in(s, thresh, upto)[i],
            ),
    decreases upto,
{
    if upto > 0 {
        lemma_peaks_in(grid, s, thresh, upto - 1);
        lemma_plane_peaks(grid, s, thresh, upto - 1, s.valid_h);
        let before = grid.peaks_in(s, thresh, upto - 1);
        let plane = grid.plane_peaks(s, thresh, upto - 1, s.valid_h);
        let now = grid.peaks_in(s, thresh, upto);
        let area = s.valid_h * s.valid_w;
        assert((upto - 1) * area + area == upto * area) by (nonlinear_arith);
        assert forall|i: int| 0 <= i < now.len() implies is_grid_peak(
            grid,
            s,
            thresh,
            upto,
            #[trigger] now[i],
        ) by {
            if i < before.len() {
                assert(is_grid_peak(grid, s, thresh, upto - 1, before[i]));
            } else {
                let p = plane[i - before.len()];
                assert(p.channel == upto - 1 && is_grid_peak(grid, s, thresh, upto, p));
            }
        }
    } else {
        assert(upto * (s.valid_h * s.valid_w) == 0) by (nonlinear_arith)
            requires
                upto == 0,
        ;
    }
}

/// Every detection names a peak of the valid region and carries its score,
/// and there are no more detections than the region has cells.
pub proof fn lemma_local_maxima_are_peaks(grid: &LogitGrid, s: Window, thresh: u32)
    requires
        grid.admits(s),
    ensures
        grid.local_maxima(s, thresh).len() <= grid.channels * (s.valid_h * s.valid_w),
        forall|i: int|
            0 <= i < grid.local_maxima(s, thresh).len() ==> is_grid_peak(
                grid,
                s,
                thresh,
                grid.channels as int,
                #[trigger] grid.local_maxima(s, thresh)[i],
            ),
{
    lemma_peaks_in(grid, s, thresh, grid.channels as int);
}

/// A peak of a row is among the row's detections.
proof fn lemma_row_finds(
    grid: &LogitGrid,
    s: Window,
    thresh: u32,
    ch: int,
    y: int,
    upto: int,
    x: int,
)
    requires
        0 <= x < upto,
        grid.is_peak(s, thresh, ch, y, x),
    ensures
        grid.row_peaks(s, thresh, ch, y, upto).contains(grid.peak_at(ch, y, x)),
    decreases upto,
{
    let now = grid.row_peaks(s, thresh, ch, y, upto);
    if x == upto - 1 {
        assert(now[now.len() - 1] == grid.peak_at(ch, y, x));
    } else {
        lemma_row_finds(grid, s, thresh, ch, y, upto - 1, x);
        let before = grid.row_peaks(s, thresh, ch, y, upto - 1);
        let i = choose|i: int| 0 <= i < before.len() && before[i] == grid.peak_at(ch, y, x);
        assert(now[i] == grid.peak_at(ch, y, x));
    }
}

/// A peak of a plane is among the plane's detections.
proof fn lemma_plane_finds(
    grid: &LogitGrid,
    s: Window,
    thresh: u32,
    ch: int,
    upto: int,
    y: int,
    x: int,
)
    requires
        0 <= y < upto,
        0 <= x < s.valid_w,
        grid.is_peak(s, thresh, ch, y, x),
    ensures
        grid.plane_peaks(s, thresh, ch, upto).contains(grid.peak_at(ch, y, x)),
    decreases upto,
{
    let before = grid.plane_peaks(s, thresh, ch, upto - 1);
    let row = grid.row_peaks(s, thresh, ch, upto - 1, s.valid_w);
    let now = grid.plane_peaks(s, thresh, ch, upto);
    if y == upto - 1 {
        lemma_row_finds(grid, s, thresh, ch, y, s.valid_w, x);
        let i = choose|i: int| 0 <= i < row.len() && row[i] == grid.peak_at(ch, y, x);
        assert(now[before.len() + i] == grid.peak_at(ch, y, x));
    } else {
        lemma_plane_finds(grid, s, thresh, ch, upto - 1, y, x);
        let i = choose|i: int| 0 <= i < before.len() && before[i] == grid.peak_at(ch, y, x);
        assert(now[i] == grid.peak_at(ch, y, x));
    }
}

/// A peak of the first planes is among their detections.
proof fn lemma_planes_find(
    grid: &LogitGrid,
    s: Window,
    thresh: u32,
    upto: int,
    ch: int,
    y: int,
    x: int,
)
    requires
        0 <= ch < upto,
        0 <= y < s.valid_h,
        0 <= x < s.valid_w,
        grid.is_peak(s, thresh, ch, y, x),
    ensures
        grid.peaks_in(s, thresh, upto).contains(grid.peak_at(ch, y, x)),
    decreases upto,
{
    let before = grid.peaks_in(s, thresh, upto - 1);
    let plane = grid.plane_peaks(s, thresh, upto - 1, s.valid_h);
    let now = grid.peaks_in(s, thresh, upto);
    if ch == upto - 1 {
        lemma_plane_finds(grid, s, thresh, ch, s.valid_h, y, x);
        let i = choose|i: int| 0 <= i < plane.len() && plane[i] == grid.peak_at(ch, y, x);
        assert(now[before.len() + i] == grid.peak_at(ch, y, x));
    } else {
        lemma_planes_find(grid, s, thresh, upto - 1, ch, y, x);
        let i = choose|i: int| 0 <= i < before.len() && before[i] == grid.peak_at(ch, y, x);
        assert(now[i] == grid.peak_at(ch, y, x));
    }
}

/// Every peak of the valid region is detected.
pub proof fn lemma_every_peak_detected(
    grid: &LogitGrid,
    s: Window,
    thresh: u32,
    ch: int,
    y: int,
    x: int,
)
    requires
        0 <= ch < grid.channels,
        0 <= y < s.valid_h,
        0 <= x < s.valid_w,
        grid.is_peak(s, thresh, ch, y, x),
    ensures
        grid.local_maxima(s, thresh).contains(grid.peak_at(ch, y, x)),
{
    lemma_planes_find(grid, s, thresh, grid.channels as int, ch, y, x);
}

/// The cell's score is not below `thresh`.
pub open spec fn reaches(grid: &LogitGrid, thresh: u32, ch: int, y: int, x: int) -> bool {
    !less(grid.score(ch, y, x), thresh)
}

/// How many cells of row `y` of plane `ch`, in columns `0..upto`, reach
/// `thresh`.
pub open spec fn row_reaching(grid: &LogitGrid, thresh: u32, ch: int, y: int, upto: int) -> nat
    decreases upto,
{
    if upto <= 0 {
        0
    } else {
        let here: nat = if reaches(grid, thresh, ch, y, upto - 1) {
            1
        } else {
            0
        };
        row_reaching(grid, thresh, ch, y, upto - 1) + here
    }
}

/// How many valid cells of plane `ch`, in rows `0..upto`, reach `thresh`.
pub open spec fn rows_reaching(grid: &LogitGrid, s: Window, thresh: u32, ch: int, upto: int) -> nat
    decreases upto,
{
    if upto <= 0 {
        0
    } else {
        rows_reaching(grid, s, thresh, ch, upto - 1) + row_reaching(
            grid,
            thresh,
            ch,
            upto - 1,
            s.valid_w,
        )
    }
}

/// How many cells of the valid region of plane `ch` reach `thresh`, whether
/// they are local maxima or not.
pub open spec fn cells_reaching(grid: &LogitGrid, s: Window, thresh: u32, ch: int) -> nat {
    rows_reaching(grid, s, thresh, ch, s.valid_h)
}

/// The scores are what an activation that never falls makes of the logits:
/// in the valid region logits and scores are numbers, and on one plane a cell
/// with no greater logit than another has no greater score.
pub open spec fn scores_follow_logits(grid: &LogitGrid, s: Window) -> bool {
    &&& forall|ch: int, y: int, x: int|
        0 <= ch < grid.channels && 0 <= y < s.valid_h && 0 <= x < s.valid_w ==> !is_nan(
            #[trigger] grid.logit(ch, y, x),
        ) && !is_nan(grid.score(ch, y, x))
    &&& forall|ch: int, y: int, x: int, yy: int, xx: int|
        0 <= ch < grid.channels && 0 <= y < s.valid_h && 0 <= x < s.valid_w && 0 <= yy < s.valid_h
            && 0 <= xx < s.valid_w && place(#[trigger] grid.logit(ch, y, x)) <= place(
            #[trigger] grid.logit(ch, yy, xx),
        ) ==> place(grid.score(ch, y, x)) <= place(grid.score(ch, yy, xx))
}

/// A row in which some cell reaches the cutoff has such a cell.
proof fn lemma_row_has_reaching(grid: &LogitGrid, thresh: u32, ch: int, y: int, upto: int) -> (x:
    int)
    requires
        row_reaching(grid, thresh, ch, y, upto) > 0,
    ensures
        0 <= x < upto,
        reaches(grid, thresh, ch, y, x),
    decreases upto,
{
    if reaches(grid, thresh, ch, y, upto - 1) {
        upto - 1
    } else {
        lemma_row_has_reaching(grid, thresh, ch, y, upto - 1)
    }
}

/// A plane in which some valid cell reaches the cutoff has such a cell.
proof fn lemma_rows_have_reaching(
    grid: &LogitGrid,
    s: Window,
    thresh: u32,
    ch: int,
    upto: int,
) -> (c: (int, int))
    requires
        rows_reaching(grid, s, thresh, ch, upto) > 0,
    ensures
        0 <= c.0 < upto,
        0 <= c.1 < s.valid_w,
        reaches(grid, thresh, ch, c.0, c.1),
    decreases upto,
{
    if row_reaching(grid, thresh, ch, upto - 1, s.valid_w) > 0 {
        (upto - 1, lemma_row_has_reaching(grid, thresh, ch, upto - 1, s.valid_w))
    } else {
        lemma_rows_have_reaching(grid, s, thresh, ch, upto - 1)
    }
}

/// A row has a cell whose logit no cell of the row lies above.
proof fn lemma_row_best(grid: &LogitGrid, ch: int, y: int, upto: int) -> (x: int)
    requires
        0 < upto,
    ensures
        0 <= x < upto,
        forall|xx: int|
            0 <= xx < upto ==> place(#[trigger] grid.logit(ch, y, xx)) <= place(
                grid.logit(ch, y, x),
            ),
    decreases upto,
{
    if upto == 1 {
        0
    } else {
        let before = lemma_row_best(grid, ch, y, upto - 1);
        if place(grid.logit(ch, y, before)) < place(grid.logit(ch, y, upto - 1)) {
            upto - 1
        } else {
            before
        }
    }
}

/// The valid rows `0..upto` of a plane have a cell whose logit none of their
/// cells lies above.
proof fn lemma_rows_best(grid: &LogitGrid, s: Window, ch: int, upto: int) -> (c: (int, int))
    requires
        0 < upto,
        0 < s.valid_w,
    ensures
        0 <= c.0 < upto,
        0 <= c.1 < s.valid_w,
        forall|yy: int, xx: int|
            0 <= yy < upto && 0 <= xx < s.valid_w ==> place(#[trigger] grid.logit(ch, yy, xx))
                <= place(grid.logit(ch, c.0, c.1)),
    decreases upto,
{
    let x = lemma_row_best(grid, ch, upto - 1, s.valid_w);
    if upto == 1 {
        (0, x)
    } else {
        let before = lemma_rows_best(grid, s, ch, upto - 1);
        if place(grid.logit(ch, before.0, before.1)) < place(grid.logit(ch, upto - 1, x)) {
            (upto - 1, x)
        } else {
            before
        }
    }
}

/// Where scores follow logits, a plane with a valid cell that reaches the
/// cutoff has a peak: the cell of the greatest logit reaches it too, and no
/// cell lies above it.
pub proof fn lemma_reaching_gives_peak(grid: &LogitGrid, s: Window, thresh: u32, ch: int)
    requires
        grid.admits(s),
        0 <= ch < grid.channels,
        scores_follow_logits(grid, s),
        cells_reaching(grid, s, thresh, ch) > 0,
    ensures
        grid.local_maxima(s, thresh).len() > 0,
{
    let q = lemma_rows_have_reaching(grid, s, thresh, ch, s.valid_h);
    let b = lemma_rows_best(grid, s, ch, s.valid_h);
    assert(place(grid.logit(ch, q.0, q.1)) <= place(grid.logit(ch, b.0, b.1)));
    assert(!is_nan(grid.logit(ch, q.0, q.1)) && !is_nan(grid.score(ch, q.0, q.1)));
    assert(!is_nan(grid.logit(ch, b.0, b.1)) && !is_nan(grid.score(ch, b.0, b.1)));
    assert(place(grid.score(ch, q.0, q.1)) <= place(grid.score(ch, b.0, b.1)));
    assert(reaches(grid, thresh, ch, b.0, b.1));
    assert forall|yy: int, xx: int| in_window(s, b.0, b.1, yy, xx) implies !greater(
        #[trigger] grid.logit(ch, yy, xx),
        grid.logit(ch, b.0, b.1),
    ) by {
        assert(place(grid.logit(ch, yy, xx)) <= place(grid.logit(ch, b.0, b.1)));
    }
    assert(grid.is_peak(s, thresh, ch, b.0, b.1));
    lemma_every_peak_detected(grid, s, thresh, ch, b.0, b.1);
}

/// Place of a cell in the order of the scan.
pub open spec fn scan_place(w: Window, p: RawPeak) -> int {
    (p.channel * w.valid_h + p.y) * w.valid_w + p.x
}

/// The scan places the cells of the valid region in the order plane, row,
/// column.
pub proof fn lemma_scan_place(w: Window, p: RawPeak, q: RawPeak)
    by (nonlinear_arith)
    requires
        0 <= p.y < w.valid_h,
        0 <= q.y < w.valid_h,
        0 <= p.x < w.valid_w,
        0 <= q.x < w.valid_w,
        0 <= p.channel,
        0 <= q.channel,
    ensures
        scan_place(w, p) < scan_place(w, q) <==> p.channel < q.channel || (p.channel == q.channel
            && (p.y < q.y || (p.y == q.y && p.x < q.x))),
{
}

/// Places in the scan rise along the detections of planes `0..upto`.
proof fn lemma_scan_order(grid: &LogitGrid, s: Window, thresh: u32, upto: int)
    requires
        0 <= upto <= usize::MAX,
        0 <= s.valid_h <= usize::MAX,
        0 <= s.valid_w <= usize::MAX,
    ensures
        forall|i: int, j: int|
            0 <= i < j < grid.peaks_in(s, thresh, upto).len() ==> scan_place(
                s,
                #[trigger] grid.peaks_in(s, thresh, upto)[i],
            ) < scan_place(s, #[trigger] grid.peaks_in(s, thresh, upto)[j]),
    decreases upto,
{
    if upto > 0 {
        lemma_scan_order(grid, s, thresh, upto - 1);
        lemma_peaks_in(grid, s, thresh, upto - 1);
        lemma_plane_scan_order(grid, s, thresh, upto - 1, s.valid_h);
        lemma_plane_peaks(grid, s, thresh, upto - 1, s.valid_h);
        let before = grid.peaks_in(s, thresh, upto - 1);
        let plane = grid.plane_peaks(s, thresh, upto - 1, s.valid_h);
        let now = grid.peaks_in(s, thresh, upto);
        assert forall|i: int, j: int| 0 <= i < j < now.len() implies scan_place(
            s,
            #[trigger] now[i],
        ) < scan_place(s, #[trigger] now[j]) by {
            if j < before.len() {
                assert(now[i] == before[i] && now[j] == before[j]);
            } else if i >= before.len() {
                assert(now[i] == plane[i - before.len()] && now[j] == plane[j - before.len()]);
            } else {
                let p = before[i];
                let q = plane[j - before.len()];
                assert(is_grid_peak(grid, s, thresh, upto - 1, p));
                assert(q.channel == upto - 1 && is_grid_peak(grid, s, thresh, upto, q));
                lemma_scan_place(s, p, q);
            }
        }
    }
}

/// Places in the scan rise along the detections of rows `0..upto` of a plane.
proof fn lemma_plane_scan_order(grid: &LogitGrid, s: Window, thresh: u32, ch: int, upto: int)
    requires
        0 <= ch <= usize::MAX,
        0 <= upto <= s.valid_h <= usize::MAX,
        0 <= s.valid_w <= usize::MAX,
    ensures
        forall|i: int, j: int|
            0 <= i < j < grid.plane_peaks(s, thresh, ch, upto).len() ==> scan_place(
                s,
                #[trigger] grid.plane_peaks(s, thresh, ch, upto)[i],
            ) < scan_place(s, #[trigger] grid.plane_peaks(s, thresh, ch, upto)[j]),
    decreases upto,
{
    if upto > 0 {
        lemma_plane_scan_order(grid, s, thresh, ch, upto - 1);
        lemma_plane_peaks(grid, s, thresh, ch, upto - 1);
        lemma_row_scan_order(grid, s, thresh, ch, upto - 1, s.valid_w);
        lemma_row_peaks(grid, s, thresh, ch, upto - 1, s.valid_w);
        let before = grid.plane_peaks(s, thresh, ch, upto - 1);
        let row = grid.row_peaks(s, thresh, ch, upto - 1, s.valid_w);
        let now = grid.plane_peaks(s, thresh, ch, upto);
        assert forall|i: int, j: int| 0 <= i < j < now.len() implies scan_place(
            s,
            #[trigger] now[i],
        ) < scan_place(s, #[trigger] now[j]) by {
            if j < before.len() {
                assert(now[i] == before[i] && now[j] == before[j]);
            } else if i >= before.len() {
                assert(now[i] == row[i - before.len()] && now[j] == row[j - before.len()]);
            } else {
                let p = before[i];
                let q = row[j - before.len()];
                assert(p.channel == ch && p.y < upto - 1);
                assert(is_grid_peak(grid, s, thresh, ch + 1, p));
                assert(is_row_peak(grid, s, thresh, ch, upto - 1, s.valid_w, q));
                lemma_scan_place(s, p, q);
            }
        }
    }
}

/// Places in the scan rise along the detections of a row.
proof fn lemma_row_scan_order(grid: &LogitGrid, s: Window, thresh: u32, ch: int, y: int, upto: int)
    requires
        0 <= ch <= usize::MAX,
        0 <= y <= usize::MAX,
        0 <= upto <= usize::MAX,
    ensures
        forall|i: int, j: int|
            0 <= i < j < grid.row_peaks(s, thresh, ch, y, upto).len() ==> scan_place(
                s,
                #[trigger] grid.row_peaks(s, thresh, ch, y, upto)[i],
            ) < scan_place(s, #[trigger] grid.row_peaks(s, thresh, ch, y, upto)[j]),
    decreases upto,
{
    if upto > 0 {
        lemma_row_scan_order(grid, s, thresh, ch, y, upto - 1);
        lemma_row_peaks(grid, s, thresh, ch, y, upto - 1);
        let before = grid.row_peaks(s, thresh, ch, y, upto - 1);
        let now = grid.row_peaks(s, thresh, ch, y, upto);
        assert forall|i: int, j: int| 0 <= i < j < now.len() implies scan_place(
            s,
            #[trigger] now[i],
        ) < scan_place(s, #[trigger] now[j]) by {
            if j < before.len() {
                assert(now[i] == before[i] && now[j] == before[j]);
            } else {
                assert(is_row_peak(grid, s, thresh, ch, y, upto - 1, before[i]));
                assert(now[i] == before[i]);
                assert(now[j] == grid.peak_at(ch, y, upto - 1));
            }
        }
    }
}

/// The detections come in the order of the scan, plane after plane, row
/// after row, left to right, and no cell is detected twice.
pub proof fn lemma_local_maxima_in_scan_order(grid: &LogitGrid, s: Window, thresh: u32)
    requires
        grid.admits(s),
    ensures
        forall|i: int, j: int|
            0 <= i < j < grid.local_maxima(s, thresh).len() ==> scan_place(
                s,
                #[trigger] grid.local_maxima(s, thresh)[i],
            ) < scan_place(s, #[trigger] grid.local_maxima(s, thresh)[j]),
{
    lemma_scan_order(grid, s, thresh, grid.channels as int);
}

/// Whether every cell of the valid region scores below `thresh`.
pub open spec fn all_below(grid: &LogitGrid, s: Window, thresh: u32) -> bool {
    forall|ch: int, y: int, x: int|
        0 <= ch < grid.channels && 0 <= y < s.valid_h && 0 <= x < s.valid_w ==> less(
            #[trigger] grid.score(ch, y, x),
            thresh,
        )
}

/// Whether every cell of the valid region is a peak.
pub open spec fn all_peaks(grid: &LogitGrid, s: Window, thresh: u32) -> bool {
    forall|ch: int, y: int, x: int|
        0 <= ch < grid.channels && 0 <= y < s.valid_h && 0 <= x < s.valid_w
            ==> #[trigger] grid.is_peak(s, thresh, ch, y, x)
}

/// Where no cell reaches the cutoff there is no detection.
pub proof fn lemma_nothing_reaches(grid: &LogitGrid, s: Window, thresh: u32)
    requires
        grid.admits(s),
        all_below(grid, s, thresh),
    ensures
        grid.local_maxima(s, thresh).len() == 0,
{
    lemma_local_maxima_are_peaks(grid, s, thresh);
    let found = grid.local_maxima(s, thresh);
    if found.len() > 0 {
        let p = found[0];
        assert(is_grid_peak(grid, s, thresh, grid.channels as int, p));
        assert(less(grid.score(p.channel as int, p.y as int, p.x as int), thresh));
    }
}

/// Where every cell is a peak, a row gives one detection for each column.
proof fn lemma_full_row(grid: &LogitGrid, s: Window, thresh: u32, ch: int, y: int, upto: int)
    requires
        all_peaks(grid, s, thresh),
        0 <= ch < grid.channels,
        0 <= y < s.valid_h,
        0 <= upto <= s.valid_w,
    ensures
        grid.row_peaks(s, thresh, ch, y, upto).len() == upto,
    decreases upto,
{
    if upto > 0 {
        lemma_full_row(grid, s, thresh, ch, y, upto - 1);
        assert(grid.is_peak(s, thresh, ch, y, upto - 1));
    }
}

/// Where every cell is a peak, a plane gives one detection for each cell.
proof fn lemma_full_plane(grid: &LogitGrid, s: Window, thresh: u32, ch: int, upto: int)
    requires
        all_peaks(grid, s, thresh),
        0 <= ch < grid.channels,
        0 <= upto <= s.valid_h,
        0 <= s.valid_w,
    ensures
        grid.plane_peaks(s, thresh, ch, upto).len() == upto * s.valid_w,
    decreases upto,
{
    if upto > 0 {
        lemma_full_plane(grid, s, thresh, ch, upto - 1);
        lemma_full_row(grid, s, thresh, ch, upto - 1, s.valid_w);
        assert((upto - 1) * s.valid_w + s.valid_w == upto * s.valid_w) by (nonlinear_arith);
    } else {
        assert(upto * s.valid_w == 0) by (nonlinear_arith)
            requires
                upto == 0,
        ;
    }
}

/// Where every cell is a peak, the first planes give one detection for each
/// of their cells.
proof fn lemma_full_planes(grid: &LogitGrid, s: Window, thresh: u32, upto: int)
    requires
        all_peaks(grid, s, thresh),
        0 <= upto <= grid.channels,
        0 <= s.valid_h,
        0 <= s.valid_w,
    ensures
        grid.peaks_in(s, thresh, upto).len() == upto * (s.valid_h * s.valid_w),
    decreases upto,
{
    let area = s.valid_h * s.valid_w;
    if upto > 0 {
        lemma_full_planes(grid, s, thresh, upto - 1);
        lemma_full_plane(grid, s, thresh, upto - 1, s.valid_h);
        assert((upto - 1) * area + area == upto * area) by (nonlinear_arith);
    } else {
        assert(upto * area == 0) by (nonlinear_arith)
            requires
                upto == 0,
        ;
    }
}

/// Where every cell of the valid region is a peak, there is one detection
/// for each cell.
pub proof fn lemma_every_cell_detected(grid: &LogitGrid, s: Window, thresh: u32)
    requires
        grid.admits(s),
        all_peaks(grid, s, thresh),
    ensures
        grid.local_maxima(s, thresh).len() == grid.channels * (s.valid_h * s.valid_w),
{
    lemma_full_planes(grid, s, thresh, grid.channels as int);
}

/// With a window of one cell every cell is its own local maximum, so with no
/// cutoff every cell is a peak.
pub proof fn lemma_single_cell_window(grid: &LogitGrid, s: Window)
    requires
        s.half == 0,
    ensures
        all_peaks(grid, s, crate::binary32::NEG_INFINITY),
{
    assert forall|ch: int, y: int, x: int|
        0 <= ch < grid.channels && 0 <= y < s.valid_h && 0 <= x < s.valid_w implies #[trigger]
        grid.is_peak(s, crate::binary32::NEG_INFINITY, ch, y, x) by {
        crate::binary32::lemma_nothing_below_neg_infinity(grid.score(ch, y, x));
        assert forall|yy: int, xx: int| in_window(s, y, x, yy, xx) implies !greater(
            #[trigger] grid.logit(ch, yy, xx),
            grid.logit(ch, y, x),
        ) by {
            assert(yy == y && xx == x);
        }
    }
}

} // verus!
