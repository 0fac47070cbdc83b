//! From a score grid to a short, ranked list of peaks.

use vstd::prelude::*;
use crate::binary32::NEG_INFINITY;
use crate::config::DecodeConfig;
use crate::grid::{
    all_below,
    cells_reaching,
    detect_local_maxima,
    half_window,
    is_grid_peak,
    lemma_every_cell_detected,
    lemma_local_maxima_are_peaks,
    lemma_nothing_reaches,
    lemma_reaching_gives_peak,
    lemma_single_cell_window,
    scores_follow_logits,
    window_over,
    LogitGrid,
    RawPeak,
    Window,
};
use crate::ranking::{
    descending,
    drawn_from,
    insert_desc,
    lemma_sorted_desc_drawn,
    lemma_sorted_desc_is_stable,
    sort_by_score_desc,
    sorted_desc,
};

verus! {

/// The peaks of `s` that lie on plane `ch`, in their order.
pub open spec fn of_channel(s: Seq<RawPeak>, ch: int) -> Seq<RawPeak>
    decreases s.len(),
{
    if s.len() == 0 {
        s
    } else {
        let rest = of_channel(s.drop_last(), ch);
        if s.last().channel == ch {
            rest.push(s.last())
        } else {
            rest
        }
    }
}

/// The first `k` peaks of `s`, or all of `s` if it has no more than `k`.
pub open spec fn first_n(s: Seq<RawPeak>, k: int) -> Seq<RawPeak> {
    if 0 <= k < s.len() {
        s.take(k)
    } else {
        s
    }
}

/// The lesser of two numbers.
pub open spec fn least(a: int, b: int) -> int {
    if a < b {
        a
    } else {
        b
    }
}

/// The `k` best peaks of `s`, best first.
pub open spec fn top(s: Seq<RawPeak>, k: int) -> Seq<RawPeak> {
    first_n(sorted_desc(s), k)
}

/// For each of the planes `0..channels` in turn, the `k` best peaks of `s` on
/// that plane.
pub open spec fn capped_per_channel(s: Seq<RawPeak>, channels: int, k: int) -> Seq<RawPeak>
    decreases channels,
{
    if channels <= 0 {
        Seq::empty()
    } else {
        capped_per_channel(s, channels - 1, k) + top(of_channel(s, channels - 1), k)
    }
}

/// The window and valid region that a decoding pass searches.
pub open spec fn window_of(cfg: &DecodeConfig, valid_w: int, valid_h: int) -> Window {
    window_over(half_window(cfg.window), valid_w, valid_h)
}

/// The peaks that reach the configured cutoff.
pub open spec fn thresholded(
    grid: &LogitGrid,
    cfg: &DecodeConfig,
    valid_w: int,
    valid_h: int,
) -> Seq<RawPeak> {
    grid.local_maxima(window_of(cfg, valid_w, valid_h), cfg.thresh)
}

/// Every local maximum, whatever it scores.
pub open spec fn unthresholded(
    grid: &LogitGrid,
    cfg: &DecodeConfig,
    valid_w: int,
    valid_h: int,
) -> Seq<RawPeak> {
    grid.local_maxima(window_of(cfg, valid_w, valid_h), NEG_INFINITY)
}

/// No peak reaches the cutoff and a fallback is configured.
pub open spec fn uses_fallback(
    grid: &LogitGrid,
    cfg: &DecodeConfig,
    valid_w: int,
    valid_h: int,
) -> bool {
    thresholded(grid, cfg, valid_w, valid_h).len() == 0 && cfg.fallback_topk > 0
}

/// What `decode_peaks` returns.
///
/// With a fallback in use: the `fallback_topk` best local maxima, and neither
/// cap applies. Otherwise the peaks that reach the cutoff, cut to the
/// `per_channel_topk` best of each plane if that cap is set, then sorted by
/// descending score, then cut to `max_peaks` if that cap is set.
pub open spec fn decoded(grid: &LogitGrid, cfg: &DecodeConfig, valid_w: int, valid_h: int) -> Seq<
    RawPeak,
> {
    if uses_fallback(grid, cfg, valid_w, valid_h) {
        top(unthresholded(grid, cfg, valid_w, valid_h), cfg.fallback_topk as int)
    } else {
        let first = thresholded(grid, cfg, valid_w, valid_h);
        let kept = if cfg.per_channel_topk > 0 {
            capped_per_channel(first, grid.channels as int, cfg.per_channel_topk as int)
        } else {
            first
        };
        if cfg.max_peaks > 0 {
            top(kept, cfg.max_peaks as int)
        } else {
            sorted_desc(kept)
        }
    }
}

/// Cuts the list to its first `k` peaks if it has more.
pub fn truncate_to(peaks: &mut Vec<RawPeak>, k: i64)
    ensures
        final(peaks)@ == first_n(old(peaks)@, k as int),
{
    if 0 <= k && (k as i128) < (peaks.len() as i128) {
        peaks.truncate(k as usize);
    }
}

/// Copies out the peaks that lie on plane `ch`.
pub fn peaks_of_channel(peaks: &Vec<RawPeak>, ch: usize) -> (out: Vec<RawPeak>)
    ensures
        out@ == of_channel(peaks@, ch as int),
{
    let mut out: Vec<RawPeak> = Vec::new();
    let mut i: usize = 0;
    while i < peaks.len()
        invariant
            i <= peaks.len(),
            out@ == of_channel(peaks@.take(i as int), ch as int),
        decreases peaks.len() - i,
    {
        assert(peaks@.take(i + 1).drop_last() =~= peaks@.take(i as int));
        let p: RawPeak = peaks[i];
        if p.channel == ch {
            out.push(p);
        }
        i += 1;
    }
    assert(peaks@.take(i as int) =~= peaks@);
    out
}

/// Keeps of each of the planes `0..channels` the `k` best peaks, plane after
/// plane.
pub fn cap_per_channel(peaks: &Vec<RawPeak>, channels: usize, k: i64) -> (kept: Vec<RawPeak>)
    ensures
        kept@ == capped_per_channel(peaks@, channels as int, k as int),
{
    let mut kept: Vec<RawPeak> = Vec::new();
    let mut ch: usize = 0;
    while ch < channels
        invariant
            ch <= channels,
            kept@ == capped_per_channel(peaks@, ch as int, k as int),
        decreases channels - ch,
    {
        let mut group: Vec<RawPeak> = peaks_of_channel(peaks, ch);
        sort_by_score_desc(&mut group);
        truncate_to(&mut group, k);
        kept.append(&mut group);
        ch += 1;
    }
    kept
}

/// Decodes a score grid into ranked peaks.
///
/// `valid_w` and `valid_h` bound the part of the grid that holds image
/// content; no peak is reported outside of it.
pub fn decode_peaks(grid: &LogitGrid, cfg: &DecodeConfig, valid_w: usize, valid_h: usize) -> (peaks:
    Vec<RawPeak>)
    requires
        grid.wf(),
        valid_w <= grid.width,
        valid_h <= grid.height,
    ensures
        peaks@ == decoded(grid, cfg, valid_w as int, valid_h as int),
{
    let first: Vec<RawPeak> = detect_local_maxima(grid, cfg, valid_w, valid_h, cfg.thresh);
    if first.len() == 0 && cfg.fallback_topk > 0 {
        let mut fallback: Vec<RawPeak> = detect_local_maxima(
            grid,
            cfg,
            valid_w,
            valid_h,
            NEG_INFINITY,
        );
        sort_by_score_desc(&mut fallback);
        truncate_to(&mut fallback, cfg.fallback_topk);
        return fallback;
    }
    let mut kept: Vec<RawPeak> = if cfg.per_channel_topk > 0 {
        cap_per_channel(&first, grid.channels, cfg.per_channel_topk)
    } else {
        first
    };
    sort_by_score_desc(&mut kept);
    if cfg.max_peaks > 0 {
        truncate_to(&mut kept, cfg.max_peaks);
    }
    kept
}

/// The peaks on one plane are peaks of the sequence, all on that plane.
pub proof fn lemma_of_channel(s: Seq<RawPeak>, ch: int)
    ensures
        of_channel(s, ch).len() <= s.len(),
        drawn_from(of_channel(s, ch), s),
        forall|i: int|
            0 <= i < of_channel(s, ch).len() ==> (#[trigger] of_channel(s, ch)[i]).channel == ch,
    decreases s.len(),
{
    if s.len() > 0 {
        let t = s.drop_last();
        lemma_of_channel(t, ch);
        let r = of_channel(s, ch);
        assert forall|i: int| 0 <= i < r.len() implies s.contains(#[trigger] r[i]) by {
            if i < of_channel(t, ch).len() {
                assert(t.contains(of_channel(t, ch)[i]));
                let m = choose|m: int| 0 <= m < t.len() && t[m] == r[i];
                assert(s[m] == r[i]);
            } else {
                assert(s[s.len() - 1] == r[i]);
            }
        }
    }
}

/// The peaks on a plane of two sequences joined are those of the first, then
/// those of the second.
pub proof fn lemma_of_channel_joined(a: Seq<RawPeak>, b: Seq<RawPeak>, ch: int)
    ensures
        of_channel(a + b, ch) == of_channel(a, ch) + of_channel(b, ch),
    decreases b.len(),
{
    if b.len() == 0 {
        assert(a + b =~= a);
        assert(of_channel(a, ch) + of_channel(b, ch) =~= of_channel(a, ch));
    } else {
        lemma_of_channel_joined(a, b.drop_last(), ch);
        assert((a + b).drop_last() =~= a + b.drop_last());
        assert((a + b).last() == b.last());
        if b.last().channel == ch {
            assert(of_channel(a, ch) + of_channel(b.drop_last(), ch).push(b.last()) =~= (
            of_channel(a, ch) + of_channel(b.drop_last(), ch)).push(b.last()));
        }
    }
}

/// A sequence whose peaks all lie on plane `c` has them all on that plane and
/// none on another.
pub proof fn lemma_of_channel_uniform(s: Seq<RawPeak>, c: int, ch: int)
    requires
        forall|i: int| 0 <= i < s.len() ==> (#[trigger] s[i]).channel == c,
    ensures
        of_channel(s, ch).len() == (if c == ch {
            s.len()
        } else {
            0
        }),
    decreases s.len(),
{
    if s.len() > 0 {
        let t = s.drop_last();
        assert forall|i: int| 0 <= i < t.len() implies (#[trigger] t[i]).channel == c by {
            assert(t[i] == s[i]);
        }
        lemma_of_channel_uniform(t, c, ch);
        assert(s[s.len() - 1].channel == c);
    }
}

/// Inserting a peak adds it to the peaks on its plane and to no others.
pub proof fn lemma_of_channel_insert(s: Seq<RawPeak>, p: RawPeak, ch: int)
    ensures
        of_channel(insert_desc(s, p), ch).len() == of_channel(s, ch).len() + (if p.channel == ch {
            1int
        } else {
            0int
        }),
    decreases s.len(),
{
    let r = insert_desc(s, p);
    if s.len() == 0 {
        assert(r.drop_last() =~= s);
    } else if crate::binary32::rank(s.last().score) >= crate::binary32::rank(p.score) {
        assert(r.drop_last() =~= s);
    } else {
        lemma_of_channel_insert(s.drop_last(), p, ch);
        assert(r.drop_last() =~= insert_desc(s.drop_last(), p));
    }
}

/// Sorting keeps the number of peaks on each plane.
pub proof fn lemma_of_channel_sorted(s: Seq<RawPeak>, ch: int)
    ensures
        of_channel(sorted_desc(s), ch).len() == of_channel(s, ch).len(),
    decreases s.len(),
{
    if s.len() > 0 {
        lemma_of_channel_sorted(s.drop_last(), ch);
        lemma_of_channel_insert(sorted_desc(s.drop_last()), s.last(), ch);
    }
}

/// A cut sequence has no more peaks on a plane than the whole one.
pub proof fn lemma_of_channel_first_n(s: Seq<RawPeak>, k: int, ch: int)
    ensures
        of_channel(first_n(s, k), ch).len() <= of_channel(s, ch).len(),
        first_n(s, k).len() <= s.len(),
        0 <= k ==> first_n(s, k).len() == least(k, s.len() as int),
        drawn_from(first_n(s, k), s),
        descending(s) ==> descending(first_n(s, k)),
    decreases s.len(),
{
    if 0 <= k < s.len() {
        let t = s.drop_last();
        lemma_of_channel_first_n(t, k, ch);
        if k < t.len() {
            assert(s.take(k) =~= t.take(k));
        } else {
            assert(s.take(k) =~= t);
        }
        assert forall|i: int| 0 <= i < s.take(k).len() implies s.contains(
            #[trigger] s.take(k)[i],
        ) by {
            assert(s[i] == s.take(k)[i]);
        }
    } else {
        assert forall|i: int| 0 <= i < s.len() implies s.contains(#[trigger] s[i]) by {}
    }
}

/// The best of a sequence: how many, from where, and in what order.
pub proof fn lemma_top(s: Seq<RawPeak>, k: int, ch: int)
    ensures
        of_channel(top(s, k), ch).len() <= of_channel(s, ch).len(),
        0 <= k ==> top(s, k).len() == least(k, s.len() as int),
        top(s, k).len() <= s.len(),
        drawn_from(top(s, k), s),
        descending(top(s, k)),
{
    lemma_sorted_desc_is_stable(s);
    lemma_sorted_desc_drawn(s);
    lemma_of_channel_sorted(s, ch);
    lemma_of_channel_first_n(sorted_desc(s), k, ch);
    let t = top(s, k);
    assert forall|i: int| 0 <= i < t.len() implies s.contains(#[trigger] t[i]) by {
        assert(sorted_desc(s).contains(t[i]));
        let j = choose|j: int| 0 <= j < sorted_desc(s).len() && sorted_desc(s)[j] == t[i];
        assert(s.contains(sorted_desc(s)[j]));
    }
}

/// After the cap no plane has more than `k` peaks, and every peak left was
/// there before, on one of the planes.
pub proof fn lemma_capped_per_channel(s: Seq<RawPeak>, channels: int, k: int, ch: int)
    requires
        0 < k,
    ensures
        of_channel(capped_per_channel(s, channels, k), ch).len() <= k,
        ch < 0 || ch >= channels ==> of_channel(capped_per_channel(s, channels, k), ch).len() == 0,
        drawn_from(capped_per_channel(s, channels, k), s),
    decreases channels,
{
    if channels > 0 {
        let c = channels - 1;
        let before = capped_per_channel(s, c, k);
        let group = of_channel(s, c);
        let best = top(group, k);
        lemma_capped_per_channel(s, c, k, ch);
        lemma_of_channel(s, c);
        lemma_top(group, k, ch);
        lemma_of_channel_joined(before, best, ch);
        assert forall|i: int| 0 <= i < best.len() implies (#[trigger] best[i]).channel == c by {
            assert(group.contains(best[i]));
            let j = choose|j: int| 0 <= j < group.len() && group[j] == best[i];
            assert(group[j].channel == c);
        }
        lemma_of_channel_uniform(best, c, ch);
        let now = capped_per_channel(s, channels, k);
        assert forall|i: int| 0 <= i < now.len() implies s.contains(#[trigger] now[i]) by {
            if i < before.len() {
                assert(s.contains(before[i]));
            } else {
                let p = best[i - before.len()];
                assert(group.contains(p));
                let j = choose|j: int| 0 <= j < group.len() && group[j] == p;
                assert(s.contains(group[j]));
            }
        }
    }
}

/// The decoded peaks come in descending order of score.
pub proof fn lemma_decoded_descending(
    grid: &LogitGrid,
    cfg: &DecodeConfig,
    valid_w: int,
    valid_h: int,
)
    ensures
        descending(decoded(grid, cfg, valid_w, valid_h)),
{
    if uses_fallback(grid, cfg, valid_w, valid_h) {
        lemma_top(unthresholded(grid, cfg, valid_w, valid_h), cfg.fallback_topk as int, 0);
    } else {
        let first = thresholded(grid, cfg, valid_w, valid_h);
        let kept = if cfg.per_channel_topk > 0 {
            capped_per_channel(first, grid.channels as int, cfg.per_channel_topk as int)
        } else {
            first
        };
        lemma_top(kept, cfg.max_peaks as int, 0);
        lemma_sorted_desc_is_stable(kept);
    }
}

/// Every decoded peak is a local maximum of the valid region and carries
/// the score of its cell: nothing is reported from the padding.
pub proof fn lemma_decoded_in_region(
    grid: &LogitGrid,
    cfg: &DecodeConfig,
    valid_w: int,
    valid_h: int,
)
    requires
        grid.admits(window_of(cfg, valid_w, valid_h)),
    ensures
        forall|i: int|
            0 <= i < decoded(grid, cfg, valid_w, valid_h).len() ==> is_grid_peak(
                grid,
                window_of(cfg, valid_w, valid_h),
                if uses_fallback(grid, cfg, valid_w, valid_h) {
                    NEG_INFINITY
                } else {
                    cfg.thresh
                },
                grid.channels as int,
                #[trigger] decoded(grid, cfg, valid_w, valid_h)[i],
            ),
{
    let win = window_of(cfg, valid_w, valid_h);
    let out = decoded(grid, cfg, valid_w, valid_h);
    if uses_fallback(grid, cfg, valid_w, valid_h) {
        let all = unthresholded(grid, cfg, valid_w, valid_h);
        lemma_local_maxima_are_peaks(grid, win, NEG_INFINITY);
        lemma_top(all, cfg.fallback_topk as int, 0);
        assert forall|i: int| 0 <= i < out.len() implies is_grid_peak(
            grid,
            win,
            NEG_INFINITY,
            grid.channels as int,
            #[trigger] out[i],
        ) by {
            assert(all.contains(out[i]));
            let j = choose|j: int| 0 <= j < all.len() && all[j] == out[i];
            assert(is_grid_peak(grid, win, NEG_INFINITY, grid.channels as int, all[j]));
        }
    } else {
        let first = thresholded(grid, cfg, valid_w, valid_h);
        lemma_local_maxima_are_peaks(grid, win, cfg.thresh);
        let kept = if cfg.per_channel_topk > 0 {
            capped_per_channel(first, grid.channels as int, cfg.per_channel_topk as int)
        } else {
            first
        };
        if cfg.per_channel_topk > 0 {
            lemma_capped_per_channel(first, grid.channels as int, cfg.per_channel_topk as int, 0);
        }
        lemma_top(kept, cfg.max_peaks as int, 0);
        lemma_sorted_desc_drawn(kept);
        assert forall|i: int| 0 <= i < out.len() implies is_grid_peak(
            grid,
            win,
            cfg.thresh,
            grid.channels as int,
            #[trigger] out[i],
        ) by {
            assert(kept.contains(out[i]));
            let j = choose|j: int| 0 <= j < kept.len() && kept[j] == out[i];
            assert(first.contains(kept[j]));
            let m = choose|m: int| 0 <= m < first.len() && first[m] == out[i];
            assert(is_grid_peak(grid, win, cfg.thresh, grid.channels as int, first[m]));
        }
    }
}

/// With the per-channel cap set and peaks that reach the cutoff, no plane
/// has more than `per_channel_topk` decoded peaks.
pub proof fn lemma_per_channel_cap(
    grid: &LogitGrid,
    cfg: &DecodeConfig,
    valid_w: int,
    valid_h: int,
    ch: int,
)
    requires
        cfg.per_channel_topk > 0,
        !uses_fallback(grid, cfg, valid_w, valid_h),
    ensures
        of_channel(decoded(grid, cfg, valid_w, valid_h), ch).len() <= cfg.per_channel_topk,
{
    let first = thresholded(grid, cfg, valid_w, valid_h);
    let kept = capped_per_channel(first, grid.channels as int, cfg.per_channel_topk as int);
    lemma_capped_per_channel(first, grid.channels as int, cfg.per_channel_topk as int, ch);
    lemma_top(kept, cfg.max_peaks as int, ch);
    lemma_of_channel_sorted(kept, ch);
}

/// Where scores follow logits and each of the planes has more valid cells
/// that reach the cutoff than the per-channel cap allows, no plane has more
/// decoded peaks than the cap.
pub proof fn lemma_per_channel_cap_on_crowded_planes(
    grid: &LogitGrid,
    cfg: &DecodeConfig,
    valid_w: int,
    valid_h: int,
    ch: int,
)
    requires
        grid.admits(window_of(cfg, valid_w, valid_h)),
        scores_follow_logits(grid, window_of(cfg, valid_w, valid_h)),
        cfg.per_channel_topk > 0,
        forall|c: int|
            0 <= c < grid.channels ==> #[trigger] cells_reaching(
                grid,
                window_of(cfg, valid_w, valid_h),
                cfg.thresh,
                c,
            ) > cfg.per_channel_topk,
    ensures
        of_channel(decoded(grid, cfg, valid_w, valid_h), ch).len() <= cfg.per_channel_topk,
{
    let win = window_of(cfg, valid_w, valid_h);
    if grid.channels > 0 {
        assert(cells_reaching(grid, win, cfg.thresh, 0) > cfg.per_channel_topk);
        lemma_reaching_gives_peak(grid, win, cfg.thresh, 0);
        lemma_per_channel_cap(grid, cfg, valid_w, valid_h, ch);
    } else if uses_fallback(grid, cfg, valid_w, valid_h) {
        let all = unthresholded(grid, cfg, valid_w, valid_h);
        assert(all.len() == 0);
        lemma_top(all, cfg.fallback_topk as int, ch);
        lemma_of_channel(top(all, cfg.fallback_topk as int), ch);
    } else {
        lemma_per_channel_cap(grid, cfg, valid_w, valid_h, ch);
    }
}

/// The number of peaks that a fallback returns.
pub open spec fn fallback_count(
    grid: &LogitGrid,
    cfg: &DecodeConfig,
    valid_w: int,
    valid_h: int,
) -> int {
    least(cfg.fallback_topk as int, unthresholded(grid, cfg, valid_w, valid_h).len() as int)
}

/// With the global cap set there are no more decoded peaks than `max_peaks`,
/// unless a fallback returns more: the fallback is not subject to the cap.
pub proof fn lemma_global_cap(grid: &LogitGrid, cfg: &DecodeConfig, valid_w: int, valid_h: int)
    requires
        cfg.max_peaks > 0,
        uses_fallback(grid, cfg, valid_w, valid_h) ==> fallback_count(grid, cfg, valid_w, valid_h)
            <= cfg.max_peaks,
    ensures
        decoded(grid, cfg, valid_w, valid_h).len() <= cfg.max_peaks,
{
    if uses_fallback(grid, cfg, valid_w, valid_h) {
        lemma_top(unthresholded(grid, cfg, valid_w, valid_h), cfg.fallback_topk as int, 0);
    } else {
        let first = thresholded(grid, cfg, valid_w, valid_h);
        let kept = if cfg.per_channel_topk > 0 {
            capped_per_channel(first, grid.channels as int, cfg.per_channel_topk as int)
        } else {
            first
        };
        lemma_top(kept, cfg.max_peaks as int, 0);
    }
}

/// Where every cell scores below the cutoff and a fallback of `k` is set, the
/// `k` best local maxima come back, or all of them if there are fewer, best
/// first.
pub proof fn lemma_fallback(grid: &LogitGrid, cfg: &DecodeConfig, valid_w: int, valid_h: int)
    requires
        grid.admits(window_of(cfg, valid_w, valid_h)),
        all_below(grid, window_of(cfg, valid_w, valid_h), cfg.thresh),
        cfg.fallback_topk > 0,
    ensures
        uses_fallback(grid, cfg, valid_w, valid_h),
        decoded(grid, cfg, valid_w, valid_h) == top(
            unthresholded(grid, cfg, valid_w, valid_h),
            cfg.fallback_topk as int,
        ),
        decoded(grid, cfg, valid_w, valid_h).len() == fallback_count(grid, cfg, valid_w, valid_h),
        descending(decoded(grid, cfg, valid_w, valid_h)),
{
    lemma_nothing_reaches(grid, window_of(cfg, valid_w, valid_h), cfg.thresh);
    lemma_top(unthresholded(grid, cfg, valid_w, valid_h), cfg.fallback_topk as int, 0);
}

/// The number of cells of the valid region over all planes.
pub open spec fn total_cells(grid: &LogitGrid, valid_w: int, valid_h: int) -> int {
    grid.channels * (valid_h * valid_w)
}

/// Where every cell scores below the cutoff, a fallback of `k` is set and
/// there are at least as many local maxima as the smaller of `k` and the
/// number of cells, exactly that smaller number of peaks comes back, best
/// first.
pub proof fn lemma_fallback_fills(grid: &LogitGrid, cfg: &DecodeConfig, valid_w: int, valid_h: int)
    requires
        grid.admits(window_of(cfg, valid_w, valid_h)),
        all_below(grid, window_of(cfg, valid_w, valid_h), cfg.thresh),
        cfg.fallback_topk > 0,
        unthresholded(grid, cfg, valid_w, valid_h).len() >= least(
            cfg.fallback_topk as int,
            total_cells(grid, valid_w, valid_h),
        ),
    ensures
        decoded(grid, cfg, valid_w, valid_h).len() == least(
            cfg.fallback_topk as int,
            total_cells(grid, valid_w, valid_h),
        ),
        descending(decoded(grid, cfg, valid_w, valid_h)),
{
    lemma_fallback(grid, cfg, valid_w, valid_h);
    lemma_local_maxima_are_peaks(grid, window_of(cfg, valid_w, valid_h), NEG_INFINITY);
}

/// Where every cell scores below the cutoff, the window is a single cell and
/// a fallback of `k` is set, the `k` best cells come back, or all cells if
/// there are fewer, best first.
pub proof fn lemma_fallback_over_single_cells(
    grid: &LogitGrid,
    cfg: &DecodeConfig,
    valid_w: int,
    valid_h: int,
)
    requires
        grid.admits(window_of(cfg, valid_w, valid_h)),
        all_below(grid, window_of(cfg, valid_w, valid_h), cfg.thresh),
        cfg.fallback_topk > 0,
        cfg.window <= 1,
    ensures
        decoded(grid, cfg, valid_w, valid_h).len() == least(
            cfg.fallback_topk as int,
            total_cells(grid, valid_w, valid_h),
        ),
        descending(decoded(grid, cfg, valid_w, valid_h)),
{
    let win = window_of(cfg, valid_w, valid_h);
    lemma_single_cell_window(grid, win);
    lemma_every_cell_detected(grid, win, NEG_INFINITY);
    lemma_fallback_fills(grid, cfg, valid_w, valid_h);
}

} // verus!
