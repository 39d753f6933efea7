use vstd::prelude::*;
use crate::raster::RgbImg;
use crate::index::{PicData, is_thumb};

verus! {

/// Normalization divisor of the pixel score, chosen so that the pixel score
/// and the aspect score occupy comparable numeric ranges.
pub const NORM: u64 = 7_500_000;

/// Number of bytes in one thumbnail buffer.
pub const THUMB_BYTES: usize = 3 * 128 * 128;

/// Largest possible pixel distance: every byte differs by 255.
pub const MAX_PIXEL_SUM: u32 = 12_533_760;

/// Absolute difference of two integers.
pub open spec fn abs_diff(x: int, y: int) -> int {
    if x >= y {
        x - y
    } else {
        y - x
    }
}

/// Sum of absolute byte differences over the first `n` bytes of two buffers.
pub open spec fn diff_sum(a: Seq<u8>, b: Seq<u8>, n: int) -> int
    decreases n,
{
    if n <= 0 {
        0
    } else {
        diff_sum(a, b, n - 1) + abs_diff(a[n - 1] as int, b[n - 1] as int)
    }
}

/// Total per-channel absolute difference of two equally long buffers.
pub open spec fn pixel_sum(a: Seq<u8>, b: Seq<u8>) -> int {
    diff_sum(a, b, a.len() as int)
}

/// The pixel distance is never negative and at most 255 per byte.
pub proof fn lemma_diff_sum_bounds(a: Seq<u8>, b: Seq<u8>, n: int)
    requires
        0 <= n,
    ensures
        0 <= diff_sum(a, b, n) <= 255 * n,
    decreases n,
{
    if n > 0 {
        lemma_diff_sum_bounds(a, b, n - 1);
    }
}

/// A buffer is at distance zero from itself: the pixel score of a thumbnail
/// against an identical thumbnail is exactly zero.
pub proof fn lemma_diff_sum_self_zero(a: Seq<u8>, n: int)
    ensures
        diff_sum(a, a, n) == 0,
    decreases n,
{
    if n > 0 {
        lemma_diff_sum_self_zero(a, n - 1);
    }
}

/// The raw pixel distance of two thumbnails. The design's pixel score is
/// this sum divided by `NORM`; the exact integer sum is returned here and
/// the division is folded into the score comparison.
pub fn get_pixel_score(thumb1: &RgbImg, thumb2: &RgbImg) -> (s: u32)
    requires
        is_thumb(*thumb1),
        is_thumb(*thumb2),
    ensures
        s == pixel_sum(thumb1.data@, thumb2.data@),
        s <= MAX_PIXEL_SUM,
{
    proof {
        assert(thumb1.data@.len() == THUMB_BYTES as int);
        assert(thumb2.data@.len() == THUMB_BYTES as int);
    }
    let mut s: u32 = 0;
    let mut k: usize = 0;
    while k < THUMB_BYTES
        invariant
            thumb1.data@.len() == THUMB_BYTES as int,
            thumb2.data@.len() == THUMB_BYTES as int,
            k <= THUMB_BYTES,
            s == diff_sum(thumb1.data@, thumb2.data@, k as int),
            s <= 255 * k,
        decreases THUMB_BYTES - k,
    {
        let x = thumb1.data[k];
        let y = thumb2.data[k];
        let d: u8 = if x >= y {
            x - y
        } else {
            y - x
        };
        s = s + (d as u32);
        k = k + 1;
    }
    s
}

/// Numerator of the exact combined score of candidate `d` against a tile of
/// dimensions `tw` by `th` whose thumbnail bytes are `t`. The combined score
/// is 0.4 * |tw/th - d.width/d.height| + 0.6 * pixel_sum/NORM; brought to
/// the common denominator `5 * NORM * th * d.height` its numerator is this
/// (15_000_000 is 2 * NORM, the aspect weight 0.4 times the denominator's 5).
pub open spec fn score_num(tw: int, th: int, t: Seq<u8>, d: PicData) -> int {
    15_000_000 * abs_diff(tw * (d.height as int), (d.width as int) * th) + 3 * pixel_sum(
        t,
        d.thumbnail.data@,
    ) * th * (d.height as int)
}

/// Denominator of the exact combined score: 5 * NORM * th * d.height.
pub open spec fn score_den(th: int, d: PicData) -> int {
    37_500_000 * th * (d.height as int)
}

/// The combined score of `d1` is at most that of `d2`: the two exact
/// rationals compared by cross-multiplication, with the common positive
/// factor `5 * NORM * th` of both denominators cancelled.
pub open spec fn score_le(tw: int, th: int, t: Seq<u8>, d1: PicData, d2: PicData) -> bool {
    score_num(tw, th, t, d1) * (d2.height as int) <= score_num(tw, th, t, d2) * (d1.height as int)
}

/// Strict version of the score comparison.
pub open spec fn score_lt(tw: int, th: int, t: Seq<u8>, d1: PicData, d2: PicData) -> bool {
    score_num(tw, th, t, d1) * (d2.height as int) < score_num(tw, th, t, d2) * (d1.height as int)
}

/// The combined score of `d` lies strictly below the sentinel 100.
pub open spec fn beats_sentinel(tw: int, th: int, t: Seq<u8>, d: PicData) -> bool {
    score_num(tw, th, t, d) < 100 * score_den(th, d)
}

/// The reduced comparisons agree with the full cross-multiplication of the
/// exact rationals score_num/score_den.
pub proof fn lemma_score_cmp_exact(tw: int, th: int, t: Seq<u8>, d1: PicData, d2: PicData)
    requires
        th > 0,
        d1.height > 0,
        d2.height > 0,
    ensures
        score_le(tw, th, t, d1, d2) == (score_num(tw, th, t, d1) * score_den(th, d2) <= score_num(
            tw,
            th,
            t,
            d2,
        ) * score_den(th, d1)),
        score_lt(tw, th, t, d1, d2) == (score_num(tw, th, t, d1) * score_den(th, d2) < score_num(
            tw,
            th,
            t,
            d2,
        ) * score_den(th, d1)),
{
    let n1 = score_num(tw, th, t, d1);
    let n2 = score_num(tw, th, t, d2);
    let h1 = d1.height as int;
    let h2 = d2.height as int;
    let c = 37_500_000 * th;
    assert(score_den(th, d1) == c * h1);
    assert(score_den(th, d2) == c * h2);
    assert((n1 * (c * h2) <= n2 * (c * h1)) == (n1 * h2 <= n2 * h1)) by (nonlinear_arith)
        requires
            c > 0;
    assert((n1 * (c * h2) < n2 * (c * h1)) == (n1 * h2 < n2 * h1)) by (nonlinear_arith)
        requires
            c > 0;
}

/// Combined scores are never negative: the numerator is a sum of absolute
/// values, the denominator is positive. Zero is the lower bound.
pub proof fn lemma_score_nonneg(tw: int, th: int, t: Seq<u8>, d: PicData)
    requires
        th > 0,
        d.height > 0,
    ensures
        score_num(tw, th, t, d) >= 0,
        score_den(th, d) > 0,
{
    lemma_diff_sum_bounds(t, d.thumbnail.data@, t.len() as int);
    let ps = pixel_sum(t, d.thumbnail.data@);
    let ab = abs_diff(tw * (d.height as int), (d.width as int) * th);
    assert(3 * ps * th * (d.height as int) >= 0) by (nonlinear_arith)
        requires
            ps >= 0,
            th > 0,
            d.height as int > 0;
    assert(15_000_000 * ab >= 0) by (nonlinear_arith)
        requires
            ab >= 0;
    assert(37_500_000 * th * (d.height as int) > 0) by (nonlinear_arith)
        requires
            th > 0,
            d.height as int > 0;
}

/// Ordering of the exact rationals is transitive across a strict step.
proof fn lemma_frac_lt_le_trans(na: int, ha: int, nb: int, hb: int, nc: int, hc: int)
    requires
        ha > 0,
        hb > 0,
        hc > 0,
        na * hb < nb * ha,
        nb * hc <= nc * hb,
    ensures
        na * hc < nc * ha,
{
    assert(na * hc < nc * ha) by (nonlinear_arith)
        requires
            ha > 0,
            hb > 0,
            hc > 0,
            na * hb < nb * ha,
            nb * hc <= nc * hb;
}

/// A candidate strictly better than one below the sentinel is below the
/// sentinel as well.
proof fn lemma_sentinel_trans(na: int, ha: int, nb: int, hb: int, c: int)
    requires
        ha > 0,
        hb > 0,
        c > 0,
        na * hb < nb * ha,
        nb < 100 * (c * hb),
    ensures
        na < 100 * (c * ha),
{
    assert(na < 100 * (c * ha)) by (nonlinear_arith)
        requires
            ha > 0,
            hb > 0,
            c > 0,
            na * hb < nb * ha,
            nb < 100 * (c * hb);
}

/// Finds, among the descriptors, the one whose combined score against the
/// given tile is smallest; ties keep the earliest descriptor. Starting from
/// the sentinel score of 100, a descriptor is only ever picked with a score
/// strictly below it, so None comes back exactly when no descriptor scores
/// below the sentinel - in particular whenever there is no descriptor at all.
pub fn find_best_match(tile_w: u32, tile_h: u32, thumbnail: &RgbImg, pics_data: &Vec<PicData>) -> (r:
    Option<usize>)
    requires
        tile_w > 0,
        tile_h > 0,
        is_thumb(*thumbnail),
        forall|k: int| 0 <= k < pics_data@.len() ==> (#[trigger] pics_data@[k]).wf(),
    ensures
        match r {
            Some(i) => {
                &&& i < pics_data@.len()
                &&& beats_sentinel(
                    tile_w as int,
                    tile_h as int,
                    thumbnail.data@,
                    pics_data@[i as int],
                )
                &&& forall|k: int|
                    0 <= k < pics_data@.len() ==> score_le(
                        tile_w as int,
                        tile_h as int,
                        thumbnail.data@,
                        pics_data@[i as int],
                        #[trigger] pics_data@[k],
                    )
                &&& forall|k: int|
                    0 <= k < i ==> score_lt(
                        tile_w as int,
                        tile_h as int,
                        thumbnail.data@,
                        pics_data@[i as int],
                        #[trigger] pics_data@[k],
                    )
            },
            None => forall|k: int|
                0 <= k < pics_data@.len() ==> !beats_sentinel(
                    tile_w as int,
                    tile_h as int,
                    thumbnail.data@,
                    #[trigger] pics_data@[k],
                ),
        },
{
    let ghost tw = tile_w as int;
    let ghost th = tile_h as int;
    let ghost t = thumbnail.data@;
    let mut best: usize = 0;
    let mut best_num: u128 = 0;
    let mut best_h: u32 = 1;
    let mut found: bool = false;
    let mut k: usize = 0;
    while k < pics_data.len()
        invariant
            tw == tile_w as int,
            th == tile_h as int,
            t == thumbnail.data@,
            tile_w > 0,
            tile_h > 0,
            is_thumb(*thumbnail),
            forall|m: int| 0 <= m < pics_data@.len() ==> (#[trigger] pics_data@[m]).wf(),
            k <= pics_data@.len(),
            found ==> {
                &&& best < k
                &&& best_h == pics_data@[best as int].height
                &&& best_num as int == score_num(tw, th, t, pics_data@[best as int])
                &&& best_num <= 1_000_000_000_000_000_000_000_000_000u128
                &&& beats_sentinel(tw, th, t, pics_data@[best as int])
                &&& forall|m: int|
                    0 <= m < k ==> score_le(tw, th, t, pics_data@[best as int], #[trigger] pics_data@[m])
                &&& forall|m: int|
                    0 <= m < best ==> score_lt(
                        tw,
                        th,
                        t,
                        pics_data@[best as int],
                        #[trigger] pics_data@[m],
                    )
            },
            !found ==> forall|m: int|
                0 <= m < k ==> !beats_sentinel(tw, th, t, #[trigger] pics_data@[m]),
        decreases pics_data@.len() - k,
    {
        let d = &pics_data[k];
        let s = get_pixel_score(thumbnail, &d.thumbnail);
        proof {
            assert((tile_w as int) * (d.height as int) <= 0xffff_ffff * 0xffff_ffff)
                by (nonlinear_arith)
                requires
                    0 <= tile_w as int <= 0xffff_ffff,
                    0 <= d.height as int <= 0xffff_ffff;
            assert((d.width as int) * (tile_h as int) <= 0xffff_ffff * 0xffff_ffff)
                by (nonlinear_arith)
                requires
                    0 <= d.width as int <= 0xffff_ffff,
                    0 <= tile_h as int <= 0xffff_ffff;
        }
        let a1: u64 = (tile_w as u64) * (d.height as u64);
        let a2: u64 = (d.width as u64) * (tile_h as u64);
        let ad: u64 = if a1 >= a2 {
            a1 - a2
        } else {
            a2 - a1
        };
        proof {
            assert(3 * (s as int) * (tile_h as int) <= 3 * 12_533_760 * 0xffff_ffff && 3 * (
            s as int) * (tile_h as int) * (d.height as int) <= 3 * 12_533_760 * 0xffff_ffff
                * 0xffff_ffff) by (nonlinear_arith)
                requires
                    0 <= s as int <= 12_533_760,
                    0 <= tile_h as int <= 0xffff_ffff,
                    0 <= d.height as int <= 0xffff_ffff;
        }
        let num: u128 = 15_000_000u128 * (ad as u128) + 3 * (s as u128) * (tile_h as u128) * (
        d.height as u128);
        proof {
            assert(ad as int == abs_diff(tw * (d.height as int), (d.width as int) * th));
            assert(num as int == score_num(tw, th, t, pics_data@[k as int]));
            assert(num <= 1_000_000_000_000_000_000_000_000_000u128);
        }
        if !found {
            proof {
                assert(3_750_000_000 * (tile_h as int) * (d.height as int) <= 3_750_000_000
                    * 0xffff_ffff * 0xffff_ffff) by (nonlinear_arith)
                    requires
                        0 <= tile_h as int <= 0xffff_ffff,
                        0 <= d.height as int <= 0xffff_ffff;
                assert(100 * (37_500_000 * (tile_h as int) * (d.height as int)) == 3_750_000_000
                    * (tile_h as int) * (d.height as int)) by (nonlinear_arith);
            }
            let lim: u128 = 3_750_000_000u128 * (tile_h as u128) * (d.height as u128);
            proof {
                assert(lim as int == 100 * score_den(th, pics_data@[k as int]));
            }
            if num < lim {
                found = true;
                best = k;
                best_num = num;
                best_h = d.height;
                proof {
                    assert forall|m: int| 0 <= m < k implies score_lt(
                        tw,
                        th,
                        t,
                        pics_data@[k as int],
                        #[trigger] pics_data@[m],
                    ) by {
                        assert(!beats_sentinel(tw, th, t, pics_data@[m]));
                        lemma_score_nonneg(tw, th, t, pics_data@[m]);
                        lemma_score_nonneg(tw, th, t, pics_data@[k as int]);
                        let c = 37_500_000 * th;
                        let na = score_num(tw, th, t, pics_data@[k as int]);
                        let ha = pics_data@[k as int].height as int;
                        let nb = score_num(tw, th, t, pics_data@[m]);
                        let hb = pics_data@[m].height as int;
                        assert(score_den(th, pics_data@[k as int]) == c * ha);
                        assert(score_den(th, pics_data@[m]) == c * hb);
                        assert(na * hb < nb * ha) by (nonlinear_arith)
                            requires
                                ha > 0,
                                hb > 0,
                                c > 0,
                                na < 100 * (c * ha),
                                nb >= 100 * (c * hb);
                    }
                    assert forall|m: int| 0 <= m < k + 1 implies score_le(
                        tw,
                        th,
                        t,
                        pics_data@[k as int],
                        #[trigger] pics_data@[m],
                    ) by {
                        if m < k {
                            assert(score_lt(tw, th, t, pics_data@[k as int], pics_data@[m]));
                        }
                    }
                }
            } else {
                proof {
                    assert(!beats_sentinel(tw, th, t, pics_data@[k as int]));
                }
            }
        } else {
            proof {
                assert((num as int) * (best_h as int) <= 1_000_000_000_000_000_000_000_000_000
                    * 0xffff_ffff) by (nonlinear_arith)
                    requires
                        0 <= num as int <= 1_000_000_000_000_000_000_000_000_000,
                        0 <= best_h as int <= 0xffff_ffff;
                assert((best_num as int) * (d.height as int)
                    <= 1_000_000_000_000_000_000_000_000_000 * 0xffff_ffff) by (nonlinear_arith)
                    requires
                        0 <= best_num as int <= 1_000_000_000_000_000_000_000_000_000,
                        0 <= d.height as int <= 0xffff_ffff;
            }
            if num * (best_h as u128) < best_num * (d.height as u128) {
                proof {
                    let ghost old_best = best as int;
                    assert(score_lt(tw, th, t, pics_data@[k as int], pics_data@[old_best]));
                    let c = 37_500_000 * th;
                    lemma_sentinel_trans(
                        score_num(tw, th, t, pics_data@[k as int]),
                        pics_data@[k as int].height as int,
                        score_num(tw, th, t, pics_data@[old_best]),
                        pics_data@[old_best].height as int,
                        c,
                    );
                    assert(beats_sentinel(tw, th, t, pics_data@[k as int]));
                    assert forall|m: int| 0 <= m < k implies score_lt(
                        tw,
                        th,
                        t,
                        pics_data@[k as int],
                        #[trigger] pics_data@[m],
                    ) by {
                        lemma_frac_lt_le_trans(
                            score_num(tw, th, t, pics_data@[k as int]),
                            pics_data@[k as int].height as int,
                            score_num(tw, th, t, pics_data@[old_best]),
                            pics_data@[old_best].height as int,
                            score_num(tw, th, t, pics_data@[m]),
                            pics_data@[m].height as int,
                        );
                    }
                }
                best = k;
                best_num = num;
                best_h = d.height;
            } else {
                proof {
                    assert(score_le(tw, th, t, pics_data@[best as int], pics_data@[k as int]));
                }
            }
        }
        k = k + 1;
    }
    if found {
        Some(best)
    } else {
        None
    }
}

} // verus!
