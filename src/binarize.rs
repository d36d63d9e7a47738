//! Adaptive binarization: a luma histogram, an iterated threshold, and the
//! bitmap that results from it.

use vstd::prelude::*;
use image::Pixel;
use crate::bitmap::Bitmap;

verus! {

/// Number of luma levels.
pub const LEVELS: usize = 256;

/// Where the threshold search starts.
pub const SEED_THRESH: u64 = 128;

/// How many of the pixels in `s` have luma `v`.
pub open spec fn count_of(s: Seq<u8>, v: int) -> nat
    decreases s.len(),
{
    if s.len() == 0 {
        0
    } else {
        count_of(s.drop_last(), v) + if s.last() as int == v { 1nat } else { 0nat }
    }
}

/// The histogram of `s`: entry `l` counts the pixels of luma `l`.
pub open spec fn histo_of(s: Seq<u8>) -> Seq<u64> {
    Seq::new(LEVELS as nat, |l: int| count_of(s, l) as u64)
}

/// Number of pixels whose luma lies in `[lo, hi)`.
pub open spec fn seg_cnt(h: Seq<u64>, lo: int, hi: int) -> int
    decreases hi - lo,
{
    if hi <= lo {
        0
    } else {
        seg_cnt(h, lo, hi - 1) + h[hi - 1]
    }
}

/// Sum of the lumas of the pixels whose luma lies in `[lo, hi)`.
pub open spec fn seg_sum(h: Seq<u64>, lo: int, hi: int) -> int
    decreases hi - lo,
{
    if hi <= lo {
        0
    } else {
        seg_sum(h, lo, hi - 1) + h[hi - 1] * (hi - 1)
    }
}

/// The mean luma of the levels in `[lo, hi)`, its count seeded at one.
pub open spec fn seeded_mean(h: Seq<u64>, lo: int, hi: int) -> int {
    seg_sum(h, lo, hi) / (seg_cnt(h, lo, hi) + 1)
}

/// The threshold that follows `t`: halfway between the mean of the black
/// side `[0, t)` and that of the white side `[t, 256)`.
pub open spec fn next_thresh(h: Seq<u64>, t: int) -> int {
    (seeded_mean(h, 0, t) + seeded_mean(h, t, LEVELS as int)) / 2
}

/// Follows `next_thresh` from `t` until it stands still, for at most `fuel`
/// steps.
pub open spec fn thresh_iter(h: Seq<u64>, t: int, fuel: nat) -> int
    decreases fuel,
{
    if fuel == 0 || next_thresh(h, t) == t {
        t
    } else {
        thresh_iter(h, next_thresh(h, t), (fuel - 1) as nat)
    }
}

/// The binarization threshold of histogram `h`: the search from the seed,
/// cut off after 256 steps. Whenever the unbounded search stands still, it
/// does so within those steps and this is the fixed point it reaches
/// (`laws::lemma_threshold_is_fixed_point`).
pub open spec fn threshold_of(h: Seq<u64>) -> int {
    thresh_iter(h, SEED_THRESH as int, LEVELS as nat)
}

/// A histogram with a count for each level whose counts sum to a `u32`.
pub open spec fn histo_ok(h: Seq<u64>) -> bool {
    h.len() == LEVELS && seg_cnt(h, 0, LEVELS as int) <= u32::MAX
}

proof fn lemma_seg_split(h: Seq<u64>, lo: int, mid: int, hi: int)
    requires
        lo <= mid <= hi,
    ensures
        seg_cnt(h, lo, hi) == seg_cnt(h, lo, mid) + seg_cnt(h, mid, hi),
        seg_sum(h, lo, hi) == seg_sum(h, lo, mid) + seg_sum(h, mid, hi),
    decreases hi - mid,
{
    if hi > mid {
        lemma_seg_split(h, lo, mid, hi - 1);
    }
}

proof fn lemma_seg_bounds(h: Seq<u64>, lo: int, hi: int)
    requires
        0 <= lo,
        hi <= h.len(),
        h.len() <= LEVELS,
    ensures
        0 <= seg_cnt(h, lo, hi),
        0 <= seg_sum(h, lo, hi) <= 255 * seg_cnt(h, lo, hi),
    decreases hi - lo,
{
    if hi > lo {
        lemma_seg_bounds(h, lo, hi - 1);
        assert(0 <= h[hi - 1] * (hi - 1) <= 255 * h[hi - 1]) by (nonlinear_arith)
            requires 0 <= hi - 1 < 256, 0 <= h[hi - 1];
    }
}

proof fn lemma_mean_bound(s: int, c: int)
    requires
        0 <= c,
        0 <= s <= 255 * c,
    ensures
        0 <= s / (c + 1) <= 255,
{
    assert(0 <= s / (c + 1) <= 255) by (nonlinear_arith)
        requires 0 <= c, 0 <= s <= 255 * c;
}

/// Whatever the start, the next threshold is a luma level.
pub proof fn lemma_next_thresh_in_range(h: Seq<u64>, t: int)
    requires
        h.len() == LEVELS,
        0 <= t <= LEVELS,
    ensures
        0 <= next_thresh(h, t) <= 255,
{
    lemma_seg_bounds(h, 0, t);
    lemma_seg_bounds(h, t, LEVELS as int);
    lemma_mean_bound(seg_sum(h, 0, t), seg_cnt(h, 0, t));
    lemma_mean_bound(seg_sum(h, t, LEVELS as int), seg_cnt(h, t, LEVELS as int));
}

/// For every histogram the threshold is a luma level, and it is found in a
/// bounded number of steps.
pub proof fn lemma_threshold_in_range(h: Seq<u64>, t: int, fuel: nat)
    requires
        h.len() == LEVELS,
        0 <= t <= 255,
    ensures
        0 <= thresh_iter(h, t, fuel) <= 255,
    decreases fuel,
{
    if fuel > 0 && next_thresh(h, t) != t {
        lemma_next_thresh_in_range(h, t);
        lemma_threshold_in_range(h, next_thresh(h, t), (fuel - 1) as nat);
    }
}

proof fn lemma_seg_update(h: Seq<u64>, l: int, lo: int, hi: int)
    requires
        0 <= l < h.len(),
        0 <= lo,
        hi <= h.len(),
        h[l] < u64::MAX,
    ensures
        seg_cnt(h.update(l, (h[l] + 1) as u64), lo, hi) == seg_cnt(h, lo, hi) + if lo <= l < hi {
            1int
        } else {
            0int
        },
    decreases hi - lo,
{
    if hi > lo {
        lemma_seg_update(h, l, lo, hi - 1);
    }
}

/// Counts the pixels of each luma level.
pub fn img_to_u8_histo(luma: &Vec<u8>) -> (r: [u64; 256])
    requires
        luma@.len() <= u32::MAX,
    ensures
        r@ == histo_of(luma@),
        histo_ok(r@),
{
    let mut histo = [0u64; 256];
    let mut i: usize = 0;
    proof {
        assert(seg_cnt(histo@, 0, LEVELS as int) == 0) by {
            assert forall|k: int| 0 <= k <= LEVELS implies seg_cnt(histo@, 0, k) == 0 by {
                lemma_seg_zero(histo@, k);
            }
        }
    }
    while i < luma.len()
        invariant
            i <= luma@.len() <= u32::MAX,
            histo@.len() == LEVELS,
            forall|l: int| 0 <= l < LEVELS ==> histo@[l] == count_of(luma@.subrange(0, i as int), l),
            seg_cnt(histo@, 0, LEVELS as int) == i,
        decreases luma@.len() - i,
    {
        let v = luma[i] as usize;
        let ghost before = histo@;
        proof {
            lemma_count_le(luma@.subrange(0, i as int), v as int);
            lemma_seg_update(before, v as int, 0, LEVELS as int);
        }
        histo[v] = histo[v] + 1;
        proof {
            assert(histo@ == before.update(v as int, (before[v as int] + 1) as u64));
            let next = luma@.subrange(0, i + 1);
            assert(next.drop_last() =~= luma@.subrange(0, i as int));
        }
        i = i + 1;
    }
    proof {
        assert(luma@.subrange(0, luma@.len() as int) =~= luma@);
        assert forall|l: int| 0 <= l < LEVELS implies histo@[l] == count_of(luma@, l) by {
            lemma_count_le(luma@, l);
        }
        assert(histo@ =~= histo_of(luma@));
    }
    histo
}

proof fn lemma_seg_zero(h: Seq<u64>, k: int)
    requires
        0 <= k <= h.len(),
        forall|l: int| 0 <= l < h.len() ==> h[l] == 0,
    ensures
        seg_cnt(h, 0, k) == 0,
    decreases k,
{
    if k > 0 {
        lemma_seg_zero(h, k - 1);
    }
}

proof fn lemma_count_le(s: Seq<u8>, v: int)
    ensures
        count_of(s, v) <= s.len(),
    decreases s.len(),
{
    if s.len() > 0 {
        lemma_count_le(s.drop_last(), v);
    }
}

/// Luma levels `[lo, hi)` taken together: their pixel count and luma sum.
fn accum_range(histo: &[u64; 256], lo: usize, hi: usize) -> (r: (u64, u64))
    requires
        lo <= hi <= LEVELS,
        histo_ok(histo@),
    ensures
        r.0 == seg_sum(histo@, lo as int, hi as int),
        r.1 == seg_cnt(histo@, lo as int, hi as int),
{
    let mut sum: u64 = 0;
    let mut cnt: u64 = 0;
    let mut l: usize = lo;
    while l < hi
        invariant
            lo <= l <= hi <= LEVELS,
            histo_ok(histo@),
            sum == seg_sum(histo@, lo as int, l as int),
            cnt == seg_cnt(histo@, lo as int, l as int),
        decreases hi - l,
    {
        proof {
            lemma_seg_split(histo@, 0, lo as int, (l + 1) as int);
            lemma_seg_split(histo@, 0, (l + 1) as int, LEVELS as int);
            lemma_seg_bounds(histo@, 0, lo as int);
            lemma_seg_bounds(histo@, (l + 1) as int, LEVELS as int);
            lemma_seg_bounds(histo@, lo as int, (l + 1) as int);
        }
        sum = sum + histo[l] * (l as u64);
        cnt = cnt + histo[l];
        l = l + 1;
    }
    (sum, cnt)
}

/// Picks the binarization threshold of a luma histogram.
///
/// Starting from the seed, the histogram is split at the current threshold
/// and the next one is taken halfway between the seeded means of the two
/// sides, until it stands still. The sums of each side are carried from one
/// step to the next by moving only the levels between the two thresholds.
pub fn u8_histo_to_threshold(histo: &[u64; 256]) -> (r: u8)
    requires
        histo_ok(histo@),
    ensures
        r == threshold_of(histo@),
{
    let ghost h = histo@;
    let n = LEVELS;
    let mut thresh: usize = 128;
    proof {
        lemma_seg_split(h, 0, 128, LEVELS as int);
        lemma_seg_bounds(h, 0, 128);
        lemma_seg_bounds(h, 128, LEVELS as int);
    }
    let (mut black_sum, black_cnt0) = accum_range(histo, 0, 128);
    let (mut white_sum, white_cnt0) = accum_range(histo, 128, n);
    let mut black_cnt = black_cnt0 + 1;
    let mut white_cnt = white_cnt0 + 1;
    proof {
        lemma_next_thresh_in_range(h, 128);
    }
    let mut new_thresh: usize = ((black_sum / black_cnt + white_sum / white_cnt) / 2) as usize;
    let mut steps: usize = 0;
    while new_thresh != thresh && steps < n
        invariant
            n == LEVELS,
            h == histo@,
            histo_ok(h),
            thresh <= 255,
            steps <= LEVELS,
            black_sum == seg_sum(h, 0, thresh as int),
            black_cnt == seg_cnt(h, 0, thresh as int) + 1,
            white_sum == seg_sum(h, thresh as int, LEVELS as int),
            white_cnt == seg_cnt(h, thresh as int, LEVELS as int) + 1,
            new_thresh == next_thresh(h, thresh as int),
            thresh_iter(h, thresh as int, (LEVELS - steps) as nat) == threshold_of(h),
        decreases LEVELS - steps,
    {
        proof {
            lemma_next_thresh_in_range(h, thresh as int);
        }
        let less = new_thresh < thresh;
        let (lo, hi) = if less {
            (new_thresh, thresh)
        } else {
            (thresh, new_thresh)
        };
        let (diff_sum, diff_cnt) = accum_range(histo, lo, hi);
        proof {
            lemma_seg_split(h, 0, lo as int, hi as int);
            lemma_seg_split(h, lo as int, hi as int, LEVELS as int);
            lemma_seg_split(h, 0, hi as int, LEVELS as int);
            lemma_seg_split(h, 0, lo as int, LEVELS as int);
            lemma_seg_bounds(h, 0, lo as int);
            lemma_seg_bounds(h, lo as int, hi as int);
            lemma_seg_bounds(h, hi as int, LEVELS as int);
        }
        if less {
            black_sum = black_sum - diff_sum;
            black_cnt = black_cnt - diff_cnt;
            white_sum = white_sum + diff_sum;
            white_cnt = white_cnt + diff_cnt;
        } else {
            black_sum = black_sum + diff_sum;
            black_cnt = black_cnt + diff_cnt;
            white_sum = white_sum - diff_sum;
            white_cnt = white_cnt - diff_cnt;
        }
        thresh = new_thresh;
        proof {
            lemma_next_thresh_in_range(h, thresh as int);
        }
        new_thresh = ((black_sum / black_cnt + white_sum / white_cnt) / 2) as usize;
        steps = steps + 1;
    }
    thresh as u8
}

/// The luma of an RGB pixel.
pub open spec fn rgb_luma(r: u8, g: u8, b: u8) -> int {
    (2126 * r + 7152 * g + 722 * b) / 10000
}

/// Relies on `image::Pixel::to_luma` for `Rgb<u8>`: the sRGB weighting
/// `(2126 r + 7152 g + 722 b) / 10000`.
#[verifier::external_body]
fn luma_of_rgb(r: u8, g: u8, b: u8) -> (l: u8)
    ensures
        l == rgb_luma(r, g, b),
{
    image::Rgb([r, g, b]).to_luma().0[0]
}

/// The lumas of the pixels of a packed RGB buffer, three bytes per pixel.
pub open spec fn lumas_of(rgb: Seq<u8>) -> Seq<u8> {
    Seq::new(rgb.len() / 3, |i: int| rgb_luma(rgb[3 * i], rgb[3 * i + 1], rgb[3 * i + 2]) as u8)
}

/// The pixels of a binarized luma buffer: white where the luma exceeds the
/// threshold.
pub open spec fn binarized(luma: Seq<u8>) -> Seq<bool> {
    Seq::new(luma.len(), |i: int| luma[i] > threshold_of(histo_of(luma)))
}

impl Bitmap {
    /// Binarizes a luma buffer, given row after row, at the threshold its
    /// histogram yields.
    pub fn from_luma(width: u32, height: u32, luma: &Vec<u8>) -> (r: Bitmap)
        requires
            width * height <= u32::MAX,
            luma@.len() == width * height,
        ensures
            r.wf(),
            r.w() == width,
            r.h() == height,
            r.px() == binarized(luma@),
    {
        let histo = img_to_u8_histo(luma);
        let thresh = u8_histo_to_threshold(&histo);
        let mut data: Vec<bool> = Vec::with_capacity(luma.len());
        let mut i: usize = 0;
        while i < luma.len()
            invariant
                i <= luma@.len(),
                thresh == threshold_of(histo_of(luma@)),
                data@.len() == i,
                forall|k: int| 0 <= k < i ==> data@[k] == (luma@[k] > thresh),
            decreases luma@.len() - i,
        {
            data.push(luma[i] > thresh);
            i = i + 1;
        }
        assert(data@ =~= binarized(luma@));
        Bitmap::from_pixels(width, height, data)
    }

    /// Binarizes a packed RGB image (three bytes per pixel, row after row)
    /// through the luma of each pixel, at the threshold that the luma
    /// histogram yields.
    pub fn from_u8_img_dynamic(width: u32, height: u32, rgb: &Vec<u8>) -> (r: Bitmap)
        requires
            width * height <= u32::MAX,
            rgb@.len() == 3 * (width * height),
        ensures
            r.wf(),
            r.w() == width,
            r.h() == height,
            r.px() == binarized(lumas_of(rgb@)),
    {
        let n = (width * height) as usize;
        let mut luma: Vec<u8> = Vec::with_capacity(n);
        let len = rgb.len();
        let mut i: usize = 0;
        while i < n
            invariant
                len == rgb@.len(),
                n == width * height,
                rgb@.len() == 3 * n,
                i <= n,
                luma@.len() == i,
                forall|k: int| 0 <= k < i ==> luma@[k] == lumas_of(rgb@)[k],
            decreases n - i,
        {
            assert(3 * i + 2 < 3 * n);
            let l = luma_of_rgb(rgb[3 * i], rgb[3 * i + 1], rgb[3 * i + 2]);
            luma.push(l);
            i = i + 1;
        }
        assert(luma@ =~= lumas_of(rgb@));
        Bitmap::from_luma(width, height, &luma)
    }
}

} // verus!
