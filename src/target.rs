//! Finding the finder markers of a code: run-length matching along sampled
//! rows, confirmed across both axes.

use vstd::prelude::*;
use crate::Point;
use crate::bitmap::Bitmap;

verus! {

/// The location of one finder marker, as an axis-aligned box.
///
/// The box does not show tilt or skew; it only promises that the marker's
/// edges pass through the midpoints of its sides, e.g. `(min.x, mid.y)` lies
/// on the marker's left edge.
#[derive(Clone, Copy, Debug, Default)]
pub struct Target<T: Copy> {
    pub min: Point<T>,
    pub mid: Point<T>,
    pub max: Point<T>,
}

impl<T: Copy> Target<T> {
    pub fn new(x_min: T, y_min: T, x_mid: T, y_mid: T, x_max: T, y_max: T) -> (r: Self)
        ensures
            r.min.x == x_min && r.min.y == y_min,
            r.mid.x == x_mid && r.mid.y == y_mid,
            r.max.x == x_max && r.max.y == y_max,
    {
        Target {
            min: Point::new(x_min, y_min),
            mid: Point::new(x_mid, y_mid),
            max: Point::new(x_max, y_max),
        }
    }

    /// The midpoint of the top side.
    pub fn up(&self) -> (r: Point<T>)
        ensures
            r.x == self.mid.x && r.y == self.min.y,
    {
        Point::new(self.mid.x, self.min.y)
    }

    /// The midpoint of the bottom side.
    pub fn down(&self) -> (r: Point<T>)
        ensures
            r.x == self.mid.x && r.y == self.max.y,
    {
        Point::new(self.mid.x, self.max.y)
    }

    /// The midpoint of the left side.
    pub fn left(&self) -> (r: Point<T>)
        ensures
            r.x == self.min.x && r.y == self.mid.y,
    {
        Point::new(self.min.x, self.mid.y)
    }

    /// The midpoint of the right side.
    pub fn right(&self) -> (r: Point<T>)
        ensures
            r.x == self.max.x && r.y == self.mid.y,
    {
        Point::new(self.max.x, self.mid.y)
    }
}

/// A fixed-capacity circular buffer that keeps the last `N` values pushed.
/// Write with `push`, read with `iter` or `peek_back`.
#[derive(Clone, Copy, Debug)]
pub struct FixedBuffer<const N: usize> {
    data: [u32; N],
    head: usize,
    full: bool,
}

impl<const N: usize> View for FixedBuffer<N> {
    type V = Seq<u32>;

    /// The values held, oldest first.
    closed spec fn view(&self) -> Seq<u32> {
        if self.full {
            self.data@.subrange(self.head as int, N as int) + self.data@.subrange(
                0,
                self.head as int,
            )
        } else {
            self.data@.subrange(0, self.head as int)
        }
    }
}

impl<const N: usize> FixedBuffer<N> {
    /// The write cursor stays inside the backing array.
    pub closed spec fn wf(&self) -> bool {
        self.head < N
    }

    /// The buffer after pushing `v` onto one holding `s`.
    pub open spec fn pushed(s: Seq<u32>, v: u32) -> Seq<u32> {
        if s.len() < N {
            s.push(v)
        } else {
            s.drop_first().push(v)
        }
    }

    /// An empty buffer.
    pub fn new() -> (r: Self)
        requires
            N > 0,
        ensures
            r.wf(),
            r@.len() == 0,
    {
        FixedBuffer { data: [0u32; N], head: 0, full: false }
    }

    /// Whether the buffer holds `N` values.
    pub fn is_full(&self) -> (r: bool)
        requires
            self.wf(),
        ensures
            r == (self@.len() == N),
    {
        self.full
    }

    /// Empties the buffer, so that it can be reused.
    pub fn clear(&mut self)
        requires
            old(self).wf(),
        ensures
            final(self).wf(),
            final(self)@.len() == 0,
    {
        self.head = 0;
        self.full = false;
    }

    /// Appends `val`, dropping the oldest value when the buffer is full.
    pub fn push(&mut self, val: u32)
        requires
            old(self).wf(),
        ensures
            final(self).wf(),
            final(self)@ == Self::pushed(old(self)@, val),
    {
        let ghost s = old(self)@;
        let ghost d = old(self).data@;
        let h = self.head;
        self.data[h] = val;
        self.head = if h + 1 < N { h + 1 } else { 0 };
        if self.head == 0 && !self.full {
            self.full = true;
        }
        proof {
            let d2 = self.data@;
            assert(d2 == d.update(h as int, val));
            if h + 1 < N {
                assert(self.head == h + 1);
            } else {
                assert(self.head == 0);
            }
            if old(self).full {
                assert(s.len() == N);
                assert(self@ =~= s.drop_first().push(val));
            } else {
                assert(s.len() == h);
                assert(self@ =~= s.push(val));
            }
        }
    }

    /// The oldest value held; on an empty buffer, whatever the first slot
    /// last held.
    pub fn peek_back(&self) -> (r: u32)
        requires
            self.wf(),
        ensures
            self@.len() > 0 ==> r == self@[0],
    {
        self.data[if self.full { self.head } else { 0 }]
    }

    /// The values held, oldest first.
    pub fn iter(&self) -> (r: Vec<u32>)
        requires
            self.wf(),
        ensures
            r@ == self@,
    {
        let mut out: Vec<u32> = Vec::new();
        let start = if self.full { self.head } else { N };
        let mut i = start;
        while i < N
            invariant
                self.wf(),
                start <= i <= N,
                start == (if self.full { self.head as usize } else { N }),
                out@ == self.data@.subrange(start as int, i as int),
            decreases N - i,
        {
            out.push(self.data[i]);
            i = i + 1;
            assert(out@ =~= self.data@.subrange(start as int, i as int));
        }
        let mut j: usize = 0;
        while j < self.head
            invariant
                self.wf(),
                j <= self.head,
                out@ == self.data@.subrange(start as int, N as int) + self.data@.subrange(
                    0,
                    j as int,
                ),
            decreases self.head - j,
        {
            out.push(self.data[j]);
            j = j + 1;
            assert(out@ =~= self.data@.subrange(start as int, N as int) + self.data@.subrange(
                0,
                j as int,
            ));
        }
        assert(out@ =~= self@);
        out
    }
}

/// Expected ratios of adjacent runs of a finder pattern (1 black, 1 white,
/// 3 black, 1 white, 1 black), as numerator and denominator.
pub const RATIO_NUM: [u64; 4] = [1, 1, 3, 1];
pub const RATIO_DEN: [u64; 4] = [1, 3, 1, 1];

/// A measured ratio matches when it is off by less than `TOL_NUM / TOL_DEN`.
pub const TOL_NUM: u64 = 13;
pub const TOL_DEN: u64 = 20;

/// Rows sampled by the scanner are this far apart.
pub const ROW_STRIDE: u64 = 4;

/// What the scanner looks for and how closely: the expected ratios of
/// adjacent runs (numerators and denominators), the tolerance on each
/// ratio (numerator over denominator), and the distance between sampled
/// rows.
#[derive(Clone, Copy, Debug)]
pub struct ScanConfig {
    pub ratio_num: [u64; 4],
    pub ratio_den: [u64; 4],
    pub tol_num: u64,
    pub tol_den: u64,
    pub stride: u64,
}

/// Every number of the configuration lies in `[1, 1024]`.
pub open spec fn config_ok(c: ScanConfig) -> bool {
    &&& forall|i: int| 0 <= i < 4 ==> 1 <= #[trigger] c.ratio_num@[i] <= 1024
    &&& forall|i: int| 0 <= i < 4 ==> 1 <= #[trigger] c.ratio_den@[i] <= 1024
    &&& 1 <= c.tol_num <= 1024
    &&& 1 <= c.tol_den <= 1024
    &&& 1 <= c.stride <= 1024
}

/// The standard configuration: ratios `1, 1/3, 3, 1`, tolerance `0.65`,
/// every fourth row.
pub open spec fn standard_config() -> ScanConfig {
    ScanConfig {
        ratio_num: RATIO_NUM,
        ratio_den: RATIO_DEN,
        tol_num: TOL_NUM,
        tol_den: TOL_DEN,
        stride: ROW_STRIDE,
    }
}

impl ScanConfig {
    /// The standard configuration.
    pub fn standard() -> (r: ScanConfig)
        ensures
            r == standard_config(),
            config_ok(r),
    {
        let r = ScanConfig {
            ratio_num: RATIO_NUM,
            ratio_den: RATIO_DEN,
            tol_num: TOL_NUM,
            tol_den: TOL_DEN,
            stride: ROW_STRIDE,
        };
        assert(r.ratio_num@ =~= seq![1u64, 1, 3, 1]);
        assert(r.ratio_den@ =~= seq![1u64, 3, 1, 1]);
        r
    }
}

/// `a / b` is off from `p / q` by less than `tn / td` (`b` and `q`
/// positive).
pub open spec fn ratio_ok(a: int, b: int, p: int, q: int, tn: int, td: int) -> bool {
    let d = a * q - p * b;
    (if d < 0 { -d } else { d }) * td < tn * b * q
}

/// Five run lengths stand in the ratios of a finder pattern.
pub open spec fn pattern_ok(s: Seq<u64>, c: ScanConfig) -> bool {
    &&& s.len() == 5
    &&& forall|i: int|
        0 <= i < 4 ==> #[trigger] ratio_ok(
            s[i] as int,
            s[i + 1] as int,
            c.ratio_num@[i] as int,
            c.ratio_den@[i] as int,
            c.tol_num as int,
            c.tol_den as int,
        )
}

fn ratio_matches(a: u64, b: u64, p: u64, q: u64, tn: u64, td: u64) -> (r: bool)
    requires
        a <= 0x2_0000_0000,
        b <= 0x2_0000_0000,
        1 <= p <= 1024,
        1 <= q <= 1024,
        1 <= tn <= 1024,
        1 <= td <= 1024,
    ensures
        r == ratio_ok(a as int, b as int, p as int, q as int, tn as int, td as int),
{
    proof {
        assert(a * q <= 0x800_0000_0000 && p * b <= 0x800_0000_0000) by (nonlinear_arith)
            requires a <= 0x2_0000_0000, b <= 0x2_0000_0000, p <= 1024, q <= 1024;
        assert(tn * b * q <= 1024 * 0x800_0000_0000) by (nonlinear_arith)
            requires b <= 0x2_0000_0000, q <= 1024, tn <= 1024;
        assert(a * q * td <= 1024 * 0x800_0000_0000) by (nonlinear_arith)
            requires a * q <= 0x800_0000_0000, 1 <= td <= 1024;
        assert(p * b * td <= 1024 * 0x800_0000_0000) by (nonlinear_arith)
            requires p * b <= 0x800_0000_0000, 1 <= td <= 1024;
    }
    let lhs = a * q;
    let rhs = p * b;
    let d = if lhs < rhs { rhs - lhs } else { lhs - rhs };
    proof {
        assert(d * td <= 0x800_0000_0000 * 1024) by (nonlinear_arith)
            requires d <= 0x800_0000_0000, 1 <= td <= 1024;
        assert(tn * b <= 1024 * 0x2_0000_0000) by (nonlinear_arith)
            requires b <= 0x2_0000_0000, 1 <= tn <= 1024;
    }
    d * td < tn * b * q
}

/// Whether five run lengths stand in the ratios of a finder pattern.
pub fn sizes_match(s: &Vec<u64>, cfg: &ScanConfig) -> (r: bool)
    requires
        config_ok(*cfg),
        s@.len() == 5,
        forall|i: int| 0 <= i < 5 ==> s@[i] <= 0x2_0000_0000,
    ensures
        r == pattern_ok(s@, *cfg),
{
    let mut i: usize = 0;
    while i < 4
        invariant
            config_ok(*cfg),
            i <= 4,
            s@.len() == 5,
            forall|k: int| 0 <= k < 5 ==> s@[k] <= 0x2_0000_0000,
            forall|k: int|
                0 <= k < i ==> #[trigger] ratio_ok(
                    s@[k] as int,
                    s@[k + 1] as int,
                    cfg.ratio_num@[k] as int,
                    cfg.ratio_den@[k] as int,
                    cfg.tol_num as int,
                    cfg.tol_den as int,
                ),
        decreases 4 - i,
    {
        if !ratio_matches(
            s[i],
            s[i + 1],
            cfg.ratio_num[i],
            cfg.ratio_den[i],
            cfg.tol_num,
            cfg.tol_den,
        ) {
            return false;
        }
        i = i + 1;
    }
    true
}

/// The pixel at position `p` of a line: of column `x` when `vertical`,
/// else of row `y`.
pub open spec fn line_px(img: &Bitmap, x: int, y: int, vertical: bool, p: int) -> bool {
    if vertical {
        img.pixel(x, p)
    } else {
        img.pixel(p, y)
    }
}

/// The length of a line: the height for a column, the width for a row.
pub open spec fn line_len(img: &Bitmap, vertical: bool) -> int {
    if vertical {
        img.h() as int
    } else {
        img.w() as int
    }
}

/// The line through `(x, y)` lies inside the bitmap.
pub open spec fn line_ok(img: &Bitmap, x: int, y: int, vertical: bool) -> bool {
    if vertical {
        0 <= x < img.w()
    } else {
        0 <= y < img.h()
    }
}

/// How many pixels of color `c` stand in a row on the line just before
/// position `end`, walking back no further than `lo`.
pub open spec fn run_back(img: &Bitmap, x: int, y: int, vertical: bool, end: int, lo: int, c: bool) -> int
    decreases end - lo,
{
    if end > lo && line_px(img, x, y, vertical, end - 1) == c {
        1 + run_back(img, x, y, vertical, end - 1, lo, c)
    } else {
        0
    }
}

/// How many pixels of color `c` stand in a row on the line from position
/// `start`, stopping before `hi`.
pub open spec fn run_fwd(img: &Bitmap, x: int, y: int, vertical: bool, start: int, hi: int, c: bool) -> int
    decreases hi - start,
{
    if start < hi && line_px(img, x, y, vertical, start) == c {
        1 + run_fwd(img, x, y, vertical, start + 1, hi, c)
    } else {
        0
    }
}

proof fn lemma_run_back_bound(img: &Bitmap, x: int, y: int, vertical: bool, end: int, lo: int, c: bool)
    requires
        lo <= end,
    ensures
        0 <= run_back(img, x, y, vertical, end, lo, c) <= end - lo,
    decreases end - lo,
{
    if end > lo && line_px(img, x, y, vertical, end - 1) == c {
        lemma_run_back_bound(img, x, y, vertical, end - 1, lo, c);
    }
}

proof fn lemma_run_fwd_bound(img: &Bitmap, x: int, y: int, vertical: bool, start: int, hi: int, c: bool)
    requires
        start <= hi,
    ensures
        0 <= run_fwd(img, x, y, vertical, start, hi, c) <= hi - start,
    decreases hi - start,
{
    if start < hi && line_px(img, x, y, vertical, start) == c {
        lemma_run_fwd_bound(img, x, y, vertical, start + 1, hi, c);
    }
}

/// The outcome of walking the line through `(x, y)` outwards from its
/// middle (`y` on a column, `x` on a row), at most `reach` pixels each way.
///
/// The middle run is black. Walking back, the walk passes a black, a white
/// and a black run; walking forward from the middle, a black, a white and a
/// black run. The five runs must stand in the finder ratios, as on the scan
/// row (an empty run never does); the result is then the first position
/// walked and the position after the last one.
pub open spec fn confirm_spec(img: &Bitmap, x: u32, y: u32, vertical: bool, reach: u32, c: ScanConfig) -> Option<(u32, u32)> {
    let mid: int = if vertical { y as int } else { x as int };
    let lo: int = if mid >= reach { mid - reach } else { 0 };
    let hi: int = if mid + reach <= line_len(img, vertical) {
        mid + reach
    } else {
        line_len(img, vertical)
    };
    let b2 = run_back(img, x as int, y as int, vertical, mid, lo, false);
    let b1 = run_back(img, x as int, y as int, vertical, mid - b2, lo, true);
    let b0 = run_back(img, x as int, y as int, vertical, mid - b2 - b1, lo, false);
    let f2 = run_fwd(img, x as int, y as int, vertical, mid, hi, false);
    let f3 = run_fwd(img, x as int, y as int, vertical, mid + f2, hi, true);
    let f4 = run_fwd(img, x as int, y as int, vertical, mid + f2 + f3, hi, false);
    let sizes = seq![b0 as u64, b1 as u64, (b2 + f2) as u64, f3 as u64, f4 as u64];
    if pattern_ok(sizes, c) {
        Some(((mid - b2 - b1 - b0) as u32, (mid + f2 + f3 + f4) as u32))
    } else {
        None
    }
}

fn line_pixel(img: &Bitmap, x: u32, y: u32, vertical: bool, p: u32) -> (r: bool)
    requires
        img.wf(),
        line_ok(img, x as int, y as int, vertical),
        p < line_len(img, vertical),
    ensures
        r == line_px(img, x as int, y as int, vertical, p as int),
{
    if vertical {
        *img.get_pixel(x, p)
    } else {
        *img.get_pixel(p, y)
    }
}

fn walk_back(img: &Bitmap, x: u32, y: u32, vertical: bool, end: u32, lo: u32, c: bool) -> (r: u32)
    requires
        img.wf(),
        line_ok(img, x as int, y as int, vertical),
        lo <= end <= line_len(img, vertical),
    ensures
        r == run_back(img, x as int, y as int, vertical, end as int, lo as int, c),
{
    let mut p = end;
    while p > lo && line_pixel(img, x, y, vertical, p - 1) == c
        invariant
            img.wf(),
            line_ok(img, x as int, y as int, vertical),
            lo <= p <= end <= line_len(img, vertical),
            run_back(img, x as int, y as int, vertical, end as int, lo as int, c) == (end - p)
                + run_back(img, x as int, y as int, vertical, p as int, lo as int, c),
        decreases p - lo,
    {
        p = p - 1;
    }
    end - p
}

fn walk_fwd(img: &Bitmap, x: u32, y: u32, vertical: bool, start: u32, hi: u32, c: bool) -> (r: u32)
    requires
        img.wf(),
        line_ok(img, x as int, y as int, vertical),
        start <= hi <= line_len(img, vertical),
    ensures
        r == run_fwd(img, x as int, y as int, vertical, start as int, hi as int, c),
{
    let mut p = start;
    while p < hi && line_pixel(img, x, y, vertical, p) == c
        invariant
            img.wf(),
            line_ok(img, x as int, y as int, vertical),
            start <= p <= hi <= line_len(img, vertical),
            run_fwd(img, x as int, y as int, vertical, start as int, hi as int, c) == (p - start)
                + run_fwd(img, x as int, y as int, vertical, p as int, hi as int, c),
        decreases hi - p,
    {
        p = p + 1;
    }
    p - start
}

/// Confirms a line of a finder pattern, horizontal or vertical, by walking
/// outwards from its middle. If the line matches the pattern, returns its
/// first position and the position after its last.
fn confirm_line(img: &Bitmap, x: u32, y: u32, vertical: bool, reach: u32, cfg: &ScanConfig) -> (r: Option<(u32, u32)>)
    requires
        img.wf(),
        config_ok(*cfg),
        x < img.w(),
        y < img.h(),
    ensures
        r == confirm_spec(img, x, y, vertical, reach, *cfg),
        r.is_some() ==> r.unwrap().0 <= (if vertical { y } else { x }) <= r.unwrap().1 <= line_len(
            img,
            vertical,
        ),
{
    let mid = if vertical { y } else { x };
    let dim = if vertical { img.height() } else { img.width() };
    let lo = if mid >= reach { mid - reach } else { 0 };
    let hi = if dim - mid >= reach { mid + reach } else { dim };
    let ghost (xi, yi) = (x as int, y as int);
    let b2 = walk_back(img, x, y, vertical, mid, lo, false);
    proof { lemma_run_back_bound(img, xi, yi, vertical, mid as int, lo as int, false); }
    let b1 = walk_back(img, x, y, vertical, mid - b2, lo, true);
    proof { lemma_run_back_bound(img, xi, yi, vertical, (mid - b2) as int, lo as int, true); }
    let b0 = walk_back(img, x, y, vertical, mid - b2 - b1, lo, false);
    proof { lemma_run_back_bound(img, xi, yi, vertical, (mid - b2 - b1) as int, lo as int, false); }
    let f2 = walk_fwd(img, x, y, vertical, mid, hi, false);
    proof { lemma_run_fwd_bound(img, xi, yi, vertical, mid as int, hi as int, false); }
    let f3 = walk_fwd(img, x, y, vertical, mid + f2, hi, true);
    proof { lemma_run_fwd_bound(img, xi, yi, vertical, (mid + f2) as int, hi as int, true); }
    let f4 = walk_fwd(img, x, y, vertical, mid + f2 + f3, hi, false);
    proof { lemma_run_fwd_bound(img, xi, yi, vertical, (mid + f2 + f3) as int, hi as int, false); }
    let mut sizes: Vec<u64> = Vec::new();
    sizes.push(b0 as u64);
    sizes.push(b1 as u64);
    sizes.push(b2 as u64 + f2 as u64);
    sizes.push(f3 as u64);
    sizes.push(f4 as u64);
    proof {
        let s = seq![b0 as u64, b1 as u64, (b2 + f2) as u64, f3 as u64, f4 as u64];
        assert(sizes@ =~= s);
    }
    if sizes_match(&sizes, cfg) {
        Some((mid - b2 - b1 - b0, mid + f2 + f3 + f4))
    } else {
        None
    }
}

/// Given a row that matches the pattern horizontally, confirms that the
/// column through `(x, y)` matches it too, within `width` pixels each way.
fn confirm_col(img: &Bitmap, x: u32, y: u32, width: u32, cfg: &ScanConfig) -> (r: Option<(u32, u32)>)
    requires
        img.wf(),
        config_ok(*cfg),
        x < img.w(),
        y < img.h(),
    ensures
        r == confirm_spec(img, x, y, true, width, *cfg),
        r.is_some() ==> r.unwrap().0 <= y <= r.unwrap().1 <= img.h(),
{
    confirm_line(img, x, y, true, width, cfg)
}

/// How far the confirming row walk reaches for a pattern `width` wide:
/// five eighths of it, a quarter more than half.
pub open spec fn row_reach(width: u32) -> u32 {
    (width * 5 / 8) as u32
}

/// Confirms that the row through `(x, y)` matches the pattern, and finds
/// its extent more closely.
fn confirm_row(img: &Bitmap, x: u32, y: u32, width: u32, cfg: &ScanConfig) -> (r: Option<(u32, u32)>)
    requires
        img.wf(),
        config_ok(*cfg),
        x < img.w(),
        y < img.h(),
    ensures
        r == confirm_spec(img, x, y, false, row_reach(width), *cfg),
        r.is_some() ==> r.unwrap().0 <= x <= r.unwrap().1 <= img.w(),
{
    let reach = (width as u64 * 5 / 8) as u32;
    confirm_line(img, x, y, false, reach, cfg)
}

/// `t` was confirmed from scan row `y` and pattern width `w`: the column
/// through its middle matches from `min.y` to `max.y`, its middle row lies
/// halfway, and that row matches from `min.x` to `max.x`.
pub open spec fn marker_at(img: &Bitmap, t: Target<u32>, y: u32, w: u32, c: ScanConfig) -> bool {
    &&& t.mid.x < img.w()
    &&& y < img.h()
    &&& confirm_spec(img, t.mid.x, y, true, w, c) == Some((t.min.y, t.max.y))
    &&& t.mid.y == t.min.y + (t.max.y - t.min.y) / 2
    &&& t.mid.y < img.h()
    &&& confirm_spec(img, t.mid.x, t.mid.y, false, row_reach(w), c) == Some((t.min.x, t.max.x))
}

/// `t` is a finder marker of `img`, confirmed across both axes.
pub open spec fn is_marker(img: &Bitmap, t: Target<u32>, c: ScanConfig) -> bool {
    exists|y: u32, w: u32| marker_at(img, t, y, w, c)
}

proof fn lemma_confirm_bounds(img: &Bitmap, x: u32, y: u32, vertical: bool, reach: u32, c: ScanConfig)
    requires
        img.wf(),
        x < img.w(),
        y < img.h(),
    ensures
        confirm_spec(img, x, y, vertical, reach, c) matches Some((lo, hi)) ==> lo <= (if vertical {
            y
        } else {
            x
        }) <= hi <= line_len(img, vertical),
{
    let mid: int = if vertical { y as int } else { x as int };
    let lo: int = if mid >= reach { mid - reach } else { 0 };
    let hi: int = if mid + reach <= line_len(img, vertical) {
        mid + reach
    } else {
        line_len(img, vertical)
    };
    let (xi, yi) = (x as int, y as int);
    assert(img.w() <= u32::MAX && img.h() <= u32::MAX) by (nonlinear_arith)
        requires img.w() * img.h() <= u32::MAX, img.w() >= 1, img.h() >= 1;
    lemma_run_back_bound(img, xi, yi, vertical, mid, lo, false);
    let b2 = run_back(img, xi, yi, vertical, mid, lo, false);
    lemma_run_back_bound(img, xi, yi, vertical, mid - b2, lo, true);
    let b1 = run_back(img, xi, yi, vertical, mid - b2, lo, true);
    lemma_run_back_bound(img, xi, yi, vertical, mid - b2 - b1, lo, false);
    lemma_run_fwd_bound(img, xi, yi, vertical, mid, hi, false);
    let f2 = run_fwd(img, xi, yi, vertical, mid, hi, false);
    lemma_run_fwd_bound(img, xi, yi, vertical, mid + f2, hi, true);
    let f3 = run_fwd(img, xi, yi, vertical, mid + f2, hi, true);
    lemma_run_fwd_bound(img, xi, yi, vertical, mid + f2 + f3, hi, false);
}

/// Every marker is a box around its middle that lies inside the bitmap:
/// `min <= mid <= max` on both axes, with `max` at most the bitmap's size
/// (the box ends one past its last pixel).
pub proof fn lemma_marker_box(img: &Bitmap, t: Target<u32>, c: ScanConfig)
    requires
        img.wf(),
        is_marker(img, t, c),
    ensures
        t.min.x <= t.mid.x <= t.max.x <= img.w(),
        t.min.y <= t.mid.y <= t.max.y <= img.h(),
{
    let (y, w) = choose|y: u32, w: u32| marker_at(img, t, y, w, c);
    lemma_confirm_bounds(img, t.mid.x, y, true, w, c);
    lemma_confirm_bounds(img, t.mid.x, t.mid.y, false, row_reach(w), c);
}

/// The run window `[start_x, x]` lies inside the column range of one of the
/// active targets.
pub open spec fn within_active_spec(targets: Seq<Target<u32>>, active: Seq<usize>, start_x: u32, x: u32) -> bool {
    exists|j: int|
        0 <= j < active.len() && targets[active[j] as int].min.x <= start_x && x
            <= targets[active[j] as int].max.x
}

/// The scanner's state along a sampled row: the color of the current run,
/// its length so far, the last run lengths, the columns where the last runs
/// began, the markers found, and the indices of the active ones.
pub type RowState = (bool, u32, Seq<u32>, Seq<u32>, Seq<Target<u32>>, Seq<usize>);

pub open spec fn widen(s: Seq<u32>) -> Seq<u64> {
    s.map_values(|v: u32| v as u64)
}

/// The marker confirmed from a run window that closes at column `x` of row
/// `y` and began at column `start_x`, if both cross checks pass.
pub open spec fn confirmed(img: &Bitmap, y: u32, start_x: u32, x: u32, c: ScanConfig) -> Option<Target<u32>> {
    let width = (x - start_x) as u32;
    let x_mid = (start_x + width / 2) as u32;
    match confirm_spec(img, x_mid, y, true, width, c) {
        Some((y_min, y_max)) => {
            let y_mid = (y_min + (y_max - y_min) / 2) as u32;
            match confirm_spec(img, x_mid, y_mid, false, row_reach(width), c) {
                Some((x_min, x_max)) => Some(
                    Target {
                        min: Point { x: x_min, y: y_min },
                        mid: Point { x: x_mid, y: y_mid },
                        max: Point { x: x_max, y: y_max },
                    },
                ),
                None => None,
            }
        },
        None => None,
    }
}

/// One pixel of the walk along row `y`, at column `x`.
///
/// A color change ends a run: its start column and its length are kept.
/// When the run that ended is black and five runs are known, the window of
/// those runs is tested unless it lies inside an active marker; a window in
/// the finder ratios that both cross checks confirm adds a marker.
pub open spec fn row_step(img: &Bitmap, y: u32, x: u32, st: RowState, c: ScanConfig) -> RowState {
    let (cc, count, runs, xs, ts, act) = st;
    let px = img.pixel(x as int, y as int);
    if px == cc {
        (cc, (count + 1) as u32, runs, xs, ts, act)
    } else {
        let xs2 = FixedBuffer::<6>::pushed(xs, x);
        let runs2 = FixedBuffer::<5>::pushed(runs, count);
        let start_x = xs2[0];
        if !px || runs2.len() < 5 || within_active_spec(ts, act, start_x, x) || !pattern_ok(
            widen(runs2),
            c,
        ) {
            (px, 1, runs2, xs2, ts, act)
        } else {
            match confirmed(img, y, start_x, x, c) {
                Some(t) => (px, 1, runs2, xs2, ts.push(t), act.push(ts.len() as usize)),
                None => (px, 1, runs2, xs2, ts, act),
            }
        }
    }
}

/// The state at the end of row `y`, walking on from column `x`.
pub open spec fn row_from(img: &Bitmap, y: u32, x: int, st: RowState, c: ScanConfig) -> RowState
    decreases img.w() - x,
{
    if x >= img.w() {
        st
    } else {
        row_from(img, y, x + 1, row_step(img, y, x as u32, st, c), c)
    }
}

/// The length of the first run of row `y`.
pub open spec fn first_run(img: &Bitmap, y: u32) -> int {
    run_fwd(img, 0, y as int, false, 0, img.w() as int, img.pixel(0, y as int))
}

/// The markers and active indices after walking row `y`. The first run is
/// passed over and kept as the first run length and start column.
pub open spec fn row_result(img: &Bitmap, y: u32, ts: Seq<Target<u32>>, act: Seq<usize>, c: ScanConfig) -> (Seq<Target<u32>>, Seq<usize>) {
    let first = img.pixel(0, y as int);
    let x1 = first_run(img, y);
    let start = if x1 < img.w() { x1 + 1 } else { x1 };
    let st = row_from(img, y, start, (!first, 1, seq![x1 as u32], seq![x1 as u32], ts, act), c);
    (st.4, st.5)
}

/// Drops, from position `i` on, the active markers that lie wholly above
/// row `y`, each by moving the last index into its place.
pub open spec fn prune_from(ts: Seq<Target<u32>>, act: Seq<usize>, y: u32, i: int) -> Seq<usize>
    decreases act.len() - i,
{
    if i < 0 || i >= act.len() {
        act
    } else if y > ts[act[i] as int].max.y {
        prune_from(ts, act.update(i, act.last()).drop_last(), y, i)
    } else {
        prune_from(ts, act, y, i + 1)
    }
}

/// The markers found from sampled row `y` down.
pub open spec fn scan_from(img: &Bitmap, y: int, ts: Seq<Target<u32>>, act: Seq<usize>, c: ScanConfig) -> Seq<Target<u32>>
    decreases img.h() + c.stride - y,
{
    if y < 0 || y >= img.h() || c.stride == 0 {
        ts
    } else {
        let (ts2, act2) = row_result(img, y as u32, ts, act, c);
        scan_from(img, y + c.stride, ts2, prune_from(ts2, act2, y as u32, 0), c)
    }
}

/// The markers of `img`, in the order the scanner finds them: sampled rows
/// from the top, each walked left to right.
pub open spec fn scan_spec(img: &Bitmap, c: ScanConfig) -> Seq<Target<u32>> {
    if img.w() == 0 {
        Seq::empty()
    } else {
        scan_from(img, 0, Seq::empty(), Seq::empty(), c)
    }
}

/// Whether the run window `[start_x, x]` lies inside the column range of
/// one of the active targets.
fn within_active(targets: &Vec<Target<u32>>, active: &Vec<usize>, start_x: u32, x: u32) -> (r: bool)
    requires
        forall|j: int| 0 <= j < active@.len() ==> active@[j] < targets@.len(),
    ensures
        r == within_active_spec(targets@, active@, start_x, x),
{
    let mut j: usize = 0;
    while j < active.len()
        invariant
            j <= active@.len(),
            forall|k: int| 0 <= k < active@.len() ==> active@[k] < targets@.len(),
            forall|k: int|
                0 <= k < j ==> !(targets@[active@[k] as int].min.x <= start_x && x
                    <= targets@[active@[k] as int].max.x),
        decreases active@.len() - j,
    {
        let t = targets[active[j]];
        if t.min.x <= start_x && x <= t.max.x {
            return true;
        }
        j = j + 1;
    }
    false
}

/// Locates the finder markers of a bitmap with the standard configuration.
pub fn find_pos_targets(img: &Bitmap) -> (r: Vec<Target<u32>>)
    requires
        img.wf(),
    ensures
        r@ == scan_spec(img, standard_config()),
        forall|i: int| 0 <= i < r@.len() ==> is_marker(img, #[trigger] r@[i], standard_config()),
{
    let cfg = ScanConfig::standard();
    find_pos_targets_with(img, &cfg)
}

/// Locates the finder markers (the three big squares in the corners of a
/// code) in a bitmap.
///
/// Every sampled row is walked for five runs in the finder ratios that close
/// on a black run; a window that lies inside the columns of a marker
/// already found and not yet passed is skipped. A matching window is then
/// confirmed along the column through its middle and along the row through
/// the middle of that column run, which also fixes the marker's box.
/// Markers come out in the order found.
pub fn find_pos_targets_with(img: &Bitmap, cfg: &ScanConfig) -> (r: Vec<Target<u32>>)
    requires
        img.wf(),
        config_ok(*cfg),
    ensures
        r@ == scan_spec(img, *cfg),
        forall|i: int| 0 <= i < r@.len() ==> is_marker(img, #[trigger] r@[i], *cfg),
{
    let mut targets: Vec<Target<u32>> = Vec::new();
    let w = img.width();
    let h = img.height();
    if w == 0 {
        return targets;
    }
    // Lengths of the last five runs of one color.
    let mut run_buf = FixedBuffer::<5>::new();
    // Columns where the last few runs began.
    let mut x_buf = FixedBuffer::<6>::new();
    // Markers that a later sampled row may still cross.
    let mut active: Vec<usize> = Vec::new();
    let mut y64: u64 = 0;
    while y64 < h as u64
        invariant
            img.wf(),
            w == img.w(),
            h == img.h(),
            w > 0,
            run_buf.wf(),
            x_buf.wf(),
            forall|i: int| 0 <= i < targets@.len() ==> is_marker(img, #[trigger] targets@[i], *cfg),
            forall|j: int| 0 <= j < active@.len() ==> active@[j] < targets@.len(),
            config_ok(*cfg),
            y64 <= h as u64 + cfg.stride,
            scan_from(img, y64 as int, targets@, active@, *cfg) == scan_spec(img, *cfg),
        decreases h as u64 + cfg.stride - y64,
    {
        let y = y64 as u32;
        let ghost ts0 = targets@;
        let ghost act0 = active@;
        run_buf.clear();
        x_buf.clear();
        let first = *img.get_pixel(0, y);
        let mut chunk_color = !first;
        let mut last_count: u32 = 1;
        let mut x: u32 = 1;
        let mut found = false;
        // Walk through the first run and keep its length.
        while x < w && !found
            invariant
                1 <= x <= w,
                w == img.w(),
                h == img.h(),
                y < h,
                img.wf(),
                chunk_color == !img.pixel(0, y as int),
                found ==> last_count + 1 == x,
                !found ==> last_count == x,
                found ==> img.pixel(last_count as int, y as int) == chunk_color,
                run_fwd(img, 0, y as int, false, 0, w as int, !chunk_color) == last_count + (if found {
                    0
                } else {
                    run_fwd(img, 0, y as int, false, x as int, w as int, !chunk_color)
                }),
            decreases w - x,
        {
            let px = *img.get_pixel(x, y);
            proof {
                lemma_run_fwd_step(img, y as int, x as int, w as int, !chunk_color);
            }
            x = x + 1;
            if px == chunk_color {
                found = true;
            } else {
                last_count = last_count + 1;
            }
        }
        proof {
            if !found {
                assert(run_fwd(img, 0, y as int, false, x as int, w as int, !chunk_color) == 0);
            }
            assert(first_run(img, y) == last_count);
        }
        x_buf.push(last_count);
        run_buf.push(last_count);
        let mut count: u32 = 1;
        let ghost start = x;
        proof {
            assert(run_buf@ =~= seq![last_count]);
            assert(x_buf@ =~= seq![last_count]);
        }
        while x < w
            invariant
                1 <= x <= w,
                start <= x,
                w == img.w(),
                h == img.h(),
                y < h,
                y == y64,
                img.wf(),
                run_buf.wf(),
                x_buf.wf(),
                x_buf@.len() > 0,
                count <= x,
                forall|k: int| 0 <= k < x_buf@.len() ==> x_buf@[k] <= x,
                forall|k: int| 0 <= k < run_buf@.len() ==> run_buf@[k] <= x,
                forall|i: int| 0 <= i < targets@.len() ==> is_marker(img, #[trigger] targets@[i], *cfg),
                forall|j: int| 0 <= j < active@.len() ==> active@[j] < targets@.len(),
                config_ok(*cfg),
                row_from(img, y, x as int, (chunk_color, count, run_buf@, x_buf@, targets@, active@), *cfg)
                    == row_from(
                    img,
                    y,
                    start as int,
                    (
                        !img.pixel(0, y as int),
                        1,
                        seq![first_run(img, y) as u32],
                        seq![first_run(img, y) as u32],
                        ts0,
                        act0,
                    ),
                    *cfg,
                ),
            decreases w - x,
        {
            let cur = x;
            let ghost st = (chunk_color, count, run_buf@, x_buf@, targets@, active@);
            let ghost next = row_step(img, y, cur, st, *cfg);
            proof {
                assert(row_from(img, y, cur as int, st, *cfg) == row_from(img, y, cur + 1, next, *cfg));
            }
            let px = *img.get_pixel(cur, y);
            x = x + 1;
            if px != chunk_color {
                chunk_color = px;
                x_buf.push(cur);
                run_buf.push(count);
                count = 1;
                // A window closes only when the run just ended is black.
                if !chunk_color || !run_buf.is_full() {
                    continue;
                }
                let start_x = x_buf.peek_back();
                if within_active(&targets, &active, start_x, cur) {
                    continue;
                }
                let runs = run_buf.iter();
                let mut sizes: Vec<u64> = Vec::new();
                let mut k: usize = 0;
                while k < 5
                    invariant
                        k <= 5,
                        runs@.len() == 5,
                        cur < w,
                        forall|i: int| 0 <= i < 5 ==> runs@[i] <= cur,
                        sizes@.len() == k,
                        forall|i: int| 0 <= i < k ==> sizes@[i] == runs@[i] as u64,
                    decreases 5 - k,
                {
                    sizes.push(runs[k] as u64);
                    k = k + 1;
                }
                proof {
                    assert(sizes@ =~= widen(run_buf@));
                }
                if !sizes_match(&sizes, cfg) {
                    continue;
                }
                // The row matches; the column through its middle must match too.
                let width = cur - start_x;
                let x_mid = start_x + width / 2;
                match confirm_col(img, x_mid, y, width, cfg) {
                    Some((y_min, y_max)) => {
                        let y_mid = y_min + (y_max - y_min) / 2;
                        // And so must the middle row, which also fixes the edges.
                        match confirm_row(img, x_mid, y_mid, width, cfg) {
                            Some((x_min, x_max)) => {
                                let t = Target::new(x_min, y_min, x_mid, y_mid, x_max, y_max);
                                proof {
                                    assert(marker_at(img, t, y, width, *cfg));
                                    assert(confirmed(img, y, start_x, cur, *cfg) == Some(t));
                                }
                                active.push(targets.len());
                                targets.push(t);
                            },
                            None => {},
                        }
                    },
                    None => {},
                }
            } else {
                count = count + 1;
            }
        }
        proof {
            let st_end = (chunk_color, count, run_buf@, x_buf@, targets@, active@);
            assert(row_from(img, y, x as int, st_end, *cfg) == st_end);
            assert(row_result(img, y, ts0, act0, *cfg) == (targets@, active@));
        }
        // Drop the active markers that lie wholly above this row.
        let ghost act_row = active@;
        let mut ati: usize = 0;
        while ati < active.len()
            invariant
                ati <= active@.len(),
                forall|j: int| 0 <= j < active@.len() ==> active@[j] < targets@.len(),
                prune_from(targets@, active@, y, ati as int) == prune_from(targets@, act_row, y, 0),
            decreases active@.len() - ati,
        {
            if y > targets[active[ati]].max.y {
                let ghost before = active@;
                active.swap_remove(ati);
                assert(forall|j: int| 0 <= j < active@.len() ==> before.contains(#[trigger] active@[j]));
            } else {
                ati = ati + 1;
            }
        }
        proof {
            assert(scan_from(img, y64 as int, ts0, act0, *cfg) == scan_from(
                img,
                y64 + cfg.stride,
                targets@,
                active@,
                *cfg,
            ));
        }
        y64 = y64 + cfg.stride;
    }
    proof {
        assert(scan_from(img, y64 as int, targets@, active@, *cfg) == targets@);
    }
    targets
}

proof fn lemma_run_fwd_step(img: &Bitmap, y: int, x: int, w: int, c: bool)
    requires
        0 <= x < w,
    ensures
        run_fwd(img, 0, y, false, x, w, c) == if img.pixel(x, y) == c {
            1 + run_fwd(img, 0, y, false, x + 1, w, c)
        } else {
            0
        },
{
}

} // verus!
