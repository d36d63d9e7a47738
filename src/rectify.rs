//! Resampling the code region of a bitmap into an upright square bitmap.
//!
//! The side `s` of the output square is the integer part of the longer
//! edge between the corners rounded to whole pixels. Destination pixel
//! `(u, v)` is taken from the source at the exact position
//! `corner0 + (u * (corner1 - corner0) + v * (corner2 - corner0)) / s`,
//! truncated to whole pixels only then; a position outside the source
//! reads white.

use vstd::prelude::*;
use crate::Point;
use crate::bitmap::{Bitmap, lemma_index_in_grid};
use crate::corners::{CornerSet, bounded, corners_ok};

verus! {

/// The largest side a rectified bitmap may have: its pixel count must fit
/// in a `u32`.
pub const MAX_SIDE: u64 = 65535;

/// `n / d` rounded to the nearest integer, halves upward (`d > 0`).
pub open spec fn round_div(n: int, d: int) -> int {
    (2 * n + d) / (2 * d)
}

/// `n / d` truncated toward zero (`d > 0`).
pub open spec fn trunc_div(n: int, d: int) -> int {
    if n >= 0 {
        n / d
    } else {
        -((-n) / d)
    }
}

/// A corner rounded to the nearest pixel.
pub open spec fn round_point(p: Point<i128>, den: int) -> Point<i128> {
    Point { x: round_div(p.x as int, den) as i128, y: round_div(p.y as int, den) as i128 }
}

/// The squared length of the edge from `a` to `b`.
pub open spec fn len2(a: Point<i128>, b: Point<i128>) -> int {
    (b.x - a.x) * (b.x - a.x) + (b.y - a.y) * (b.y - a.y)
}

/// The larger squared length of the two edges from `c0`.
pub open spec fn max_len2(c0: Point<i128>, c1: Point<i128>, c2: Point<i128>) -> int {
    let a = len2(c0, c1);
    let b = len2(c0, c2);
    if a > b {
        a
    } else {
        b
    }
}

/// `s` is the integer square root of `n`.
pub open spec fn is_isqrt(n: int, s: int) -> bool {
    0 <= s && s * s <= n < (s + 1) * (s + 1)
}

/// A map from destination pixels to source positions: `(u, v)` goes to
/// `((tx scale + a u + b v) / (den scale), (ty scale + c u + d v) / (den
/// scale))`.
#[derive(Clone, Copy, Debug)]
pub struct Affine {
    pub a: i128,
    pub b: i128,
    pub c: i128,
    pub d: i128,
    pub tx: i128,
    pub ty: i128,
    pub scale: i128,
    pub den: i128,
}

/// The coefficients are small enough for every product to fit.
pub open spec fn affine_ok(t: Affine) -> bool {
    &&& 0 < t.scale <= MAX_SIDE
    &&& 0 < t.den < 0x4_0000_0000_0000_0000
    &&& -EDGE_BOUND <= t.a <= EDGE_BOUND
    &&& -EDGE_BOUND <= t.b <= EDGE_BOUND
    &&& -EDGE_BOUND <= t.c <= EDGE_BOUND
    &&& -EDGE_BOUND <= t.d <= EDGE_BOUND
    &&& -0x4_0000_0000_0000_0000_0000_0000 < t.tx < 0x4_0000_0000_0000_0000_0000_0000
    &&& -0x4_0000_0000_0000_0000_0000_0000 < t.ty < 0x4_0000_0000_0000_0000_0000_0000
}

/// The source position of destination pixel `(u, v)`, truncated.
pub open spec fn source_of(t: Affine, u: int, v: int) -> (int, int) {
    (
        trunc_div(t.tx * t.scale + t.a * u + t.b * v, t.den * t.scale),
        trunc_div(t.ty * t.scale + t.c * u + t.d * v, t.den * t.scale),
    )
}

/// The value of destination pixel `(u, v)`: the source pixel it maps to,
/// or white outside the source.
pub open spec fn sample(src: &Bitmap, t: Affine, u: int, v: int) -> bool {
    let (sx, sy) = source_of(t, u, v);
    if src.in_bounds(sx, sy) {
        src.pixel(sx, sy)
    } else {
        true
    }
}

/// The map that sends the axes of a `side` pixels square to the edges from
/// the top-left corner to the top-right one and to the bottom-left one,
/// exactly as the corners give them (numerators over `c.den`).
pub open spec fn affine_of(c: CornerSet, side: int) -> Affine {
    Affine {
        a: (c.top_right.x - c.top_left.x) as i128,
        b: (c.bottom_left.x - c.top_left.x) as i128,
        c: (c.top_right.y - c.top_left.y) as i128,
        d: (c.bottom_left.y - c.top_left.y) as i128,
        tx: c.top_left.x,
        ty: c.top_left.y,
        scale: (if side > 0 { side } else { 1 }) as i128,
        den: c.den,
    }
}

/// Edge numerators of corners whose rounded square fits stay below this.
pub const EDGE_BOUND: i128 = 0x8_0000_0000_0000_0000_0000;

fn round_coord(n: i128, den: i128) -> (r: i128)
    requires
        0 < den < 0x4_0000_0000_0000_0000,
        -0x4_0000_0000_0000_0000_0000_0000 < n < 0x4_0000_0000_0000_0000_0000_0000,
    ensures
        r == round_div(n as int, den as int),
        -0x4_0000_0000_0000_0000_0000_0000 < r < 0x4_0000_0000_0000_0000_0000_0000,
{
    let num = 2 * n + den;
    let dd = 2 * den;
    proof {
        assert(-0x4_0000_0000_0000_0000_0000_0000 < (2 * n + den) / (2 * den) < 0x4_0000_0000_0000_0000_0000_0000) by (nonlinear_arith)
            requires den > 0, -0x4_0000_0000_0000_0000_0000_0000 < n < 0x4_0000_0000_0000_0000_0000_0000;
    }
    if num >= 0 {
        num / dd
    } else {
        // Floor division of a negative numerator.
        let q = (-num + dd - 1) / dd;
        proof {
            lemma_floor_of_negative(num as int, dd as int);
        }
        -q
    }
}

proof fn lemma_floor_of_negative(n: int, d: int)
    requires
        n < 0,
        d > 0,
    ensures
        n / d == -((-n + d - 1) / d),
{
    let q = n / d;
    let r = n % d;
    assert(n == q * d + r && 0 <= r < d) by {
        vstd::arithmetic::div_mod::lemma_fundamental_div_mod(n, d);
        vstd::arithmetic::div_mod::lemma_mod_bound(n, d);
    }
    let m = -n + d - 1;
    assert(m == (-q) * d + (d - 1 - r)) by (nonlinear_arith)
        requires n == q * d + r, m == -n + d - 1;
    vstd::arithmetic::div_mod::lemma_fundamental_div_mod_converse(m, d, -q, d - 1 - r);
}

/// Rounds a corner to the nearest pixel.
pub fn round_corner(p: Point<i128>, den: i128) -> (r: Point<i128>)
    requires
        0 < den < 0x4_0000_0000_0000_0000,
        bounded(p),
    ensures
        r == round_point(p, den as int),
        bounded(r),
{
    Point { x: round_coord(p.x, den), y: round_coord(p.y, den) }
}

fn next_square_fits(r: u64, n: u64) -> (b: bool)
    requires
        r < 0x100_0000,
    ensures
        b == ((r + 1) * (r + 1) <= n),
{
    proof {
        assert((r + 1) * (r + 1) <= 0x1_0000_0000_0000) by (nonlinear_arith)
            requires r < 0x100_0000;
    }
    (r + 1) * (r + 1) <= n
}

/// The integer square root of `n`.
fn isqrt(n: u64) -> (r: u64)
    requires
        n < 0x1_0000_0000_0000,
    ensures
        is_isqrt(n as int, r as int),
{
    let mut r: u64 = 0;
    while next_square_fits(r, n)
        invariant
            r * r <= n,
            n < 0x1_0000_0000_0000,
            r < 0x100_0000,
        decreases n - r * r,
    {
        proof {
            assert((r + 1) * (r + 1) > r * r) by (nonlinear_arith);
            assert(r + 1 < 0x100_0000) by (nonlinear_arith)
                requires (r + 1) * (r + 1) <= n, n < 0x1_0000_0000_0000;
        }
        r = r + 1;
    }
    r
}

proof fn lemma_isqrt_large(m: int, s: int)
    requires
        m >= 0x1_0000 * 0x1_0000,
        is_isqrt(m, s),
    ensures
        s > MAX_SIDE,
{
    assert(s > MAX_SIDE) by (nonlinear_arith)
        requires m >= 0x1_0000 * 0x1_0000, 0 <= s, m < (s + 1) * (s + 1);
}

proof fn lemma_isqrt_small(m: int, s: int)
    requires
        m < 0x1_0000 * 0x1_0000,
        is_isqrt(m, s),
    ensures
        s <= MAX_SIDE,
{
    assert(s <= MAX_SIDE) by (nonlinear_arith)
        requires m < 0x1_0000 * 0x1_0000, 0 <= s, s * s <= m;
}

/// The side of the rectified square: the integer part of the longer of the
/// edges from `c0` to `c1` and from `c0` to `c2`, or `None` when a square of
/// that side would hold more pixels than a bitmap can.
pub fn to_side_len(c0: Point<i128>, c1: Point<i128>, c2: Point<i128>) -> (r: Option<u32>)
    requires
        bounded(c0),
        bounded(c1),
        bounded(c2),
    ensures
        r.is_some() == (max_len2(c0, c1, c2) < 0x1_0000 * 0x1_0000),
        r.is_some() ==> is_isqrt(max_len2(c0, c1, c2), r.unwrap() as int) && r.unwrap()
            <= MAX_SIDE,
{
    let ax = c1.x - c0.x;
    let ay = c1.y - c0.y;
    let bx = c2.x - c0.x;
    let by = c2.y - c0.y;
    let lim: i128 = 0x1_0000;
    if ax <= -lim || ax >= lim || ay <= -lim || ay >= lim || bx <= -lim || bx >= lim || by <= -lim
        || by >= lim {
        proof {
            assert(max_len2(c0, c1, c2) >= 0x1_0000 * 0x1_0000) by (nonlinear_arith)
                requires
                    ax == c1.x - c0.x, ay == c1.y - c0.y, bx == c2.x - c0.x, by == c2.y - c0.y,
                    ax <= -lim || ax >= lim || ay <= -lim || ay >= lim || bx <= -lim || bx >= lim
                        || by <= -lim || by >= lim,
                    lim == 0x1_0000;
        }
        return None;
    }
    proof {
        lemma_abs_mul(ax as int, ax as int, 0x1_0000, 0x1_0000);
        lemma_abs_mul(ay as int, ay as int, 0x1_0000, 0x1_0000);
        lemma_abs_mul(bx as int, bx as int, 0x1_0000, 0x1_0000);
        lemma_abs_mul(by as int, by as int, 0x1_0000, 0x1_0000);
        assert(0 <= ax * ax + ay * ay < 0x2_0000_0000) by (nonlinear_arith)
            requires -lim < ax < lim, -lim < ay < lim, lim == 0x1_0000;
        assert(0 <= bx * bx + by * by < 0x2_0000_0000) by (nonlinear_arith)
            requires -lim < bx < lim, -lim < by < lim, lim == 0x1_0000;
    }
    let la = ax * ax + ay * ay;
    let lb = bx * bx + by * by;
    let m = if la > lb { la } else { lb };
    if m >= lim * lim {
        return None;
    }
    let s = isqrt(m as u64);
    proof {
        lemma_isqrt_small(m as int, s as int);
    }
    Some(s as u32)
}

/// The map from the pixels of a `side` pixels square to the source, through
/// the exact corners.
pub fn to_affine_transform(corners: &CornerSet, side: u32) -> (r: Affine)
    requires
        corners_ok(*corners),
        fits(*corners),
        side <= MAX_SIDE,
    ensures
        r == affine_of(*corners, side as int),
        affine_ok(r),
{
    proof {
        lemma_fitting_edges(*corners);
    }
    Affine {
        a: corners.top_right.x - corners.top_left.x,
        b: corners.bottom_left.x - corners.top_left.x,
        c: corners.top_right.y - corners.top_left.y,
        d: corners.bottom_left.y - corners.top_left.y,
        tx: corners.top_left.x,
        ty: corners.top_left.y,
        scale: if side > 0 { side as i128 } else { 1 },
        den: corners.den,
    }
}

proof fn lemma_round_in_range(n: int, d: int)
    requires
        0 < d,
        -0x4_0000_0000_0000_0000_0000_0000 < n < 0x4_0000_0000_0000_0000_0000_0000,
    ensures
        -0x4_0000_0000_0000_0000_0000_0000 < round_div(n, d) < 0x4_0000_0000_0000_0000_0000_0000,
{
    assert(-0x4_0000_0000_0000_0000_0000_0000 < (2 * n + d) / (2 * d) < 0x4_0000_0000_0000_0000_0000_0000) by (nonlinear_arith)
        requires d > 0, -0x4_0000_0000_0000_0000_0000_0000 < n < 0x4_0000_0000_0000_0000_0000_0000;
}

/// A rounded coordinate is within `d` of the exact one, scaled by `d`.
proof fn lemma_round_error(n: int, d: int)
    requires
        d > 0,
    ensures
        -d <= n - d * round_div(n, d) <= d,
{
    let q = round_div(n, d);
    let m = 2 * n + d;
    vstd::arithmetic::div_mod::lemma_fundamental_div_mod(m, 2 * d);
    vstd::arithmetic::div_mod::lemma_mod_bound(m, 2 * d);
    assert(m == (2 * d) * q + m % (2 * d));
    assert(-d <= n - d * q <= d) by (nonlinear_arith)
        requires m == 2 * n + d, m == (2 * d) * q + m % (2 * d), 0 <= m % (2 * d) < 2 * d, d > 0;
}

proof fn lemma_edge_from_rounded(x0: int, x1: int, d: int)
    requires
        0 < d < 0x4_0000_0000_0000_0000,
        -0x1_0000 < round_div(x1, d) - round_div(x0, d) < 0x1_0000,
    ensures
        -EDGE_BOUND <= x1 - x0 <= EDGE_BOUND,
{
    lemma_round_error(x0, d);
    lemma_round_error(x1, d);
    let (q0, q1) = (round_div(x0, d), round_div(x1, d));
    assert(-0x1_0002 * d <= x1 - x0 <= 0x1_0002 * d) by (nonlinear_arith)
        requires -d <= x0 - d * q0 <= d, -d <= x1 - d * q1 <= d, -0x1_0000 < q1 - q0 < 0x1_0000, d > 0;
    assert(0x1_0002 * d <= EDGE_BOUND) by (nonlinear_arith)
        requires 0 < d < 0x4_0000_0000_0000_0000;
}

/// Corners whose rounded square fits have small edge numerators.
proof fn lemma_fitting_edges(c: CornerSet)
    requires
        corners_ok(c),
        fits(c),
    ensures
        -EDGE_BOUND <= c.top_right.x - c.top_left.x <= EDGE_BOUND,
        -EDGE_BOUND <= c.top_right.y - c.top_left.y <= EDGE_BOUND,
        -EDGE_BOUND <= c.bottom_left.x - c.top_left.x <= EDGE_BOUND,
        -EDGE_BOUND <= c.bottom_left.y - c.top_left.y <= EDGE_BOUND,
{
    let (c0, c1, c2) = rounded(c);
    lemma_small_edges(c0, c1, c2);
    let d = c.den as int;
    lemma_round_in_range(c.top_left.x as int, d);
    lemma_round_in_range(c.top_left.y as int, d);
    lemma_round_in_range(c.top_right.x as int, d);
    lemma_round_in_range(c.top_right.y as int, d);
    lemma_round_in_range(c.bottom_left.x as int, d);
    lemma_round_in_range(c.bottom_left.y as int, d);
    lemma_edge_from_rounded(c.top_left.x as int, c.top_right.x as int, d);
    lemma_edge_from_rounded(c.top_left.y as int, c.top_right.y as int, d);
    lemma_edge_from_rounded(c.top_left.x as int, c.bottom_left.x as int, d);
    lemma_edge_from_rounded(c.top_left.y as int, c.bottom_left.y as int, d);
}

proof fn lemma_small_edges(c0: Point<i128>, c1: Point<i128>, c2: Point<i128>)
    requires
        max_len2(c0, c1, c2) < 0x1_0000 * 0x1_0000,
    ensures
        -0x1_0000 < c1.x - c0.x < 0x1_0000,
        -0x1_0000 < c1.y - c0.y < 0x1_0000,
        -0x1_0000 < c2.x - c0.x < 0x1_0000,
        -0x1_0000 < c2.y - c0.y < 0x1_0000,
{
    let (ax, ay, bx, by) = ((c1.x - c0.x) as int, (c1.y - c0.y) as int, (c2.x - c0.x) as int, (c2.y - c0.y) as int);
    assert(-0x1_0000 < ax < 0x1_0000 && -0x1_0000 < ay < 0x1_0000) by (nonlinear_arith)
        requires ax * ax + ay * ay < 0x1_0000 * 0x1_0000;
    assert(-0x1_0000 < bx < 0x1_0000 && -0x1_0000 < by < 0x1_0000) by (nonlinear_arith)
        requires bx * bx + by * by < 0x1_0000 * 0x1_0000;
}

proof fn lemma_abs_mul(a: int, b: int, ba: int, bb: int)
    requires
        -ba <= a <= ba,
        -bb <= b <= bb,
    ensures
        -(ba * bb) <= a * b <= ba * bb,
{
    assert(-(ba * bb) <= a * b <= ba * bb) by (nonlinear_arith)
        requires -ba <= a <= ba, -bb <= b <= bb;
}

fn trunc_div_exec(n: i128, d: i128) -> (r: i128)
    requires
        d > 0,
        n > i128::MIN,
    ensures
        r == trunc_div(n as int, d as int),
{
    if n >= 0 {
        n / d
    } else {
        -((-n) / d)
    }
}

fn sample_exec(src: &Bitmap, t: &Affine, u: u32, v: u32) -> (r: bool)
    requires
        src.wf(),
        affine_ok(*t),
    ensures
        r == sample(src, *t, u as int, v as int),
{
    proof {
        let big: int = 0x4_0000_0000_0000_0000_0000_0000;
        lemma_abs_mul(t.tx as int, t.scale as int, big, 0x1_0000);
        lemma_abs_mul(t.ty as int, t.scale as int, big, 0x1_0000);
        let e: int = EDGE_BOUND as int;
        lemma_abs_mul(t.a as int, u as int, e, 0x1_0000_0000);
        lemma_abs_mul(t.b as int, v as int, e, 0x1_0000_0000);
        lemma_abs_mul(t.c as int, u as int, e, 0x1_0000_0000);
        lemma_abs_mul(t.d as int, v as int, e, 0x1_0000_0000);
        lemma_abs_mul(t.den as int, t.scale as int, 0x4_0000_0000_0000_0000, 0x1_0000);
    }
    let nx = t.tx * t.scale + t.a * (u as i128) + t.b * (v as i128);
    let ny = t.ty * t.scale + t.c * (u as i128) + t.d * (v as i128);
    proof {
        assert(t.den * t.scale > 0) by (nonlinear_arith)
            requires t.den > 0, t.scale > 0;
    }
    let q = t.den * t.scale;
    let sx = trunc_div_exec(nx, q);
    let sy = trunc_div_exec(ny, q);
    if 0 <= sx && sx < src.width() as i128 && 0 <= sy && sy < src.height() as i128 {
        *src.get_pixel(sx as u32, sy as u32)
    } else {
        true
    }
}

proof fn lemma_row_major(vv: int, uu: int, v: int, w: int)
    requires
        0 <= vv < v,
        0 <= uu < w,
    ensures
        vv * w + uu < v * w,
{
    assert(vv * w + uu < v * w) by (nonlinear_arith)
        requires 0 <= vv < v, 0 <= uu < w;
}

/// Builds a `width` by `height` bitmap whose pixel `(u, v)` is sampled from
/// `source` through `trans`, white where it falls outside the source.
pub fn affine_transform_chunk(source: &Bitmap, trans: &Affine, width: u32, height: u32) -> (r: Bitmap)
    requires
        source.wf(),
        affine_ok(*trans),
        width * height <= u32::MAX,
    ensures
        r.wf(),
        r.w() == width,
        r.h() == height,
        forall|u: int, v: int|
            0 <= u < width && 0 <= v < height ==> #[trigger] r.pixel(u, v) == sample(
                source,
                *trans,
                u,
                v,
            ),
{
    let mut data: Vec<bool> = Vec::new();
    let mut v: u32 = 0;
    while v < height
        invariant
            source.wf(),
            affine_ok(*trans),
            width * height <= u32::MAX,
            v <= height,
            data@.len() == v * width,
            forall|vv: int, uu: int|
                0 <= vv < v && 0 <= uu < width ==> data@[vv * width + uu] == sample(
                    source,
                    *trans,
                    uu,
                    vv,
                ),
        decreases height - v,
    {
        let mut u: u32 = 0;
        while u < width
            invariant
                source.wf(),
                affine_ok(*trans),
                width * height <= u32::MAX,
                v < height,
                u <= width,
                data@.len() == v * width + u,
                forall|vv: int, uu: int|
                    0 <= vv < v && 0 <= uu < width ==> data@[vv * width + uu] == sample(
                        source,
                        *trans,
                        uu,
                        vv,
                    ),
                forall|uu: int| 0 <= uu < u ==> data@[v * width + uu] == sample(source, *trans, uu, v as int),
            decreases width - u,
        {
            let px = sample_exec(source, trans, u, v);
            let ghost before = data@;
            data.push(px);
            proof {
                assert forall|vv: int, uu: int|
                    0 <= vv < v && 0 <= uu < width implies data@[vv * width + uu] == sample(
                        source,
                        *trans,
                        uu,
                        vv,
                    ) by {
                    lemma_row_major(vv, uu, v as int, width as int);
                    assert(data@[vv * width + uu] == before[vv * width + uu]);
                }
            }
            u = u + 1;
        }
        proof {
            assert((v + 1) * width == v * width + width) by (nonlinear_arith);
            assert forall|vv: int, uu: int|
                0 <= vv < v + 1 && 0 <= uu < width implies data@[vv * width + uu] == sample(
                    source,
                    *trans,
                    uu,
                    vv,
                ) by {
                if vv < v {
                } else {
                    assert(vv == v);
                }
            }
        }
        v = v + 1;
    }
    proof {
        assert(data@.len() == width * height) by (nonlinear_arith)
            requires data@.len() == height * width;
    }
    let r = Bitmap::from_pixels(width, height, data);
    proof {
        assert forall|u: int, v: int|
            0 <= u < width && 0 <= v < height implies #[trigger] r.pixel(u, v) == sample(
                source,
                *trans,
                u,
                v,
            ) by {
            lemma_index_in_grid(u, v, width as int, height as int);
        }
    }
    r
}

/// The corners rounded to whole pixels, in the order top-left, top-right,
/// bottom-left.
pub open spec fn rounded(c: CornerSet) -> (Point<i128>, Point<i128>, Point<i128>) {
    (
        round_point(c.top_left, c.den as int),
        round_point(c.top_right, c.den as int),
        round_point(c.bottom_left, c.den as int),
    )
}

/// The rounded corners frame a square that fits in a bitmap: the longer
/// edge is under 65536 pixels.
pub open spec fn fits(c: CornerSet) -> bool {
    let (c0, c1, c2) = rounded(c);
    max_len2(c0, c1, c2) < 0x1_0000 * 0x1_0000
}

/// `b` is the code framed by `c` resampled from `src`: a square whose side
/// is the integer part of the longer edge between rounded corners, each
/// pixel sampled through the map that the exact corners give.
pub open spec fn is_rectified(src: &Bitmap, c: CornerSet, b: Bitmap) -> bool {
    let (c0, c1, c2) = rounded(c);
    &&& b.wf()
    &&& b.w() == b.h()
    &&& is_isqrt(max_len2(c0, c1, c2), b.w() as int)
    &&& forall|u: int, v: int|
        0 <= u < b.w() && 0 <= v < b.h() ==> #[trigger] b.pixel(u, v) == sample(
            src,
            affine_of(c, b.w() as int),
            u,
            v,
        )
}

/// Resamples the code framed by `corners` into an upright square bitmap, or
/// returns `None` when the square would not fit in a bitmap.
pub fn rectify(source: &Bitmap, corners: &CornerSet) -> (r: Option<Bitmap>)
    requires
        source.wf(),
        corners_ok(*corners),
    ensures
        r.is_some() == fits(*corners),
        r.is_some() ==> is_rectified(source, *corners, r.unwrap()),
{
    let c0 = round_corner(corners.top_left, corners.den);
    let c1 = round_corner(corners.top_right, corners.den);
    let c2 = round_corner(corners.bottom_left, corners.den);
    match to_side_len(c0, c1, c2) {
        None => None,
        Some(side) => {
            let trans = to_affine_transform(corners, side);
            proof {
                assert(side * side <= u32::MAX) by (nonlinear_arith)
                    requires side <= MAX_SIDE;
            }
            Some(affine_transform_chunk(source, &trans, side, side))
        },
    }
}

} // verus!
