//! Properties that relate several functions of the library, or hold of
//! every input.

use vstd::prelude::*;
use crate::Point;
use crate::bitmap::Bitmap;
use crate::binarize::{histo_ok, threshold_of, thresh_iter, next_thresh, lemma_threshold_in_range, lemma_next_thresh_in_range, LEVELS, SEED_THRESH};
use crate::corners::{CornerSet, corners_spec, cross, meet_spec, pick_points_spec, roles, top_left_index, up_of, down_of, left_of, right_of};
use crate::target::Target;
use crate::rectify::{fits, rounded, max_len2, is_isqrt, affine_of, sample, source_of, round_div, trunc_div};

verus! {

/// For every histogram the binarization threshold is a luma level in
/// `[0, 255]`; the search that finds it always ends (its loop carries a
/// decreasing measure).
pub proof fn lemma_threshold_is_level(h: Seq<u64>)
    requires
        histo_ok(h),
    ensures
        0 <= threshold_of(h) <= 255,
{
    lemma_threshold_in_range(h, 128, LEVELS as nat);
}

/// The threshold after `k` steps of the unbounded search from the seed.
pub open spec fn walk(h: Seq<u64>, k: nat) -> int
    decreases k,
{
    if k == 0 {
        SEED_THRESH as int
    } else {
        next_thresh(h, walk(h, (k - 1) as nat))
    }
}

proof fn lemma_walk_in_range(h: Seq<u64>, k: nat)
    requires
        h.len() == LEVELS,
    ensures
        0 <= walk(h, k) <= 255,
    decreases k,
{
    if k > 0 {
        lemma_walk_in_range(h, (k - 1) as nat);
        lemma_next_thresh_in_range(h, walk(h, (k - 1) as nat));
    }
}

/// Equal thresholds lead to equal thresholds.
proof fn lemma_walk_shift(h: Seq<u64>, i: nat, j: nat, m: nat)
    requires
        walk(h, i) == walk(h, j),
    ensures
        walk(h, i + m) == walk(h, j + m),
    decreases m,
{
    if m > 0 {
        lemma_walk_shift(h, i, j, (m - 1) as nat);
        assert(walk(h, i + m) == next_thresh(h, walk(h, (i + m - 1) as nat)));
        assert(walk(h, j + m) == next_thresh(h, walk(h, (j + m - 1) as nat)));
    }
}

/// Once the walk stands still it stays.
proof fn lemma_walk_stays(h: Seq<u64>, k: nat, m: nat)
    requires
        next_thresh(h, walk(h, k)) == walk(h, k),
    ensures
        walk(h, k + m) == walk(h, k),
    decreases m,
{
    if m > 0 {
        lemma_walk_stays(h, k, (m - 1) as nat);
    }
}

/// A walk that stands still at step `k` stands still first at some step
/// no later than `k`.
proof fn lemma_first_fixed(h: Seq<u64>, k: nat) -> (k0: nat)
    requires
        next_thresh(h, walk(h, k)) == walk(h, k),
    ensures
        k0 <= k,
        next_thresh(h, walk(h, k0)) == walk(h, k0),
        forall|i: nat| i < k0 ==> next_thresh(h, #[trigger] walk(h, i)) != walk(h, i),
    decreases k,
{
    if k == 0 {
        0
    } else if next_thresh(h, walk(h, (k - 1) as nat)) == walk(h, (k - 1) as nat) {
        lemma_first_fixed(h, (k - 1) as nat)
    } else {
        assert forall|i: nat| i < k implies next_thresh(h, #[trigger] walk(h, i)) != walk(h, i) by {
            if next_thresh(h, walk(h, i)) == walk(h, i) {
                lemma_walk_stays(h, i, (k - 1 - i) as nat);
            }
        }
        k
    }
}

/// The bounded search from step `i` of the walk goes on as the walk does
/// while the walk moves.
proof fn lemma_iter_follows_walk(h: Seq<u64>, i: nat, k0: nat, fuel: nat)
    requires
        i <= k0,
        k0 - i <= fuel,
        forall|j: nat| j < k0 ==> next_thresh(h, #[trigger] walk(h, j)) != walk(h, j),
    ensures
        thresh_iter(h, walk(h, i), fuel) == thresh_iter(h, walk(h, k0), (fuel - (k0 - i)) as nat),
    decreases k0 - i,
{
    if i < k0 {
        assert(next_thresh(h, walk(h, i)) != walk(h, i));
        assert(walk(h, i + 1) == next_thresh(h, walk(h, i)));
        lemma_iter_follows_walk(h, i + 1, k0, (fuel - 1) as nat);
    }
}

/// If the unbounded search from the seed ever stands still (the walk
/// reaches a threshold that maps to itself), the threshold returned is that
/// fixed point: the walk moves through distinct levels until it stops, so
/// it stops within the 256 steps that the bounded search allows.
pub proof fn lemma_threshold_is_fixed_point(h: Seq<u64>, k: nat)
    requires
        histo_ok(h),
        next_thresh(h, walk(h, k)) == walk(h, k),
    ensures
        threshold_of(h) == walk(h, k),
        next_thresh(h, threshold_of(h)) == threshold_of(h),
{
    let k0 = lemma_first_fixed(h, k);
    // The thresholds before the first fixed one are pairwise distinct.
    let s = Seq::new(k0 + 1, |i: int| walk(h, i as nat));
    assert forall|i: int, j: int| 0 <= i < j < s.len() implies s[i] != s[j] by {
        if s[i] == s[j] {
            lemma_walk_shift(h, i as nat, j as nat, (k0 - j) as nat);
            let e = (i + k0 - j) as nat;
            assert(walk(h, e) == walk(h, k0));
            assert(e < k0);
            assert(next_thresh(h, walk(h, e)) != walk(h, e));
        }
    }
    assert(s.no_duplicates());
    s.unique_seq_to_set();
    assert forall|v: int| s.to_set().contains(v) implies vstd::set_lib::set_int_range(0, 256).contains(v) by {
        let i = choose|i: int| 0 <= i < s.len() && s[i] == v;
        lemma_walk_in_range(h, i as nat);
    }
    vstd::set_lib::lemma_int_range(0, 256);
    vstd::set_lib::lemma_len_subset(s.to_set(), vstd::set_lib::set_int_range(0, 256));
    assert(k0 < 256);
    lemma_iter_follows_walk(h, 0, k0, LEVELS as nat);
    lemma_walk_stays(h, k0, (k - k0) as nat);
    assert(walk(h, k) == walk(h, k0));
}

/// A bitmap of width `W` and height `H` has exactly `H` rows of `W` pixels
/// each, and they are its pixels row after row.
pub proof fn lemma_rows_shape(b: &Bitmap)
    requires
        b.wf(),
    ensures
        b.row_seq().len() == b.h(),
        forall|i: int| 0 <= i < b.h() ==> (#[trigger] b.row_seq()[i]).len() == b.w(),
        forall|i: int, j: int|
            0 <= i < b.h() && 0 <= j < b.w() ==> b.row_seq()[i][j] == b.pixel(j, i),
{
    assert forall|i: int| 0 <= i < b.h() implies (#[trigger] b.row_seq()[i]).len() == b.w() by {
        crate::bitmap::lemma_row_in_grid(i, b.w() as int, b.h() as int);
    }
    assert forall|i: int, j: int| 0 <= i < b.h() && 0 <= j < b.w() implies b.row_seq()[i][j]
        == b.pixel(j, i) by {
        crate::bitmap::lemma_row_in_grid(i, b.w() as int, b.h() as int);
    }
}

/// The rows in the order that repeated `next_back` hands them out: each
/// call yields the last row left and drops it.
pub open spec fn back_order(s: Seq<Seq<bool>>) -> Seq<Seq<bool>>
    decreases s.len(),
{
    if s.len() == 0 {
        Seq::empty()
    } else {
        seq![s.last()] + back_order(s.drop_last())
    }
}

/// Walking rows from the back yields exactly the reverse of walking them
/// from the front.
pub proof fn lemma_back_order_is_reverse(s: Seq<Seq<bool>>)
    ensures
        back_order(s).len() == s.len(),
        forall|i: int| 0 <= i < s.len() ==> back_order(s)[i] == s[s.len() - 1 - i],
    decreases s.len(),
{
    if s.len() > 0 {
        lemma_back_order_is_reverse(s.drop_last());
        assert forall|i: int| 0 <= i < s.len() implies back_order(s)[i] == s[s.len() - 1 - i] by {
            if i > 0 {
                assert(back_order(s)[i] == back_order(s.drop_last())[i - 1]);
            }
        }
    }
}

/// The corners of an axis-aligned square of side `s` with top-left corner
/// `(x0, y0)`.
pub open spec fn square_corners(x0: i128, y0: i128, s: i128) -> CornerSet {
    CornerSet {
        top_left: Point { x: x0, y: y0 },
        top_right: Point { x: (x0 + s) as i128, y: y0 },
        bottom_left: Point { x: x0, y: (y0 + s) as i128 },
        den: 1,
    }
}

proof fn lemma_isqrt_unique(s: int, r: int)
    requires
        0 <= s,
        is_isqrt(s * s, r),
    ensures
        r == s,
{
    if r < s {
        assert((r + 1) * (r + 1) <= s * s) by (nonlinear_arith)
            requires 0 <= r < s;
    } else if r > s {
        assert(r * r > s * s) by (nonlinear_arith)
            requires 0 <= s < r;
    }
}

proof fn lemma_trunc_multiple(k: int, s: int)
    requires
        s > 0,
    ensures
        trunc_div(s * k, s) == k,
{
    vstd::arithmetic::div_mod::lemma_div_multiples_vanish(k, s);
    vstd::arithmetic::div_mod::lemma_div_multiples_vanish(-k, s);
    if k >= 0 {
        assert(s * k >= 0) by (nonlinear_arith)
            requires s > 0, k >= 0;
    } else {
        assert(s * k < 0) by (nonlinear_arith)
            requires s > 0, k < 0;
        assert(-(s * k) == s * (-k)) by (nonlinear_arith);
    }
}

/// Rectifying through the corners of an axis-aligned, unskewed square
/// reproduces that square of the source pixel for pixel, white where the
/// square leaves the source.
pub proof fn lemma_square_round_trip(src: &Bitmap, x0: i128, y0: i128, s: i128, b: Bitmap)
    requires
        src.wf(),
        0 < s <= 65535,
        -0x1_0000_0000 < x0 < 0x1_0000_0000,
        -0x1_0000_0000 < y0 < 0x1_0000_0000,
        crate::rectify::is_rectified(src, square_corners(x0, y0, s), b),
    ensures
        fits(square_corners(x0, y0, s)),
        b.w() == s && b.h() == s,
        forall|u: int, v: int|
            0 <= u < s && 0 <= v < s ==> #[trigger] b.pixel(u, v) == if src.in_bounds(x0 + u, y0 + v) {
                src.pixel(x0 + u, y0 + v)
            } else {
                true
            },
{
    let c = square_corners(x0, y0, s);
    let (c0, c1, c2) = rounded(c);
    assert forall|n: int| #![auto] round_div(n, 1) == n by {
        assert((2 * n + 1) / 2 == n);
    }
    assert(c0 == c.top_left);
    assert(c1 == c.top_right);
    assert(c2 == c.bottom_left);
    assert(c1.x == x0 + s && c1.y == y0);
    assert(c2.x == x0 && c2.y == y0 + s);
    assert(crate::rectify::len2(c0, c1) == s * s) by (nonlinear_arith)
        requires c1.x == c0.x + s, c1.y == c0.y,
            crate::rectify::len2(c0, c1) == (c1.x - c0.x) * (c1.x - c0.x) + (c1.y - c0.y) * (c1.y - c0.y);
    assert(crate::rectify::len2(c0, c2) == s * s) by (nonlinear_arith)
        requires c2.y == c0.y + s, c2.x == c0.x,
            crate::rectify::len2(c0, c2) == (c2.x - c0.x) * (c2.x - c0.x) + (c2.y - c0.y) * (c2.y - c0.y);
    assert(max_len2(c0, c1, c2) == s * s);
    assert(s * s < 0x1_0000 * 0x1_0000) by (nonlinear_arith)
        requires 0 < s <= 65535;
    lemma_isqrt_unique(s as int, b.w() as int);
    let t = affine_of(c, s as int);
    assert(t.den * t.scale == s) by (nonlinear_arith)
        requires t.den == 1, t.scale == s;
    assert forall|u: int, v: int| 0 <= u < s && 0 <= v < s implies source_of(t, u, v) == (
        x0 + u,
        y0 + v,
    ) by {
        assert(t.tx * t.scale + t.a * u + t.b * v == s * (x0 + u)) by (nonlinear_arith)
            requires t.tx == x0, t.scale == s, t.a == s, t.b == 0;
        assert(t.ty * t.scale + t.c * u + t.d * v == s * (y0 + v)) by (nonlinear_arith)
            requires t.ty == y0, t.scale == s, t.c == 0, t.d == s;
        lemma_trunc_multiple(x0 + u, s as int);
        lemma_trunc_multiple(y0 + v, s as int);
    }
    assert forall|u: int, v: int| 0 <= u < s && 0 <= v < s implies #[trigger] b.pixel(u, v) == if src.in_bounds(
        x0 + u,
        y0 + v,
    ) {
        src.pixel(x0 + u, y0 + v)
    } else {
        true
    } by {
        assert(b.pixel(u, v) == sample(src, t, u, v));
    }
}

/// Markers whose middles form an axis-aligned right angle at the first one
/// (the second to its right, the third below it) frame a rectangle: the
/// corners are the first marker's top-left box corner, the second's
/// top-right one and the third's bottom-left one, in that order, over the
/// denominator `(second.x - first.x) * (third.y - first.y)`.
pub proof fn lemma_upright_corners(tl: Target<u32>, tr: Target<u32>, bl: Target<u32>)
    requires
        tr.mid.y == tl.mid.y,
        tr.mid.x > tl.mid.x,
        bl.mid.x == tl.mid.x,
        bl.mid.y > tl.mid.y,
    ensures
        ({
            let d = (tr.mid.x - tl.mid.x) * (bl.mid.y - tl.mid.y);
            corners_spec(seq![tl, tr, bl]) == Some(
                CornerSet {
                    top_left: Point { x: (tl.min.x * d) as i128, y: (tl.min.y * d) as i128 },
                    top_right: Point { x: (tr.max.x * d) as i128, y: (tr.min.y * d) as i128 },
                    bottom_left: Point { x: (bl.min.x * d) as i128, y: (bl.max.y * d) as i128 },
                    den: d as i128,
                },
            )
        }),
{
    let t = seq![tl, tr, bl];
    let a: int = tr.mid.x - tl.mid.x;
    let b: int = bl.mid.y - tl.mid.y;
    let d = a * b;
    assert(0 < a < 0x1_0000_0000 && 0 < b < 0x1_0000_0000);
    assert(0 < d < 0x1_0000_0000 * 0x1_0000_0000) by (nonlinear_arith)
        requires d == a * b, 0 < a < 0x1_0000_0000, 0 < b < 0x1_0000_0000;
    // The longest side faces the first marker.
    assert(crate::corners::dist2(t[1], t[2]) == a * a + b * b) by (nonlinear_arith)
        requires t[1] == tr, t[2] == bl, a == tr.mid.x - tl.mid.x, b == bl.mid.y - tl.mid.y,
            tr.mid.y == tl.mid.y, bl.mid.x == tl.mid.x,
            crate::corners::dist2(t[1], t[2]) == (t[1].mid.x - t[2].mid.x) * (t[1].mid.x - t[2].mid.x)
                + (t[1].mid.y - t[2].mid.y) * (t[1].mid.y - t[2].mid.y);
    assert(crate::corners::dist2(t[2], t[0]) == b * b) by (nonlinear_arith)
        requires t[0] == tl, t[2] == bl, b == bl.mid.y - tl.mid.y, bl.mid.x == tl.mid.x,
            crate::corners::dist2(t[2], t[0]) == (t[2].mid.x - t[0].mid.x) * (t[2].mid.x - t[0].mid.x)
                + (t[2].mid.y - t[0].mid.y) * (t[2].mid.y - t[0].mid.y);
    assert(crate::corners::dist2(t[0], t[1]) == a * a) by (nonlinear_arith)
        requires t[0] == tl, t[1] == tr, a == tr.mid.x - tl.mid.x, tr.mid.y == tl.mid.y,
            crate::corners::dist2(t[0], t[1]) == (t[0].mid.x - t[1].mid.x) * (t[0].mid.x - t[1].mid.x)
                + (t[0].mid.y - t[1].mid.y) * (t[0].mid.y - t[1].mid.y);
    assert(a * a > 0 && b * b > 0) by (nonlinear_arith)
        requires a > 0, b > 0;
    assert(top_left_index(t) == 0);
    // The second marker is top-right.
    assert(cross(a, 0, 0, b) == d);
    assert(t[(0int + 1) % 3] == tr && t[(0int + 2) % 3] == bl);
    assert(roles(t) == (tl, tr, bl));
    let h = Point { x: a as i128, y: 0i128 };
    let v = Point { x: 0i128, y: b as i128 };
    assert(cross(h.x as int, h.y as int, v.x as int, v.y as int) == d);
    // Edge points: top sides along the top edge, left sides along the left.
    assert(a * (-((bl.mid.x - tr.mid.x) * 0 - (bl.mid.y - tr.mid.y) * a)) > 0) by (nonlinear_arith)
        requires a > 0, bl.mid.y - tr.mid.y == b, b > 0;
    assert(pick_points_spec(tl, tr, bl, a, 0) == (up_of(tl), up_of(tr), right_of(tr)));
    assert(b * ((tr.mid.x - bl.mid.x) * b - (tr.mid.y - bl.mid.y) * 0) > 0) by (nonlinear_arith)
        requires b > 0, tr.mid.x - bl.mid.x == a, a > 0;
    assert(pick_points_spec(tl, bl, tr, 0, b) == (left_of(tl), left_of(bl), down_of(bl)));
    // Each corner is where a horizontal and a vertical edge meet.
    assert forall|px: int, py: int, qx: int, qy: int|
        -0x1_0000_0000 < px < 0x1_0000_0000 && -0x1_0000_0000 < py < 0x1_0000_0000
            && -0x1_0000_0000 < qx < 0x1_0000_0000 && -0x1_0000_0000 < qy < 0x1_0000_0000
        implies #[trigger] meet_spec(
            Point { x: px as i128, y: py as i128 },
            Point { x: qx as i128, y: qy as i128 },
            h,
            v,
        ) == Point { x: (qx * d) as i128, y: (py * d) as i128 } by {
        let n = cross(qx - px, qy - py, 0, b);
        assert(n == (qx - px) * b) by (nonlinear_arith)
            requires n == cross(qx - px, qy - py, 0, b);
        assert(px * d + a * n == qx * d) by (nonlinear_arith)
            requires n == (qx - px) * b, d == a * b;
        assert(py * d + 0 * n == py * d) by (nonlinear_arith);
    }
    assert(meet_spec(up_of(tl), left_of(tl), h, v) == Point { x: (tl.min.x * d) as i128, y: (tl.min.y * d) as i128 });
    assert(meet_spec(up_of(tr), right_of(tr), h, v) == Point { x: (tr.max.x * d) as i128, y: (tr.min.y * d) as i128 });
    assert(meet_spec(down_of(bl), left_of(bl), h, v) == Point { x: (bl.min.x * d) as i128, y: (bl.max.y * d) as i128 });
}

} // verus!
