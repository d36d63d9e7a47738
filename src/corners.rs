//! From three finder markers to three outer corners of the code, in exact
//! integer geometry.
//!
//! The marker whose inner angle is largest is taken as the top-left one; in
//! a triangle the largest angle is the one opposite the longest side, so
//! the choice compares squared distances. Which neighbour is top-right
//! follows from the sign of a cross product. Corners are intersections of
//! lines given by a point and a direction; they are rational, so they are
//! returned as numerators over one shared positive denominator.

use vstd::prelude::*;
use crate::Point;
use crate::target::Target;

verus! {

/// Three outer corners of a code: each coordinate is the numerator of a
/// fraction over `den`.
#[derive(Clone, Copy, Debug)]
pub struct CornerSet {
    pub top_left: Point<i128>,
    pub top_right: Point<i128>,
    pub bottom_left: Point<i128>,
    pub den: i128,
}

/// Coordinates of markers fit in a `u32`, so differences fit in this bound.
pub open spec fn small(v: int) -> bool {
    -0x1_0000_0000 < v < 0x1_0000_0000
}

pub open spec fn cross(ax: int, ay: int, bx: int, by: int) -> int {
    ax * by - ay * bx
}

/// The squared distance between the middles of two markers.
pub open spec fn dist2(a: Target<u32>, b: Target<u32>) -> int {
    let dx = a.mid.x - b.mid.x;
    let dy = a.mid.y - b.mid.y;
    dx * dx + dy * dy
}

/// The index of the largest of three values; on a tie with a later value
/// the later one wins, except that a tie of the first two is settled by the
/// third alone.
pub open spec fn max3_spec(l0: int, l1: int, l2: int) -> int {
    if l0 < l1 {
        if l1 < l2 { 2 } else { 1 }
    } else {
        if l0 < l2 { 2 } else { 0 }
    }
}

/// The index of the marker taken as top-left: the one facing the longest
/// side of the triangle of marker middles.
pub open spec fn top_left_index(t: Seq<Target<u32>>) -> int {
    max3_spec(dist2(t[1], t[2]), dist2(t[2], t[0]), dist2(t[0], t[1]))
}

/// The markers in the roles top-left, top-right, bottom-left. With y
/// pointing down, the bottom-left marker lies clockwise on screen from the
/// top-right one as seen from the top-left one: the cross product of the
/// directions to top-right and to bottom-left is not negative.
pub open spec fn roles(t: Seq<Target<u32>>) -> (Target<u32>, Target<u32>, Target<u32>) {
    let i = top_left_index(t);
    let tl = t[i];
    let a = t[(i + 1) % 3];
    let b = t[(i + 2) % 3];
    let c = cross(a.mid.x - tl.mid.x, a.mid.y - tl.mid.y, b.mid.x - tl.mid.x, b.mid.y - tl.mid.y);
    if c < 0 {
        (tl, b, a)
    } else {
        (tl, a, b)
    }
}

pub open spec fn ip(p: Point<u32>) -> Point<i128> {
    Point { x: p.x as i128, y: p.y as i128 }
}

pub open spec fn left_of(t: Target<u32>) -> Point<i128> {
    ip(Point { x: t.min.x, y: t.mid.y })
}

pub open spec fn right_of(t: Target<u32>) -> Point<i128> {
    ip(Point { x: t.max.x, y: t.mid.y })
}

pub open spec fn up_of(t: Target<u32>) -> Point<i128> {
    ip(Point { x: t.mid.x, y: t.min.y })
}

pub open spec fn down_of(t: Target<u32>) -> Point<i128> {
    ip(Point { x: t.mid.x, y: t.max.y })
}

/// Points on the outer edges of the code near `targ`, an end of the edge
/// from the top-left marker `tl` with direction `(dx, dy)`; `other` is the
/// third marker. Returns a point of `tl` on the edge line, a point of `targ`
/// on that line, and a point of `targ` on the far edge across it.
///
/// A steep edge (`|dy| > |dx|`) is met at the markers' left or right sides,
/// facing away from `other`; a flat one at their top or bottom sides.
pub open spec fn pick_points_spec(
    tl: Target<u32>,
    targ: Target<u32>,
    other: Target<u32>,
    dx: int,
    dy: int,
) -> (Point<i128>, Point<i128>, Point<i128>) {
    let e = (other.mid.x - targ.mid.x) * dy - (other.mid.y - targ.mid.y) * dx;
    let ady = if dy < 0 { -dy } else { dy };
    let adx = if dx < 0 { -dx } else { dx };
    if ady > adx {
        let to_right = dy * e > 0;
        let corner = if to_right { left_of(tl) } else { right_of(tl) };
        let near = if to_right { left_of(targ) } else { right_of(targ) };
        let far = if other.mid.y > targ.mid.y { up_of(targ) } else { down_of(targ) };
        (corner, near, far)
    } else {
        let below = dx * (-e) > 0;
        let corner = if below { up_of(tl) } else { down_of(tl) };
        let near = if below { up_of(targ) } else { down_of(targ) };
        let far = if other.mid.x > targ.mid.x { left_of(targ) } else { right_of(targ) };
        (corner, near, far)
    }
}

/// Where the line through `pa` with direction `h` meets the line through
/// `pb` with direction `v`, scaled by `|cross(h, v)|`.
pub open spec fn meet_spec(pa: Point<i128>, pb: Point<i128>, h: Point<i128>, v: Point<i128>) -> Point<i128> {
    let d = cross(h.x as int, h.y as int, v.x as int, v.y as int);
    let n = cross((pb.x - pa.x) as int, (pb.y - pa.y) as int, v.x as int, v.y as int);
    let x = pa.x * d + h.x * n;
    let y = pa.y * d + h.y * n;
    if d < 0 {
        Point { x: (-x) as i128, y: (-y) as i128 }
    } else {
        Point { x: x as i128, y: y as i128 }
    }
}

/// The corners of the code framed by three markers, or `None` when there
/// are not exactly three or their middles are collinear (the edge lines
/// would not meet).
pub open spec fn corners_spec(t: Seq<Target<u32>>) -> Option<CornerSet> {
    if t.len() != 3 {
        None
    } else {
        let (tl, tr, bl) = roles(t);
        let h = Point { x: (tr.mid.x - tl.mid.x) as i128, y: (tr.mid.y - tl.mid.y) as i128 };
        let v = Point { x: (bl.mid.x - tl.mid.x) as i128, y: (bl.mid.y - tl.mid.y) as i128 };
        let d = cross(h.x as int, h.y as int, v.x as int, v.y as int);
        if d == 0 {
            None
        } else {
            let (in_top, out_top, right) = pick_points_spec(tl, tr, bl, h.x as int, h.y as int);
            let (in_left, out_left, bottom) = pick_points_spec(tl, bl, tr, v.x as int, v.y as int);
            Some(
                CornerSet {
                    top_left: meet_spec(in_top, in_left, h, v),
                    top_right: meet_spec(out_top, right, h, v),
                    bottom_left: meet_spec(bottom, out_left, h, v),
                    den: (if d < 0 { -d } else { d }) as i128,
                },
            )
        }
    }
}

fn max3(l0: i128, l1: i128, l2: i128) -> (r: usize)
    ensures
        r == max3_spec(l0 as int, l1 as int, l2 as int),
{
    if l0 < l1 {
        if l1 < l2 { 2 } else { 1 }
    } else {
        if l0 < l2 { 2 } else { 0 }
    }
}

proof fn lemma_mul_bound(a: int, b: int, ba: int, bb: int)
    requires
        -ba < a < ba,
        -bb < b < bb,
    ensures
        -(ba * bb) < a * b < ba * bb,
{
    assert(-(ba * bb) < a * b < ba * bb) by (nonlinear_arith)
        requires -ba < a < ba, -bb < b < bb;
}

fn dist2_exec(a: Target<u32>, b: Target<u32>) -> (r: i128)
    ensures
        r == dist2(a, b),
{
    let dx = a.mid.x as i128 - b.mid.x as i128;
    let dy = a.mid.y as i128 - b.mid.y as i128;
    proof {
        lemma_mul_bound(dx as int, dx as int, 0x1_0000_0000, 0x1_0000_0000);
        lemma_mul_bound(dy as int, dy as int, 0x1_0000_0000, 0x1_0000_0000);
    }
    dx * dx + dy * dy
}

fn pt(p: Point<u32>) -> (r: Point<i128>)
    ensures
        r == ip(p),
{
    Point { x: p.x as i128, y: p.y as i128 }
}

fn pick_points(tl: Target<u32>, targ: Target<u32>, other: Target<u32>, dx: i128, dy: i128) -> (r: (
    Point<i128>,
    Point<i128>,
    Point<i128>,
))
    requires
        small(dx as int),
        small(dy as int),
    ensures
        r == pick_points_spec(tl, targ, other, dx as int, dy as int),
{
    let ox = other.mid.x as i128 - targ.mid.x as i128;
    let oy = other.mid.y as i128 - targ.mid.y as i128;
    proof {
        lemma_mul_bound(ox as int, dy as int, 0x1_0000_0000, 0x1_0000_0000);
        lemma_mul_bound(oy as int, dx as int, 0x1_0000_0000, 0x1_0000_0000);
    }
    let e = ox * dy - oy * dx;
    let ady = if dy < 0 { -dy } else { dy };
    let adx = if dx < 0 { -dx } else { dx };
    if ady > adx {
        let to_right = (dy > 0 && e > 0) || (dy < 0 && e < 0);
        proof {
            assert(to_right == (dy * e > 0)) by (nonlinear_arith)
                requires to_right == ((dy > 0 && e > 0) || (dy < 0 && e < 0));
        }
        let corner = if to_right { pt(tl.left()) } else { pt(tl.right()) };
        let near = if to_right { pt(targ.left()) } else { pt(targ.right()) };
        let far = if other.mid.y > targ.mid.y { pt(targ.up()) } else { pt(targ.down()) };
        (corner, near, far)
    } else {
        let below = (dx > 0 && e < 0) || (dx < 0 && e > 0);
        proof {
            assert(below == (dx * (-e) > 0)) by (nonlinear_arith)
                requires below == ((dx > 0 && e < 0) || (dx < 0 && e > 0));
        }
        let corner = if below { pt(tl.up()) } else { pt(tl.down()) };
        let near = if below { pt(targ.up()) } else { pt(targ.down()) };
        let far = if other.mid.x > targ.mid.x { pt(targ.left()) } else { pt(targ.right()) };
        (corner, near, far)
    }
}

/// Both coordinates of `p` lie below `2^98` in magnitude, as corner
/// numerators do.
pub open spec fn bounded(p: Point<i128>) -> bool {
    -0x4_0000_0000_0000_0000_0000_0000 < p.x < 0x4_0000_0000_0000_0000_0000_0000
        && -0x4_0000_0000_0000_0000_0000_0000 < p.y < 0x4_0000_0000_0000_0000_0000_0000
}

/// The corners are bounded and their denominator positive.
pub open spec fn corners_ok(c: CornerSet) -> bool {
    &&& 0 < c.den < 0x4_0000_0000_0000_0000
    &&& bounded(c.top_left)
    &&& bounded(c.top_right)
    &&& bounded(c.bottom_left)
}

/// A point whose coordinates are marker coordinates.
pub open spec fn on_grid(p: Point<i128>) -> bool {
    0 <= p.x < 0x1_0000_0000 && 0 <= p.y < 0x1_0000_0000
}

/// Where the line through `pa` with direction `h` meets the line through
/// `pb` with direction `v`, scaled by `|d|`, where `d = cross(h, v)`.
fn intersect(pa: Point<i128>, pb: Point<i128>, h: Point<i128>, v: Point<i128>, d: i128) -> (r: Point<i128>)
    requires
        on_grid(pa),
        on_grid(pb),
        small(h.x as int) && small(h.y as int),
        small(v.x as int) && small(v.y as int),
        d == cross(h.x as int, h.y as int, v.x as int, v.y as int),
    ensures
        r == meet_spec(pa, pb, h, v),
        bounded(r),
{
    let ghost big: int = 0x2_0000_0000_0000_0000;
    proof {
        lemma_mul_bound(h.x as int, v.y as int, 0x1_0000_0000, 0x1_0000_0000);
        lemma_mul_bound(h.y as int, v.x as int, 0x1_0000_0000, 0x1_0000_0000);
    }
    let qx = pb.x - pa.x;
    let qy = pb.y - pa.y;
    proof {
        lemma_mul_bound(qx as int, v.y as int, 0x1_0000_0000, 0x1_0000_0000);
        lemma_mul_bound(qy as int, v.x as int, 0x1_0000_0000, 0x1_0000_0000);
    }
    let n = qx * v.y - qy * v.x;
    proof {
        lemma_mul_bound(pa.x as int, d as int, 0x1_0000_0000, big);
        lemma_mul_bound(pa.y as int, d as int, 0x1_0000_0000, big);
        lemma_mul_bound(h.x as int, n as int, 0x1_0000_0000, big);
        lemma_mul_bound(h.y as int, n as int, 0x1_0000_0000, big);
    }
    let x = pa.x * d + h.x * n;
    let y = pa.y * d + h.y * n;
    if d < 0 {
        Point { x: -x, y: -y }
    } else {
        Point { x, y }
    }
}

/// Given the finder markers of a frame, finds three outer corners of the
/// code: top-left, top-right and bottom-left. Returns `None` unless there
/// are exactly three markers whose middles are not collinear.
#[verifier::rlimit(60)]
pub fn pick_corners(targets: &Vec<Target<u32>>) -> (r: Option<CornerSet>)
    ensures
        r == corners_spec(targets@),
        r.is_some() == (targets@.len() == 3 && ({
            let (tl, tr, bl) = roles(targets@);
            cross(
                tr.mid.x - tl.mid.x,
                tr.mid.y - tl.mid.y,
                bl.mid.x - tl.mid.x,
                bl.mid.y - tl.mid.y,
            ) != 0
        })),
        r.is_some() ==> corners_ok(r.unwrap()),
{
    if targets.len() != 3 {
        return None;
    }
    let ghost t = targets@;
    let t0 = targets[0];
    let t1 = targets[1];
    let t2 = targets[2];
    let tl_index = max3(dist2_exec(t1, t2), dist2_exec(t2, t0), dist2_exec(t0, t1));
    let tl = targets[tl_index];
    let a = targets[(tl_index + 1) % 3];
    let b = targets[(tl_index + 2) % 3];
    let ax = a.mid.x as i128 - tl.mid.x as i128;
    let ay = a.mid.y as i128 - tl.mid.y as i128;
    let bx = b.mid.x as i128 - tl.mid.x as i128;
    let by = b.mid.y as i128 - tl.mid.y as i128;
    proof {
        lemma_mul_bound(ax as int, by as int, 0x1_0000_0000, 0x1_0000_0000);
        lemma_mul_bound(ay as int, bx as int, 0x1_0000_0000, 0x1_0000_0000);
    }
    let c = ax * by - ay * bx;
    let (top_right, bot_left) = if c < 0 { (b, a) } else { (a, b) };
    let h = Point { x: top_right.mid.x as i128 - tl.mid.x as i128, y: top_right.mid.y as i128 - tl.mid.y as i128 };
    let v = Point { x: bot_left.mid.x as i128 - tl.mid.x as i128, y: bot_left.mid.y as i128 - tl.mid.y as i128 };
    proof {
        lemma_mul_bound(h.x as int, v.y as int, 0x1_0000_0000, 0x1_0000_0000);
        lemma_mul_bound(h.y as int, v.x as int, 0x1_0000_0000, 0x1_0000_0000);
    }
    let d = h.x * v.y - h.y * v.x;
    if d == 0 {
        return None;
    }
    let (in_top, out_top, right) = pick_points(tl, top_right, bot_left, h.x, h.y);
    let (in_left, out_left, bottom) = pick_points(tl, bot_left, top_right, v.x, v.y);
    let top_left = intersect(in_top, in_left, h, v, d);
    let top_right_c = intersect(out_top, right, h, v, d);
    let bottom_left = intersect(bottom, out_left, h, v, d);
    let den = if d < 0 { -d } else { d };
    Some(CornerSet { top_left, top_right: top_right_c, bottom_left, den })
}

} // verus!
