//! The `Bitmap` type: a dense row-major grid of pixels, `true` for white.

use vstd::prelude::*;
use vstd::slice::slice_subrange;

verus! {

/// `y * w + x` lies inside a `w` by `h` grid when `x < w` and `y < h`.
pub proof fn lemma_index_in_grid(x: int, y: int, w: int, h: int)
    requires
        0 <= x < w,
        0 <= y < h,
    ensures
        0 <= y * w + x < w * h,
{
    assert(0 <= y * w + x < w * h) by (nonlinear_arith)
        requires 0 <= x < w, 0 <= y < h;
}

/// Row `y` of a `w` by `h` grid ends inside the grid.
pub proof fn lemma_row_in_grid(y: int, w: int, h: int)
    requires
        0 <= w,
        0 <= y < h,
    ensures
        0 <= y * w,
        y * w + w <= w * h,
{
    assert(0 <= y * w && y * w + w <= w * h) by (nonlinear_arith)
        requires 0 <= w, 0 <= y < h;
}

/// A grid of boolean pixels, stored row by row.
#[derive(Debug)]
pub struct Bitmap {
    data: Vec<bool>,
    width: u32,
    height: u32,
}

impl Bitmap {
    /// The width in pixels.
    pub closed spec fn w(&self) -> nat {
        self.width as nat
    }

    /// The height in pixels.
    pub closed spec fn h(&self) -> nat {
        self.height as nat
    }

    /// All pixels, row after row.
    pub closed spec fn px(&self) -> Seq<bool> {
        self.data@
    }

    /// The pixel count matches the dimensions, and fits in a `u32`.
    pub open spec fn wf(&self) -> bool {
        &&& self.px().len() == self.w() * self.h()
        &&& self.w() * self.h() <= u32::MAX
    }

    /// The pixel at column `x` of row `y`.
    pub open spec fn pixel(&self, x: int, y: int) -> bool {
        self.px()[y * self.w() + x]
    }

    /// Whether `(x, y)` names a pixel of this bitmap.
    pub open spec fn in_bounds(&self, x: int, y: int) -> bool {
        0 <= x < self.w() && 0 <= y < self.h()
    }

    /// Row `y`, left to right.
    pub open spec fn row(&self, y: int) -> Seq<bool> {
        self.px().subrange(y * self.w(), y * self.w() + self.w())
    }

    /// Rows `lo` up to (not including) `hi`, top to bottom.
    pub open spec fn row_range(&self, lo: int, hi: int) -> Seq<Seq<bool>> {
        Seq::new((hi - lo) as nat, |i: int| self.row(lo + i))
    }

    /// All rows, top to bottom.
    pub open spec fn row_seq(&self) -> Seq<Seq<bool>> {
        self.row_range(0, self.h() as int)
    }

    /// Creates an all-white bitmap of the given size.
    pub fn new(width: u32, height: u32) -> (r: Self)
        requires
            width * height <= u32::MAX,
        ensures
            r.wf(),
            r.w() == width,
            r.h() == height,
            forall|i: int| 0 <= i < r.px().len() ==> r.px()[i],
    {
        let n = (width * height) as usize;
        let data = vec![true; n];
        Bitmap { data, width, height }
    }

    /// Creates a bitmap from its pixels, given row after row.
    pub fn from_pixels(width: u32, height: u32, data: Vec<bool>) -> (r: Self)
        requires
            width * height <= u32::MAX,
            data@.len() == width * height,
        ensures
            r.wf(),
            r.w() == width,
            r.h() == height,
            r.px() == data@,
    {
        Bitmap { data, width, height }
    }

    pub fn width(&self) -> (r: u32)
        ensures
            r == self.w(),
    {
        self.width
    }

    pub fn height(&self) -> (r: u32)
        ensures
            r == self.h(),
    {
        self.height
    }

    pub fn dimensions(&self) -> (r: (u32, u32))
        ensures
            r == (self.w() as u32, self.h() as u32),
    {
        (self.width, self.height)
    }

    /// All pixels, row after row.
    pub fn pixels(&self) -> (r: &[bool])
        ensures
            r@ == self.px(),
    {
        self.data.as_slice()
    }

    fn pixel_index_unchecked(&self, x: u32, y: u32) -> (r: usize)
        requires
            self.wf(),
            self.in_bounds(x as int, y as int),
        ensures
            r == y * self.w() + x,
            r < self.px().len(),
    {
        proof {
            lemma_index_in_grid(x as int, y as int, self.w() as int, self.h() as int);
        }
        (y * self.width + x) as usize
    }

    fn pixel_index(&self, x: u32, y: u32) -> (r: Option<usize>)
        requires
            self.wf(),
        ensures
            r.is_some() == self.in_bounds(x as int, y as int),
            r.is_some() ==> r.unwrap() == y * self.w() + x && r.unwrap() < self.px().len(),
    {
        if x >= self.width || y >= self.height {
            return None;
        }
        Some(self.pixel_index_unchecked(x, y))
    }

    /// The pixel at `(x, y)`, which must lie inside the bitmap.
    pub fn get_pixel(&self, x: u32, y: u32) -> (r: &bool)
        requires
            self.wf(),
            self.in_bounds(x as int, y as int),
        ensures
            *r == self.pixel(x as int, y as int),
    {
        let i = self.pixel_index_unchecked(x, y);
        &self.data[i]
    }

    /// A mutable reference to the pixel at `(x, y)`, which must lie inside the
    /// bitmap.
    pub fn get_pixel_mut(&mut self, x: u32, y: u32) -> (r: &mut bool)
        requires
            old(self).wf(),
            old(self).in_bounds(x as int, y as int),
        ensures
            *r == old(self).pixel(x as int, y as int),
            final(self).w() == old(self).w(),
            final(self).h() == old(self).h(),
            final(self).px() == old(self).px().update(y * old(self).w() + x, *final(r)),
    {
        let i = self.pixel_index_unchecked(x, y);
        &mut self.data[i]
    }

    /// The pixel at `(x, y)`, or `None` outside the bitmap.
    pub fn get_pixel_checked(&self, x: u32, y: u32) -> (r: Option<&bool>)
        requires
            self.wf(),
        ensures
            r.is_some() == self.in_bounds(x as int, y as int),
            r.is_some() ==> *r.unwrap() == self.pixel(x as int, y as int),
    {
        match self.pixel_index(x, y) {
            Some(i) => Some(&self.data[i]),
            None => None,
        }
    }

    /// A mutable reference to the pixel at `(x, y)`, or `None` outside the
    /// bitmap.
    pub fn get_pixel_checked_mut(&mut self, x: u32, y: u32) -> (r: Option<&mut bool>)
        requires
            old(self).wf(),
        ensures
            r.is_some() == old(self).in_bounds(x as int, y as int),
            final(self).w() == old(self).w(),
            final(self).h() == old(self).h(),
            r.is_none() ==> final(self).px() == old(self).px(),
            r.is_some() ==> *r.unwrap() == old(self).pixel(x as int, y as int),
            r.is_some() ==> final(self).px() == old(self).px().update(
                y * old(self).w() + x,
                *final(r.unwrap()),
            ),
    {
        match self.pixel_index(x, y) {
            Some(i) => Some(&mut self.data[i]),
            None => None,
        }
    }

    fn clamp_coords(&self, x: u32, y: u32) -> (r: (u32, u32))
        requires
            self.wf(),
            self.w() > 0,
            self.h() > 0,
        ensures
            r.0 == clamp_spec(x as int, self.w() as int),
            r.1 == clamp_spec(y as int, self.h() as int),
    {
        let cx = if x < self.width - 1 { x } else { self.width - 1 };
        let cy = if y < self.height - 1 { y } else { self.height - 1 };
        (cx, cy)
    }

    /// The pixel at `(x, y)` with each coordinate saturated to the last
    /// column or row. The bitmap must not be empty.
    pub fn get_pixel_clamped(&self, x: u32, y: u32) -> (r: &bool)
        requires
            self.wf(),
            self.w() > 0,
            self.h() > 0,
        ensures
            *r == self.pixel(
                clamp_spec(x as int, self.w() as int),
                clamp_spec(y as int, self.h() as int),
            ),
    {
        let (cx, cy) = self.clamp_coords(x, y);
        self.get_pixel(cx, cy)
    }

    /// A mutable reference to the pixel at `(x, y)` with each coordinate
    /// saturated to the last column or row. The bitmap must not be empty.
    pub fn get_pixel_clamped_mut(&mut self, x: u32, y: u32) -> (r: &mut bool)
        requires
            old(self).wf(),
            old(self).w() > 0,
            old(self).h() > 0,
        ensures
            *r == old(self).pixel(
                clamp_spec(x as int, old(self).w() as int),
                clamp_spec(y as int, old(self).h() as int),
            ),
            final(self).w() == old(self).w(),
            final(self).h() == old(self).h(),
            final(self).px() == old(self).px().update(
                clamp_spec(y as int, old(self).h() as int) * old(self).w() + clamp_spec(
                    x as int,
                    old(self).w() as int,
                ),
                *final(r),
            ),
    {
        let (cx, cy) = self.clamp_coords(x, y);
        self.get_pixel_mut(cx, cy)
    }

    /// The rows of this bitmap, to walk and change from either end. What is
    /// written through the rows handed out becomes the bitmap's pixels.
    pub fn rows_mut(&mut self) -> (r: RowsMut<'_>)
        requires
            old(self).wf(),
        ensures
            r.wf(),
            r@ == old(self).row_seq(),
            r.width == old(self).w(),
            final(self).w() == old(self).w(),
            final(self).h() == old(self).h(),
            final(self).px() == final(r.rest)@,
    {
        let width = self.width as usize;
        let left = self.height as usize;
        let r = RowsMut { rest: self.data.as_mut_slice(), width, left };
        proof {
            let (ww, hh) = (old(self).w() as int, old(self).h() as int);
            assert(r.rest@.len() == r.width * r.left) by (nonlinear_arith)
                requires r.rest@.len() == ww * hh, r.width == ww, r.left == hh;
            assert(r@ =~= old(self).row_seq());
        }
        r
    }

    /// The rows of this bitmap, to walk from either end.
    pub fn rows(&self) -> (r: Rows<'_>)
        requires
            self.wf(),
        ensures
            r.wf(),
            r@ == self.row_seq(),
    {
        Rows { bmp: self, front: 0, back: self.height }
    }
}

impl Clone for Bitmap {
    fn clone(&self) -> (r: Self)
        ensures
            r.w() == self.w(),
            r.h() == self.h(),
            r.px() == self.px(),
    {
        let data = self.data.clone();
        assert(data@ =~= self.data@);
        Bitmap { data, width: self.width, height: self.height }
    }
}

impl Default for Bitmap {
    /// An empty bitmap.
    fn default() -> (r: Self)
        ensures
            r.wf(),
            r.w() == 0,
            r.h() == 0,
    {
        Bitmap::new(0, 0)
    }
}

/// `v` saturated to `n - 1`.
pub open spec fn clamp_spec(v: int, n: int) -> int {
    if v < n - 1 {
        v
    } else {
        n - 1
    }
}

/// Walks the rows of a bitmap from the top, from the bottom, or both.
pub struct Rows<'a> {
    bmp: &'a Bitmap,
    front: u32,
    back: u32,
}

impl<'a> View for Rows<'a> {
    type V = Seq<Seq<bool>>;

    /// The rows not yet handed out, top to bottom.
    closed spec fn view(&self) -> Seq<Seq<bool>> {
        self.bmp.row_range(self.front as int, self.back as int)
    }
}

impl<'a> Rows<'a> {
    /// The walk stays inside the bitmap.
    pub closed spec fn wf(&self) -> bool {
        &&& self.bmp.wf()
        &&& self.front <= self.back <= self.bmp.h()
    }

    fn row_slice(&self, y: u32) -> (r: &'a [bool])
        requires
            self.wf(),
            y < self.bmp.h(),
        ensures
            r@ == self.bmp.row(y as int),
    {
        proof {
            lemma_row_in_grid(y as int, self.bmp.w() as int, self.bmp.h() as int);
        }
        let w = self.bmp.width as usize;
        let start = y as usize * w;
        slice_subrange(self.bmp.data.as_slice(), start, start + w)
    }

    /// The next row from the top.
    pub fn next(&mut self) -> (r: Option<&'a [bool]>)
        requires
            old(self).wf(),
        ensures
            final(self).wf(),
            old(self)@.len() == 0 ==> r.is_none() && final(self)@ == old(self)@,
            old(self)@.len() > 0 ==> r.is_some() && r.unwrap()@ == old(self)@[0]
                && final(self)@ == old(self)@.drop_first(),
    {
        if self.front == self.back {
            return None;
        }
        let row = self.row_slice(self.front);
        self.front = self.front + 1;
        assert(self@ =~= old(self)@.drop_first());
        Some(row)
    }

    /// The next row from the bottom.
    pub fn next_back(&mut self) -> (r: Option<&'a [bool]>)
        requires
            old(self).wf(),
        ensures
            final(self).wf(),
            old(self)@.len() == 0 ==> r.is_none() && final(self)@ == old(self)@,
            old(self)@.len() > 0 ==> r.is_some() && r.unwrap()@ == old(self)@.last()
                && final(self)@ == old(self)@.drop_last(),
    {
        if self.front == self.back {
            return None;
        }
        self.back = self.back - 1;
        let row = self.row_slice(self.back);
        assert(self@ =~= old(self)@.drop_last());
        Some(row)
    }

    /// Skips `n` rows from the top and hands out the one after them.
    pub fn nth(&mut self, n: usize) -> (r: Option<&'a [bool]>)
        requires
            old(self).wf(),
        ensures
            final(self).wf(),
            n < old(self)@.len() ==> r.is_some() && r.unwrap()@ == old(self)@[n as int]
                && final(self)@ == old(self)@.subrange(n + 1, old(self)@.len() as int),
            n >= old(self)@.len() ==> r.is_none() && final(self)@.len() == 0,
    {
        let left = (self.back - self.front) as usize;
        if n >= left {
            self.front = self.back;
            assert(self@.len() == 0);
            return None;
        }
        self.front = self.front + n as u32;
        assert(self@ =~= old(self)@.subrange(n as int, old(self)@.len() as int));
        self.next()
    }

    /// Skips `n` rows from the bottom and hands out the one above them.
    pub fn nth_back(&mut self, n: usize) -> (r: Option<&'a [bool]>)
        requires
            old(self).wf(),
        ensures
            final(self).wf(),
            n < old(self)@.len() ==> r.is_some() && r.unwrap()@ == old(self)@[old(self)@.len()
                - 1 - n] && final(self)@ == old(self)@.subrange(
                0,
                old(self)@.len() - 1 - n,
            ),
            n >= old(self)@.len() ==> r.is_none() && final(self)@.len() == 0,
    {
        let left = (self.back - self.front) as usize;
        if n >= left {
            self.back = self.front;
            assert(self@.len() == 0);
            return None;
        }
        self.back = self.back - n as u32;
        assert(self@ =~= old(self)@.subrange(0, old(self)@.len() - n));
        self.next_back()
    }

    /// The number of rows left.
    pub fn count(self) -> (r: usize)
        requires
            self.wf(),
        ensures
            r == self@.len(),
    {
        (self.back - self.front) as usize
    }

    /// The bottom row of those left.
    pub fn last(self) -> (r: Option<&'a [bool]>)
        requires
            self.wf(),
        ensures
            self@.len() == 0 ==> r.is_none(),
            self@.len() > 0 ==> r.is_some() && r.unwrap()@ == self@.last(),
    {
        let mut s = self;
        s.next_back()
    }
}

/// Walks the rows of a bitmap mutably, from the top, from the bottom, or
/// both, handing out each row once.
pub struct RowsMut<'a> {
    /// The pixels of the rows not yet handed out, row after row.
    pub rest: &'a mut [bool],
    /// The length of a row.
    pub width: usize,
    /// How many rows are not yet handed out.
    pub left: usize,
}

impl<'a> View for RowsMut<'a> {
    type V = Seq<Seq<bool>>;

    /// The rows not yet handed out, top to bottom.
    open spec fn view(&self) -> Seq<Seq<bool>> {
        Seq::new(
            self.left as nat,
            |i: int| self.rest@.subrange(i * self.width, i * self.width + self.width),
        )
    }
}

impl<'a> RowsMut<'a> {
    /// The pixels left make up whole rows.
    pub open spec fn wf(&self) -> bool {
        self.rest@.len() == self.width * self.left
    }

    /// The next row from the top. What is written through it becomes the
    /// front of the pixels this walk was given.
    pub fn next(&mut self) -> (r: Option<&'a mut [bool]>)
        requires
            old(self).wf(),
        ensures
            final(self).wf(),
            final(self).width == old(self).width,
            old(self)@.len() == 0 ==> r.is_none() && final(self)@ == old(self)@ && final(old(self).rest)@ == final(final(self).rest)@,
            old(self)@.len() > 0 ==> r.is_some() && r.unwrap()@ == old(self)@[0] && final(self)@
                == old(self)@.drop_first() && final(old(self).rest)@ == final(r.unwrap())@ + final(final(self).rest)@,
    {
        if self.left == 0 {
            return None;
        }
        proof {
            lemma_row_in_grid(0, self.width as int, self.left as int);
        }
        let mut rest: &'a mut [bool] = &mut [];
        core::mem::swap(&mut self.rest, &mut rest);
        let (head, tail) = rest.split_at_mut(self.width);
        self.rest = tail;
        self.left = self.left - 1;
        proof {
            let w = self.width as int;
            assert(self.rest@.len() == w * self.left) by (nonlinear_arith)
                requires self.rest@.len() == w * (self.left + 1) - w;
            assert forall|i: int| 0 <= i < self.left implies #[trigger] self@[i] == old(self)@[i + 1] by {
                lemma_row_in_grid(i + 1, w, self.left + 1);
                assert((i + 1) * w == i * w + w) by (nonlinear_arith);
            }
            assert(self@ =~= old(self)@.drop_first());
        }
        Some(head)
    }

    /// The next row from the bottom. What is written through it becomes the
    /// back of the pixels this walk was given.
    pub fn next_back(&mut self) -> (r: Option<&'a mut [bool]>)
        requires
            old(self).wf(),
        ensures
            final(self).wf(),
            final(self).width == old(self).width,
            old(self)@.len() == 0 ==> r.is_none() && final(self)@ == old(self)@ && final(old(self).rest)@ == final(final(self).rest)@,
            old(self)@.len() > 0 ==> r.is_some() && r.unwrap()@ == old(self)@.last() && final(self)@ == old(self)@.drop_last() && final(old(self).rest)@ == final(final(self).rest)@
                + final(r.unwrap())@,
    {
        if self.left == 0 {
            return None;
        }
        let ghost w = self.width as int;
        proof {
            lemma_row_in_grid(self.left - 1, w, self.left as int);
        }
        assert((self.left - 1) * w + w == w * self.left) by (nonlinear_arith);
        let mid = self.rest.len() - self.width;
        let mut rest: &'a mut [bool] = &mut [];
        core::mem::swap(&mut self.rest, &mut rest);
        let (head, tail) = rest.split_at_mut(mid);
        self.rest = head;
        self.left = self.left - 1;
        proof {
            assert(self.rest@.len() == w * self.left) by (nonlinear_arith)
                requires self.rest@.len() == self.left * w;
            assert forall|i: int| 0 <= i < self.left implies #[trigger] self@[i] == old(self)@[i] by {
                lemma_row_in_grid(i, w, self.left as int);
            }
            assert(self@ =~= old(self)@.drop_last());
            assert(tail@ =~= old(self)@.last());
        }
        Some(tail)
    }

    /// Skips `n` rows from the top and hands out the one after them. What
    /// is written through it and the rows left lands after the skipped
    /// rows.
    pub fn nth(&mut self, n: usize) -> (r: Option<&'a mut [bool]>)
        requires
            old(self).wf(),
        ensures
            final(self).wf(),
            final(self).width == old(self).width,
            n >= old(self)@.len() ==> r.is_none() && final(self)@.len() == 0,
            n < old(self)@.len() ==> r.is_some() && r.unwrap()@ == old(self)@[n as int] && final(self)@ == old(self)@.subrange(n + 1, old(self)@.len() as int)
                && final(old(self).rest)@.subrange(n * old(self).width, final(old(self).rest)@.len() as int) == final(r.unwrap())@ + final(final(self).rest)@,
    {
        let ghost w = self.width as int;
        let mut rest: &'a mut [bool] = &mut [];
        core::mem::swap(&mut self.rest, &mut rest);
        if n >= self.left {
            let len = rest.len();
            let (_skipped, tail) = rest.split_at_mut(len);
            self.rest = tail;
            self.left = 0;
            proof {
                assert(self.rest@.len() == 0);
                assert(self@.len() == 0);
            }
            return None;
        }
        proof {
            lemma_row_in_grid(n as int, w, self.left as int);
        }
        let len = rest.len();
        assert(n * w <= len);
        let mid = n * self.width;
        let (_skipped, tail) = rest.split_at_mut(mid);
        self.rest = tail;
        self.left = self.left - n;
        proof {
            assert(self.rest@.len() == w * self.left) by (nonlinear_arith)
                requires self.rest@.len() == w * (self.left + n) - n * w;
            assert forall|i: int| 0 <= i < self.left implies #[trigger] self@[i] == old(self)@[i + n] by {
                lemma_row_in_grid(i + n, w, self.left + n);
                assert((i + n) * w == i * w + n * w) by (nonlinear_arith);
            }
            assert(self@ =~= old(self)@.subrange(n as int, old(self)@.len() as int));
        }
        self.next()
    }

    /// Skips `n` rows from the bottom and hands out the one above them.
    pub fn nth_back(&mut self, n: usize) -> (r: Option<&'a mut [bool]>)
        requires
            old(self).wf(),
        ensures
            final(self).wf(),
            final(self).width == old(self).width,
            n >= old(self)@.len() ==> r.is_none() && final(self)@.len() == 0,
            n < old(self)@.len() ==> r.is_some() && r.unwrap()@ == old(self)@[old(self)@.len() - 1 - n] && final(self)@ == old(self)@.subrange(0, old(self)@.len() - 1 - n),
    {
        let ghost w = self.width as int;
        let mut rest: &'a mut [bool] = &mut [];
        core::mem::swap(&mut self.rest, &mut rest);
        if n >= self.left {
            let (head, _skipped) = rest.split_at_mut(0);
            self.rest = head;
            self.left = 0;
            proof {
                assert(self@.len() == 0);
            }
            return None;
        }
        let keep = self.left - n;
        proof {
            lemma_row_in_grid(keep - 1, w, self.left as int);
        }
        let len = rest.len();
        assert((keep - 1) * w + w == keep * w) by (nonlinear_arith);
        assert(keep * w <= len);
        let mid = keep * self.width;
        let (head, _skipped) = rest.split_at_mut(mid);
        self.rest = head;
        self.left = keep;
        proof {
            assert forall|i: int| 0 <= i < self.left implies #[trigger] self@[i] == old(self)@[i] by {
                lemma_row_in_grid(i, w, self.left as int);
            }
            assert(self@ =~= old(self)@.subrange(0, keep as int));
        }
        self.next_back()
    }

    /// The bottom row of those left.
    pub fn last(self) -> (r: Option<&'a mut [bool]>)
        requires
            self.wf(),
        ensures
            self@.len() == 0 ==> r.is_none(),
            self@.len() > 0 ==> r.is_some() && r.unwrap()@ == self@.last(),
    {
        let mut s = self;
        s.next_back()
    }

    /// The number of rows left.
    pub fn count(self) -> (r: usize)
        requires
            self.wf(),
        ensures
            r == self@.len(),
    {
        self.left
    }
}

} // verus!
