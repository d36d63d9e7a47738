//! Locates the three finder markers of a matrix barcode in a binarized frame
//! and resamples the code region into an upright square bitmap.

use vstd::prelude::*;
use crate::bitmap::Bitmap;
use crate::corners::{CornerSet, corners_spec, pick_corners};
use crate::rectify::{fits, is_rectified, rectify};
use crate::target::{Target, find_pos_targets, is_marker, scan_spec, standard_config};
use crate::binarize::{binarized, lumas_of};

pub mod bitmap;
pub mod binarize;
pub mod target;
pub mod corners;
pub mod rectify;
pub mod laws;

verus! {

/// A point in the plane.
#[derive(Clone, Copy, Debug, Default)]
pub struct Point<T> {
    pub x: T,
    pub y: T,
}

impl<T> Point<T> {
    pub fn new(x: T, y: T) -> (r: Self)
        ensures
            r.x == x,
            r.y == y,
    {
        Point { x, y }
    }
}

/// What one frame yields: the binarized frame, the finder markers found in
/// it, the code's corners when exactly three markers frame it, and the code
/// resampled upright when the corners are known.
#[derive(Debug)]
pub struct ScanResult {
    pub frame: Bitmap,
    pub targets: Vec<Target<u32>>,
    pub bbox: Option<CornerSet>,
    pub code_img: Option<Bitmap>,
}

/// The result's parts follow from its frame: the markers are markers of the
/// frame, the corners are those the markers give, and the code image is the
/// frame resampled through them, present exactly when it fits.
pub open spec fn scan_ok(r: ScanResult) -> bool {
    &&& r.frame.wf()
    &&& forall|i: int| 0 <= i < r.targets@.len() ==> is_marker(
        &r.frame,
        #[trigger] r.targets@[i],
        standard_config(),
    )
    &&& r.bbox == corners_spec(r.targets@)
    &&& r.code_img.is_some() == (r.bbox.is_some() && fits(r.bbox.unwrap()))
    &&& r.code_img.is_some() ==> is_rectified(&r.frame, r.bbox.unwrap(), r.code_img.unwrap())
}

impl ScanResult {
    /// A result with an empty frame and nothing found.
    pub fn new() -> (r: Self)
        ensures
            r.frame.wf(),
            r.frame.w() == 0 && r.frame.h() == 0,
            r.targets@.len() == 0,
            r.bbox.is_none(),
            r.code_img.is_none(),
    {
        ScanResult { frame: Bitmap::new(0, 0), targets: Vec::new(), bbox: None, code_img: None }
    }
}

/// Runs the marker scanner, the corner resolver and the rectifier on a
/// binarized frame.
pub fn scan_bitmap(frame: Bitmap) -> (r: ScanResult)
    requires
        frame.wf(),
    ensures
        scan_ok(r),
        r.frame == frame,
        r.targets@ == scan_spec(&frame, standard_config()),
{
    let targets = find_pos_targets(&frame);
    let bbox = pick_corners(&targets);
    let code_img = match bbox {
        Some(c) => rectify(&frame, &c),
        None => None,
    };
    ScanResult { frame, targets, bbox, code_img }
}

/// Scans a packed RGB frame (three bytes per pixel, row after row): binarizes
/// it at its adaptive threshold, then finds markers, corners and the code.
pub fn scan(width: u32, height: u32, rgb: &Vec<u8>) -> (r: ScanResult)
    requires
        width * height <= u32::MAX,
        rgb@.len() == 3 * (width * height),
    ensures
        scan_ok(r),
        r.targets@ == scan_spec(&r.frame, standard_config()),
        r.frame.w() == width,
        r.frame.h() == height,
        r.frame.px() == binarized(lumas_of(rgb@)),
{
    let frame = Bitmap::from_u8_img_dynamic(width, height, rgb);
    scan_bitmap(frame)
}

} // verus!
