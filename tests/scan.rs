use arqr::bitmap::Bitmap;
use arqr::corners::pick_corners;
use arqr::rectify::{rectify, round_corner, to_affine_transform, to_side_len, affine_transform_chunk};
use arqr::target::{find_pos_targets, find_pos_targets_with, sizes_match, FixedBuffer, ScanConfig, Target};
use arqr::{scan, scan_bitmap, Point, ScanResult};
use arqr::corners::CornerSet;

/// Draws a finder pattern with one-pixel modules, top-left at `(x0, y0)`.
fn draw_finder(b: &mut Bitmap, x0: u32, y0: u32) {
    for dy in 0..7u32 {
        for dx in 0..7u32 {
            let ring = dx.min(dy).min(6 - dx).min(6 - dy);
            *b.get_pixel_mut(x0 + dx, y0 + dy) = ring == 1;
        }
    }
}

#[test]
fn fixed_buffer_keeps_last_values_oldest_first() {
    let mut buf = FixedBuffer::<3>::new();
    assert!(!buf.is_full());
    assert!(buf.iter().is_empty());
    buf.push(1);
    buf.push(2);
    assert_eq!(buf.iter(), vec![1, 2]);
    assert_eq!(buf.peek_back(), 1);
    buf.push(3);
    assert!(buf.is_full());
    buf.push(4);
    assert_eq!(buf.iter(), vec![2, 3, 4]);
    assert_eq!(buf.peek_back(), 2);
    buf.clear();
    assert!(!buf.is_full());
    assert!(buf.iter().is_empty());
    buf.push(9);
    assert_eq!(buf.iter(), vec![9]);
}

#[test]
fn finder_ratios_match() {
    let cfg = ScanConfig::standard();
    assert!(sizes_match(&vec![1, 1, 3, 1, 1], &cfg));
    assert!(sizes_match(&vec![4, 4, 12, 4, 4], &cfg));
    // 10 / 4 = 2.5 is within 0.65 of 3; 4 / 2 = 2 is not.
    assert!(sizes_match(&vec![4, 4, 10, 4, 4], &cfg));
    assert!(!sizes_match(&vec![2, 2, 4, 2, 2], &cfg));
    assert!(!sizes_match(&vec![1, 1, 1, 1, 1], &cfg));
    assert!(!sizes_match(&vec![0, 1, 3, 1, 1], &cfg));
}

#[test]
fn tolerance_is_configurable() {
    let mut strict = ScanConfig::standard();
    strict.tol_num = 1;
    strict.tol_den = 10;
    assert!(sizes_match(&vec![4, 4, 12, 4, 4], &strict));
    assert!(!sizes_match(&vec![4, 4, 10, 4, 4], &strict));
}

#[test]
fn stride_is_configurable() {
    let mut b = Bitmap::new(20, 20);
    draw_finder(&mut b, 6, 6);
    // With a stride of 5 the sampled rows are 0, 5, 10 and 15; row 10
    // crosses the pattern's center.
    let mut cfg = ScanConfig::standard();
    cfg.stride = 5;
    let found = find_pos_targets_with(&b, &cfg);
    assert_eq!(found.len(), 1);
    // Sampling only row 0 and row 19 finds nothing.
    cfg.stride = 19;
    assert!(find_pos_targets_with(&b, &cfg).is_empty());
}

#[test]
fn target_side_midpoints() {
    let t = Target::new(1u32, 2, 4, 5, 7, 8);
    assert_eq!((t.up().x, t.up().y), (4, 2));
    assert_eq!((t.down().x, t.down().y), (4, 8));
    assert_eq!((t.left().x, t.left().y), (1, 5));
    assert_eq!((t.right().x, t.right().y), (7, 5));
    let p = Point::new(3, 4);
    assert_eq!((p.x, p.y), (3, 4));
}

#[test]
fn single_finder_pattern_is_found_with_its_box() {
    let mut b = Bitmap::new(20, 20);
    draw_finder(&mut b, 6, 6);
    let targets = find_pos_targets(&b);
    assert_eq!(targets.len(), 1);
    let t = targets[0];
    assert_eq!((t.min.x, t.min.y), (6, 6));
    assert_eq!((t.mid.x, t.mid.y), (9, 9));
    // The box ends one past the last pixel of the pattern.
    assert_eq!((t.max.x, t.max.y), (13, 13));
}

#[test]
fn blank_bitmap_has_no_targets() {
    let b = Bitmap::new(16, 16);
    assert!(find_pos_targets(&b).is_empty());
    let b = Bitmap::new(0, 0);
    assert!(find_pos_targets(&b).is_empty());
}

#[test]
fn fewer_than_three_markers_give_no_corners() {
    for n in 0..3u32 {
        let mut b = Bitmap::new(40, 40);
        let spots = [(6u32, 6u32), (26, 6), (6, 26)];
        for &(x, y) in spots.iter().take(n as usize) {
            draw_finder(&mut b, x, y);
        }
        let r = scan_bitmap(b);
        assert_eq!(r.targets.len(), n as usize);
        assert!(r.bbox.is_none());
        assert!(r.code_img.is_none());
    }
}

fn three_marker_bitmap() -> Bitmap {
    let mut b = Bitmap::new(40, 40);
    draw_finder(&mut b, 6, 6);
    draw_finder(&mut b, 26, 6);
    draw_finder(&mut b, 6, 26);
    b
}

#[test]
fn three_markers_give_rectangle_corners() {
    let b = three_marker_bitmap();
    let targets = find_pos_targets(&b);
    assert_eq!(targets.len(), 3);
    let c = pick_corners(&targets).unwrap();
    assert!(c.den > 0);
    let at = |p: Point<i128>| (p.x as f64 / c.den as f64, p.y as f64 / c.den as f64);
    assert_eq!(at(c.top_left), (6.0, 6.0));
    assert_eq!(at(c.top_right), (33.0, 6.0));
    assert_eq!(at(c.bottom_left), (6.0, 33.0));
}

#[test]
fn marker_order_does_not_change_corners() {
    let b = three_marker_bitmap();
    let mut targets = find_pos_targets(&b);
    targets.swap(0, 2);
    let c = pick_corners(&targets).unwrap();
    assert_eq!((c.top_left.x, c.top_left.y), (6 * c.den, 6 * c.den));
    assert_eq!((c.top_right.x, c.top_right.y), (33 * c.den, 6 * c.den));
    assert_eq!((c.bottom_left.x, c.bottom_left.y), (6 * c.den, 33 * c.den));
}

#[test]
fn collinear_markers_give_no_corners() {
    let t = vec![
        Target::new(0u32, 0, 3, 3, 7, 7),
        Target::new(10u32, 0, 13, 3, 17, 7),
        Target::new(20u32, 0, 23, 3, 27, 7),
    ];
    assert!(pick_corners(&t).is_none());
    assert!(pick_corners(&t[..2].to_vec()).is_none());
}

#[test]
fn rotated_corners_stay_in_role() {
    // Markers of a code turned a quarter turn clockwise on screen: the
    // top-left one is the one facing the longest side.
    let t = vec![
        Target::new(30u32, 0, 33, 3, 37, 7),
        Target::new(30u32, 30, 33, 33, 37, 37),
        Target::new(0u32, 0, 3, 3, 7, 7),
    ];
    let c = pick_corners(&t).unwrap();
    let at = |p: Point<i128>| (p.x / c.den, p.y / c.den);
    assert_eq!(at(c.top_left), (37, 0));
    assert_eq!(at(c.top_right), (37, 37));
    assert_eq!(at(c.bottom_left), (0, 0));
}

#[test]
fn axis_aligned_square_round_trips() {
    let mut src = Bitmap::new(12, 10);
    for y in 0..10u32 {
        for x in 0..12u32 {
            *src.get_pixel_mut(x, y) = (x * 7 + y * 3) % 5 < 2;
        }
    }
    let corners = CornerSet {
        top_left: Point::new(3, 2),
        top_right: Point::new(9, 2),
        bottom_left: Point::new(3, 8),
        den: 1,
    };
    let out = rectify(&src, &corners).unwrap();
    assert_eq!(out.dimensions(), (6, 6));
    for v in 0..6u32 {
        for u in 0..6u32 {
            assert_eq!(*out.get_pixel(u, v), *src.get_pixel(3 + u, 2 + v));
        }
    }
}

#[test]
fn square_leaving_the_source_reads_white() {
    let src = {
        let mut b = Bitmap::new(4, 4);
        for y in 0..4u32 {
            for x in 0..4u32 {
                *b.get_pixel_mut(x, y) = false;
            }
        }
        b
    };
    let corners = CornerSet {
        top_left: Point::new(-2, 2),
        top_right: Point::new(2, 2),
        bottom_left: Point::new(-2, 6),
        den: 1,
    };
    let out = rectify(&src, &corners).unwrap();
    assert_eq!(out.dimensions(), (4, 4));
    assert!(*out.get_pixel(0, 0));
    assert!(!*out.get_pixel(2, 0));
    assert!(!*out.get_pixel(3, 1));
    assert!(*out.get_pixel(2, 2));
}

#[test]
fn side_length_and_transform() {
    let c0 = round_corner(Point::new(7, 5), 2);
    assert_eq!((c0.x, c0.y), (4, 3));
    let c0 = round_corner(Point::new(-7, -5), 2);
    assert_eq!((c0.x, c0.y), (-3, -2));
    let a = Point::new(0, 0);
    assert_eq!(to_side_len(a, Point::new(3, 4), Point::new(0, 2)), Some(5));
    assert_eq!(to_side_len(a, Point::new(3, 3), Point::new(0, 2)), Some(4));
    assert_eq!(to_side_len(a, Point::new(70000, 0), Point::new(0, 2)), None);
    assert_eq!(to_side_len(a, Point::new(65535, 0), Point::new(0, 2)), Some(65535));
    assert_eq!(to_side_len(a, Point::new(65535, 1), Point::new(0, 2)), Some(65535));
    assert_eq!(to_side_len(a, Point::new(65536, 0), Point::new(0, 2)), None);
    let c = CornerSet {
        top_left: Point::new(2, 4),
        top_right: Point::new(10, 4),
        bottom_left: Point::new(2, 12),
        den: 2,
    };
    let t = to_affine_transform(&c, 4);
    assert_eq!((t.a, t.b, t.c, t.d, t.tx, t.ty, t.scale, t.den), (8, 0, 0, 8, 2, 4, 4, 2));
    let src = Bitmap::new(3, 3);
    let out = affine_transform_chunk(&src, &t, 2, 3);
    assert_eq!(out.dimensions(), (2, 3));
}

#[test]
fn oversized_square_is_refused() {
    let src = Bitmap::new(2, 2);
    let corners = CornerSet {
        top_left: Point::new(0, 0),
        top_right: Point::new(70000, 0),
        bottom_left: Point::new(0, 3),
        den: 1,
    };
    assert!(rectify(&src, &corners).is_none());
}

#[test]
fn full_pipeline_on_rgb_frame() {
    let b = three_marker_bitmap();
    let mut rgb = Vec::new();
    for &p in b.pixels() {
        let v = if p { 230u8 } else { 20u8 };
        rgb.extend_from_slice(&[v, v, v]);
    }
    let r = scan(40, 40, &rgb);
    assert_eq!(r.frame.pixels(), b.pixels());
    assert_eq!(r.targets.len(), 3);
    let c = r.bbox.unwrap();
    assert_eq!((c.top_left.x / c.den, c.top_left.y / c.den), (6, 6));
    let img = r.code_img.unwrap();
    assert_eq!(img.dimensions(), (27, 27));
    for v in 0..27u32 {
        for u in 0..27u32 {
            assert_eq!(*img.get_pixel(u, v), *b.get_pixel(6 + u, 6 + v));
        }
    }
    let empty = ScanResult::new();
    assert!(empty.targets.is_empty() && empty.bbox.is_none() && empty.code_img.is_none());
}

#[test]
fn marker_crossed_by_several_sampled_rows_is_found_once() {
    let mut b = Bitmap::new(20, 20);
    draw_finder(&mut b, 6, 6);
    let mut cfg = ScanConfig::standard();
    cfg.stride = 1;
    let found = find_pos_targets_with(&b, &cfg);
    assert_eq!(found.len(), 1);
    assert_eq!((found[0].min.x, found[0].max.x), (6, 13));
}

#[test]
fn sampling_uses_exact_corners() {
    // Corners at half pixels: (0.5, 0.5), (2.5, 0.5), (0.5, 2.5). Rounded
    // they would start at (1, 1); sampled exactly, pixel (0, 0) maps to
    // (0.5, 0.5), which truncates to (0, 0).
    let mut src = Bitmap::new(4, 4);
    *src.get_pixel_mut(0, 0) = false;
    let corners = CornerSet {
        top_left: Point::new(1, 1),
        top_right: Point::new(5, 1),
        bottom_left: Point::new(1, 5),
        den: 2,
    };
    let out = rectify(&src, &corners).unwrap();
    assert_eq!(out.dimensions(), (2, 2));
    assert!(!*out.get_pixel(0, 0));
    assert!(*out.get_pixel(1, 1));
}
