use arqr::bitmap::Bitmap;

fn checkerboard(w: u32, h: u32) -> Bitmap {
    let mut b = Bitmap::new(w, h);
    for y in 0..h {
        for x in 0..w {
            *b.get_pixel_mut(x, y) = (x + y) % 2 == 0;
        }
    }
    b
}

#[test]
fn new_bitmap_is_all_white() {
    let b = Bitmap::new(3, 2);
    assert_eq!(b.dimensions(), (3, 2));
    assert_eq!(b.width(), 3);
    assert_eq!(b.height(), 2);
    assert_eq!(b.pixels().len(), 6);
    assert!(b.pixels().iter().all(|&p| p));
}

#[test]
fn pixel_access_is_row_major() {
    let mut b = Bitmap::new(3, 2);
    *b.get_pixel_mut(2, 1) = false;
    assert!(!*b.get_pixel(2, 1));
    assert!(!b.pixels()[5]);
    assert!(*b.get_pixel(1, 1));
}

#[test]
fn checked_access_reports_absence() {
    let mut b = Bitmap::new(3, 2);
    assert_eq!(b.get_pixel_checked(3, 0), None);
    assert_eq!(b.get_pixel_checked(0, 2), None);
    assert_eq!(b.get_pixel_checked(2, 1), Some(&true));
    assert!(b.get_pixel_checked_mut(5, 5).is_none());
    *b.get_pixel_checked_mut(1, 0).unwrap() = false;
    assert!(!*b.get_pixel(1, 0));
}

#[test]
fn clamped_access_saturates() {
    let mut b = Bitmap::new(3, 2);
    *b.get_pixel_mut(2, 1) = false;
    assert!(!*b.get_pixel_clamped(100, 100));
    assert!(!*b.get_pixel_clamped(2, 7));
    assert!(*b.get_pixel_clamped(1, 7));
    *b.get_pixel_clamped_mut(0, 9) = false;
    assert!(!*b.get_pixel(0, 1));
}

#[test]
fn rows_have_height_count_and_width_length() {
    let b = checkerboard(5, 3);
    let mut rows = b.rows();
    let mut n = 0;
    while let Some(row) = rows.next() {
        assert_eq!(row.len(), 5);
        for x in 0..5u32 {
            assert_eq!(row[x as usize], *b.get_pixel(x, n));
        }
        n += 1;
    }
    assert_eq!(n, 3);
    assert_eq!(b.rows().count(), 3);
}

#[test]
fn rows_backward_is_reverse_of_forward() {
    let b = checkerboard(4, 5);
    let mut fwd = Vec::new();
    let mut it = b.rows();
    while let Some(r) = it.next() {
        fwd.push(r.to_vec());
    }
    let mut back = Vec::new();
    let mut it = b.rows();
    while let Some(r) = it.next_back() {
        back.push(r.to_vec());
    }
    back.reverse();
    assert_eq!(fwd, back);
    assert_eq!(b.rows().last().unwrap(), &fwd[4][..]);
}

#[test]
fn rows_restart_independently() {
    let b = checkerboard(3, 4);
    let mut a = b.rows();
    let mut c = b.rows();
    a.next();
    assert_eq!(c.next().unwrap(), b.rows().next().unwrap());
    assert_eq!(a.count(), 3);
    assert_eq!(c.count(), 3);
}

#[test]
fn rows_nth_and_nth_back() {
    let b = checkerboard(3, 4);
    let mut it = b.rows();
    assert_eq!(it.nth(2).unwrap(), &[true, false, true][..]);
    assert_eq!(it.count(), 1);
    let mut it = b.rows();
    assert_eq!(it.nth_back(1).unwrap(), &[true, false, true][..]);
    assert_eq!(it.count(), 2);
    let mut it = b.rows();
    assert!(it.nth(4).is_none());
    assert!(it.next().is_none());
    let mut it = b.rows();
    assert!(it.nth_back(9).is_none());
    assert!(it.next_back().is_none());
}

#[test]
fn empty_width_rows() {
    let b = Bitmap::new(0, 3);
    let mut it = b.rows();
    assert_eq!(it.next().unwrap().len(), 0);
    assert_eq!(it.count(), 2);
}

#[test]
fn clone_and_default() {
    let mut b = checkerboard(3, 2);
    let c = b.clone();
    *b.get_pixel_mut(0, 0) = false;
    assert!(*c.get_pixel(0, 0));
    assert_eq!(c.pixels(), &[true, false, true, false, true, false][..]);
    let d = Bitmap::default();
    assert_eq!(d.dimensions(), (0, 0));
}

#[test]
fn rows_mut_writes_reach_the_bitmap() {
    let mut b = Bitmap::new(3, 3);
    {
        let mut rows = b.rows_mut();
        let top = rows.next().unwrap();
        top[0] = false;
        let bottom = rows.next_back().unwrap();
        bottom[2] = false;
        let middle = rows.next().unwrap();
        middle[1] = false;
        assert!(rows.next().is_none());
        assert!(rows.next_back().is_none());
        assert_eq!(rows.count(), 0);
    }
    assert_eq!(
        b.pixels(),
        &[false, true, true, true, false, true, true, true, false][..]
    );
}

#[test]
fn rows_mut_has_height_rows_of_width() {
    let mut b = checkerboard(4, 3);
    let mut rows = b.rows_mut();
    let mut n = 0;
    while let Some(row) = rows.next() {
        assert_eq!(row.len(), 4);
        n += 1;
    }
    assert_eq!(n, 3);
    assert_eq!(b.rows_mut().count(), 3);
}

#[test]
fn rows_mut_nth_nth_back_and_last() {
    let mut b = Bitmap::new(2, 5);
    {
        let mut rows = b.rows_mut();
        let r = rows.nth(1).unwrap();
        r[0] = false;
        let r = rows.nth_back(1).unwrap();
        r[1] = false;
        assert_eq!(rows.count(), 1);
    }
    assert_eq!(
        b.pixels(),
        &[true, true, false, true, true, true, true, false, true, true][..]
    );
    let mut rows = b.rows_mut();
    assert!(rows.nth(5).is_none());
    assert!(rows.next().is_none());
    let mut rows = b.rows_mut();
    assert!(rows.nth_back(7).is_none());
    assert_eq!(rows.count(), 0);
    let last = b.rows_mut().last().unwrap();
    last[0] = false;
    assert!(!*b.get_pixel(0, 4));
}
