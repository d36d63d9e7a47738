use arqr::binarize::{img_to_u8_histo, u8_histo_to_threshold};
use arqr::bitmap::Bitmap;

#[test]
fn flat_image_threshold_and_bitmap() {
    // Black side: sum 0 over count 1; white side: 16 * 128 = 2048 over 17,
    // mean 120. The threshold goes 128 -> 60 and stays there.
    let luma = vec![128u8; 16];
    let histo = img_to_u8_histo(&luma);
    assert_eq!(histo[128], 16);
    assert_eq!(u8_histo_to_threshold(&histo), 60);
    let b = Bitmap::from_luma(4, 4, &luma);
    assert_eq!(b.dimensions(), (4, 4));
    assert!(b.pixels().iter().all(|&p| p));
}

#[test]
fn bimodal_threshold_lies_between_means() {
    let mut histo = [0u64; 256];
    histo[40] = 100;
    histo[200] = 100;
    let t = u8_histo_to_threshold(&histo);
    assert_eq!(t, 118);
    assert!(40 < t && t < 200);
}

#[test]
fn empty_histogram_threshold() {
    let histo = [0u64; 256];
    // Both means are zero, so the threshold falls to zero and stays.
    assert_eq!(u8_histo_to_threshold(&histo), 0);
}

#[test]
fn every_single_level_histogram_gives_a_level() {
    for l in 0..256usize {
        let mut histo = [0u64; 256];
        histo[l] = 1000;
        let t = u8_histo_to_threshold(&histo) as usize;
        assert!(t <= 255);
    }
}

#[test]
fn histogram_counts_each_level() {
    let luma = vec![0u8, 255, 255, 7, 7, 7];
    let h = img_to_u8_histo(&luma);
    assert_eq!(h[0], 1);
    assert_eq!(h[255], 2);
    assert_eq!(h[7], 3);
    assert_eq!(h.iter().sum::<u64>(), 6);
}

#[test]
fn rgb_frame_goes_through_luma() {
    // Pure red has luma 2126 * 255 / 10000 = 54; white has 255. The
    // threshold settles at (27 + 127) / 2 = 77.
    let rgb = vec![255u8, 0, 0, 255, 255, 255];
    let b = Bitmap::from_u8_img_dynamic(2, 1, &rgb);
    assert_eq!(b.pixels(), &[false, true][..]);
}

#[test]
fn luma_threshold_splits_dark_and_light() {
    let luma = vec![10u8, 10, 250, 250, 10, 250];
    let b = Bitmap::from_luma(3, 2, &luma);
    assert_eq!(b.pixels(), &[false, false, true, true, false, true][..]);
}

/// The next threshold after `t`: halfway between the seeded means of the
/// two sides.
fn next_thresh(h: &[u64; 256], t: usize) -> usize {
    let side = |lo: usize, hi: usize| {
        let sum: u64 = (lo..hi).map(|l| h[l] * l as u64).sum();
        let cnt: u64 = (lo..hi).map(|l| h[l]).sum::<u64>() + 1;
        sum / cnt
    };
    ((side(0, t) + side(t, 256)) / 2) as usize
}

#[test]
fn threshold_stands_still_on_varied_histograms() {
    let mut seed: u64 = 12345;
    let mut rand = move || {
        seed = seed.wrapping_mul(6364136223846793005).wrapping_add(1442695040888963407);
        seed >> 33
    };
    for _ in 0..2000 {
        let mut h = [0u64; 256];
        let levels = 1 + rand() % 8;
        for _ in 0..levels {
            h[(rand() % 256) as usize] += 1 + rand() % 5000;
        }
        let t = u8_histo_to_threshold(&h) as usize;
        assert_eq!(next_thresh(&h, t), t);
    }
}
