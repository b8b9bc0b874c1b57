use panoloom::fast::FastKeypoint;
use panoloom::imgproc::GrayImage;
use panoloom::orb::{
    describe, harris_sums, ic_moments, retain_best, run_by_image_border, umax_table,
};

#[test]
fn umax_is_symmetric_circle() {
    let umax = umax_table(15);
    assert_eq!(umax[0], 15);
    for v in 1..=15usize {
        assert!(umax[v] <= umax[v - 1]);
    }
}

#[test]
fn the_disc_of_the_usual_patch() {
    assert_eq!(
        umax_table(15)[..16],
        [15, 15, 15, 15, 14, 14, 14, 13, 13, 12, 11, 10, 9, 8, 6, 3]
    );
}

fn kp(x: usize, y: usize) -> FastKeypoint {
    FastKeypoint { x, y, response: 1 }
}

#[test]
fn keypoints_near_the_border_are_dropped() {
    let kps = [kp(30, 30), kp(31, 31), kp(68, 31), kp(69, 31), kp(31, 69)];
    let kept = run_by_image_border(&kps, 100, 100, 31);
    assert_eq!(kept, vec![kp(31, 31), kp(68, 31)]);
    // Too small for any.
    assert!(run_by_image_border(&kps, 62, 100, 31).is_empty());
    // No border.
    assert_eq!(run_by_image_border(&kps, 100, 100, 0).len(), 5);
}

#[test]
fn ties_with_the_last_best_are_kept() {
    let scores = [5, 9, 3, 5, 7, 5];
    let mut kept = retain_best(&scores, 3);
    kept.sort_unstable();
    assert_eq!(kept, vec![0, 1, 3, 4, 5]);
    assert_eq!(retain_best(&scores, 6), vec![0, 1, 2, 3, 4, 5]);
    assert!(retain_best(&scores, 0).is_empty());
    let mut kept = retain_best(&scores, 1);
    kept.sort_unstable();
    assert_eq!(kept, vec![1]);
}

#[test]
fn slopes_of_flat_and_tilted_blocks() {
    let flat = GrayImage::new(12, 12, vec![9; 144]);
    assert_eq!(harris_sums(&flat, 5, 5), (0, 0, 0));
    let tilted = GrayImage::new(12, 12, (0..144).map(|i| (i % 12) as u8 * 3).collect());
    // Each pixel's slope across is 8 * 3 and there is none down.
    assert_eq!(harris_sums(&tilted, 5, 5), (49 * 24 * 24, 0, 0));
}

#[test]
fn moments_point_to_the_bright_side() {
    let umax = umax_table(3);
    let flat = GrayImage::new(9, 9, vec![10; 81]);
    assert_eq!(ic_moments(&flat, 4, 4, &umax, 3), (0, 0));
    let mut data = vec![0u8; 81];
    data[4 * 9 + 6] = 100;
    let right = GrayImage::new(9, 9, data);
    assert_eq!(ic_moments(&right, 4, 4, &umax, 3), (0, 200));
    let mut data = vec![0u8; 81];
    data[6 * 9 + 4] = 100;
    let below = GrayImage::new(9, 9, data);
    assert_eq!(ic_moments(&below, 4, 4, &umax, 3), (200, 0));
}

#[test]
fn descriptor_bits_compare_samples() {
    let img = GrayImage::new(3, 1, vec![10, 20, 30]);
    // Bit 0 compares left with right, all others a pixel with itself.
    let mut offs = vec![(0, 0); 512];
    offs[0] = (-1, 0);
    offs[1] = (1, 0);
    let d = describe(&img, 1, 0, &offs);
    assert_eq!(d[0], 1);
    assert!(d[1..].iter().all(|&b| b == 0));
    // The other way round the first sample is not darker.
    offs.swap(0, 1);
    assert_eq!(describe(&img, 1, 0, &offs), [0u8; 32]);
    // Bit 7 of the last byte.
    offs[510] = (-1, 0);
    assert_eq!(describe(&img, 1, 0, &offs)[31], 128);
}

#[test]
fn blocks_go_on_across_the_sides() {
    // The rows lie end to end: one step past the right side is the left side
    // of the row below.
    let data: Vec<u8> = (0..144).map(|i| (i * i % 251) as u8).collect();
    let img = GrayImage::new(12, 12, data.clone());
    let at = |x: i64, y: i64| data[(y * 12 + x) as usize] as i64;
    let (mut a, mut b, mut c) = (0, 0, 0);
    for y in 3..10 {
        for x in 8..15 {
            let ix = 2 * (at(x + 1, y) - at(x - 1, y)) + at(x + 1, y - 1) - at(x - 1, y - 1)
                + at(x + 1, y + 1)
                - at(x - 1, y + 1);
            let iy = 2 * (at(x, y + 1) - at(x, y - 1)) + at(x - 1, y + 1) - at(x - 1, y - 1)
                + at(x + 1, y + 1)
                - at(x + 1, y - 1);
            a += ix * ix;
            b += iy * iy;
            c += ix * iy;
        }
    }
    assert_eq!(harris_sums(&img, 11, 6), (a, b, c));
}

#[test]
fn discs_go_on_across_the_sides() {
    let umax = umax_table(3);
    let mut data = vec![0u8; 81];
    // Two columns past the right side of row 4 is column 1 of row 5.
    data[5 * 9 + 1] = 100;
    let img = GrayImage::new(9, 9, data);
    assert_eq!(ic_moments(&img, 8, 4, &umax, 3), (0, 200));
}

#[test]
fn samples_go_on_across_the_sides() {
    let img = GrayImage::new(3, 2, vec![10, 20, 30, 40, 50, 60]);
    let mut offs = vec![(0, 0); 512];
    // Sample 1 is one past the right side of row 0: the first of row 1.
    offs[1] = (1, 0);
    assert_eq!(describe(&img, 2, 0, &offs)[0], 1);
    // Sample 2 is one past the left side of row 1: the last of row 0.
    offs[1] = (0, 0);
    offs[2] = (-1, 0);
    assert_eq!(describe(&img, 0, 1, &offs)[0], 2);
}
