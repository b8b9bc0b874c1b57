use panoloom::image::RgbaImage;
use panoloom::imgproc::{reflect101, rgb_to_gray_cv, rgba_to_gray_cv, GrayImage};

#[test]
fn gray_matches_cv2_fixed_point() {
    let rgb = [50, 200, 10, 0, 0, 255, 255, 0, 0, 67, 45, 123];
    let gray = rgb_to_gray_cv(&rgb, 4, 1);
    assert_eq!(gray.data, vec![133, 29, 76, 60]);
}

#[test]
fn reflect101_border() {
    assert_eq!(reflect101(-1, 5), 1);
    assert_eq!(reflect101(-2, 5), 2);
    assert_eq!(reflect101(5, 5), 3);
    assert_eq!(reflect101(6, 5), 2);
    assert_eq!(reflect101(2, 5), 2);
}

#[test]
fn reflection_goes_on_as_far_as_it_must() {
    // Period 8: ... 3 2 1 [0 1 2 3 4] 3 2 1 0 1 ...
    assert_eq!(reflect101(8, 5), 0);
    assert_eq!(reflect101(-13, 5), 3);
    assert_eq!(reflect101(100, 5), 4);
    assert_eq!(reflect101(0, 1), 0);
}

#[test]
fn alpha_does_not_change_the_luma() {
    let a = rgba_to_gray_cv(&[50, 200, 10, 0, 67, 45, 123, 9], 2, 1);
    let b = rgba_to_gray_cv(&[50, 200, 10, 255, 67, 45, 123, 77], 2, 1);
    assert_eq!(a.data, vec![133, 60]);
    assert_eq!(a.data, b.data);
}

#[test]
fn pixels_and_rows_are_read_row_by_row() {
    let img = GrayImage::new(3, 2, vec![1, 2, 3, 4, 5, 6]);
    assert_eq!(img.at(2, 0), 3);
    assert_eq!(img.at(0, 1), 4);
    assert_eq!(img.row(1), &[4, 5, 6]);
}

#[test]
fn gray_matches_opencv_coefficients() {
    let img = RgbaImage::new(2, 1, vec![255, 0, 0, 255, 0, 255, 0, 255]).unwrap();
    let gray = img.to_gray();
    assert_eq!(gray, vec![76, 150]);
}

#[test]
fn rejects_mismatched_buffer() {
    assert!(RgbaImage::new(2, 2, vec![0; 3]).is_err());
}

#[test]
fn the_refusal_of_a_buffer_names_the_sizes() {
    let e = RgbaImage::new(20, 31, vec![0; 3]).unwrap_err();
    assert_eq!(e, "RGBA buffer length 3 does not match 20x31x4 = 2480");
    let e = RgbaImage::new(1_000_000, 1_000_000, Vec::new()).unwrap_err();
    assert_eq!(
        e,
        "RGBA buffer length 0 does not match 1000000x1000000x4 = 4000000000000"
    );
}

#[test]
fn both_grays_agree() {
    let mut pixels = Vec::new();
    let mut state = 7u32;
    for _ in 0..4096 {
        state = state.wrapping_mul(1103515245).wrapping_add(12345);
        pixels.push((state >> 24) as u8);
        pixels.push((state >> 16) as u8);
        pixels.push((state >> 8) as u8);
        pixels.push(state as u8);
    }
    let img = RgbaImage::new(4096, 1, pixels.clone()).unwrap();
    let gray = img.to_gray();
    assert_eq!(gray, rgba_to_gray_cv(&pixels, 4096, 1).data);
    for (i, px) in pixels.chunks(4).enumerate() {
        let (r, g, b) = (px[0] as u32, px[1] as u32, px[2] as u32);
        let want = (4899 * r + 9617 * g + 1868 * b + 8192) >> 14;
        assert_eq!(gray[i] as u32, want, "{px:?}");
    }
}

#[test]
fn luma_is_rounded_in_fixed_point() {
    // 72.50 in real numbers, just below the half in fixed point.
    let img = RgbaImage::new(1, 1, vec![1, 123, 0, 9]).unwrap();
    assert_eq!(img.to_gray(), vec![72]);
}
