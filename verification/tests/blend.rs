use panoloom::blend::{distance_transform_l1, num_bands_for, result_roi, FAR};
use panoloom::imgproc::GrayImage;
use panoloom::multiband::{
    crop_covered, laplace_pyramid, reflect_into, restore_from_laplace, saturate_u8, BandLayout,
    PlaneI16,
};
use panoloom::pyramid::{border_interpolate_reflect, pyr_down_i16c3, pyr_up_i16c3};

#[test]
fn distance_transform_simple() {
    // 5x1 mask: 0 255 255 255 0 -> distances 0 1 2 1 0.
    let mask = GrayImage::new(5, 1, vec![0, 255, 255, 255, 0]);
    let d: Vec<f32> = distance_transform_l1(&mask).iter().map(|&v| v as f32).collect();
    assert_eq!(d, vec![0.0, 1.0, 2.0, 1.0, 0.0]);
}

#[test]
fn result_roi_union() {
    let roi = result_roi(&[(-5, 2), (10, -3)], &[(20, 10), (5, 8)]);
    assert_eq!(roi, (-5, -3, 20, 15));
}

#[test]
fn distance_goes_round_corners() {
    let mut m = vec![255u8; 9];
    m[0] = 0;
    let d = distance_transform_l1(&GrayImage::new(3, 3, m));
    assert_eq!(d, vec![0, 1, 2, 1, 2, 3, 2, 3, 4]);
}

#[test]
fn a_mask_without_holes_is_far_from_any() {
    let d = distance_transform_l1(&GrayImage::new(2, 2, vec![255; 4]));
    assert!(d.iter().all(|&v| v >= FAR));
}

#[test]
fn bands_grow_with_the_square_root_of_the_area() {
    // ceil(log2(5% of the square root of the area)) - 1
    let by_formula = |w: usize, h: usize| {
        let blend_width = ((w * h) as f32).sqrt() * 5.0 / 100.0;
        ((blend_width.ln() / 2f32.ln()).ceil() - 1.0).max(1.0) as usize
    };
    for &(w, h) in &[(1000, 500), (2000, 1000), (8000, 4000), (640, 480), (30, 20)] {
        assert_eq!(num_bands_for(w, h), by_formula(w, h), "{w}x{h}");
    }
}

#[test]
fn the_band_layout_is_padded_to_even_levels() {
    let l = BandLayout::prepare(3, -7, 2, 21, 9);
    assert_eq!(l.num_bands, 3);
    assert_eq!(l.roi, (-7, 2, 24, 16));
    assert_eq!(l.roi_final, (-7, 2, 21, 9));
    // No more bands than halve the longer side to one pixel.
    assert_eq!(BandLayout::prepare(10, 0, 0, 5, 3).num_bands, 3);
    assert_eq!(BandLayout::prepare(10, 0, 0, 1, 1).num_bands, 0);
}

#[test]
fn a_fed_image_lies_inside_its_window() {
    let l = BandLayout::prepare(2, 0, 0, 64, 32);
    let f = l.feed_window(10, 6, (30, 13));
    assert!(f.x0 % 4 == 0 && f.y0 % 4 == 0 && f.x1 % 4 == 0 && f.y1 % 4 == 0);
    assert_eq!(f.x0 + f.left, 30);
    assert_eq!(f.y0 + f.top, 13);
    assert!(f.x0 + f.left + 10 <= f.x1 && f.x1 <= 64);
    assert!(f.y0 + f.top + 6 <= f.y1 && f.y1 <= 32);
}

#[test]
fn a_pyramid_folds_back_into_its_plane() {
    let data: Vec<i16> = (0..16 * 8 * 3).map(|i| ((i * 37) % 256) as i16).collect();
    let plane = PlaneI16 {
        w: 16,
        h: 8,
        data: data.clone(),
    };
    let pyr = laplace_pyramid(plane, 3);
    assert_eq!(pyr.len(), 4);
    assert_eq!((pyr[3].w, pyr[3].h), (2, 1));
    assert_ne!(pyr[0].data, data);
    let back = restore_from_laplace(pyr);
    assert_eq!((back.w, back.h), (16, 8));
    assert_eq!(back.data, data);
}

#[test]
fn halving_and_doubling_keep_a_flat_plane() {
    let flat = vec![77i16; 6 * 4 * 3];
    let (down, w, h) = pyr_down_i16c3(&flat, 6, 4);
    assert_eq!((w, h), (3, 2));
    assert!(down.iter().all(|&v| v == 77));
    let up = pyr_up_i16c3(&down, w, h, 6, 4);
    assert_eq!(up, flat);
}

#[test]
fn halving_weighs_the_neighbours() {
    // One row 0 0 256 0 0 mirrored in height: weights 1 4 6 4 1 over 16 and
    // the same downwards.
    let mut row = vec![0i16; 5 * 3];
    for c in 0..3 {
        row[2 * 3 + c] = 256;
    }
    let (down, w, h) = pyr_down_i16c3(&row, 5, 1);
    assert_eq!((w, h), (3, 1));
    assert_eq!(down[3], 96);
    assert_eq!(down[0], 32);
    assert_eq!(down[6], 32);
}

#[test]
fn mirrored_indices_of_both_kinds() {
    assert_eq!(border_interpolate_reflect(-1, 5, 1), 1);
    assert_eq!(border_interpolate_reflect(5, 5, 1), 3);
    assert_eq!(border_interpolate_reflect(-1, 5, 0), 0);
    assert_eq!(border_interpolate_reflect(5, 5, 0), 4);
    assert_eq!(border_interpolate_reflect(-7, 1, 1), 0);
}

#[test]
fn a_picture_is_mirrored_into_its_frame() {
    let img = [1u8, 1, 1, 2, 2, 2];
    let out = reflect_into(&img, 2, 1, 1, 0, 4, 1);
    let first: Vec<i16> = out.iter().step_by(3).copied().collect();
    assert_eq!(first, vec![1, 1, 2, 2]);
}

#[test]
fn uncovered_pixels_are_blank() {
    let plane = PlaneI16 {
        w: 2,
        h: 2,
        data: vec![5i16; 12],
    };
    let (raw, mask) = crop_covered(&plane, &[true, false, true, true], 2, 1);
    assert_eq!(raw, vec![5, 5, 5, 0, 0, 0]);
    assert_eq!(mask.data, vec![255, 0]);
}

#[test]
fn colours_are_cut_to_a_byte() {
    assert_eq!(saturate_u8(&[-3, 0, 17, 255, 256, 32767]), vec![0, 0, 17, 255, 255, 255]);
}
