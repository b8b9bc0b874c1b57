use panoloom::imgproc::GrayImage;
use panoloom::masks::{dilate3, erode3, intersect_masks, suppress_rescued_masks};
use panoloom::painted::{open_part, preferred_part, yield_to_preferred};

#[test]
fn dilation_and_erosion_by_one() {
    let mut m = vec![0u8; 25];
    m[12] = 255;
    let grown = dilate3(&GrayImage::new(5, 5, m));
    for y in 0..5 {
        for x in 0..5 {
            let near = (1..4).contains(&x) && (1..4).contains(&y);
            assert_eq!(grown.at(x, y), if near { 255 } else { 0 });
        }
    }
    let back = erode3(&grown.data, 5, 5);
    assert_eq!(back.iter().filter(|&&v| v != 0).count(), 1);
    assert_eq!(back[12], 255);
}

#[test]
fn erosion_keeps_what_touches_the_edge() {
    assert_eq!(erode3(&[255; 4], 2, 2), vec![255; 4]);
    assert_eq!(erode3(&[255, 255, 255, 0], 4, 1), vec![255, 255, 0, 0]);
}

#[test]
fn masks_are_cut_bit_by_bit() {
    let a = GrayImage::new(3, 1, vec![255, 255, 0]);
    let b = GrayImage::new(3, 1, vec![255, 0, 255]);
    assert_eq!(intersect_masks(&a, &b).data, vec![255, 0, 0]);
}

#[test]
fn rescued_images_yield_to_anchored_ones() {
    // The anchored image covers columns 0 to 4 of its six, the rescued one
    // lies three columns further right.
    let row = [255u8, 255, 255, 255, 255, 0];
    let anchored = GrayImage::new(6, 3, row.repeat(3));
    let rescued = GrayImage::new(6, 3, vec![255; 18]);
    let mut masks = vec![anchored, rescued];
    suppress_rescued_masks(&mut masks, &[(0, 0), (3, 0)], &[false, true], 1);
    assert_eq!(masks[0].data, row.repeat(3));
    for y in 0..3 {
        // The anchored coverage, one column narrower, ends with column 3.
        assert_eq!(masks[1].row(y), &[0, 255, 255, 255, 255, 255]);
    }
    let mut masks = vec![
        GrayImage::new(6, 3, row.repeat(3)),
        GrayImage::new(6, 3, vec![255; 18]),
    ];
    suppress_rescued_masks(&mut masks, &[(0, 0), (3, 0)], &[false, true], 0);
    assert_eq!(masks[1].row(0), &[0, 0, 255, 255, 255, 255]);
}

#[test]
fn with_nothing_rescued_nothing_changes() {
    let mut masks = vec![
        GrayImage::new(2, 2, vec![255; 4]),
        GrayImage::new(2, 2, vec![255; 4]),
    ];
    suppress_rescued_masks(&mut masks, &[(0, 0), (0, 0)], &[false, false], 2);
    assert!(masks.iter().all(|m| m.data == vec![255; 4]));
}

#[test]
fn painting_is_scaled_with_the_image() {
    // Left half excluded, lower right quarter preferred.
    let p = GrayImage::new(4, 4, vec![1, 1, 0, 0, 1, 1, 0, 0, 1, 1, 2, 2, 1, 1, 2, 2]);
    assert_eq!(open_part(&p, 2, 2).data, vec![0, 255, 0, 255]);
    assert_eq!(preferred_part(&p, 2, 2).data, vec![0, 0, 0, 255]);
    assert_eq!(preferred_part(&p, 4, 2).data, vec![0, 0, 0, 0, 0, 0, 255, 255]);
}

#[test]
fn preferred_images_win_their_points() {
    // Two images of three pixels, the second one pixel further right.
    let mut masks = vec![
        GrayImage::new(3, 1, vec![255; 3]),
        GrayImage::new(3, 1, vec![255, 0, 255]),
    ];
    let preferred = [
        GrayImage::new(3, 1, vec![0; 3]),
        GrayImage::new(3, 1, vec![255, 255, 0]),
    ];
    yield_to_preferred(&mut masks, &preferred, &[(0, 0), (1, 0)]);
    // Point 1 goes to the second image; point 2 it does not cover.
    assert_eq!(masks[0].data, vec![255, 0, 255]);
    assert_eq!(masks[1].data, vec![255, 0, 255]);
}
