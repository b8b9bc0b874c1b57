use panoloom::exposure::{
    border_reflect_101, cut_blocks, overlap_roi, shared_pixels, BlockView, OverlapTable, RgbImage,
};
use panoloom::imgproc::{reflect101, GrayImage};

#[test]
fn overlap_roi_matches_opencv() {
    // Touching edges do not overlap.
    assert_eq!(overlap_roi((0, 0), (10, 10), (10, 0), (10, 10)), None);
    assert_eq!(
        overlap_roi((0, 0), (10, 10), (5, 3), (10, 10)),
        Some((5, 3, 5, 7))
    );
    // Identical rects (the i == j diagonal case).
    assert_eq!(
        overlap_roi((-3, 2), (4, 5), (-3, 2), (4, 5)),
        Some((-3, 2, 4, 5))
    );
}

#[test]
fn border_reflect_101_matches_opencv() {
    assert_eq!(border_reflect_101(-1, 5), 1);
    assert_eq!(border_reflect_101(-2, 5), 2);
    assert_eq!(border_reflect_101(5, 5), 3);
    assert_eq!(border_reflect_101(6, 5), 2);
    assert_eq!(border_reflect_101(-1, 1), 0);
    assert_eq!(border_reflect_101(1, 2), 1);
    assert_eq!(border_reflect_101(2, 2), 0);
}

#[test]
fn blocks_cover_the_image_once() {
    let (per_w, per_h, blocks) = cut_blocks((-10, 4), 70, 33);
    assert_eq!((per_w, per_h), (3, 2));
    assert_eq!(blocks.len(), 6);
    let area: usize = blocks.iter().map(|b| b.width * b.height).sum();
    assert_eq!(area, 70 * 33);
    assert_eq!(blocks[0].corner, (-10, 4));
    for b in &blocks {
        assert_eq!(b.corner.0, -10 + b.x0 as i32);
        assert_eq!(b.corner.1, 4 + b.y0 as i32);
    }
}

fn view<'a>(
    corner: (i32, i32),
    img: &'a RgbImage,
    mask: &'a GrayImage,
) -> BlockView<'a> {
    let (_, _, blocks) = cut_blocks(corner, img.width, img.height);
    BlockView {
        block: blocks[0],
        img,
        mask,
    }
}

#[test]
fn shared_pixels_are_weighed_by_colour() {
    let a = RgbImage::new(2, 1, vec![3, 4, 0, 1, 2, 2]);
    let b = RgbImage::new(2, 1, vec![6, 0, 8, 0, 0, 0]);
    let full = GrayImage::new(2, 1, vec![255, 255]);
    // Column 1 of the first lies on column 0 of the second.
    let r = shared_pixels(&view((0, 0), &a, &full), &view((1, 0), &b, &full));
    assert_eq!(r, Some(vec![(9, 100)]));
    // Apart.
    let r = shared_pixels(&view((0, 0), &a, &full), &view((2, 0), &b, &full));
    assert_eq!(r, None);
    // A mask that takes the pixel out.
    let holed = GrayImage::new(2, 1, vec![255, 0]);
    let r = shared_pixels(&view((0, 0), &a, &holed), &view((1, 0), &b, &full));
    assert_eq!(r, Some(vec![]));
}

#[test]
fn images_that_share_nothing_are_no_unknowns() {
    let mut t = OverlapTable::new(3);
    t.note(0, 0, 40);
    t.note(0, 2, 7);
    assert_eq!(t.unknowns(), vec![0, 2]);
    assert_eq!(t.counts[2], 7);
    assert_eq!(t.counts[6], 7);
}

#[test]
fn rows_hold_three_bytes_a_pixel() {
    let a = RgbImage::new(1, 2, vec![1, 2, 3, 4, 5, 6]);
    assert_eq!(a.row(1), &[4, 5, 6]);
}

#[test]
fn both_reflections_agree_and_repeat() {
    for len in 2..7i64 {
        for p in -20..20i64 {
            let r = border_reflect_101(p, len);
            assert_eq!(reflect101(p as isize, len as usize), r);
            assert_eq!(border_reflect_101(p + 2 * (len - 1), len), r);
            let (r, period) = (r as i64, 2 * (len - 1));
            assert!((r - p) % period == 0 || (r + p) % period == 0);
        }
    }
    assert_eq!(border_reflect_101(i64::MAX, i64::MAX), i64::MAX as usize - 2);
    assert_eq!(reflect101(isize::MAX, isize::MAX as usize), isize::MAX as usize - 2);
}
