use panoloom::imgproc::GrayImage;
use panoloom::warp::{
    bilinear_tab, border_index, remap, roi_of, row_window, sample, Border, Interp, PixelImage,
};

#[test]
fn border_reflect_indexing() {
    assert_eq!(border_index(-1, 5, Border::Reflect), Some(0));
    assert_eq!(border_index(-2, 5, Border::Reflect), Some(1));
    assert_eq!(border_index(5, 5, Border::Reflect), Some(4));
    assert_eq!(border_index(6, 5, Border::Reflect), Some(3));
    assert_eq!(border_index(-1, 5, Border::Constant0), None);
    assert_eq!(border_index(5, 5, Border::Constant0), None);
}

#[test]
fn bilinear_weights_add_up() {
    let tab = bilinear_tab();
    assert_eq!(tab.len(), 1024);
    for w in &tab {
        assert_eq!(w.iter().map(|&v| v as i32).sum::<i32>(), 32768);
    }
    assert_eq!(tab[16 * 32 + 16], [8192, 8192, 8192, 8192]);
    assert_eq!(tab[8], [24576, 8192, 0, 0]);
}

#[test]
fn reading_between_pixels() {
    let img = PixelImage::new(2, 2, 1, vec![0, 100, 50, 150]);
    let tab = bilinear_tab();
    let read = |sx: i32, sy: i32, interp: Interp, border: Border| {
        let mut out = Vec::new();
        sample(&img, &tab, sx, sy, interp, border, &mut out);
        out[0]
    };
    // On a pixel, between two, between four.
    assert_eq!(read(32, 0, Interp::Linear, Border::Reflect), 100);
    assert_eq!(read(16, 0, Interp::Linear, Border::Reflect), 50);
    assert_eq!(read(16, 16, Interp::Linear, Border::Reflect), 75);
    // Beyond the edge: mirrored, or nothing.
    assert_eq!(read(48, 0, Interp::Linear, Border::Reflect), 100);
    assert_eq!(read(48, 0, Interp::Linear, Border::Constant0), 50);
    assert_eq!(read(1, 1, Interp::Nearest, Border::Constant0), 150);
    assert_eq!(read(-1, 0, Interp::Nearest, Border::Constant0), 0);
    assert_eq!(read(-1, 0, Interp::Nearest, Border::Reflect), 0);
}

#[test]
fn a_flat_image_reads_flat_everywhere() {
    let img = PixelImage::new(3, 3, 3, vec![91; 27]);
    let map = [(-500, 77), (13, -999), (40, 40), (95, 31)];
    let out = remap(&img, &map, 2, 2, Interp::Linear, Border::Reflect);
    assert_eq!((out.width, out.height, out.channels), (2, 2, 3));
    assert!(out.data.iter().all(|&v| v == 91));
}

#[test]
fn remap_reads_pixel_by_pixel() {
    let img = PixelImage::new(2, 1, 3, vec![1, 2, 3, 4, 5, 6]);
    let out = remap(&img, &[(1, 0), (0, 0), (7, 0)], 3, 1, Interp::Nearest, Border::Constant0);
    assert_eq!(out.data, vec![4, 5, 6, 1, 2, 3, 0, 0, 0]);
}

#[test]
fn row_windows_are_cut_to_the_image() {
    assert_eq!(row_window(3, 8, 10), (3, 8, 5));
    assert_eq!(row_window(3, 80, 10), (3, 10, 7));
    assert_eq!(row_window(30, 80, 10), (10, 10, 0));
    assert_eq!(row_window(5, 2, 10), (5, 2, 0));
}

#[test]
fn rectangles_hold_both_corners() {
    assert_eq!(roi_of((-2, 5), (7, 5)), (-2, 5, 10, 1));
}

#[test]
fn a_gray_image_has_one_channel() {
    let img = PixelImage::from_gray(&GrayImage::new(2, 1, vec![4, 9]));
    assert_eq!((img.width, img.height, img.channels), (2, 1, 1));
    assert_eq!(img.data, vec![4, 9]);
}
