use panoloom::fast::{fast16, make_offsets};
use panoloom::imgproc::GrayImage;

#[test]
fn detects_corners_on_texture_with_nonmax() {
    let (w, h) = (64, 64);
    let mut state = 42u32;
    let data: Vec<u8> = (0..w * h)
        .map(|_| {
            state = state.wrapping_mul(1103515245).wrapping_add(12345);
            (state >> 16) as u8
        })
        .collect();
    let img = GrayImage::new(w, h, data);
    let kps = fast16(&img, 20);
    assert!(!kps.is_empty());
    for (i, a) in kps.iter().enumerate() {
        for b in kps.iter().skip(i + 1) {
            let adjacent = (a.x as f32 - b.x as f32).abs() <= 1.0
                && (a.y as f32 - b.y as f32).abs() <= 1.0;
            assert!(!adjacent, "nonmax violated: {a:?} vs {b:?}");
        }
    }
}

#[test]
fn flat_image_has_no_corners() {
    let img = GrayImage::new(32, 32, vec![128; 32 * 32]);
    assert!(fast16(&img, 20).is_empty());
}

#[test]
fn a_lone_bright_pixel_is_one_corner() {
    let mut data = vec![50u8; 16 * 16];
    data[7 * 16 + 8] = 150;
    let img = GrayImage::new(16, 16, data);
    let kps = fast16(&img, 20);
    assert_eq!(kps.len(), 1);
    assert_eq!((kps[0].x, kps[0].y), (8, 7));
    // All of the ring is 100 darker: the corner holds up to a threshold of 99.
    assert_eq!(kps[0].response, 99);
    assert!(fast16(&img, 100).is_empty());
    assert_eq!(fast16(&img, 99).len(), 1);
}

#[test]
fn images_smaller_than_the_ring_have_no_corners() {
    let img = GrayImage::new(6, 6, (0..36).map(|v| v * 7).collect());
    assert!(fast16(&img, 1).is_empty());
}

#[test]
fn the_ring_goes_round_once_and_a_half() {
    let p = make_offsets(100);
    assert_eq!(p[0], 300);
    assert_eq!(p[4], 3);
    assert_eq!(p[8], -300);
    assert_eq!(p[12], -3);
    for k in 16..25 {
        assert_eq!(p[k], p[k - 16]);
    }
}
