use panoloom::export::{
    check_canvas, pair_sources, EncodeError, EncodeFault, ExportError, Exporter,
};
use panoloom::imgproc::GrayImage;
use panoloom::layout::{
    covered_rows, even_width, max_canvas_bytes, max_export_width, plan_bands, wrap_column, Entry,
    Host,
};
use panoloom::report::{alignment_report, export_plan};
use panoloom::warp::PixelImage;

#[test]
fn the_widest_export_is_the_last_that_fits() {
    for host in [Host::Wasm32, Host::Native] {
        let w = max_export_width(host) as u64;
        assert_eq!(w % 2, 0);
        assert!(w * (w / 2) * 4 <= max_canvas_bytes(host));
        assert!((w + 2) * ((w + 2) / 2) * 4 > max_canvas_bytes(host));
        assert!(check_canvas(w as usize, host).is_ok());
        assert!(check_canvas(w as usize + 2, host).is_err());
    }
}

#[test]
fn a_web_page_addresses_less_than_a_machine() {
    assert_eq!(max_canvas_bytes(Host::Wasm32), 1_250_000_000);
    assert_eq!(max_canvas_bytes(Host::Native), 32_000_000_000);
    assert_eq!(max_export_width(Host::Wasm32), 25_000);
    assert_eq!(max_export_width(Host::Native), 126_490);
    assert!(check_canvas(30_000, Host::Native).is_ok());
    assert_eq!(
        check_canvas(30_000, Host::Wasm32).unwrap_err().message(),
        "panorama would be 30000x15000 (1.7 GB), over the 1.2 GB this build can address \u{2014} export at 25000 px or less"
    );
}

#[test]
fn too_large_a_canvas_is_refused_with_advice() {
    let e = check_canvas(200_000, Host::Native).unwrap_err();
    let fits = max_export_width(Host::Native);
    assert_eq!(
        e.message(),
        format!(
            "panorama would be 200000x100000 (74.5 GB), over the {:.1} GB this build can address \u{2014} export at {} px or less",
            max_canvas_bytes(Host::Native) as f64 / (1u64 << 30) as f64,
            fits
        )
    );
}

#[test]
fn sources_and_sizes_are_looked_up() {
    let pairs = pair_sources(&[3, 9], &[9, 3], &[1, 3, 9]).unwrap();
    assert_eq!(pairs, vec![(1, 1), (0, 2)]);
    let e = pair_sources(&[3, 9], &[3], &[3, 9]).unwrap_err();
    assert_eq!(e.message(), "missing registration source");
    let e = pair_sources(&[3, 9], &[3, 9], &[3]).unwrap_err();
    assert_eq!(e.message(), "missing full size");
}

#[test]
fn columns_are_counted_round() {
    assert_eq!(wrap_column(0, 10), 0);
    assert_eq!(wrap_column(-1, 10), 9);
    assert_eq!(wrap_column(-10, 10), 0);
    assert_eq!(wrap_column(27, 10), 7);
}

#[test]
fn rows_that_a_mask_uses() {
    let m = GrayImage::new(2, 4, vec![0, 0, 0, 1, 1, 0, 0, 0]);
    assert_eq!(covered_rows(&m), Some((1, 2)));
    assert_eq!(covered_rows(&GrayImage::new(2, 2, vec![0; 4])), None);
}

#[test]
fn bands_cut_the_rows_once() {
    let entries = [
        Entry::new(0, false, (0, 0, 10, 700), 4000),
        Entry::new(1, false, (5, 1200, 10, 700), 4000),
    ];
    let bands = plan_bands((100, 1900), &entries, &[42, 7]);
    let cuts: Vec<(usize, usize)> = bands.iter().map(|b| (b.y0, b.y1)).collect();
    assert_eq!(cuts, vec![(100, 868), (868, 1636), (1636, 1900)]);
    // Band 0 reaches, with its padding, to row 1124; band 1 from row 612.
    assert_eq!(bands[0].needed, vec![42]);
    assert_eq!(bands[1].needed, vec![7, 42]);
    assert_eq!(bands[2].needed, vec![7]);
}

/// One source of 40 columns and 20 rows on a canvas of 64 by 32.
fn small_export() -> Exporter {
    let entries = vec![Entry::new(0, false, (10, 6, 40, 20), 64)];
    Exporter::new(64, 0, vec![5], entries, &[Some((0, 20))], Host::Native).unwrap()
}

fn grey(v: u8, e: &Exporter) -> (Vec<u8>, GrayImage) {
    let (w, h) = (e.layout().strip.2, 32);
    let mut mask = vec![0u8; w * h];
    for y in 6..26 {
        for x in 0..w {
            mask[y * w + x] = 255;
        }
    }
    (vec![v; w * h * 3], GrayImage::new(w, h, mask))
}

#[test]
fn an_export_keeps_what_its_images_cover() {
    let e = small_export();
    assert_eq!(e.canvas_size(), (64, 32));
    assert_eq!(e.crop(), (10, 6, 40, 20));
    assert_eq!(e.bands().len(), 1);
    assert_eq!((e.bands()[0].y0, e.bands()[0].y1), (6, 26));
    assert_eq!(e.entries().len(), 1);
    assert_eq!(
        export_plan(&e),
        "{\"width\":40,\"height\":20,\"left\":10,\"top\":6,\"fullWidth\":64,\"fullHeight\":32,\
         \"bands\":[{\"y0\":6,\"y1\":26,\"needed\":[5]}]}"
    );
}

#[test]
fn an_export_that_wraps_keeps_the_full_width() {
    let entries = vec![
        Entry::new(0, false, (0, 0, 50, 32), 64),
        Entry::new(1, false, (40, 0, 24, 32), 64),
        Entry::new(0, true, (0, 0, 50, 32), 64),
    ];
    let rows = [Some((0, 32)); 3];
    let e = Exporter::new(64, 0, vec![1, 2], entries, &rows, Host::Native).unwrap();
    assert_eq!(e.crop(), (0, 0, 64, 32));
    assert_eq!(e.layout().strip, (0, 0, 114, 32));
    assert_eq!(e.layout().ext_start, 64);
    assert_eq!(e.layout().ext_trim, 25);
    assert_eq!(e.layout().originals_end, 64);
}

#[test]
fn a_band_needs_its_images() {
    let mut e = small_export();
    assert_eq!(e.band_window(1).unwrap_err().message(), "band out of range");
    assert_eq!(e.band_window(0).unwrap_err().message(), "image 5 not loaded");
    let img = PixelImage::new(1, 1, 3, vec![0; 3]);
    assert_eq!(
        e.set_full_image(6, img.clone()).unwrap_err().message(),
        "unknown image id"
    );
    e.set_full_image(5, img).unwrap();
    assert!(e.full_image(5).is_some());
    assert_eq!(e.band_window(0).unwrap(), (0, 32));
    assert_eq!(e.entry_rows(0, 0, 32), Some((0, 20)));
    assert_eq!(e.entry_rows(0, 8, 12), Some((2, 6)));
    assert_eq!(e.entry_rows(0, 27, 32), None);
    e.drop_full_image(5);
    assert!(e.full_image(5).is_none());
}

#[test]
fn unfinished_exports_give_no_file() {
    let e = small_export();
    assert_eq!(e.finish(90).unwrap_err().message(), "not all bands composited");
}

#[test]
fn a_finished_export_is_the_cropped_canvas() {
    let mut e = small_export();
    e.set_full_image(5, PixelImage::new(1, 1, 3, vec![0; 3])).unwrap();
    let (blended, coverage) = grey(120, &e);
    e.composite_band(0, &blended, &coverage).unwrap();
    let data = e.picture();
    assert_eq!(data.len(), 40 * 20 * 3);
    assert!(data.iter().all(|&v| v == 120));
}

/// Whether `bytes` are a JPEG file of the given size.
fn is_jpeg(bytes: &[u8], width: u16, height: u16) -> bool {
    let frame = bytes
        .windows(2)
        .position(|w| w == [0xFF, 0xC0])
        .expect("no frame header");
    let size = [
        (height >> 8) as u8,
        height as u8,
        (width >> 8) as u8,
        width as u8,
    ];
    bytes[..2] == [0xFF, 0xD8]
        && bytes[bytes.len() - 2..] == [0xFF, 0xD9]
        && bytes[frame + 5..frame + 9] == size
}

#[test]
fn a_finished_export_is_a_jpeg_of_the_crop() {
    let mut e = small_export();
    e.set_full_image(5, PixelImage::new(1, 1, 3, vec![0; 3])).unwrap();
    let (blended, coverage) = grey(120, &e);
    e.composite_band(0, &blended, &coverage).unwrap();
    let (bytes, w, h) = e.finish(90).unwrap();
    assert_eq!((w, h), (40, 20));
    assert!(is_jpeg(&bytes, 40, 20));
}

#[test]
fn quality_and_picture_decide_the_file() {
    let file = |v: u8, quality: u8| {
        let mut e = small_export();
        e.set_full_image(5, PixelImage::new(1, 1, 3, vec![0; 3])).unwrap();
        let (blended, coverage) = grey(v, &e);
        e.composite_band(0, &blended, &coverage).unwrap();
        e.finish(quality).unwrap().0
    };
    assert_eq!(file(120, 90), file(120, 90));
    assert_ne!(file(120, 90), file(20, 90));
    assert_ne!(file(120, 90), file(120, 30));
}

#[test]
fn what_the_encoder_says_is_passed_on() {
    let e = ExportError::Encode(EncodeError {
        fault: EncodeFault::ZeroImageDimensions {
            width: 0,
            height: 3,
        },
        text: "no width".to_string(),
    });
    assert_eq!(e.message(), "jpeg encode: no width");
}

#[test]
fn an_alignment_is_reported_by_how_it_was_found() {
    assert_eq!(
        alignment_report(&[4, 9, 2], &[false, true, false], &[7], "1234.5"),
        "{\"aligned\":[4,2],\"rescued\":[9],\"dropped\":[7],\"warpedImageScale\":1234.5}"
    );
    assert_eq!(
        alignment_report(&[0, 10, 4_294_967_295], &[true, true, true], &[1_234_567_890], "1"),
        "{\"aligned\":[],\"rescued\":[0,10,4294967295],\"dropped\":[1234567890],\"warpedImageScale\":1}"
    );
    assert_eq!(
        alignment_report(&[], &[], &[], "0"),
        "{\"aligned\":[],\"rescued\":[],\"dropped\":[],\"warpedImageScale\":0}"
    );
}

#[test]
fn a_canvas_is_twice_as_wide_as_high() {
    assert_eq!((even_width(65), even_width(64), even_width(1)), (64, 64, 0));
    let entries = vec![Entry::new(0, false, (10, 6, 40, 20), 64)];
    let e = Exporter::new(65, 0, vec![5], entries, &[Some((0, 20))], Host::Native).unwrap();
    assert_eq!(e.canvas_size(), (64, 32));
    assert_eq!(e.crop(), (10, 6, 40, 20));
}

#[test]
fn an_oversized_export_is_refused_at_its_even_width() {
    let entries = vec![Entry::new(0, false, (10, 6, 40, 20), 200_000)];
    let e = Exporter::new(200_001, 0, vec![5], entries, &[Some((0, 20))], Host::Native);
    assert!(e.err().unwrap().message().starts_with("panorama would be 200000x100000 (74.5 GB)"));
}

#[test]
fn sizes_are_told_up_to_the_last_byte() {
    let e = ExportError::CanvasTooLarge {
        width: 0x8000_0000,
        height: 0x4000_0000,
        limit: 0x4000_0000,
        fits: 2,
    };
    assert_eq!(
        e.message(),
        "panorama would be 2147483648x1073741824 (8589934592.0 GB), over the 1.0 GB this build can address \u{2014} export at 2 px or less"
    );
}
