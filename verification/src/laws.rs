//! What the operations promise, stated of what they are given and of what they
//! return.

use crate::border::mirror101;
use crate::engine::drop_alpha;
use crate::export::check_canvas;
use crate::export::Exporter;
use crate::exposure::border_reflect_101;
use crate::image::RgbaImage;
use crate::imgproc::lemma_luma;
use crate::imgproc::reflect101;
use crate::imgproc::rgb_to_gray_cv;
use crate::imgproc::rgba_to_gray_cv;
use crate::imgproc::GrayImage;
use crate::layout::canvas_bytes;
use crate::layout::max_export_width;
use crate::layout::Host;
use crate::masks::cell;
use crate::masks::dilate3;
use crate::masks::intersect_masks;
use crate::masks::is_local_max;
use crate::matcher::best_of_2_nearest_raw;
use crate::matcher::ham;
use crate::matcher::hamming;
use crate::matcher::lemma_matches_are_clear;
use crate::matcher::lemma_one_bit;
use crate::matcher::match_confidence;
use crate::matcher::Descriptor;
use crate::matcher::RawMatch;
use crate::matcher::Ratio;
use crate::multiband::laplace_levels;
use crate::multiband::laplace_pyramid;
use crate::multiband::lemma_restore_laplace;
use crate::multiband::planes;
use crate::multiband::restore_from_laplace;
use crate::multiband::PlaneI16;
use crate::orb::describe;
use crate::orb::harris_sums;
use crate::orb::ic_moments;
use crate::patch::lemma_descriptor_bits;
use crate::patch::lemma_moment_response;
use crate::patch::lemma_tilted_block;
use crate::patch::lit;
use crate::patch::surrounded;
use crate::pyramid::border_interpolate_reflect;
use crate::pyramid::lemma_flat;
use crate::pyramid::pyr_down_i16c3;
use crate::pyramid::pyr_up_i16c3;
use crate::pyramid::px3;
use crate::pyramid::within;
use crate::response::doubled_share;
use crate::response::halved_share;
use crate::response::lemma_down_response;
use crate::response::lemma_up_response;
use crate::response::raised;
use crate::shown::lemma_picture_is_crop;
use vstd::prelude::*;

verus! {

/// Halving a plane smooths it: raising one component of a pixel by `d` raises
/// that component of a halved pixel by as many 256ths of `d` as the pixel has
/// shares in it, across times down, to the nearest; no other component
/// changes, and a flat plane stays flat.
pub proof fn law_halving(
    a: &[i16],
    b: &[i16],
    w: usize,
    h: usize,
    ra: (Vec<i16>, usize, usize),
    rb: (Vec<i16>, usize, usize),
    sx: int,
    sy: int,
    c: int,
    d: int,
    x: int,
    y: int,
    e: int,
    v: int,
)
    requires
        a@.len() == w * h * 3,
        w <= i32::MAX,
        h <= i32::MAX,
        raised(a@, b@, w as int, sx, sy, c, d),
        0 <= sx < w,
        0 <= sy < h,
        0 <= c < 3,
        call_ensures(pyr_down_i16c3, (a, w, h), ra),
        call_ensures(pyr_down_i16c3, (b, w, h), rb),
        0 <= x < (w + 1) / 2,
        0 <= y < (h + 1) / 2,
        0 <= e < 3,
    ensures
        ra.1 == (w + 1) / 2,
        ra.2 == (h + 1) / 2,
        ({
            let q = (y * ra.1 + x) * 3 + e;
            let change = 256 * (rb.0@[q] - ra.0@[q]);
            &&& e == c ==> {
                let due = halved_share(x, sx, w as int) * halved_share(y, sy, h as int) * d;
                -256 < change - due < 256
            }
            &&& e != c ==> change == 0
            &&& within(a@, v, v) ==> ra.0@[q] == v
        }),
{
    let (wi, hi) = (w as int, h as int);
    lemma_down_response(a@, b@, wi, hi, sx, sy, c, d, x, y, e);
    assert(raised(b@, a@, wi, sx, sy, c, -d));
    lemma_down_response(b@, a@, wi, hi, sx, sy, c, -d, x, y, e);
    if within(a@, v, v) {
        lemma_flat(a@, wi, hi, x, y, e, v);
    }
    assert(px3(ra.0@, ra.1 as int, x, y, e) == ra.0@[(y * ra.1 + x) * 3 + e]);
    assert(px3(rb.0@, rb.1 as int, x, y, e) == rb.0@[(y * rb.1 + x) * 3 + e]);
}

/// Doubling a plane smooths it too, with 64ths, and a flat plane stays flat.
/// One column more than twice as many repeats the one before, and one row
/// more the last but one.
pub proof fn law_doubling(
    a: &[i16],
    b: &[i16],
    w: usize,
    h: usize,
    dw: usize,
    dh: usize,
    ra: Vec<i16>,
    rb: Vec<i16>,
    sx: int,
    sy: int,
    c: int,
    d: int,
    x: int,
    y: int,
    e: int,
    v: int,
)
    requires
        a@.len() == w * h * 3,
        raised(a@, b@, w as int, sx, sy, c, d),
        0 <= sx < w,
        0 <= sy < h,
        0 <= c < 3,
        call_ensures(pyr_up_i16c3, (a, w, h, dw, dh), ra),
        call_ensures(pyr_up_i16c3, (b, w, h, dw, dh), rb),
        0 <= x < dw,
        0 <= y < dh,
        0 <= e < 3,
    ensures
        ({
            let q = (y * dw + x) * 3 + e;
            let change = 64 * (rb@[q] - ra@[q]);
            &&& x < 2 * w && y < 2 * h && e == c ==> {
                let due = doubled_share(x, sx, w as int) * doubled_share(y, sy, h as int) * d;
                -64 < change - due < 64
            }
            &&& x < 2 * w && y < 2 * h && e != c ==> change == 0
            &&& x == 2 * w && y < 2 * h ==> ra@[q] == ra@[(y * dw + (x - 1)) * 3 + e]
            &&& y == 2 * h && x < 2 * w ==> ra@[q] == ra@[((y - 2) * dw + x) * 3 + e]
            &&& within(a@, v, v) ==> ra@[q] == v
        }),
{
    let (wi, hi) = (w as int, h as int);
    let (mx, my) = (if x < 2 * w { x } else { 2 * w - 1 }, if y < 2 * h { y } else { 2 * h - 1 });
    lemma_up_response(a@, b@, wi, hi, sx, sy, c, d, mx, my, e);
    assert(raised(b@, a@, wi, sx, sy, c, -d));
    lemma_up_response(b@, a@, wi, hi, sx, sy, c, -d, mx, my, e);
    if within(a@, v, v) {
        lemma_flat(a@, wi, hi, x, y, e, v);
    }
    assert(px3(ra@, dw as int, x, y, e) == ra@[(y * dw + x) * 3 + e]);
    assert(px3(rb@, dw as int, x, y, e) == rb@[(y * dw + x) * 3 + e]);
    if x == 2 * w {
        assert(px3(ra@, dw as int, x - 1, y, e) == ra@[(y * dw + (x - 1)) * 3 + e]);
    }
    if y == 2 * h {
        assert(px3(ra@, dw as int, x, y - 2, e) == ra@[((y - 2) * dw + x) * 3 + e]);
    }
}

/// What is split into bands and put together again is what it was.
pub proof fn law_bands_restore(
    plane: PlaneI16,
    nb: usize,
    pyr: Vec<PlaneI16>,
    back: PlaneI16,
)
    requires
        plane@.wf(),
        within(plane.data@, 0, 255),
        call_ensures(laplace_pyramid, (plane, nb), pyr),
        call_ensures(restore_from_laplace, (pyr,), back),
    ensures
        pyr@.len() == nb + 1,
        back.w == plane.w,
        back.h == plane.h,
        back.data@ == plane.data@,
{
    lemma_restore_laplace(plane@, nb as nat);
    assert(planes(pyr@) =~= laplace_levels(plane@, nb as nat));
}

/// The moments of a patch, as measured: a pixel brighter by `d` at the offset
/// (`u`, `v`) of the disc moves them by `v * d` down and `u * d` across, one
/// outside moves nothing, and a black image has none.
pub proof fn law_moments(
    a: &GrayImage,
    b: &GrayImage,
    x: usize,
    y: usize,
    umax: &[i32],
    hp: usize,
    ra: (i64, i64),
    rb: (i64, i64),
    u: int,
    v: int,
    d: int,
)
    requires
        lit(a, b, x + u, y + v, d),
        surrounded(a, x as int, y as int, hp as int),
        forall|i: int| 0 <= i <= hp ==> 0 <= #[trigger] umax@[i] <= hp,
        call_ensures(ic_moments, (a, x, y, umax, hp), ra),
        call_ensures(ic_moments, (b, x, y, umax, hp), rb),
    ensures
        ({
            let reach = if v == 0 {
                hp as int
            } else if v > 0 {
                umax@[v] as int
            } else {
                umax@[-v] as int
            };
            if -hp <= v <= hp && -reach <= u <= reach {
                rb.0 == ra.0 + v * d && rb.1 == ra.1 + u * d
            } else {
                rb == ra
            }
        }),
        (forall|q: int| 0 <= q < a.data@.len() ==> #[trigger] a.data@[q] == 0) ==> ra == (0i64, 0i64),
{
    lemma_moment_response(a, b, x as int, y as int, umax@, hp as int, u, v, d);
}

/// A corner's strength on a plane that rises by `p` a column and `q` a row.
pub proof fn law_harris(
    img: &GrayImage,
    x: usize,
    y: usize,
    r: (i64, i64, i64),
    p: int,
    q: int,
    o: int,
)
    requires
        call_ensures(harris_sums, (img, x, y), r),
        forall|i: int, j: int|
            x - 4 <= i <= x + 4 && y - 4 <= j <= y + 4 ==> #[trigger] img.data@[j * img.width + i]
                == o + p * (i - x) + q * (j - y),
    ensures
        r.0 == 49 * (64 * (p * p)),
        r.1 == 49 * (64 * (q * q)),
        r.2 == 49 * (64 * (p * q)),
{
    assert forall|i: int, j: int|
        x - 4 <= i <= x + 4 && y - 4 <= j <= y + 4 implies #[trigger] img.px(i, j) == o + p * (i
        - x) + q * (j - y) by {
        assert(img.data@[j * img.width + i] == o + p * (i - x) + q * (j - y));
    }
    lemma_tilted_block(img, x as int, y as int, p, q, o);
}

/// A descriptor's bytes hold eight comparisons each, the first in the lowest
/// bit: whether the first sample of the pair is darker than the second.
pub proof fn law_descriptor(
    img: &GrayImage,
    x: usize,
    y: usize,
    offs: &[(i32, i32)],
    d: Descriptor,
    i: int,
)
    requires
        call_ensures(describe, (img, x, y, offs), d),
        0 <= i < 32,
    ensures
        ({
            let at = |s: int|
                img.data@[(y + offs@[s].1) * img.width + (x + offs@[s].0)];
            let bit = |k: int|
                if at(16 * i + 2 * k) < at(16 * i + 2 * k + 1) {
                    1int
                } else {
                    0
                };
            d@[i] == bit(0) + 2 * bit(1) + 4 * bit(2) + 8 * bit(3) + 16 * bit(4) + 32 * bit(5) + 64
                * bit(6) + 128 * bit(7)
        }),
{
    lemma_descriptor_bits(img, x as int, y as int, offs@, i);
}

/// Distances count the bits in which descriptors differ: none from itself,
/// and one bit more or less with every bit that is turned.
pub proof fn law_hamming(
    a: &[u8; 32],
    b: &[u8; 32],
    c: &[u8; 32],
    i: int,
    j: u8,
    dab: u32,
    dac: u32,
    daa: u32,
)
    requires
        0 <= i < 32,
        j < 8,
        c@ == b@.update(i, b@[i] ^ (1u8 << j)),
        call_ensures(hamming, (a, b), dab),
        call_ensures(hamming, (a, c), dac),
        call_ensures(hamming, (a, a), daa),
    ensures
        daa == 0,
        dac == dab + if (a@[i] >> j) & 1 == (b@[i] >> j) & 1 {
            1int
        } else {
            -1
        },
        dab == ham(*a, *b),
{
    lemma_one_bit(a@, b@, 32, i, j);
    crate::matcher::lemma_distance_self(a@, 32);
}

/// Which descriptors are matched: see how far they are from each other and
/// from all other candidates.
pub proof fn law_matches(
    a: &[Descriptor],
    b: &[Descriptor],
    m: Vec<RawMatch>,
    q: usize,
    t: usize,
    d: u32,
)
    requires
        call_ensures(best_of_2_nearest_raw, (a, b), m),
    ensures
        m@.contains(RawMatch { query: q, train: t, distance: d }) <==> {
            &&& q < a@.len()
            &&& t < b@.len()
            &&& d == ham(a@[q as int], b@[t as int])
            &&& ({
                ||| b@.len() >= 2 && forall|j: int|
                    0 <= j < b@.len() && j != t ==> 10 * d < 7 * #[trigger] ham(
                        a@[q as int],
                        b@[j],
                    )
                ||| a@.len() >= 2 && forall|j: int|
                    0 <= j < a@.len() && j != q ==> 10 * d < 7 * #[trigger] ham(
                        b@[t as int],
                        a@[j],
                    )
            })
        },
{
    assert(a@.len() <= usize::MAX && b@.len() <= usize::MAX) by {
        assert(a@.len() == a.len());
        assert(b@.len() == b.len());
    }
    lemma_matches_are_clear(a@, b@, q, t, d);
}

/// A pair can be trusted where the inliers outnumber eight and three tenths of
/// the matches, but not three times as many.
pub proof fn law_confidence(num_inliers: usize, num_matches: usize, c: Ratio)
    requires
        call_ensures(match_confidence, (num_inliers, num_matches), c),
    ensures
        c.den > 0,
        c.num > c.den <==> 80 + 3 * num_matches < 10 * num_inliers <= 240 + 9 * num_matches,
        10 * num_inliers <= 240 + 9 * num_matches ==> c.num * (80 + 3 * num_matches) == (10
            * num_inliers) * c.den,
{
    crate::matcher::lemma_confidence(num_inliers as int, num_matches as int, num_inliers as int);
}

/// The finished picture is the crop of the canvas, upright and in its own
/// colours, but for the canvas's first and last column.
pub proof fn law_picture(e: Exporter, data: Vec<u8>, r: int, c: int, k: int)
    requires
        e.wf(),
        call_ensures(Exporter::picture, (e,), data),
        e@.layout.crop.1 + e@.layout.crop.3 <= e@.layout.canvas_h,
        0 <= r < e@.layout.crop.3,
        0 <= c < e@.layout.crop.2,
        0 <= k < 3,
        0 < e@.layout.crop.0 + c < e@.layout.canvas_w - 1,
    ensures
        data@.len() == e@.layout.crop.2 * e@.layout.crop.3 * 3,
        data@[(r * e@.layout.crop.2 + c) * 3 + k] == e@.canvas[((e@.layout.crop.1 + r)
            * e@.layout.canvas_w + (e@.layout.crop.0 + c)) * 3 + k],
{
    lemma_picture_is_crop(e@, r, c, k);
}

/// Gray is the luma of BT.601, whichever way the colours come.
pub proof fn law_gray(
    rgb: &[u8],
    rgba: &[u8],
    img: &RgbaImage,
    w: usize,
    h: usize,
    g3: GrayImage,
    g4: GrayImage,
    gi: Vec<u8>,
    i: int,
)
    requires
        call_ensures(rgb_to_gray_cv, (rgb, w, h), g3),
        call_ensures(rgba_to_gray_cv, (rgba, w, h), g4),
        call_ensures(RgbaImage::to_gray, (img,), gi),
        rgb@.len() / 3 == w * h,
        rgba@.len() / 4 == w * h,
        0 <= i < w * h,
    ensures
        -514 <= 1000 * g3.data@[i] - (299 * rgb@[3 * i] + 587 * rgb@[3 * i + 1] + 114 * rgb@[3 * i
            + 2]) <= 514,
        -514 <= 1000 * g4.data@[i] - (299 * rgba@[4 * i] + 587 * rgba@[4 * i + 1] + 114 * rgba@[4 * i
            + 2]) <= 514,
        i < img.data@.len() / 4 ==> -514 <= 1000 * gi@[i] - (299 * img.data@[4 * i] + 587
            * img.data@[4 * i + 1] + 114 * img.data@[4 * i + 2]) <= 514,
{
    lemma_luma(rgb@[3 * i], rgb@[3 * i + 1], rgb@[3 * i + 2], 0);
    lemma_luma(rgba@[4 * i], rgba@[4 * i + 1], rgba@[4 * i + 2], 0);
    lemma_luma(img.data@[4 * i], img.data@[4 * i + 1], img.data@[4 * i + 2], 0);
}

/// Growing a mask takes the largest of the three by three pixels around.
pub proof fn law_grow(mask: &GrayImage, grown: GrayImage, x: int, y: int, i: int, j: int)
    requires
        call_ensures(dilate3, (mask,), grown),
        0 <= x < mask.width,
        0 <= y < mask.height,
        0 <= i < mask.width,
        0 <= j < mask.height,
        x - 1 <= i <= x + 1,
        y - 1 <= j <= y + 1,
    ensures
        mask.data@[j * mask.width + i] <= grown.data@[y * mask.width + x],
        exists|a: int, b: int|
            x - 1 <= a <= x + 1 && y - 1 <= b <= y + 1 && 0 <= a < mask.width && 0 <= b < mask.height
                && #[trigger] cell(mask.data@, mask.width as int, a, b) == grown.data@[y
                * mask.width + x],
{
    let (w, h) = (mask.width as int, mask.height as int);
    let v = grown.px(x, y);
    assert(is_local_max(mask.data@, w, h, x, y, v));
    assert(cell(mask.data@, w, i, j) <= v);
}

/// What two masks have in common lies in both, and is one of them where the
/// other is full.
pub proof fn law_intersection(a: &GrayImage, b: &GrayImage, out: GrayImage, q: int)
    requires
        call_ensures(intersect_masks, (a, b), out),
        0 <= q < out.data@.len(),
    ensures
        out.data@[q] <= a.data@[q],
        out.data@[q] <= b.data@[q],
        b.data@[q] == 255 ==> out.data@[q] == a.data@[q],
        a.data@[q] == 255 ==> out.data@[q] == b.data@[q],
        a.data@[q] == 0 || b.data@[q] == 0 ==> out.data@[q] == 0,
{
    let (x, y) = (a.data@[q], b.data@[q]);
    assert(x & y <= x && x & y <= y && (y == 255 ==> x & y == x) && (x == 255 ==> x & y == y) && (x
        == 0 || y == 0 ==> x & y == 0)) by (bit_vector);
}

/// The three ways to mirror an index agree, and give one inside that is the
/// index or its negative, up to whole periods.
pub proof fn law_mirrors(i: i32, len: i32, a: usize, b: usize, c: i32)
    requires
        len >= 2,
        call_ensures(reflect101, (i as isize, len as usize), a),
        call_ensures(border_reflect_101, (i as i64, len as i64), b),
        call_ensures(border_interpolate_reflect, (i, len, 1i32), c),
    ensures
        a == b,
        b == c,
        a < len,
        0 <= i < len ==> a == i,
        (a - i) % (2 * (len - 1)) == 0 || (a + i) % (2 * (len - 1)) == 0,
{
    crate::border::lemma_mirror101_congruent(i as int, len as int);
    crate::border::lemma_mirror101_range(i as int, len as int);
    assert(a == mirror101(i as int, len as int));
}

/// Alpha is dropped, and the colours keep their order.
pub proof fn law_alpha(rgba: &[u8], rgb: Vec<u8>, i: int, c: int)
    requires
        call_ensures(drop_alpha, (rgba,), rgb),
        0 <= i < rgba@.len() / 4,
        0 <= c < 3,
    ensures
        rgb@.len() == 3 * (rgba@.len() / 4),
        rgb@[3 * i + c] == rgba@[4 * i + c],
{
    crate::engine::lemma_without_alpha(rgba@, i, c);
}

/// A canvas is refused exactly if it is wider than the widest export, which is
/// the last even width whose canvas, four bytes a pixel and half as high as
/// wide, stays within 1.25 gigabytes on the web and 32 elsewhere.
pub proof fn law_export_width(
    host: Host,
    widest: usize,
    w: usize,
    r: Result<(), crate::export::ExportError>,
)
    requires
        w % 2 == 0,
        call_ensures(max_export_width, (host,), widest),
        call_ensures(check_canvas, (w, host), r),
    ensures
        r is Ok <==> w <= widest,
        ({
            let limit = if host is Wasm32 {
                1_250_000_000int
            } else {
                32_000_000_000
            };
            &&& widest * (widest / 2) * 4 <= limit
            &&& (widest + 2) * ((widest + 2) / 2) * 4 > limit
        }),
{
    assert(canvas_bytes(widest + 2) == (widest + 2) * ((widest + 2) / 2) * 4);
    if w <= widest {
        assert(canvas_bytes(w as int) <= canvas_bytes(widest as int)) by (nonlinear_arith)
            requires
                canvas_bytes(w as int) == w * (w / 2) * 4,
                canvas_bytes(widest as int) == widest * (widest / 2) * 4,
                0 <= w <= widest,
                0 <= w / 2 <= widest / 2,
        ;
    } else {
        assert(canvas_bytes(w as int) > crate::layout::canvas_limit(host));
    }
}

} // verus!
