//! What further operations promise: where samples come from, which features
//! and pixels are taken, and what a finished band shows.

use crate::blend::distance_transform_l1;
use crate::blend::empty_at;
use crate::blend::is_distance;
use crate::blend::num_bands_for;
use crate::bundle::consistent_pairs;
use crate::estimation::MatchGraph;
use crate::export::ExportError;
use crate::export::Exporter;
use crate::fast::fast16;
use crate::fast::FastKeypoint;
use crate::imgproc::lemma_index;
use crate::imgproc::GrayImage;
use crate::layout::padded_top;
use crate::layout::plan_bands;
use crate::layout::Entry;
use crate::layout::ExportBand;
use crate::multiband::reflect_into;
use crate::multiband::saturate_u8;
use crate::orb::retain_best;
use crate::orb::umax_table;
use crate::painted::open_part;
use crate::painted::preferred_part;
use crate::pipeline::left_out;
use crate::pipeline::rescue_dropped;
use crate::pipeline::show_preview;
use crate::pipeline::strip_lands;
use crate::pipeline::Preview;
use crate::pyramid::px3;
use crate::rng::CvRng;
use crate::seam::overlap_roi;
use crate::shown::in_extension;
use crate::shown::in_originals;
use crate::shown::lands;
use crate::warp::nearness;
use crate::warp::remap;
use crate::warp::tap;
use crate::warp::Border;
use crate::warp::Interp;
use crate::warp::PixelImage;
use vstd::prelude::*;

verus! {

/// A remapped pixel is sampled where the map says, in 32nds of a pixel: each
/// of the four pixels around counts by how near it is.
pub proof fn law_remap(
    src: &PixelImage,
    map: &[(i32, i32)],
    dw: usize,
    rows: usize,
    border: Border,
    img: PixelImage,
    near: PixelImage,
    i: int,
    c: int,
    x: int,
    y: int,
)
    requires
        call_ensures(remap, (src, map, dw, rows, Interp::Linear, border), img),
        call_ensures(remap, (src, map, dw, rows, Interp::Nearest, border), near),
        0 <= i < map@.len(),
        0 <= c < src.channels,
        32 * x <= map@[i].0 < 32 * x + 32,
        32 * y <= map@[i].1 < 32 * y + 32,
    ensures
        ({
            let (sx, sy) = (map@[i].0 as int, map@[i].1 as int);
            let part = |a: int, b: int|
                tap(src, a, b, c, border) * (nearness(sx, a) * nearness(sy, b));
            let sum = part(x, y) + part(x + 1, y) + part(x, y + 1) + part(x + 1, y + 1);
            let v = img.data@[i * src.channels + c];
            &&& 1024 * v <= sum + 512 < 1024 * v + 1024
            &&& near.data@[i * src.channels + c] == tap(src, sx, sy, c, border)
        }),
{
    let (sx, sy) = (map@[i].0 as int, map@[i].1 as int);
    crate::warp::lemma_sample_weighs(src, sx, sy, c, border, x, y);
}

/// What a preview shows at a canvas pixel.
pub proof fn law_preview(
    blended: &[u8],
    coverage: &GrayImage,
    roi_left: i32,
    roi_top: i32,
    off_x: i32,
    canvas_w: usize,
    canvas_h: usize,
    p: Preview,
    c: int,
    y: int,
    x: int,
    k: int,
)
    requires
        canvas_w >= 1,
        call_ensures(
            show_preview,
            (blended, coverage, roi_left, roi_top, off_x, canvas_w, canvas_h),
            p,
        ),
        0 <= c < canvas_w,
        0 <= y < canvas_h,
        0 <= k < 4,
    ensures
        ({
            let shown = p.rgba@[(y * canvas_w + c) * 4 + k];
            let sy = y - roi_top;
            let left = roi_left - off_x;
            &&& 0 <= sy < coverage.height && 0 <= x < coverage.width && strip_lands(
                coverage,
                left,
                canvas_w as int,
                sy,
                c,
                x,
            ) && (forall|o: int|
                x < o < coverage.width ==> !#[trigger] strip_lands(
                    coverage,
                    left,
                    canvas_w as int,
                    sy,
                    c,
                    o,
                )) ==> shown == if k == 3 {
                255
            } else {
                blended@[(sy * coverage.width + x) * 3 + k]
            }
            &&& sy < 0 || sy >= coverage.height || (forall|o: int|
                0 <= o < coverage.width ==> !#[trigger] strip_lands(
                    coverage,
                    left,
                    canvas_w as int,
                    sy,
                    c,
                    o,
                )) ==> shown == 0
        }),
{
    lemma_index(c, y, canvas_w as int, canvas_h as int);
    assert(0 <= (y * canvas_w + c) * 4 + k < canvas_w * canvas_h * 4);
    crate::pipeline::lemma_preview_pixel(
        blended@,
        coverage,
        roi_left - off_x,
        roi_top as int,
        canvas_w as int,
        c,
        y,
        x,
        k,
    );
}

/// Features keep three pixels from every edge, come row by row, and no two
/// touch.
pub proof fn law_features(img: &GrayImage, threshold: i32, kps: Vec<FastKeypoint>, i: int, j: int)
    requires
        call_ensures(fast16, (img, threshold), kps),
        0 <= i < j < kps@.len(),
    ensures
        3 <= kps@[i].x < img.width - 3,
        3 <= kps@[i].y < img.height - 3,
        kps@[i].y < kps@[j].y || (kps@[i].y == kps@[j].y && kps@[i].x < kps@[j].x),
        !(-1 <= kps@[i].x - kps@[j].x <= 1 && -1 <= kps@[i].y - kps@[j].y <= 1),
{
    let t = crate::fast::effective(threshold);
    let (p, q) = (kps@[i], kps@[j]);
    assert(crate::fast::is_keypoint(img, t, p.x as int, p.y as int));
    assert(crate::fast::is_keypoint(img, t, q.x as int, q.y as int));
    assert(crate::fast::before(p, q));
    if -1 <= p.x - q.x <= 1 && -1 <= p.y - q.y <= 1 {
        crate::fast::lemma_keypoints_apart(
            img,
            t,
            p.x as int,
            p.y as int,
            q.x as int,
            q.y as int,
        );
    }
}

/// The best are kept: what is left out scores less than all that is kept, of
/// which there are as many as were asked for, at least. They come by score,
/// and those of one score in the order they had.
pub proof fn law_best(scores: &[i64], n: usize, kept: Vec<usize>, i: usize, k: int)
    requires
        call_ensures(retain_best, (scores, n), kept),
        0 < n < scores@.len(),
        i < scores@.len(),
        0 <= k < kept@.len(),
    ensures
        kept@.len() >= n,
        !kept@.contains(i) ==> scores@[kept@[k] as int] > scores@[i as int],
        k > 0 ==> scores@[kept@[k - 1] as int] > scores@[kept@[k] as int] || (scores@[kept@[k
            - 1] as int] == scores@[kept@[k] as int] && kept@[k - 1] < kept@[k]),
{
    let order = choose|order: Seq<usize>| #[trigger]
        crate::orb::is_best(scores@, n as int, order, kept@);
    assert(scores@.len() == scores.len());
    let others = Seq::new(n as nat, |a: int| a as usize);
    crate::orb::lemma_best_kept(scores@, n as int, order, kept@, i, others);
}

/// The table of a disc: the square root to the nearest pixel up to the
/// diagonal, and the same by rows and by columns.
pub proof fn law_disc(half_patch: i32, umax: Vec<i32>, a: int, b: int)
    requires
        half_patch >= 1,
        call_ensures(umax_table, (half_patch,), umax),
        0 <= a <= half_patch,
        0 <= b <= half_patch,
    ensures
        umax@[0] == half_patch,
        umax@[a] >= b <==> umax@[b] >= a,
        2 * (a * a) <= half_patch * half_patch ==> {
            let (u, h) = (umax@[a] as int, half_patch as int);
            (2 * u - 1) * (2 * u - 1) < 4 * (h * h - a * a) < (2 * u + 1) * (2 * u + 1)
        },
{
    let h = half_patch as int;
    let m = choose|m: int| #[trigger] crate::orb::is_disc(h, m, umax@);
    crate::orb::lemma_disc_symmetric(h, m, umax@, a, b);
    assert(0int * 0 == 0 && h * h >= 0) by (nonlinear_arith);
    crate::orb::lemma_disc_round(h, m, umax@, 0);
    if 2 * (a * a) <= h * h {
        crate::orb::lemma_disc_round(h, m, umax@, a);
    }
}

/// Distances to the mask's empty pixels go in single steps.
pub proof fn law_distances(mask: &GrayImage, dist: Vec<u64>, x: int, y: int)
    requires
        call_ensures(distance_transform_l1, (mask,), dist),
        0 <= x < mask.width,
        0 <= y < mask.height,
        exists|zx: int, zy: int| #[trigger] empty_at(mask, zx, zy),
    ensures
        dist@[y * mask.width + x] == 0 <==> mask.data@[y * mask.width + x] == 0,
        x + 1 < mask.width ==> -1 <= dist@[y * mask.width + (x + 1)] - dist@[y * mask.width + x]
            <= 1,
        y + 1 < mask.height ==> -1 <= dist@[(y + 1) * mask.width + x] - dist@[y * mask.width + x]
            <= 1,
{
    let d = dist@[y * mask.width + x] as int;
    assert(is_distance(mask, x, y, d));
    crate::blend::lemma_distance_steps(mask, x, y, d);
    if x + 1 < mask.width {
        let n = dist@[y * mask.width + (x + 1)] as int;
        assert(is_distance(mask, x + 1, y, n));
        crate::blend::lemma_distance_steps(mask, x + 1, y, n);
        assert(is_distance(mask, x + 1 - 1, y, d));
    }
    if y + 1 < mask.height {
        let n = dist@[(y + 1) * mask.width + x] as int;
        assert(is_distance(mask, x, y + 1, n));
        crate::blend::lemma_distance_beside(mask, x, y, d, n);
    }
}

/// How many bands a panorama of some size gets.
pub proof fn law_num_bands(dst_w: usize, dst_h: usize, nb: usize)
    requires
        call_ensures(num_bands_for, (dst_w, dst_h), nb),
    ensures
        ({
            let (step, next) = (
                vstd::arithmetic::power::pow(2, nb as nat),
                vstd::arithmetic::power::pow(2, (nb + 1) as nat),
            );
            &&& nb >= 1
            &&& dst_w * dst_h <= (20 * next) * (20 * next)
            &&& nb > 1 ==> (20 * step) * (20 * step) < dst_w * dst_h
        }),
{
    crate::blend::lemma_bands_by_width(dst_w as int, dst_h as int, nb as int);
}

/// An image stands in its window as it is, and the window goes on as its
/// mirror image.
pub proof fn law_reflected(
    rgb: &[u8],
    w: usize,
    h: usize,
    left: usize,
    top: usize,
    bw: usize,
    bh: usize,
    out: Vec<i16>,
    x: int,
    y: int,
    c: int,
)
    requires
        1 <= w,
        1 <= h,
        call_ensures(reflect_into, (rgb, w, h, left, top, bw, bh), out),
        0 <= x < bw,
        0 <= y < bh,
        0 <= c < 3,
    ensures
        left <= x < left + w && top <= y < top + h ==> out@[(y * bw + x) * 3 + c] == rgb@[((y - top)
            * w + (x - left)) * 3 + c],
        // A column before the image shows the one as far inside.
        x < left && 2 * left - 1 - x < bw ==> out@[(y * bw + x) * 3 + c] == out@[(y * bw + (2 * left
            - 1 - x)) * 3 + c],
        y < top && 2 * top - 1 - y < bh ==> out@[(y * bw + x) * 3 + c] == out@[((2 * top - 1 - y)
            * bw + x) * 3 + c],
{
    let (wi, hi) = (w as int, h as int);
    assert(px3(out@, bw as int, x, y, c) == out@[(y * bw + x) * 3 + c]);
    crate::border::lemma_mirror_range(x - left, wi);
    crate::border::lemma_mirror_range(y - top, hi);
    crate::border::lemma_mirror_left(x - left, wi);
    crate::border::lemma_mirror_left(y - top, hi);
    if x < left && 2 * left - 1 - x < bw {
        let m = 2 * left - 1 - x;
        assert(px3(out@, bw as int, m, y, c) == out@[(y * bw + m) * 3 + c]);
        assert(m - left == -(x - left) - 1);
    }
    if y < top && 2 * top - 1 - y < bh {
        let m = 2 * top - 1 - y;
        assert(px3(out@, bw as int, x, m, c) == out@[(m * bw + x) * 3 + c]);
        assert(m - top == -(y - top) - 1);
    }
}

/// Values are clipped to bytes.
pub proof fn law_saturated(raw: &[i16], out: Vec<u8>, i: int)
    requires
        call_ensures(saturate_u8, (raw,), out),
        0 <= i < raw@.len(),
    ensures
        raw@[i] <= 0 ==> out@[i] == 0,
        0 <= raw@[i] <= 255 ==> out@[i] == raw@[i],
        raw@[i] >= 255 ==> out@[i] == 255,
{
}

/// The pairs that are adjusted are those of confidence over 1.
pub proof fn law_consistent(g: &MatchGraph, edges: Vec<(usize, usize)>, i: usize, j: usize)
    requires
        call_ensures(consistent_pairs, (g,), edges),
    ensures
        edges@.contains((i, j)) <==> i < j < g.n && g.pair(i as int, j as int).confidence.num
            > g.pair(i as int, j as int).confidence.den,
{
    crate::bundle::lemma_consistent(g, i, j, 0, 0);
}

/// Every image is kept, or placed from its pose, or reported as dropped, and
/// only one of these.
pub proof fn law_none_forgotten(
    ids: &[u32],
    kept: Seq<usize>,
    posed: &[bool],
    anchored: bool,
    dropped: &[u32],
    back: (Vec<usize>, Vec<u32>),
    i: int,
)
    requires
        ids@.no_duplicates(),
        dropped@ == left_out(ids@, kept, ids@.len() as int),
        call_ensures(rescue_dropped, (ids, posed, dropped, anchored), back),
        0 <= i < ids@.len(),
    ensures
        ({
            let (k, p, l) = (
                kept.contains(i as usize),
                back.0@.contains(i as usize),
                back.1@.contains(ids@[i]),
            );
            &&& (k && !p && !l) || (!k && p && !l) || (!k && !p && l)
            &&& p <==> !k && posed@[i] && anchored
        }),
{
    assert(ids@.len() == ids.len());
    crate::pipeline::lemma_none_forgotten(ids@, kept, posed@, anchored, i);
}

/// What two placed rectangles have in common is what lies in both.
pub proof fn law_overlap(
    tl1: (i32, i32),
    tl2: (i32, i32),
    sz1: (i32, i32),
    sz2: (i32, i32),
    a: Option<(i32, i32, i32, i32)>,
    b: Option<(i32, i32, i32, i32)>,
    x: int,
    y: int,
)
    requires
        call_ensures(overlap_roi, (tl1, tl2, sz1, sz2), a),
        call_ensures(crate::exposure::overlap_roi, (tl1, sz1, tl2, sz2), b),
    ensures
        a == b,
        (tl1.0 <= x < tl1.0 + sz1.0 && tl1.1 <= y < tl1.1 + sz1.1 && tl2.0 <= x < tl2.0 + sz2.0
            && tl2.1 <= y < tl2.1 + sz2.1) <==> (a matches Some(r) && r.0 <= x < r.0 + r.2 && r.1
            <= y < r.1 + r.3),
{
    crate::seam::lemma_common_rect(tl1, tl2, sz1, sz2, x, y);
}

/// A painted mask closes what is painted 1 and prefers what is painted 2, as
/// stretched over the image.
pub proof fn law_painted(
    painted: &GrayImage,
    w: usize,
    h: usize,
    open: GrayImage,
    liked: GrayImage,
    x: int,
    y: int,
    i: int,
    j: int,
)
    requires
        call_ensures(open_part, (painted, w, h), open),
        call_ensures(preferred_part, (painted, w, h), liked),
        0 <= x < w,
        0 <= y < h,
        i * w <= x * painted.width < (i + 1) * w,
        j * h <= y * painted.height < (j + 1) * h,
    ensures
        open.data@[y * open.width + x] == if painted.data@[j * painted.width + i] == 1 {
            0u8
        } else {
            255u8
        },
        liked.data@[y * liked.width + x] == if painted.data@[j * painted.width + i] == 2 {
            255u8
        } else {
            0u8
        },
{
    crate::painted::lemma_painted_stretched(painted, w as int, h as int, x, y, i, j);
    assert(open.px(x, y) == open.data@[y * open.width + x]);
    assert(liked.px(x, y) == liked.data@[y * liked.width + x]);
}

/// Bands are 768 rows high and need what reaches within 256 rows of them.
pub proof fn law_bands(
    rows: (usize, usize),
    entries: &[Entry],
    ids: &[u32],
    bands: Vec<ExportBand>,
    k: int,
    e: int,
)
    requires
        rows.0 <= rows.1,
        call_ensures(plan_bands, (rows, entries, ids), bands),
        0 <= k < bands@.len(),
        0 <= e < entries@.len(),
    ensures
        k == 0 ==> bands@[k].y0 == rows.0,
        k < bands@.len() - 1 ==> bands@[k].y1 == bands@[k].y0 + 768 && bands@[k + 1].y0
            == bands@[k].y1,
        k == bands@.len() - 1 ==> bands@[k].y1 == rows.1,
        entries@[e].roi.1 < bands@[k].y1 + 256 && entries@[e].roi.1 + entries@[e].roi.3 > bands@[k].y0
            - 256 && entries@[e].roi.1 + entries@[e].roi.3 > 0 ==> bands@[k].needed@.contains(
            ids@[entries@[e].src_idx as int],
        ),
{
    crate::shown::lemma_band_heights(bands@, rows, entries@, ids@, k, e);
}

/// A state is drawn on, and gives a word that is its own low half.
pub proof fn law_random(r: &mut CvRng, word: u32)
    requires
        call_ensures(CvRng::next, (r,), word),
        0 <= old(r)@ <= u64::MAX,
    ensures
        0x1_0000_0000 * final(r)@ == old(r)@ + (old(r)@ % 0x1_0000_0000) * (4164903690
            * 0x1_0000_0000 - 1),
        word == final(r)@ % 0x1_0000_0000,
{
    crate::rng::lemma_multiply_with_carry(old(r)@);
}

/// What a band's strip shows is what the finished picture shows: a covered
/// strip pixel that is the first to land on its canvas pixel stands in the
/// picture as many rows down as its canvas row is below the crop's top.
pub proof fn law_band_shows(
    e: &mut Exporter,
    b: usize,
    blended: &[u8],
    coverage: &GrayImage,
    r: Result<(), ExportError>,
    done: Exporter,
    data: Vec<u8>,
    top: int,
    c: int,
    x: int,
    y: int,
    k: int,
)
    requires
        old(e).wf(),
        old(e)@.canvas.len() == 0,
        call_ensures(Exporter::composite_band, (e, b, blended, coverage), r),
        r is Ok,
        coverage.width == old(e)@.layout.strip.2,
        done == *final(e),
        done@.canvas.len() > 0,
        call_ensures(Exporter::picture, (done,), data),
        done@.layout.crop.1 + done@.layout.crop.3 <= done@.layout.canvas_h,
        0 <= k < 3,
        b < old(e)@.bands.len(),
        old(e)@.bands[b as int].y0 <= y < old(e)@.bands[b as int].y1,
        done@.layout.crop.1 <= y < done@.layout.crop.1 + done@.layout.crop.3,
        // The strip starts 256 rows above the band, or with the canvas.
        top == old(e)@.bands[b as int].y0 - 256 || (top == 0 && old(e)@.bands[b as int].y0 <= 256),
        top >= 0,
        in_originals(done@.layout, x),
        c == (done@.layout.strip.0 - done@.layout.off_x + x) % (done@.layout.canvas_w as int),
        0 < c < done@.layout.canvas_w - 1,
        done@.layout.crop.0 <= c < done@.layout.crop.0 + done@.layout.crop.2,
        lands(done@.layout, coverage, x, y - top, c),
        forall|o: int|
            in_extension(done@.layout, o) || (in_originals(done@.layout, o) && o < x)
                ==> !#[trigger] lands(done@.layout, coverage, o, y - top, c),
    ensures
        data@[((y - done@.layout.crop.1) * done@.layout.crop.2 + (c - done@.layout.crop.0)) * 3 + k]
            == blended@[((y - top) * done@.layout.strip.2 + x) * 3 + k],
{
    let s = done@;
    let py0 = padded_top(old(e)@.bands[b as int].y0 as int);
    let (w, h) = (s.layout.canvas_w as int, s.layout.canvas_h as int);
    assert(py0 == top);
    lemma_index(c, y, w, h);
    crate::shown::lemma_strip_shows(
        s,
        coverage,
        blended@,
        py0,
        old(e)@.bands[b as int].y0 as int,
        old(e)@.bands[b as int].y1 as int,
        crate::export::canvas_of(old(e)@),
        crate::export::covered_of(old(e)@),
        x,
        y,
        k,
    );
}

/// A rectangle between two corners holds both and what lies between.
pub proof fn law_roi(tl: (i32, i32), br: (i32, i32), r: (i32, i32, i32, i32), x: int, y: int)
    requires
        call_ensures(crate::warp::roi_of, (tl, br), r),
    ensures
        (tl.0 <= x <= br.0 && tl.1 <= y <= br.1) <==> (r.0 <= x < r.0 + r.2 && r.1 <= y < r.1 + r.3),
{
}

/// The rows of an image that reach into a window are those that lie in both.
pub proof fn law_entry_rows(
    e: &Exporter,
    i: usize,
    py0: usize,
    py1: usize,
    r: Option<(usize, usize)>,
    t: int,
)
    requires
        call_ensures(Exporter::entry_rows, (e, i, py0, py1), r),
    ensures
        (0 <= t < e@.entries[i as int].roi.3 && py0 <= e@.entries[i as int].roi.1 + t < py1) <==> (
        r matches Some(w) && w.0 <= t < w.1),
{
}

/// A band is composed with 256 rows more above and below, as far as there is
/// canvas.
pub proof fn law_band_window(e: &Exporter, b: usize, r: Result<(usize, usize), ExportError>)
    requires
        call_ensures(Exporter::band_window, (e, b), r),
        r is Ok,
    ensures
        ({
            let (y0, y1) = (e@.bands[b as int].y0, e@.bands[b as int].y1);
            let (p0, p1) = r->Ok_0;
            &&& y0 >= 256 ==> p0 == y0 - 256
            &&& y0 < 256 ==> p0 == 0
            &&& y1 + 256 <= e@.layout.canvas_h ==> p1 == y1 + 256
            &&& y1 + 256 > e@.layout.canvas_h ==> p1 == e@.layout.canvas_h
        }),
{
}

/// What two images share is noted both ways, as one pixel where they share
/// none; only images that share pixels with others count.
pub proof fn law_noted(
    t: &mut crate::exposure::OverlapTable,
    i: usize,
    j: usize,
    shared: usize,
    a: int,
    b: int,
)
    requires
        old(t).wf(),
        i < old(t).n,
        j < old(t).n,
        call_ensures(crate::exposure::OverlapTable::note, (t, i, j, shared), ()),
        0 <= a < old(t).n,
        0 <= b < old(t).n,
    ensures
        final(t).count(i as int, j as int) == final(t).count(j as int, i as int),
        shared > 0 ==> final(t).count(i as int, j as int) == shared,
        shared == 0 ==> final(t).count(i as int, j as int) == 1,
        !((a == i && b == j) || (a == j && b == i)) ==> final(t).count(a, b) == old(t).count(a, b),
        shared > 0 && i != j ==> !final(t).skip@[i as int] && !final(t).skip@[j as int],
        a != i && a != j ==> final(t).skip@[a] == old(t).skip@[a],
        shared == 0 || i == j ==> final(t).skip@[a] == old(t).skip@[a],
{
}

/// An image is cut into blocks of 32 pixels at most a side, as few as that
/// takes, each placed where its pixels are.
pub proof fn law_blocks(
    corner: (i32, i32),
    w: usize,
    h: usize,
    r: (usize, usize, Vec<crate::exposure::Block>),
    i: int,
)
    requires
        w >= 1,
        h >= 1,
        call_ensures(crate::exposure::cut_blocks, (corner, w, h), r),
        0 <= i < r.2@.len(),
    ensures
        32 * (r.0 - 1) < w <= 32 * r.0,
        32 * (r.1 - 1) < h <= 32 * r.1,
        r.2@.len() == r.0 * r.1,
        r.2@[i].corner.0 - corner.0 == r.2@[i].x0,
        r.2@[i].corner.1 - corner.1 == r.2@[i].y0,
        r.2@[i].width <= 32,
        r.2@[i].height <= 32,
{
    let (wi, hi) = (w as int, h as int);
    crate::exposure::lemma_block_size(wi);
    crate::exposure::lemma_block_size(hi);
    let b = r.2@[i];
    let (bx, by) = (i % (r.0 as int), i / (r.0 as int));
    assert(crate::exposure::is_block(b, corner, wi, hi, bx, by));
    let (s, t) = (crate::exposure::block_step(wi), crate::exposure::block_step(hi));
    assert((bx + 1) * s == bx * s + s && (by + 1) * t == by * t + t) by (nonlinear_arith);
}

/// Each pixel of an image lies in one of the blocks it is cut into, and in no
/// other.
pub proof fn law_block_of_pixel(
    corner: (i32, i32),
    w: usize,
    h: usize,
    r: (usize, usize, Vec<crate::exposure::Block>),
    x: int,
    y: int,
) -> (i: int)
    requires
        0 <= x < w,
        0 <= y < h,
        call_ensures(crate::exposure::cut_blocks, (corner, w, h), r),
    ensures
        0 <= i < r.2@.len(),
        forall|k: int|
            0 <= k < r.2@.len() ==> ({
                let b = #[trigger] r.2@[k];
                b.x0 <= x < b.x0 + b.width && b.y0 <= y < b.y0 + b.height
            } <==> k == i),
{
    let (wi, hi) = (w as int, h as int);
    crate::exposure::lemma_blocks_tile(wi, x);
    crate::exposure::lemma_blocks_tile(hi, y);
    let n = r.0 as int;
    let m = r.1 as int;
    let (bx, by) = (x / crate::exposure::block_step(wi), y / crate::exposure::block_step(hi));
    let i = by * n + bx;
    crate::imgproc::lemma_index(bx, by, n, m);
    crate::imgproc::lemma_index_split(bx, by, n);
    assert(crate::exposure::is_block(r.2@[i], corner, wi, hi, bx, by));
    assert forall|k: int| 0 <= k < r.2@.len() implies ({
        let b = #[trigger] r.2@[k];
        b.x0 <= x < b.x0 + b.width && b.y0 <= y < b.y0 + b.height
    } <==> k == i) by {
        let (cx, cy) = (k % n, k / n);
        assert(crate::exposure::is_block(r.2@[k], corner, wi, hi, cx, cy));
        vstd::arithmetic::div_mod::lemma_fundamental_div_mod(k, n);
        assert(n * cy == cy * n) by (nonlinear_arith);
        assert(0 <= cx < n);
        assert(0 <= cy < m) by (nonlinear_arith)
            requires
                0 <= k < n * m,
                n > 0,
                k == cy * n + cx,
                0 <= cx < n,
        ;
        if cx != bx {
            assert(!(cx * crate::exposure::block_step(wi) <= x < crate::exposure::block_end(
                wi,
                cx,
            )));
        }
        if cy != by {
            assert(!(cy * crate::exposure::block_step(hi) <= y < crate::exposure::block_end(
                hi,
                cy,
            )));
        }
    }
    i
}

/// A feature's response is the most by which nine pixels in a row on its circle
/// stand out, at least the threshold, and no pixel beside it reaches that.
pub proof fn law_response(
    img: &GrayImage,
    threshold: i32,
    kps: Vec<FastKeypoint>,
    i: int,
    a: int,
    b: int,
)
    requires
        call_ensures(fast16, (img, threshold), kps),
        0 <= i < kps@.len(),
        0 <= threshold <= 255,
        3 <= a < img.width - 3,
        3 <= b < img.height - 3,
        -1 <= a - kps@[i].x <= 1,
        -1 <= b - kps@[i].y <= 1,
        !(a == kps@[i].x && b == kps@[i].y),
    ensures
        ({
            let (x, y, v) = (kps@[i].x as int, kps@[i].y as int, kps@[i].response as int);
            &&& v >= threshold
            &&& exists|s: int| 0 <= s < 16 && #[trigger] crate::fast::stands_out(img, x, y, s, v)
            &&& forall|s: int|
                0 <= s < 16 ==> !#[trigger] crate::fast::stands_out(img, x, y, s, v + 1)
            &&& forall|s: int| 0 <= s < 16 ==> !#[trigger] crate::fast::stands_out(img, a, b, s, v)
        }),
{
    let t = crate::fast::effective(threshold);
    assert(t == threshold);
    crate::fast::lemma_feature(img, t, kps@[i].x as int, kps@[i].y as int, a, b);
    let (x, y, v) = (kps@[i].x as int, kps@[i].y as int, kps@[i].response as int);
    assert(v == crate::fast::score_at(img, t, x, y));
    assert(v >= threshold);
    assert(exists|s: int| 0 <= s < 16 && #[trigger] crate::fast::stands_out(img, x, y, s, v));
    assert forall|s: int| 0 <= s < 16 implies !#[trigger] crate::fast::stands_out(
        img,
        x,
        y,
        s,
        v + 1,
    ) by {}
    assert forall|s: int| 0 <= s < 16 implies !#[trigger] crate::fast::stands_out(img, a, b, s, v) by {}
}

/// Every pixel that stands out by more than the pixels beside it is a feature.
pub proof fn law_features_found(
    img: &GrayImage,
    threshold: i32,
    kps: Vec<FastKeypoint>,
    x: int,
    y: int,
    s: int,
    v: int,
)
    requires
        call_ensures(fast16, (img, threshold), kps),
        0 <= threshold <= 255,
        threshold <= v,
        1 <= v,
        3 <= x < img.width - 3,
        3 <= y < img.height - 3,
        0 <= s < 16,
        crate::fast::stands_out(img, x, y, s, v),
        forall|a: int, b: int, r: int|
            x - 1 <= a <= x + 1 && y - 1 <= b <= y + 1 && !(a == x && b == y) && 3 <= a < img.width
                - 3 && 3 <= b < img.height - 3 && 0 <= r < 16
                ==> !#[trigger] crate::fast::stands_out(img, a, b, r, v),
    ensures
        exists|i: int| 0 <= i < kps@.len() && (#[trigger] kps@[i]).x == x && kps@[i].y == y,
{
    let t = crate::fast::effective(threshold);
    assert(t == threshold);
    crate::fast::lemma_feature_found(img, t, x, y, s, v);
    assert(crate::fast::is_keypoint(img, t, x, y));
    assert(crate::fast::has_keypoint(kps@, x, y));
}

/// Of the descriptors to choose from the nearest is found, the first of those,
/// and how near the next is.
pub proof fn law_two_nearest(
    query: &crate::matcher::Descriptor,
    train: &[crate::matcher::Descriptor],
    r: Option<(usize, u32, u32)>,
    j: int,
)
    requires
        call_ensures(crate::matcher::two_nn, (query, train), r),
        0 <= j < train@.len(),
    ensures
        r is Some <==> train@.len() >= 2,
        r matches Some(n) ==> {
            let d = crate::matcher::ham(*query, train@[j]);
            &&& n.0 < train@.len()
            &&& j == n.0 ==> d == n.1
            &&& j < n.0 ==> d > n.1
            &&& j > n.0 ==> d >= n.1
            &&& j != n.0 ==> d >= n.2
            &&& n.1 <= n.2
        },
        r matches Some(n) ==> exists|k: int|
            0 <= k < train@.len() && k != n.0 && #[trigger] crate::matcher::ham(*query, train@[k])
                == n.2,
{
}

/// The rows of a mask that are used: each that is lies between the first and
/// the last, and these are.
pub proof fn law_covered_rows(mask: &GrayImage, r: Option<(usize, usize)>, x: int, y: int) -> (z: (
    int,
    int,
))
    requires
        call_ensures(crate::layout::covered_rows, (mask,), r),
        0 <= x < mask.width,
        0 <= y < mask.height,
    ensures
        mask.data@[y * mask.width + x] != 0 ==> (r matches Some(w) && w.0 <= y <= w.1),
        r matches Some(w) ==> {
            &&& 0 <= z.0 < mask.width && 0 <= z.1 < mask.width
            &&& w.0 <= w.1 < mask.height
            &&& mask.data@[w.0 * mask.width + z.0] != 0
            &&& mask.data@[w.1 * mask.width + z.1] != 0
        },
{
    assert(mask.px(x, y) == mask.data@[y * mask.width + x]);
    match r {
        Some((first, last)) => {
            if mask.px(x, y) != 0 {
                assert(crate::layout::row_used(mask, y));
            }
            let p = choose|p: int| 0 <= p < mask.width && #[trigger] mask.px(p, first as int) != 0;
            let q = choose|q: int| 0 <= q < mask.width && #[trigger] mask.px(q, last as int) != 0;
            (p, q)
        },
        None => (0, 0),
    }
}

/// A number drawn from a range lies in it, as far from its start as the drawn
/// word is beyond a multiple of the range's length. From an empty range the
/// start is given, and nothing drawn.
pub proof fn law_drawn(r: &mut CvRng, a: i32, b: i32, v: i32)
    requires
        call_ensures(CvRng::uniform_int, (r, a, b), v),
        0 <= old(r)@ <= u64::MAX,
    ensures
        a < b ==> v - a == (final(r)@ % 0x1_0000_0000) % (b - a),
        a < b ==> a <= v < b,
        a == b ==> v == a && final(r)@ == old(r)@,
        a != b ==> 0x1_0000_0000 * final(r)@ == old(r)@ + (old(r)@ % 0x1_0000_0000) * (4164903690
            * 0x1_0000_0000 - 1),
{
    crate::rng::lemma_multiply_with_carry(old(r)@);
    if a < b {
        crate::rng::lemma_uniform(final(r)@ % 0x1_0000_0000, a, b);
    }
}

/// The rows of a window that an image has are those in both.
pub proof fn law_row_window(y0: usize, y1: usize, h: usize, r: (usize, usize, usize), y: int)
    requires
        call_ensures(crate::warp::row_window, (y0, y1, h), r),
    ensures
        (y0 <= y < y1 && 0 <= y < h) <==> (r.0 <= y < r.1),
        (y0 <= y < y1 && 0 <= y < h) <==> (r.0 <= y < r.0 + r.2),
{
}

/// The frame of a panorama is the smallest that holds every image.
pub proof fn law_frame(
    corners: &[(i32, i32)],
    sizes: &[(i32, i32)],
    r: (i32, i32, usize, usize),
    i: int,
    f: (int, int, int, int),
)
    requires
        call_ensures(crate::blend::result_roi, (corners, sizes), r),
        0 <= i < corners@.len(),
    ensures
        r.0 <= corners@[i].0 && corners@[i].0 + sizes@[i].0 <= r.0 + r.2,
        r.1 <= corners@[i].1 && corners@[i].1 + sizes@[i].1 <= r.1 + r.3,
        (forall|k: int|
            0 <= k < corners@.len() ==> f.0 <= (#[trigger] corners@[k]).0 && f.1 <= corners@[k].1
                && corners@[k].0 + sizes@[k].0 <= f.2 && corners@[k].1 + sizes@[k].1 <= f.3) ==> f.0
            <= r.0 && f.1 <= r.1 && r.0 + r.2 <= f.2 && r.1 + r.3 <= f.3,
{
}

/// The weights of a mean of four pixels add up to 32768, those to the right to
/// the column's part of it and those below to the row's.
pub proof fn law_weights(tab: Vec<[i16; 4]>, fy: int, fx: int)
    requires
        call_ensures(crate::warp::bilinear_tab, (), tab),
        0 <= fy < 32,
        0 <= fx < 32,
    ensures
        ({
            let t = tab@[fy * 32 + fx]@;
            &&& t[0] + t[1] + t[2] + t[3] == 32768
            &&& fy != 0 || fx != 0 ==> {
                &&& t[1] + t[3] == 1024 * fx
                &&& t[2] + t[3] == 1024 * fy
                &&& t[3] == 32 * (fy * fx)
            }
            &&& fy == 0 && fx == 0 ==> t[0] == 32767 && t[3] == 1
        }),
{
    let t = tab@[fy * 32 + fx]@;
    assert(t[0] == crate::warp::bilinear_coef(fy, fx, 0));
    assert(t[1] == crate::warp::bilinear_coef(fy, fx, 1));
    assert(t[2] == crate::warp::bilinear_coef(fy, fx, 2));
    assert(t[3] == crate::warp::bilinear_coef(fy, fx, 3));
    assert((32 - fy) * (32 - fx) == 1024 - 32 * fy - 32 * fx + fy * fx && (32 - fy) * fx == 32 * fx
        - fy * fx && fy * (32 - fx) == 32 * fy - fy * fx) by (nonlinear_arith);
}

/// The steps to a circle's pixels go once round it, and on to the ninth again.
pub proof fn law_offsets(stride: i32, pixel: [i32; 25], k: int)
    requires
        call_ensures(crate::fast::make_offsets, (stride,), pixel),
        0 <= k < 16,
    ensures
        pixel@[k] == crate::fast::ring(k).0 + crate::fast::ring(k).1 * stride,
        k < 9 ==> pixel@[k + 16] == pixel@[k],
{
    assert(pixel@[k] == crate::fast::ring_step(k, stride as int));
    assert(k % 16 == k && (k + 16) % 16 == k);
    if k < 9 {
        assert(pixel@[k + 16] == crate::fast::ring_step(k + 16, stride as int));
    }
}

/// Features are kept if they are `border` or more pixels from every edge.
pub proof fn law_inside(
    kps: &[FastKeypoint],
    w: usize,
    h: usize,
    border: i32,
    r: Vec<FastKeypoint>,
    i: int,
)
    requires
        call_ensures(crate::orb::run_by_image_border, (kps, w, h, border), r),
        0 <= i < kps@.len(),
    ensures
        r@.contains(kps@[i]) <==> border <= kps@[i].x && kps@[i].x + border < w && border
            <= kps@[i].y && kps@[i].y + border < h,
        forall|k: int| 0 <= k < r@.len() ==> kps@.contains(#[trigger] r@[k]),
{
    lemma_inside_are(kps@, w as int, h as int, border as int, kps@.len() as int);
    if r@.contains(kps@[i]) {
        let k = r@.index_of(kps@[i]);
        assert(r@[k] == kps@[i]);
    }
}

proof fn lemma_inside_are(kps: Seq<FastKeypoint>, w: int, h: int, border: int, k: int)
    requires
        0 <= k <= kps.len(),
    ensures
        ({
            let r = crate::orb::inside_until(kps, w, h, border, k);
            let fits = |p: FastKeypoint|
                border <= p.x && p.x + border < w && border <= p.y && p.y + border < h;
            &&& forall|j: int| 0 <= j < r.len() ==> fits(#[trigger] r[j]) && kps.contains(r[j])
            &&& forall|j: int| 0 <= j < k && fits(#[trigger] kps[j]) ==> r.contains(kps[j])
        }),
    decreases k,
{
    if k > 0 {
        lemma_inside_are(kps, w, h, border, k - 1);
        let before = crate::orb::inside_until(kps, w, h, border, k - 1);
        let r = crate::orb::inside_until(kps, w, h, border, k);
        assert forall|j: int|
            0 <= j < k && border <= (#[trigger] kps[j]).x && kps[j].x + border < w && border
                <= kps[j].y && kps[j].y + border < h implies r.contains(kps[j]) by {
            if j < k - 1 {
                assert(before.contains(kps[j]));
                let z = before.index_of(kps[j]);
                assert(r[z] == kps[j]);
            } else {
                assert(r[before.len() as int] == kps[j]);
            }
        }
        assert forall|j: int| 0 <= j < r.len() implies kps.contains(#[trigger] r[j]) by {
            if j < before.len() {
                assert(r[j] == before[j]);
            } else {
                assert(r[j] == kps[k - 1]);
            }
        }
    }
}

} // verus!
