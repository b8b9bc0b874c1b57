//! From the blended strip to the finished picture: which byte shows where.

use crate::export::matched_byte;
use crate::export::picture_of;
use crate::export::state_ok;
use crate::export::ExportState;
use crate::imgproc::lemma_index;
use crate::imgproc::lemma_index_split;
use crate::imgproc::GrayImage;
use crate::layout::are_bands;
use crate::layout::Entry;
use crate::layout::ExportBand;
use crate::layout::ExportLayout;
use crate::paste::ext_run;
use crate::paste::first_writer;
use crate::paste::layout_ok;
use crate::paste::paste_column;
use crate::paste::paste_count;
use crate::paste::pasted;
use crate::pyramid::lemma_plane;
use vstd::prelude::*;

verus! {

/// The picture is the crop of the canvas, upright: row `r` of the picture is
/// row `crop.1 + r` of the canvas and column `c` is column `crop.0 + c`, byte
/// for byte, but for the canvas's first and last column.
pub proof fn lemma_picture_is_crop(s: ExportState, r: int, c: int, k: int)
    requires
        state_ok(s),
        s.layout.crop.1 + s.layout.crop.3 <= s.layout.canvas_h,
        0 <= r < s.layout.crop.3,
        0 <= c < s.layout.crop.2,
        0 <= k < 3,
        0 < s.layout.crop.0 + c < s.layout.canvas_w - 1,
    ensures
        picture_of(s).len() == s.layout.crop.2 * s.layout.crop.3 * 3,
        picture_of(s)[(r * s.layout.crop.2 + c) * 3 + k] == s.canvas[((s.layout.crop.1 + r)
            * s.layout.canvas_w + (s.layout.crop.0 + c)) * 3 + k],
{
    let (x, y, cw, ch) = s.layout.crop;
    let (w, h) = (s.layout.canvas_w as int, s.layout.canvas_h as int);
    lemma_plane(c, r, k, cw as int, ch as int);
    lemma_plane(x + c, y + r, k, w, h);
    assert(cw * ch * 3 >= 0) by (nonlinear_arith);
    assert((y + r) * w + x + c == (y + r) * w + (x + c));
}

/// The canvas goes round: where its first and last column are both covered,
/// the picture shows the mean of the two in both, rounded down. An uncovered
/// first column shows its neighbours, as far as they are covered.
pub proof fn lemma_picture_ends(s: ExportState, r: int, c: int, k: int)
    requires
        state_ok(s),
        s.layout.canvas_w >= 3,
        s.layout.crop.1 + s.layout.crop.3 <= s.layout.canvas_h,
        0 <= r < s.layout.crop.3,
        0 <= c < s.layout.crop.2,
        0 <= k < 3,
    ensures
        ({
            let w = s.layout.canvas_w as int;
            let row = (s.layout.crop.1 + r) * w;
            let shown = picture_of(s)[(r * s.layout.crop.2 + c) * 3 + k] as int;
            let at = |i: int| s.canvas[(row + i) * 3 + k] as int;
            let set = |i: int| s.covered[row + i] != 0;
            let first = s.layout.crop.0 + c == 0;
            let last = s.layout.crop.0 + c == w - 1;
            &&& (first || last) && set(0) && set(w - 1) ==> at(0) + at(w - 1) - 1 <= 2 * shown
                <= at(0) + at(w - 1)
            &&& last && !(set(0) && set(w - 1)) ==> shown == at(w - 1)
            &&& first && set(0) && !set(w - 1) ==> shown == at(0)
            &&& first && !set(0) && set(1) && set(w - 1) ==> at(1) + at(w - 1) - 1 <= 2 * shown
                <= at(1) + at(w - 1)
            &&& first && !set(0) && set(1) && !set(w - 1) ==> shown == at(1)
            &&& first && !set(0) && !set(1) && set(w - 1) ==> shown == at(w - 1)
            &&& first && !set(0) && !set(1) && !set(w - 1) ==> shown == at(0)
        }),
{
    let (x, y, cw, ch) = s.layout.crop;
    let (w, h) = (s.layout.canvas_w as int, s.layout.canvas_h as int);
    lemma_plane(c, r, k, cw as int, ch as int);
    lemma_plane(x + c, y + r, k, w, h);
    assert(cw * ch * 3 >= 0) by (nonlinear_arith);
    assert((y + r) * w + x + c == (y + r) * w + (x + c));
    let b = ((y + r) * w + x + c) * 3 + k;
    let m = matched_byte(s.canvas, s.covered, w, b);
    assert(0 <= m <= 255);
    assert(picture_of(s)[(r * cw + c) * 3 + k] == m as u8);
}

/// Strip column `x` is pasted, covered in row `sy` of the strip, and lands on
/// canvas column `c`.
pub open spec fn lands(l: ExportLayout, coverage: &GrayImage, x: int, sy: int, c: int) -> bool {
    &&& coverage.data@[sy * coverage.width + x] != 0
    &&& (l.strip.0 - l.off_x + x) % (l.canvas_w as int) == c
}

/// Strip columns from the first duplicated image on, but for the trimmed end.
pub open spec fn in_extension(l: ExportLayout, x: int) -> bool {
    l.ext_start <= x < l.strip.2 - l.ext_trim
}

/// Strip columns up to where the last image that is no duplicate ends.
pub open spec fn in_originals(l: ExportLayout, x: int) -> bool {
    0 <= x < l.originals_end && x < l.strip.2
}

proof fn lemma_first_writer(
    l: ExportLayout,
    coverage: &GrayImage,
    sy: int,
    c: int,
    k: int,
    p: int,
)
    requires
        0 <= p < k,
        lands(l, coverage, paste_column(l, p), sy, c),
        forall|q: int|
            0 <= q < p ==> !lands(l, coverage, #[trigger] paste_column(l, q), sy, c),
    ensures
        first_writer(l, coverage, sy, c, k) == Some(paste_column(l, p)),
    decreases k,
{
    if k - 1 > p {
        lemma_first_writer(l, coverage, sy, c, k - 1, p);
    } else {
        lemma_no_writer(l, coverage, sy, c, p);
    }
}

proof fn lemma_no_writer(l: ExportLayout, coverage: &GrayImage, sy: int, c: int, k: int)
    requires
        forall|q: int|
            0 <= q < k ==> !lands(l, coverage, #[trigger] paste_column(l, q), sy, c),
    ensures
        first_writer(l, coverage, sy, c, k) is None,
    decreases k,
{
    if k > 0 {
        lemma_no_writer(l, coverage, sy, c, k - 1);
        assert(!lands(l, coverage, paste_column(l, k - 1), sy, c));
    }
}

/// Which strip pixel a pasted band writes on canvas pixel (`c`, `y`), if that
/// is still free: the first column of the extension that lands there, and
/// failing that the first of the originals. If none lands there, nothing
/// changes.
#[verifier::spinoff_prover]
pub proof fn lemma_paste_pixel(
    l: ExportLayout,
    coverage: &GrayImage,
    blended: Seq<u8>,
    py0: int,
    y0: int,
    y1: int,
    canvas0: Seq<u8>,
    covered0: Seq<u8>,
    canvas: Seq<u8>,
    covered: Seq<u8>,
    c: int,
    y: int,
    k: int,
    x: int,
)
    requires
        layout_ok(l),
        coverage.width == l.strip.2,
        pasted(l, coverage, blended, py0, y0, y1, 0, canvas0, covered0, canvas, covered),
        covered0.len() == l.canvas_w * l.canvas_h,
        canvas0.len() == l.canvas_w * l.canvas_h * 3,
        0 <= c < l.canvas_w,
        0 <= y < l.canvas_h,
        0 <= k < 3,
        py0 <= y0 <= y < y1,
        covered0[y * l.canvas_w + c] == 0,
    ensures
        ({
            let q = y * l.canvas_w + c;
            let sy = y - py0;
            let written = covered[q] != 0 && canvas[q * 3 + k] == blended[(sy * l.strip.2 + x) * 3
                + k];
            &&& in_extension(l, x) && lands(l, coverage, x, sy, c) && (forall|o: int|
                in_extension(l, o) && o < x ==> !#[trigger] lands(l, coverage, o, sy, c))
                ==> written
            &&& in_originals(l, x) && lands(l, coverage, x, sy, c) && (forall|o: int|
                in_extension(l, o) || (in_originals(l, o) && o < x) ==> !#[trigger] lands(
                    l,
                    coverage,
                    o,
                    sy,
                    c,
                )) ==> written
            &&& (forall|o: int|
                in_extension(l, o) || in_originals(l, o) ==> !#[trigger] lands(
                    l,
                    coverage,
                    o,
                    sy,
                    c,
                )) ==> covered[q] == 0 && canvas[q * 3 + k] == canvas0[q * 3 + k]
        }),
{
    let (w, h) = (l.canvas_w as int, l.canvas_h as int);
    let q = y * w + c;
    let sy = y - py0;
    lemma_index(c, y, w, h);
    lemma_index_split(c, y, w);
    lemma_plane(c, y, k, w, h);
    assert((q * 3 + k) / 3 == q);
    let first = ext_run(l);
    let n = paste_count(l);
    assert(forall|p: int|
        0 <= p < n ==> in_extension(l, #[trigger] paste_column(l, p)) || in_originals(
            l,
            paste_column(l, p),
        ));
    assert(forall|p: int| #[trigger] coverage.px(paste_column(l, p), sy) == coverage.data@[sy
        * coverage.width + paste_column(l, p)]);
    if in_extension(l, x) && lands(l, coverage, x, sy, c) && (forall|o: int|
        in_extension(l, o) && o < x ==> !#[trigger] lands(l, coverage, o, sy, c)) {
        let p = x - l.ext_start;
        assert(paste_column(l, p) == x);
        lemma_first_writer(l, coverage, sy, c, n, p);
    }
    if in_originals(l, x) && lands(l, coverage, x, sy, c) && (forall|o: int|
        in_extension(l, o) || (in_originals(l, o) && o < x) ==> !#[trigger] lands(
            l,
            coverage,
            o,
            sy,
            c,
        )) {
        let p = first + x;
        assert(paste_column(l, p) == x);
        assert forall|j: int| 0 <= j < p implies !lands(
            l,
            coverage,
            #[trigger] paste_column(l, j),
            sy,
            c,
        ) by {
            let o = paste_column(l, j);
            assert(in_extension(l, o) || (in_originals(l, o) && o < x));
        }
        lemma_first_writer(l, coverage, sy, c, n, p);
    }
    if forall|o: int|
        in_extension(l, o) || in_originals(l, o) ==> !#[trigger] lands(l, coverage, o, sy, c) {
        lemma_no_writer(l, coverage, sy, c, n);
    }
}

/// What the strip shows is what the picture shows: a covered strip pixel that
/// is the first to land on its canvas pixel stands in the picture as many rows
/// down as its canvas row is below the crop's top, with its own colour.
pub proof fn lemma_strip_shows(
    s: ExportState,
    coverage: &GrayImage,
    blended: Seq<u8>,
    py0: int,
    y0: int,
    y1: int,
    canvas0: Seq<u8>,
    covered0: Seq<u8>,
    x: int,
    y: int,
    k: int,
)
    requires
        state_ok(s),
        s.canvas.len() > 0,
        s.layout.crop.1 + s.layout.crop.3 <= s.layout.canvas_h,
        coverage.width == s.layout.strip.2,
        pasted(
            s.layout,
            coverage,
            blended,
            py0,
            y0,
            y1,
            0,
            canvas0,
            covered0,
            s.canvas,
            s.covered,
        ),
        0 <= k < 3,
        py0 <= y0 <= y < y1,
        s.layout.crop.1 <= y < s.layout.crop.1 + s.layout.crop.3,
        in_originals(s.layout, x),
        ({
            let c = (s.layout.strip.0 - s.layout.off_x + x) % (s.layout.canvas_w as int);
            &&& 0 < c < s.layout.canvas_w - 1
            &&& s.layout.crop.0 <= c < s.layout.crop.0 + s.layout.crop.2
            &&& covered0[y * s.layout.canvas_w + c] == 0
            &&& lands(s.layout, coverage, x, y - py0, c)
            &&& forall|o: int|
                in_extension(s.layout, o) || (in_originals(s.layout, o) && o < x)
                    ==> !#[trigger] lands(s.layout, coverage, o, y - py0, c)
        }),
    ensures
        ({
            let c = (s.layout.strip.0 - s.layout.off_x + x) % (s.layout.canvas_w as int);
            picture_of(s)[((y - s.layout.crop.1) * s.layout.crop.2 + (c - s.layout.crop.0)) * 3 + k]
                == blended[((y - py0) * s.layout.strip.2 + x) * 3 + k]
        }),
{
    let l = s.layout;
    let c = (l.strip.0 - l.off_x + x) % (l.canvas_w as int);
    lemma_paste_pixel(
        l,
        coverage,
        blended,
        py0,
        y0,
        y1,
        canvas0,
        covered0,
        s.canvas,
        s.covered,
        c,
        y,
        k,
        x,
    );
    lemma_picture_is_crop(s, y - l.crop.1, c - l.crop.0, k);
}

/// Bands are 768 rows high, but for the last, and follow each other without a
/// gap. A band needs exactly the images that reach within 256 rows of it.
pub proof fn lemma_band_heights(
    bands: Seq<ExportBand>,
    rows: (usize, usize),
    entries: Seq<Entry>,
    ids: Seq<u32>,
    k: int,
    e: int,
)
    requires
        are_bands(bands, rows, entries, ids),
        rows.0 <= rows.1,
        0 <= k < bands.len(),
        0 <= e < entries.len(),
    ensures
        k == 0 ==> bands[k].y0 == rows.0,
        k < bands.len() - 1 ==> bands[k].y1 == bands[k].y0 + 768 && bands[k + 1].y0 == bands[k].y1,
        k == bands.len() - 1 ==> bands[k].y1 == rows.1 && bands[k].y0 < bands[k].y1 <= bands[k].y0
            + 768,
        entries[e].roi.1 < bands[k].y1 + 256 && entries[e].roi.1 + entries[e].roi.3 > (if bands[k].y0
            >= 256 {
            bands[k].y0 - 256
        } else {
            0
        }) ==> bands[k].needed@.contains(ids[entries[e].src_idx as int]),
        (forall|i: int|
            0 <= i < entries.len() && ids[(#[trigger] entries[i]).src_idx as int]
                == ids[entries[e].src_idx as int] ==> entries[i].roi.1 >= bands[k].y1 + 256
                || entries[i].roi.1 + entries[i].roi.3 <= bands[k].y0 - 256) ==> !bands[k].needed@.contains(
            ids[entries[e].src_idx as int],
        ),
{
    let b = bands[k];
    if k < bands.len() - 1 {
        let next = bands[k + 1];
        assert(next.y0 == rows.0 + 768 * (k + 1));
    }
    let id = ids[entries[e].src_idx as int];
    assert(b.needed@.contains(id) <==> crate::layout::image_meets(
        entries,
        ids,
        id,
        crate::layout::padded_top(b.y0 as int),
        b.y1 + crate::layout::BAND_PAD,
    ));
    assert(entries[e].meets(crate::layout::padded_top(b.y0 as int), b.y1 + 256) ==> entries[e].roi.1
        < b.y1 + 256);
}

/// The crop keeps what is covered: a canvas row that some image covers is a
/// row of the crop, and so is a canvas column that some image lies over.
pub proof fn lemma_crop_keeps(
    l: ExportLayout,
    canvas_w: int,
    off_x: int,
    entries: Seq<Entry>,
    rows: Seq<Option<(i32, i32)>>,
    e: int,
    x: int,
    y: int,
)
    requires
        canvas_w >= 2,
        l.is_for(canvas_w, off_x, entries, rows),
        rows.len() == entries.len(),
        forall|i: int| 0 <= i < entries.len() ==> 0 <= (#[trigger] entries[i]).roi.2,
        0 <= e < entries.len(),
        rows[e] is Some,
        0 <= (rows[e]->0).0,
        (rows[e]->0).1 <= entries[e].roi.3,
        entries[e].roi.0 <= x < entries[e].roi.0 + entries[e].roi.2,
        entries[e].roi.1 + (rows[e]->0).0 <= y < entries[e].roi.1 + (rows[e]->0).1,
        0 <= y < l.canvas_h,
    ensures
        l.crop.1 <= y < l.crop.1 + l.crop.3,
        l.crop.0 <= (x - off_x) % canvas_w < l.crop.0 + l.crop.2,
        0 <= l.ext_trim <= 64,
        2 * l.ext_trim <= l.strip.2 - l.ext_start,
        l.ext_trim == 64 || 2 * l.ext_trim + 1 >= l.strip.2 - l.ext_start,
{
    lemma_cover(entries, rows, entries.len() as int, e);
    vstd::arithmetic::power::lemma_pow_positive(2, l.mb_bands as nat);
    let n = entries.len() as int;
    assert(entries[e].roi.0 - l.strip.0 >= 0);
    if !entries[e].dup {
        assert(entries[e].roi.0 + entries[e].roi.2 - l.strip.0 <= l.originals_end);
    }
    let i = choose|i: int| 0 <= i < entries.len() && !(#[trigger] entries[i]).dup && entries[i].right()
        - l.strip.0 == l.originals_end;
    if l.crop.2 != canvas_w || l.crop.0 != 0 {
        assert(!entries[e].dup);
        lemma_shifted(l.strip.0 - off_x, x - l.strip.0, canvas_w);
    } else {
        assert(0 <= (x - off_x) % canvas_w < canvas_w);
    }
    if crate::layout::wraps(entries) {
        let d = choose|d: int| 0 <= d < entries.len() && (#[trigger] entries[d]).dup
            && l.ext_start == entries[d].roi.0 - l.strip.0;
        assert(entries[d].right() <= l.strip.0 + l.strip.2);
    }
}

/// Going on by `d` from `s` does not pass the end if it does not from `s`'s
/// place.
proof fn lemma_shifted(s: int, d: int, w: int)
    requires
        w >= 1,
        0 <= d,
        s % w + d < w,
    ensures
        (s + d) % w == s % w + d,
{
    vstd::arithmetic::div_mod::lemma_fundamental_div_mod(s, w);
    assert(s + d == (s / w) * w + (s % w + d)) by (nonlinear_arith)
        requires
            s == w * (s / w) + s % w,
    ;
    vstd::arithmetic::div_mod::lemma_fundamental_div_mod_converse(s + d, w, s / w, s % w + d);
}

proof fn lemma_cover(entries: Seq<Entry>, rows: Seq<Option<(i32, i32)>>, k: int, e: int)
    requires
        0 <= e < k <= entries.len(),
        rows.len() == entries.len(),
        rows[e] is Some,
    ensures
        crate::layout::cover_top(entries, rows, k) <= entries[e].roi.1 + (rows[e]->0).0,
        crate::layout::cover_bottom(entries, rows, k) >= entries[e].roi.1 + (rows[e]->0).1,
    decreases k,
{
    if e < k - 1 {
        lemma_cover(entries, rows, k - 1, e);
    }
}

} // verus!
