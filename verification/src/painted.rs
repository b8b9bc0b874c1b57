//! Masks that the user paints over an image: places to leave out, and places
//! that other images are to leave to it.

use crate::imgproc::lemma_index;
use crate::imgproc::GrayImage;
use crate::masks::covers;
use vstd::prelude::*;

verus! {

/// Painted where an image is not to be used.
pub const EXCLUDE: u8 = 1;

/// Painted where an image is to be used rather than others.
pub const PREFER: u8 = 2;

/// What is painted over pixel (`x`, `y`) of the image scaled to `w` by `h`
/// pixels.
pub open spec fn painted_at(painted: &GrayImage, w: int, h: int, x: int, y: int) -> u8 {
    painted.px((x * painted.width) / w, (y * painted.height) / h)
}

/// `hit` where `value` is painted, `miss` elsewhere.
fn stencil(painted: &GrayImage, w: usize, h: usize, value: u8, hit: u8, miss: u8) -> (out: GrayImage)
    requires
        painted.wf(),
        1 <= w,
        1 <= h,
        1 <= painted.width,
        1 <= painted.height,
        w * h <= usize::MAX,
        w * painted.width <= usize::MAX,
        h * painted.height <= usize::MAX,
    ensures
        out.wf(),
        out.width == w,
        out.height == h,
        forall|x: int, y: int|
            0 <= x < w && 0 <= y < h ==> #[trigger] out.px(x, y) == if painted_at(
                painted,
                w as int,
                h as int,
                x,
                y,
            ) == value {
                hit
            } else {
                miss
            },
{
    let ghost (wi, hi) = (w as int, h as int);
    let mut data: Vec<u8> = Vec::new();
    let mut y: usize = 0;
    assert(0 * w == 0) by (nonlinear_arith);
    while y < h
        invariant
            painted.wf(),
            1 <= w,
            1 <= h,
            1 <= painted.width,
            1 <= painted.height,
            w * h <= usize::MAX,
            w * painted.width <= usize::MAX,
            h * painted.height <= usize::MAX,
            wi == w,
            hi == h,
            y <= h,
            data@.len() == y * w,
            forall|q: int|
                0 <= q < data@.len() ==> #[trigger] data@[q] == if painted_at(
                    painted,
                    wi,
                    hi,
                    q % wi,
                    q / wi,
                ) == value {
                    hit
                } else {
                    miss
                },
        decreases h - y,
    {
        proof {
            lemma_scaled(y as int, hi, painted.height as int);
        }
        let py: usize = y * painted.height / h;
        let mut x: usize = 0;
        while x < w
            invariant
                painted.wf(),
                1 <= w,
                1 <= h,
                1 <= painted.width,
                1 <= painted.height,
                w * h <= usize::MAX,
                w * painted.width <= usize::MAX,
                wi == w,
                hi == h,
                y < h,
                x <= w,
                py == (y * painted.height) / hi,
                py < painted.height,
                data@.len() == y * w + x,
                forall|q: int|
                    0 <= q < data@.len() ==> #[trigger] data@[q] == if painted_at(
                        painted,
                        wi,
                        hi,
                        q % wi,
                        q / wi,
                    ) == value {
                        hit
                    } else {
                        miss
                    },
            decreases w - x,
        {
            proof {
                lemma_scaled(x as int, wi, painted.width as int);
                crate::imgproc::lemma_index_split(x as int, y as int, wi);
            }
            let px: usize = x * painted.width / w;
            data.push(
                if painted.at(px, py) == value {
                    hit
                } else {
                    miss
                },
            );
            x = x + 1;
        }
        assert((y + 1) * w == y * w + w) by (nonlinear_arith);
        y = y + 1;
    }
    assert(h * w == w * h) by (nonlinear_arith);
    let out = GrayImage::new(w, h, data);
    proof {
        assert forall|x: int, y: int| 0 <= x < w && 0 <= y < h implies #[trigger] out.px(x, y)
            == if painted_at(painted, wi, hi, x, y) == value {
            hit
        } else {
            miss
        } by {
            lemma_index(x, y, wi, hi);
            crate::imgproc::lemma_index_split(x, y, wi);
            assert(out.data@[y * wi + x] == data@[y * wi + x]);
        }
    }
    out
}

/// Scaled indices stay in range.
proof fn lemma_scaled(x: int, w: int, n: int)
    requires
        0 <= x < w,
        1 <= n,
    ensures
        0 <= (x * n) / w < n,
        0 <= x * n <= w * n,
{
    assert(0 <= x * n < w * n) by (nonlinear_arith)
        requires
            0 <= x < w,
            1 <= n,
    ;
    assert(0 <= (x * n) / w < n) by (nonlinear_arith)
        requires
            0 <= x * n < w * n,
            w >= 1,
    ;
}

/// The part of an image, scaled to `w` by `h` pixels, that painting leaves
/// open to use: 255, but 0 where it is excluded.
pub fn open_part(painted: &GrayImage, w: usize, h: usize) -> (out: GrayImage)
    requires
        painted.wf(),
        1 <= w,
        1 <= h,
        1 <= painted.width,
        1 <= painted.height,
        w * h <= usize::MAX,
        w * painted.width <= usize::MAX,
        h * painted.height <= usize::MAX,
    ensures
        out.wf(),
        out.width == w,
        out.height == h,
        forall|x: int, y: int|
            0 <= x < w && 0 <= y < h ==> #[trigger] out.px(x, y) == if painted_at(
                painted,
                w as int,
                h as int,
                x,
                y,
            ) == EXCLUDE {
                0u8
            } else {
                255u8
            },
{
    stencil(painted, w, h, EXCLUDE, 0, 255)
}

/// The part of an image, scaled to `w` by `h` pixels, that is painted as
/// preferred: 255 there, 0 elsewhere.
pub fn preferred_part(painted: &GrayImage, w: usize, h: usize) -> (out: GrayImage)
    requires
        painted.wf(),
        1 <= w,
        1 <= h,
        1 <= painted.width,
        1 <= painted.height,
        w * h <= usize::MAX,
        w * painted.width <= usize::MAX,
        h * painted.height <= usize::MAX,
    ensures
        out.wf(),
        out.width == w,
        out.height == h,
        forall|x: int, y: int|
            0 <= x < w && 0 <= y < h ==> #[trigger] out.px(x, y) == if painted_at(
                painted,
                w as int,
                h as int,
                x,
                y,
            ) == PREFER {
                255u8
            } else {
                0u8
            },
{
    stencil(painted, w, h, PREFER, 255, 0)
}

/// Image `j` covers the point and is preferred there.
pub open spec fn claims(
    masks: Seq<GrayImage>,
    preferred: Seq<GrayImage>,
    corners: Seq<(i32, i32)>,
    j: int,
    gx: int,
    gy: int,
) -> bool {
    covers(&masks[j], corners[j], gx, gy) && covers(&preferred[j], corners[j], gx, gy)
}

/// Some image covers the point and is preferred there.
pub open spec fn is_claimed(
    masks: Seq<GrayImage>,
    preferred: Seq<GrayImage>,
    corners: Seq<(i32, i32)>,
    gx: int,
    gy: int,
) -> bool {
    exists|j: int|
        0 <= j < masks.len() && #[trigger] claims(masks, preferred, corners, j, gx, gy)
}

/// Image `i` yields the point: another is preferred there, and it is not.
pub open spec fn yields(
    masks: Seq<GrayImage>,
    preferred: Seq<GrayImage>,
    corners: Seq<(i32, i32)>,
    i: int,
    gx: int,
    gy: int,
) -> bool {
    !covers(&preferred[i], corners[i], gx, gy) && is_claimed(masks, preferred, corners, gx, gy)
}

/// `out` is mask `i` without the points that it yields.
pub open spec fn yielded(
    masks: Seq<GrayImage>,
    preferred: Seq<GrayImage>,
    corners: Seq<(i32, i32)>,
    i: int,
    out: &GrayImage,
) -> bool {
    &&& out.wf()
    &&& out.width == masks[i].width
    &&& out.height == masks[i].height
    &&& forall|x: int, y: int|
        0 <= x < out.width && 0 <= y < out.height ==> #[trigger] out.px(x, y) == if yields(
            masks,
            preferred,
            corners,
            i,
            corners[i].0 + x,
            corners[i].1 + y,
        ) {
            0u8
        } else {
            masks[i].px(x, y)
        }
}

/// Masks and what is preferred of them belong together.
pub open spec fn fit_together(
    masks: Seq<GrayImage>,
    preferred: Seq<GrayImage>,
    corners: Seq<(i32, i32)>,
) -> bool {
    &&& preferred.len() == masks.len()
    &&& corners.len() == masks.len()
    &&& forall|i: int|
        0 <= i < masks.len() ==> {
            &&& (#[trigger] masks[i]).wf()
            &&& preferred[i].wf()
            &&& masks[i].width <= i32::MAX
            &&& masks[i].height <= i32::MAX
            &&& preferred[i].width <= i32::MAX
            &&& preferred[i].height <= i32::MAX
        }
}

fn is_covered(m: &GrayImage, c: (i32, i32), gx: i64, gy: i64) -> (r: bool)
    requires
        m.wf(),
        m.width <= i32::MAX,
        m.height <= i32::MAX,
        i32::MIN <= gx <= 0x1_0000_0000,
        i32::MIN <= gy <= 0x1_0000_0000,
    ensures
        r == covers(m, c, gx as int, gy as int),
{
    let x: i64 = gx - c.0 as i64;
    let y: i64 = gy - c.1 as i64;
    0 <= x && x < m.width as i64 && 0 <= y && y < m.height as i64 && m.at(x as usize, y as usize)
        != 0
}

/// Whether some image covers the point and is preferred there.
fn claimed(
    masks: &Vec<GrayImage>,
    preferred: &[GrayImage],
    corners: &[(i32, i32)],
    gx: i64,
    gy: i64,
) -> (r: bool)
    requires
        fit_together(masks@, preferred@, corners@),
        i32::MIN <= gx <= 0x1_0000_0000,
        i32::MIN <= gy <= 0x1_0000_0000,
    ensures
        r == is_claimed(masks@, preferred@, corners@, gx as int, gy as int),
{
    let mut j: usize = 0;
    while j < masks.len()
        invariant
            fit_together(masks@, preferred@, corners@),
            i32::MIN <= gx <= 0x1_0000_0000,
            i32::MIN <= gy <= 0x1_0000_0000,
            j <= masks@.len(),
            forall|k: int|
                0 <= k < j ==> !#[trigger] claims(
                    masks@,
                    preferred@,
                    corners@,
                    k,
                    gx as int,
                    gy as int,
                ),
        decreases masks@.len() - j,
    {
        assert(masks@[j as int].wf());
        if is_covered(&masks[j], corners[j], gx, gy) && is_covered(
            &preferred[j],
            corners[j],
            gx,
            gy,
        ) {
            assert(claims(masks@, preferred@, corners@, j as int, gx as int, gy as int));
            return true;
        }
        j = j + 1;
    }
    false
}

/// Mask `i` without the points that it yields.
fn without_yielded(
    masks: &Vec<GrayImage>,
    preferred: &[GrayImage],
    corners: &[(i32, i32)],
    i: usize,
) -> (out: GrayImage)
    requires
        fit_together(masks@, preferred@, corners@),
        i < masks@.len(),
    ensures
        yielded(masks@, preferred@, corners@, i as int, &out),
{
    assert(masks@[i as int].wf());
    let (w, h): (usize, usize) = (masks[i].width, masks[i].height);
    let ghost (wi, hi) = (w as int, h as int);
    let c = corners[i];
    let ghost (ms, ps, cs) = (masks@, preferred@, corners@);
    let mut data: Vec<u8> = Vec::new();
    let mut y: usize = 0;
    assert(0 * w == 0) by (nonlinear_arith);
    while y < h
        invariant
            fit_together(ms, ps, cs),
            ms == masks@,
            ps == preferred@,
            cs == corners@,
            i < ms.len(),
            w == ms[i as int].width,
            h == ms[i as int].height,
            ms[i as int].wf(),
            w <= i32::MAX,
            h <= i32::MAX,
            c == cs[i as int],
            wi == w,
            hi == h,
            y <= h,
            data@.len() == y * w,
            forall|q: int|
                0 <= q < data@.len() ==> #[trigger] data@[q] == if yields(
                    ms,
                    ps,
                    cs,
                    i as int,
                    c.0 + q % wi,
                    c.1 + q / wi,
                ) {
                    0u8
                } else {
                    ms[i as int].px(q % wi, q / wi)
                },
        decreases h - y,
    {
        let mut x: usize = 0;
        while x < w
            invariant
                fit_together(ms, ps, cs),
                ms == masks@,
                ps == preferred@,
                cs == corners@,
                i < ms.len(),
                w == ms[i as int].width,
                h == ms[i as int].height,
                ms[i as int].wf(),
                w <= i32::MAX,
                h <= i32::MAX,
                c == cs[i as int],
                wi == w,
                hi == h,
                y < h,
                x <= w,
                data@.len() == y * w + x,
                forall|q: int|
                    0 <= q < data@.len() ==> #[trigger] data@[q] == if yields(
                        ms,
                        ps,
                        cs,
                        i as int,
                        c.0 + q % wi,
                        c.1 + q / wi,
                    ) {
                        0u8
                    } else {
                        ms[i as int].px(q % wi, q / wi)
                    },
            decreases w - x,
        {
            proof {
                crate::imgproc::lemma_index_split(x as int, y as int, wi);
                assert(ms[i as int].wf());
            }
            let (gx, gy): (i64, i64) = (c.0 as i64 + x as i64, c.1 as i64 + y as i64);
            let v: u8 = if !is_covered(&preferred[i], c, gx, gy) && claimed(
                masks,
                preferred,
                corners,
                gx,
                gy,
            ) {
                0
            } else {
                masks[i].at(x, y)
            };
            data.push(v);
            x = x + 1;
        }
        assert((y + 1) * w == y * w + w) by (nonlinear_arith);
        y = y + 1;
    }
    assert(h * w == w * h) by (nonlinear_arith);
    let out = GrayImage::new(w, h, data);
    proof {
        assert forall|x: int, y: int|
            0 <= x < out.width && 0 <= y < out.height implies #[trigger] out.px(x, y) == if yields(
            ms,
            ps,
            cs,
            i as int,
            cs[i as int].0 + x,
            cs[i as int].1 + y,
        ) {
            0u8
        } else {
            ms[i as int].px(x, y)
        } by {
            lemma_index(x, y, wi, hi);
            crate::imgproc::lemma_index_split(x, y, wi);
            assert(out.data@[y * wi + x] == data@[y * wi + x]);
        }
    }
    out
}

/// Leaves each point where an image is preferred to the images preferred
/// there.
pub fn yield_to_preferred(
    masks: &mut Vec<GrayImage>,
    preferred: &[GrayImage],
    corners: &[(i32, i32)],
)
    requires
        fit_together(old(masks)@, preferred@, corners@),
    ensures
        final(masks)@.len() == old(masks)@.len(),
        forall|i: int|
            0 <= i < old(masks)@.len() ==> yielded(
                old(masks)@,
                preferred@,
                corners@,
                i,
                &#[trigger] final(masks)@[i],
            ),
{
    let mut out: Vec<GrayImage> = Vec::new();
    let mut i: usize = 0;
    while i < masks.len()
        invariant
            *masks == *old(masks),
            fit_together(masks@, preferred@, corners@),
            i <= masks@.len(),
            out@.len() == i,
            forall|k: int|
                0 <= k < i ==> yielded(masks@, preferred@, corners@, k, &#[trigger] out@[k]),
        decreases masks@.len() - i,
    {
        out.push(without_yielded(&*masks, preferred, corners, i));
        i = i + 1;
    }
    *masks = out;
}

/// Yielding uncovers no point: whatever some image covered, some image still
/// covers.
pub proof fn lemma_still_covered(
    masks: Seq<GrayImage>,
    preferred: Seq<GrayImage>,
    corners: Seq<(i32, i32)>,
    after: Seq<GrayImage>,
    i: int,
    gx: int,
    gy: int,
)
    requires
        after.len() == masks.len(),
        forall|k: int|
            0 <= k < masks.len() ==> yielded(masks, preferred, corners, k, &#[trigger] after[k]),
        0 <= i < masks.len(),
        covers(&masks[i], corners[i], gx, gy),
    ensures
        exists|j: int|
            0 <= j < after.len() && covers(&(#[trigger] after[j]), corners[j], gx, gy),
{
    let j = if yields(masks, preferred, corners, i, gx, gy) {
        choose|j: int|
            0 <= j < masks.len() && #[trigger] claims(masks, preferred, corners, j, gx, gy)
    } else {
        i
    };
    assert(yielded(masks, preferred, corners, j, &after[j]));
    assert(after[j].px(gx - corners[j].0, gy - corners[j].1) == masks[j].px(
        gx - corners[j].0,
        gy - corners[j].1,
    ));
    assert(covers(&after[j], corners[j], gx, gy));
}

/// A painted mask is stretched over the image: the pixel `i`, `j` of it counts
/// for those image pixels whose place, scaled to the mask, falls on it.
pub proof fn lemma_painted_stretched(
    painted: &GrayImage,
    w: int,
    h: int,
    x: int,
    y: int,
    i: int,
    j: int,
)
    requires
        w >= 1,
        h >= 1,
        i * w <= x * painted.width < (i + 1) * w,
        j * h <= y * painted.height < (j + 1) * h,
    ensures
        painted_at(painted, w, h, x, y) == painted.data@[j * painted.width + i],
{
    let (a, b) = (x * painted.width, y * painted.height);
    assert((i + 1) * w == i * w + w && (j + 1) * h == j * h + h) by (nonlinear_arith);
    vstd::arithmetic::div_mod::lemma_fundamental_div_mod_converse(a, w, i, a - i * w);
    vstd::arithmetic::div_mod::lemma_fundamental_div_mod_converse(b, h, j, b - j * h);
}

/// Where an image is preferred and covers a point, none that is not preferred
/// there keeps it; elsewhere everything stays as it was.
pub proof fn lemma_preferred_wins(
    masks: Seq<GrayImage>,
    preferred: Seq<GrayImage>,
    corners: Seq<(i32, i32)>,
    i: int,
    out: &GrayImage,
    j: int,
    x: int,
    y: int,
)
    requires
        yielded(masks, preferred, corners, i, out),
        0 <= j < masks.len(),
        0 <= x < out.width,
        0 <= y < out.height,
    ensures
        ({
            let (gx, gy) = (corners[i].0 + x, corners[i].1 + y);
            let kept = out.data@[y * out.width + x];
            let was = masks[i].data@[y * masks[i].width + x];
            let likes = |k: int| covers(&preferred[k], corners[k], gx, gy);
            let has = |k: int| covers(&masks[k], corners[k], gx, gy);
            &&& has(j) && likes(j) && !likes(i) ==> kept == 0
            &&& likes(i) ==> kept == was
            &&& (forall|k: int|
                0 <= k < masks.len() ==> !(#[trigger] covers(&masks[k], corners[k], gx, gy)
                    && covers(&preferred[k], corners[k], gx, gy))) ==> kept == was
        }),
{
    let (gx, gy) = (corners[i].0 + x, corners[i].1 + y);
    let v = out.px(x, y);
    if covers(&masks[j], corners[j], gx, gy) && covers(&preferred[j], corners[j], gx, gy) {
        assert(claims(masks, preferred, corners, j, gx, gy));
    }
    if forall|k: int|
        0 <= k < masks.len() ==> !(#[trigger] covers(&masks[k], corners[k], gx, gy) && covers(
            &preferred[k],
            corners[k],
            gx,
            gy,
        )) {
        assert(!is_claimed(masks, preferred, corners, gx, gy));
    }
}

} // verus!
