//! Coverage masks: dilation, erosion, intersection, and holding back images
//! that are only roughly placed.

use crate::blend::result_roi;
use crate::imgproc::lemma_index;
use crate::imgproc::lemma_index_split;
use crate::imgproc::GrayImage;
use vstd::prelude::*;

verus! {

/// (`i`, `j`) is (`x`, `y`) or touches it, and lies in a `w` by `h` grid.
pub open spec fn touches(x: int, y: int, i: int, j: int, w: int, h: int) -> bool {
    &&& x - 1 <= i <= x + 1
    &&& y - 1 <= j <= y + 1
    &&& 0 <= i < w
    &&& 0 <= j < h
}

/// Byte at column `i` of row `j`.
pub open spec fn cell(d: Seq<u8>, w: int, i: int, j: int) -> u8 {
    d[j * w + i]
}

/// `v` is the largest value at or around (`x`, `y`).
pub open spec fn is_local_max(d: Seq<u8>, w: int, h: int, x: int, y: int, v: u8) -> bool {
    &&& forall|i: int, j: int|
        touches(x, y, i, j, w, h) ==> #[trigger] cell(d, w, i, j) <= v
    &&& exists|i: int, j: int| touches(x, y, i, j, w, h) && #[trigger] cell(d, w, i, j) == v
}

/// `v` is the smallest value at or around (`x`, `y`).
pub open spec fn is_local_min(d: Seq<u8>, w: int, h: int, x: int, y: int, v: u8) -> bool {
    &&& forall|i: int, j: int|
        touches(x, y, i, j, w, h) ==> #[trigger] cell(d, w, i, j) >= v
    &&& exists|i: int, j: int| touches(x, y, i, j, w, h) && #[trigger] cell(d, w, i, j) == v
}

/// First and last of `x - 1..=x + 1` that lie in `0..n`.
fn around(x: usize, n: usize) -> (r: (usize, usize))
    requires
        x < n,
    ensures
        r.0 == if x == 0 {
            0
        } else {
            x - 1
        },
        r.1 == if x == n - 1 {
            x as int
        } else {
            x + 1
        },
{
    (
        if x == 0 {
            0
        } else {
            x - 1
        },
        if x == n - 1 {
            x
        } else {
            x + 1
        },
    )
}

/// The largest or smallest value at or around (`x`, `y`).
fn extreme_around(d: &[u8], w: usize, h: usize, x: usize, y: usize, largest: bool) -> (v: u8)
    requires
        d@.len() == w * h,
        x < w,
        y < h,
    ensures
        largest ==> is_local_max(d@, w as int, h as int, x as int, y as int, v),
        !largest ==> is_local_min(d@, w as int, h as int, x as int, y as int, v),
{
    let (x0, x1) = around(x, w);
    let (y0, y1) = around(y, h);
    proof {
        lemma_index(x as int, y as int, w as int, h as int);
        assert(d@.len() == d.len());
    }
    let mut v: u8 = d[y * w + x];
    assert(cell(d@, w as int, x as int, y as int) == v);
    let mut j: usize = y0;
    while j <= y1
        invariant
            d@.len() == w * h,
            d@.len() == d.len(),
            x < w,
            y < h,
            x0 == if x == 0 {
                0
            } else {
                x - 1
            },
            x1 == if x == w - 1 {
                x as int
            } else {
                x + 1
            },
            y0 <= j <= y1 + 1,
            y0 <= y <= y1 < h,
            y1 <= y + 1,
            y <= y0 + 1,
            exists|a: int, b: int|
                touches(x as int, y as int, a, b, w as int, h as int) && #[trigger] cell(
                    d@,
                    w as int,
                    a,
                    b,
                ) == v,
            forall|a: int, b: int|
                touches(x as int, y as int, a, b, w as int, h as int) && b < j ==> if largest {
                    #[trigger] cell(d@, w as int, a, b) <= v
                } else {
                    cell(d@, w as int, a, b) >= v
                },
        decreases y1 + 1 - j,
    {
        let mut i: usize = x0;
        while i <= x1
            invariant
                d@.len() == w * h,
                d@.len() == d.len(),
                x < w,
                y < h,
                x0 == if x == 0 {
                    0
                } else {
                    x - 1
                },
                x1 == if x == w - 1 {
                    x as int
                } else {
                    x + 1
                },
                x0 <= i <= x1 + 1,
                y0 <= j <= y1,
                y0 <= y <= y1 < h,
                y1 <= y + 1,
                y <= y0 + 1,
                exists|a: int, b: int|
                    touches(x as int, y as int, a, b, w as int, h as int) && #[trigger] cell(
                        d@,
                        w as int,
                        a,
                        b,
                    ) == v,
                forall|a: int, b: int|
                    touches(x as int, y as int, a, b, w as int, h as int) && (b < j || (b == j && a
                        < i)) ==> if largest {
                        #[trigger] cell(d@, w as int, a, b) <= v
                    } else {
                        cell(d@, w as int, a, b) >= v
                    },
            decreases x1 + 1 - i,
        {
            proof {
                lemma_index(i as int, j as int, w as int, h as int);
            }
            let u: u8 = d[j * w + i];
            assert(cell(d@, w as int, i as int, j as int) == u);
            if (largest && u > v) || (!largest && u < v) {
                v = u;
                assert(touches(x as int, y as int, i as int, j as int, w as int, h as int));
            }
            i = i + 1;
        }
        j = j + 1;
    }
    v
}

/// The largest or smallest values at or around every pixel.
fn extremes(d: &[u8], w: usize, h: usize, largest: bool) -> (out: Vec<u8>)
    requires
        d@.len() == w * h,
    ensures
        out@.len() == d@.len(),
        forall|x: int, y: int|
            0 <= x < w && 0 <= y < h ==> if largest {
                is_local_max(d@, w as int, h as int, x, y, #[trigger] cell(out@, w as int, x, y))
            } else {
                is_local_min(d@, w as int, h as int, x, y, cell(out@, w as int, x, y))
            },
{
    let mut out: Vec<u8> = Vec::new();
    let mut y: usize = 0;
    proof {
        assert(0 * w == 0);
    }
    while y < h
        invariant
            d@.len() == w * h,
            y <= h,
            out@.len() == y * w,
            forall|i: int, j: int|
                0 <= i < w && 0 <= j < y ==> if largest {
                    is_local_max(d@, w as int, h as int, i, j, #[trigger] cell(out@, w as int, i, j))
                } else {
                    is_local_min(d@, w as int, h as int, i, j, cell(out@, w as int, i, j))
                },
        decreases h - y,
    {
        let mut x: usize = 0;
        while x < w
            invariant
                d@.len() == w * h,
                y < h,
                x <= w,
                out@.len() == y * w + x,
                forall|i: int, j: int|
                    0 <= i < w && 0 <= j && (j < y || (j == y && i < x)) ==> if largest {
                        is_local_max(
                            d@,
                            w as int,
                            h as int,
                            i,
                            j,
                            #[trigger] cell(out@, w as int, i, j),
                        )
                    } else {
                        is_local_min(d@, w as int, h as int, i, j, cell(out@, w as int, i, j))
                    },
            decreases w - x,
        {
            let v: u8 = extreme_around(d, w, h, x, y, largest);
            let ghost before = out@;
            out.push(v);
            proof {
                assert forall|i: int, j: int|
                    0 <= i < w && 0 <= j && (j < y || (j == y && i < x + 1)) implies if largest {
                    is_local_max(d@, w as int, h as int, i, j, #[trigger] cell(out@, w as int, i, j))
                } else {
                    is_local_min(d@, w as int, h as int, i, j, cell(out@, w as int, i, j))
                } by {
                    lemma_index_order(i, j, x as int, y as int, w as int);
                    if j < y || i < x {
                        assert(cell(out@, w as int, i, j) == cell(before, w as int, i, j));
                    } else {
                        assert(cell(out@, w as int, i, j) == v);
                    }
                }
            }
            x = x + 1;
        }
        proof {
            assert(y * w + w == (y + 1) * w) by (nonlinear_arith);
        }
        y = y + 1;
    }
    proof {
        assert(h * w == w * h) by (nonlinear_arith);
    }
    out
}

/// Pixels come in the buffer in the order of their rows and columns.
proof fn lemma_index_order(i: int, j: int, x: int, y: int, w: int)
    requires
        0 <= i < w,
        0 <= x < w,
        0 <= j,
        0 <= y,
    ensures
        0 <= j * w + i,
        j < y || (j == y && i < x) ==> j * w + i < y * w + x,
        j == y && i == x ==> j * w + i == y * w + x,
{
    assert(0 <= j * w) by (nonlinear_arith)
        requires
            0 <= j,
            0 < w,
    ;
    if j < y {
        assert(j * w + w <= y * w) by (nonlinear_arith)
            requires
                j < y,
                0 < w,
        ;
    }
}

/// Dilation with a square of three by three pixels.
pub fn dilate3(mask: &GrayImage) -> (out: GrayImage)
    requires
        mask.wf(),
    ensures
        out.wf(),
        out.width == mask.width,
        out.height == mask.height,
        forall|x: int, y: int|
            0 <= x < mask.width && 0 <= y < mask.height ==> is_local_max(
                mask.data@,
                mask.width as int,
                mask.height as int,
                x,
                y,
                #[trigger] out.px(x, y),
            ),
{
    let data = extremes(mask.data.as_slice(), mask.width, mask.height, true);
    let out = GrayImage::new(mask.width, mask.height, data);
    proof {
        assert forall|x: int, y: int| 0 <= x < mask.width && 0 <= y < mask.height implies is_local_max(
            mask.data@,
            mask.width as int,
            mask.height as int,
            x,
            y,
            #[trigger] out.px(x, y),
        ) by {
            assert(out.px(x, y) == cell(out.data@, mask.width as int, x, y));
        }
    }
    out
}

/// Erosion with a square of three by three pixels. What lies beyond the
/// border counts as covered.
pub fn erode3(mask: &[u8], w: usize, h: usize) -> (out: Vec<u8>)
    requires
        mask@.len() == w * h,
    ensures
        out@.len() == mask@.len(),
        forall|x: int, y: int|
            0 <= x < w && 0 <= y < h ==> is_local_min(
                mask@,
                w as int,
                h as int,
                x,
                y,
                #[trigger] cell(out@, w as int, x, y),
            ),
{
    extremes(mask, w, h, false)
}

/// Dilation never shrinks a mask, and erosion never grows one.
pub proof fn lemma_extremes_bound(d: Seq<u8>, w: int, h: int, x: int, y: int, hi: u8, lo: u8)
    requires
        0 <= x < w,
        0 <= y < h,
        is_local_max(d, w, h, x, y, hi),
        is_local_min(d, w, h, x, y, lo),
    ensures
        lo <= cell(d, w, x, y) <= hi,
{
    assert(touches(x, y, x, y, w, h));
}

/// Where both masks hold, bit by bit.
pub fn intersect_masks(a: &GrayImage, b: &GrayImage) -> (out: GrayImage)
    requires
        a.wf(),
        b.wf(),
        a.width == b.width,
        a.height == b.height,
    ensures
        out.wf(),
        out.width == a.width,
        out.height == a.height,
        forall|q: int|
            0 <= q < out.data@.len() ==> #[trigger] out.data@[q] == a.data@[q] & b.data@[q],
{
    let mut data: Vec<u8> = Vec::new();
    let mut q: usize = 0;
    while q < a.data.len()
        invariant
            a.data@.len() == b.data@.len(),
            q <= a.data@.len(),
            data@.len() == q,
            forall|k: int| 0 <= k < q ==> #[trigger] data@[k] == a.data@[k] & b.data@[k],
        decreases a.data@.len() - q,
    {
        data.push(a.data[q] & b.data[q]);
        q = q + 1;
    }
    GrayImage::new(a.width, a.height, data)
}

/// A mask placed at `c` covers point (`gx`, `gy`).
pub open spec fn covers(m: &GrayImage, c: (i32, i32), gx: int, gy: int) -> bool {
    &&& 0 <= gx - c.0 < m.width
    &&& 0 <= gy - c.1 < m.height
    &&& m.px(gx - c.0, gy - c.1) != 0
}

/// One of the first `k` images, none of them only roughly placed, covers the
/// point.
pub open spec fn firmly_covered(
    masks: Seq<GrayImage>,
    corners: Seq<(i32, i32)>,
    rescued: Seq<bool>,
    k: int,
    gx: int,
    gy: int,
) -> bool {
    exists|i: int| 0 <= i < k && !rescued[i] && #[trigger] covers(&masks[i], corners[i], gx, gy)
}

/// A rectangle given by left, top, width and height.
pub type Frame = (i32, i32, usize, usize);

pub open spec fn in_frame(roi: Frame, gx: int, gy: int) -> bool {
    0 <= gx - roi.0 < roi.2 && 0 <= gy - roi.1 < roi.3
}

/// `roi` is the smallest rectangle around the images that are firmly placed.
pub open spec fn is_frame(
    masks: Seq<GrayImage>,
    corners: Seq<(i32, i32)>,
    rescued: Seq<bool>,
    roi: Frame,
) -> bool {
    &&& forall|i: int|
        0 <= i < masks.len() && !#[trigger] rescued[i] ==> {
            &&& roi.0 <= corners[i].0
            &&& roi.1 <= corners[i].1
            &&& corners[i].0 + masks[i].width <= roi.0 + roi.2
            &&& corners[i].1 + masks[i].height <= roi.1 + roi.3
        }
    &&& exists|i: int| 0 <= i < masks.len() && !#[trigger] rescued[i] && corners[i].0 == roi.0
    &&& exists|i: int| 0 <= i < masks.len() && !#[trigger] rescued[i] && corners[i].1 == roi.1
    &&& exists|i: int|
        0 <= i < masks.len() && !#[trigger] rescued[i] && corners[i].0 + masks[i].width == roi.0
            + roi.2
    &&& exists|i: int|
        0 <= i < masks.len() && !#[trigger] rescued[i] && corners[i].1 + masks[i].height == roi.1
            + roi.3
}

/// (`a`, `b`) is (`gx`, `gy`) or touches it, and lies in the frame.
pub open spec fn beside(roi: Frame, gx: int, gy: int, a: int, b: int) -> bool {
    gx - 1 <= a <= gx + 1 && gy - 1 <= b <= gy + 1 && in_frame(roi, a, b)
}

/// The point is covered by images firmly placed, and stays so when their
/// coverage recedes `k` times by a pixel.
pub open spec fn well_inside(
    masks: Seq<GrayImage>,
    corners: Seq<(i32, i32)>,
    rescued: Seq<bool>,
    roi: Frame,
    k: int,
    gx: int,
    gy: int,
) -> bool
    decreases k,
{
    if k <= 0 {
        firmly_covered(masks, corners, rescued, masks.len() as int, gx, gy)
    } else {
        forall|a: int, b: int| #[trigger]
            beside(roi, gx, gy, a, b) ==> well_inside(masks, corners, rescued, roi, k - 1, a, b)
    }
}

/// What is left of roughly placed image `i` at (`x`, `y`).
pub open spec fn held_back(
    masks: Seq<GrayImage>,
    corners: Seq<(i32, i32)>,
    rescued: Seq<bool>,
    roi: Frame,
    k: int,
    i: int,
    x: int,
    y: int,
) -> u8 {
    let (gx, gy) = (corners[i].0 + x, corners[i].1 + y);
    if in_frame(roi, gx, gy) && well_inside(masks, corners, rescued, roi, k, gx, gy) {
        0
    } else {
        masks[i].px(x, y)
    }
}

/// Some but not all images are only roughly placed.
pub open spec fn some_rescued(rescued: Seq<bool>) -> bool {
    &&& exists|i: int| 0 <= i < rescued.len() && #[trigger] rescued[i]
    &&& exists|i: int| 0 <= i < rescued.len() && !#[trigger] rescued[i]
}

/// `after` holds the masks with the roughly placed images held back.
pub open spec fn suppressed(
    before: Seq<GrayImage>,
    corners: Seq<(i32, i32)>,
    rescued: Seq<bool>,
    roi: Frame,
    k: int,
    after: Seq<GrayImage>,
) -> bool {
    &&& after.len() == before.len()
    &&& forall|i: int|
        0 <= i < after.len() ==> (#[trigger] after[i]).wf() && after[i].width == before[i].width
            && after[i].height == before[i].height
    &&& forall|i: int|
        0 <= i < after.len() && !rescued[i] ==> (#[trigger] after[i]).data@ == before[i].data@
    &&& forall|i: int, x: int, y: int|
        0 <= i < after.len() && rescued[i] && 0 <= x < before[i].width && 0 <= y < before[i].height
            ==> #[trigger] after[i].px(x, y) == held_back(
            before,
            corners,
            rescued,
            roi,
            k,
            i,
            x,
            y,
        )
}

/// Marks the points of a frame that a mask covers.
#[verifier::spinoff_prover]
#[verifier::rlimit(40)]
fn mark(union: &mut Vec<u8>, roi: Frame, m: &GrayImage, c: (i32, i32))
    requires
        m.wf(),
        old(union)@.len() == roi.2 * roi.3,
        roi.0 <= c.0,
        roi.1 <= c.1,
        c.0 + m.width <= roi.0 + roi.2,
        c.1 + m.height <= roi.1 + roi.3,
        roi.2 <= i32::MAX,
        roi.3 <= i32::MAX,
    ensures
        final(union)@.len() == old(union)@.len(),
        forall|x: int, y: int|
            0 <= x < roi.2 && 0 <= y < roi.3 ==> #[trigger] cell(
                final(union)@,
                roi.2 as int,
                x,
                y,
            ) == if covers(m, c, roi.0 + x, roi.1 + y) {
                255
            } else {
                cell(old(union)@, roi.2 as int, x, y)
            },
{
    let w: usize = roi.2;
    let dx: usize = (c.0 as i64 - roi.0 as i64) as usize;
    let dy: usize = (c.1 as i64 - roi.1 as i64) as usize;
    let ghost u0 = union@;
    let mut y: usize = 0;
    while y < m.height
        invariant
            m.wf(),
            u0.len() == roi.2 * roi.3,
            union@.len() == u0.len(),
            w == roi.2,
            dx == c.0 - roi.0,
            dy == c.1 - roi.1,
            dx + m.width <= w,
            dy + m.height <= roi.3,
            w <= i32::MAX,
            roi.3 <= i32::MAX,
            y <= m.height,
            forall|i: int, j: int|
                0 <= i < w && 0 <= j < roi.3 ==> #[trigger] cell(union@, w as int, i, j) == if j
                    - dy < y && covers(m, c, roi.0 + i, roi.1 + j) {
                    255
                } else {
                    cell(u0, w as int, i, j)
                },
        decreases m.height - y,
    {
        let mut x: usize = 0;
        while x < m.width
            invariant
                m.wf(),
                u0.len() == roi.2 * roi.3,
                union@.len() == u0.len(),
                w == roi.2,
                dx == c.0 - roi.0,
                dy == c.1 - roi.1,
                dx + m.width <= w,
                dy + m.height <= roi.3,
                w <= i32::MAX,
                roi.3 <= i32::MAX,
                y < m.height,
                x <= m.width,
                forall|i: int, j: int|
                    0 <= i < w && 0 <= j < roi.3 ==> #[trigger] cell(union@, w as int, i, j) == if (j
                        - dy < y || (j - dy == y && i - dx < x)) && covers(
                        m,
                        c,
                        roi.0 + i,
                        roi.1 + j,
                    ) {
                        255
                    } else {
                        cell(u0, w as int, i, j)
                    },
            decreases m.width - x,
        {
            let ghost u1 = union@;
            let v: u8 = m.at(x, y);
            if v != 0 {
                proof {
                    lemma_index(dx + x, dy + y, w as int, roi.3 as int);
                    assert(union@.len() == union.len());
                }
                let q: usize = (dy + y) * w + (dx + x);
                union.set(q, 255);
            }
            proof {
                assert forall|i: int, j: int| 0 <= i < w && 0 <= j < roi.3 implies #[trigger] cell(
                    union@,
                    w as int,
                    i,
                    j,
                ) == if (j - dy < y || (j - dy == y && i - dx < x + 1)) && covers(
                    m,
                    c,
                    roi.0 + i,
                    roi.1 + j,
                ) {
                    255
                } else {
                    cell(u0, w as int, i, j)
                } by {
                    lemma_index(i, j, w as int, roi.3 as int);
                    assert(cell(u1, w as int, i, j) == if (j - dy < y || (j - dy == y && i - dx
                        < x)) && covers(m, c, roi.0 + i, roi.1 + j) {
                        255
                    } else {
                        cell(u0, w as int, i, j)
                    });
                    lemma_index_split(i, j, w as int);
                    lemma_index_split(dx + x, dy + y, w as int);
                }
            }
            x = x + 1;
        }
        y = y + 1;
    }
    proof {
        assert forall|i: int, j: int| 0 <= i < roi.2 && 0 <= j < roi.3 implies #[trigger] cell(
            union@,
            roi.2 as int,
            i,
            j,
        ) == if covers(m, c, roi.0 + i, roi.1 + j) {
            255
        } else {
            cell(u0, roi.2 as int, i, j)
        } by {}
    }
}

/// Blanks the pixels of a mask that fall on marked points of a frame.
#[verifier::spinoff_prover]
fn blank(m: &mut GrayImage, c: (i32, i32), roi: Frame, union: &Vec<u8>)
    requires
        old(m).wf(),
        union@.len() == roi.2 * roi.3,
        c.0 + old(m).width <= i32::MAX,
        c.1 + old(m).height <= i32::MAX,
    ensures
        final(m).wf(),
        final(m).width == old(m).width,
        final(m).height == old(m).height,
        forall|x: int, y: int|
            0 <= x < old(m).width && 0 <= y < old(m).height ==> #[trigger] final(m).px(x, y) == if in_frame(
                roi,
                c.0 + x,
                c.1 + y,
            ) && cell(union@, roi.2 as int, c.0 + x - roi.0, c.1 + y - roi.1) != 0 {
                0
            } else {
                old(m).px(x, y)
            },
{
    let w: usize = m.width;
    let h: usize = m.height;
    let ghost m0 = *m;
    let mut y: usize = 0;
    while y < h
        invariant
            m0.wf(),
            m.wf(),
            m.width == w,
            m.height == h,
            m0.width == w,
            m0.height == h,
            y <= h,
            union@.len() == roi.2 * roi.3,
            c.0 + w <= i32::MAX,
            c.1 + h <= i32::MAX,
            forall|i: int, j: int|
                0 <= i < w && 0 <= j < h ==> #[trigger] m.px(i, j) == if j < y && in_frame(
                    roi,
                    c.0 + i,
                    c.1 + j,
                ) && cell(union@, roi.2 as int, c.0 + i - roi.0, c.1 + j - roi.1) != 0 {
                    0
                } else {
                    m0.px(i, j)
                },
        decreases h - y,
    {
        let mut x: usize = 0;
        while x < w
            invariant
                m0.wf(),
                m.wf(),
                m.width == w,
                m.height == h,
                m0.width == w,
                m0.height == h,
                y < h,
                x <= w,
                union@.len() == roi.2 * roi.3,
                c.0 + w <= i32::MAX,
                c.1 + h <= i32::MAX,
                forall|i: int, j: int|
                    0 <= i < w && 0 <= j < h ==> #[trigger] m.px(i, j) == if (j < y || (j == y && i
                        < x)) && in_frame(roi, c.0 + i, c.1 + j) && cell(
                        union@,
                        roi.2 as int,
                        c.0 + i - roi.0,
                        c.1 + j - roi.1,
                    ) != 0 {
                        0
                    } else {
                        m0.px(i, j)
                    },
            decreases w - x,
        {
            let ghost m1 = *m;
            let gx: i64 = c.0 as i64 + x as i64 - roi.0 as i64;
            let gy: i64 = c.1 as i64 + y as i64 - roi.1 as i64;
            proof {
                lemma_index(x as int, y as int, w as int, h as int);
                assert(m.data@.len() == m.data.len());
            }
            if gx >= 0 && gy >= 0 && (gx as u64) < roi.2 as u64 && (gy as u64) < roi.3 as u64 {
                proof {
                    lemma_index(gx as int, gy as int, roi.2 as int, roi.3 as int);
                    assert(union@.len() == union.len());
                }
                if union[gy as usize * roi.2 + gx as usize] != 0 {
                    m.data.set(y * w + x, 0);
                }
            }
            proof {
                assert forall|i: int, j: int| 0 <= i < w && 0 <= j < h implies #[trigger] m.px(i, j)
                    == if (j < y || (j == y && i < x + 1)) && in_frame(roi, c.0 + i, c.1 + j) && cell(
                    union@,
                    roi.2 as int,
                    c.0 + i - roi.0,
                    c.1 + j - roi.1,
                ) != 0 {
                    0
                } else {
                    m0.px(i, j)
                } by {
                    lemma_index(i, j, w as int, h as int);
                    lemma_index_split(i, j, w as int);
                    lemma_index_split(x as int, y as int, w as int);
                    assert(m1.px(i, j) == if (j < y || (j == y && i < x)) && in_frame(
                        roi,
                        c.0 + i,
                        c.1 + j,
                    ) && cell(union@, roi.2 as int, c.0 + i - roi.0, c.1 + j - roi.1) != 0 {
                        0
                    } else {
                        m0.px(i, j)
                    });
                }
            }
            x = x + 1;
        }
        y = y + 1;
    }
}

/// The marked points of a frame are those well inside firm coverage.
spec fn marks_inside(
    union: Seq<u8>,
    masks: Seq<GrayImage>,
    corners: Seq<(i32, i32)>,
    rescued: Seq<bool>,
    roi: Frame,
    k: int,
) -> bool {
    forall|x: int, y: int|
        0 <= x < roi.2 && 0 <= y < roi.3 ==> (#[trigger] cell(union, roi.2 as int, x, y) != 0
            <==> well_inside(masks, corners, rescued, roi, k, roi.0 + x, roi.1 + y))
}

/// Erosion makes the marked points recede by a pixel.
proof fn lemma_recede(
    u0: Seq<u8>,
    u1: Seq<u8>,
    masks: Seq<GrayImage>,
    corners: Seq<(i32, i32)>,
    rescued: Seq<bool>,
    roi: Frame,
    k: int,
)
    requires
        k >= 0,
        marks_inside(u0, masks, corners, rescued, roi, k),
        forall|x: int, y: int|
            0 <= x < roi.2 && 0 <= y < roi.3 ==> is_local_min(
                u0,
                roi.2 as int,
                roi.3 as int,
                x,
                y,
                #[trigger] cell(u1, roi.2 as int, x, y),
            ),
    ensures
        marks_inside(u1, masks, corners, rescued, roi, k + 1),
{
    let (w, h) = (roi.2 as int, roi.3 as int);
    assert forall|x: int, y: int| 0 <= x < roi.2 && 0 <= y < roi.3 implies (#[trigger] cell(
        u1,
        w,
        x,
        y,
    ) != 0 <==> well_inside(masks, corners, rescued, roi, k + 1, roi.0 + x, roi.1 + y)) by {
        let v = cell(u1, w, x, y);
        let (gx, gy) = (roi.0 + x, roi.1 + y);
        assert(is_local_min(u0, w, h, x, y, v));
        if v != 0 {
            assert forall|a: int, b: int| #[trigger] beside(roi, gx, gy, a, b) implies well_inside(
                masks,
                corners,
                rescued,
                roi,
                k,
                a,
                b,
            ) by {
                let (i, j) = (a - roi.0, b - roi.1);
                assert(touches(x, y, i, j, w, h));
                assert(cell(u0, w, i, j) >= v);
            }
        } else {
            let (i, j) = choose|i: int, j: int|
                touches(x, y, i, j, w, h) && #[trigger] cell(u0, w, i, j) == v;
            assert(beside(roi, gx, gy, roi.0 + i, roi.1 + j));
            assert(!well_inside(masks, corners, rescued, roi, k, roi.0 + i, roi.1 + j));
        }
    }
}

/// The smallest rectangle around the images that are firmly placed.
fn frame_of(masks: &Vec<GrayImage>, corners: &[(i32, i32)], rescued: &[bool]) -> (roi: Frame)
    requires
        corners@.len() == masks@.len(),
        rescued@.len() == masks@.len(),
        forall|i: int|
            0 <= i < masks@.len() ==> {
                &&& (#[trigger] masks@[i]).wf()
                &&& masks@[i].width <= i32::MAX
                &&& masks@[i].height <= i32::MAX
                &&& corners@[i].0 + masks@[i].width <= i32::MAX
                &&& corners@[i].1 + masks@[i].height <= i32::MAX
            },
        forall|i: int, j: int|
            0 <= i < masks@.len() && 0 <= j < masks@.len() ==> {
                &&& (#[trigger] corners@[i]).0 + masks@[i].width - (#[trigger] corners@[j]).0
                    <= i32::MAX
                &&& corners@[i].1 + masks@[i].height - corners@[j].1 <= i32::MAX
            },
        exists|i: int| 0 <= i < rescued@.len() && !#[trigger] rescued@[i],
    ensures
        is_frame(masks@, corners@, rescued@, roi),
        roi.2 <= i32::MAX,
        roi.3 <= i32::MAX,
{
    let n: usize = masks.len();
    let mut firm_corners: Vec<(i32, i32)> = Vec::new();
    let mut firm_sizes: Vec<(i32, i32)> = Vec::new();
    let ghost mut at: Seq<int> = Seq::empty();
    let mut i: usize = 0;
    while i < n
        invariant
            n == masks@.len(),
            corners@.len() == n,
            rescued@.len() == n,
            i <= n,
            forall|k: int|
                0 <= k < n ==> {
                    &&& (#[trigger] masks@[k]).wf()
                    &&& masks@[k].width <= i32::MAX
                    &&& masks@[k].height <= i32::MAX
                    &&& corners@[k].0 + masks@[k].width <= i32::MAX
                    &&& corners@[k].1 + masks@[k].height <= i32::MAX
                },
            firm_corners@.len() == at.len(),
            firm_sizes@.len() == at.len(),
            forall|k: int| 0 <= k < at.len() ==> 0 <= #[trigger] at[k] < i && !rescued@[at[k]],
            forall|k: int|
                0 <= k < at.len() ==> #[trigger] firm_corners@[k] == corners@[at[k]]
                    && firm_sizes@[k].0 == masks@[at[k]].width && firm_sizes@[k].1
                    == masks@[at[k]].height,
            forall|j: int| 0 <= j < i && !#[trigger] rescued@[j] ==> at.contains(j),
        decreases n - i,
    {
        if !rescued[i] {
            let ghost at0 = at;
            assert(masks@[i as int].wf());
            firm_corners.push(corners[i]);
            firm_sizes.push((masks[i].width as i32, masks[i].height as i32));
            proof {
                at = at.push(i as int);
                assert(at[at0.len() as int] == i);
                assert forall|j: int| 0 <= j < i + 1 && !#[trigger] rescued@[j] implies at.contains(
                    j,
                ) by {
                    if j < i {
                        let z = at0.index_of(j);
                        assert(at[z] == j);
                    }
                }
            }
        }
        i = i + 1;
    }
    proof {
        let f = choose|f: int| 0 <= f < rescued@.len() && !#[trigger] rescued@[f];
        assert(at.contains(f));
        assert forall|k: int| 0 <= k < at.len() implies {
            &&& 0 <= (#[trigger] firm_sizes@[k]).0
            &&& 0 <= firm_sizes@[k].1
            &&& firm_corners@[k].0 + firm_sizes@[k].0 <= i32::MAX
            &&& firm_corners@[k].1 + firm_sizes@[k].1 <= i32::MAX
        } by {
            assert(firm_corners@[k] == corners@[at[k]]);
            assert(masks@[at[k]].wf());
        }
        assert forall|k: int, j: int| 0 <= k < at.len() && 0 <= j < at.len() implies {
            &&& (#[trigger] firm_corners@[k]).0 + firm_sizes@[k].0 - (#[trigger] firm_corners@[j]).0
                <= i32::MAX
            &&& firm_corners@[k].1 + firm_sizes@[k].1 - firm_corners@[j].1 <= i32::MAX
        } by {
            assert(corners@[at[k]].0 + masks@[at[k]].width - corners@[at[j]].0 <= i32::MAX);
        }
    }
    let roi = result_roi(firm_corners.as_slice(), firm_sizes.as_slice());
    proof {
        assert forall|j: int| 0 <= j < n && !#[trigger] rescued@[j] implies {
            &&& roi.0 <= corners@[j].0
            &&& roi.1 <= corners@[j].1
            &&& corners@[j].0 + masks@[j].width <= roi.0 + roi.2
            &&& corners@[j].1 + masks@[j].height <= roi.1 + roi.3
        } by {
            let z = at.index_of(j);
            assert(at[z] == j);
            assert(roi.0 <= firm_corners@[z].0);
        }
        let a = choose|k: int| 0 <= k < at.len() && (#[trigger] firm_corners@[k]).0 == roi.0;
        assert(!rescued@[at[a]]);
        let b = choose|k: int| 0 <= k < at.len() && (#[trigger] firm_corners@[k]).1 == roi.1;
        assert(!rescued@[at[b]]);
        let c = choose|k: int|
            0 <= k < at.len() && (#[trigger] firm_corners@[k]).0 + firm_sizes@[k].0 == roi.0
                + roi.2;
        assert(!rescued@[at[c]]);
        let d = choose|k: int|
            0 <= k < at.len() && (#[trigger] firm_corners@[k]).1 + firm_sizes@[k].1 == roi.1
                + roi.3;
        assert(!rescued@[at[d]]);
        assert(corners@[at[c]].0 + masks@[at[c]].width - corners@[at[a]].0 <= i32::MAX);
        assert(corners@[at[d]].1 + masks@[at[d]].height - corners@[at[b]].1 <= i32::MAX);
    }
    roi
}

/// Holds back images that are only roughly placed: their masks are blanked
/// wherever images that are firmly placed cover the panorama, but for a rim
/// `erode_iters` pixels wide that is left for blending.
#[verifier::spinoff_prover]
#[verifier::rlimit(60)]
pub fn suppress_rescued_masks(
    masks: &mut Vec<GrayImage>,
    corners: &[(i32, i32)],
    rescued: &[bool],
    erode_iters: usize,
)
    requires
        corners@.len() == old(masks)@.len(),
        rescued@.len() == old(masks)@.len(),
        forall|i: int|
            0 <= i < old(masks)@.len() ==> {
                &&& (#[trigger] old(masks)@[i]).wf()
                &&& old(masks)@[i].width <= i32::MAX
                &&& old(masks)@[i].height <= i32::MAX
                &&& corners@[i].0 + old(masks)@[i].width <= i32::MAX
                &&& corners@[i].1 + old(masks)@[i].height <= i32::MAX
            },
        forall|i: int, j: int|
            0 <= i < old(masks)@.len() && 0 <= j < old(masks)@.len() ==> {
                &&& (#[trigger] corners@[i]).0 + old(masks)@[i].width - (#[trigger] corners@[j]).0
                    <= i32::MAX
                &&& corners@[i].1 + old(masks)@[i].height - corners@[j].1 <= i32::MAX
            },
        forall|roi: Frame| #[trigger]
            is_frame(old(masks)@, corners@, rescued@, roi) ==> roi.2 * roi.3 <= usize::MAX,
    ensures
        some_rescued(rescued@) ==> exists|roi: Frame| #[trigger]
            is_frame(old(masks)@, corners@, rescued@, roi) && suppressed(
                old(masks)@,
                corners@,
                rescued@,
                roi,
                erode_iters as int,
                final(masks)@,
            ),
        !some_rescued(rescued@) ==> final(masks)@ == old(masks)@,
{
    let n: usize = masks.len();
    let ghost before = masks@;
    let mut any: bool = false;
    let mut all: bool = true;
    let mut i: usize = 0;
    while i < n
        invariant
            n == rescued@.len(),
            i <= n,
            any <==> exists|k: int| 0 <= k < i && #[trigger] rescued@[k],
            !all <==> exists|k: int| 0 <= k < i && !#[trigger] rescued@[k],
        decreases n - i,
    {
        if rescued[i] {
            any = true;
        } else {
            all = false;
        }
        i = i + 1;
    }
    if !any || all {
        return;
    }
    let roi = frame_of(masks, corners, rescued);
    let mut union: Vec<u8> = vec![0u8; roi.2 * roi.3];
    let mut f: usize = 0;
    proof {
        assert forall|x: int, y: int| 0 <= x < roi.2 && 0 <= y < roi.3 implies (#[trigger] cell(
            union@,
            roi.2 as int,
            x,
            y,
        ) != 0 <==> firmly_covered(before, corners@, rescued@, 0, roi.0 + x, roi.1 + y)) by {
            lemma_index(x, y, roi.2 as int, roi.3 as int);
        }
    }
    while f < n
        invariant
            n == before.len(),
            masks@ == before,
            corners@.len() == n,
            rescued@.len() == n,
            f <= n,
            forall|k: int| 0 <= k < n ==> (#[trigger] before[k]).wf(),
            is_frame(before, corners@, rescued@, roi),
            roi.2 <= i32::MAX,
            roi.3 <= i32::MAX,
            union@.len() == roi.2 * roi.3,
            forall|x: int, y: int|
                0 <= x < roi.2 && 0 <= y < roi.3 ==> (#[trigger] cell(union@, roi.2 as int, x, y)
                    != 0 <==> firmly_covered(
                    before,
                    corners@,
                    rescued@,
                    f as int,
                    roi.0 + x,
                    roi.1 + y,
                )),
        decreases n - f,
    {
        let ghost u0 = union@;
        if !rescued[f] {
            assert(before[f as int].wf());
            mark(&mut union, roi, &masks[f], corners[f]);
        }
        proof {
            assert forall|x: int, y: int| 0 <= x < roi.2 && 0 <= y < roi.3 implies (#[trigger] cell(
                union@,
                roi.2 as int,
                x,
                y,
            ) != 0 <==> firmly_covered(
                before,
                corners@,
                rescued@,
                f + 1,
                roi.0 + x,
                roi.1 + y,
            )) by {
                let (gx, gy) = (roi.0 + x, roi.1 + y);
                assert(cell(u0, roi.2 as int, x, y) != 0 <==> firmly_covered(
                    before,
                    corners@,
                    rescued@,
                    f as int,
                    gx,
                    gy,
                ));
                if !rescued@[f as int] && covers(&before[f as int], corners@[f as int], gx, gy) {
                    assert(firmly_covered(before, corners@, rescued@, f + 1, gx, gy));
                }
                if firmly_covered(before, corners@, rescued@, f + 1, gx, gy) {
                    let k = choose|k: int|
                        0 <= k < f + 1 && !rescued@[k] && #[trigger] covers(
                            &before[k],
                            corners@[k],
                            gx,
                            gy,
                        );
                    if k < f {
                        assert(firmly_covered(before, corners@, rescued@, f as int, gx, gy));
                    }
                }
            }
        }
        f = f + 1;
    }
    let mut e: usize = 0;
    while e < erode_iters
        invariant
            e <= erode_iters,
            union@.len() == roi.2 * roi.3,
            marks_inside(union@, before, corners@, rescued@, roi, e as int),
        decreases erode_iters - e,
    {
        let ghost u0 = union@;
        union = erode3(union.as_slice(), roi.2, roi.3);
        proof {
            lemma_recede(u0, union@, before, corners@, rescued@, roi, e as int);
        }
        e = e + 1;
    }
    let mut r: usize = 0;
    while r < n
        invariant
            n == before.len(),
            masks@.len() == n,
            corners@.len() == n,
            rescued@.len() == n,
            r <= n,
            union@.len() == roi.2 * roi.3,
            marks_inside(union@, before, corners@, rescued@, roi, erode_iters as int),
            forall|k: int|
                0 <= k < n ==> {
                    &&& (#[trigger] before[k]).wf()
                    &&& corners@[k].0 + before[k].width <= i32::MAX
                    &&& corners@[k].1 + before[k].height <= i32::MAX
                },
            forall|k: int|
                0 <= k < n ==> (#[trigger] masks@[k]).wf() && masks@[k].width == before[k].width
                    && masks@[k].height == before[k].height,
            forall|k: int|
                0 <= k < n && (k >= r || !rescued@[k]) ==> (#[trigger] masks@[k]).data@
                    == before[k].data@,
            forall|k: int, x: int, y: int|
                0 <= k < r && rescued@[k] && 0 <= x < before[k].width && 0 <= y < before[k].height
                    ==> #[trigger] masks@[k].px(x, y) == held_back(
                    before,
                    corners@,
                    rescued@,
                    roi,
                    erode_iters as int,
                    k,
                    x,
                    y,
                ),
        decreases n - r,
    {
        if rescued[r] {
            let ghost masks0 = masks@;
            let mut m = GrayImage::new(0, 0, Vec::new());
            std::mem::swap(&mut m, &mut masks[r]);
            let ghost m0 = m;
            assert(m0 == masks0[r as int]);
            assert(before[r as int].wf());
            blank(&mut m, corners[r], roi, &union);
            let ghost m1 = m;
            std::mem::swap(&mut m, &mut masks[r]);
            proof {
                assert(masks@ =~= masks0.update(r as int, m1));
                assert forall|k: int, x: int, y: int|
                    0 <= k < r + 1 && rescued@[k] && 0 <= x < before[k].width && 0 <= y
                        < before[k].height implies #[trigger] masks@[k].px(x, y) == held_back(
                    before,
                    corners@,
                    rescued@,
                    roi,
                    erode_iters as int,
                    k,
                    x,
                    y,
                ) by {
                    if k < r {
                        assert(masks@[k] == masks0[k]);
                    } else {
                        assert(m1.px(x, y) == if in_frame(
                            roi,
                            corners@[k].0 + x,
                            corners@[k].1 + y,
                        ) && cell(
                            union@,
                            roi.2 as int,
                            corners@[k].0 + x - roi.0,
                            corners@[k].1 + y - roi.1,
                        ) != 0 {
                            0
                        } else {
                            m0.px(x, y)
                        });
                        assert(m0.px(x, y) == before[k].px(x, y));
                    }
                }
            }
        }
        r = r + 1;
    }
    assert(suppressed(before, corners@, rescued@, roi, erode_iters as int, masks@));
}

/// A roughly placed image keeps every point that nothing firmly placed
/// covers.
pub proof fn lemma_holes_kept(
    masks: Seq<GrayImage>,
    corners: Seq<(i32, i32)>,
    rescued: Seq<bool>,
    roi: Frame,
    k: int,
    i: int,
    x: int,
    y: int,
)
    requires
        k >= 0,
        !firmly_covered(
            masks,
            corners,
            rescued,
            masks.len() as int,
            corners[i].0 + x,
            corners[i].1 + y,
        ),
    ensures
        held_back(masks, corners, rescued, roi, k, i, x, y) == masks[i].px(x, y),
{
    let (gx, gy) = (corners[i].0 + x, corners[i].1 + y);
    if in_frame(roi, gx, gy) {
        lemma_outside(masks, corners, rescued, roi, k, gx, gy);
    }
}

proof fn lemma_outside(
    masks: Seq<GrayImage>,
    corners: Seq<(i32, i32)>,
    rescued: Seq<bool>,
    roi: Frame,
    k: int,
    gx: int,
    gy: int,
)
    requires
        k >= 0,
        in_frame(roi, gx, gy),
        !firmly_covered(masks, corners, rescued, masks.len() as int, gx, gy),
    ensures
        !well_inside(masks, corners, rescued, roi, k, gx, gy),
    decreases k,
{
    if k > 0 {
        lemma_outside(masks, corners, rescued, roi, k - 1, gx, gy);
        assert(beside(roi, gx, gy, gx, gy));
    }
}

/// Growing and shrinking look at the three by three pixels around, as far as
/// they are in the mask, and at no others: the largest of them is taken, or
/// the smallest.
pub proof fn lemma_three_by_three(
    d: Seq<u8>,
    e: Seq<u8>,
    w: int,
    h: int,
    x: int,
    y: int,
    hi: u8,
    lo: u8,
    i: int,
    j: int,
)
    requires
        is_local_max(d, w, h, x, y, hi),
        is_local_min(d, w, h, x, y, lo),
        0 <= i < w,
        0 <= j < h,
    ensures
        x - 1 <= i <= x + 1 && y - 1 <= j <= y + 1 ==> lo <= d[j * w + i] <= hi,
        (forall|a: int, b: int|
            x - 1 <= a <= x + 1 && y - 1 <= b <= y + 1 && 0 <= a < w && 0 <= b < h
                ==> #[trigger] e[b * w + a] == d[b * w + a]) ==> is_local_max(e, w, h, x, y, hi)
            && is_local_min(e, w, h, x, y, lo),
        exists|a: int, b: int|
            x - 1 <= a <= x + 1 && y - 1 <= b <= y + 1 && #[trigger] cell(d, w, a, b) == hi,
        exists|a: int, b: int|
            x - 1 <= a <= x + 1 && y - 1 <= b <= y + 1 && #[trigger] cell(d, w, a, b) == lo,
{
    if x - 1 <= i <= x + 1 && y - 1 <= j <= y + 1 {
        assert(touches(x, y, i, j, w, h));
        assert(lo <= cell(d, w, i, j) <= hi);
    }
    if forall|a: int, b: int|
        x - 1 <= a <= x + 1 && y - 1 <= b <= y + 1 && 0 <= a < w && 0 <= b < h ==> #[trigger] e[b * w
            + a] == d[b * w + a] {
        assert forall|a: int, b: int| touches(x, y, a, b, w, h) implies #[trigger] cell(e, w, a, b)
            == cell(d, w, a, b) by {
            assert(e[b * w + a] == d[b * w + a]);
        }
        let (a, b) = choose|a: int, b: int|
            touches(x, y, a, b, w, h) && #[trigger] cell(d, w, a, b) == hi;
        assert(cell(e, w, a, b) == hi);
        let (p, q) = choose|a: int, b: int|
            touches(x, y, a, b, w, h) && #[trigger] cell(d, w, a, b) == lo;
        assert(cell(e, w, p, q) == lo);
        assert forall|s: int, t: int| touches(x, y, s, t, w, h) implies #[trigger] cell(e, w, s, t)
            <= hi && cell(e, w, s, t) >= lo by {
            assert(cell(d, w, s, t) <= hi);
        }
    }
}

/// A point is well inside what the other images cover if they cover every
/// point of the frame up to `k` columns and rows away.
pub proof fn lemma_well_inside(
    masks: Seq<GrayImage>,
    corners: Seq<(i32, i32)>,
    rescued: Seq<bool>,
    roi: Frame,
    k: int,
    gx: int,
    gy: int,
)
    requires
        k >= 0,
        in_frame(roi, gx, gy),
    ensures
        well_inside(masks, corners, rescued, roi, k, gx, gy) <==> forall|a: int, b: int|
            gx - k <= a <= gx + k && gy - k <= b <= gy + k && in_frame(roi, a, b)
                ==> #[trigger] firmly_covered(masks, corners, rescued, masks.len() as int, a, b),
    decreases k,
{
    let n = masks.len() as int;
    if k > 0 {
        if well_inside(masks, corners, rescued, roi, k, gx, gy) {
            assert forall|a: int, b: int|
                gx - k <= a <= gx + k && gy - k <= b <= gy + k && in_frame(
                    roi,
                    a,
                    b,
                ) implies #[trigger] firmly_covered(masks, corners, rescued, n, a, b) by {
                let sx = if a < gx {
                    gx - 1
                } else if a > gx {
                    gx + 1
                } else {
                    gx
                };
                let sy = if b < gy {
                    gy - 1
                } else if b > gy {
                    gy + 1
                } else {
                    gy
                };
                assert(beside(roi, gx, gy, sx, sy));
                lemma_well_inside(masks, corners, rescued, roi, k - 1, sx, sy);
            }
        }
        if forall|a: int, b: int|
            gx - k <= a <= gx + k && gy - k <= b <= gy + k && in_frame(roi, a, b)
                ==> #[trigger] firmly_covered(masks, corners, rescued, n, a, b) {
            assert forall|a: int, b: int| #[trigger] beside(roi, gx, gy, a, b) implies well_inside(
                masks,
                corners,
                rescued,
                roi,
                k - 1,
                a,
                b,
            ) by {
                lemma_well_inside(masks, corners, rescued, roi, k - 1, a, b);
            }
        }
    } else {
        if well_inside(masks, corners, rescued, roi, k, gx, gy) {
            assert(forall|a: int, b: int|
                gx - k <= a <= gx + k && gy - k <= b <= gy + k && in_frame(roi, a, b)
                    ==> #[trigger] firmly_covered(masks, corners, rescued, n, a, b));
        } else {
            assert(!firmly_covered(masks, corners, rescued, n, gx, gy));
        }
    }
}

/// A rescued image only fills holes: it keeps a pixel unless images that were
/// matched cover all points of the frame within `k` columns and rows of it.
pub proof fn lemma_rescued_fills(
    masks: Seq<GrayImage>,
    corners: Seq<(i32, i32)>,
    rescued: Seq<bool>,
    roi: Frame,
    k: int,
    i: int,
    x: int,
    y: int,
)
    requires
        k >= 0,
    ensures
        ({
            let (gx, gy) = (corners[i].0 + x, corners[i].1 + y);
            let full = forall|a: int, b: int|
                gx - k <= a <= gx + k && gy - k <= b <= gy + k && in_frame(roi, a, b)
                    ==> #[trigger] firmly_covered(
                    masks,
                    corners,
                    rescued,
                    masks.len() as int,
                    a,
                    b,
                );
            let inside = roi.0 <= gx < roi.0 + roi.2 && roi.1 <= gy < roi.1 + roi.3;
            held_back(masks, corners, rescued, roi, k, i, x, y) == if inside && full {
                0u8
            } else {
                masks[i].data@[y * masks[i].width + x]
            }
        }),
{
    let (gx, gy) = (corners[i].0 + x, corners[i].1 + y);
    if in_frame(roi, gx, gy) {
        lemma_well_inside(masks, corners, rescued, roi, k, gx, gy);
    }
}

} // verus!
