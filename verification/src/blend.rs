//! Blending: distances inside a mask, the extent of a panorama, and the
//! Laplacian pyramids that multi-band blending mixes.

use crate::imgproc::lemma_index;
use crate::imgproc::lemma_index_split;
use crate::imgproc::GrayImage;
pub use crate::pyramid::border_interpolate_reflect;
pub use crate::pyramid::pyr_down_cols;
pub use crate::pyramid::pyr_down_i16c3;
pub use crate::pyramid::pyr_down_width0;
pub use crate::pyramid::pyr_up_i16c3;
use vstd::arithmetic::power::pow;
use vstd::prelude::*;

verus! {

/// Distance of a pixel in a mask without any empty pixel.
pub const FAR: u64 = 1_000_000_000_000_000;

pub open spec fn abs(a: int) -> int {
    if a < 0 { -a } else { a }
}

/// City-block distance.
pub open spec fn l1(x1: int, y1: int, x2: int, y2: int) -> int {
    abs(x1 - x2) + abs(y1 - y2)
}

/// Pixel (`x`, `y`) lies in the mask and is empty.
pub open spec fn empty_at(mask: &GrayImage, x: int, y: int) -> bool {
    0 <= x < mask.width && 0 <= y < mask.height && mask.px(x, y) == 0
}

/// `d` is the city-block distance of (`x`, `y`) to the nearest empty pixel.
pub open spec fn is_distance(mask: &GrayImage, x: int, y: int, d: int) -> bool {
    if exists|zx: int, zy: int| #[trigger] empty_at(mask, zx, zy) {
        &&& exists|zx: int, zy: int| #[trigger] empty_at(mask, zx, zy) && l1(x, y, zx, zy) == d
        &&& forall|zx: int, zy: int| #[trigger] empty_at(mask, zx, zy) ==> d <= l1(x, y, zx, zy)
    } else {
        d == FAR
    }
}

/// Some empty pixel is no farther than `d`, or `d` is [`FAR`].
spec fn reaches(mask: &GrayImage, x: int, y: int, d: int) -> bool {
    0 <= d && (d == FAR || exists|zx: int, zy: int| #[trigger]
        empty_at(mask, zx, zy) && l1(x, y, zx, zy) <= d)
}

proof fn lemma_reaches_step(mask: &GrayImage, x1: int, y1: int, d1: int, x2: int, y2: int, s: int)
    requires
        reaches(mask, x1, y1, d1),
        d1 < FAR,
        l1(x1, y1, x2, y2) <= s,
    ensures
        reaches(mask, x2, y2, d1 + s),
{
    let (zx, zy) = choose|zx: int, zy: int| #[trigger]
        empty_at(mask, zx, zy) && l1(x1, y1, zx, zy) <= d1;
    assert(empty_at(mask, zx, zy) && l1(x2, y2, zx, zy) <= d1 + s);
}

spec fn at(d: Seq<u64>, w: int, x: int, y: int) -> int {
    d[y * w + x] as int
}

/// What the forward pass leaves: no pixel is farther than its left and upper
/// neighbours allow.
spec fn forward_ok(d: Seq<u64>, w: int, h: int, x: int, y: int) -> bool {
    &&& x > 0 ==> at(d, w, x, y) <= at(d, w, x - 1, y) + 1
    &&& y > 0 ==> at(d, w, x, y) <= at(d, w, x, y - 1) + 1
    &&& y > 0 && x > 0 ==> at(d, w, x, y) <= at(d, w, x - 1, y - 1) + 2
    &&& y > 0 && x + 1 < w ==> at(d, w, x, y) <= at(d, w, x + 1, y - 1) + 2
}

/// What the backward pass leaves: the same for right and lower neighbours.
spec fn backward_ok(d: Seq<u64>, w: int, h: int, x: int, y: int) -> bool {
    &&& x + 1 < w ==> at(d, w, x, y) <= at(d, w, x + 1, y) + 1
    &&& y + 1 < h ==> at(d, w, x, y) <= at(d, w, x, y + 1) + 1
    &&& y + 1 < h && x + 1 < w ==> at(d, w, x, y) <= at(d, w, x + 1, y + 1) + 2
    &&& y + 1 < h && x > 0 ==> at(d, w, x, y) <= at(d, w, x - 1, y + 1) + 2
}

/// The forward pass is exact for empty pixels above, within a diagonal to the
/// right.
proof fn lemma_forward(
    mask: &GrayImage,
    d: Seq<u64>,
    w: int,
    h: int,
    x: int,
    y: int,
    zx: int,
    zy: int,
)
    requires
        w == mask.width,
        h == mask.height,
        0 <= x < w,
        0 <= y < h,
        empty_at(mask, zx, zy),
        zy <= y,
        zx - x <= y - zy,
        forall|a: int, b: int| 0 <= a < w && 0 <= b < h ==> #[trigger] forward_ok(d, w, h, a, b),
        forall|a: int, b: int| #[trigger] empty_at(mask, a, b) ==> at(d, w, a, b) == 0,
    ensures
        at(d, w, x, y) <= l1(x, y, zx, zy),
    decreases l1(x, y, zx, zy),
{
    assert(forward_ok(d, w, h, x, y));
    if x == zx && y == zy {
    } else if zx < x {
        lemma_forward(mask, d, w, h, x - 1, y, zx, zy);
    } else if zx == x {
        lemma_forward(mask, d, w, h, x, y - 1, zx, zy);
    } else {
        lemma_forward(mask, d, w, h, x + 1, y - 1, zx, zy);
    }
}

/// After both passes every distance is exact from above.
proof fn lemma_both(
    mask: &GrayImage,
    f: Seq<u64>,
    d: Seq<u64>,
    w: int,
    h: int,
    x: int,
    y: int,
    zx: int,
    zy: int,
)
    requires
        w == mask.width,
        h == mask.height,
        0 <= x < w,
        0 <= y < h,
        empty_at(mask, zx, zy),
        forall|a: int, b: int| 0 <= a < w && 0 <= b < h ==> #[trigger] forward_ok(f, w, h, a, b),
        forall|a: int, b: int| #[trigger] empty_at(mask, a, b) ==> at(f, w, a, b) == 0,
        forall|a: int, b: int| 0 <= a < w && 0 <= b < h ==> #[trigger] backward_ok(d, w, h, a, b),
        forall|a: int, b: int|
            0 <= a < w && 0 <= b < h ==> #[trigger] at(d, w, a, b) <= at(f, w, a, b),
    ensures
        at(d, w, x, y) <= l1(x, y, zx, zy),
    decreases l1(x, y, zx, zy),
{
    assert(backward_ok(d, w, h, x, y));
    assert(at(d, w, x, y) <= at(f, w, x, y));
    if zy <= y {
        if zx - x <= y - zy {
            lemma_forward(mask, f, w, h, x, y, zx, zy);
        } else {
            lemma_both(mask, f, d, w, h, x + 1, y, zx, zy);
        }
    } else if zx >= x {
        lemma_both(mask, f, d, w, h, x, y + 1, zx, zy);
    } else {
        lemma_both(mask, f, d, w, h, x - 1, y + 1, zx, zy);
    }
}

fn lower(d: u64, n: u64, s: u64) -> (r: u64)
    requires
        n <= FAR,
        s <= 2,
    ensures
        r <= d,
        r <= n + s,
        r == d || r == n + s,
{
    if n + s < d { n + s } else { d }
}

/// City-block distance of each pixel to the nearest empty pixel, in two
/// passes over the mask.
#[verifier::spinoff_prover]
#[verifier::rlimit(60)]
pub fn distance_transform_l1(mask: &GrayImage) -> (dist: Vec<u64>)
    requires
        mask.wf(),
        mask.width + mask.height <= FAR,
    ensures
        dist@.len() == mask.width * mask.height,
        forall|x: int, y: int|
            0 <= x < mask.width && 0 <= y < mask.height ==> is_distance(
                mask,
                x,
                y,
                #[trigger] dist@[y * mask.width + x] as int,
            ),
{
    let (w, h): (usize, usize) = (mask.width, mask.height);
    let ghost (wi, hi) = (w as int, h as int);
    let n: usize = mask.data.len();
    let mut dist: Vec<u64> = Vec::new();
    let mut i: usize = 0;
    while i < n
        invariant
            mask.wf(),
            n == mask.data@.len(),
            i <= n,
            dist@.len() == i,
            forall|q: int|
                0 <= q < i ==> #[trigger] dist@[q] == if mask.data@[q] == 0 { 0 } else { FAR },
        decreases n - i,
    {
        dist.push(if mask.data[i] == 0 { 0 } else { FAR });
        i = i + 1;
    }
    proof {
        assert forall|q: int| 0 <= q < n implies reaches(mask, q % wi, q / wi, #[trigger] dist@[q] as int) by {
            lemma_split(q, wi, hi);
            if mask.data@[q] == 0 {
                assert(empty_at(mask, q % wi, q / wi));
                assert(l1(q % wi, q / wi, q % wi, q / wi) == 0);
            }
        }
    }
    i = 0;
    while i < n
        invariant
            mask.wf(),
            n == mask.data@.len(),
            n == w * h,
            wi == w,
            hi == h,
            w == mask.width,
            h == mask.height,
            i <= n,
            dist@.len() == n,
            forall|q: int| 0 <= q < n ==> reaches(mask, q % wi, q / wi, #[trigger] dist@[q] as int),
            forall|q: int| 0 <= q < n && mask.data@[q] == 0 ==> #[trigger] dist@[q] == 0,
            forall|q: int| 0 <= q < n ==> #[trigger] dist@[q] <= FAR,
            forall|x: int, y: int|
                0 <= x < w && 0 <= y < h && y * w + x < i ==> #[trigger] forward_ok(
                    dist@,
                    wi,
                    hi,
                    x,
                    y,
                ),
        decreases n - i,
    {
        let ghost d0 = dist@;
        proof {
            lemma_split(i as int, wi, hi);
        }
        let x: usize = i % w;
        let y: usize = i / w;
        let ghost (xi, yi) = (x as int, y as int);
        if dist[i] != 0 {
            let mut d: u64 = dist[i];
            proof {
                if x > 0 {
                    lemma_near(mask, d0, wi, hi, xi, yi, xi - 1, yi);
                }
                if y > 0 {
                    lemma_near(mask, d0, wi, hi, xi, yi, xi, yi - 1);
                    if x > 0 {
                        lemma_near(mask, d0, wi, hi, xi, yi, xi - 1, yi - 1);
                    }
                    if x + 1 < w {
                        lemma_near(mask, d0, wi, hi, xi, yi, xi + 1, yi - 1);
                    }
                }
                assert(y > 0 ==> (y - 1) * w == y * w - w) by (nonlinear_arith)
                    requires
                        y >= 0,
                ;
            }
            if x > 0 {
                d = lower(d, dist[i - 1], 1);
            }
            if y > 0 {
                d = lower(d, dist[i - w], 1);
                if x > 0 {
                    d = lower(d, dist[i - w - 1], 2);
                }
                if x + 1 < w {
                    d = lower(d, dist[i - w + 1], 2);
                }
            }
            dist[i] = d;
        }
        proof {
            assert(dist@ =~= d0.update(i as int, dist@[i as int]));
            assert forall|a: int, b: int| 0 <= a < w && 0 <= b < h && b * w + a < i + 1 implies #[trigger] forward_ok(
                dist@,
                wi,
                hi,
                a,
                b,
            ) by {
                lemma_index(a, b, wi, hi);
                lemma_index_split(a, b, wi);
                if a > 0 {
                    lemma_index(a - 1, b, wi, hi);
                }
                if b > 0 {
                    lemma_index(a, b - 1, wi, hi);
                    assert((b - 1) * w == b * w - w) by (nonlinear_arith);
                }
                if b * w + a < i {
                    assert(forward_ok(d0, wi, hi, a, b));
                } else {
                    assert(a == xi && b == yi);
                }
            }
        }
        i = i + 1;
    }
    let ghost fwd = dist@;
    proof {
        assert forall|x: int, y: int| 0 <= x < w && 0 <= y < h implies #[trigger] forward_ok(
            fwd,
            wi,
            hi,
            x,
            y,
        ) by {
            lemma_index(x, y, wi, hi);
        }
    }
    i = n;
    proof {
        assert forall|x: int, y: int| 0 <= x < w && 0 <= y < h && y * w + x >= i implies #[trigger] backward_ok(
            dist@,
            wi,
            hi,
            x,
            y,
        ) by {
            lemma_index(x, y, wi, hi);
        }
    }
    while i > 0
        invariant
            mask.wf(),
            n == mask.data@.len(),
            n == w * h,
            wi == w,
            hi == h,
            w == mask.width,
            h == mask.height,
            i <= n,
            dist@.len() == n,
            fwd.len() == n,
            forall|q: int| 0 <= q < n ==> reaches(mask, q % wi, q / wi, #[trigger] dist@[q] as int),
            forall|q: int| 0 <= q < n ==> #[trigger] dist@[q] <= fwd[q],
            forall|q: int| 0 <= q < n ==> #[trigger] dist@[q] <= FAR,
            forall|x: int, y: int|
                0 <= x < w && 0 <= y < h && y * w + x >= i ==> #[trigger] backward_ok(
                    dist@,
                    wi,
                    hi,
                    x,
                    y,
                ),
        decreases i,
    {
        i = i - 1;
        let ghost d0 = dist@;
        proof {
            lemma_split(i as int, wi, hi);
        }
        let x: usize = i % w;
        let y: usize = i / w;
        let ghost (xi, yi) = (x as int, y as int);
        if dist[i] != 0 {
            let mut d: u64 = dist[i];
            proof {
                if x + 1 < w {
                    lemma_near(mask, d0, wi, hi, xi, yi, xi + 1, yi);
                }
                if y + 1 < h {
                    lemma_near(mask, d0, wi, hi, xi, yi, xi, yi + 1);
                    if x > 0 {
                        lemma_near(mask, d0, wi, hi, xi, yi, xi - 1, yi + 1);
                    }
                    if x + 1 < w {
                        lemma_near(mask, d0, wi, hi, xi, yi, xi + 1, yi + 1);
                    }
                }
                assert((y + 1) * w == y * w + w) by (nonlinear_arith);
                assert(dist@.len() == dist.len());
            }
            if x + 1 < w {
                d = lower(d, dist[i + 1], 1);
            }
            if y + 1 < h {
                d = lower(d, dist[i + w], 1);
                if x + 1 < w {
                    d = lower(d, dist[i + w + 1], 2);
                }
                if x > 0 {
                    d = lower(d, dist[i + w - 1], 2);
                }
            }
            dist[i] = d;
        }
        proof {
            assert(dist@ =~= d0.update(i as int, dist@[i as int]));
            assert forall|a: int, b: int| 0 <= a < w && 0 <= b < h && b * w + a >= i implies #[trigger] backward_ok(
                dist@,
                wi,
                hi,
                a,
                b,
            ) by {
                lemma_index(a, b, wi, hi);
                lemma_index_split(a, b, wi);
                if a + 1 < w {
                    lemma_index(a + 1, b, wi, hi);
                }
                if b + 1 < h {
                    lemma_index(a, b + 1, wi, hi);
                    assert((b + 1) * w == b * w + w) by (nonlinear_arith);
                    if a + 1 < w {
                        lemma_index(a + 1, b + 1, wi, hi);
                    }
                }
                if b * w + a > i {
                    assert(backward_ok(d0, wi, hi, a, b));
                } else {
                    assert(a == xi && b == yi);
                }
            }
        }
    }
    proof {
        assert forall|a: int, b: int| #[trigger] empty_at(mask, a, b) implies at(fwd, wi, a, b) == 0 by {
            lemma_index(a, b, wi, hi);
        }
        assert forall|x: int, y: int| 0 <= x < w && 0 <= y < h implies #[trigger] at(dist@, wi, x, y)
            <= at(fwd, wi, x, y) by {
            lemma_index(x, y, wi, hi);
        }
        assert forall|x: int, y: int| 0 <= x < w && 0 <= y < h implies #[trigger] backward_ok(
            dist@,
            wi,
            hi,
            x,
            y,
        ) by {
            lemma_index(x, y, wi, hi);
        }
        assert forall|x: int, y: int| 0 <= x < w && 0 <= y < h implies is_distance(
            mask,
            x,
            y,
            #[trigger] dist@[y * w + x] as int,
        ) by {
            lemma_index(x, y, wi, hi);
            lemma_index_split(x, y, wi);
            let d = dist@[y * w + x] as int;
            assert(reaches(mask, x, y, d));
            assert forall|zx: int, zy: int| #[trigger] empty_at(mask, zx, zy) implies d <= l1(x, y, zx, zy) by {
                lemma_both(mask, fwd, dist@, wi, hi, x, y, zx, zy);
            }
            if exists|zx: int, zy: int| #[trigger] empty_at(mask, zx, zy) {
                let (ax, ay) = choose|zx: int, zy: int| #[trigger] empty_at(mask, zx, zy);
                assert(d <= l1(x, y, ax, ay));
                let (zx, zy) = choose|zx: int, zy: int| #[trigger]
                    empty_at(mask, zx, zy) && l1(x, y, zx, zy) <= d;
                assert(empty_at(mask, zx, zy) && l1(x, y, zx, zy) == d);
            }
        }
    }
    dist
}

proof fn lemma_split(q: int, w: int, h: int)
    requires
        0 <= q < w * h,
        0 <= w,
        0 <= h,
    ensures
        w > 0,
        0 <= q % w < w,
        0 <= q / w < h,
        (q / w) * w + q % w == q,
{
    assert(w > 0) by (nonlinear_arith)
        requires
            0 <= q < w * h,
            0 <= w,
    ;
    vstd::arithmetic::div_mod::lemma_fundamental_div_mod(q, w);
    let d = q / w;
    let r = q % w;
    assert(d * w == w * d) by (nonlinear_arith);
    assert(d < h) by (nonlinear_arith)
        requires
            w * d + r < w * h,
            0 <= r,
            w > 0,
    ;
    assert(0 <= d) by (nonlinear_arith)
        requires
            0 <= w * d + r,
            r < w,
            w > 0,
    ;
}

/// A neighbour's distance bounds that of the pixel.
proof fn lemma_near(
    mask: &GrayImage,
    d: Seq<u64>,
    w: int,
    h: int,
    x: int,
    y: int,
    nx: int,
    ny: int,
)
    requires
        mask.wf(),
        w == mask.width,
        h == mask.height,
        d.len() == w * h,
        0 <= x < w,
        0 <= y < h,
        0 <= nx < w,
        0 <= ny < h,
        forall|q: int| 0 <= q < d.len() ==> reaches(mask, q % w, q / w, #[trigger] d[q] as int),
    ensures
        0 <= ny * w + nx < d.len(),
        at(d, w, nx, ny) < FAR ==> reaches(mask, x, y, at(d, w, nx, ny) + l1(x, y, nx, ny)),
        (y * w + x) % w == x,
        (y * w + x) / w == y,
{
    lemma_index(nx, ny, w, h);
    lemma_index_split(nx, ny, w);
    lemma_index_split(x, y, w);
    assert(reaches(mask, nx, ny, d[ny * w + nx] as int));
    if at(d, w, nx, ny) < FAR {
        lemma_reaches_step(mask, nx, ny, at(d, w, nx, ny), x, y, l1(x, y, nx, ny));
    }
}

/// Smallest rectangle around placed rectangles, as (x, y, width, height).
pub fn result_roi(corners: &[(i32, i32)], sizes: &[(i32, i32)]) -> (r: (i32, i32, usize, usize))
    requires
        corners@.len() >= 1,
        sizes@.len() == corners@.len(),
        forall|i: int|
            0 <= i < corners@.len() ==> {
                &&& 0 <= (#[trigger] sizes@[i]).0
                &&& 0 <= sizes@[i].1
                &&& corners@[i].0 + sizes@[i].0 <= i32::MAX
                &&& corners@[i].1 + sizes@[i].1 <= i32::MAX
            },
        forall|i: int, j: int|
            0 <= i < corners@.len() && 0 <= j < corners@.len() ==> {
                &&& (#[trigger] corners@[i]).0 + sizes@[i].0 - (#[trigger] corners@[j]).0 <= i32::MAX
                &&& corners@[i].1 + sizes@[i].1 - corners@[j].1 <= i32::MAX
            },
    ensures
        forall|i: int|
            0 <= i < corners@.len() ==> {
                &&& r.0 <= (#[trigger] corners@[i]).0
                &&& r.1 <= corners@[i].1
                &&& corners@[i].0 + sizes@[i].0 <= r.0 + r.2
                &&& corners@[i].1 + sizes@[i].1 <= r.1 + r.3
            },
        exists|i: int| 0 <= i < corners@.len() && (#[trigger] corners@[i]).0 == r.0,
        exists|i: int| 0 <= i < corners@.len() && (#[trigger] corners@[i]).1 == r.1,
        exists|i: int|
            0 <= i < corners@.len() && (#[trigger] corners@[i]).0 + sizes@[i].0 == r.0 + r.2,
        exists|i: int|
            0 <= i < corners@.len() && (#[trigger] corners@[i]).1 + sizes@[i].1 == r.1 + r.3,
{
    let n: usize = corners.len();
    let mut tl: (i32, i32) = corners[0];
    let s0: (i32, i32) = sizes[0];
    let mut br: (i32, i32) = (tl.0 + s0.0, tl.1 + s0.1);
    let ghost mut il: (int, int) = (0, 0);
    let ghost mut ir: (int, int) = (0, 0);
    let mut i: usize = 1;
    while i < n
        invariant
            n == corners@.len(),
            sizes@.len() == n,
            1 <= i <= n,
            forall|k: int|
                0 <= k < corners@.len() ==> {
                    &&& 0 <= (#[trigger] sizes@[k]).0
                    &&& 0 <= sizes@[k].1
                    &&& corners@[k].0 + sizes@[k].0 <= i32::MAX
                    &&& corners@[k].1 + sizes@[k].1 <= i32::MAX
                },
            0 <= il.0 < n,
            0 <= il.1 < n,
            0 <= ir.0 < n,
            0 <= ir.1 < n,
            corners@[il.0].0 == tl.0,
            corners@[il.1].1 == tl.1,
            corners@[ir.0].0 + sizes@[ir.0].0 == br.0,
            corners@[ir.1].1 + sizes@[ir.1].1 == br.1,
            forall|k: int|
                0 <= k < i ==> {
                    &&& tl.0 <= (#[trigger] corners@[k]).0
                    &&& tl.1 <= corners@[k].1
                    &&& corners@[k].0 + sizes@[k].0 <= br.0
                    &&& corners@[k].1 + sizes@[k].1 <= br.1
                },
        decreases n - i,
    {
        let c: (i32, i32) = corners[i];
        let s: (i32, i32) = sizes[i];
        assert(0 <= sizes@[i as int].0);
        if c.0 < tl.0 {
            tl.0 = c.0;
            proof {
                il.0 = i as int;
            }
        }
        if c.1 < tl.1 {
            tl.1 = c.1;
            proof {
                il.1 = i as int;
            }
        }
        if c.0 + s.0 > br.0 {
            br.0 = c.0 + s.0;
            proof {
                ir.0 = i as int;
            }
        }
        if c.1 + s.1 > br.1 {
            br.1 = c.1 + s.1;
            proof {
                ir.1 = i as int;
            }
        }
        i = i + 1;
    }
    proof {
        assert(tl.0 <= corners@[0].0 && corners@[0].0 + sizes@[0].0 <= br.0);
        assert(tl.1 <= corners@[0].1 && corners@[0].1 + sizes@[0].1 <= br.1);
        assert(0 <= sizes@[0].0 && 0 <= sizes@[0].1);
        assert(corners@[ir.0].0 + sizes@[ir.0].0 - corners@[il.0].0 <= i32::MAX);
        assert(corners@[ir.1].1 + sizes@[ir.1].1 - corners@[il.1].1 <= i32::MAX);
    }
    (tl.0, tl.1, (br.0 - tl.0) as usize, (br.1 - tl.1) as usize)
}

/// `nb` is the number of blend bands for a panorama of `dst_w` by `dst_h`
/// pixels.
pub open spec fn is_num_bands(dst_w: int, dst_h: int, nb: int) -> bool {
    &&& nb >= 1
    &&& dst_w * dst_h <= 400 * pow(4, (nb + 1) as nat)
    &&& nb == 1 || 400 * pow(4, nb as nat) < dst_w * dst_h
}

/// Number of blend bands for a panorama of `dst_w` by `dst_h` pixels: with a
/// blend width of 5% of the panorama's mean extent, one less than the number
/// of doublings that reach it, and at least one.
pub fn num_bands_for(dst_w: usize, dst_h: usize) -> (nb: usize)
    requires
        1 <= dst_w * dst_h <= usize::MAX,
    ensures
        is_num_bands(dst_w as int, dst_h as int, nb as int),
        nb < 28,
{
    let area: u128 = (dst_w * dst_h) as u128;
    let mut nb: usize = 1;
    let mut reach: u128 = 6400;
    proof {
        assert(400 * pow(4, 2) == 6400) by {
            reveal_with_fuel(pow, 3);
        }
    }
    while reach < area
        invariant
            area == dst_w * dst_h,
            area <= usize::MAX,
            1 <= nb < 28,
            reach == 400 * pow(4, (nb + 1) as nat),
            nb == 1 || 400 * pow(4, nb as nat) < area,
            reach <= 4 * usize::MAX as u128 + 6400,
        decreases 4 * usize::MAX + 6400 - reach,
    {
        proof {
            reveal_with_fuel(pow, 2);
            assert(pow(4, (nb + 2) as nat) == 4 * pow(4, (nb + 1) as nat));
            lemma_pow4_big((nb + 2) as nat);
        }
        nb = nb + 1;
        reach = reach * 4;
    }
    nb
}

/// Powers of four pass every bound within reach of the exponent.
proof fn lemma_pow4_big(k: nat)
    ensures
        pow(4, k) >= 1,
        k >= 29 ==> pow(4, k) >= 0x400_0000_0000_0000,
    decreases k,
{
    reveal(pow);
    if k > 0 {
        lemma_pow4_big((k - 1) as nat);
        if k == 29 {
            assert(pow(4, 29) == 0x400_0000_0000_0000) by {
                reveal_with_fuel(pow, 30);
            }
        }
    }
}

/// Distances are counted in single steps across or down: a pixel that is not
/// empty is one step further than the nearest of its four neighbours, and an
/// empty one is at 0.
pub proof fn lemma_distance_steps(mask: &GrayImage, x: int, y: int, d: int)
    requires
        0 <= x < mask.width,
        0 <= y < mask.height,
        is_distance(mask, x, y, d),
        exists|zx: int, zy: int| #[trigger] empty_at(mask, zx, zy),
    ensures
        d >= 0,
        d == 0 <==> mask.data@[y * mask.width + x] == 0,
        d > 0 ==> is_distance(mask, x - 1, y, d - 1) || is_distance(mask, x + 1, y, d - 1)
            || is_distance(mask, x, y - 1, d - 1) || is_distance(mask, x, y + 1, d - 1),
        forall|n: int|
            (#[trigger] is_distance(mask, x - 1, y, n)) || is_distance(mask, x + 1, y, n)
                || is_distance(mask, x, y - 1, n) || is_distance(mask, x, y + 1, n) ==> d - 1 <= n
                <= d + 1,
{
    let (zx, zy) = choose|zx: int, zy: int| #[trigger]
        empty_at(mask, zx, zy) && l1(x, y, zx, zy) == d;
    if d == 0 {
        assert(zx == x && zy == y);
    }
    if mask.px(x, y) == 0 {
        assert(empty_at(mask, x, y));
    }
    if d > 0 {
        if zx < x {
            assert(l1(x - 1, y, zx, zy) == d - 1);
        } else if zx > x {
            assert(l1(x + 1, y, zx, zy) == d - 1);
        } else if zy < y {
            assert(l1(x, y - 1, zx, zy) == d - 1);
        } else {
            assert(l1(x, y + 1, zx, zy) == d - 1);
        }
        assert forall|ox: int, oy: int| #[trigger] empty_at(mask, ox, oy) implies d - 1 <= l1(
            x - 1,
            y,
            ox,
            oy,
        ) && d - 1 <= l1(x + 1, y, ox, oy) && d - 1 <= l1(x, y - 1, ox, oy) && d - 1 <= l1(
            x,
            y + 1,
            ox,
            oy,
        ) by {
            assert(d <= l1(x, y, ox, oy));
        }
    }
    assert forall|n: int|
        (#[trigger] is_distance(mask, x - 1, y, n)) || is_distance(mask, x + 1, y, n)
            || is_distance(mask, x, y - 1, n) || is_distance(mask, x, y + 1, n) implies d - 1 <= n
        <= d + 1 by {
        if is_distance(mask, x - 1, y, n) {
            lemma_step_apart(mask, x, y, d, x - 1, y, n);
        } else if is_distance(mask, x + 1, y, n) {
            lemma_step_apart(mask, x, y, d, x + 1, y, n);
        } else if is_distance(mask, x, y - 1, n) {
            lemma_step_apart(mask, x, y, d, x, y - 1, n);
        } else {
            lemma_step_apart(mask, x, y, d, x, y + 1, n);
        }
    }
}

proof fn lemma_step_apart(mask: &GrayImage, x: int, y: int, d: int, nx: int, ny: int, n: int)
    requires
        is_distance(mask, x, y, d),
        is_distance(mask, nx, ny, n),
        exists|zx: int, zy: int| #[trigger] empty_at(mask, zx, zy),
        (nx == x && (ny == y - 1 || ny == y + 1)) || (ny == y && (nx == x - 1 || nx == x + 1)),
    ensures
        d - 1 <= n <= d + 1,
{
    let (zx, zy) = choose|zx: int, zy: int| #[trigger]
        empty_at(mask, zx, zy) && l1(x, y, zx, zy) == d;
    let (ox, oy) = choose|ox: int, oy: int| #[trigger]
        empty_at(mask, ox, oy) && l1(nx, ny, ox, oy) == n;
    assert(n <= l1(nx, ny, zx, zy));
    assert(d <= l1(x, y, ox, oy));
}

/// The distances of a pixel and the one below differ by one at most.
pub proof fn lemma_distance_beside(mask: &GrayImage, x: int, y: int, d: int, n: int)
    requires
        is_distance(mask, x, y, d),
        is_distance(mask, x, y + 1, n),
        exists|zx: int, zy: int| #[trigger] empty_at(mask, zx, zy),
    ensures
        d - 1 <= n <= d + 1,
{
    lemma_step_apart(mask, x, y, d, x, y + 1, n);
}

/// A twentieth of the side of a square as large as the panorama is at most
/// two to the power of one band more, and over two to that of the bands,
/// unless there is but one.
pub proof fn lemma_bands_by_width(dst_w: int, dst_h: int, nb: int)
    requires
        is_num_bands(dst_w, dst_h, nb),
    ensures
        ({
            let (step, next) = (pow(2, nb as nat), pow(2, (nb + 1) as nat));
            &&& nb >= 1
            &&& dst_w * dst_h <= (20 * next) * (20 * next)
            &&& nb > 1 ==> (20 * step) * (20 * step) < dst_w * dst_h
        }),
{
    lemma_four(nb as nat);
    lemma_four((nb + 1) as nat);
}

proof fn lemma_four(k: nat)
    ensures
        (20 * pow(2, k)) * (20 * pow(2, k)) == 400 * pow(4, k),
    decreases k,
{
    vstd::arithmetic::power::lemma_pow_distributes(2, 2, k);
    let p = pow(2, k);
    assert((20 * p) * (20 * p) == 400 * (p * p)) by (nonlinear_arith);
    assert(2int * 2 == 4);
}

} // verus!
