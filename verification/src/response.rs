//! What halving and doubling a plane are: each pixel of the result draws on
//! the pixels around its place with the weights 1 4 6 4 1 of a smoothing
//! kernel, across and down alike, and the plane goes on beyond its edges as
//! its own mirror image.

use crate::border::lemma_mirror101_left;
use crate::border::lemma_mirror101_range;
use crate::border::lemma_mirror101_right;
use crate::border::mirror101;
use crate::pyramid::down_px;
use crate::pyramid::down_row;
use crate::pyramid::down_sum;
use crate::pyramid::half;
use crate::pyramid::lemma_plane;
use crate::pyramid::px3;
use crate::pyramid::up_px;
use crate::pyramid::up_row;
use crate::pyramid::up_src_row;
use crate::pyramid::up_sum;
use vstd::prelude::*;

verus! {

/// Weight of a pixel `t` places from the middle of the kernel.
pub open spec fn kernel(t: int) -> int {
    if t == 0 {
        6
    } else if t == 1 || t == -1 {
        4
    } else if t == 2 || t == -2 {
        1
    } else {
        0
    }
}

/// Sixteenths that index `s` of `n` has in halved index `x`: it counts at its
/// own place and at those of its mirror images before the first index and
/// behind the last.
pub open spec fn halved_share(x: int, s: int, n: int) -> int {
    if n == 1 {
        16
    } else if n == 2 {
        8
    } else {
        kernel(s - 2 * x) + (if s > 0 { kernel(-s - 2 * x) } else { 0 }) + (if s < n - 1 {
            kernel(2 * (n - 1) - s - 2 * x)
        } else {
            0
        })
    }
}

/// Eighths that index `s` of `n` has in doubled index `x`: on the doubled
/// grid it stands at `2 * s`, its mirror image before the first index at
/// `-2 * s`, and that behind the last one step beyond the edge.
pub open spec fn doubled_share(x: int, s: int, n: int) -> int {
    if n == 1 {
        8
    } else {
        kernel(x - 2 * s) + (if s > 0 { kernel(x + 2 * s) } else { 0 }) + kernel(
            x - 2 * (2 * n - 1 - s),
        )
    }
}

/// `b` is the plane `a` with component `c` of the pixel in column `x` of row
/// `y` raised by `d`.
pub open spec fn raised(a: Seq<i16>, b: Seq<i16>, w: int, x: int, y: int, c: int, d: int) -> bool {
    &&& a.len() == b.len()
    &&& b[(y * w + x) * 3 + c] == a[(y * w + x) * 3 + c] + d
    &&& forall|q: int| 0 <= q < a.len() && q != (y * w + x) * 3 + c ==> #[trigger] b[q] == a[q]
}

spec fn one_if(b: bool) -> int {
    if b { 1 } else { 0 }
}

proof fn lemma_mirror_near(i: int, n: int)
    requires
        n >= 3,
        -2 <= i <= n + 1,
    ensures
        mirror101(i, n) == if i < 0 {
            -i
        } else if i < n {
            i
        } else {
            2 * (n - 1) - i
        },
{
    lemma_mirror101_range(i, n);
    lemma_mirror101_left(i, n);
    lemma_mirror101_right(i, n);
    lemma_mirror101_range(-i, n);
    lemma_mirror101_range(2 * (n - 1) - i, n);
}

proof fn lemma_halved_share(x: int, s: int, n: int)
    requires
        n >= 1,
        0 <= x < half(n),
        0 <= s < n,
    ensures
        halved_share(x, s, n) == 6 * one_if(mirror101(2 * x, n) == s) + 4 * (one_if(
            mirror101(2 * x - 1, n) == s,
        ) + one_if(mirror101(2 * x + 1, n) == s)) + one_if(mirror101(2 * x - 2, n) == s) + one_if(
            mirror101(2 * x + 2, n) == s,
        ),
{
    if n >= 3 {
        lemma_mirror_near(2 * x - 2, n);
        lemma_mirror_near(2 * x - 1, n);
        lemma_mirror_near(2 * x, n);
        lemma_mirror_near(2 * x + 1, n);
        lemma_mirror_near(2 * x + 2, n);
    } else if n == 2 {
        assert(x == 0);
        assert((-2int) % 2 == 0 && (-1int) % 2 == 1 && 0int % 2 == 0 && 1int % 2 == 1 && 2int % 2
            == 0);
    }
}

proof fn lemma_raised_px(
    a: Seq<i16>,
    b: Seq<i16>,
    w: int,
    h: int,
    sx: int,
    sy: int,
    c: int,
    d: int,
    x: int,
    y: int,
    e: int,
)
    requires
        a.len() == w * h * 3,
        raised(a, b, w, sx, sy, c, d),
        0 <= sx < w,
        0 <= sy < h,
        0 <= c < 3,
        0 <= x < w,
        0 <= y < h,
        0 <= e < 3,
    ensures
        px3(b, w, x, y, e) == px3(a, w, x, y, e) + one_if(x == sx && y == sy && e == c) * d,
{
    lemma_plane(x, y, e, w, h);
    lemma_plane(sx, sy, c, w, h);
    if x == sx && y == sy && e == c {
        assert(one_if(true) * d == d);
    } else {
        assert(one_if(false) * d == 0);
    }
}

proof fn lemma_raised_row(
    a: Seq<i16>,
    b: Seq<i16>,
    w: int,
    h: int,
    sx: int,
    sy: int,
    c: int,
    d: int,
    x: int,
    y: int,
    e: int,
)
    requires
        a.len() == w * h * 3,
        raised(a, b, w, sx, sy, c, d),
        0 <= sx < w,
        0 <= sy < h,
        0 <= c < 3,
        0 <= x < half(w),
        0 <= y < h,
        0 <= e < 3,
    ensures
        down_row(b, w, y, x, e) == down_row(a, w, y, x, e) + one_if(y == sy) * (one_if(e == c) * (
        halved_share(x, sx, w) * d)),
{
    lemma_halved_share(x, sx, w);
    lemma_mirror101_range(2 * x - 2, w);
    lemma_mirror101_range(2 * x - 1, w);
    lemma_mirror101_range(2 * x, w);
    lemma_mirror101_range(2 * x + 1, w);
    lemma_mirror101_range(2 * x + 2, w);
    lemma_raised_px(a, b, w, h, sx, sy, c, d, mirror101(2 * x - 2, w), y, e);
    lemma_raised_px(a, b, w, h, sx, sy, c, d, mirror101(2 * x - 1, w), y, e);
    lemma_raised_px(a, b, w, h, sx, sy, c, d, mirror101(2 * x, w), y, e);
    lemma_raised_px(a, b, w, h, sx, sy, c, d, mirror101(2 * x + 1, w), y, e);
    lemma_raised_px(a, b, w, h, sx, sy, c, d, mirror101(2 * x + 2, w), y, e);
    let e0 = one_if(mirror101(2 * x, w) == sx);
    let e1 = one_if(mirror101(2 * x - 1, w) == sx);
    let e2 = one_if(mirror101(2 * x + 1, w) == sx);
    let e3 = one_if(mirror101(2 * x - 2, w) == sx);
    let e4 = one_if(mirror101(2 * x + 2, w) == sx);
    lemma_weigh(d, e0, e1, e2, e3, e4);
    if y == sy && e == c {
        assert(one_if(true) * (one_if(true) * (halved_share(x, sx, w) * d)) == halved_share(x, sx, w)
            * d);
    } else {
        assert(0 * d == 0);
        assert(one_if(y == sy) * (one_if(e == c) * (halved_share(x, sx, w) * d)) == 0)
            by (nonlinear_arith)
            requires
                one_if(y == sy) == 0 || one_if(e == c) == 0,
        ;
    }
}

proof fn lemma_weigh(g: int, e0: int, e1: int, e2: int, e3: int, e4: int)
    ensures
        (e0 * g) * 6 + (e1 * g + e2 * g) * 4 + e3 * g + e4 * g == (6 * e0 + 4 * (e1 + e2) + e3 + e4)
            * g,
{
    assert((e0 * g) * 6 + (e1 * g + e2 * g) * 4 + e3 * g + e4 * g == (6 * e0 + 4 * (e1 + e2) + e3
        + e4) * g) by (nonlinear_arith);
}

/// Raising one component of one pixel by `d` raises that component of a
/// halved pixel by `d` times the pixel's shares across and down, in 256ths,
/// and no other component. Sums are rounded to the nearest, halves up.
#[verifier::spinoff_prover]
pub proof fn lemma_down_response(
    a: Seq<i16>,
    b: Seq<i16>,
    w: int,
    h: int,
    sx: int,
    sy: int,
    c: int,
    d: int,
    x: int,
    y: int,
    e: int,
)
    requires
        a.len() == w * h * 3,
        raised(a, b, w, sx, sy, c, d),
        0 <= sx < w,
        0 <= sy < h,
        0 <= c < 3,
        0 <= x < (w + 1) / 2,
        0 <= y < (h + 1) / 2,
        0 <= e < 3,
    ensures
        down_sum(b, w, h, x, y, e) == down_sum(a, w, h, x, y, e) + (if e == c {
            halved_share(x, sx, w) * halved_share(y, sy, h) * d
        } else {
            0
        }),
        256 * down_px(a, w, h, x, y, e) <= down_sum(a, w, h, x, y, e) + 128 < 256 * down_px(
            a,
            w,
            h,
            x,
            y,
            e,
        ) + 256,
{
    lemma_halved_share(y, sy, h);
    lemma_mirror101_range(2 * y - 2, h);
    lemma_mirror101_range(2 * y - 1, h);
    lemma_mirror101_range(2 * y, h);
    lemma_mirror101_range(2 * y + 1, h);
    lemma_mirror101_range(2 * y + 2, h);
    lemma_raised_row(a, b, w, h, sx, sy, c, d, x, mirror101(2 * y - 2, h), e);
    lemma_raised_row(a, b, w, h, sx, sy, c, d, x, mirror101(2 * y - 1, h), e);
    lemma_raised_row(a, b, w, h, sx, sy, c, d, x, mirror101(2 * y, h), e);
    lemma_raised_row(a, b, w, h, sx, sy, c, d, x, mirror101(2 * y + 1, h), e);
    lemma_raised_row(a, b, w, h, sx, sy, c, d, x, mirror101(2 * y + 2, h), e);
    let g = one_if(e == c) * (halved_share(x, sx, w) * d);
    let e0 = one_if(mirror101(2 * y, h) == sy);
    let e1 = one_if(mirror101(2 * y - 1, h) == sy);
    let e2 = one_if(mirror101(2 * y + 1, h) == sy);
    let e3 = one_if(mirror101(2 * y - 2, h) == sy);
    let e4 = one_if(mirror101(2 * y + 2, h) == sy);
    lemma_weigh(g, e0, e1, e2, e3, e4);
    let (p, q) = (halved_share(x, sx, w), halved_share(y, sy, h));
    assert(q * g == if e == c { p * q * d } else { 0 }) by {
        if e == c {
            assert(g == p * d);
            assert(q * (p * d) == p * q * d) by (nonlinear_arith);
        } else {
            assert(g == 0) by (nonlinear_arith)
                requires
                    g == one_if(e == c) * (p * d),
                    one_if(e == c) == 0,
            ;
            assert(q * 0 == 0);
        }
    }
}

proof fn lemma_up_src_near(k: int, h: int)
    requires
        h >= 1,
        0 <= k < h,
    ensures
        up_src_row(k - 1, h) == if k == 0 {
            if h == 1 { 0int } else { 1 }
        } else {
            k - 1
        },
        up_src_row(k + 1, h) == if k == h - 1 { h - 1 } else { k + 1 },
{
    if h == 1 {
        assert(mirror101(-2, 2) == 0);
        assert(mirror101(2, 2) == 0);
    } else {
        lemma_mirror_near(2 * (k - 1), 2 * h);
        lemma_mirror_near(2 * (k + 1), 2 * h);
    }
}

proof fn lemma_raised_up_row(
    a: Seq<i16>,
    b: Seq<i16>,
    w: int,
    h: int,
    sx: int,
    sy: int,
    c: int,
    d: int,
    x: int,
    y: int,
    e: int,
)
    requires
        a.len() == w * h * 3,
        raised(a, b, w, sx, sy, c, d),
        0 <= sx < w,
        0 <= sy < h,
        0 <= c < 3,
        0 <= x < 2 * w,
        0 <= y < h,
        0 <= e < 3,
    ensures
        up_row(b, w, y, x, e) == up_row(a, w, y, x, e) + (if y == sy && e == c {
            doubled_share(x, sx, w) * d
        } else {
            0
        }),
{
    let k = x / 2;
    lemma_raised_px(a, b, w, h, sx, sy, c, d, 0, y, e);
    lemma_raised_px(a, b, w, h, sx, sy, c, d, w - 1, y, e);
    lemma_raised_px(a, b, w, h, sx, sy, c, d, k, y, e);
    if w >= 2 {
        lemma_raised_px(a, b, w, h, sx, sy, c, d, 1, y, e);
        lemma_raised_px(a, b, w, h, sx, sy, c, d, w - 2, y, e);
    }
    if k >= 1 {
        lemma_raised_px(a, b, w, h, sx, sy, c, d, k - 1, y, e);
    }
    if k + 1 < w {
        lemma_raised_px(a, b, w, h, sx, sy, c, d, k + 1, y, e);
    }
    assert(one_if(true) * d == d && one_if(false) * d == 0);
    let s = doubled_share(x, sx, w);
    assert(s == 0 || s == 1 || s == 2 || s == 4 || s == 6 || s == 7 || s == 8);
    assert(s * d == if s == 0 {
        0
    } else if s == 1 {
        d
    } else if s == 2 {
        2 * d
    } else if s == 4 {
        4 * d
    } else if s == 6 {
        6 * d
    } else if s == 7 {
        7 * d
    } else {
        8 * d
    });
}

/// Raising one component of one pixel by `d` raises that component of a
/// doubled pixel by `d` times the pixel's shares across and down, in 64ths,
/// and no other component. Sums are rounded to the nearest, halves up. One
/// column more than twice as many repeats the one before, and one row more
/// the last but one.
#[verifier::spinoff_prover]
pub proof fn lemma_up_response(
    a: Seq<i16>,
    b: Seq<i16>,
    w: int,
    h: int,
    sx: int,
    sy: int,
    c: int,
    d: int,
    x: int,
    y: int,
    e: int,
)
    requires
        a.len() == w * h * 3,
        raised(a, b, w, sx, sy, c, d),
        0 <= sx < w,
        0 <= sy < h,
        0 <= c < 3,
        0 <= x < 2 * w,
        0 <= y < 2 * h,
        0 <= e < 3,
    ensures
        up_sum(b, w, h, x, y, e) == up_sum(a, w, h, x, y, e) + (if e == c {
            doubled_share(x, sx, w) * doubled_share(y, sy, h) * d
        } else {
            0
        }),
        64 * up_px(a, w, h, x, y, e) <= up_sum(a, w, h, x, y, e) + 32 < 64 * up_px(a, w, h, x, y, e)
            + 64,
        up_px(a, w, h, 2 * w, y, e) == up_px(a, w, h, 2 * w - 1, y, e),
        up_px(a, w, h, x, 2 * h, e) == up_px(a, w, h, x, 2 * h - 2, e),
{
    let k = y / 2;
    lemma_up_src_near(k, h);
    lemma_raised_up_row(a, b, w, h, sx, sy, c, d, x, up_src_row(k - 1, h), e);
    lemma_raised_up_row(a, b, w, h, sx, sy, c, d, x, k, e);
    lemma_raised_up_row(a, b, w, h, sx, sy, c, d, x, up_src_row(k + 1, h), e);
    let g = doubled_share(x, sx, w) * d;
    let s = doubled_share(y, sy, h);
    assert(s == 0 || s == 1 || s == 2 || s == 4 || s == 6 || s == 7 || s == 8);
    assert(doubled_share(x, sx, w) * s * d == s * g) by (nonlinear_arith)
        requires
            g == doubled_share(x, sx, w) * d,
    ;
    assert(s * g == if s == 0 {
        0
    } else if s == 1 {
        g
    } else if s == 2 {
        2 * g
    } else if s == 4 {
        4 * g
    } else if s == 6 {
        6 * g
    } else if s == 7 {
        7 * g
    } else {
        8 * g
    });
}

/// Halving treats rows and columns alike: the turned plane, halved, is the
/// halved plane, turned.
pub proof fn lemma_down_turned(a: Seq<i16>, b: Seq<i16>, w: int, h: int, x: int, y: int, c: int)
    requires
        1 <= w,
        1 <= h,
        a.len() == w * h * 3,
        b.len() == w * h * 3,
        0 <= c < 3,
        forall|i: int, j: int|
            0 <= i < w && 0 <= j < h ==> #[trigger] a[(j * w + i) * 3 + c] == b[(i * h + j) * 3 + c],
    ensures
        down_px(a, w, h, x, y, c) == down_px(b, h, w, y, x, c),
{
    assert forall|i: int, j: int| #[trigger]
        px3(a, w, mirror101(i, w), mirror101(j, h), c) == px3(
            b,
            h,
            mirror101(j, h),
            mirror101(i, w),
            c,
        ) by {
        lemma_mirror101_range(i, w);
        lemma_mirror101_range(j, h);
        let (p, q) = (mirror101(i, w), mirror101(j, h));
        assert(a[(q * w + p) * 3 + c] == b[(p * h + q) * 3 + c]);
    }
}

} // verus!
