//! What is measured on the patch around a feature: how its moments, its
//! slopes and its descriptor answer to the pixels.

use crate::imgproc::lemma_index_split;
use crate::imgproc::GrayImage;
use crate::orb::byte_until;
use crate::orb::disc_moments;
use crate::orb::harris_until;
use crate::orb::middle_moment;
use crate::orb::near;
use crate::orb::row_moments;
use crate::orb::slope_x;
use crate::orb::slope_y;
use vstd::prelude::*;

verus! {

/// `b` is the image `a` with the pixel in column `x` of row `y` raised by `d`.
pub open spec fn lit(a: &GrayImage, b: &GrayImage, x: int, y: int, d: int) -> bool {
    &&& a.width == b.width
    &&& a.data@.len() == b.data@.len()
    &&& 0 <= x < a.width
    &&& 0 <= y
    &&& y * a.width + x < a.data@.len()
    &&& b.data@[y * a.width + x] == a.data@[y * a.width + x] + d
    &&& forall|q: int|
        0 <= q < a.data@.len() && q != y * a.width + x ==> #[trigger] b.data@[q] == a.data@[q]
}

/// The pixels up to `r` columns and rows from (`x`, `y`) are pixels of the
/// image.
pub open spec fn surrounded(img: &GrayImage, x: int, y: int, r: int) -> bool {
    &&& r <= x
    &&& r <= y
    &&& x + r < img.width
    &&& (y + r) * img.width + x + r < img.data@.len()
}

proof fn lemma_lit_near(
    a: &GrayImage,
    b: &GrayImage,
    x: int,
    y: int,
    r: int,
    u: int,
    v: int,
    d: int,
    dx: int,
    dy: int,
)
    requires
        lit(a, b, x + u, y + v, d),
        surrounded(a, x, y, r),
        -r <= dx <= r,
        -r <= dy <= r,
    ensures
        near(b, x, y, dx, dy) == near(a, x, y, dx, dy) + (if dx == u && dy == v { d } else { 0 }),
{
    let w = a.width as int;
    lemma_index_split(x + dx, y + dy, w);
    lemma_index_split(x + u, y + v, w);
    assert((y + dy) * w <= (y + r) * w) by (nonlinear_arith)
        requires
            dy <= r,
            w >= 0,
    ;
    assert(0 <= (y + dy) * w) by (nonlinear_arith)
        requires
            0 <= y + dy,
            w >= 0,
    ;
}

proof fn lemma_lit_row(
    a: &GrayImage,
    b: &GrayImage,
    x: int,
    y: int,
    r: int,
    u: int,
    v: int,
    d: int,
    dy: int,
    n: int,
    k: int,
)
    requires
        lit(a, b, x + u, y + v, d),
        surrounded(a, x, y, r),
        0 <= n <= r,
        1 <= dy <= r,
        0 <= k <= 2 * n + 1,
    ensures
        ({
            let (m0, s0) = row_moments(a, x, y, dy, n, k);
            let (m1, s1) = row_moments(b, x, y, dy, n, k);
            if -n <= u < -n + k && v == dy {
                m1 == m0 + u * d && s1 == s0 + d
            } else if -n <= u < -n + k && v == -dy {
                m1 == m0 + u * d && s1 == s0 - d
            } else {
                m1 == m0 && s1 == s0
            }
        }),
    decreases k,
{
    if k > 0 {
        lemma_lit_row(a, b, x, y, r, u, v, d, dy, n, k - 1);
        let c = -n + k - 1;
        lemma_lit_near(a, b, x, y, r, u, v, d, c, dy);
        lemma_lit_near(a, b, x, y, r, u, v, d, c, -dy);
        let (p, q) = (near(a, x, y, c, dy), near(a, x, y, c, -dy));
        assert(c * ((p + d) + q) == c * (p + q) + c * d) by (nonlinear_arith);
        assert(c * (p + (q + d)) == c * (p + q) + c * d) by (nonlinear_arith);
    }
}

proof fn lemma_lit_middle(
    a: &GrayImage,
    b: &GrayImage,
    x: int,
    y: int,
    r: int,
    u: int,
    v: int,
    d: int,
    k: int,
)
    requires
        lit(a, b, x + u, y + v, d),
        surrounded(a, x, y, r),
        0 <= r,
        0 <= k <= 2 * r + 1,
    ensures
        middle_moment(b, x, y, r, k) == middle_moment(a, x, y, r, k) + (if v == 0 && -r <= u < -r
            + k {
            u * d
        } else {
            0
        }),
    decreases k,
{
    if k > 0 {
        lemma_lit_middle(a, b, x, y, r, u, v, d, k - 1);
        let c = -r + k - 1;
        lemma_lit_near(a, b, x, y, r, u, v, d, c, 0);
        let p = near(a, x, y, c, 0);
        assert(c * (p + d) == c * p + c * d) by (nonlinear_arith);
    }
}

/// The offset (`u`, `v`) lies in the first `n` rows above and below the middle
/// of a disc, or in its middle row.
pub open spec fn in_disc(umax: Seq<i32>, hp: int, n: int, u: int, v: int) -> bool {
    if v == 0 {
        -hp <= u <= hp
    } else if v > 0 {
        v <= n && -umax[v] <= u <= umax[v]
    } else {
        -v <= n && -umax[-v] <= u <= umax[-v]
    }
}

proof fn lemma_lit_rows(
    a: &GrayImage,
    b: &GrayImage,
    x: int,
    y: int,
    umax: Seq<i32>,
    hp: int,
    n: int,
    u: int,
    v: int,
    d: int,
)
    requires
        lit(a, b, x + u, y + v, d),
        surrounded(a, x, y, hp),
        0 <= n <= hp,
        forall|i: int| 0 <= i <= hp ==> 0 <= #[trigger] umax[i] <= hp,
    ensures
        ({
            let (m0, s0) = disc_moments(a, x, y, umax, hp, n);
            let (m1, s1) = disc_moments(b, x, y, umax, hp, n);
            if in_disc(umax, hp, n, u, v) {
                m1 == m0 + v * d && s1 == s0 + u * d
            } else {
                m1 == m0 && s1 == s0
            }
        }),
    decreases n,
{
    if n <= 0 {
        lemma_lit_middle(a, b, x, y, hp, u, v, d, 2 * hp + 1);
        assert(0 * d == 0);
    } else {
        lemma_lit_rows(a, b, x, y, umax, hp, n - 1, u, v, d);
        let e = umax[n] as int;
        lemma_lit_row(a, b, x, y, hp, u, v, d, n, e, 2 * e + 1);
        let s = row_moments(a, x, y, n, e, 2 * e + 1).1;
        assert(n * (s + d) == n * s + n * d) by (nonlinear_arith);
        assert(n * (s - d) == n * s + (-n) * d) by (nonlinear_arith);
    }
}

/// The moments of a patch are those of its pixels: one that is brighter by `d`
/// at the offset (`u`, `v`) raises the moment down by `v * d` and that across
/// by `u * d`, if it lies in the disc, and leaves them else. A black patch has
/// none.
pub proof fn lemma_moment_response(
    a: &GrayImage,
    b: &GrayImage,
    x: int,
    y: int,
    umax: Seq<i32>,
    hp: int,
    u: int,
    v: int,
    d: int,
)
    requires
        lit(a, b, x + u, y + v, d),
        surrounded(a, x, y, hp),
        0 <= hp,
        forall|i: int| 0 <= i <= hp ==> 0 <= #[trigger] umax[i] <= hp,
    ensures
        ({
            let (down, across) = disc_moments(a, x, y, umax, hp, hp);
            let (down1, across1) = disc_moments(b, x, y, umax, hp, hp);
            let reach = if v == 0 {
                hp
            } else if v > 0 {
                umax[v] as int
            } else {
                umax[-v] as int
            };
            if -hp <= v <= hp && -reach <= u <= reach {
                down1 == down + v * d && across1 == across + u * d
            } else {
                down1 == down && across1 == across
            }
        }),
        (forall|q: int| 0 <= q < a.data@.len() ==> #[trigger] a.data@[q] == 0) ==> disc_moments(
            a,
            x,
            y,
            umax,
            hp,
            hp,
        ) == (0int, 0int),
{
    lemma_lit_rows(a, b, x, y, umax, hp, hp, u, v, d);
    if forall|q: int| 0 <= q < a.data@.len() ==> #[trigger] a.data@[q] == 0 {
        lemma_black_rows(a, x, y, umax, hp, hp);
    }
}

proof fn lemma_black_near(a: &GrayImage, x: int, y: int, r: int, dx: int, dy: int)
    requires
        surrounded(a, x, y, r),
        forall|q: int| 0 <= q < a.data@.len() ==> #[trigger] a.data@[q] == 0,
        -r <= dx <= r,
        -r <= dy <= r,
    ensures
        near(a, x, y, dx, dy) == 0,
{
    let w = a.width as int;
    assert(0 <= (y + dy) * w <= (y + r) * w) by (nonlinear_arith)
        requires
            0 <= y + dy,
            dy <= r,
            w >= 0,
    ;
}

proof fn lemma_black_row(a: &GrayImage, x: int, y: int, r: int, dy: int, n: int, k: int)
    requires
        surrounded(a, x, y, r),
        forall|q: int| 0 <= q < a.data@.len() ==> #[trigger] a.data@[q] == 0,
        0 <= n <= r,
        0 <= dy <= r,
        0 <= k <= 2 * n + 1,
    ensures
        row_moments(a, x, y, dy, n, k) == (0int, 0int),
        middle_moment(a, x, y, n, k) == 0,
    decreases k,
{
    if k > 0 {
        lemma_black_row(a, x, y, r, dy, n, k - 1);
        let c = -n + k - 1;
        lemma_black_near(a, x, y, r, c, dy);
        lemma_black_near(a, x, y, r, c, -dy);
        lemma_black_near(a, x, y, r, c, 0);
        assert(c * 0 == 0);
    }
}

proof fn lemma_black_rows(a: &GrayImage, x: int, y: int, umax: Seq<i32>, hp: int, n: int)
    requires
        surrounded(a, x, y, hp),
        forall|q: int| 0 <= q < a.data@.len() ==> #[trigger] a.data@[q] == 0,
        0 <= n <= hp,
        forall|i: int| 0 <= i <= hp ==> 0 <= #[trigger] umax[i] <= hp,
    ensures
        disc_moments(a, x, y, umax, hp, n) == (0int, 0int),
    decreases n,
{
    if n <= 0 {
        lemma_black_row(a, x, y, hp, 0, hp, 2 * hp + 1);
    } else {
        lemma_black_rows(a, x, y, umax, hp, n - 1);
        lemma_black_row(a, x, y, hp, n, umax[n] as int, 2 * umax[n] + 1);
        assert(n * 0 == 0);
    }
}

/// The slopes answer to the eight pixels around: the slope across to those on
/// the right with a plus and to those on the left with a minus, twice as much
/// beside the pixel as in the rows above and below; the slope down likewise to
/// those below and above. Flat surroundings have none.
pub proof fn lemma_slope_response(
    a: &GrayImage,
    b: &GrayImage,
    x: int,
    y: int,
    u: int,
    v: int,
    d: int,
)
    requires
        lit(a, b, x + u, y + v, d),
        surrounded(a, x, y, 1),
    ensures
        slope_x(b, x, y) == slope_x(a, x, y) + (if -1 <= u <= 1 && -1 <= v <= 1 {
            if v == 0 { 2 * u * d } else { u * d }
        } else {
            0
        }),
        slope_y(b, x, y) == slope_y(a, x, y) + (if -1 <= u <= 1 && -1 <= v <= 1 {
            if u == 0 { 2 * v * d } else { v * d }
        } else {
            0
        }),
        (forall|i: int, j: int|
            x - 1 <= i <= x + 1 && y - 1 <= j <= y + 1 ==> #[trigger] a.px(i, j) == a.px(x, y))
            ==> slope_x(a, x, y) == 0 && slope_y(a, x, y) == 0,
{
    lemma_lit_near(a, b, x, y, 1, u, v, d, -1, -1);
    lemma_lit_near(a, b, x, y, 1, u, v, d, 0, -1);
    lemma_lit_near(a, b, x, y, 1, u, v, d, 1, -1);
    lemma_lit_near(a, b, x, y, 1, u, v, d, -1, 0);
    lemma_lit_near(a, b, x, y, 1, u, v, d, 1, 0);
    lemma_lit_near(a, b, x, y, 1, u, v, d, -1, 1);
    lemma_lit_near(a, b, x, y, 1, u, v, d, 0, 1);
    lemma_lit_near(a, b, x, y, 1, u, v, d, 1, 1);
    assert(1 * d == d && (-1) * d == -d && 0 * d == 0 && 2 * 1 * d == 2 * d && 2 * (-1) * d == -(2
        * d) && 2 * 0 * d == 0) by (nonlinear_arith);
}

/// The slopes at (`i`, `j`), multiplied: that across with itself, that down
/// with itself, and one with the other.
pub open spec fn product(img: &GrayImage, i: int, j: int, c: int) -> int {
    if c == 0 {
        slope_x(img, i, j) * slope_x(img, i, j)
    } else if c == 1 {
        slope_y(img, i, j) * slope_y(img, i, j)
    } else {
        slope_x(img, i, j) * slope_y(img, i, j)
    }
}

/// The sum of products over seven neighbouring columns of row `j`.
#[verifier::opaque]
pub open spec fn seven(img: &GrayImage, x: int, j: int, c: int) -> int {
    product(img, x - 3, j, c) + product(img, x - 2, j, c) + product(img, x - 1, j, c) + product(
        img,
        x,
        j,
        c,
    ) + product(img, x + 1, j, c) + product(img, x + 2, j, c) + product(img, x + 3, j, c)
}

/// The sum of products over the seven by seven pixels around (`x`, `y`).
pub open spec fn block_sum(img: &GrayImage, x: int, y: int, c: int) -> int {
    seven(img, x, y - 3, c) + seven(img, x, y - 2, c) + seven(img, x, y - 1, c) + seven(
        img,
        x,
        y,
        c,
    ) + seven(img, x, y + 1, c) + seven(img, x, y + 2, c) + seven(img, x, y + 3, c)
}

proof fn lemma_seven(img: &GrayImage, x: int, y: int, r: int)
    requires
        0 <= r < 7,
    ensures
        ({
            let (a0, b0, c0) = harris_until(img, x, y, 7 * r);
            let (a1, b1, c1) = harris_until(img, x, y, 7 * r + 7);
            let row = y - 3 + r;
            &&& a1 == a0 + seven(img, x, row, 0)
            &&& b1 == b0 + seven(img, x, row, 1)
            &&& c1 == c0 + seven(img, x, row, 2)
        }),
{
    reveal(seven);
    reveal_with_fuel(harris_until, 8);
    assert((7 * r) % 7 == 0 && (7 * r + 1) % 7 == 1 && (7 * r + 2) % 7 == 2 && (7 * r + 3) % 7 == 3
        && (7 * r + 4) % 7 == 4 && (7 * r + 5) % 7 == 5 && (7 * r + 6) % 7 == 6);
    assert((7 * r) / 7 == r && (7 * r + 1) / 7 == r && (7 * r + 2) / 7 == r && (7 * r + 3) / 7 == r
        && (7 * r + 4) / 7 == r && (7 * r + 5) / 7 == r && (7 * r + 6) / 7 == r);
}

/// A corner's strength is taken from the slopes of the seven by seven pixels
/// around it, each counted once.
#[verifier::spinoff_prover]
pub proof fn lemma_harris_block(img: &GrayImage, x: int, y: int)
    ensures
        harris_until(img, x, y, 49) == (
            block_sum(img, x, y, 0),
            block_sum(img, x, y, 1),
            block_sum(img, x, y, 2),
        ),
{
    lemma_seven(img, x, y, 0);
    lemma_seven(img, x, y, 1);
    lemma_seven(img, x, y, 2);
    lemma_seven(img, x, y, 3);
    lemma_seven(img, x, y, 4);
    lemma_seven(img, x, y, 5);
    lemma_seven(img, x, y, 6);
    assert(harris_until(img, x, y, 0) == (0int, 0int, 0int));
}

proof fn lemma_tilted_slopes(img: &GrayImage, i: int, j: int, p: int, q: int, o: int)
    requires
        forall|m: int, n: int|
            -1 <= m <= 1 && -1 <= n <= 1 ==> #[trigger] img.px(i + m, j + n) == o + p * m + q * n,
    ensures
        slope_x(img, i, j) == 8 * p,
        slope_y(img, i, j) == 8 * q,
        product(img, i, j, 0) == 64 * (p * p),
        product(img, i, j, 1) == 64 * (q * q),
        product(img, i, j, 2) == 64 * (p * q),
{
    assert(img.px(i + 1, j + 0) == o + p + 0);
    assert(img.px(i + -1, j + 0) == o - p + 0);
    assert(img.px(i + 0, j + 1) == o + 0 + q);
    assert(img.px(i + 0, j + -1) == o + 0 - q);
    assert(img.px(i + 1, j + 1) == o + p + q);
    assert(img.px(i + -1, j + 1) == o - p + q);
    assert(img.px(i + 1, j + -1) == o + p - q);
    assert(img.px(i + -1, j + -1) == o - p - q);
    assert((8 * p) * (8 * p) == 64 * (p * p)) by (nonlinear_arith);
    assert((8 * q) * (8 * q) == 64 * (q * q)) by (nonlinear_arith);
    assert((8 * p) * (8 * q) == 64 * (p * q)) by (nonlinear_arith);
}

proof fn lemma_tilted_seven(
    img: &GrayImage,
    x: int,
    y: int,
    p: int,
    q: int,
    o: int,
    j: int,
)
    requires
        forall|i: int, l: int|
            x - 4 <= i <= x + 4 && y - 4 <= l <= y + 4 ==> #[trigger] img.px(i, l) == o + p * (i
                - x) + q * (l - y),
        y - 3 <= j <= y + 3,
    ensures
        seven(img, x, j, 0) == 7 * (64 * (p * p)),
        seven(img, x, j, 1) == 7 * (64 * (q * q)),
        seven(img, x, j, 2) == 7 * (64 * (p * q)),
{
    reveal(seven);
    assert forall|i: int| x - 3 <= i <= x + 3 implies (#[trigger] product(img, i, j, 0)) == 64 * (p
        * p) && product(img, i, j, 1) == 64 * (q * q) && product(img, i, j, 2) == 64 * (p * q) by {
        let base = o + p * (i - x) + q * (j - y);
        assert forall|m: int, n: int| -1 <= m <= 1 && -1 <= n <= 1 implies #[trigger] img.px(
            i + m,
            j + n,
        ) == base + p * m + q * n by {
            assert(p * (i + m - x) == p * (i - x) + p * m) by (nonlinear_arith);
            assert(q * (j + n - y) == q * (j - y) + q * n) by (nonlinear_arith);
        }
        lemma_tilted_slopes(img, i, j, p, q, base);
    }
    assert(product(img, x - 3, j, 0) == 64 * (p * p));
    assert(product(img, x - 2, j, 0) == 64 * (p * p));
    assert(product(img, x - 1, j, 0) == 64 * (p * p));
    assert(product(img, x, j, 0) == 64 * (p * p));
    assert(product(img, x + 1, j, 0) == 64 * (p * p));
    assert(product(img, x + 2, j, 0) == 64 * (p * p));
    assert(product(img, x + 3, j, 0) == 64 * (p * p));
}

/// On a plane that rises by `p` a column and `q` a row the slopes are eight
/// times as much everywhere, and so the sums over the block are 49 times
/// their products.
#[verifier::spinoff_prover]
pub proof fn lemma_tilted_block(img: &GrayImage, x: int, y: int, p: int, q: int, o: int)
    requires
        forall|i: int, j: int|
            x - 4 <= i <= x + 4 && y - 4 <= j <= y + 4 ==> #[trigger] img.px(i, j) == o + p * (i
                - x) + q * (j - y),
    ensures
        harris_until(img, x, y, 49) == (49 * (64 * (p * p)), 49 * (64 * (q * q)), 49 * (64 * (p
            * q))),
{
    lemma_harris_block(img, x, y);
    lemma_tilted_seven(img, x, y, p, q, o, y - 3);
    lemma_tilted_seven(img, x, y, p, q, o, y - 2);
    lemma_tilted_seven(img, x, y, p, q, o, y - 1);
    lemma_tilted_seven(img, x, y, p, q, o, y);
    lemma_tilted_seven(img, x, y, p, q, o, y + 1);
    lemma_tilted_seven(img, x, y, p, q, o, y + 2);
    lemma_tilted_seven(img, x, y, p, q, o, y + 3);
}

/// Bit `k` of byte `i` of a descriptor, counted from the lowest, is set if the
/// first sample of pair `8 * i + k` is darker than the second.
pub proof fn lemma_descriptor_bits(img: &GrayImage, x: int, y: int, offs: Seq<(i32, i32)>, i: int)
    ensures
        ({
            let at = |s: int|
                img.data@[(y + offs[s].1) * img.width + (x + offs[s].0)];
            let bit = |k: int|
                if at(16 * i + 2 * k) < at(16 * i + 2 * k + 1) {
                    1int
                } else {
                    0
                };
            byte_until(img, x, y, offs, i, 8) == bit(0) + 2 * bit(1) + 4 * bit(2) + 8 * bit(3) + 16
                * bit(4) + 32 * bit(5) + 64 * bit(6) + 128 * bit(7)
        }),
{
    reveal_with_fuel(byte_until, 9);
}

} // verus!
