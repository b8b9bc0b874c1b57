//! Gaussian pyramids of three-component 16-bit planes: halving and doubling
//! with the kernel 1 4 6 4 1 in integer arithmetic.

use crate::border::lemma_mirror101_range;
use crate::border::mirror;
use crate::border::mirror101;
use vstd::arithmetic::div_mod::lemma_fundamental_div_mod;
use vstd::prelude::*;

verus! {

/// Index of the pixel that stands for `p` in a line of `len` pixels: mirrored
/// at the outer pixels with `delta` 1, behind them with `delta` 0.
fn reflected(p: i64, len: i64, delta: i64) -> (r: i64)
    requires
        1 <= len <= i32::MAX,
        delta == 0 || delta == 1,
        -0xff_ffff_ffff <= p <= 0xff_ffff_ffff,
    ensures
        r == if delta == 1 { mirror101(p as int, len as int) } else { mirror(p as int, len as int) },
        0 <= r < len,
{
    proof {
        lemma_mirror101_range(p as int, len as int);
        crate::border::lemma_mirror_range(p as int, len as int);
    }
    if p >= 0 && p < len {
        return p;
    }
    if len == 1 {
        return 0;
    }
    let mut q: i64 = p;
    while q < 0 || q >= len
        invariant
            len >= 2,
            delta == 0 || delta == 1,
            -0xff_ffff_ffff <= q <= 0xff_ffff_ffff,
            len <= i32::MAX,
            delta == 1 ==> mirror101(q as int, len as int) == mirror101(p as int, len as int),
            delta == 0 ==> mirror(q as int, len as int) == mirror(p as int, len as int),
        decreases
            if 0 <= q < len {
                0
            } else if q < 0 {
                -2 * q
            } else {
                2 * q - 1
            },
    {
        proof {
            if q < 0 {
                crate::border::lemma_mirror101_left(q as int, len as int);
                crate::border::lemma_mirror_left(q as int, len as int);
            } else {
                crate::border::lemma_mirror101_right(q as int, len as int);
                crate::border::lemma_mirror_right(q as int, len as int);
            }
        }
        q = if q < 0 { -q - 1 + delta } else { len - 1 - (q - len) - delta };
    }
    proof {
        lemma_mirror101_range(q as int, len as int);
        crate::border::lemma_mirror_range(q as int, len as int);
    }
    q
}

/// Index of the pixel that stands for `p` in a line of `len` pixels: mirrored
/// at the outer pixels with `delta` 1, behind them with `delta` 0.
pub fn border_interpolate_reflect(p: i32, len: i32, delta: i32) -> (r: i32)
    requires
        len >= 1,
        delta == 0 || delta == 1,
        -i32::MAX <= p,
    ensures
        r == if delta == 1 { mirror101(p as int, len as int) } else { mirror(p as int, len as int) },
        0 <= r < len,
{
    reflected(p as i64, len as i64, delta as i64) as i32
}

/// Component `c` of the pixel in column `x` of row `y` of a plane `w` wide.
pub open spec fn px3(src: Seq<i16>, w: int, x: int, y: int, c: int) -> int {
    src[(y * w + x) * 3 + c] as int
}

/// Size after halving: the number of even indices.
pub open spec fn half(n: int) -> int {
    (n + 1) / 2
}

/// Horizontal sum for halved column `x` of source row `sy`.
pub open spec fn down_row(src: Seq<i16>, w: int, sy: int, x: int, c: int) -> int {
    px3(src, w, mirror101(2 * x, w), sy, c) * 6 + (px3(src, w, mirror101(2 * x - 1, w), sy, c) + px3(
        src,
        w,
        mirror101(2 * x + 1, w),
        sy,
        c,
    )) * 4 + px3(src, w, mirror101(2 * x - 2, w), sy, c) + px3(
        src,
        w,
        mirror101(2 * x + 2, w),
        sy,
        c,
    )
}

/// Weighted sum, of total weight 256, for pixel (`x`, `y`) of the halved
/// plane.
pub open spec fn down_sum(src: Seq<i16>, w: int, h: int, x: int, y: int, c: int) -> int {
    down_row(src, w, mirror101(2 * y, h), x, c) * 6 + (down_row(
        src,
        w,
        mirror101(2 * y - 1, h),
        x,
        c,
    ) + down_row(src, w, mirror101(2 * y + 1, h), x, c)) * 4 + down_row(
        src,
        w,
        mirror101(2 * y - 2, h),
        x,
        c,
    ) + down_row(src, w, mirror101(2 * y + 2, h), x, c)
}

/// Pixel (`x`, `y`) of the halved plane: the weighted mean, rounded to the
/// nearest integer.
pub open spec fn down_px(src: Seq<i16>, w: int, h: int, x: int, y: int, c: int) -> int {
    (down_sum(src, w, h, x, y, c) + 128) / 256
}

/// All components lie between `lo` and `hi`.
pub open spec fn within(src: Seq<i16>, lo: int, hi: int) -> bool {
    forall|i: int| 0 <= i < src.len() ==> lo <= #[trigger] src[i] <= hi
}

/// A pixel of a plane lies inside its buffer, and its position is recovered
/// from its place there.
pub proof fn lemma_plane(x: int, y: int, c: int, w: int, h: int)
    requires
        0 <= x < w,
        0 <= y < h,
        0 <= c < 3,
    ensures
        0 <= (y * w + x) * 3 + c < w * h * 3,
        ((y * w + x) * 3 + c) % 3 == c,
        (((y * w + x) * 3 + c) / 3) % w == x,
        ((y * w + x) * 3 + c) / 3 / w == y,
        0 <= y * w,
{
    crate::imgproc::lemma_index(x, y, w, h);
    crate::imgproc::lemma_index_split(x, y, w);
    assert((y * w + x) * 3 + c < w * h * 3) by (nonlinear_arith)
        requires
            y * w + x < w * h,
            c < 3,
    ;
}

/// A place in the buffer of a plane belongs to one pixel and component.
pub proof fn lemma_plane_split(q: int, w: int, h: int)
    requires
        0 <= q < w * h * 3,
        1 <= w,
        1 <= h,
    ensures
        0 <= (q / 3) % w < w,
        0 <= q / 3 / w < h,
        q == ((q / 3 / w) * w + (q / 3) % w) * 3 + q % 3,
{
    let p = q / 3;
    lemma_fundamental_div_mod(p, w);
    let d = p / w;
    let r = p % w;
    assert(w * d == d * w) by (nonlinear_arith);
    assert(p < w * h) by (nonlinear_arith)
        requires
            3 * p <= q,
            q < w * h * 3,
    ;
    assert(d < h) by (nonlinear_arith)
        requires
            d * w + r < w * h,
            0 <= r,
            w > 0,
    ;
    assert(0 <= d) by (nonlinear_arith)
        requires
            0 <= d * w + r,
            r < w,
            w > 0,
    ;
}

/// The halved plane stays within the range of the plane.
pub proof fn lemma_down_range(
    src: Seq<i16>,
    w: int,
    h: int,
    x: int,
    y: int,
    c: int,
    lo: int,
    hi: int,
)
    requires
        1 <= w,
        1 <= h,
        src.len() == w * h * 3,
        0 <= c < 3,
        within(src, lo, hi),
    ensures
        256 * lo <= down_sum(src, w, h, x, y, c) <= 256 * hi,
        lo <= down_px(src, w, h, x, y, c) <= hi,
{
    lemma_down_row_range(src, w, h, mirror101(2 * y - 2, h), x, c, lo, hi);
    lemma_down_row_range(src, w, h, mirror101(2 * y - 1, h), x, c, lo, hi);
    lemma_down_row_range(src, w, h, mirror101(2 * y, h), x, c, lo, hi);
    lemma_down_row_range(src, w, h, mirror101(2 * y + 1, h), x, c, lo, hi);
    lemma_down_row_range(src, w, h, mirror101(2 * y + 2, h), x, c, lo, hi);
    lemma_mirror101_range(2 * y - 2, h);
    lemma_mirror101_range(2 * y - 1, h);
    lemma_mirror101_range(2 * y, h);
    lemma_mirror101_range(2 * y + 1, h);
    lemma_mirror101_range(2 * y + 2, h);
}

proof fn lemma_px_range(
    src: Seq<i16>,
    w: int,
    h: int,
    x: int,
    y: int,
    c: int,
    lo: int,
    hi: int,
)
    requires
        1 <= w,
        1 <= h,
        src.len() == w * h * 3,
        0 <= c < 3,
        0 <= y < h,
        within(src, lo, hi),
    ensures
        lo <= px3(src, w, mirror101(x, w), y, c) <= hi,
{
    lemma_mirror101_range(x, w);
    lemma_plane(mirror101(x, w), y, c, w, h);
}

proof fn lemma_down_row_range(
    src: Seq<i16>,
    w: int,
    h: int,
    sy: int,
    x: int,
    c: int,
    lo: int,
    hi: int,
)
    requires
        1 <= w,
        1 <= h,
        src.len() == w * h * 3,
        0 <= c < 3,
        within(src, lo, hi),
    ensures
        0 <= sy < h ==> 16 * lo <= down_row(src, w, sy, x, c) <= 16 * hi,
{
    if 0 <= sy < h {
        lemma_px_range(src, w, h, 2 * x - 2, sy, c, lo, hi);
        lemma_px_range(src, w, h, 2 * x - 1, sy, c, lo, hi);
        lemma_px_range(src, w, h, 2 * x, sy, c, lo, hi);
        lemma_px_range(src, w, h, 2 * x + 1, sy, c, lo, hi);
        lemma_px_range(src, w, h, 2 * x + 2, sy, c, lo, hi);
    }
}

/// First halved column whose five source columns would pass the right edge.
pub fn pyr_down_width0(w: usize, dw: usize) -> (r: usize)
    requires
        w <= i32::MAX,
    ensures
        r == if w <= 2 {
            if w == 2 && dw >= 1 { 1int } else { 0 }
        } else if (w - 1) / 2 < dw {
            (w - 1) / 2
        } else {
            dw as int
        },
{
    let k: usize = if w >= 3 {
        (w - 3) / 2 + 1
    } else if w == 2 {
        1
    } else {
        0
    };
    if k < dw { k } else { dw }
}

/// Source columns of halved column `x`, mirrored at the edges: those around
/// `2 * x`, where `width0` columns come before the right edge is reached.
pub fn pyr_down_cols(x: usize, w: usize, width0: usize) -> (cols: [usize; 5])
    requires
        1 <= w <= i32::MAX,
        x <= i32::MAX,
        width0 <= i32::MAX,
    ensures
        forall|j: int|
            0 <= j < 5 ==> #[trigger] cols@[j] == mirror101(
                (if x < width0 { 2 * x } else { width0 + x }) + j - 2,
                w as int,
            ),
        forall|j: int| 0 <= j < 5 ==> #[trigger] cols@[j] < w,
{
    let base: i64 = if x < width0 { 2 * x as i64 } else { 2 * width0 as i64 + (x - width0) as i64 };
    let c0: usize = reflected(base - 2, w as i64, 1) as usize;
    let c1: usize = reflected(base - 1, w as i64, 1) as usize;
    let c2: usize = reflected(base, w as i64, 1) as usize;
    let c3: usize = reflected(base + 1, w as i64, 1) as usize;
    let c4: usize = reflected(base + 2, w as i64, 1) as usize;
    [c0, c1, c2, c3, c4]
}

/// `v` divided by 256, rounded to the nearest integer.
fn round_256(v: i32) -> (r: i16)
    requires
        -256 * 32768 <= v <= 256 * 32767,
    ensures
        r == (v + 128) / 256,
{
    ((v + 128 + 0x100_0000) / 256 - 0x1_0000) as i16
}

/// `v` divided by 64, rounded to the nearest integer.
fn round_64(v: i32) -> (r: i16)
    requires
        -64 * 32768 <= v <= 64 * 32767,
    ensures
        r == (v + 32) / 64,
{
    ((v + 32 + 0x40_0000) / 64 - 0x1_0000) as i16
}

/// Halves a plane in both directions: returns it with its width and height.
#[verifier::spinoff_prover]
#[verifier::rlimit(40)]
pub fn pyr_down_i16c3(src: &[i16], w: usize, h: usize) -> (r: (Vec<i16>, usize, usize))
    requires
        src@.len() == w * h * 3,
        1 <= w <= i32::MAX,
        1 <= h <= i32::MAX,
    ensures
        r.1 == half(w as int),
        r.2 == half(h as int),
        r.0@.len() == r.1 * r.2 * 3,
        forall|x: int, y: int, c: int|
            0 <= x < r.1 && 0 <= y < r.2 && 0 <= c < 3 ==> #[trigger] px3(r.0@, r.1 as int, x, y, c)
                == down_px(src@, w as int, h as int, x, y, c),
{
    let ghost (wi, hi) = (w as int, h as int);
    let dw: usize = (w + 1) / 2;
    let dh: usize = (h + 1) / 2;
    let width0: usize = pyr_down_width0(w, dw);
    let n: usize = src.len();
    proof {
        assert(within(src@, -32768, 32767));
        crate::imgproc::lemma_index(0, h - 1, wi, hi);
    }
    // Horizontal pass over every source row.
    let mut rows: Vec<i32> = Vec::new();
    let mut sy: usize = 0;
    assert(0 * (dw * 3) == 0) by (nonlinear_arith);
    while sy < h
        invariant
            n == src@.len(),
            n == w * h * 3,
            wi == w,
            hi == h,
            1 <= w <= i32::MAX,
            1 <= h <= i32::MAX,
            dw == half(wi),
            width0 <= dw,
            forall|x: int| 0 <= x < dw && x >= width0 ==> #[trigger] (width0 + x) == 2 * x,
            sy <= h,
            within(src@, -32768, 32767),
            rows@.len() == sy * dw * 3,
            forall|q: int|
                0 <= q < rows@.len() ==> #[trigger] rows@[q] == down_row(
                    src@,
                    wi,
                    q / 3 / (dw as int),
                    (q / 3) % (dw as int),
                    q % 3,
                ),
        decreases h - sy,
    {
        let mut x: usize = 0;
        proof {
            assert((sy * dw + 0) * 3 == sy * dw * 3);
        }
        while x < dw
            invariant
                n == src@.len(),
                n == w * h * 3,
                wi == w,
                hi == h,
                1 <= w <= i32::MAX,
                1 <= h <= i32::MAX,
                dw == half(wi),
                width0 <= dw,
                forall|z: int| 0 <= z < dw && z >= width0 ==> #[trigger] (width0 + z) == 2 * z,
                sy < h,
                x <= dw,
                within(src@, -32768, 32767),
                rows@.len() == (sy * dw + x) * 3,
                forall|q: int|
                    0 <= q < rows@.len() ==> #[trigger] rows@[q] == down_row(
                        src@,
                        wi,
                        q / 3 / (dw as int),
                        (q / 3) % (dw as int),
                        q % 3,
                    ),
            decreases dw - x,
        {
            let cols: [usize; 5] = pyr_down_cols(x, w, width0);
            proof {
                if x >= width0 {
                    assert(width0 + x == 2 * x);
                }
                assert(cols@[0] == mirror101(2 * x - 2, wi));
                assert(cols@[1] == mirror101(2 * x - 1, wi));
                assert(cols@[2] == mirror101(2 * x + 0, wi));
                assert(cols@[3] == mirror101(2 * x + 1, wi));
                assert(cols@[4] == mirror101(2 * x + 2, wi));
                crate::imgproc::lemma_index(0, sy as int, wi, hi);
                assert(w * h * 3 <= usize::MAX);
            }
            let base: usize = sy * w;
            let mut c: usize = 0;
            while c < 3
                invariant
                    n == src@.len(),
                    n == w * h * 3,
                    wi == w,
                    hi == h,
                    dw == half(wi),
                    1 <= wi,
                    1 <= hi,
                    sy < h,
                    x < dw,
                    c <= 3,
                    base == sy * w,
                    cols@[0] == mirror101(2 * x - 2, wi),
                    cols@[1] == mirror101(2 * x - 1, wi),
                    cols@[2] == mirror101(2 * x, wi),
                    cols@[3] == mirror101(2 * x + 1, wi),
                    cols@[4] == mirror101(2 * x + 2, wi),
                    within(src@, -32768, 32767),
                    rows@.len() == (sy * dw + x) * 3 + c,
                    forall|q: int|
                        0 <= q < rows@.len() ==> #[trigger] rows@[q] == down_row(
                            src@,
                            wi,
                            q / 3 / (dw as int),
                            (q / 3) % (dw as int),
                            q % 3,
                        ),
                decreases 3 - c,
            {
                proof {
                    let (x2, s, ci) = (2 * x, sy as int, c as int);
                    lemma_mirror101_range(x2 - 2, wi);
                    lemma_mirror101_range(x2 - 1, wi);
                    lemma_mirror101_range(x2, wi);
                    lemma_mirror101_range(x2 + 1, wi);
                    lemma_mirror101_range(x2 + 2, wi);
                    lemma_plane(cols@[0] as int, s, ci, wi, hi);
                    lemma_plane(cols@[1] as int, s, ci, wi, hi);
                    lemma_plane(cols@[2] as int, s, ci, wi, hi);
                    lemma_plane(cols@[3] as int, s, ci, wi, hi);
                    lemma_plane(cols@[4] as int, s, ci, wi, hi);
                    lemma_plane(x as int, s, ci, dw as int, hi);
                }
                let v: i32 = src[(base + cols[2]) * 3 + c] as i32 * 6 + (src[(base + cols[1]) * 3
                    + c] as i32 + src[(base + cols[3]) * 3 + c] as i32) * 4 + src[(base + cols[0])
                    * 3 + c] as i32 + src[(base + cols[4]) * 3 + c] as i32;
                assert(v == down_row(src@, wi, sy as int, x as int, c as int));
                rows.push(v);
                c = c + 1;
            }
            x = x + 1;
        }
        proof {
            assert((sy + 1) * dw == sy * dw + dw) by (nonlinear_arith);
        }
        sy = sy + 1;
    }
    // Vertical pass.
    let mut out: Vec<i16> = Vec::new();
    let mut y: usize = 0;
    let line: usize = dw * 3;
    assert(0 * line == 0) by (nonlinear_arith);
    proof {
        assert(h * dw * 3 == rows@.len());
    }
    while y < dh
        invariant
            n == src@.len(),
            n == w * h * 3,
            wi == w,
            hi == h,
            1 <= w <= i32::MAX,
            1 <= h <= i32::MAX,
            dw == half(wi),
            dh == half(hi),
            line == dw * 3,
            y <= dh,
            within(src@, -32768, 32767),
            rows@.len() == h * dw * 3,
            forall|q: int|
                0 <= q < rows@.len() ==> #[trigger] rows@[q] == down_row(
                    src@,
                    wi,
                    q / 3 / (dw as int),
                    (q / 3) % (dw as int),
                    q % 3,
                ),
            out@.len() == y * line,
            forall|q: int|
                0 <= q < out@.len() ==> #[trigger] out@[q] == down_px(
                    src@,
                    wi,
                    hi,
                    (q / 3) % (dw as int),
                    q / 3 / (dw as int),
                    q % 3,
                ),
        decreases dh - y,
    {
        let hl: i64 = h as i64;
        let y2: i64 = 2 * y as i64;
        let r0: usize = reflected(y2 - 2, hl, 1) as usize;
        let r1: usize = reflected(y2 - 1, hl, 1) as usize;
        let r2: usize = reflected(y2, hl, 1) as usize;
        let r3: usize = reflected(y2 + 1, hl, 1) as usize;
        let r4: usize = reflected(y2 + 2, hl, 1) as usize;
        let mut i: usize = 0;
        while i < line
            invariant
                wi == w,
                hi == h,
                n == src@.len(),
                n == w * h * 3,
                1 <= w,
                1 <= h,
                dw == half(wi),
                dh == half(hi),
                line == dw * 3,
                y < dh,
                i <= line,
                r0 == mirror101(2 * y - 2, hi),
                r1 == mirror101(2 * y - 1, hi),
                r2 == mirror101(2 * y, hi),
                r3 == mirror101(2 * y + 1, hi),
                r4 == mirror101(2 * y + 2, hi),
                r0 < h,
                r1 < h,
                r2 < h,
                r3 < h,
                r4 < h,
                within(src@, -32768, 32767),
                rows@.len() == h * dw * 3,
                forall|q: int|
                    0 <= q < rows@.len() ==> #[trigger] rows@[q] == down_row(
                        src@,
                        wi,
                        q / 3 / (dw as int),
                        (q / 3) % (dw as int),
                        q % 3,
                    ),
                out@.len() == y * line + i,
                forall|q: int|
                    0 <= q < out@.len() ==> #[trigger] out@[q] == down_px(
                        src@,
                        wi,
                        hi,
                        (q / 3) % (dw as int),
                        q / 3 / (dw as int),
                        q % 3,
                    ),
            decreases line - i,
        {
            let ghost (x, c) = (i as int / 3, i as int % 3);
            let ghost dwi = dw as int;
            proof {
                lemma_plane(x, r0 as int, c, dwi, hi);
                lemma_plane(x, r1 as int, c, dwi, hi);
                lemma_plane(x, r2 as int, c, dwi, hi);
                lemma_plane(x, r3 as int, c, dwi, hi);
                lemma_plane(x, r4 as int, c, dwi, hi);
                lemma_plane(x, y as int, c, dwi, dh as int);
                lemma_line(r0 as int, dwi, i as int);
                lemma_line(r1 as int, dwi, i as int);
                lemma_line(r2 as int, dwi, i as int);
                lemma_line(r3 as int, dwi, i as int);
                lemma_line(r4 as int, dwi, i as int);
                lemma_line(y as int, dwi, i as int);
                assert(hi * dwi * 3 == dwi * hi * 3) by (nonlinear_arith);
                assert(rows@.len() == rows.len());
                lemma_down_row_range(src@, wi, hi, r0 as int, x, c, -32768, 32767);
                lemma_down_row_range(src@, wi, hi, r1 as int, x, c, -32768, 32767);
                lemma_down_row_range(src@, wi, hi, r2 as int, x, c, -32768, 32767);
                lemma_down_row_range(src@, wi, hi, r3 as int, x, c, -32768, 32767);
                lemma_down_row_range(src@, wi, hi, r4 as int, x, c, -32768, 32767);
                lemma_down_range(src@, wi, hi, x, y as int, c, -32768, 32767);
            }
            let acc: i32 = rows[r2 * line + i] * 6 + (rows[r1 * line + i] + rows[r3 * line + i]) * 4
                + rows[r0 * line + i] + rows[r4 * line + i];
            assert(acc == down_sum(src@, wi, hi, x, y as int, c));
            out.push(round_256(acc));
            i = i + 1;
        }
        proof {
            assert((y + 1) * line == y * line + line) by (nonlinear_arith);
        }
        y = y + 1;
    }
    proof {
        let dwi = dw as int;
        assert(dh * line == dw * dh * 3) by (nonlinear_arith)
            requires
                line == dw * 3,
        ;
        assert forall|x: int, y: int, c: int| 0 <= x < dw && 0 <= y < dh && 0 <= c < 3 implies #[trigger] px3(
            out@,
            dwi,
            x,
            y,
            c,
        ) == down_px(src@, wi, hi, x, y, c) by {
            lemma_plane(x, y, c, dwi, dh as int);
            let q = (y * dwi + x) * 3 + c;
            assert(out@[q] == down_px(src@, wi, hi, (q / 3) % dwi, q / 3 / dwi, q % 3));
        }
    }
    (out, dw, dh)
}

/// Entry `i` of line `y` is a component of its pixel `i / 3`.
proof fn lemma_line(y: int, w: int, i: int)
    ensures
        y * (w * 3) + i == (y * w + i / 3) * 3 + i % 3,
{
    assert(y * (w * 3) == (y * w) * 3) by (nonlinear_arith);
}

/// A line of `s` pixels can be doubled to `d` pixels.
pub open spec fn doubles(s: int, d: int) -> bool {
    d == 2 * s || d == 2 * s - 1 || d == 2 * s + 1
}

/// Horizontal sum, of total weight 8, for doubled column `x` of source row
/// `sy`. The last source column stands in for those beyond it.
pub open spec fn up_row(src: Seq<i16>, w: int, sy: int, x: int, c: int) -> int {
    let k = x / 2;
    if w == 1 {
        px3(src, w, 0, sy, c) * 8
    } else if x >= 2 * w - 1 {
        px3(src, w, w - 1, sy, c) * 8
    } else if x % 2 == 1 {
        (px3(src, w, k, sy, c) + px3(src, w, k + 1, sy, c)) * 4
    } else if k == 0 {
        px3(src, w, 0, sy, c) * 6 + px3(src, w, 1, sy, c) * 2
    } else if k == w - 1 {
        px3(src, w, w - 2, sy, c) + px3(src, w, w - 1, sy, c) * 7
    } else {
        px3(src, w, k - 1, sy, c) + px3(src, w, k, sy, c) * 6 + px3(src, w, k + 1, sy, c)
    }
}

/// Source row that stands for row `y`, mirrored in the doubled plane.
pub open spec fn up_src_row(y: int, h: int) -> int {
    mirror101(2 * y, 2 * h) / 2
}

/// Weighted sum, of total weight 64, for pixel (`x`, `y`) of the doubled
/// plane. A row beyond twice the source repeats the last even row.
pub open spec fn up_sum(src: Seq<i16>, w: int, h: int, x: int, y: int, c: int) -> int {
    let r = if y >= 2 * h { 2 * h - 2 } else { y };
    let k = r / 2;
    if r % 2 == 0 {
        up_row(src, w, up_src_row(k - 1, h), x, c) + up_row(src, w, k, x, c) * 6 + up_row(
            src,
            w,
            up_src_row(k + 1, h),
            x,
            c,
        )
    } else {
        (up_row(src, w, k, x, c) + up_row(src, w, up_src_row(k + 1, h), x, c)) * 4
    }
}

/// Pixel (`x`, `y`) of the doubled plane: the weighted mean, rounded to the
/// nearest integer.
pub open spec fn up_px(src: Seq<i16>, w: int, h: int, x: int, y: int, c: int) -> int {
    (up_sum(src, w, h, x, y, c) + 32) / 64
}

proof fn lemma_up_src_row(y: int, h: int)
    requires
        1 <= h,
    ensures
        0 <= up_src_row(y, h) < h,
        0 <= y < h ==> up_src_row(y, h) == y,
{
    lemma_mirror101_range(2 * y, 2 * h);
}

proof fn lemma_px_range_at(
    src: Seq<i16>,
    w: int,
    h: int,
    x: int,
    y: int,
    c: int,
    lo: int,
    hi: int,
)
    requires
        src.len() == w * h * 3,
        0 <= c < 3,
        0 <= x < w,
        0 <= y < h,
        within(src, lo, hi),
    ensures
        lo <= px3(src, w, x, y, c) <= hi,
{
    lemma_plane(x, y, c, w, h);
}

proof fn lemma_up_row_range(
    src: Seq<i16>,
    w: int,
    h: int,
    sy: int,
    x: int,
    c: int,
    lo: int,
    hi: int,
)
    requires
        1 <= w,
        src.len() == w * h * 3,
        0 <= sy < h,
        0 <= x,
        0 <= c < 3,
        within(src, lo, hi),
    ensures
        8 * lo <= up_row(src, w, sy, x, c) <= 8 * hi,
{
    let k = x / 2;
    lemma_px_range_at(src, w, h, 0, sy, c, lo, hi);
    lemma_px_range_at(src, w, h, w - 1, sy, c, lo, hi);
    if w > 1 {
        lemma_px_range_at(src, w, h, 1, sy, c, lo, hi);
        lemma_px_range_at(src, w, h, w - 2, sy, c, lo, hi);
        if k < w {
            lemma_px_range_at(src, w, h, k, sy, c, lo, hi);
        }
        if 1 <= k <= w {
            lemma_px_range_at(src, w, h, k - 1, sy, c, lo, hi);
        }
        if k + 1 < w {
            lemma_px_range_at(src, w, h, k + 1, sy, c, lo, hi);
        }
    }
}

/// The doubled plane stays within the range of the plane.
pub proof fn lemma_up_range(
    src: Seq<i16>,
    w: int,
    h: int,
    x: int,
    y: int,
    c: int,
    lo: int,
    hi: int,
)
    requires
        1 <= w,
        1 <= h,
        src.len() == w * h * 3,
        0 <= x,
        0 <= y,
        0 <= c < 3,
        within(src, lo, hi),
    ensures
        64 * lo <= up_sum(src, w, h, x, y, c) <= 64 * hi,
        lo <= up_px(src, w, h, x, y, c) <= hi,
{
    let r = if y >= 2 * h { 2 * h - 2 } else { y };
    let k = r / 2;
    lemma_up_src_row(k - 1, h);
    lemma_up_src_row(k + 1, h);
    lemma_up_row_range(src, w, h, up_src_row(k - 1, h), x, c, lo, hi);
    lemma_up_row_range(src, w, h, k, x, c, lo, hi);
    lemma_up_row_range(src, w, h, up_src_row(k + 1, h), x, c, lo, hi);
}

/// A flat plane stays flat, halved or doubled.
pub proof fn lemma_flat(src: Seq<i16>, w: int, h: int, x: int, y: int, c: int, v: int)
    requires
        1 <= w,
        1 <= h,
        src.len() == w * h * 3,
        0 <= x,
        0 <= y,
        0 <= c < 3,
        within(src, v, v),
    ensures
        down_px(src, w, h, x, y, c) == v,
        up_px(src, w, h, x, y, c) == v,
{
    lemma_down_range(src, w, h, x, y, c, v, v);
    lemma_up_range(src, w, h, x, y, c, v, v);
}

/// Horizontal sum for doubled column `x`; `base` is where the source row
/// starts.
#[verifier::spinoff_prover]
fn up_row_at(src: &[i16], w: usize, base: usize, x: usize, c: usize, Ghost(sy): Ghost<int>, Ghost(h): Ghost<int>) -> (v:
    i32)
    requires
        1 <= w <= 0x3fff_ffff,
        src@.len() == w * h * 3,
        0 <= sy < h,
        c < 3,
        base == sy * w,
        x <= 2 * w,
    ensures
        v == up_row(src@, w as int, sy, x as int, c as int),
{
    let ghost wi = w as int;
    let k: usize = x / 2;
    proof {
        assert(src@.len() == src.len());
        lemma_plane(0, sy, c as int, wi, h);
        lemma_plane(wi - 1, sy, c as int, wi, h);
        if w > 1 {
            lemma_plane(1, sy, c as int, wi, h);
            lemma_plane(wi - 2, sy, c as int, wi, h);
            if k < w {
                lemma_plane(k as int, sy, c as int, wi, h);
            }
            if 1 <= k <= w {
                lemma_plane(k - 1, sy, c as int, wi, h);
            }
            if k + 1 < w {
                lemma_plane(k + 1, sy, c as int, wi, h);
            }
        }
    }
    if w == 1 {
        src[base * 3 + c] as i32 * 8
    } else if x >= 2 * w - 1 {
        src[(base + (w - 1)) * 3 + c] as i32 * 8
    } else if x % 2 == 1 {
        (src[(base + k) * 3 + c] as i32 + src[(base + (k + 1)) * 3 + c] as i32) * 4
    } else if k == 0 {
        src[base * 3 + c] as i32 * 6 + src[(base + 1) * 3 + c] as i32 * 2
    } else if k == w - 1 {
        src[(base + (w - 2)) * 3 + c] as i32 + src[(base + (w - 1)) * 3 + c] as i32 * 7
    } else {
        src[(base + (k - 1)) * 3 + c] as i32 + src[(base + k) * 3 + c] as i32 * 6 + src[(base + (k
            + 1)) * 3 + c] as i32
    }
}

/// Doubles a plane to `dw` by `dh` pixels.
#[verifier::spinoff_prover]
#[verifier::rlimit(40)]
pub fn pyr_up_i16c3(src: &[i16], w: usize, h: usize, dw: usize, dh: usize) -> (out: Vec<i16>)
    requires
        src@.len() == w * h * 3,
        1 <= w <= 0x3fff_ffff,
        1 <= h <= 0x3fff_ffff,
        doubles(w as int, dw as int),
        doubles(h as int, dh as int),
        w == 1 ==> dw <= 2,
    ensures
        out@.len() == dw * dh * 3,
        forall|x: int, y: int, c: int|
            0 <= x < dw && 0 <= y < dh && 0 <= c < 3 ==> #[trigger] px3(out@, dw as int, x, y, c)
                == up_px(src@, w as int, h as int, x, y, c),
{
    let ghost (wi, hi) = (w as int, h as int);
    let ghost (dwi, dhi) = (dw as int, dh as int);
    let mut rows: Vec<i32> = Vec::new();
    let mut sy: usize = 0;
    assert(within(src@, -32768, 32767));
    assert(0 * (dw * 3) == 0) by (nonlinear_arith);
    while sy < h
        invariant
            src@.len() == w * h * 3,
            wi == w,
            hi == h,
            dwi == dw,
            1 <= w <= 0x3fff_ffff,
            1 <= h <= 0x3fff_ffff,
            doubles(wi, dwi),
            sy <= h,
            within(src@, -32768, 32767),
            rows@.len() == sy * dw * 3,
            forall|q: int|
                0 <= q < rows@.len() ==> #[trigger] rows@[q] == up_row(
                    src@,
                    wi,
                    q / 3 / dwi,
                    (q / 3) % dwi,
                    q % 3,
                ),
        decreases h - sy,
    {
        let mut x: usize = 0;
        proof {
            crate::imgproc::lemma_index(0, sy as int, wi, hi);
            assert(src@.len() == src.len());
        }
        let base: usize = sy * w;
        while x < dw
            invariant
                src@.len() == w * h * 3,
                wi == w,
                hi == h,
                dwi == dw,
                1 <= w <= 0x3fff_ffff,
                1 <= h <= 0x3fff_ffff,
                doubles(wi, dwi),
                sy < h,
                base == sy * w,
                x <= dw,
                rows@.len() == (sy * dw + x) * 3,
                forall|q: int|
                    0 <= q < rows@.len() ==> #[trigger] rows@[q] == up_row(
                        src@,
                        wi,
                        q / 3 / dwi,
                        (q / 3) % dwi,
                        q % 3,
                    ),
            decreases dw - x,
        {
            let mut c: usize = 0;
            while c < 3
                invariant
                    src@.len() == w * h * 3,
                    wi == w,
                    hi == h,
                    dwi == dw,
                    1 <= w <= 0x3fff_ffff,
                    1 <= h <= 0x3fff_ffff,
                    doubles(wi, dwi),
                    sy < h,
                    base == sy * w,
                    x < dw,
                    c <= 3,
                    rows@.len() == (sy * dw + x) * 3 + c,
                    forall|q: int|
                        0 <= q < rows@.len() ==> #[trigger] rows@[q] == up_row(
                            src@,
                            wi,
                            q / 3 / dwi,
                            (q / 3) % dwi,
                            q % 3,
                        ),
                decreases 3 - c,
            {
                proof {
                    lemma_plane(x as int, sy as int, c as int, dwi, hi);
                }
                let v: i32 = up_row_at(src, w, base, x, c, Ghost(sy as int), Ghost(hi));
                rows.push(v);
                c = c + 1;
            }
            x = x + 1;
        }
        proof {
            assert((sy + 1) * dw == sy * dw + dw) by (nonlinear_arith);
        }
        sy = sy + 1;
    }
    let mut out: Vec<i16> = Vec::new();
    proof {
        assert(rows@.len() == rows.len());
        assert(dw * 3 <= h * dw * 3) by (nonlinear_arith)
            requires
                1 <= h,
                0 <= dw,
        ;
    }
    let line: usize = dw * 3;
    let mut y: usize = 0;
    assert(0 * line == 0) by (nonlinear_arith);
    while y < dh
        invariant
            src@.len() == w * h * 3,
            wi == w,
            hi == h,
            dwi == dw,
            dhi == dh,
            1 <= w <= 0x3fff_ffff,
            1 <= h <= 0x3fff_ffff,
            doubles(wi, dwi),
            doubles(hi, dhi),
            line == dw * 3,
            y <= dh,
            within(src@, -32768, 32767),
            rows@.len() == h * dw * 3,
            forall|q: int|
                0 <= q < rows@.len() ==> #[trigger] rows@[q] == up_row(
                    src@,
                    wi,
                    q / 3 / dwi,
                    (q / 3) % dwi,
                    q % 3,
                ),
            out@.len() == y * line,
            forall|q: int|
                0 <= q < out@.len() ==> #[trigger] out@[q] == up_px(
                    src@,
                    wi,
                    hi,
                    (q / 3) % dwi,
                    q / 3 / dwi,
                    q % 3,
                ),
        decreases dh - y,
    {
        let r: usize = if y >= 2 * h { 2 * h - 2 } else { y };
        let k: usize = r / 2;
        let even: bool = r % 2 == 0;
        let hl: i32 = 2 * h as i32;
        let r0: usize = (border_interpolate_reflect(2 * (k as i32 - 1), hl, 1) / 2) as usize;
        let r2: usize = (border_interpolate_reflect(2 * (k as i32 + 1), hl, 1) / 2) as usize;
        proof {
            lemma_up_src_row(k - 1, hi);
            lemma_up_src_row(k + 1, hi);
            assert(r0 == up_src_row(k - 1, hi));
            assert(r2 == up_src_row(k + 1, hi));
        }
        let mut i: usize = 0;
        while i < line
            invariant
                src@.len() == w * h * 3,
                wi == w,
                hi == h,
                dwi == dw,
                dhi == dh,
                1 <= w <= 0x3fff_ffff,
                1 <= h <= 0x3fff_ffff,
                doubles(wi, dwi),
                doubles(hi, dhi),
                line == dw * 3,
                y < dh,
                i <= line,
                r == if y >= 2 * h { 2 * h - 2 } else { y as int },
                k == r / 2,
                even == (r % 2 == 0),
                r0 == up_src_row(k - 1, hi),
                r2 == up_src_row(k + 1, hi),
                r0 < h,
                r2 < h,
                k < h,
                within(src@, -32768, 32767),
                rows@.len() == h * dw * 3,
                forall|q: int|
                    0 <= q < rows@.len() ==> #[trigger] rows@[q] == up_row(
                        src@,
                        wi,
                        q / 3 / dwi,
                        (q / 3) % dwi,
                        q % 3,
                    ),
                out@.len() == y * line + i,
                forall|q: int|
                    0 <= q < out@.len() ==> #[trigger] out@[q] == up_px(
                        src@,
                        wi,
                        hi,
                        (q / 3) % dwi,
                        q / 3 / dwi,
                        q % 3,
                    ),
            decreases line - i,
        {
            let ghost (x, c) = (i as int / 3, i as int % 3);
            proof {
                lemma_plane(x, r0 as int, c, dwi, hi);
                lemma_plane(x, k as int, c, dwi, hi);
                lemma_plane(x, r2 as int, c, dwi, hi);
                lemma_plane(x, y as int, c, dwi, dhi);
                lemma_line(r0 as int, dwi, i as int);
                lemma_line(k as int, dwi, i as int);
                lemma_line(r2 as int, dwi, i as int);
                lemma_line(y as int, dwi, i as int);
                assert(hi * dwi * 3 == dwi * hi * 3) by (nonlinear_arith);
                assert(rows@.len() == rows.len());
                lemma_up_row_range(src@, wi, hi, r0 as int, x, c, -32768, 32767);
                lemma_up_row_range(src@, wi, hi, k as int, x, c, -32768, 32767);
                lemma_up_row_range(src@, wi, hi, r2 as int, x, c, -32768, 32767);
                lemma_up_range(src@, wi, hi, x, y as int, c, -32768, 32767);
            }
            let acc: i32 = if even {
                rows[r0 * line + i] + rows[k * line + i] * 6 + rows[r2 * line + i]
            } else {
                (rows[k * line + i] + rows[r2 * line + i]) * 4
            };
            assert(acc == up_sum(src@, wi, hi, x, y as int, c));
            out.push(round_64(acc));
            i = i + 1;
        }
        proof {
            assert((y + 1) * line == y * line + line) by (nonlinear_arith);
        }
        y = y + 1;
    }
    proof {
        assert(dh * line == dw * dh * 3) by (nonlinear_arith)
            requires
                line == dw * 3,
        ;
        assert forall|x: int, y: int, c: int| 0 <= x < dw && 0 <= y < dh && 0 <= c < 3 implies #[trigger] px3(
            out@,
            dwi,
            x,
            y,
            c,
        ) == up_px(src@, wi, hi, x, y, c) by {
            lemma_plane(x, y, c, dwi, dhi);
            let q = (y * dwi + x) * 3 + c;
            assert(out@[q] == up_px(src@, wi, hi, (q / 3) % dwi, q / 3 / dwi, q % 3));
        }
    }
    out
}

} // verus!
