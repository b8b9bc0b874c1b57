//! Multi-band blending without its weights: how an image is fitted into the
//! band grid, split into Laplacian bands, and put together again.

use crate::border::mirror;
use crate::imgproc::GrayImage;
use crate::pyramid::border_interpolate_reflect;
use crate::pyramid::doubles;
use crate::pyramid::down_px;
use crate::pyramid::half;
use crate::pyramid::lemma_down_range;
use crate::pyramid::lemma_plane;
use crate::pyramid::lemma_plane_split;
use crate::pyramid::lemma_up_range;
use crate::pyramid::px3;
use crate::pyramid::pyr_down_i16c3;
use crate::pyramid::pyr_up_i16c3;
use crate::pyramid::up_px;
use crate::pyramid::within;
use vstd::arithmetic::power2::pow2;
use vstd::prelude::*;

verus! {

/// `k` doublings of 1 are the fewest that reach `n`.
pub open spec fn is_ceil_log2(n: int, k: nat) -> bool {
    n <= pow2(k) && (k == 0 || pow2((k - 1) as nat) < n)
}

proof fn lemma_pow2_double(k: nat)
    ensures
        pow2(k + 1) == 2 * pow2(k),
        pow2(k) >= 1,
{
    vstd::arithmetic::power2::lemma_pow2_unfold(k + 1);
    vstd::arithmetic::power2::lemma_pow2_pos(k);
}

proof fn lemma_pow2_monotone(a: nat, b: nat)
    requires
        a <= b,
    ensures
        pow2(a) <= pow2(b),
    decreases b,
{
    if a < b {
        lemma_pow2_monotone(a, (b - 1) as nat);
        lemma_pow2_double((b - 1) as nat);
    }
}

fn ceil_log2(n: usize) -> (k: usize)
    requires
        1 <= n <= 0x8000_0000,
    ensures
        is_ceil_log2(n as int, k as nat),
        k <= 31,
{
    let mut k: usize = 0;
    let mut p: usize = 1;
    proof {
        vstd::arithmetic::power2::lemma2_to64();
    }
    while p < n
        invariant
            1 <= n <= 0x8000_0000,
            p == pow2(k as nat),
            k == 0 || pow2((k - 1) as nat) < n,
            k <= 31,
            k == 31 ==> p >= 0x8000_0000,
            p <= 0x8000_0000,
            pow2(31) == 0x8000_0000,
        decreases 31 - k,
    {
        proof {
            lemma_pow2_double(k as nat);
            lemma_pow2_monotone((k + 1) as nat, 31);
        }
        p = p * 2;
        k = k + 1;
    }
    k
}

/// `2^k`.
fn pow2_of(k: usize) -> (p: u64)
    requires
        k <= 31,
    ensures
        p == pow2(k as nat),
        1 <= p <= 0x8000_0000,
{
    let mut i: usize = 0;
    let mut p: u64 = 1;
    proof {
        vstd::arithmetic::power2::lemma2_to64();
        lemma_pow2_monotone(k as nat, 31);
    }
    while i < k
        invariant
            k <= 31,
            i <= k,
            p == pow2(i as nat),
            pow2(k as nat) <= 0x8000_0000,
            p >= 1,
        decreases k - i,
    {
        proof {
            lemma_pow2_double(i as nat);
            lemma_pow2_monotone((i + 1) as nat, k as nat);
        }
        p = p * 2;
        i = i + 1;
    }
    p
}

/// The grid that all bands share: the panorama's rectangle, and the same with
/// its extents rounded up so that every level halves evenly.
#[derive(Debug, Clone, Copy, PartialEq, Eq)]
pub struct BandLayout {
    pub num_bands: usize,
    /// Padded rectangle (x, y, width, height).
    pub roi: (i32, i32, usize, usize),
    /// Rectangle of the panorama.
    pub roi_final: (i32, i32, usize, usize),
}

/// `p` is the smallest multiple of `step` that is at least `n`.
pub open spec fn is_padded(n: int, step: int, p: int) -> bool {
    p % step == 0 && n <= p < n + step
}

impl BandLayout {
    pub open spec fn wf(&self) -> bool {
        let step = pow2(self.num_bands as nat) as int;
        &&& self.num_bands <= 31
        &&& self.roi.0 == self.roi_final.0
        &&& self.roi.1 == self.roi_final.1
        &&& 1 <= self.roi_final.2 <= i32::MAX
        &&& 1 <= self.roi_final.3 <= i32::MAX
        &&& is_padded(self.roi_final.2 as int, step, self.roi.2 as int)
        &&& is_padded(self.roi_final.3 as int, step, self.roi.3 as int)
    }

    /// Lays out at most `max_bands` bands over a panorama of `w` by `h`
    /// pixels at (`x`, `y`): as many as it takes to halve its longer side to
    /// one pixel, if that is fewer.
    pub fn prepare(max_bands: usize, x: i32, y: i32, w: usize, h: usize) -> (l: Self)
        requires
            1 <= w <= i32::MAX,
            1 <= h <= i32::MAX,
        ensures
            l.wf(),
            l.roi_final == (x, y, w, h),
            exists|k: nat| #[trigger]
                is_ceil_log2(at_least(w as int, h as int), k) && l.num_bands == if max_bands < k {
                    max_bands as int
                } else {
                    k as int
                },
    {
        let most: usize = ceil_log2(if w >= h { w } else { h });
        let num_bands: usize = if max_bands < most { max_bands } else { most };
        let step: u64 = pow2_of(num_bands);
        let w_pad: usize = pad_to(w, step as usize);
        let h_pad: usize = pad_to(h, step as usize);
        assert(is_ceil_log2(at_least(w as int, h as int), most as nat));
        BandLayout { num_bands, roi: (x, y, w_pad, h_pad), roi_final: (x, y, w, h) }
    }
}

fn pad_to(n: usize, step: usize) -> (p: usize)
    requires
        1 <= step <= 0x8000_0000,
        n <= i32::MAX,
    ensures
        is_padded(n as int, step as int, p as int),
{
    let p: usize = n + (step - n % step) % step;
    proof {
        let (a, s) = (n as int, step as int);
        let r = a % s;
        vstd::arithmetic::div_mod::lemma_fundamental_div_mod(a, s);
        if r == 0 {
            vstd::arithmetic::div_mod::lemma_mod_self_0(s);
        } else {
            vstd::arithmetic::div_mod::lemma_small_mod((s - r) as nat, s as nat);
            let q = a / s;
            assert(a + (s - r) == (q + 1) * s) by (nonlinear_arith)
                requires
                    a == s * q + r,
            ;
            vstd::arithmetic::div_mod::lemma_fundamental_div_mod_converse(p as int, s, q + 1, 0);
        }
    }
    p
}

/// Size of a side after `i` halvings.
pub open spec fn level_size(n: int, i: nat) -> int
    decreases i,
{
    if i == 0 { n } else { half(level_size(n, (i - 1) as nat)) }
}

/// A side padded for `nb` bands halves without remainder on every level.
pub proof fn lemma_level_even(n: int, nb: nat, i: nat)
    requires
        n % (pow2(nb) as int) == 0,
        i <= nb,
    ensures
        level_size(n, i) * pow2(i) == n,
        level_size(n, i) % (pow2((nb - i) as nat) as int) == 0,
    decreases i,
{
    if i == 0 {
        vstd::arithmetic::power2::lemma2_to64();
        assert(n * 1 == n);
    } else {
        let j = (i - 1) as nat;
        lemma_level_even(n, nb, j);
        lemma_pow2_double(j);
        let m = level_size(n, j);
        let t = pow2((nb - i) as nat) as int;
        lemma_pow2_double((nb - i) as nat);
        assert((nb - i) as nat + 1 == (nb - j) as nat);
        let q = m / (2 * t);
        vstd::arithmetic::div_mod::lemma_fundamental_div_mod(m, 2 * t);
        assert(m == 2 * (q * t)) by (nonlinear_arith)
            requires
                m == (2 * t) * q + 0,
        ;
        assert(half(m) == q * t);
        vstd::arithmetic::div_mod::lemma_fundamental_div_mod_converse(q * t, t, q, 0);
        assert((q * t) * (2 * pow2(j)) == (2 * (q * t)) * pow2(j)) by (nonlinear_arith);
    }
}

/// Where an image lies in the band grid, in pixels from the grid's origin:
/// the snapped rectangle from (`x0`, `y0`) to (`x1`, `y1`), and how far inside
/// it the image starts.
#[derive(Debug, Clone, Copy, PartialEq, Eq, Structural)]
pub struct FeedWindow {
    pub x0: usize,
    pub y0: usize,
    pub x1: usize,
    pub y1: usize,
    pub left: usize,
    pub top: usize,
}

pub open spec fn at_least(a: int, b: int) -> int {
    if a >= b { a } else { b }
}

pub open spec fn at_most(a: int, b: int) -> int {
    if a <= b { a } else { b }
}

/// Start of the snapped range of a line of `n` pixels at `a` in a grid that
/// starts at `r0`: three blocks before the line, but not before the grid, and
/// down to the next block boundary.
pub open spec fn snap_start(r0: int, step: int, a: int) -> int {
    step * ((at_least(r0, a - 3 * step) - r0) / step)
}

/// End of the snapped range: three blocks behind the line, but not behind the
/// grid, and up to the next block boundary.
pub open spec fn snap_end(r0: int, len: int, step: int, a: int, n: int) -> int {
    let lo = snap_start(r0, step, a);
    lo + step * ((at_most(r0 + len, a + n + 3 * step) - r0 - lo + step - 1) / step)
}

/// The snapped range covers the line, stays inside the grid, and starts and
/// ends on block boundaries.
pub proof fn lemma_snap(r0: int, len: int, step: int, a: int, n: int)
    requires
        step >= 1,
        len % step == 0,
        r0 <= a,
        0 <= n,
        a + n <= r0 + len,
    ensures
        0 <= snap_start(r0, step, a) <= a - r0,
        a + n - r0 <= snap_end(r0, len, step, a, n) <= len,
        snap_start(r0, step, a) % step == 0,
        snap_end(r0, len, step, a, n) % step == 0,
        snap_start(r0, step, a) <= snap_end(r0, len, step, a, n),
{
    let t = at_least(r0, a - 3 * step) - r0;
    let q = t / step;
    let lo = snap_start(r0, step, a);
    vstd::arithmetic::div_mod::lemma_fundamental_div_mod(t, step);
    assert(q >= 0) by (nonlinear_arith)
        requires
            t == step * q + t % step,
            t % step < step,
            t >= 0,
            step >= 1,
    ;
    assert(0 <= step * q) by (nonlinear_arith)
        requires
            q >= 0,
            step >= 1,
    ;
    let v = at_most(r0 + len, a + n + 3 * step) - r0 - lo;
    let c = (v + step - 1) / step;
    vstd::arithmetic::div_mod::lemma_fundamental_div_mod(v + step - 1, step);
    let e = len / step;
    vstd::arithmetic::div_mod::lemma_fundamental_div_mod(len, step);
    assert(step * c >= v);
    assert(step * c < v + step);
    assert(c <= e - q) by (nonlinear_arith)
        requires
            step * c < v + step,
            v <= len - lo,
            len == step * e + 0,
            lo == step * q,
            step >= 1,
    ;
    assert(step * c <= step * (e - q)) by (nonlinear_arith)
        requires
            c <= e - q,
            step >= 1,
    ;
    assert(step * (e - q) == len - lo) by (nonlinear_arith)
        requires
            len == step * e,
            lo == step * q,
    ;
    vstd::arithmetic::div_mod::lemma_fundamental_div_mod_converse(lo, step, q, 0);
    assert(lo + step * c == step * (q + c)) by (nonlinear_arith)
        requires
            lo == step * q,
    ;
    vstd::arithmetic::div_mod::lemma_fundamental_div_mod_converse(lo + step * c, step, q + c, 0);
    assert(q * step == step * q) by (nonlinear_arith);
    assert((q + c) * step == step * (q + c)) by (nonlinear_arith);
}

/// The snapped range of one axis.
fn snap(r0: i32, len: usize, step: u64, a: i32, n: usize) -> (r: (usize, usize))
    requires
        1 <= step <= 0x8000_0000,
        len as int % step as int == 0,
        len <= u32::MAX,
        r0 <= a,
        a + n <= r0 + len,
    ensures
        r.0 == snap_start(r0 as int, step as int, a as int),
        r.1 == snap_end(r0 as int, len as int, step as int, a as int, n as int),
{
    proof {
        lemma_snap(r0 as int, len as int, step as int, a as int, n as int);
    }
    let s: i64 = step as i64;
    let (r, k): (i64, i64) = (r0 as i64, a as i64);
    let t: i64 = if r >= k - 3 * s { r } else { k - 3 * s };
    let b: i64 = if r + len as i64 <= k + n as i64 + 3 * s {
        r + len as i64
    } else {
        k + n as i64 + 3 * s
    };
    proof {
        let (ti, si) = (t - r, s as int);
        vstd::arithmetic::div_mod::lemma_fundamental_div_mod(ti, si);
        assert(0 <= ti / si <= ti) by (nonlinear_arith)
            requires
                ti >= 0,
                si >= 1,
        ;
        assert(si * (ti / si) <= ti);
    }
    let lo: i64 = s * ((t - r) / s);
    proof {
        let (v, si) = (b - r - lo + s - 1, s as int);
        assert(b - r >= lo);
        vstd::arithmetic::div_mod::lemma_fundamental_div_mod(v, si);
        assert(0 <= v / si <= v) by (nonlinear_arith)
            requires
                v >= 0,
                si >= 1,
        ;
        assert(si * (v / si) <= v);
    }
    let hi: i64 = lo + s * ((b - r - lo + s - 1) / s);
    (lo as usize, hi as usize)
}

impl BandLayout {
    /// Fits an image of `w` by `h` pixels at `tl` into the grid.
    pub fn feed_window(&self, w: usize, h: usize, tl: (i32, i32)) -> (r: FeedWindow)
        requires
            self.wf(),
            self.roi.0 <= tl.0,
            self.roi.1 <= tl.1,
            tl.0 + w <= self.roi.0 + self.roi.2,
            tl.1 + h <= self.roi.1 + self.roi.3,
        ensures
            ({
                let step = pow2(self.num_bands as nat) as int;
                &&& r.x0 == snap_start(self.roi.0 as int, step, tl.0 as int)
                &&& r.y0 == snap_start(self.roi.1 as int, step, tl.1 as int)
                &&& r.x1 == snap_end(
                    self.roi.0 as int,
                    self.roi.2 as int,
                    step,
                    tl.0 as int,
                    w as int,
                )
                &&& r.y1 == snap_end(
                    self.roi.1 as int,
                    self.roi.3 as int,
                    step,
                    tl.1 as int,
                    h as int,
                )
                &&& r.left == tl.0 - self.roi.0 - r.x0
                &&& r.top == tl.1 - self.roi.1 - r.y0
            }),
            r.x0 + r.left + w <= r.x1 <= self.roi.2,
            r.y0 + r.top + h <= r.y1 <= self.roi.3,
    {
        let step: u64 = pow2_of(self.num_bands);
        proof {
            lemma_snap(
                self.roi.0 as int,
                self.roi.2 as int,
                step as int,
                tl.0 as int,
                w as int,
            );
            lemma_snap(
                self.roi.1 as int,
                self.roi.3 as int,
                step as int,
                tl.1 as int,
                h as int,
            );
        }
        let (x0, x1): (usize, usize) = snap(self.roi.0, self.roi.2, step, tl.0, w);
        let (y0, y1): (usize, usize) = snap(self.roi.1, self.roi.3, step, tl.1, h);
        let left: usize = (tl.0 as i64 - self.roi.0 as i64) as usize - x0;
        let top: usize = (tl.1 as i64 - self.roi.1 as i64) as usize - y0;
        FeedWindow { x0, y0, x1, y1, left, top }
    }
}

/// Copies an RGB image of `w` by `h` pixels into a plane of `bw` by `bh`
/// pixels, `left` and `top` pixels from its corner; the rest mirrors it.
#[verifier::spinoff_prover]
pub fn reflect_into(
    img_rgb: &[u8],
    w: usize,
    h: usize,
    left: usize,
    top: usize,
    bw: usize,
    bh: usize,
) -> (out: Vec<i16>)
    requires
        img_rgb@.len() == w * h * 3,
        1 <= w <= i32::MAX,
        1 <= h <= i32::MAX,
        left <= bw <= i32::MAX,
        top <= bh <= i32::MAX,
    ensures
        out@.len() == bw * bh * 3,
        within(out@, 0, 255),
        forall|x: int, y: int, c: int|
            0 <= x < bw && 0 <= y < bh && 0 <= c < 3 ==> #[trigger] px3(out@, bw as int, x, y, c)
                == img_rgb@[(mirror(y - top, h as int) * w + mirror(x - left, w as int)) * 3 + c],
{
    let ghost (wi, hi, bwi, bhi) = (w as int, h as int, bw as int, bh as int);
    let mut out: Vec<i16> = Vec::new();
    let mut y: usize = 0;
    assert(0 * bw * 3 == 0) by (nonlinear_arith);
    while y < bh
        invariant
            img_rgb@.len() == w * h * 3,
            1 <= w <= i32::MAX,
            1 <= h <= i32::MAX,
            left <= bw <= i32::MAX,
            top <= bh <= i32::MAX,
            wi == w,
            hi == h,
            bwi == bw,
            bhi == bh,
            y <= bh,
            out@.len() == y * bw * 3,
            within(out@, 0, 255),
            forall|q: int|
                0 <= q < out@.len() ==> #[trigger] out@[q] == img_rgb@[(mirror(q / 3 / bwi - top, hi)
                    * wi + mirror((q / 3) % bwi - left, wi)) * 3 + q % 3],
        decreases bh - y,
    {
        let sy: usize = border_interpolate_reflect(y as i32 - top as i32, h as i32, 0) as usize;
        let mut x: usize = 0;
        while x < bw
            invariant
                img_rgb@.len() == w * h * 3,
                1 <= w <= i32::MAX,
                1 <= h <= i32::MAX,
                left <= bw <= i32::MAX,
                wi == w,
                hi == h,
                bwi == bw,
                bhi == bh,
                y < bh,
                x <= bw,
                sy == mirror(y - top, hi),
                sy < h,
                out@.len() == (y * bw + x) * 3,
                within(out@, 0, 255),
                forall|q: int|
                    0 <= q < out@.len() ==> #[trigger] out@[q] == img_rgb@[(mirror(
                        q / 3 / bwi - top,
                        hi,
                    ) * wi + mirror((q / 3) % bwi - left, wi)) * 3 + q % 3],
            decreases bw - x,
        {
            let sx: usize = border_interpolate_reflect(x as i32 - left as i32, w as i32, 0) as usize;
            proof {
                lemma_plane(sx as int, sy as int, 0, wi, hi);
                lemma_plane(sx as int, sy as int, 1, wi, hi);
                lemma_plane(sx as int, sy as int, 2, wi, hi);
                lemma_plane(x as int, y as int, 0, bwi, bhi);
                lemma_plane(x as int, y as int, 1, bwi, bhi);
                lemma_plane(x as int, y as int, 2, bwi, bhi);
                assert(img_rgb@.len() == img_rgb.len());
            }
            let si: usize = (sy * w + sx) * 3;
            out.push(img_rgb[si] as i16);
            out.push(img_rgb[si + 1] as i16);
            out.push(img_rgb[si + 2] as i16);
            x = x + 1;
        }
        proof {
            assert((y + 1) * bw == y * bw + bw) by (nonlinear_arith);
        }
        y = y + 1;
    }
    proof {
        assert(bh * bw * 3 == bw * bh * 3) by (nonlinear_arith);
        assert forall|x: int, y: int, c: int| 0 <= x < bw && 0 <= y < bh && 0 <= c < 3 implies #[trigger] px3(
            out@,
            bwi,
            x,
            y,
            c,
        ) == img_rgb@[(mirror(y - top, hi) * w + mirror(x - left, wi)) * 3 + c] by {
            lemma_plane(x, y, c, bwi, bhi);
            let q = (y * bwi + x) * 3 + c;
            assert(out@[q] == img_rgb@[(mirror(q / 3 / bwi - top, hi) * wi + mirror(
                (q / 3) % bwi - left,
                wi,
            )) * 3 + q % 3]);
        }
    }
    out
}

/// Longest side of a plane whose halves can be doubled again.
pub const MAX_SIDE: usize = 0x7fff_fffe;

/// Three-component 16-bit plane, interleaved.
pub struct PlaneI16 {
    pub w: usize,
    pub h: usize,
    pub data: Vec<i16>,
}

/// The contents of a plane.
pub ghost struct Plane {
    pub w: int,
    pub h: int,
    pub data: Seq<i16>,
}

impl View for PlaneI16 {
    type V = Plane;

    open spec fn view(&self) -> Plane {
        Plane { w: self.w as int, h: self.h as int, data: self.data@ }
    }
}

impl Plane {
    pub open spec fn wf(self) -> bool {
        &&& 1 <= self.w <= MAX_SIDE
        &&& 1 <= self.h <= MAX_SIDE
        &&& self.data.len() == self.w * self.h * 3
    }

    /// The plane halved in both directions.
    pub open spec fn halved(self) -> Plane {
        let (w, h) = (half(self.w), half(self.h));
        Plane {
            w,
            h,
            data: Seq::new(
                (w * h * 3) as nat,
                |q: int| down_px(self.data, self.w, self.h, (q / 3) % w, q / 3 / w, q % 3) as i16,
            ),
        }
    }

    /// The plane doubled to the size of `like`.
    pub open spec fn doubled(self, like: Plane) -> Seq<i16> {
        Seq::new(
            (like.w * like.h * 3) as nat,
            |q: int|
                up_px(self.data, self.w, self.h, (q / 3) % like.w, q / 3 / like.w, q % 3) as i16,
        )
    }

    /// `self` is what halving `big` gives in size.
    pub open spec fn half_of(self, big: Plane) -> bool {
        self.w == half(big.w) && self.h == half(big.h)
    }
}

/// Saturation to 16 bits.
pub open spec fn clip16(v: int) -> i16 {
    if v > i16::MAX {
        i16::MAX
    } else if v < i16::MIN {
        i16::MIN
    } else {
        v as i16
    }
}

pub open spec fn minus(a: Seq<i16>, b: Seq<i16>) -> Seq<i16> {
    Seq::new(a.len(), |q: int| clip16(a[q] - b[q]))
}

pub open spec fn plus(a: Seq<i16>, b: Seq<i16>) -> Seq<i16> {
    Seq::new(a.len(), |q: int| clip16(a[q] + b[q]))
}

/// Level `i` of the Gaussian pyramid over `p`: halved `i` times.
pub open spec fn gauss(p: Plane, i: nat) -> Plane
    decreases i,
{
    if i == 0 { p } else { gauss(p, (i - 1) as nat).halved() }
}

/// Level `i` of the Laplacian pyramid of `nb` bands over `p`: what the level
/// has beyond the next one, doubled; the last level is kept whole.
pub open spec fn laplace(p: Plane, nb: nat, i: nat) -> Plane {
    let g = gauss(p, i);
    if i < nb {
        Plane { data: minus(g.data, gauss(p, i + 1).doubled(g)), ..g }
    } else {
        g
    }
}

/// What a pyramid amounts to from level `i` on: each level with everything
/// above it, doubled, added.
pub open spec fn restored(pyr: Seq<Plane>, i: nat) -> Plane
    decreases pyr.len() - i,
{
    if i + 1 >= pyr.len() {
        pyr[i as int]
    } else {
        let p = pyr[i as int];
        Plane { data: plus(p.data, restored(pyr, i + 1).doubled(p)), ..p }
    }
}

proof fn lemma_half(n: int)
    requires
        1 <= n <= MAX_SIDE,
    ensures
        1 <= half(n) <= 0x3fff_ffff,
        half(n) <= n,
        doubles(half(n), n),
        half(n) == 1 ==> n <= 2,
{
}

proof fn lemma_area(a: int, b: int, w: int, h: int)
    requires
        0 <= a <= w,
        0 <= b <= h,
    ensures
        0 <= a * b <= w * h,
{
    assert(0 <= a * b <= w * h) by (nonlinear_arith)
        requires
            0 <= a <= w,
            0 <= b <= h,
    ;
}

proof fn lemma_gauss_wf(p: Plane, i: nat)
    requires
        p.wf(),
    ensures
        gauss(p, i).wf(),
    decreases i,
{
    if i > 0 {
        lemma_gauss_wf(p, (i - 1) as nat);
        let g = gauss(p, (i - 1) as nat);
        lemma_half(g.w);
        lemma_half(g.h);
        lemma_area(1, 1, half(g.w), half(g.h));
    }
}

/// Splits a plane into the bands of a Laplacian pyramid: `nb` differences and
/// the rest.
#[verifier::spinoff_prover]
#[verifier::rlimit(40)]
pub fn laplace_pyramid(plane: PlaneI16, nb: usize) -> (pyr: Vec<PlaneI16>)
    requires
        plane@.wf(),
        nb < usize::MAX,
    ensures
        pyr@.len() == nb + 1,
        forall|i: int| 0 <= i <= nb ==> (#[trigger] pyr@[i])@ == laplace(plane@, nb as nat, i as nat),
{
    let ghost p = plane@;
    let mut pyr: Vec<PlaneI16> = Vec::new();
    pyr.push(plane);
    let mut i: usize = 0;
    assert(gauss(p, 0) == p);
    while i < nb
        invariant
            p.wf(),
            nb < usize::MAX,
            i <= nb,
            pyr@.len() == i + 1,
            forall|k: int| 0 <= k <= i ==> (#[trigger] pyr@[k])@ == gauss(p, k as nat),
        decreases nb - i,
    {
        proof {
            lemma_gauss_wf(p, i as nat);
            assert(pyr@[i as int]@ == gauss(p, i as nat));
        }
        let ghost before = pyr@;
        let (data, w, h): (Vec<i16>, usize, usize) = pyr_down_i16c3(
            pyr[i].data.as_slice(),
            pyr[i].w,
            pyr[i].h,
        );
        proof {
            let g = gauss(p, i as nat);
            let n = g.halved();
            lemma_half(g.w);
            lemma_half(g.h);
            assert(data@ =~= n.data) by {
                assert forall|q: int| 0 <= q < data@.len() implies data@[q] == n.data[q] by {
                    lemma_plane_split(q, n.w, n.h);
                    let (x, y, c) = ((q / 3) % n.w, q / 3 / n.w, q % 3);
                    assert(px3(data@, n.w, x, y, c) == down_px(g.data, g.w, g.h, x, y, c));
                }
            }
        }
        pyr.push(PlaneI16 { w, h, data });
        proof {
            assert(gauss(p, (i + 1) as nat) == gauss(p, i as nat).halved());
            assert forall|k: int| 0 <= k <= i + 1 implies (#[trigger] pyr@[k])@ == gauss(p, k as nat) by {
                if k <= i {
                    assert(pyr@[k] == before[k]);
                }
            }
        }
        i = i + 1;
    }
    i = 0;
    while i < nb
        invariant
            p.wf(),
            nb < usize::MAX,
            i <= nb,
            pyr@.len() == nb + 1,
            forall|k: int|
                0 <= k < i ==> (#[trigger] pyr@[k])@ == laplace(p, nb as nat, k as nat),
            forall|k: int| i <= k <= nb ==> (#[trigger] pyr@[k])@ == gauss(p, k as nat),
        decreases nb - i,
    {
        proof {
            lemma_gauss_wf(p, i as nat);
            lemma_gauss_wf(p, (i + 1) as nat);
            assert(pyr@[i as int]@ == gauss(p, i as nat));
            assert(pyr@[i + 1]@ == gauss(p, (i + 1) as nat));
            assert(gauss(p, (i + 1) as nat) == gauss(p, i as nat).halved());
            lemma_half(gauss(p, i as nat).w);
            lemma_half(gauss(p, i as nat).h);
        }
        let ghost before = pyr@;
        let up: Vec<i16> = pyr_up_i16c3(
            pyr[i + 1].data.as_slice(),
            pyr[i + 1].w,
            pyr[i + 1].h,
            pyr[i].w,
            pyr[i].h,
        );
        proof {
            lemma_doubled(gauss(p, (i + 1) as nat), gauss(p, i as nat), up@);
        }
        let diff: Vec<i16> = subtract(pyr[i].data.as_slice(), up.as_slice());
        pyr[i].data = diff;
        proof {
            assert forall|k: int| 0 <= k < i + 1 implies (#[trigger] pyr@[k])@ == laplace(p, nb as nat, k as nat) by {
                if k < i {
                    assert(pyr@[k] == before[k]);
                }
            }
            assert forall|k: int| i + 1 <= k <= nb implies (#[trigger] pyr@[k])@ == gauss(p, k as nat) by {
                assert(pyr@[k] == before[k]);
            }
        }
        i = i + 1;
    }
    pyr
}

proof fn lemma_doubled(small: Plane, like: Plane, up: Seq<i16>)
    requires
        small.wf(),
        like.wf(),
        up.len() == like.w * like.h * 3,
        forall|x: int, y: int, c: int|
            0 <= x < like.w && 0 <= y < like.h && 0 <= c < 3 ==> #[trigger] px3(up, like.w, x, y, c)
                == up_px(small.data, small.w, small.h, x, y, c),
    ensures
        up == small.doubled(like),
{
    assert(up =~= small.doubled(like)) by {
        assert forall|q: int| 0 <= q < up.len() implies up[q] == small.doubled(like)[q] by {
            lemma_plane_split(q, like.w, like.h);
            let (x, y, c) = ((q / 3) % like.w, q / 3 / like.w, q % 3);
            assert(px3(up, like.w, x, y, c) == up_px(small.data, small.w, small.h, x, y, c));
        }
    }
}

fn subtract(a: &[i16], b: &[i16]) -> (r: Vec<i16>)
    requires
        a@.len() == b@.len(),
    ensures
        r@ == minus(a@, b@),
{
    let mut r: Vec<i16> = Vec::new();
    let mut q: usize = 0;
    while q < a.len()
        invariant
            a@.len() == b@.len(),
            q <= a@.len(),
            r@.len() == q,
            forall|k: int| 0 <= k < q ==> #[trigger] r@[k] == clip16(a@[k] - b@[k]),
        decreases a@.len() - q,
    {
        r.push(clip(a[q] as i32 - b[q] as i32));
        q = q + 1;
    }
    assert(r@ =~= minus(a@, b@));
    r
}

fn add_up(a: &[i16], b: &[i16]) -> (r: Vec<i16>)
    requires
        a@.len() == b@.len(),
    ensures
        r@ == plus(a@, b@),
{
    let mut r: Vec<i16> = Vec::new();
    let mut q: usize = 0;
    while q < a.len()
        invariant
            a@.len() == b@.len(),
            q <= a@.len(),
            r@.len() == q,
            forall|k: int| 0 <= k < q ==> #[trigger] r@[k] == clip16(a@[k] + b@[k]),
        decreases a@.len() - q,
    {
        r.push(clip(a[q] as i32 + b[q] as i32));
        q = q + 1;
    }
    assert(r@ =~= plus(a@, b@));
    r
}

fn clip(v: i32) -> (r: i16)
    ensures
        r == clip16(v as int),
{
    if v > 32767 {
        32767
    } else if v < -32768 {
        -32768
    } else {
        v as i16
    }
}

/// Every level has the size of the one below it halved.
pub open spec fn is_pyramid(pyr: Seq<Plane>) -> bool {
    &&& pyr.len() >= 1
    &&& forall|i: int| 0 <= i < pyr.len() ==> (#[trigger] pyr[i]).wf()
    &&& forall|i: int|
        0 <= i && i + 1 < pyr.len() ==> pyr[i + 1].half_of(#[trigger] pyr[i])
}

pub open spec fn planes(pyr: Seq<PlaneI16>) -> Seq<Plane> {
    pyr.map_values(|p: PlaneI16| p@)
}

proof fn lemma_restored_size(pyr: Seq<Plane>, i: nat)
    requires
        is_pyramid(pyr),
        i < pyr.len(),
    ensures
        restored(pyr, i).w == pyr[i as int].w,
        restored(pyr, i).h == pyr[i as int].h,
        restored(pyr, i).wf(),
    decreases pyr.len() - i,
{
    assert(pyr[i as int].wf());
    if i + 1 < pyr.len() {
        lemma_restored_size(pyr, i + 1);
    }
}

/// Puts the bands of a Laplacian pyramid together again, from the smallest
/// level down.
#[verifier::spinoff_prover]
#[verifier::rlimit(40)]
pub fn restore_from_laplace(pyr: Vec<PlaneI16>) -> (r: PlaneI16)
    requires
        is_pyramid(planes(pyr@)),
    ensures
        r@ == restored(planes(pyr@), 0),
{
    let mut pyr: Vec<PlaneI16> = pyr;
    let ghost all = planes(pyr@);
    let mut i: usize = pyr.len() - 1;
    proof {
        assert(pyr@[i as int]@ == all[i as int]);
    }
    while i > 0
        invariant
            is_pyramid(all),
            i < all.len(),
            pyr@.len() == all.len(),
            pyr@[i as int]@ == restored(all, i as nat),
            forall|k: int| 0 <= k < i ==> (#[trigger] pyr@[k])@ == all[k],
        decreases i,
    {
        let ghost before = pyr@;
        proof {
            lemma_restored_size(all, i as nat);
            assert(pyr@[i - 1]@ == all[i - 1]);
            assert(all[i - 1].wf());
            assert(all[(i - 1) + 1].half_of(all[i - 1]));
            lemma_half(all[i - 1].w);
            lemma_half(all[i - 1].h);
        }
        let up: Vec<i16> = pyr_up_i16c3(
            pyr[i].data.as_slice(),
            pyr[i].w,
            pyr[i].h,
            pyr[i - 1].w,
            pyr[i - 1].h,
        );
        proof {
            lemma_doubled(restored(all, i as nat), all[i - 1], up@);
        }
        let sum: Vec<i16> = add_up(pyr[i - 1].data.as_slice(), up.as_slice());
        pyr[i - 1].data = sum;
        i = i - 1;
        proof {
            assert(restored(all, i as nat).data == plus(all[i as int].data, restored(all, (i + 1) as nat).doubled(all[i as int])));
            assert forall|k: int| 0 <= k < i implies (#[trigger] pyr@[k])@ == all[k] by {
                assert(pyr@[k] == before[k]);
            }
        }
    }
    pyr.swap_remove(0)
}

proof fn lemma_gauss_within(p: Plane, i: nat, lo: int, hi: int)
    requires
        p.wf(),
        within(p.data, lo, hi),
        -32768 <= lo,
        hi <= 32767,
    ensures
        within(gauss(p, i).data, lo, hi),
    decreases i,
{
    if i > 0 {
        let g = gauss(p, (i - 1) as nat);
        lemma_gauss_wf(p, (i - 1) as nat);
        lemma_gauss_within(p, (i - 1) as nat, lo, hi);
        let n = g.halved();
        assert forall|q: int| 0 <= q < n.data.len() implies lo <= #[trigger] n.data[q] <= hi by {
            lemma_down_range(g.data, g.w, g.h, (q / 3) % n.w, q / 3 / n.w, q % 3, lo, hi);
        }
    }
}

proof fn lemma_doubled_within(small: Plane, like: Plane, lo: int, hi: int)
    requires
        small.wf(),
        like.wf(),
        within(small.data, lo, hi),
        -32768 <= lo,
        hi <= 32767,
    ensures
        within(small.doubled(like), lo, hi),
{
    let up = small.doubled(like);
    assert forall|q: int| 0 <= q < up.len() implies lo <= #[trigger] up[q] <= hi by {
        lemma_plane_split(q, like.w, like.h);
        lemma_up_range(
            small.data,
            small.w,
            small.h,
            (q / 3) % like.w,
            q / 3 / like.w,
            q % 3,
            lo,
            hi,
        );
    }
}

/// The bands of a plane, as one sequence.
pub open spec fn laplace_levels(p: Plane, nb: nat) -> Seq<Plane> {
    Seq::new(nb + 1, |i: int| laplace(p, nb, i as nat))
}

/// Splitting a plane of byte values into bands and putting them together
/// again gives back the plane.
pub proof fn lemma_restore_laplace(p: Plane, nb: nat)
    requires
        p.wf(),
        within(p.data, 0, 255),
    ensures
        restored(laplace_levels(p, nb), 0) == p,
{
    lemma_restore_level(p, nb, 0);
}

proof fn lemma_restore_level(p: Plane, nb: nat, i: nat)
    requires
        p.wf(),
        within(p.data, 0, 255),
        i <= nb,
    ensures
        restored(laplace_levels(p, nb), i) == gauss(p, i),
    decreases nb - i,
{
    if i < nb {
        lemma_restore_level(p, nb, i + 1);
        let g = gauss(p, i);
        let n = gauss(p, i + 1);
        lemma_gauss_wf(p, i);
        lemma_gauss_wf(p, i + 1);
        lemma_gauss_within(p, i, 0, 255);
        lemma_gauss_within(p, i + 1, 0, 255);
        let l = laplace(p, nb, i);
        assert(laplace_levels(p, nb)[i as int] == l);
        let up = n.doubled(g);
        assert(n.doubled(l) =~= up);
        lemma_doubled_within(n, g, 0, 255);
        assert(plus(l.data, up) =~= g.data) by {
            assert forall|q: int| 0 <= q < g.data.len() implies plus(l.data, up)[q] == g.data[q] by {
                assert(0 <= g.data[q] <= 255);
                assert(0 <= up[q] <= 255);
                assert(l.data[q] == clip16(g.data[q] - up[q]));
            }
        }
    }
}

/// Cuts the top left `fw` by `fh` pixels out of a plane: its covered pixels,
/// zeros elsewhere, and a mask of what is covered.
#[verifier::spinoff_prover]
pub fn crop_covered(plane: &PlaneI16, covered: &[bool], fw: usize, fh: usize) -> (r: (
    Vec<i16>,
    GrayImage,
))
    requires
        plane@.wf(),
        covered@.len() == plane.w * plane.h,
        fw <= plane.w,
        fh <= plane.h,
    ensures
        r.0@.len() == fw * fh * 3,
        r.1.wf(),
        r.1.width == fw,
        r.1.height == fh,
        forall|x: int, y: int|
            0 <= x < fw && 0 <= y < fh ==> #[trigger] r.1.px(x, y) == if covered@[y * plane.w + x] {
                255u8
            } else {
                0u8
            },
        forall|x: int, y: int, c: int|
            0 <= x < fw && 0 <= y < fh && 0 <= c < 3 ==> #[trigger] px3(r.0@, fw as int, x, y, c)
                == if covered@[y * plane.w + x] {
                px3(plane.data@, plane.w as int, x, y, c)
            } else {
                0
            },
{
    let ghost (wi, hi, fwi, fhi) = (plane.w as int, plane.h as int, fw as int, fh as int);
    let mut out: Vec<i16> = Vec::new();
    let mut mask: Vec<u8> = Vec::new();
    let mut y: usize = 0;
    assert(0 * fw == 0 && 0 * fw * 3 == 0) by (nonlinear_arith);
    while y < fh
        invariant
            plane@.wf(),
            covered@.len() == plane.w * plane.h,
            fw <= plane.w,
            fh <= plane.h,
            wi == plane.w,
            hi == plane.h,
            fwi == fw,
            fhi == fh,
            y <= fh,
            mask@.len() == y * fw,
            out@.len() == y * fw * 3,
            forall|q: int|
                0 <= q < mask@.len() ==> #[trigger] mask@[q] == if covered@[(q / fwi) * wi + q % fwi] {
                    255u8
                } else {
                    0u8
                },
            forall|q: int|
                0 <= q < out@.len() ==> #[trigger] out@[q] == if covered@[(q / 3 / fwi) * wi + (q / 3)
                    % fwi] {
                    px3(plane.data@, wi, (q / 3) % fwi, q / 3 / fwi, q % 3)
                } else {
                    0
                },
        decreases fh - y,
    {
        let mut x: usize = 0;
        while x < fw
            invariant
                plane@.wf(),
                covered@.len() == plane.w * plane.h,
                fw <= plane.w,
                fh <= plane.h,
                wi == plane.w,
                hi == plane.h,
                fwi == fw,
                fhi == fh,
                y < fh,
                x <= fw,
                mask@.len() == y * fw + x,
                out@.len() == (y * fw + x) * 3,
                forall|q: int|
                    0 <= q < mask@.len() ==> #[trigger] mask@[q] == if covered@[(q / fwi) * wi + q
                        % fwi] {
                        255u8
                    } else {
                        0u8
                    },
                forall|q: int|
                    0 <= q < out@.len() ==> #[trigger] out@[q] == if covered@[(q / 3 / fwi) * wi + (q
                        / 3) % fwi] {
                        px3(plane.data@, wi, (q / 3) % fwi, q / 3 / fwi, q % 3)
                    } else {
                        0
                    },
            decreases fw - x,
        {
            proof {
                crate::imgproc::lemma_index(x as int, y as int, wi, hi);
                crate::imgproc::lemma_index_split(x as int, y as int, fwi);
                lemma_plane(x as int, y as int, 0, wi, hi);
                lemma_plane(x as int, y as int, 1, wi, hi);
                lemma_plane(x as int, y as int, 2, wi, hi);
                lemma_plane(x as int, y as int, 0, fwi, fhi);
                lemma_plane(x as int, y as int, 1, fwi, fhi);
                lemma_plane(x as int, y as int, 2, fwi, fhi);
                assert(plane.data@.len() == plane.data.len());
                assert(covered@.len() == covered.len());
            }
            let p: usize = y * plane.w + x;
            if covered[p] {
                mask.push(255);
                out.push(plane.data[p * 3]);
                out.push(plane.data[p * 3 + 1]);
                out.push(plane.data[p * 3 + 2]);
            } else {
                mask.push(0);
                out.push(0);
                out.push(0);
                out.push(0);
            }
            x = x + 1;
        }
        proof {
            assert((y + 1) * fw == y * fw + fw) by (nonlinear_arith);
        }
        y = y + 1;
    }
    proof {
        assert(fh * fw == fw * fh) by (nonlinear_arith);
        assert forall|x: int, y: int| 0 <= x < fw && 0 <= y < fh implies #[trigger] mask@[y * fw + x]
            == if covered@[y * plane.w + x] {
            255u8
        } else {
            0u8
        } by {
            crate::imgproc::lemma_index(x, y, fwi, fhi);
            crate::imgproc::lemma_index_split(x, y, fwi);
        }
        assert forall|x: int, y: int, c: int| 0 <= x < fw && 0 <= y < fh && 0 <= c < 3 implies #[trigger] px3(
            out@,
            fwi,
            x,
            y,
            c,
        ) == if covered@[y * plane.w + x] {
            px3(plane.data@, wi, x, y, c)
        } else {
            0
        } by {
            lemma_plane(x, y, c, fwi, fhi);
            let q = (y * fwi + x) * 3 + c;
            assert(out@[q] == if covered@[(q / 3 / fwi) * wi + (q / 3) % fwi] {
                px3(plane.data@, wi, (q / 3) % fwi, q / 3 / fwi, q % 3)
            } else {
                0
            });
        }
    }
    let img: GrayImage = GrayImage::new(fw, fh, mask);
    assert forall|x: int, y: int| 0 <= x < fw && 0 <= y < fh implies #[trigger] img.px(x, y) == if covered@[y
        * plane.w + x] {
        255u8
    } else {
        0u8
    } by {
        assert(mask@[y * fw + x] == mask@[y * fw + x]);
    }
    (out, img)
}

/// A component cut to a byte.
pub open spec fn clip8(v: int) -> u8 {
    if v < 0 {
        0
    } else if v > 255 {
        255
    } else {
        v as u8
    }
}

/// Cuts every component to a byte.
pub fn saturate_u8(raw: &[i16]) -> (out: Vec<u8>)
    ensures
        out@.len() == raw@.len(),
        forall|i: int| 0 <= i < raw@.len() ==> #[trigger] out@[i] == clip8(raw@[i] as int),
{
    let mut out: Vec<u8> = Vec::new();
    let mut i: usize = 0;
    while i < raw.len()
        invariant
            i <= raw@.len(),
            out@.len() == i,
            forall|k: int| 0 <= k < i ==> #[trigger] out@[k] == clip8(raw@[k] as int),
        decreases raw@.len() - i,
    {
        let v: i16 = raw[i];
        out.push(
            if v < 0 {
                0
            } else if v > 255 {
                255
            } else {
                v as u8
            },
        );
        i = i + 1;
    }
    out
}

/// An image is fed with a margin of three blocks on every side, and less than
/// one more to reach the next boundary, unless the grid ends before.
pub proof fn lemma_snap_margin(r0: int, len: int, step: int, a: int, n: int)
    requires
        step >= 1,
        len % step == 0,
        r0 <= a,
        0 <= n,
        a + n <= r0 + len,
    ensures
        ({
            let lo = r0 + snap_start(r0, step, a);
            let hi = r0 + snap_end(r0, len, step, a, n);
            &&& if a - 3 * step >= r0 {
                lo <= a - 3 * step < lo + step
            } else {
                lo == r0
            }
            &&& if a + n + 3 * step <= r0 + len {
                hi - step < a + n + 3 * step <= hi
            } else {
                hi == r0 + len
            }
        }),
{
    lemma_snap(r0, len, step, a, n);
    let t = at_least(r0, a - 3 * step) - r0;
    vstd::arithmetic::div_mod::lemma_fundamental_div_mod(t, step);
    let s = snap_start(r0, step, a);
    if t == 0 {
        assert(step * (0int / step) == 0) by (nonlinear_arith)
            requires
                step >= 1,
        ;
    }
    let u = at_most(r0 + len, a + n + 3 * step) - r0 - s + step - 1;
    vstd::arithmetic::div_mod::lemma_fundamental_div_mod(u, step);
    if a + n + 3 * step > r0 + len {
        let (p, q) = (len / step, s / step);
        vstd::arithmetic::div_mod::lemma_fundamental_div_mod(len, step);
        vstd::arithmetic::div_mod::lemma_fundamental_div_mod(s, step);
        assert(u == (p - q) * step + (step - 1)) by (nonlinear_arith)
            requires
                u == len - s + step - 1,
                len == step * p + 0,
                s == step * q + 0,
        ;
        vstd::arithmetic::div_mod::lemma_fundamental_div_mod_converse(u, step, p - q, step - 1);
        assert(step * (p - q) == len - s) by (nonlinear_arith)
            requires
                len == step * p,
                s == step * q,
        ;
    }
}

/// What the bands of a plane are: each but the last holds what a plane has
/// over its own half, doubled again, and the halves go on to the next band;
/// the last holds the last half itself. The first plane is the given one.
pub proof fn lemma_detail(p: Plane, nb: nat, i: nat, x: int, y: int, c: int)
    requires
        p.wf(),
        within(p.data, 0, 255),
        i < nb,
        0 <= x < gauss(p, i).w,
        0 <= y < gauss(p, i).h,
        0 <= c < 3,
    ensures
        ({
            let (g, n) = (gauss(p, i), gauss(p, i + 1));
            let q = (y * g.w + x) * 3 + c;
            &&& laplace(p, nb, i).data[q] == g.data[q] - up_px(n.data, n.w, n.h, x, y, c)
            &&& n.w == (g.w + 1) / 2
            &&& n.h == (g.h + 1) / 2
            &&& x < n.w && y < n.h ==> n.data[(y * n.w + x) * 3 + c] == down_px(
                g.data,
                g.w,
                g.h,
                x,
                y,
                c,
            )
        }),
        laplace(p, nb, nb) == gauss(p, nb),
        gauss(p, 0) == p,
{
    let (g, n) = (gauss(p, i), gauss(p, i + 1));
    lemma_gauss_wf(p, i);
    lemma_gauss_wf(p, i + 1);
    lemma_gauss_within(p, i, 0, 255);
    lemma_gauss_within(p, i + 1, 0, 255);
    lemma_plane(x, y, c, g.w, g.h);
    lemma_up_range(n.data, n.w, n.h, x, y, c, 0, 255);
    let q = (y * g.w + x) * 3 + c;
    assert(n.doubled(g)[q] == up_px(n.data, n.w, n.h, x, y, c));
    assert(0 <= g.data[q] <= 255);
    if x < n.w && y < n.h {
        lemma_plane(x, y, c, n.w, n.h);
        lemma_down_range(g.data, g.w, g.h, x, y, c, 0, 255);
    }
}

/// Putting bands together adds to each what the coarser ones give, doubled.
/// The last stands for itself.
pub proof fn lemma_put_together(pyr: Seq<Plane>, i: nat, x: int, y: int, c: int)
    requires
        is_pyramid(pyr),
        i < pyr.len(),
        restored(pyr, i + 1).wf(),
        0 <= x < pyr[i as int].w,
        0 <= y < pyr[i as int].h,
        0 <= c < 3,
    ensures
        ({
            let (r, p) = (restored(pyr, i), pyr[i as int]);
            let q = (y * p.w + x) * 3 + c;
            let n = restored(pyr, i + 1);
            let sum = p.data[q] + up_px(n.data, n.w, n.h, x, y, c);
            &&& r.w == p.w && r.h == p.h
            &&& i + 1 < pyr.len() && -32768 <= sum <= 32767 ==> r.data[q] == sum
            &&& i + 1 < pyr.len() && sum < -32768 ==> r.data[q] == -32768
            &&& i + 1 < pyr.len() && sum > 32767 ==> r.data[q] == 32767
            &&& i + 1 == pyr.len() ==> r == p
        }),
{
    let p = pyr[i as int];
    assert(p.wf());
    if i + 1 < pyr.len() {
        let n = restored(pyr, i + 1);
        lemma_plane(x, y, c, p.w, p.h);
        assert(within(n.data, -32768, 32767));
        lemma_up_range(n.data, n.w, n.h, x, y, c, -32768, 32767);
        let q = (y * p.w + x) * 3 + c;
        assert(n.doubled(p)[q] == up_px(n.data, n.w, n.h, x, y, c));
    }
}

} // verus!
