//! Resampling: reading an image at mapped positions, with bilinear weights in
//! fixed point and mirrored or empty borders.

use crate::border::mirror;
use crate::imgproc::lemma_index;
use crate::imgproc::GrayImage;
use vstd::prelude::*;

verus! {

/// Interleaved 8-bit image with `channels` components per pixel.
#[derive(Debug, Clone)]
pub struct PixelImage {
    pub width: usize,
    pub height: usize,
    pub channels: usize,
    pub data: Vec<u8>,
}

impl PixelImage {
    /// The buffer holds `channels` bytes per pixel.
    pub open spec fn wf(&self) -> bool {
        self.data@.len() == self.width * self.height * self.channels
    }

    /// Component `c` of the pixel in column `x` of row `y`.
    pub open spec fn px(&self, x: int, y: int, c: int) -> u8 {
        self.data@[(y * self.width + x) * self.channels + c]
    }

    pub fn new(width: usize, height: usize, channels: usize, data: Vec<u8>) -> (img: Self)
        requires
            data@.len() == width * height * channels,
        ensures
            img.wf(),
            img.width == width,
            img.height == height,
            img.channels == channels,
            img.data@ == data@,
    {
        PixelImage { width, height, channels, data }
    }

    /// A one-component copy of a grayscale image.
    pub fn from_gray(g: &GrayImage) -> (img: Self)
        requires
            g.wf(),
        ensures
            img.wf(),
            img.width == g.width,
            img.height == g.height,
            img.channels == 1,
            img.data@ == g.data@,
    {
        let data: Vec<u8> = g.data.clone();
        assert(data@ =~= g.data@);
        PixelImage::new(g.width, g.height, 1, data)
    }
}

/// What is read past the edge of an image.
#[derive(Debug, Clone, Copy, PartialEq, Eq, Structural)]
pub enum Border {
    /// The image mirrored, edge pixels repeated.
    Reflect,
    /// Nothing: every component reads 0.
    Constant0,
}

/// How a position between pixels is read.
#[derive(Debug, Clone, Copy, PartialEq, Eq, Structural)]
pub enum Interp {
    Linear,
    Nearest,
}

/// The pixel that stands for `idx` in a line of `len` pixels, if any.
pub open spec fn border_pixel(idx: int, len: int, border: Border) -> Option<int> {
    match border {
        Border::Constant0 => if 0 <= idx < len { Some(idx) } else { None },
        Border::Reflect => Some(mirror(idx, len)),
    }
}

pub fn border_index(idx: i32, len: usize, border: Border) -> (r: Option<usize>)
    requires
        len <= i32::MAX,
        border == Border::Reflect ==> len >= 1,
    ensures
        match r {
            Some(i) => i < len && border_pixel(idx as int, len as int, border) == Some(i as int),
            None => border_pixel(idx as int, len as int, border) is None,
        },
{
    match border {
        Border::Constant0 => {
            if idx < 0 || idx as i64 >= len as i64 {
                None
            } else {
                Some(idx as usize)
            }
        },
        Border::Reflect => {
            let n: i64 = len as i64;
            let mut i: i64 = idx as i64;
            while i < 0 || i >= n
                invariant
                    n == len,
                    1 <= len <= i32::MAX,
                    -0x8000_0000 <= i <= 0x7fff_ffff,
                    mirror(i as int, len as int) == mirror(idx as int, len as int),
                decreases
                    if 0 <= i < n {
                        0
                    } else if i < 0 {
                        -2 * i
                    } else {
                        2 * i + 1
                    },
            {
                if i < 0 {
                    proof {
                        crate::border::lemma_mirror_left(i as int, len as int);
                    }
                    i = -i - 1;
                }
                if i >= n {
                    proof {
                        crate::border::lemma_mirror_right(i as int, len as int);
                    }
                    i = 2 * n - i - 1;
                }
            }
            proof {
                crate::border::lemma_mirror_range(i as int, len as int);
            }
            Some(i as usize)
        },
    }
}

/// Positions are read in steps of 1/32 pixel.
pub const INTER_TAB_SIZE: i32 = 32;

/// The four weights of a bilinear reading add up to this.
pub const INTER_REMAP_COEF_SCALE: i32 = 32768;

/// Weight of tap `k` for the fraction `fx`/32, `fy`/32: taps 0 and 1 are the
/// pixel and its right neighbour, 2 and 3 the two below. On the pixel itself
/// the full weight does not fit 16 bits; the unit it lacks goes to tap 3.
pub open spec fn bilinear_coef(fy: int, fx: int, k: int) -> int {
    if fy == 0 && fx == 0 {
        if k == 0 {
            32767
        } else if k == 3 {
            1
        } else {
            0
        }
    } else if k == 0 {
        32 * ((32 - fy) * (32 - fx))
    } else if k == 1 {
        32 * ((32 - fy) * fx)
    } else if k == 2 {
        32 * (fy * (32 - fx))
    } else {
        32 * (fy * fx)
    }
}

/// The bilinear weights are nonnegative and add up to `2^15`.
pub proof fn lemma_bilinear_coef_sum(fy: int, fx: int)
    requires
        0 <= fy < 32,
        0 <= fx < 32,
    ensures
        forall|k: int| 0 <= k < 4 ==> 0 <= #[trigger] bilinear_coef(fy, fx, k) <= 32767,
        bilinear_coef(fy, fx, 0) + bilinear_coef(fy, fx, 1) + bilinear_coef(fy, fx, 2)
            + bilinear_coef(fy, fx, 3) == INTER_REMAP_COEF_SCALE,
{
    assert((32 - fy) * (32 - fx) + (32 - fy) * fx + fy * (32 - fx) + fy * fx == 1024)
        by (nonlinear_arith);
    assert((32 - fy) * (32 - fx) >= 0) by (nonlinear_arith)
        requires
            fy < 32,
            fx < 32,
    ;
    assert((32 - fy) * fx >= 0) by (nonlinear_arith)
        requires
            fy < 32,
            fx >= 0,
    ;
    assert(fy * (32 - fx) >= 0) by (nonlinear_arith)
        requires
            fy >= 0,
            fx < 32,
    ;
    assert(fy * fx >= 0) by (nonlinear_arith)
        requires
            fy >= 0,
            fx >= 0,
    ;
    assert((32 - fy) * (32 - fx) <= 32 * 32 - fy - fx) by (nonlinear_arith)
        requires
            0 <= fy < 32,
            0 <= fx < 32,
    ;
    assert((32 - fy) * fx <= 32 * 31) by (nonlinear_arith)
        requires
            0 <= fy < 32,
            0 <= fx < 32,
    ;
    assert(fy * (32 - fx) <= 32 * 31) by (nonlinear_arith)
        requires
            0 <= fy < 32,
            0 <= fx < 32,
    ;
    assert(fy * fx <= 31 * 31) by (nonlinear_arith)
        requires
            0 <= fy < 32,
            0 <= fx < 32,
    ;
}

/// The weights of every fraction, `fy` major.
pub fn bilinear_tab() -> (tab: Vec<[i16; 4]>)
    ensures
        tab@.len() == 1024,
        forall|fy: int, fx: int, k: int|
            0 <= fy < 32 && 0 <= fx < 32 && 0 <= k < 4 ==> (#[trigger] tab@[fy * 32 + fx]@[k])
                == bilinear_coef(fy, fx, k),
{
    let mut tab: Vec<[i16; 4]> = Vec::new();
    let mut b: usize = 0;
    while b < 1024
        invariant
            b <= 1024,
            tab@.len() == b,
            forall|i: int, k: int|
                0 <= i < b && 0 <= k < 4 ==> (#[trigger] tab@[i]@[k]) == bilinear_coef(
                    i / 32,
                    i % 32,
                    k,
                ),
        decreases 1024 - b,
    {
        let fy: i32 = (b / 32) as i32;
        let fx: i32 = (b % 32) as i32;
        proof {
            lemma_bilinear_coef_sum(fy as int, fx as int);
            assert(0 <= bilinear_coef(fy as int, fx as int, 0) <= 32767);
            assert(0 <= bilinear_coef(fy as int, fx as int, 1) <= 32767);
            assert(0 <= bilinear_coef(fy as int, fx as int, 2) <= 32767);
            assert(0 <= bilinear_coef(fy as int, fx as int, 3) <= 32767);
            assert(0 <= (32 - fy) * (32 - fx) <= 1024) by (nonlinear_arith)
                requires
                    0 <= fy < 32,
                    0 <= fx < 32,
            ;
            assert(0 <= (32 - fy) * fx <= 1024) by (nonlinear_arith)
                requires
                    0 <= fy < 32,
                    0 <= fx < 32,
            ;
            assert(0 <= fy * (32 - fx) <= 1024) by (nonlinear_arith)
                requires
                    0 <= fy < 32,
                    0 <= fx < 32,
            ;
            assert(0 <= fy * fx <= 1024) by (nonlinear_arith)
                requires
                    0 <= fy < 32,
                    0 <= fx < 32,
            ;
            assert(b == 0 ==> (32 - fy) * (32 - fx) == 1024) by (nonlinear_arith)
                requires
                    b == 0 ==> fy == 0 && fx == 0,
            ;
            assert(b == 0 ==> (32 - fy) * fx == 0 && fy * (32 - fx) == 0 && fy * fx == 0)
                by (nonlinear_arith)
                requires
                    b == 0 ==> fy == 0 && fx == 0,
            ;
        }
        let mut q0: i32 = 32 * ((32 - fy) * (32 - fx));
        if q0 > 32767 {
            q0 = 32767;
        }
        let q1: i32 = 32 * ((32 - fy) * fx);
        let q2: i32 = 32 * (fy * (32 - fx));
        let q3: i32 = 32 * (fy * fx);
        let short: i32 = INTER_REMAP_COEF_SCALE - (q0 + q1 + q2 + q3);
        let block: [i16; 4] = [q0 as i16, q1 as i16, q2 as i16, (q3 + short) as i16];
        tab.push(block);
        b = b + 1;
    }
    proof {
        assert forall|fy: int, fx: int, k: int|
            0 <= fy < 32 && 0 <= fx < 32 && 0 <= k < 4 implies (#[trigger] tab@[fy * 32 + fx]@[k])
            == bilinear_coef(fy, fx, k) by {
            let i = fy * 32 + fx;
            assert(i / 32 == fy && i % 32 == fx);
            assert(tab@[i]@[k] == bilinear_coef(i / 32, i % 32, k));
        }
    }
    tab
}

/// Component `c` of the pixel that stands for (`x`, `y`); 0 where there is
/// none.
pub open spec fn tap(src: &PixelImage, x: int, y: int, c: int, border: Border) -> int {
    match (
        border_pixel(x, src.width as int, border),
        border_pixel(y, src.height as int, border),
    ) {
        (Some(i), Some(j)) => src.px(i, j, c) as int,
        _ => 0,
    }
}

/// Bilinear reading of component `c` at (`sx`/32, `sy`/32), rounded to the
/// nearest integer.
pub open spec fn linear_sample(src: &PixelImage, sx: int, sy: int, c: int, border: Border) -> int {
    let (ix, fx, iy, fy) = (sx / 32, sx % 32, sy / 32, sy % 32);
    (tap(src, ix, iy, c, border) * bilinear_coef(fy, fx, 0) + tap(src, ix + 1, iy, c, border)
        * bilinear_coef(fy, fx, 1) + tap(src, ix, iy + 1, c, border) * bilinear_coef(fy, fx, 2)
        + tap(src, ix + 1, iy + 1, c, border) * bilinear_coef(fy, fx, 3) + 16384) / 32768
}

/// Component `c` read at a mapped position: in whole pixels when reading the
/// nearest pixel, in 1/32 pixels when interpolating.
pub open spec fn sample_at(
    src: &PixelImage,
    sx: int,
    sy: int,
    c: int,
    interp: Interp,
    border: Border,
) -> int {
    match interp {
        Interp::Nearest => tap(src, sx, sy, c, border),
        Interp::Linear => linear_sample(src, sx, sy, c, border),
    }
}

/// Offset in the buffer of the pixel that stands for (`x`, `y`).
fn tap_offset(src: &PixelImage, x: i32, y: i32, border: Border) -> (r: Option<usize>)
    requires
        src.wf(),
        src.channels >= 1,
        src.width <= i32::MAX,
        src.height <= i32::MAX,
        border == Border::Reflect ==> src.width >= 1 && src.height >= 1,
    ensures
        match r {
            Some(p) => {
                &&& p + src.channels <= src.data@.len()
                &&& forall|c: int|
                    0 <= c < src.channels ==> #[trigger] src.data@[p + c] == tap(
                        src,
                        x as int,
                        y as int,
                        c,
                        border,
                    )
            },
            None => forall|c: int| #[trigger] tap(src, x as int, y as int, c, border) == 0,
        },
{
    match (border_index(x, src.width, border), border_index(y, src.height, border)) {
        (Some(i), Some(j)) => {
            proof {
                let w = src.width as int;
                let h = src.height as int;
                let ch = src.channels as int;
                lemma_index(i as int, j as int, w, h);
                assert((j * w + i) * ch + ch <= w * h * ch) by (nonlinear_arith)
                    requires
                        j * w + i < w * h,
                        0 <= ch,
                ;
                assert(0 <= (j * w + i) * ch) by (nonlinear_arith)
                    requires
                        0 <= j * w + i,
                        0 <= ch,
                ;
                assert(src.data@.len() == src.data.len());
                assert(j * w + i <= (j * w + i) * ch) by (nonlinear_arith)
                    requires
                        0 <= j * w + i,
                        1 <= ch,
                ;
            }
            Some((j * src.width + i) * src.channels)
        },
        _ => None,
    }
}

/// Sizes that a mapped reading can address.
pub open spec fn readable(src: &PixelImage, border: Border) -> bool {
    &&& src.wf()
    &&& src.channels >= 1
    &&& src.width <= i32::MAX
    &&& src.height <= i32::MAX
    &&& border == Border::Reflect ==> src.width >= 1 && src.height >= 1
}

/// Every reading is a byte.
pub proof fn lemma_sample_range(
    src: &PixelImage,
    sx: int,
    sy: int,
    c: int,
    interp: Interp,
    border: Border,
)
    ensures
        0 <= sample_at(src, sx, sy, c, interp, border) <= 255,
{
    if interp == Interp::Linear {
        let (ix, fx, iy, fy) = (sx / 32, sx % 32, sy / 32, sy % 32);
        lemma_bilinear_coef_sum(fy, fx);
        let t0 = tap(src, ix, iy, c, border);
        let t1 = tap(src, ix + 1, iy, c, border);
        let t2 = tap(src, ix, iy + 1, c, border);
        let t3 = tap(src, ix + 1, iy + 1, c, border);
        let c0 = bilinear_coef(fy, fx, 0);
        let c1 = bilinear_coef(fy, fx, 1);
        let c2 = bilinear_coef(fy, fx, 2);
        let c3 = bilinear_coef(fy, fx, 3);
        lemma_weighted_range(t0, t1, t2, t3, c0, c1, c2, c3, 0, 255);
    }
}

proof fn lemma_weighted_range(
    t0: int,
    t1: int,
    t2: int,
    t3: int,
    c0: int,
    c1: int,
    c2: int,
    c3: int,
    lo: int,
    hi: int,
)
    requires
        lo <= t0 <= hi,
        lo <= t1 <= hi,
        lo <= t2 <= hi,
        lo <= t3 <= hi,
        0 <= c0,
        0 <= c1,
        0 <= c2,
        0 <= c3,
        c0 + c1 + c2 + c3 == 32768,
    ensures
        lo * 32768 <= t0 * c0 + t1 * c1 + t2 * c2 + t3 * c3 <= hi * 32768,
{
    assert(lo * c0 <= t0 * c0 <= hi * c0) by (nonlinear_arith)
        requires
            lo <= t0 <= hi,
            0 <= c0,
    ;
    assert(lo * c1 <= t1 * c1 <= hi * c1) by (nonlinear_arith)
        requires
            lo <= t1 <= hi,
            0 <= c1,
    ;
    assert(lo * c2 <= t2 * c2 <= hi * c2) by (nonlinear_arith)
        requires
            lo <= t2 <= hi,
            0 <= c2,
    ;
    assert(lo * c3 <= t3 * c3 <= hi * c3) by (nonlinear_arith)
        requires
            lo <= t3 <= hi,
            0 <= c3,
    ;
    assert(lo * c0 + lo * c1 + lo * c2 + lo * c3 == lo * (c0 + c1 + c2 + c3)) by (nonlinear_arith);
    assert(hi * c0 + hi * c1 + hi * c2 + hi * c3 == hi * (c0 + c1 + c2 + c3)) by (nonlinear_arith);
}

/// Interpolating never leaves the range of the four pixels read: where all
/// of them agree, so does the reading.
pub proof fn lemma_linear_flat(src: &PixelImage, sx: int, sy: int, c: int, border: Border, v: int)
    requires
        tap(src, sx / 32, sy / 32, c, border) == v,
        tap(src, sx / 32 + 1, sy / 32, c, border) == v,
        tap(src, sx / 32, sy / 32 + 1, c, border) == v,
        tap(src, sx / 32 + 1, sy / 32 + 1, c, border) == v,
    ensures
        linear_sample(src, sx, sy, c, border) == v,
{
    let (fx, fy) = (sx % 32, sy % 32);
    lemma_bilinear_coef_sum(fy, fx);
    lemma_weighted_range(
        v,
        v,
        v,
        v,
        bilinear_coef(fy, fx, 0),
        bilinear_coef(fy, fx, 1),
        bilinear_coef(fy, fx, 2),
        bilinear_coef(fy, fx, 3),
        v,
        v,
    );
}

/// Interpolating on a whole pixel reads that pixel.
pub proof fn lemma_linear_on_pixel(src: &PixelImage, x: int, y: int, c: int, border: Border)
    ensures
        linear_sample(src, 32 * x, 32 * y, c, border) == tap(src, x, y, c, border),
{
    assert((32 * x) / 32 == x && (32 * x) % 32 == 0);
    assert((32 * y) / 32 == y && (32 * y) % 32 == 0);
}

/// Appends to `out` the pixel of `src` read at (`sx`, `sy`).
pub fn sample(
    src: &PixelImage,
    tab: &Vec<[i16; 4]>,
    sx: i32,
    sy: i32,
    interp: Interp,
    border: Border,
    out: &mut Vec<u8>,
)
    requires
        readable(src, border),
        tab@.len() == 1024,
        forall|fy: int, fx: int, k: int|
            0 <= fy < 32 && 0 <= fx < 32 && 0 <= k < 4 ==> (#[trigger] tab@[fy * 32 + fx]@[k])
                == bilinear_coef(fy, fx, k),
    ensures
        final(out)@.len() == old(out)@.len() + src.channels,
        forall|i: int| 0 <= i < old(out)@.len() ==> final(out)@[i] == #[trigger] old(out)@[i],
        forall|c: int|
            0 <= c < src.channels ==> #[trigger] final(out)@[old(out)@.len() + c] == sample_at(
                src,
                sx as int,
                sy as int,
                c,
                interp,
                border,
            ),
{
    let ghost n0 = out@.len();
    let mut c: usize = 0;
    match interp {
        Interp::Nearest => {
            let p: Option<usize> = tap_offset(src, sx, sy, border);
            while c < src.channels
                invariant
                    readable(src, border),
                    c <= src.channels,
                    out@.len() == n0 + c,
                    n0 == old(out)@.len(),
                    forall|i: int| 0 <= i < n0 ==> out@[i] == #[trigger] old(out)@[i],
                    forall|d: int|
                        0 <= d < c ==> #[trigger] out@[n0 + d] == tap(
                            src,
                            sx as int,
                            sy as int,
                            d,
                            border,
                        ),
                    match p {
                        Some(o) => {
                            &&& o + src.channels <= src.data@.len()
                            &&& forall|d: int|
                                0 <= d < src.channels ==> #[trigger] src.data@[o + d] == tap(
                                    src,
                                    sx as int,
                                    sy as int,
                                    d,
                                    border,
                                )
                        },
                        None => forall|d: int| #[trigger]
                            tap(src, sx as int, sy as int, d, border) == 0,
                    },
                decreases src.channels - c,
            {
                let ghost before = out@;
                match p {
                    Some(o) => {
                        assert(src.data@[o + c] == tap(src, sx as int, sy as int, c as int, border));
                        assert(src.data@.len() == src.data.len());
                        out.push(src.data[o + c]);
                    },
                    None => {
                        assert(tap(src, sx as int, sy as int, c as int, border) == 0);
                        out.push(0);
                    },
                }
                assert(forall|i: int| 0 <= i < before.len() ==> out@[i] == #[trigger] before[i]);
                c = c + 1;
            }
        },
        Interp::Linear => {
            let ux: u64 = (sx as i64 + 0x8000_0000) as u64;
            let uy: u64 = (sy as i64 + 0x8000_0000) as u64;
            let fx: usize = (ux % 32) as usize;
            let fy: usize = (uy % 32) as usize;
            let ix: i32 = ((ux / 32) as i64 - 0x400_0000) as i32;
            let iy: i32 = ((uy / 32) as i64 - 0x400_0000) as i32;
            assert(ix == sx as int / 32 && fx == sx as int % 32);
            assert(iy == sy as int / 32 && fy == sy as int % 32);
            let p0: Option<usize> = tap_offset(src, ix, iy, border);
            let p1: Option<usize> = tap_offset(src, ix + 1, iy, border);
            let p2: Option<usize> = tap_offset(src, ix, iy + 1, border);
            let p3: Option<usize> = tap_offset(src, ix + 1, iy + 1, border);
            let co: [i16; 4] = tab[fy * 32 + fx];
            proof {
                lemma_bilinear_coef_sum(fy as int, fx as int);
                assert(tab@[fy * 32 + fx]@[0] == bilinear_coef(fy as int, fx as int, 0));
                assert(tab@[fy * 32 + fx]@[1] == bilinear_coef(fy as int, fx as int, 1));
                assert(tab@[fy * 32 + fx]@[2] == bilinear_coef(fy as int, fx as int, 2));
                assert(tab@[fy * 32 + fx]@[3] == bilinear_coef(fy as int, fx as int, 3));
            }
            while c < src.channels
                invariant
                    readable(src, border),
                    c <= src.channels,
                    out@.len() == n0 + c,
                    n0 == old(out)@.len(),
                    0 <= fx < 32,
                    0 <= fy < 32,
                    ix == sx as int / 32,
                    fx == sx as int % 32,
                    iy == sy as int / 32,
                    fy == sy as int % 32,
                    co@[0] == bilinear_coef(fy as int, fx as int, 0),
                    co@[1] == bilinear_coef(fy as int, fx as int, 1),
                    co@[2] == bilinear_coef(fy as int, fx as int, 2),
                    co@[3] == bilinear_coef(fy as int, fx as int, 3),
                    forall|i: int| 0 <= i < n0 ==> out@[i] == #[trigger] old(out)@[i],
                    forall|d: int|
                        0 <= d < c ==> #[trigger] out@[n0 + d] == linear_sample(
                            src,
                            sx as int,
                            sy as int,
                            d,
                            border,
                        ),
                    tap_is(src, p0, ix as int, iy as int, border),
                    tap_is(src, p1, ix + 1, iy as int, border),
                    tap_is(src, p2, ix as int, iy + 1, border),
                    tap_is(src, p3, ix + 1, iy + 1, border),
                decreases src.channels - c,
            {
                let ghost before = out@;
                let t0: i32 = read_tap(src, p0, c, Ghost(ix as int), Ghost(iy as int), Ghost(border));
                let t1: i32 = read_tap(src, p1, c, Ghost(ix + 1), Ghost(iy as int), Ghost(border));
                let t2: i32 = read_tap(src, p2, c, Ghost(ix as int), Ghost(iy + 1), Ghost(border));
                let t3: i32 = read_tap(src, p3, c, Ghost(ix + 1), Ghost(iy + 1), Ghost(border));
                proof {
                    lemma_bilinear_coef_sum(fy as int, fx as int);
                    lemma_weighted_range(
                        t0 as int,
                        t1 as int,
                        t2 as int,
                        t3 as int,
                        co@[0] as int,
                        co@[1] as int,
                        co@[2] as int,
                        co@[3] as int,
                        0,
                        255,
                    );
                    lemma_product_range(t0 as int, co@[0] as int);
                    lemma_product_range(t1 as int, co@[1] as int);
                    lemma_product_range(t2 as int, co@[2] as int);
                    lemma_product_range(t3 as int, co@[3] as int);
                }
                let acc: i32 = t0 * co[0] as i32 + t1 * co[1] as i32 + t2 * co[2] as i32 + t3
                    * co[3] as i32;
                out.push(((acc + 16384) / 32768) as u8);
                assert(forall|i: int| 0 <= i < before.len() ==> out@[i] == #[trigger] before[i]);
                c = c + 1;
            }
        },
    }
}

proof fn lemma_product_range(t: int, c: int)
    requires
        0 <= t <= 255,
        0 <= c <= 32767,
    ensures
        0 <= t * c <= 255 * 32767,
{
    assert(0 <= t * c <= 255 * 32767) by (nonlinear_arith)
        requires
            0 <= t <= 255,
            0 <= c <= 32767,
    ;
}

/// `p` is the offset of the pixel that stands for (`x`, `y`).
spec fn tap_is(src: &PixelImage, p: Option<usize>, x: int, y: int, border: Border) -> bool {
    match p {
        Some(o) => {
            &&& o + src.channels <= src.data@.len()
            &&& forall|d: int|
                0 <= d < src.channels ==> #[trigger] src.data@[o + d] == tap(src, x, y, d, border)
        },
        None => forall|d: int| #[trigger] tap(src, x, y, d, border) == 0,
    }
}

fn read_tap(
    src: &PixelImage,
    p: Option<usize>,
    c: usize,
    Ghost(x): Ghost<int>,
    Ghost(y): Ghost<int>,
    Ghost(border): Ghost<Border>,
) -> (v: i32)
    requires
        tap_is(src, p, x, y, border),
        c < src.channels,
    ensures
        v == tap(src, x, y, c as int, border),
        0 <= v <= 255,
{
    match p {
        Some(o) => {
            assert(src.data@[o + c] == tap(src, x, y, c as int, border));
            assert(src.data@.len() == src.data.len());
            src.data[o + c] as i32
        },
        None => {
            assert(tap(src, x, y, c as int, border) == 0);
            0
        },
    }
}

/// Renders an image of `dw` by `rows` pixels: pixel `i` is `src` read at
/// `map[i]`.
pub fn remap(
    src: &PixelImage,
    map: &[(i32, i32)],
    dw: usize,
    rows: usize,
    interp: Interp,
    border: Border,
) -> (img: PixelImage)
    requires
        readable(src, border),
        map@.len() == dw * rows,
    ensures
        img.wf(),
        img.width == dw,
        img.height == rows,
        img.channels == src.channels,
        forall|i: int, c: int|
            0 <= i < map@.len() && 0 <= c < src.channels ==> #[trigger] img.data@[i * src.channels
                + c] == sample_at(
                src,
                map@[i].0 as int,
                map@[i].1 as int,
                c,
                interp,
                border,
            ),
{
    let tab: Vec<[i16; 4]> = bilinear_tab();
    let mut out: Vec<u8> = Vec::new();
    let n: usize = map.len();
    let mut i: usize = 0;
    assert(0 * src.channels == 0);
    while i < n
        invariant
            readable(src, border),
            n == map@.len(),
            i <= n,
            tab@.len() == 1024,
            forall|fy: int, fx: int, k: int|
                0 <= fy < 32 && 0 <= fx < 32 && 0 <= k < 4 ==> (#[trigger] tab@[fy * 32 + fx]@[k])
                    == bilinear_coef(fy, fx, k),
            out@.len() == i * src.channels,
            forall|j: int, c: int|
                0 <= j < i && 0 <= c < src.channels ==> #[trigger] out@[j * src.channels + c]
                    == sample_at(src, map@[j].0 as int, map@[j].1 as int, c, interp, border),
        decreases n - i,
    {
        let (sx, sy): (i32, i32) = map[i];
        let ghost before = out@;
        sample(src, &tab, sx, sy, interp, border, &mut out);
        proof {
            let ch = src.channels as int;
            assert((i + 1) * ch == i * ch + ch) by (nonlinear_arith);
            assert forall|j: int, c: int|
                0 <= j < i + 1 && 0 <= c < ch implies #[trigger] out@[j * ch + c] == sample_at(
                src,
                map@[j].0 as int,
                map@[j].1 as int,
                c,
                interp,
                border,
            ) by {
                if j < i {
                    assert(0 <= j * ch + c < i * ch) by (nonlinear_arith)
                        requires
                            0 <= j < i,
                            0 <= c < ch,
                    ;
                    assert(out@[j * ch + c] == before[j * ch + c]);
                } else {
                    assert(j * ch + c == before.len() + c);
                }
            }
        }
        i = i + 1;
    }
    PixelImage::new(dw, rows, src.channels, out)
}

/// Rows `[y0, y1)` of an image of `dh` rows: both ends cut to the image, and
/// how many rows there are between them.
pub fn row_window(y0: usize, y1: usize, dh: usize) -> (r: (usize, usize, usize))
    ensures
        r.0 == if y0 < dh { y0 } else { dh },
        r.1 == if y1 < dh { y1 } else { dh },
        r.2 == if r.0 < r.1 { r.1 - r.0 } else { 0 },
{
    let a: usize = if y0 < dh { y0 } else { dh };
    let b: usize = if y1 < dh { y1 } else { dh };
    (a, b, if a < b { b - a } else { 0 })
}

/// A rectangle from its first and last pixel: (x, y, width, height).
pub fn roi_of(tl: (i32, i32), br: (i32, i32)) -> (r: (i32, i32, i32, i32))
    requires
        i32::MIN <= br.0 - tl.0 < i32::MAX,
        i32::MIN <= br.1 - tl.1 < i32::MAX,
    ensures
        r.0 == tl.0,
        r.1 == tl.1,
        r.2 == br.0 - tl.0 + 1,
        r.3 == br.1 - tl.1 + 1,
{
    (tl.0, tl.1, br.0 - tl.0 + 1, br.1 - tl.1 + 1)
}

/// A tap is the pixel it falls on. Off the image it is 0, or what the image
/// shows in the mirror at its edge, whose own pixels are repeated.
pub proof fn lemma_tap(src: &PixelImage, x: int, y: int, c: int)
    requires
        src.width >= 1,
        src.height >= 1,
    ensures
        0 <= x < src.width && 0 <= y < src.height ==> {
            let v = src.data@[(y * src.width + x) * src.channels + c] as int;
            tap(src, x, y, c, Border::Constant0) == v && tap(src, x, y, c, Border::Reflect) == v
        },
        !(0 <= x < src.width && 0 <= y < src.height) ==> tap(src, x, y, c, Border::Constant0) == 0,
        tap(src, -1 - x, y, c, Border::Reflect) == tap(src, x, y, c, Border::Reflect),
        tap(src, 2 * src.width - 1 - x, y, c, Border::Reflect) == tap(
            src,
            x,
            y,
            c,
            Border::Reflect,
        ),
        tap(src, x, -1 - y, c, Border::Reflect) == tap(src, x, y, c, Border::Reflect),
        tap(src, x, 2 * src.height - 1 - y, c, Border::Reflect) == tap(
            src,
            x,
            y,
            c,
            Border::Reflect,
        ),
{
    let (w, h) = (src.width as int, src.height as int);
    crate::border::lemma_mirror_range(x, w);
    crate::border::lemma_mirror_range(y, h);
    crate::border::lemma_mirror_left(x, w);
    crate::border::lemma_mirror_right(x, w);
    crate::border::lemma_mirror_left(y, h);
    crate::border::lemma_mirror_right(y, h);
}

/// How near a place, in 32nds of a pixel, is to pixel `i`: 32 on it, less the
/// further off, and 0 from one pixel on.
pub open spec fn nearness(s: int, i: int) -> int {
    let d = if s >= 32 * i { s - 32 * i } else { 32 * i - s };
    if d < 32 { 32 - d } else { 0 }
}

/// Sampling between pixels takes each of the four around by how near it is,
/// across times down, and rounds to the nearest, halves up. Sampling to the
/// nearest takes the pixel alone.
pub proof fn lemma_sample_weighs(
    src: &PixelImage,
    sx: int,
    sy: int,
    c: int,
    border: Border,
    x: int,
    y: int,
)
    requires
        32 * x <= sx < 32 * x + 32,
        32 * y <= sy < 32 * y + 32,
    ensures
        ({
            let part = |i: int, j: int|
                tap(src, i, j, c, border) * (nearness(sx, i) * nearness(sy, j));
            let sum = part(x, y) + part(x + 1, y) + part(x, y + 1) + part(x + 1, y + 1);
            let v = sample_at(src, sx, sy, c, Interp::Linear, border);
            1024 * v <= sum + 512 < 1024 * v + 1024
        }),
        sample_at(src, x, y, c, Interp::Nearest, border) == tap(src, x, y, c, border),
{
    let (fx, fy) = (sx - 32 * x, sy - 32 * y);
    assert(sx / 32 == x && sx % 32 == fx && sy / 32 == y && sy % 32 == fy);
    assert(nearness(sx, x) == 32 - fx && nearness(sx, x + 1) == fx);
    assert(nearness(sy, y) == 32 - fy && nearness(sy, y + 1) == fy);
    let t00 = tap(src, x, y, c, border);
    let t10 = tap(src, x + 1, y, c, border);
    let t01 = tap(src, x, y + 1, c, border);
    let t11 = tap(src, x + 1, y + 1, c, border);
    let (a, b) = (32 - fx, 32 - fy);
    assert(a * b == b * a && fx * b == b * fx && a * fy == fy * a && fx * fy == fy * fx)
        by (nonlinear_arith);
    if fx == 0 && fy == 0 {
        lemma_linear_on_pixel(src, x, y, c, border);
        assert(t00 * (a * b) == 1024 * t00 && t10 * (fx * b) == 0 && t01 * (a * fy) == 0 && t11 * (fx
            * fy) == 0) by (nonlinear_arith)
            requires
                fx == 0,
                fy == 0,
                a == 32,
                b == 32,
        ;
    } else {
        assert(t00 * (32 * (b * a)) == 32 * (t00 * (a * b))) by (nonlinear_arith);
        assert(t10 * (32 * (b * fx)) == 32 * (t10 * (fx * b))) by (nonlinear_arith);
        assert(t01 * (32 * (fy * a)) == 32 * (t01 * (a * fy))) by (nonlinear_arith);
        assert(t11 * (32 * (fy * fx)) == 32 * (t11 * (fx * fy))) by (nonlinear_arith);
    }
}

} // verus!
