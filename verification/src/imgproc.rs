//! Grayscale images, fixed-point luma and border reflection.

use crate::border::mirror101;
use vstd::prelude::*;

verus! {

/// Single-channel 8-bit image, tightly packed row by row.
#[derive(Debug, Clone)]
pub struct GrayImage {
    pub width: usize,
    pub height: usize,
    pub data: Vec<u8>,
}

impl GrayImage {
    /// The buffer holds one byte per pixel.
    pub open spec fn wf(&self) -> bool {
        self.data@.len() == self.width * self.height
    }

    /// The pixel in column `x` of row `y`.
    pub open spec fn px(&self, x: int, y: int) -> u8 {
        self.data@[y * self.width + x]
    }

    pub fn new(width: usize, height: usize, data: Vec<u8>) -> (img: Self)
        requires
            data@.len() == width * height,
        ensures
            img.wf(),
            img.width == width,
            img.height == height,
            img.data@ == data@,
    {
        GrayImage { width, height, data }
    }

    pub fn at(&self, x: usize, y: usize) -> (v: u8)
        requires
            self.wf(),
            x < self.width,
            y < self.height,
        ensures
            v == self.px(x as int, y as int),
    {
        proof {
            lemma_index(x as int, y as int, self.width as int, self.height as int);
            assert(self.data@.len() == self.data.len());
        }
        self.data[y * self.width + x]
    }

    pub fn row(&self, y: usize) -> (r: &[u8])
        requires
            self.wf(),
            y < self.height,
        ensures
            r@.len() == self.width,
            forall|x: int| 0 <= x < self.width ==> #[trigger] r@[x] == self.px(x, y as int),
    {
        proof {
            if self.width > 0 {
                lemma_index(self.width - 1, y as int, self.width as int, self.height as int);
            } else {
                assert(y * self.width == 0) by (nonlinear_arith)
                    requires
                        self.width == 0,
                ;
            }
            assert(self.data@.len() == self.data.len());
        }
        vstd::slice::slice_subrange(
            self.data.as_slice(),
            y * self.width,
            y * self.width + self.width,
        )
    }
}

/// A pixel inside a `w` by `h` grid lies inside the grid's buffer.
pub proof fn lemma_index(x: int, y: int, w: int, h: int)
    requires
        0 <= x < w,
        0 <= y < h,
    ensures
        0 <= y * w,
        y * w + x < w * h,
        0 <= y * w + x,
        y * w + w <= w * h,
{
    assert(0 <= y * w) by (nonlinear_arith)
        requires
            0 <= y,
            0 < w,
    ;
    assert(y * w + w <= w * h) by (nonlinear_arith)
        requires
            0 <= y < h,
            0 < w,
    ;
}

/// Row and column are recovered from a buffer index.
pub proof fn lemma_index_split(x: int, y: int, w: int)
    requires
        0 <= x < w,
        0 <= y,
    ensures
        (y * w + x) / w == y,
        (y * w + x) % w == x,
{
    vstd::arithmetic::div_mod::lemma_fundamental_div_mod_converse(y * w + x, w, y, x);
}

/// Luma of a colour in 14-bit fixed point, rounded to the nearest integer.
pub open spec fn luma(r: u8, g: u8, b: u8) -> u8 {
    ((4899 * r + 9617 * g + 1868 * b + 8192) / 16384) as u8
}

pub(crate) fn luma_of(r: u8, g: u8, b: u8) -> (y: u8)
    ensures
        y == luma(r, g, b),
{
    let v: u32 = 4899 * r as u32 + 9617 * g as u32 + 1868 * b as u32 + 8192;
    (v / 16384) as u8
}

/// Fixed-point luma of a packed RGBA image; alpha is ignored.
pub fn rgba_to_gray_cv(rgba: &[u8], width: usize, height: usize) -> (img: GrayImage)
    requires
        rgba@.len() / 4 == width * height,
    ensures
        img.wf(),
        img.width == width,
        img.height == height,
        forall|i: int|
            0 <= i < width * height ==> #[trigger] img.data@[i] == luma(
                rgba@[4 * i],
                rgba@[4 * i + 1],
                rgba@[4 * i + 2],
            ),
{
    let n: usize = rgba.len() / 4;
    let mut data: Vec<u8> = Vec::new();
    let mut i: usize = 0;
    while i < n
        invariant
            n == rgba@.len() / 4,
            rgba@.len() <= usize::MAX,
            i <= n,
            data@.len() == i,
            forall|k: int|
                0 <= k < i ==> #[trigger] data@[k] == luma(
                    rgba@[4 * k],
                    rgba@[4 * k + 1],
                    rgba@[4 * k + 2],
                ),
        decreases n - i,
    {
        data.push(luma_of(rgba[4 * i], rgba[4 * i + 1], rgba[4 * i + 2]));
        i = i + 1;
    }
    GrayImage::new(width, height, data)
}

/// Fixed-point luma of a packed RGB image.
pub fn rgb_to_gray_cv(rgb: &[u8], width: usize, height: usize) -> (img: GrayImage)
    requires
        rgb@.len() / 3 == width * height,
    ensures
        img.wf(),
        img.width == width,
        img.height == height,
        forall|i: int|
            0 <= i < width * height ==> #[trigger] img.data@[i] == luma(
                rgb@[3 * i],
                rgb@[3 * i + 1],
                rgb@[3 * i + 2],
            ),
{
    let n: usize = rgb.len() / 3;
    let mut data: Vec<u8> = Vec::new();
    let mut i: usize = 0;
    while i < n
        invariant
            n == rgb@.len() / 3,
            rgb@.len() <= usize::MAX,
            i <= n,
            data@.len() == i,
            forall|k: int|
                0 <= k < i ==> #[trigger] data@[k] == luma(
                    rgb@[3 * k],
                    rgb@[3 * k + 1],
                    rgb@[3 * k + 2],
                ),
        decreases n - i,
    {
        data.push(luma_of(rgb[3 * i], rgb[3 * i + 1], rgb[3 * i + 2]));
        i = i + 1;
    }
    GrayImage::new(width, height, data)
}

/// Index of the pixel that stands for `idx` in a line of `len` pixels
/// mirrored at its outer pixels.
pub fn reflect101(idx: isize, len: usize) -> (r: usize)
    requires
        1 <= len <= isize::MAX,
        len > 1 || idx == 0,
        -isize::MAX <= idx,
    ensures
        r == mirror101(idx as int, len as int),
        r < len,
{
    let n: isize = len as isize;
    let mut i: isize = idx;
    while i < 0 || i >= n
        invariant
            n == len,
            1 <= len <= isize::MAX,
            len > 1 || i == 0,
            -isize::MAX <= i,
            mirror101(i as int, len as int) == mirror101(idx as int, len as int),
        decreases
            if 0 <= i < n {
                0
            } else if i < 0 {
                -i
            } else {
                i as int
            },
    {
        if i < 0 {
            proof {
                crate::border::lemma_mirror101_left(i as int, len as int);
            }
            i = -i;
        }
        if i >= n {
            proof {
                crate::border::lemma_mirror101_right(i as int, len as int);
            }
            i = (n - 1) - (i - (n - 1));
        }
    }
    proof {
        crate::border::lemma_mirror101_range(i as int, len as int);
    }
    i as usize
}

/// Luma is that of BT.601, 0.299 red, 0.587 green and 0.114 blue, to the
/// nearest but for a seventieth. A gray is its own luma, and no component
/// lowers it.
pub proof fn lemma_luma(r: u8, g: u8, b: u8, v: u8)
    ensures
        -514 <= 1000 * luma(r, g, b) - (299 * r + 587 * g + 114 * b) <= 514,
        luma(v, v, v) == v,
        r <= v ==> luma(r, g, b) <= luma(v, g, b),
        g <= v ==> luma(r, g, b) <= luma(r, v, b),
        b <= v ==> luma(r, g, b) <= luma(r, g, v),
{
}

} // verus!
