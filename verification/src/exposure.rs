//! Exposure compensation: the blocks that images are cut into, the pixels
//! that two blocks share, and which blocks have anything to compare.

use crate::border::mirror101;
use crate::imgproc::lemma_index;
use crate::imgproc::lemma_index_split;
use crate::imgproc::GrayImage;
use crate::seam::common_rect;
use vstd::prelude::*;

verus! {

/// Interleaved image with three bytes a pixel.
#[derive(Debug, Clone)]
pub struct RgbImage {
    pub width: usize,
    pub height: usize,
    pub data: Vec<u8>,
}

impl RgbImage {
    /// The buffer holds three bytes a pixel.
    pub open spec fn wf(&self) -> bool {
        self.data@.len() == self.width * self.height * 3
    }

    /// Component `c` of the pixel in column `x` of row `y`.
    pub open spec fn px(&self, x: int, y: int, c: int) -> u8 {
        self.data@[(y * self.width + x) * 3 + c]
    }

    pub fn new(width: usize, height: usize, data: Vec<u8>) -> (img: Self)
        requires
            data@.len() == width * height * 3,
        ensures
            img.wf(),
            img.width == width,
            img.height == height,
            img.data@ == data@,
    {
        RgbImage { width, height, data }
    }

    /// One row, three bytes a pixel.
    pub fn row(&self, y: usize) -> (r: &[u8])
        requires
            self.wf(),
            y < self.height,
        ensures
            r@ == self.data@.subrange(y * self.width * 3, (y + 1) * self.width * 3),
    {
        proof {
            assert(self.data@.len() == self.data.len());
            assert(0 <= y * self.width * 3) by (nonlinear_arith);
            assert(y * self.width <= (y + 1) * self.width) by (nonlinear_arith);
            assert((y + 1) * self.width <= self.width * self.height) by (nonlinear_arith)
                requires
                    y + 1 <= self.height,
            ;
        }
        vstd::slice::slice_subrange(
            self.data.as_slice(),
            y * self.width * 3,
            (y + 1) * self.width * 3,
        )
    }
}

/// Intersection of two placed rectangles, as (x, y, width, height).
pub fn overlap_roi(
    tl1: (i32, i32),
    sz1: (i32, i32),
    tl2: (i32, i32),
    sz2: (i32, i32),
) -> (r: Option<(i32, i32, i32, i32)>)
    requires
        i32::MIN <= tl1.0 + sz1.0 <= i32::MAX,
        i32::MIN <= tl1.1 + sz1.1 <= i32::MAX,
        i32::MIN <= tl2.0 + sz2.0 <= i32::MAX,
        i32::MIN <= tl2.1 + sz2.1 <= i32::MAX,
    ensures
        ({
            let c = common_rect(tl1, tl2, sz1, sz2);
            match r {
                Some(q) => c.2 > 0 && c.3 > 0 && q.0 == c.0 && q.1 == c.1 && q.2 == c.2 && q.3
                    == c.3,
                None => c.2 <= 0 || c.3 <= 0,
            }
        }),
{
    crate::seam::overlap_roi(tl1, tl2, sz1, sz2)
}

/// The pixel that stands for `p` in a row of `len` mirrored at its ends.
pub fn border_reflect_101(p: i64, len: i64) -> (r: usize)
    requires
        1 <= len <= usize::MAX,
        p > i64::MIN,
    ensures
        r == mirror101(p as int, len as int),
        r < len,
{
    if len == 1 {
        return 0;
    }
    let mut q: i64 = p;
    while q < 0 || q >= len
        invariant
            2 <= len,
            q > i64::MIN,
            mirror101(q as int, len as int) == mirror101(p as int, len as int),
        decreases
            if 0 <= q < len {
                0
            } else if q < 0 {
                -2 * q + 1
            } else {
                2 * q
            },
    {
        if q < 0 {
            proof {
                crate::border::lemma_mirror101_left(q as int, len as int);
            }
            q = -q;
        } else {
            proof {
                crate::border::lemma_mirror101_right(q as int, len as int);
            }
            q = (len - 1) - (q - (len - 1));
        }
    }
    proof {
        crate::border::lemma_mirror101_range(q as int, len as int);
    }
    q as usize
}

/// Largest extent of a block.
pub const BLOCK: usize = 32;

/// Blocks that `n` pixels are cut into.
pub open spec fn block_count(n: int) -> int {
    (n + BLOCK - 1) / BLOCK as int
}

/// Pixels of a block, so that the blocks are as even as can be.
pub open spec fn block_step(n: int) -> int {
    (n + block_count(n) - 1) / block_count(n)
}

/// Where block `b` of `n` pixels ends.
pub open spec fn block_end(n: int, b: int) -> int {
    if (b + 1) * block_step(n) < n {
        (b + 1) * block_step(n)
    } else {
        n
    }
}

/// Blocks are cut one behind the other, none of them empty, and the last ends
/// with the pixels.
proof fn lemma_block_bounds(n: int)
    requires
        n >= 1,
    ensures
        1 <= block_count(n) <= n,
        1 <= block_step(n) <= BLOCK,
        block_count(n) * block_step(n) >= n,
        (block_count(n) - 1) * block_step(n) < n,
{
    let k = block_count(n);
    let s = block_step(n);
    assert(32 * (k - 1) < n <= 32 * k);
    vstd::arithmetic::div_mod::lemma_fundamental_div_mod(n + k - 1, k);
    assert(s * k >= n) by (nonlinear_arith)
        requires
            n + k - 1 == k * s + (n + k - 1) % k,
            (n + k - 1) % k <= k - 1,
    ;
    assert(k * s == s * k) by (nonlinear_arith);
    assert(s >= 1) by (nonlinear_arith)
        requires
            s * k >= n,
            n >= 1,
            k >= 1,
    ;
    assert(s <= 32) by (nonlinear_arith)
        requires
            n + k - 1 == k * s + (n + k - 1) % k,
            (n + k - 1) % k >= 0,
            n <= 32 * k,
            k >= 1,
    ;
    assert((k - 1) * s <= (k - 1) * 32) by (nonlinear_arith)
        requires
            s <= 32,
            k >= 1,
    ;
}

/// Each pixel lies in exactly one block.
pub proof fn lemma_blocks_tile(n: int, x: int)
    requires
        n >= 1,
        0 <= x < n,
    ensures
        ({
            let b = x / block_step(n);
            &&& 0 <= b < block_count(n)
            &&& b * block_step(n) <= x < block_end(n, b)
            &&& forall|c: int|
                0 <= c < block_count(n) && c * block_step(n) <= x < #[trigger] block_end(n, c) ==> c
                    == b
        }),
{
    lemma_block_bounds(n);
    let s = block_step(n);
    let k = block_count(n);
    let b = x / s;
    vstd::arithmetic::div_mod::lemma_fundamental_div_mod(x, s);
    assert(s * b == b * s) by (nonlinear_arith);
    assert((b + 1) * s == b * s + s) by (nonlinear_arith);
    assert(0 <= b) by (nonlinear_arith)
        requires
            x >= 0,
            s >= 1,
            x == b * s + x % s,
            x % s < s,
    ;
    assert(b < k) by (nonlinear_arith)
        requires
            b * s <= x,
            x < n,
            n <= k * s,
            s >= 1,
    ;
    assert forall|c: int| 0 <= c < k && c * s <= x < #[trigger] block_end(n, c) implies c == b by {
        assert((c + 1) * s == c * s + s) by (nonlinear_arith);
        if c < b {
            assert(c * s + s <= b * s) by (nonlinear_arith)
                requires
                    c + 1 <= b,
                    s >= 1,
            ;
        }
        if c > b {
            assert(b * s + s <= c * s) by (nonlinear_arith)
                requires
                    b + 1 <= c,
                    s >= 1,
            ;
        }
    }
}

/// A rectangle of an image, placed on the panorama.
#[derive(Debug, Clone, Copy, PartialEq, Eq)]
pub struct Block {
    pub corner: (i32, i32),
    pub width: usize,
    pub height: usize,
    /// Where the block lies in its image.
    pub x0: usize,
    pub y0: usize,
}

/// Block (`bx`, `by`) of an image of `w` by `h` pixels placed at `corner`.
pub open spec fn is_block(
    b: Block,
    corner: (i32, i32),
    w: int,
    h: int,
    bx: int,
    by: int,
) -> bool {
    &&& b.x0 == bx * block_step(w)
    &&& b.y0 == by * block_step(h)
    &&& b.x0 + b.width == block_end(w, bx)
    &&& b.y0 + b.height == block_end(h, by)
    &&& b.corner.0 == corner.0 + b.x0
    &&& b.corner.1 == corner.1 + b.y0
}

/// Cuts an image into blocks. Gives the blocks in a row, the rows, and the
/// blocks row by row.
#[verifier::spinoff_prover]
pub fn cut_blocks(corner: (i32, i32), w: usize, h: usize) -> (r: (usize, usize, Vec<Block>))
    requires
        1 <= w <= i32::MAX,
        1 <= h <= i32::MAX,
        corner.0 + w <= i32::MAX,
        corner.1 + h <= i32::MAX,
    ensures
        r.0 == block_count(w as int),
        r.1 == block_count(h as int),
        r.2@.len() == r.0 * r.1,
        forall|i: int|
            0 <= i < r.2@.len() ==> is_block(
                #[trigger] r.2@[i],
                corner,
                w as int,
                h as int,
                i % (r.0 as int),
                i / (r.0 as int),
            ),
{
    let per_w: usize = (w + BLOCK - 1) / BLOCK;
    let per_h: usize = (h + BLOCK - 1) / BLOCK;
    proof {
        lemma_block_bounds(w as int);
        lemma_block_bounds(h as int);
    }
    let step_x: usize = (w + per_w - 1) / per_w;
    let step_y: usize = (h + per_h - 1) / per_h;
    let mut blocks: Vec<Block> = Vec::new();
    let mut by: usize = 0;
    while by < per_h
        invariant
            1 <= w <= i32::MAX,
            1 <= h <= i32::MAX,
            corner.0 + w <= i32::MAX,
            corner.1 + h <= i32::MAX,
            per_w == block_count(w as int),
            per_h == block_count(h as int),
            step_x == block_step(w as int),
            step_y == block_step(h as int),
            1 <= per_w <= w,
            1 <= per_h <= h,
            1 <= step_x <= 32,
            1 <= step_y <= 32,
            (per_w - 1) * step_x < w,
            (per_h - 1) * step_y < h,
            by <= per_h,
            blocks@.len() == by * per_w,
            forall|i: int|
                0 <= i < blocks@.len() ==> is_block(
                    #[trigger] blocks@[i],
                    corner,
                    w as int,
                    h as int,
                    i % (per_w as int),
                    i / (per_w as int),
                ),
        decreases per_h - by,
    {
        let mut bx: usize = 0;
        while bx < per_w
            invariant
                1 <= w <= i32::MAX,
                1 <= h <= i32::MAX,
                corner.0 + w <= i32::MAX,
                corner.1 + h <= i32::MAX,
                per_w == block_count(w as int),
                per_h == block_count(h as int),
                step_x == block_step(w as int),
                step_y == block_step(h as int),
                1 <= per_w <= w,
                1 <= per_h <= h,
                1 <= step_x <= 32,
                1 <= step_y <= 32,
                (per_w - 1) * step_x < w,
                (per_h - 1) * step_y < h,
                by < per_h,
                bx <= per_w,
                blocks@.len() == by * per_w + bx,
                forall|i: int|
                    0 <= i < blocks@.len() ==> is_block(
                        #[trigger] blocks@[i],
                        corner,
                        w as int,
                        h as int,
                        i % (per_w as int),
                        i / (per_w as int),
                    ),
            decreases per_w - bx,
        {
            proof {
                assert(bx * step_x <= (per_w - 1) * step_x) by (nonlinear_arith)
                    requires
                        0 <= bx <= per_w - 1,
                        step_x >= 1,
                ;
                assert(by * step_y <= (per_h - 1) * step_y) by (nonlinear_arith)
                    requires
                        0 <= by <= per_h - 1,
                        step_y >= 1,
                ;
                assert((bx + 1) * step_x == bx * step_x + step_x) by (nonlinear_arith);
                assert((by + 1) * step_y == by * step_y + step_y) by (nonlinear_arith);
                assert(0 <= bx * step_x && 0 <= by * step_y) by (nonlinear_arith);
            }
            let x0: usize = bx * step_x;
            let y0: usize = by * step_y;
            let x1: usize = if x0 + step_x < w {
                x0 + step_x
            } else {
                w
            };
            let y1: usize = if y0 + step_y < h {
                y0 + step_y
            } else {
                h
            };
            let b = Block {
                corner: (corner.0 + x0 as i32, corner.1 + y0 as i32),
                width: x1 - x0,
                height: y1 - y0,
                x0,
                y0,
            };
            proof {
                lemma_index_split(bx as int, by as int, per_w as int);
            }
            blocks.push(b);
            bx = bx + 1;
        }
        proof {
            assert(by * per_w + per_w == (by + 1) * per_w) by (nonlinear_arith);
        }
        by = by + 1;
    }
    proof {
        assert(per_h * per_w == per_w * per_h) by (nonlinear_arith);
    }
    (per_w, per_h, blocks)
}

/// Squared length of a pixel's colour.
pub open spec fn squared(img: &RgbImage, x: int, y: int) -> int {
    img.px(x, y, 0) * img.px(x, y, 0) + img.px(x, y, 1) * img.px(x, y, 1) + img.px(x, y, 2)
        * img.px(x, y, 2)
}

fn squared_at(img: &RgbImage, x: usize, y: usize) -> (s: u32)
    requires
        img.wf(),
        x < img.width,
        y < img.height,
    ensures
        s == squared(img, x as int, y as int),
{
    proof {
        lemma_index(x as int, y as int, img.width as int, img.height as int);
        assert(img.data@.len() == img.data.len());
    }
    let p: usize = (y * img.width + x) * 3;
    let (a, b, c) = (img.data[p] as u32, img.data[p + 1] as u32, img.data[p + 2] as u32);
    assert(a * a <= 255 * 255 && b * b <= 255 * 255 && c * c <= 255 * 255) by (nonlinear_arith)
        requires
            a <= 255,
            b <= 255,
            c <= 255,
    ;
    a * a + b * b + c * c
}

/// A block of an image, with its mask.
pub struct BlockView<'a> {
    pub block: Block,
    pub img: &'a RgbImage,
    pub mask: &'a GrayImage,
}

impl<'a> BlockView<'a> {
    /// The block lies in its image, and its place fits in 32 bits.
    pub open spec fn wf(&self) -> bool {
        &&& self.img.wf()
        &&& self.mask.wf()
        &&& self.img.width == self.mask.width
        &&& self.img.height == self.mask.height
        &&& self.block.x0 + self.block.width <= self.img.width
        &&& self.block.y0 + self.block.height <= self.img.height
        &&& self.block.width <= i32::MAX
        &&& self.block.height <= i32::MAX
        &&& self.block.corner.0 + self.block.width <= i32::MAX
        &&& self.block.corner.1 + self.block.height <= i32::MAX
    }

    /// Column in the image of panorama column `gx`.
    pub open spec fn col(&self, gx: int) -> int {
        gx - self.block.corner.0 + self.block.x0
    }

    /// Row in the image of panorama row `gy`.
    pub open spec fn row(&self, gy: int) -> int {
        gy - self.block.corner.1 + self.block.y0
    }

    /// The image is fully valid at a point of the panorama.
    pub open spec fn valid(&self, gx: int, gy: int) -> bool {
        self.mask.px(self.col(gx), self.row(gy)) == 255
    }

    pub open spec fn extent(&self) -> (i32, i32) {
        (self.block.width as i32, self.block.height as i32)
    }
}

/// Squared lengths of both blocks' colours at those of the first `k` points of
/// a rectangle, row by row, where both are valid.
pub open spec fn shared_until(
    b1: &BlockView,
    b2: &BlockView,
    rect: (int, int, int, int),
    k: int,
) -> Seq<(u32, u32)>
    decreases k,
{
    if k <= 0 {
        Seq::empty()
    } else {
        let before = shared_until(b1, b2, rect, k - 1);
        let gx = rect.0 + (k - 1) % rect.2;
        let gy = rect.1 + (k - 1) / rect.2;
        if b1.valid(gx, gy) && b2.valid(gx, gy) {
            before.push(
                (
                    squared(b1.img, b1.col(gx), b1.row(gy)) as u32,
                    squared(b2.img, b2.col(gx), b2.row(gy)) as u32,
                ),
            )
        } else {
            before
        }
    }
}

/// What two blocks share: none if they do not overlap, else the squared
/// lengths of both colours at every point where both are valid, row by row.
#[verifier::spinoff_prover]
#[verifier::rlimit(40)]
pub fn shared_pixels(b1: &BlockView, b2: &BlockView) -> (r: Option<Vec<(u32, u32)>>)
    requires
        b1.wf(),
        b2.wf(),
    ensures
        ({
            let c = common_rect(
                b1.block.corner,
                b2.block.corner,
                b1.extent(),
                b2.extent(),
            );
            match r {
                Some(list) => c.2 > 0 && c.3 > 0 && list@ == shared_until(b1, b2, c, c.2 * c.3),
                None => c.2 <= 0 || c.3 <= 0,
            }
        }),
{
    let (s1, s2) = (
        (b1.block.width as i32, b1.block.height as i32),
        (b2.block.width as i32, b2.block.height as i32),
    );
    let (rx, ry, rw, rh) = match overlap_roi(b1.block.corner, s1, b2.block.corner, s2) {
        Some(r) => r,
        None => {
            return None;
        },
    };
    let ghost c = common_rect(b1.block.corner, b2.block.corner, s1, s2);
    let l1x: usize = (rx - b1.block.corner.0) as usize + b1.block.x0;
    let l1y: usize = (ry - b1.block.corner.1) as usize + b1.block.y0;
    let l2x: usize = (rx - b2.block.corner.0) as usize + b2.block.x0;
    let l2y: usize = (ry - b2.block.corner.1) as usize + b2.block.y0;
    let w: usize = rw as usize;
    let h: usize = rh as usize;
    let mut list: Vec<(u32, u32)> = Vec::new();
    let mut y: usize = 0;
    while y < h
        invariant
            b1.wf(),
            b2.wf(),
            c == (rx as int, ry as int, w as int, h as int),
            l1x == b1.col(rx as int),
            l1y == b1.row(ry as int),
            l2x == b2.col(rx as int),
            l2y == b2.row(ry as int),
            l1x + w <= b1.img.width,
            l1y + h <= b1.img.height,
            l2x + w <= b2.img.width,
            l2y + h <= b2.img.height,
            w >= 1,
            y <= h,
            list@ == shared_until(b1, b2, c, y * w),
        decreases h - y,
    {
        let mut x: usize = 0;
        while x < w
            invariant
                b1.wf(),
                b2.wf(),
                c == (rx as int, ry as int, w as int, h as int),
                l1x == b1.col(rx as int),
                l1y == b1.row(ry as int),
                l2x == b2.col(rx as int),
                l2y == b2.row(ry as int),
                l1x + w <= b1.img.width,
                l1y + h <= b1.img.height,
                l2x + w <= b2.img.width,
                l2y + h <= b2.img.height,
                w >= 1,
                y < h,
                x <= w,
                list@ == shared_until(b1, b2, c, y * w + x),
            decreases w - x,
        {
            proof {
                lemma_index_split(x as int, y as int, w as int);
                assert(0 <= y * w) by (nonlinear_arith);
            }
            if b1.mask.at(l1x + x, l1y + y) == 255 && b2.mask.at(l2x + x, l2y + y) == 255 {
                let p: u32 = squared_at(b1.img, l1x + x, l1y + y);
                let q: u32 = squared_at(b2.img, l2x + x, l2y + y);
                list.push((p, q));
            }
            x = x + 1;
        }
        proof {
            assert(y * w + w == (y + 1) * w) by (nonlinear_arith);
        }
        y = y + 1;
    }
    proof {
        assert(h * w == w * h) by (nonlinear_arith);
    }
    Some(list)
}

/// How many pixels each pair of blocks shares, and which blocks share any.
#[derive(Debug)]
pub struct OverlapTable {
    pub n: usize,
    pub counts: Vec<i32>,
    pub skip: Vec<bool>,
}

impl OverlapTable {
    pub open spec fn wf(&self) -> bool {
        self.counts@.len() == self.n * self.n && self.skip@.len() == self.n
    }

    pub open spec fn count(&self, i: int, j: int) -> i32 {
        self.counts@[i * self.n + j]
    }

    pub fn new(n: usize) -> (t: Self)
        requires
            n * n <= usize::MAX,
        ensures
            t.wf(),
            t.n == n,
            forall|k: int| 0 <= k < t.counts@.len() ==> #[trigger] t.counts@[k] == 0,
            forall|k: int| 0 <= k < n ==> #[trigger] t.skip@[k],
    {
        let counts: Vec<i32> = vec![0i32; n * n];
        let skip: Vec<bool> = vec![true; n];
        OverlapTable { n, counts, skip }
    }

    /// Notes that overlapping blocks `i` and `j` share `shared` pixels. At
    /// least one counts; two blocks that share any are not skipped.
    pub fn note(&mut self, i: usize, j: usize, shared: usize)
        requires
            old(self).wf(),
            i < old(self).n,
            j < old(self).n,
            shared <= i32::MAX,
        ensures
            final(self).wf(),
            final(self).n == old(self).n,
            forall|a: int, b: int|
                0 <= a < old(self).n && 0 <= b < old(self).n ==> #[trigger] final(self).count(a, b)
                    == if (a == i && b == j) || (a == j && b == i) {
                    if shared == 0 {
                        1
                    } else {
                        shared as int
                    }
                } else {
                    old(self).count(a, b) as int
                },
            forall|a: int|
                0 <= a < old(self).n ==> #[trigger] final(self).skip@[a] == (old(self).skip@[a]
                    && !(shared > 0 && i != j && (a == i || a == j))),
    {
        let n: usize = self.n;
        let ghost c0 = self.counts@;
        let v: i32 = if shared == 0 {
            1
        } else {
            shared as i32
        };
        proof {
            lemma_index(j as int, i as int, n as int, n as int);
            lemma_index(i as int, j as int, n as int, n as int);
            assert(self.counts@.len() == self.counts.len());
        }
        self.counts.set(i * n + j, v);
        self.counts.set(j * n + i, v);
        if shared > 0 && i != j {
            self.skip.set(i, false);
            self.skip.set(j, false);
        }
        proof {
            assert forall|a: int, b: int| 0 <= a < n && 0 <= b < n implies #[trigger] self.count(a, b)
                == if (a == i && b == j) || (a == j && b == i) {
                if shared == 0 {
                    1
                } else {
                    shared as int
                }
            } else {
                c0[a * n + b] as int
            } by {
                lemma_index(b, a, n as int, n as int);
                lemma_index_split(b, a, n as int);
                lemma_index_split(j as int, i as int, n as int);
                lemma_index_split(i as int, j as int, n as int);
            }
        }
    }

    /// The blocks that are not skipped, in order: the unknowns to solve for.
    pub fn unknowns(&self) -> (r: Vec<usize>)
        requires
            self.wf(),
        ensures
            forall|a: int, b: int| 0 <= a < b < r@.len() ==> #[trigger] r@[a] < #[trigger] r@[b],
            forall|k: usize| #[trigger] r@.contains(k) <==> k < self.n && !self.skip@[k as int],
    {
        let mut r: Vec<usize> = Vec::new();
        let mut i: usize = 0;
        while i < self.n
            invariant
                self.wf(),
                i <= self.n,
                forall|a: int, b: int|
                    0 <= a < b < r@.len() ==> #[trigger] r@[a] < #[trigger] r@[b],
                forall|a: int| 0 <= a < r@.len() ==> #[trigger] r@[a] < i,
                forall|k: usize| #[trigger] r@.contains(k) <==> k < i && !self.skip@[k as int],
            decreases self.n - i,
        {
            let ghost r0 = r@;
            if !self.skip[i] {
                r.push(i);
            }
            proof {
                assert forall|k: usize| #[trigger] r@.contains(k) <==> k < i + 1
                    && !self.skip@[k as int] by {
                    if r@.contains(k) {
                        let z = r@.index_of(k);
                        if z < r0.len() {
                            assert(r0[z] == k);
                            assert(r0.contains(k));
                        }
                    }
                    if r0.contains(k) {
                        let z = r0.index_of(k);
                        assert(r@[z] == k);
                    }
                    if k == i && !self.skip@[i as int] {
                        assert(r@[r0.len() as int] == i);
                    }
                }
            }
            i = i + 1;
        }
        r
    }
}

/// An extent is cut into as few blocks as hold at most 32 pixels each, and
/// these are no larger than that takes.
pub proof fn lemma_block_size(n: int)
    requires
        n >= 1,
    ensures
        32 * (block_count(n) - 1) < n <= 32 * block_count(n),
        (block_step(n) - 1) * block_count(n) < n <= block_step(n) * block_count(n),
        block_step(n) <= 32,
{
    lemma_block_bounds(n);
    let k = block_count(n);
    let s = block_step(n);
    vstd::arithmetic::div_mod::lemma_fundamental_div_mod(n + k - 1, k);
    assert(k * s == s * k && (s - 1) * k == s * k - k) by (nonlinear_arith);
}

/// What the pixels of the blocks' overlap add to the list of shared pixels, in
/// reading order: where both masks are 255, the sums of the squared
/// components of the two images there, and nothing else.
pub proof fn lemma_shared_point(
    b1: &BlockView,
    b2: &BlockView,
    rect: (int, int, int, int),
    gx: int,
    gy: int,
)
    requires
        rect.0 <= gx < rect.0 + rect.2,
        rect.1 <= gy < rect.1 + rect.3,
    ensures
        ({
            let k = (gy - rect.1) * rect.2 + (gx - rect.0);
            let place = |b: &BlockView|
                (gy - b.block.corner.1 + b.block.y0) * b.img.width + (gx - b.block.corner.0
                    + b.block.x0);
            let spot = |b: &BlockView|
                (gy - b.block.corner.1 + b.block.y0) * b.mask.width + (gx - b.block.corner.0
                    + b.block.x0);
            let sum = |b: &BlockView|
                {
                    let (r, g, l) = (
                        b.img.data@[place(b) * 3],
                        b.img.data@[place(b) * 3 + 1],
                        b.img.data@[place(b) * 3 + 2],
                    );
                    (r * r + g * g + l * l) as u32
                };
            shared_until(b1, b2, rect, k + 1) == shared_until(b1, b2, rect, k) + if b1.mask.data@[spot(
                b1,
            )] == 255 && b2.mask.data@[spot(b2)] == 255 {
                seq![(sum(b1), sum(b2))]
            } else {
                Seq::empty()
            }
        }),
        shared_until(b1, b2, rect, 0) == Seq::<(u32, u32)>::empty(),
{
    let k = (gy - rect.1) * rect.2 + (gx - rect.0);
    crate::imgproc::lemma_index_split(gx - rect.0, gy - rect.1, rect.2);
    assert(k >= 0) by (nonlinear_arith)
        requires
            k == (gy - rect.1) * rect.2 + (gx - rect.0),
            gy >= rect.1,
            gx >= rect.0,
            rect.2 >= 0,
    ;
    let before = shared_until(b1, b2, rect, k);
    assert(before + Seq::<(u32, u32)>::empty() =~= before);
    assert(forall|x: (u32, u32)| #[trigger] before.push(x) =~= before + seq![x]);
}

} // verus!
