//! Seam finding: where placed images overlap, a minimum cut decides which of
//! them owns each pixel, through the regions where they differ least.

use crate::gcgraph::FlowArc;
pub use crate::gcgraph::GcGraph;
use crate::gcgraph::Network;
use crate::imgproc::lemma_index;
use crate::imgproc::GrayImage;
use crate::warp::PixelImage;
use vstd::prelude::*;

verus! {

/// Cost of giving a pixel to an image that does not cover it.
pub const TERMINAL_COST: u32 = 10_000;

/// Added to the cost of a seam outside the common area.
pub const BAD_REGION_PENALTY: u32 = 1_000;

/// Pixels around the overlap that take part in the cut.
pub const GAP: i32 = 10;


/// The rectangle that two placed rectangles have in common, as (x, y, width,
/// height); its extent is negative or 0 where they have none.
pub open spec fn common_rect(
    tl1: (i32, i32),
    tl2: (i32, i32),
    sz1: (i32, i32),
    sz2: (i32, i32),
) -> (int, int, int, int) {
    let x0 = if tl1.0 >= tl2.0 { tl1.0 as int } else { tl2.0 as int };
    let y0 = if tl1.1 >= tl2.1 { tl1.1 as int } else { tl2.1 as int };
    let x1 = if tl1.0 + sz1.0 <= tl2.0 + sz2.0 { tl1.0 + sz1.0 } else { tl2.0 + sz2.0 };
    let y1 = if tl1.1 + sz1.1 <= tl2.1 + sz2.1 { tl1.1 + sz1.1 } else { tl2.1 + sz2.1 };
    (x0, y0, x1 - x0, y1 - y0)
}

/// The point (`x`, `y`) lies in the rectangle of size `sz` placed at `tl`.
pub open spec fn in_rect(x: int, y: int, tl: (i32, i32), sz: (i32, i32)) -> bool {
    tl.0 <= x < tl.0 + sz.0 && tl.1 <= y < tl.1 + sz.1
}

/// The common rectangle holds exactly the points of both rectangles.
pub proof fn lemma_common_rect(
    tl1: (i32, i32),
    tl2: (i32, i32),
    sz1: (i32, i32),
    sz2: (i32, i32),
    x: int,
    y: int,
)
    ensures
        (in_rect(x, y, tl1, sz1) && in_rect(x, y, tl2, sz2)) <==> {
            let r = common_rect(tl1, tl2, sz1, sz2);
            r.0 <= x < r.0 + r.2 && r.1 <= y < r.1 + r.3
        },
{
}

/// Intersection of two placed rectangles, as (x, y, width, height).
pub fn overlap_roi(
    tl1: (i32, i32),
    tl2: (i32, i32),
    sz1: (i32, i32),
    sz2: (i32, i32),
) -> (r: Option<(i32, i32, i32, i32)>)
    requires
        i32::MIN <= tl1.0 + sz1.0 <= i32::MAX,
        i32::MIN <= tl1.1 + sz1.1 <= i32::MAX,
        i32::MIN <= tl2.0 + sz2.0 <= i32::MAX,
        i32::MIN <= tl2.1 + sz2.1 <= i32::MAX,
    ensures
        ({
            let c = common_rect(tl1, tl2, sz1, sz2);
            match r {
                Some(q) => c.2 > 0 && c.3 > 0 && q.0 == c.0 && q.1 == c.1 && q.2 == c.2 && q.3
                    == c.3,
                None => c.2 <= 0 || c.3 <= 0,
            }
        }),
{
    let x_tl: i32 = if tl1.0 >= tl2.0 { tl1.0 } else { tl2.0 };
    let y_tl: i32 = if tl1.1 >= tl2.1 { tl1.1 } else { tl2.1 };
    let x_br: i32 = if tl1.0 + sz1.0 <= tl2.0 + sz2.0 { tl1.0 + sz1.0 } else { tl2.0 + sz2.0 };
    let y_br: i32 = if tl1.1 + sz1.1 <= tl2.1 + sz2.1 { tl1.1 + sz1.1 } else { tl2.1 + sz2.1 };
    if x_tl < x_br && y_tl < y_br {
        Some((x_tl, y_tl, x_br - x_tl, y_br - y_tl))
    } else {
        None
    }
}

/// A mask of `w` by `h` pixels placed at `tl` covers the point (`x`, `y`).
pub open spec fn covers(mask: Seq<u8>, w: int, h: int, tl: (i32, i32), x: int, y: int) -> bool {
    &&& 0 <= x - tl.0 < w
    &&& 0 <= y - tl.1 < h
    &&& mask[(y - tl.1) * w + (x - tl.0)] != 0
}

/// Whether any point of the rectangle `roi` is covered by both masks.
pub fn masks_intersect(
    tl1: (i32, i32),
    tl2: (i32, i32),
    mask1: &GrayImage,
    mask2: &GrayImage,
    roi: (i32, i32, i32, i32),
) -> (r: bool)
    requires
        mask1.wf(),
        mask2.wf(),
        mask1.width <= i32::MAX,
        mask1.height <= i32::MAX,
        mask2.width <= i32::MAX,
        mask2.height <= i32::MAX,
    ensures
        r == exists|x: int, y: int|
            {
                &&& roi.0 <= x < roi.0 + roi.2
                &&& roi.1 <= y < roi.1 + roi.3
                &&& #[trigger] covers(
                    mask1.data@,
                    mask1.width as int,
                    mask1.height as int,
                    tl1,
                    x,
                    y,
                )
                &&& covers(mask2.data@, mask2.width as int, mask2.height as int, tl2, x, y)
            },
{
    let mut y: i64 = 0;
    while y < roi.3 as i64
        invariant
            mask1.wf(),
            mask2.wf(),
            mask1.width <= i32::MAX,
            mask1.height <= i32::MAX,
            mask2.width <= i32::MAX,
            mask2.height <= i32::MAX,
            0 <= y,
            y <= roi.3 || y == 0,
            forall|px: int, py: int|
                roi.0 <= px < roi.0 + roi.2 && roi.1 <= py < roi.1 + y && #[trigger] covers(
                    mask1.data@,
                    mask1.width as int,
                    mask1.height as int,
                    tl1,
                    px,
                    py,
                ) ==> !covers(mask2.data@, mask2.width as int, mask2.height as int, tl2, px, py),
        decreases roi.3 - y,
    {
        let y1: i64 = roi.1 as i64 - tl1.1 as i64 + y;
        let y2: i64 = roi.1 as i64 - tl2.1 as i64 + y;
        if !(y1 < 0 || y2 < 0 || y1 >= mask1.height as i64 || y2 >= mask2.height as i64) {
            let mut x: i64 = 0;
            while x < roi.2 as i64
                invariant
                    mask1.wf(),
                    mask2.wf(),
                    mask1.width <= i32::MAX,
                    mask1.height <= i32::MAX,
                    mask2.width <= i32::MAX,
                    mask2.height <= i32::MAX,
                    0 <= y < roi.3,
                    0 <= x,
                    x <= roi.2 || x == 0,
                    y1 == roi.1 - tl1.1 + y,
                    y2 == roi.1 - tl2.1 + y,
                    0 <= y1 < mask1.height,
                    0 <= y2 < mask2.height,
                    forall|px: int|
                        roi.0 <= px < roi.0 + x && #[trigger] covers(
                            mask1.data@,
                            mask1.width as int,
                            mask1.height as int,
                            tl1,
                            px,
                            roi.1 + y,
                        ) ==> !covers(
                            mask2.data@,
                            mask2.width as int,
                            mask2.height as int,
                            tl2,
                            px,
                            roi.1 + y,
                        ),
                decreases roi.2 - x,
            {
                let x1: i64 = roi.0 as i64 - tl1.0 as i64 + x;
                let x2: i64 = roi.0 as i64 - tl2.0 as i64 + x;
                if !(x1 < 0 || x2 < 0 || x1 >= mask1.width as i64 || x2 >= mask2.width as i64) {
                    proof {
                        lemma_index(
                            x1 as int,
                            y1 as int,
                            mask1.width as int,
                            mask1.height as int,
                        );
                        lemma_index(
                            x2 as int,
                            y2 as int,
                            mask2.width as int,
                            mask2.height as int,
                        );
                    }
                    if mask1.at(x1 as usize, y1 as usize) != 0 && mask2.at(
                        x2 as usize,
                        y2 as usize,
                    ) != 0 {
                        assert(covers(
                            mask1.data@,
                            mask1.width as int,
                            mask1.height as int,
                            tl1,
                            roi.0 + x,
                            roi.1 + y,
                        ));
                        return true;
                    }
                }
                x = x + 1;
            }
        }
        y = y + 1;
    }
    false
}

/// Two placed images with their masks, and the rectangle they overlap in.
pub ghost struct Pair {
    pub img1: PixelImage,
    pub img2: PixelImage,
    pub tl1: (i32, i32),
    pub tl2: (i32, i32),
    pub mask1: Seq<u8>,
    pub mask2: Seq<u8>,
    pub roi: (i32, i32, i32, i32),
}

/// Component `c` of a placed image at a point; 0 outside the image.
pub open spec fn colour(img: &PixelImage, tl: (i32, i32), x: int, y: int, c: int) -> int {
    if 0 <= x - tl.0 < img.width && 0 <= y - tl.1 < img.height {
        img.px(x - tl.0, y - tl.1, c) as int
    } else {
        0
    }
}

pub open spec fn square(a: int) -> int {
    a * a
}

impl Pair {
    /// Width of the area that takes part in the cut.
    pub open spec fn w(self) -> int {
        self.roi.2 + 2 * GAP
    }

    /// Height of the area that takes part in the cut.
    pub open spec fn h(self) -> int {
        self.roi.3 + 2 * GAP
    }

    /// The point that vertex `i` of the cut stands for.
    pub open spec fn x(self, i: int) -> int {
        self.roi.0 - GAP + i % self.w()
    }

    pub open spec fn y(self, i: int) -> int {
        self.roi.1 - GAP + i / self.w()
    }

    pub open spec fn covered1(self, i: int) -> bool {
        covers(
            self.mask1,
            self.img1.width as int,
            self.img1.height as int,
            self.tl1,
            self.x(i),
            self.y(i),
        )
    }

    pub open spec fn covered2(self, i: int) -> bool {
        covers(
            self.mask2,
            self.img2.width as int,
            self.img2.height as int,
            self.tl2,
            self.x(i),
            self.y(i),
        )
    }

    /// Squared colour difference of the two images at vertex `i`.
    pub open spec fn diff(self, i: int) -> int {
        square(
            colour(&self.img1, self.tl1, self.x(i), self.y(i), 0) - colour(
                &self.img2,
                self.tl2,
                self.x(i),
                self.y(i),
                0,
            ),
        ) + square(
            colour(&self.img1, self.tl1, self.x(i), self.y(i), 1) - colour(
                &self.img2,
                self.tl2,
                self.x(i),
                self.y(i),
                1,
            ),
        ) + square(
            colour(&self.img1, self.tl1, self.x(i), self.y(i), 2) - colour(
                &self.img2,
                self.tl2,
                self.x(i),
                self.y(i),
                2,
            ),
        )
    }

    /// What a seam between vertices `i` and `j` costs.
    pub open spec fn seam_cost(self, i: int, j: int) -> int {
        self.diff(i) + self.diff(j) + 1 + if self.covered1(i) && self.covered1(j) && self.covered2(
            i,
        ) && self.covered2(j) {
            0
        } else {
            BAD_REGION_PENALTY as int
        }
    }

    pub open spec fn term1(self, i: int) -> int {
        if self.covered1(i) { TERMINAL_COST as int } else { 0 }
    }

    pub open spec fn term2(self, i: int) -> int {
        if self.covered2(i) { TERMINAL_COST as int } else { 0 }
    }

    /// What the first `k` vertices pass straight from source to sink: the
    /// terminal cost of each that both masks cover.
    pub open spec fn base(self, k: int) -> int
        decreases k,
    {
        if k <= 0 {
            0
        } else {
            self.base(k - 1) + if self.term1(k - 1) < self.term2(k - 1) {
                self.term1(k - 1)
            } else {
                self.term2(k - 1)
            }
        }
    }

    /// The arcs of the first `k` vertices to their right and lower
    /// neighbours, in both directions.
    pub open spec fn arcs(self, k: int) -> Seq<FlowArc>
        decreases k,
    {
        if k <= 0 {
            Seq::empty()
        } else {
            let i = k - 1;
            let before = self.arcs(i);
            let right = if i % self.w() < self.w() - 1 {
                let c = self.seam_cost(i, i + 1);
                before.push(FlowArc { src: i, dst: i + 1, cap: c }).push(
                    FlowArc { src: i + 1, dst: i, cap: c },
                )
            } else {
                before
            };
            if i / self.w() < self.h() - 1 {
                let c = self.seam_cost(i, i + self.w());
                right.push(FlowArc { src: i, dst: i + self.w(), cap: c }).push(
                    FlowArc { src: i + self.w(), dst: i, cap: c },
                )
            } else {
                right
            }
        }
    }

    /// The network whose cuts are the seams between the two images: the
    /// source is the first image, the sink the second.
    pub open spec fn network(self) -> Network {
        let n = self.w() * self.h();
        Network {
            base: self.base(n),
            terms: Seq::new(n as nat, |i: int| self.term1(i) - self.term2(i)),
            arcs: self.arcs(n),
        }
    }

    /// The vertex of a point of the overlap.
    pub open spec fn vertex(self, x: int, y: int) -> int {
        (y - self.roi.1 + GAP) * self.w() + (x - self.roi.0 + GAP)
    }

    pub open spec fn in_roi(self, x: int, y: int) -> bool {
        self.roi.0 <= x < self.roi.0 + self.roi.2 && self.roi.1 <= y < self.roi.1 + self.roi.3
    }

    /// `after1` and `after2` are the masks once `side` has been given to the
    /// first image: where both masks cover a point of the overlap, the one on
    /// the other side loses it. Nothing else changes.
    pub open spec fn shared_out(
        self,
        side: spec_fn(int) -> bool,
        after1: Seq<u8>,
        after2: Seq<u8>,
    ) -> bool {
        let (w1, h1) = (self.img1.width as int, self.img1.height as int);
        let (w2, h2) = (self.img2.width as int, self.img2.height as int);
        &&& after1.len() == self.mask1.len()
        &&& after2.len() == self.mask2.len()
        &&& forall|i: int, j: int|
            0 <= i < w1 && 0 <= j < h1 ==> #[trigger] after1[j * w1 + i] == {
                let (x, y) = (self.tl1.0 + i, self.tl1.1 + j);
                if self.in_roi(x, y) && !side(self.vertex(x, y)) && covers(
                    self.mask2,
                    w2,
                    h2,
                    self.tl2,
                    x,
                    y,
                ) {
                    0
                } else {
                    self.mask1[j * w1 + i]
                }
            }
        &&& forall|i: int, j: int|
            0 <= i < w2 && 0 <= j < h2 ==> #[trigger] after2[j * w2 + i] == {
                let (x, y) = (self.tl2.0 + i, self.tl2.1 + j);
                if self.in_roi(x, y) && side(self.vertex(x, y)) && covers(
                    self.mask1,
                    w1,
                    h1,
                    self.tl1,
                    x,
                    y,
                ) {
                    0
                } else {
                    self.mask2[j * w2 + i]
                }
            }
    }

    /// The parts fit: masks have the size of their images, and the overlap is
    /// what the two placements have in common.
    pub open spec fn wf(self) -> bool {
        &&& self.img1.wf()
        &&& self.img2.wf()
        &&& self.img1.channels == 3
        &&& self.img2.channels == 3
        &&& self.mask1.len() == self.img1.width * self.img1.height
        &&& self.mask2.len() == self.img2.width * self.img2.height
        &&& self.tl1.0 + self.img1.width <= i32::MAX
        &&& self.tl1.1 + self.img1.height <= i32::MAX
        &&& self.tl2.0 + self.img2.width <= i32::MAX
        &&& self.tl2.1 + self.img2.height <= i32::MAX
        &&& self.roi.2 > 0
        &&& self.roi.3 > 0
        &&& self.tl1.0 <= self.roi.0
        &&& self.tl1.1 <= self.roi.1
        &&& self.tl2.0 <= self.roi.0
        &&& self.tl2.1 <= self.roi.1
        &&& self.roi.0 + self.roi.2 <= self.tl1.0 + self.img1.width
        &&& self.roi.1 + self.roi.3 <= self.tl1.1 + self.img1.height
        &&& self.roi.0 + self.roi.2 <= self.tl2.0 + self.img2.width
        &&& self.roi.1 + self.roi.3 <= self.tl2.1 + self.img2.height
        &&& 4 * (self.w() * self.h()) + 4 <= i32::MAX
    }
}

impl Pair {
    /// Where both masks cover a point of the overlap, the cut takes it from one
    /// of them.
    pub proof fn lemma_keeps(
        self,
        side: spec_fn(int) -> bool,
        after1: Seq<u8>,
        after2: Seq<u8>,
        x: int,
        y: int,
    )
        requires
            self.wf(),
            self.shared_out(side, after1, after2),
            self.in_roi(x, y),
            covers(
                self.mask1,
                self.img1.width as int,
                self.img1.height as int,
                self.tl1,
                x,
                y,
            ),
            covers(
                self.mask2,
                self.img2.width as int,
                self.img2.height as int,
                self.tl2,
                x,
                y,
            ),
        ensures
            covers(after1, self.img1.width as int, self.img1.height as int, self.tl1, x, y) == side(
                self.vertex(x, y),
            ),
            covers(after2, self.img2.width as int, self.img2.height as int, self.tl2, x, y)
                == !side(self.vertex(x, y)),
    {
        let (w1, h1) = (self.img1.width as int, self.img1.height as int);
        let (w2, h2) = (self.img2.width as int, self.img2.height as int);
        let (i1, j1) = (x - self.tl1.0, y - self.tl1.1);
        let (i2, j2) = (x - self.tl2.0, y - self.tl2.1);
        lemma_index(i1, j1, w1, h1);
        lemma_index(i2, j2, w2, h2);
        assert(after1[j1 * w1 + i1] == after1[j1 * w1 + i1]);
        assert(after2[j2 * w2 + i2] == after2[j2 * w2 + i2]);
    }
}

proof fn lemma_square(a: int)
    requires
        -255 <= a <= 255,
    ensures
        0 <= square(a) <= 65025,
{
    assert(0 <= a * a <= 65025) by (nonlinear_arith)
        requires
            -255 <= a <= 255,
    ;
}

/// Colour of a placed image at a point, and whether its mask covers it.
fn look(img: &PixelImage, mask: &GrayImage, tl: (i32, i32), x: i64, y: i64) -> (r: (
    i32,
    i32,
    i32,
    bool,
))
    requires
        img.wf(),
        img.channels == 3,
        mask.wf(),
        mask.width == img.width,
        mask.height == img.height,
        img.width <= u32::MAX,
        img.height <= u32::MAX,
        -0x10_0000_0000 <= x <= 0x10_0000_0000,
        -0x10_0000_0000 <= y <= 0x10_0000_0000,
    ensures
        r.0 == colour(img, tl, x as int, y as int, 0),
        r.1 == colour(img, tl, x as int, y as int, 1),
        r.2 == colour(img, tl, x as int, y as int, 2),
        r.3 == covers(mask.data@, img.width as int, img.height as int, tl, x as int, y as int),
        0 <= r.0 <= 255,
        0 <= r.1 <= 255,
        0 <= r.2 <= 255,
{
    let x1: i64 = x - tl.0 as i64;
    let y1: i64 = y - tl.1 as i64;
    if x1 >= 0 && y1 >= 0 && x1 < img.width as i64 && y1 < img.height as i64 {
        proof {
            let w = img.width as int;
            let h = img.height as int;
            lemma_index(x1 as int, y1 as int, w, h);
            assert((y1 * w + x1) * 3 + 3 <= w * h * 3) by (nonlinear_arith)
                requires
                    y1 * w + x1 < w * h,
            ;
            assert(img.data@.len() == img.data.len());
            assert(mask.data@.len() == mask.data.len());
        }
        let i: usize = y1 as usize * img.width + x1 as usize;
        (
            img.data[i * 3] as i32,
            img.data[i * 3 + 1] as i32,
            img.data[i * 3 + 2] as i32,
            mask.data[i] != 0,
        )
    } else {
        (0, 0, 0, false)
    }
}

impl Pair {
    proof fn lemma_diff_range(self, i: int)
        ensures
            0 <= self.diff(i) <= 3 * 65025,
    {
        let (x, y) = (self.x(i), self.y(i));
        lemma_square(
            colour(&self.img1, self.tl1, x, y, 0) - colour(&self.img2, self.tl2, x, y, 0),
        );
        lemma_square(
            colour(&self.img1, self.tl1, x, y, 1) - colour(&self.img2, self.tl2, x, y, 1),
        );
        lemma_square(
            colour(&self.img1, self.tl1, x, y, 2) - colour(&self.img2, self.tl2, x, y, 2),
        );
    }

    proof fn lemma_base_range(self, k: int)
        requires
            0 <= k,
        ensures
            0 <= self.base(k) <= 10_000 * k,
        decreases k,
    {
        if k > 0 {
            self.lemma_base_range(k - 1);
        }
    }

    proof fn lemma_arcs_len(self, k: int)
        requires
            0 <= k,
        ensures
            self.arcs(k).len() <= 4 * k,
        decreases k,
    {
        if k > 0 {
            self.lemma_arcs_len(k - 1);
        }
    }
}

/// What the cut of a pair looks at: squared colour difference and coverage
/// of each vertex.
struct Samples {
    diff: Vec<u32>,
    in1: Vec<bool>,
    in2: Vec<bool>,
}

impl Samples {
    spec fn of(&self, p: Pair) -> bool {
        let n = p.w() * p.h();
        &&& self.diff@.len() == n
        &&& self.in1@.len() == n
        &&& self.in2@.len() == n
        &&& forall|i: int| 0 <= i < n ==> #[trigger] self.diff@[i] == p.diff(i)
        &&& forall|i: int| 0 <= i < n ==> #[trigger] self.in1@[i] == p.covered1(i)
        &&& forall|i: int| 0 <= i < n ==> #[trigger] self.in2@[i] == p.covered2(i)
    }

    /// What a seam between vertices `i` and `j` costs.
    fn cost(&self, i: usize, j: usize, Ghost(p): Ghost<Pair>) -> (c: u32)
        requires
            self.of(p),
            i < p.w() * p.h(),
            j < p.w() * p.h(),
        ensures
            c == p.seam_cost(i as int, j as int),
    {
        proof {
            p.lemma_diff_range(i as int);
            p.lemma_diff_range(j as int);
        }
        let mut c: u32 = self.diff[i] + self.diff[j] + 1;
        if !self.in1[i] || !self.in1[j] || !self.in2[i] || !self.in2[j] {
            c = c + BAD_REGION_PENALTY;
        }
        c
    }
}

#[verifier::spinoff_prover]
fn take_samples(
    img1: &PixelImage,
    img2: &PixelImage,
    tl1: (i32, i32),
    tl2: (i32, i32),
    mask1: &GrayImage,
    mask2: &GrayImage,
    roi: (i32, i32, i32, i32),
) -> (r: Samples)
    requires
        (Pair { img1: *img1, img2: *img2, tl1, tl2, mask1: mask1.data@, mask2: mask2.data@, roi }).wf(),
        mask1.wf(),
        mask2.wf(),
        mask1.width == img1.width,
        mask1.height == img1.height,
        mask2.width == img2.width,
        mask2.height == img2.height,
    ensures
        r.of(Pair { img1: *img1, img2: *img2, tl1, tl2, mask1: mask1.data@, mask2: mask2.data@, roi }),
{
    let ghost p = Pair { img1: *img1, img2: *img2, tl1, tl2, mask1: mask1.data@, mask2: mask2.data@, roi };
    let sub_w: usize = (roi.2 as i64 + 2 * GAP as i64) as usize;
    let sub_h: usize = (roi.3 as i64 + 2 * GAP as i64) as usize;
    proof {
        lemma_index(p.w() - 1, p.h() - 1, p.w(), p.h());
        assert(p.w() * p.h() <= i32::MAX);
    }
    let n: usize = sub_w * sub_h;
    let mut diff: Vec<u32> = Vec::with_capacity(n);
    let mut in1: Vec<bool> = Vec::with_capacity(n);
    let mut in2: Vec<bool> = Vec::with_capacity(n);
    let mut k: usize = 0;
    while k < n
        invariant
            p == (Pair { img1: *img1, img2: *img2, tl1, tl2, mask1: mask1.data@, mask2: mask2.data@, roi }),
            p.wf(),
            mask1.wf(),
            mask2.wf(),
            mask1.width == img1.width,
            mask1.height == img1.height,
            mask2.width == img2.width,
            mask2.height == img2.height,
            n == p.w() * p.h(),
            n <= i32::MAX,
            sub_w == p.w(),
            k <= n,
            diff@.len() == k,
            in1@.len() == k,
            in2@.len() == k,
            forall|i: int| 0 <= i < k ==> #[trigger] diff@[i] == p.diff(i),
            forall|i: int| 0 <= i < k ==> #[trigger] in1@[i] == p.covered1(i),
            forall|i: int| 0 <= i < k ==> #[trigger] in2@[i] == p.covered2(i),
        decreases n - k,
    {
        let x: i64 = roi.0 as i64 - GAP as i64 + (k % sub_w) as i64;
        let y: i64 = roi.1 as i64 - GAP as i64 + (k / sub_w) as i64;
        proof {
            assert(k / sub_w <= k) by (nonlinear_arith)
                requires
                    sub_w >= 1,
            ;
        }
        let (r1, g1, b1, c1): (i32, i32, i32, bool) = look(img1, mask1, tl1, x, y);
        let (r2, g2, b2, c2): (i32, i32, i32, bool) = look(img2, mask2, tl2, x, y);
        proof {
            assert(x == p.x(k as int) && y == p.y(k as int));
            lemma_square(r1 - r2);
            lemma_square(g1 - g2);
            lemma_square(b1 - b2);
        }
        let d: i32 = (r1 - r2) * (r1 - r2) + (g1 - g2) * (g1 - g2) + (b1 - b2) * (b1 - b2);
        diff.push(d as u32);
        in1.push(c1);
        in2.push(c2);
        k = k + 1;
    }
    Samples { diff, in1, in2 }
}

/// The network of a pair.
#[verifier::spinoff_prover]
#[verifier::rlimit(30)]
fn build_network(s: &Samples, sub_w: usize, sub_h: usize, Ghost(p): Ghost<Pair>) -> (g: GcGraph)
    requires
        s.of(p),
        p.wf(),
        sub_w == p.w(),
        sub_h == p.h(),
    ensures
        g.wf(),
        g@ == p.network(),
{
    proof {
        lemma_index(p.w() - 1, p.h() - 1, p.w(), p.h());
        lemma_index(p.w() - 1, p.h() - 1, p.w(), p.h());
        assert((p.h() - 1) * p.w() + (p.w() - 1) * p.h() <= 2 * (p.w() * p.h())) by (nonlinear_arith)
            requires
                p.w() >= 1,
                p.h() >= 1,
        ;
        assert(0 <= (p.h() - 1) * p.w() <= p.w() * p.h()) by (nonlinear_arith)
            requires
                p.w() >= 1,
                p.h() >= 1,
        ;
        assert(0 <= (p.w() - 1) * p.h() <= p.w() * p.h()) by (nonlinear_arith)
            requires
                p.w() >= 1,
                p.h() >= 1,
        ;
    }
    let n: usize = sub_w * sub_h;
    let mut g: GcGraph = GcGraph::new(n, (sub_h - 1) * sub_w + (sub_w - 1) * sub_h);
    let mut k: usize = 0;
    assert(g@.terms =~= Seq::new(0, |i: int| p.term1(i) - p.term2(i)));
    while k < n
        invariant
            s.of(p),
            p.wf(),
            n == p.w() * p.h(),
            n <= 0x1fff_fffe,
            k <= n,
            g.wf(),
            g@.base == p.base(k as int),
            g@.terms == Seq::new(k as nat, |i: int| p.term1(i) - p.term2(i)),
            g@.arcs == Seq::<FlowArc>::empty(),
        decreases n - k,
    {
        let ghost before = g@.terms;
        let v: i32 = g.add_vtx();
        proof {
            p.lemma_base_range(k as int);
            assert(g@.terms[k as int] == 0);
        }
        let t1: u32 = if s.in1[k] { TERMINAL_COST } else { 0 };
        let t2: u32 = if s.in2[k] { TERMINAL_COST } else { 0 };
        g.add_term_weights(v, t1, t2);
        proof {
            assert(g@.terms =~= Seq::new((k + 1) as nat, |i: int| p.term1(i) - p.term2(i)));
        }
        k = k + 1;
    }
    let mut e: usize = 0;
    assert(g@.arcs =~= p.arcs(0));
    while e < n
        invariant
            s.of(p),
            p.wf(),
            n == p.w() * p.h(),
            n <= 0x1fff_fffe,
            sub_w == p.w(),
            sub_h == p.h(),
            e <= n,
            g.wf(),
            g@.base == p.base(n as int),
            g@.terms == Seq::new(n as nat, |i: int| p.term1(i) - p.term2(i)),
            g@.arcs == p.arcs(e as int),
        decreases n - e,
    {
        let x: usize = e % sub_w;
        let y: usize = e / sub_w;
        proof {
            p.lemma_arcs_len(e as int);
            let w = p.w();
            vstd::arithmetic::div_mod::lemma_fundamental_div_mod(e as int, w);
            assert(e == y * w + x) by (nonlinear_arith)
                requires
                    e == w * y + x,
            ;
            p.lemma_diff_range(e as int);
            if x < w - 1 {
                assert(y < p.h()) by (nonlinear_arith)
                    requires
                        y * w + x < w * p.h(),
                        x >= 0,
                        w > 0,
                ;
                lemma_index(x + 1, y as int, w, p.h());
            }
            if y < p.h() - 1 {
                lemma_index(x as int, y + 1, w, p.h());
                assert((y + 1) * w == y * w + w) by (nonlinear_arith);
            }
        }
        if x < sub_w - 1 {
            let c: u32 = s.cost(e, e + 1, Ghost(p));
            g.add_edges(e as i32, e as i32 + 1, c, c);
        }
        if y < sub_h - 1 {
            let c: u32 = s.cost(e, e + sub_w, Ghost(p));
            g.add_edges(e as i32, e as i32 + sub_w as i32, c, c);
        }
        e = e + 1;
        assert(g@.arcs =~= p.arcs(e as int));
    }
    g
}

/// Shares the overlap of two placed images out between them along a minimum
/// cut: each point that both masks cover is taken from one of them.
#[verifier::spinoff_prover]
#[verifier::rlimit(60)]
pub fn find_in_pair(
    img1: &PixelImage,
    img2: &PixelImage,
    tl1: (i32, i32),
    tl2: (i32, i32),
    mask1: &mut GrayImage,
    mask2: &mut GrayImage,
    roi: (i32, i32, i32, i32),
)
    requires
        (Pair {
            img1: *img1,
            img2: *img2,
            tl1,
            tl2,
            mask1: old(mask1).data@,
            mask2: old(mask2).data@,
            roi,
        }).wf(),
        old(mask1).wf(),
        old(mask2).wf(),
        old(mask1).width == img1.width,
        old(mask1).height == img1.height,
        old(mask2).width == img2.width,
        old(mask2).height == img2.height,
    ensures
        final(mask1).wf(),
        final(mask2).wf(),
        final(mask1).width == old(mask1).width,
        final(mask1).height == old(mask1).height,
        final(mask2).width == old(mask2).width,
        final(mask2).height == old(mask2).height,
        pair_cut(
            Pair {
                img1: *img1,
                img2: *img2,
                tl1,
                tl2,
                mask1: old(mask1).data@,
                mask2: old(mask2).data@,
                roi,
            },
            final(mask1).data@,
            final(mask2).data@,
        ),
{
    let ghost p = Pair {
        img1: *img1,
        img2: *img2,
        tl1,
        tl2,
        mask1: mask1.data@,
        mask2: mask2.data@,
        roi,
    };
    let sub_w: usize = (roi.2 as i64 + 2 * GAP as i64) as usize;
    let sub_h: usize = (roi.3 as i64 + 2 * GAP as i64) as usize;
    let s: Samples = take_samples(img1, img2, tl1, tl2, &*mask1, &*mask2, roi);
    let mut g: GcGraph = build_network(&s, sub_w, sub_h, Ghost(p));
    proof {
        let n = p.w() * p.h();
        lemma_index(1, 1, p.w(), p.h());
        p.lemma_base_range(n);
        p.lemma_first_arc(n);
    }
    g.max_flow();
    let ghost side = g.source_side();
    let (w1, w2): (usize, usize) = (img1.width, img2.width);
    let rw: usize = roi.2 as usize;
    let rh: usize = roi.3 as usize;
    proof {
        assert(p.w() * p.h() >= rw * rh) by (nonlinear_arith)
            requires
                p.w() == rw + 20,
                p.h() == rh + 20,
                rw >= 0,
                rh >= 0,
        ;
    }
    let total: usize = rw * rh;
    let mut k: usize = 0;
    while k < total
        invariant
            p.wf(),
            p.img1 == *img1,
            p.img2 == *img2,
            p.tl1 == tl1,
            p.tl2 == tl2,
            p.roi == roi,
            g.wf(),
            g@.terms.len() == p.w() * p.h(),
            side == g.source_side(),
            w1 == img1.width,
            w2 == img2.width,
            sub_w == p.w(),
            rw == roi.2,
            rh == roi.3,
            total == rw * rh,
            k <= total,
            total <= i32::MAX,
            mask1.width == img1.width,
            mask1.height == img1.height,
            mask2.width == img2.width,
            mask2.height == img2.height,
            mask1.data@.len() == p.mask1.len(),
            mask2.data@.len() == p.mask2.len(),
            forall|i: int, j: int|
                0 <= i < w1 && 0 <= j < img1.height ==> #[trigger] mask1.data@[j * w1 + i]
                    == p.value1(side, k as int, i, j),
            forall|i: int, j: int|
                0 <= i < w2 && 0 <= j < img2.height ==> #[trigger] mask2.data@[j * w2 + i]
                    == p.value2(side, k as int, i, j),
        decreases total - k,
    {
        let x: usize = k % rw;
        let y: usize = k / rw;
        let ghost (px, py) = (roi.0 + x, roi.1 + y);
        let ghost (i1, j1) = (px - tl1.0, py - tl1.1);
        let ghost (i2, j2) = (px - tl2.0, py - tl2.1);
        proof {
            vstd::arithmetic::div_mod::lemma_fundamental_div_mod(k as int, rw as int);
            assert(y < rh) by (nonlinear_arith)
                requires
                    k == rw * y + x,
                    k < rw * rh,
                    x >= 0,
                    rw > 0,
            ;
            assert(k == y * rw + x) by (nonlinear_arith)
                requires
                    k == rw * y + x,
            ;
            lemma_index(x + GAP, y + GAP, p.w(), p.h());
            lemma_index(i1, j1, w1 as int, img1.height as int);
            lemma_index(i2, j2, w2 as int, img2.height as int);
            assert(mask1.data@.len() == mask1.data.len());
            assert(mask2.data@.len() == mask2.data.len());
        }
        let si: usize = (y + 10) * sub_w + (x + 10);
        let m1: usize = ((roi.1 as i64 - tl1.1 as i64) as usize + y) * w1 + ((roi.0 as i64
            - tl1.0 as i64) as usize + x);
        let m2: usize = ((roi.1 as i64 - tl2.1 as i64) as usize + y) * w2 + ((roi.0 as i64
            - tl2.0 as i64) as usize + x);
        let ghost a0 = mask1.data@;
        let ghost b0 = mask2.data@;
        proof {
            assert(si == p.vertex(px, py));
            assert(m1 == j1 * w1 + i1);
            assert(m2 == j2 * w2 + i2);
            assert(p.order(px, py) == k);
            assert(a0[j1 * w1 + i1] == p.value1(side, k as int, i1, j1));
            assert(b0[j2 * w2 + i2] == p.value2(side, k as int, i2, j2));
        }
        if g.in_source_segment(si as i32) {
            if mask1.data[m1] != 0 {
                mask2.data[m2] = 0;
            }
        } else if mask2.data[m2] != 0 {
            mask1.data[m1] = 0;
        }
        proof {
            assert forall|i: int, j: int|
                0 <= i < w1 && 0 <= j < img1.height implies #[trigger] mask1.data@[j * w1 + i]
                == p.value1(side, k + 1, i, j) by {
                lemma_index(i, j, w1 as int, img1.height as int);
                assert(a0[j * w1 + i] == p.value1(side, k as int, i, j));
                crate::imgproc::lemma_index_split(i, j, w1 as int);
                crate::imgproc::lemma_index_split(i1, j1, w1 as int);
                if p.in_roi(tl1.0 + i, tl1.1 + j) && p.order(tl1.0 + i, tl1.1 + j) == k {
                    crate::imgproc::lemma_index_split(
                        tl1.0 + i - roi.0,
                        tl1.1 + j - roi.1,
                        rw as int,
                    );
                    assert(i == i1 && j == j1);
                }
            }
            assert forall|i: int, j: int|
                0 <= i < w2 && 0 <= j < img2.height implies #[trigger] mask2.data@[j * w2 + i]
                == p.value2(side, k + 1, i, j) by {
                lemma_index(i, j, w2 as int, img2.height as int);
                assert(b0[j * w2 + i] == p.value2(side, k as int, i, j));
                crate::imgproc::lemma_index_split(i, j, w2 as int);
                crate::imgproc::lemma_index_split(i2, j2, w2 as int);
                if p.in_roi(tl2.0 + i, tl2.1 + j) && p.order(tl2.0 + i, tl2.1 + j) == k {
                    crate::imgproc::lemma_index_split(
                        tl2.0 + i - roi.0,
                        tl2.1 + j - roi.1,
                        rw as int,
                    );
                    assert(i == i2 && j == j2);
                }
            }
        }
        k = k + 1;
    }
    proof {
        assert forall|x: int, y: int| #[trigger] p.in_roi(x, y) implies p.order(x, y) < total by {
            lemma_index(x - roi.0, y - roi.1, rw as int, rh as int);
        }
        assert forall|i: int, j: int|
            0 <= i < w1 && 0 <= j < img1.height implies #[trigger] mask1.data@[j * w1 + i] == {
            let (x, y) = (p.tl1.0 + i, p.tl1.1 + j);
            if p.in_roi(x, y) && !side(p.vertex(x, y)) && covers(
                p.mask2,
                w2 as int,
                img2.height as int,
                p.tl2,
                x,
                y,
            ) {
                0
            } else {
                p.mask1[j * w1 + i]
            }
        } by {
            assert(mask1.data@[j * w1 + i] == p.value1(side, k as int, i, j));
        }
        assert forall|i: int, j: int|
            0 <= i < w2 && 0 <= j < img2.height implies #[trigger] mask2.data@[j * w2 + i] == {
            let (x, y) = (p.tl2.0 + i, p.tl2.1 + j);
            if p.in_roi(x, y) && side(p.vertex(x, y)) && covers(
                p.mask1,
                w1 as int,
                img1.height as int,
                p.tl1,
                x,
                y,
            ) {
                0
            } else {
                p.mask2[j * w2 + i]
            }
        } by {
            assert(mask2.data@[j * w2 + i] == p.value2(side, k as int, i, j));
        }
        assert(p.shared_out(side, mask1.data@, mask2.data@));
    }
}

/// The masks after a pair was cut: shared out along a side of the pair's
/// network that lies between two minimum cuts.
pub open spec fn pair_cut(p: Pair, after1: Seq<u8>, after2: Seq<u8>) -> bool {
    exists|side: spec_fn(int) -> bool|
        p.network().between_min_cuts(side) && #[trigger] p.shared_out(side, after1, after2)
}

impl Pair {
    /// Position of a point of the overlap in reading order.
    spec fn order(self, x: int, y: int) -> int {
        (y - self.roi.1) * self.roi.2 + (x - self.roi.0)
    }

    /// The first mask once the first `k` points have been shared out.
    spec fn value1(self, side: spec_fn(int) -> bool, k: int, i: int, j: int) -> u8 {
        let (x, y) = (self.tl1.0 + i, self.tl1.1 + j);
        if self.in_roi(x, y) && self.order(x, y) < k && !side(self.vertex(x, y)) && covers(
            self.mask2,
            self.img2.width as int,
            self.img2.height as int,
            self.tl2,
            x,
            y,
        ) {
            0
        } else {
            self.mask1[j * self.img1.width + i]
        }
    }

    /// The second mask once the first `k` points have been shared out.
    spec fn value2(self, side: spec_fn(int) -> bool, k: int, i: int, j: int) -> u8 {
        let (x, y) = (self.tl2.0 + i, self.tl2.1 + j);
        if self.in_roi(x, y) && self.order(x, y) < k && side(self.vertex(x, y)) && covers(
            self.mask1,
            self.img1.width as int,
            self.img1.height as int,
            self.tl1,
            x,
            y,
        ) {
            0
        } else {
            self.mask2[j * self.img2.width + i]
        }
    }

    /// Every area has a right neighbour, so the network has arcs.
    proof fn lemma_first_arc(self, k: int)
        requires
            1 <= k,
            self.w() >= 2,
        ensures
            self.arcs(k).len() >= 2,
        decreases k,
    {
        if k > 1 {
            self.lemma_first_arc(k - 1);
        } else {
            assert(0int % self.w() == 0) by {
                vstd::arithmetic::div_mod::lemma_fundamental_div_mod_converse(0, self.w(), 0, 0);
            }
            assert(self.arcs(0).len() == 0);
        }
    }
}

/// Placed images with one mask each, all of the images' sizes.
pub open spec fn placed(
    images: Seq<PixelImage>,
    corners: Seq<(i32, i32)>,
    masks: Seq<Seq<u8>>,
) -> bool {
    &&& corners.len() == images.len()
    &&& masks.len() == images.len()
    &&& forall|i: int|
        0 <= i < images.len() ==> {
            &&& (#[trigger] images[i]).wf()
            &&& images[i].channels == 3
            &&& masks[i].len() == images[i].width * images[i].height
            &&& corners[i].0 + images[i].width <= i32::MAX
            &&& corners[i].1 + images[i].height <= i32::MAX
            &&& images[i].width <= i32::MAX
            &&& images[i].height <= i32::MAX
        }
}

/// The mask of image `i` covers the point (`x`, `y`).
pub open spec fn owns(
    images: Seq<PixelImage>,
    corners: Seq<(i32, i32)>,
    masks: Seq<Seq<u8>>,
    i: int,
    x: int,
    y: int,
) -> bool {
    covers(masks[i], images[i].width as int, images[i].height as int, corners[i], x, y)
}

/// What images `i` and `j` have in common.
pub open spec fn pair_rect(
    images: Seq<PixelImage>,
    corners: Seq<(i32, i32)>,
    i: int,
    j: int,
) -> (int, int, int, int) {
    common_rect(
        corners[i],
        corners[j],
        (images[i].width as i32, images[i].height as i32),
        (images[j].width as i32, images[j].height as i32),
    )
}

pub open spec fn pair_of(
    images: Seq<PixelImage>,
    corners: Seq<(i32, i32)>,
    masks: Seq<Seq<u8>>,
    i: int,
    j: int,
) -> Pair {
    let c = pair_rect(images, corners, i, j);
    Pair {
        img1: images[i],
        img2: images[j],
        tl1: corners[i],
        tl2: corners[j],
        mask1: masks[i],
        mask2: masks[j],
        roi: (c.0 as i32, c.1 as i32, c.2 as i32, c.3 as i32),
    }
}

/// Some point is covered by the masks of both `i` and `j`.
pub open spec fn contested(
    images: Seq<PixelImage>,
    corners: Seq<(i32, i32)>,
    masks: Seq<Seq<u8>>,
    i: int,
    j: int,
) -> bool {
    exists|x: int, y: int| #[trigger]
        owns(images, corners, masks, i, x, y) && owns(images, corners, masks, j, x, y)
}

/// The graph of a contested pair has no more edges than can be numbered.
pub open spec fn cut_fits(
    images: Seq<PixelImage>,
    corners: Seq<(i32, i32)>,
    masks: Seq<Seq<u8>>,
    i: int,
    j: int,
) -> bool {
    contested(images, corners, masks, i, j) ==> {
        let c = pair_rect(images, corners, i, j);
        4 * ((c.2 + 2 * GAP) * (c.3 + 2 * GAP)) + 4 <= i32::MAX
    }
}

/// Image `i` covers the point (`x`, `y`), and no other does.
pub open spec fn alone(
    images: Seq<PixelImage>,
    corners: Seq<(i32, i32)>,
    masks: Seq<Seq<u8>>,
    i: int,
    x: int,
    y: int,
) -> bool {
    &&& 0 <= i < images.len()
    &&& owns(images, corners, masks, i, x, y)
    &&& forall|l: int|
        0 <= l < images.len() && #[trigger] owns(images, corners, masks, l, x, y) ==> l == i
}

/// Once the seams are found, the point (`x`, `y`) belongs to exactly one of
/// the images that covered it, if there were any: to the one that covered it
/// alone, where one did. A point that none covered belongs to none.
pub open spec fn point_settled(
    images: Seq<PixelImage>,
    corners: Seq<(i32, i32)>,
    before: Seq<Seq<u8>>,
    after: Seq<Seq<u8>>,
    x: int,
    y: int,
) -> bool {
    &&& forall|i: int|
        0 <= i < images.len() && #[trigger] owns(images, corners, before, i, x, y)
            ==> exists|l: int| #[trigger] alone(images, corners, after, l, x, y)
    &&& forall|i: int| #[trigger]
        alone(images, corners, before, i, x, y) ==> alone(images, corners, after, i, x, y)
    &&& forall|l: int|
        0 <= l < images.len() && #[trigger] owns(images, corners, after, l, x, y) ==> owns(
            images,
            corners,
            before,
            l,
            x,
            y,
        )
}

/// One step of the seam finder: a contested pair is cut, any other is left
/// alone.
pub open spec fn pair_step(
    images: Seq<PixelImage>,
    corners: Seq<(i32, i32)>,
    before: Seq<Seq<u8>>,
    after: Seq<Seq<u8>>,
    i: int,
    j: int,
) -> bool {
    if contested(images, corners, before, i, j) {
        &&& after.len() == before.len()
        &&& forall|k: int|
            0 <= k < before.len() && k != i && k != j ==> #[trigger] after[k] == before[k]
        &&& pair_cut(pair_of(images, corners, before, i, j), after[i], after[j])
    } else {
        after == before
    }
}

/// `after` is what the masks `before` become once the pairs have been taken
/// in order: those of every image before `i` with each later image, and those
/// of `i` with the later images before `j`.
pub open spec fn seams_through(
    images: Seq<PixelImage>,
    corners: Seq<(i32, i32)>,
    before: Seq<Seq<u8>>,
    i: int,
    j: int,
    after: Seq<Seq<u8>>,
) -> bool
    decreases i, j,
{
    if i < 0 {
        after == before
    } else if j > i + 1 {
        exists|mid: Seq<Seq<u8>>|
            seams_through(images, corners, before, i, j - 1, mid) && #[trigger] pair_step(
                images,
                corners,
                mid,
                after,
                i,
                j - 1,
            )
    } else if i > 0 {
        seams_through(images, corners, before, i - 1, images.len() as int, after)
    } else {
        after == before
    }
}

pub open spec fn mask_data(masks: Seq<GrayImage>) -> Seq<Seq<u8>> {
    masks.map_values(|m: GrayImage| m.data@)
}

/// No point is covered by the masks of both `a` and `b`.
spec fn parted(
    images: Seq<PixelImage>,
    corners: Seq<(i32, i32)>,
    masks: Seq<Seq<u8>>,
    a: int,
    b: int,
) -> bool {
    !contested(images, corners, masks, a, b)
}

/// `after` covers nothing that `before` does not, but no point is lost
/// altogether.
spec fn kept_cover(
    images: Seq<PixelImage>,
    corners: Seq<(i32, i32)>,
    before: Seq<Seq<u8>>,
    after: Seq<Seq<u8>>,
) -> bool {
    &&& after.len() == before.len()
    &&& forall|k: int| 0 <= k < before.len() ==> (#[trigger] after[k]).len() == before[k].len()
    &&& forall|k: int, q: int|
        0 <= k < before.len() && 0 <= q < before[k].len() ==> #[trigger] after[k][q] == before[k][q]
            || after[k][q] == 0
    &&& forall|k: int, x: int, y: int|
        0 <= k < before.len() && #[trigger] owns(images, corners, before, k, x, y)
            ==> exists|l: int|
            0 <= l < before.len() && #[trigger] owns(images, corners, after, l, x, y)
}

proof fn lemma_owns_less(
    images: Seq<PixelImage>,
    corners: Seq<(i32, i32)>,
    before: Seq<Seq<u8>>,
    after: Seq<Seq<u8>>,
    k: int,
    x: int,
    y: int,
)
    requires
        placed(images, corners, before),
        kept_cover(images, corners, before, after),
        0 <= k < images.len(),
        owns(images, corners, after, k, x, y),
    ensures
        owns(images, corners, before, k, x, y),
{
    let (w, h) = (images[k].width as int, images[k].height as int);
    let (i, j) = (x - corners[k].0, y - corners[k].1);
    lemma_index(i, j, w, h);
    assert(after[k][j * w + i] == before[k][j * w + i] || after[k][j * w + i] == 0);
}

/// Cutting a pair leaves no contested point between the two, and every point
/// with an owner.
#[verifier::spinoff_prover]
proof fn lemma_pair_step(
    images: Seq<PixelImage>,
    corners: Seq<(i32, i32)>,
    before: Seq<Seq<u8>>,
    after: Seq<Seq<u8>>,
    i: int,
    j: int,
)
    requires
        placed(images, corners, before),
        0 <= i < j < images.len(),
        pair_step(images, corners, before, after, i, j),
    ensures
        kept_cover(images, corners, before, after),
        parted(images, corners, after, i, j),
        placed(images, corners, after),
{
    if contested(images, corners, before, i, j) {
        let p = pair_of(images, corners, before, i, j);
        let side = choose|side: spec_fn(int) -> bool|
            p.network().between_min_cuts(side) && #[trigger] p.shared_out(side, after[i], after[j]);
        let (w1, h1) = (images[i].width as int, images[i].height as int);
        let (w2, h2) = (images[j].width as int, images[j].height as int);
        assert(images[i].wf() && images[j].wf());
        assert forall|k: int, q: int|
            0 <= k < before.len() && 0 <= q < before[k].len() implies #[trigger] after[k][q]
            == before[k][q] || after[k][q] == 0 by {
            if k == i {
                lemma_split(q, w1, h1);
                assert(after[i][(q / w1) * w1 + q % w1] == after[i][q]);
            } else if k == j {
                lemma_split(q, w2, h2);
                assert(after[j][(q / w2) * w2 + q % w2] == after[j][q]);
            } else {
                assert(after[k] == before[k]);
            }
        }
        assert forall|k: int| 0 <= k < before.len() implies (#[trigger] after[k]).len()
            == before[k].len() by {
            if k != i && k != j {
                assert(after[k] == before[k]);
            }
        }
        // Where both own a point, it lies in the overlap, and exactly the one
        // on the wrong side loses it.
        assert forall|x: int, y: int|
            owns(images, corners, before, i, x, y) && owns(images, corners, before, j, x, y) implies {
            &&& #[trigger] owns(images, corners, after, i, x, y) <==> side(p.vertex(x, y))
            &&& owns(images, corners, after, j, x, y) <==> !side(p.vertex(x, y))
        } by {
            let (i1, j1) = (x - corners[i].0, y - corners[i].1);
            let (i2, j2) = (x - corners[j].0, y - corners[j].1);
            assert(after[i][j1 * w1 + i1] == after[i][j1 * w1 + i1]);
            assert(after[j][j2 * w2 + i2] == after[j][j2 * w2 + i2]);
            assert(p.in_roi(x, y));
        }
        assert forall|k: int, x: int, y: int|
            0 <= k < before.len() && #[trigger] owns(images, corners, before, k, x, y) implies exists|l: int|
            0 <= l < before.len() && #[trigger] owns(images, corners, after, l, x, y) by {
            if k != i && k != j {
                assert(after[k] == before[k]);
                assert(owns(images, corners, after, k, x, y));
            } else if owns(images, corners, before, i, x, y) && owns(images, corners, before, j, x, y) {
                assert(owns(images, corners, after, i, x, y) || owns(images, corners, after, j, x, y));
            } else if k == i {
                let (i1, j1) = (x - corners[i].0, y - corners[i].1);
                assert(after[i][j1 * w1 + i1] == before[i][j1 * w1 + i1]);
                assert(owns(images, corners, after, i, x, y));
            } else {
                let (i2, j2) = (x - corners[j].0, y - corners[j].1);
                assert(after[j][j2 * w2 + i2] == before[j][j2 * w2 + i2]);
                assert(owns(images, corners, after, j, x, y));
            }
        }
        assert(kept_cover(images, corners, before, after));
        if contested(images, corners, after, i, j) {
            let (x, y) = choose|x: int, y: int| #[trigger]
                owns(images, corners, after, i, x, y) && owns(images, corners, after, j, x, y);
            lemma_owns_less(images, corners, before, after, i, x, y);
            lemma_owns_less(images, corners, before, after, j, x, y);
        }
    } else {
        assert forall|k: int, x: int, y: int|
            0 <= k < before.len() && #[trigger] owns(images, corners, before, k, x, y) implies exists|l: int|
            0 <= l < before.len() && #[trigger] owns(images, corners, after, l, x, y) by {
            assert(owns(images, corners, after, k, x, y));
        }
    }
}

proof fn lemma_split(q: int, w: int, h: int)
    requires
        0 <= q < w * h,
        0 <= w,
        0 <= h,
    ensures
        w > 0,
        0 <= q % w < w,
        0 <= q / w < h,
        (q / w) * w + q % w == q,
{
    assert(w > 0) by (nonlinear_arith)
        requires
            0 <= q < w * h,
            0 <= w,
    ;
    vstd::arithmetic::div_mod::lemma_fundamental_div_mod(q, w);
    let d = q / w;
    let r = q % w;
    assert(d * w == w * d) by (nonlinear_arith);
    assert(d < h) by (nonlinear_arith)
        requires
            w * d + r < w * h,
            0 <= r,
            w > 0,
    ;
    assert(0 <= d) by (nonlinear_arith)
        requires
            0 <= w * d + r,
            r < w,
            w > 0,
    ;
}

/// Finds the seams between placed images: updates the masks so that each
/// point that any of them covers belongs to exactly one image.
#[verifier::spinoff_prover]
#[verifier::rlimit(60)]
pub fn find_seams_graph_cut_color(
    images: &[PixelImage],
    corners: &[(i32, i32)],
    masks: &mut Vec<GrayImage>,
)
    requires
        old(masks)@.len() == images@.len(),
        placed(images@, corners@, mask_data(old(masks)@)),
        forall|i: int|
            0 <= i < images@.len() ==> (#[trigger] old(masks)@[i]).width == images@[i].width
                && old(masks)@[i].height == images@[i].height,
        forall|i: int, j: int|
            0 <= i < j < images@.len() ==> #[trigger] cut_fits(
                images@,
                corners@,
                mask_data(old(masks)@),
                i,
                j,
            ),
    ensures
        final(masks)@.len() == images@.len(),
        placed(images@, corners@, mask_data(final(masks)@)),
        forall|i: int|
            0 <= i < images@.len() ==> {
                &&& (#[trigger] final(masks)@[i]).wf()
                &&& final(masks)@[i].width == images@[i].width
                &&& final(masks)@[i].height == images@[i].height
            },
        // Masks only lose pixels.
        forall|i: int, q: int|
            0 <= i < images@.len() && 0 <= q < old(masks)@[i].data@.len()
                ==> #[trigger] final(masks)@[i].data@[q] == old(masks)@[i].data@[q]
                || final(masks)@[i].data@[q] == 0,
        // No point is left to two images.
        forall|i: int, j: int|
            0 <= i < j < images@.len() ==> !#[trigger] contested(
                images@,
                corners@,
                mask_data(final(masks)@),
                i,
                j,
            ),
        // No covered point is left to none.
        forall|i: int, x: int, y: int|
            0 <= i < images@.len() && #[trigger] owns(
                images@,
                corners@,
                mask_data(old(masks)@),
                i,
                x,
                y,
            ) ==> exists|l: int|
                0 <= l < images@.len() && #[trigger] owns(
                    images@,
                    corners@,
                    mask_data(final(masks)@),
                    l,
                    x,
                    y,
                ),
        // So the masks part the covered points among the images.
        forall|x: int, y: int| #[trigger]
            point_settled(
                images@,
                corners@,
                mask_data(old(masks)@),
                mask_data(final(masks)@),
                x,
                y,
            ),
        // Each contested pair was cut in turn.
        seams_through(
            images@,
            corners@,
            mask_data(old(masks)@),
            images@.len() - 1,
            images@.len() as int,
            mask_data(final(masks)@),
        ),
{
    let n: usize = images.len();
    let ghost start = mask_data(masks@);
    let mut i: usize = 0;
    proof {
        assert(kept_cover(images@, corners@, start, start)) by {
            assert forall|k: int, x: int, y: int|
                0 <= k < start.len() && #[trigger] owns(images@, corners@, start, k, x, y) implies exists|l: int|
                0 <= l < start.len() && #[trigger] owns(images@, corners@, start, l, x, y) by {
                assert(owns(images@, corners@, start, k, x, y));
            }
        }
        assert(mask_data(masks@) == start);
    }
    while i < n
        invariant
            n == images@.len(),
            i <= n,
            start == mask_data(old(masks)@),
            forall|a: int, b: int|
                0 <= a < b < images@.len() ==> #[trigger] cut_fits(images@, corners@, start, a, b),
            masks@.len() == n,
            placed(images@, corners@, start),
            placed(images@, corners@, mask_data(masks@)),
            forall|k: int|
                0 <= k < n ==> (#[trigger] masks@[k]).width == images@[k].width && masks@[k].height
                    == images@[k].height,
            kept_cover(images@, corners@, start, mask_data(masks@)),
            forall|a: int, b: int|
                0 <= a < i && a < b < n ==> #[trigger] parted(
                    images@,
                    corners@,
                    mask_data(masks@),
                    a,
                    b,
                ),
            seams_through(images@, corners@, start, i - 1, n as int, mask_data(masks@)),
        decreases n - i,
    {
        let mut j: usize = i + 1;
        proof {
            assert(seams_through(images@, corners@, start, i as int, i + 1, mask_data(masks@)));
        }
        while j < n
            invariant
                n == images@.len(),
                i < n,
                i + 1 <= j <= n,
                start == mask_data(old(masks)@),
                forall|a: int, b: int|
                    0 <= a < b < images@.len() ==> #[trigger] cut_fits(
                        images@,
                        corners@,
                        start,
                        a,
                        b,
                    ),
                masks@.len() == n,
                placed(images@, corners@, start),
                placed(images@, corners@, mask_data(masks@)),
                forall|k: int|
                    0 <= k < n ==> (#[trigger] masks@[k]).width == images@[k].width
                        && masks@[k].height == images@[k].height,
                kept_cover(images@, corners@, start, mask_data(masks@)),
                forall|a: int, b: int|
                    0 <= a <= i && a < b < n && (a < i || b < j) ==> #[trigger] parted(
                        images@,
                        corners@,
                        mask_data(masks@),
                        a,
                        b,
                    ),
                seams_through(images@, corners@, start, i as int, j as int, mask_data(masks@)),
            decreases n - j,
        {
            let ghost before = mask_data(masks@);
            proof {
                lemma_cut_fits(images@, corners@, start, before, i as int, j as int);
            }
            cut_pair(images, corners, masks, i, j);
            proof {
                let after = mask_data(masks@);
                lemma_pair_step(images@, corners@, before, after, i as int, j as int);
                lemma_seams_next(images@, corners@, start, i as int, j as int, before, after);
                lemma_kept_trans(images@, corners@, start, before, after);
                assert forall|a: int, b: int|
                    0 <= a <= i && a < b < n && (a < i || b < j + 1) implies #[trigger] parted(
                    images@,
                    corners@,
                    after,
                    a,
                    b,
                ) by {
                    if !(a == i && b == j) {
                        assert(parted(images@, corners@, before, a, b));
                        if contested(images@, corners@, after, a, b) {
                            let (x, y) = choose|x: int, y: int| #[trigger]
                                owns(images@, corners@, after, a, x, y) && owns(
                                    images@,
                                    corners@,
                                    after,
                                    b,
                                    x,
                                    y,
                                );
                            lemma_owns_less(images@, corners@, before, after, a, x, y);
                            lemma_owns_less(images@, corners@, before, after, b, x, y);
                        }
                    }
                }
            }
            j = j + 1;
        }
        i = i + 1;
    }
    proof {
        let end = mask_data(masks@);
        assert forall|a: int, b: int| 0 <= a < b < n implies !#[trigger] contested(
            images@,
            corners@,
            end,
            a,
            b,
        ) by {
            assert(parted(images@, corners@, end, a, b));
        }
        assert forall|x: int, y: int| #[trigger]
            point_settled(images@, corners@, start, end, x, y) by {
            lemma_point_settled(images@, corners@, start, end, x, y);
        }
        assert forall|a: int, q: int|
            0 <= a < n && 0 <= q < old(masks)@[a].data@.len() implies #[trigger] masks@[a].data@[q]
            == old(masks)@[a].data@[q] || masks@[a].data@[q] == 0 by {
            assert(end[a][q] == start[a][q] || end[a][q] == 0);
        }
        assert forall|a: int| 0 <= a < n implies (#[trigger] masks@[a]).wf() by {
            assert(end[a] == masks@[a].data@);
            assert(images@[a].wf());
        }
    }
}

/// Masks that lost pixels contest no more than before, so a graph that fitted
/// still fits.
proof fn lemma_cut_fits(
    images: Seq<PixelImage>,
    corners: Seq<(i32, i32)>,
    before: Seq<Seq<u8>>,
    after: Seq<Seq<u8>>,
    i: int,
    j: int,
)
    requires
        placed(images, corners, before),
        kept_cover(images, corners, before, after),
        0 <= i < j < images.len(),
        cut_fits(images, corners, before, i, j),
    ensures
        cut_fits(images, corners, after, i, j),
{
    if contested(images, corners, after, i, j) {
        let (x, y) = choose|x: int, y: int| #[trigger]
            owns(images, corners, after, i, x, y) && owns(images, corners, after, j, x, y);
        lemma_owns_less(images, corners, before, after, i, x, y);
        lemma_owns_less(images, corners, before, after, j, x, y);
    }
}

proof fn lemma_point_settled(
    images: Seq<PixelImage>,
    corners: Seq<(i32, i32)>,
    before: Seq<Seq<u8>>,
    after: Seq<Seq<u8>>,
    x: int,
    y: int,
)
    requires
        placed(images, corners, before),
        before.len() == images.len(),
        kept_cover(images, corners, before, after),
        forall|a: int, b: int|
            0 <= a < b < images.len() ==> !#[trigger] contested(images, corners, after, a, b),
    ensures
        point_settled(images, corners, before, after, x, y),
{
    assert forall|l: int|
        0 <= l < images.len() && #[trigger] owns(images, corners, after, l, x, y) implies owns(
        images,
        corners,
        before,
        l,
        x,
        y,
    ) && alone(images, corners, after, l, x, y) by {
        lemma_owns_less(images, corners, before, after, l, x, y);
        assert forall|m: int|
            0 <= m < images.len() && #[trigger] owns(images, corners, after, m, x, y) implies m
            == l by {
            if m < l {
                assert(contested(images, corners, after, m, l));
            } else if l < m {
                assert(contested(images, corners, after, l, m));
            }
        }
    }
    assert forall|i: int|
        0 <= i < images.len() && #[trigger] owns(images, corners, before, i, x, y) implies exists|
        l: int,
    | #[trigger] alone(images, corners, after, l, x, y) by {
        let l = choose|l: int|
            0 <= l < before.len() && #[trigger] owns(images, corners, after, l, x, y);
        assert(alone(images, corners, after, l, x, y));
    }
    assert forall|i: int| #[trigger] alone(images, corners, before, i, x, y) implies alone(
        images,
        corners,
        after,
        i,
        x,
        y,
    ) by {
        let l = choose|l: int|
            0 <= l < before.len() && #[trigger] owns(images, corners, after, l, x, y);
        assert(owns(images, corners, before, l, x, y));
    }
}

proof fn lemma_seams_next(
    images: Seq<PixelImage>,
    corners: Seq<(i32, i32)>,
    start: Seq<Seq<u8>>,
    i: int,
    j: int,
    before: Seq<Seq<u8>>,
    after: Seq<Seq<u8>>,
)
    requires
        0 <= i < j,
        seams_through(images, corners, start, i, j, before),
        pair_step(images, corners, before, after, i, j),
    ensures
        seams_through(images, corners, start, i, j + 1, after),
{
    let k = j + 1;
    assert(seams_through(images, corners, start, i, k - 1, before));
    assert(pair_step(images, corners, before, after, i, k - 1));
}

proof fn lemma_kept_trans(
    images: Seq<PixelImage>,
    corners: Seq<(i32, i32)>,
    a: Seq<Seq<u8>>,
    b: Seq<Seq<u8>>,
    c: Seq<Seq<u8>>,
)
    requires
        kept_cover(images, corners, a, b),
        kept_cover(images, corners, b, c),
    ensures
        kept_cover(images, corners, a, c),
{
    assert forall|k: int| 0 <= k < a.len() implies (#[trigger] c[k]).len() == a[k].len() by {
        assert(b[k].len() == a[k].len());
    }
    assert forall|k: int, q: int| 0 <= k < a.len() && 0 <= q < a[k].len() implies #[trigger] c[k][q]
        == a[k][q] || c[k][q] == 0 by {
        assert(b[k][q] == a[k][q] || b[k][q] == 0);
    }
    assert forall|k: int, x: int, y: int|
        0 <= k < a.len() && #[trigger] owns(images, corners, a, k, x, y) implies exists|l: int|
        0 <= l < a.len() && #[trigger] owns(images, corners, c, l, x, y) by {
        let m = choose|l: int| 0 <= l < a.len() && #[trigger] owns(images, corners, b, l, x, y);
        assert(owns(images, corners, b, m, x, y));
    }
}

/// Cuts the pair of images `i` and `j` where their masks meet.
#[verifier::spinoff_prover]
fn cut_pair(
    images: &[PixelImage],
    corners: &[(i32, i32)],
    masks: &mut Vec<GrayImage>,
    i: usize,
    j: usize,
)
    requires
        i < j < images@.len(),
        old(masks)@.len() == images@.len(),
        placed(images@, corners@, mask_data(old(masks)@)),
        forall|k: int|
            0 <= k < images@.len() ==> (#[trigger] old(masks)@[k]).width == images@[k].width
                && old(masks)@[k].height == images@[k].height,
        cut_fits(images@, corners@, mask_data(old(masks)@), i as int, j as int),
    ensures
        final(masks)@.len() == old(masks)@.len(),
        forall|k: int|
            0 <= k < images@.len() ==> (#[trigger] final(masks)@[k]).width == images@[k].width
                && final(masks)@[k].height == images@[k].height,
        pair_step(
            images@,
            corners@,
            mask_data(old(masks)@),
            mask_data(final(masks)@),
            i as int,
            j as int,
        ),
{
    let ghost before = mask_data(masks@);
    let ghost p = pair_of(images@, corners@, before, i as int, j as int);
    proof {
        assert(images@[i as int].wf() && images@[j as int].wf());
        assert(before[i as int] == masks@[i as int].data@);
        assert(before[j as int] == masks@[j as int].data@);
        assert forall|x: int, y: int|
            owns(images@, corners@, before, i as int, x, y) && #[trigger] owns(
                images@,
                corners@,
                before,
                j as int,
                x,
                y,
            ) implies p.in_roi(x, y) by {}
    }
    let sz1: (i32, i32) = (images[i].width as i32, images[i].height as i32);
    let sz2: (i32, i32) = (images[j].width as i32, images[j].height as i32);
    match overlap_roi(corners[i], corners[j], sz1, sz2) {
        Some(roi) => {
            assert(p.roi == roi);
            if masks_intersect(corners[i], corners[j], &masks[i], &masks[j], roi) {
                proof {
                    let (x, y) = choose|x: int, y: int|
                        {
                            &&& roi.0 <= x < roi.0 + roi.2
                            &&& roi.1 <= y < roi.1 + roi.3
                            &&& #[trigger] covers(
                                before[i as int],
                                images@[i as int].width as int,
                                images@[i as int].height as int,
                                corners@[i as int],
                                x,
                                y,
                            )
                            &&& covers(
                                before[j as int],
                                images@[j as int].width as int,
                                images@[j as int].height as int,
                                corners@[j as int],
                                x,
                                y,
                            )
                        };
                    assert(owns(images@, corners@, before, i as int, x, y));
                    assert(contested(images@, corners@, before, i as int, j as int));
                    assert(p.wf());
                }
                let mut m1: GrayImage = GrayImage::new(0, 0, Vec::new());
                let mut m2: GrayImage = GrayImage::new(0, 0, Vec::new());
                std::mem::swap(&mut m1, &mut masks[i]);
                std::mem::swap(&mut m2, &mut masks[j]);
                find_in_pair(
                    &images[i],
                    &images[j],
                    corners[i],
                    corners[j],
                    &mut m1,
                    &mut m2,
                    roi,
                );
                std::mem::swap(&mut m1, &mut masks[i]);
                std::mem::swap(&mut m2, &mut masks[j]);
                proof {
                    let after = mask_data(masks@);
                    assert forall|k: int| 0 <= k < before.len() && k != i && k != j implies #[trigger] after[k]
                        == before[k] by {
                        assert(masks@[k] == old(masks)@[k]);
                    }
                }
            } else {
                assert(!contested(images@, corners@, before, i as int, j as int)) by {
                    if contested(images@, corners@, before, i as int, j as int) {
                        let (x, y) = choose|x: int, y: int| #[trigger]
                            owns(images@, corners@, before, i as int, x, y) && owns(
                                images@,
                                corners@,
                                before,
                                j as int,
                                x,
                                y,
                            );
                        assert(p.in_roi(x, y));
                        assert(covers(
                            before[i as int],
                            images@[i as int].width as int,
                            images@[i as int].height as int,
                            corners@[i as int],
                            x,
                            y,
                        ));
                    }
                }
            }
        },
        None => {},
    }
}

/// Three images are cut pair by pair: the first with the second, then with the
/// third, and then the second with the third, each from what the last cut
/// left.
pub proof fn lemma_three_images(
    images: Seq<PixelImage>,
    corners: Seq<(i32, i32)>,
    before: Seq<Seq<u8>>,
    after: Seq<Seq<u8>>,
)
    requires
        images.len() == 3,
    ensures
        seams_through(images, corners, before, 2, 3, after) <==> exists|
            one: Seq<Seq<u8>>,
            two: Seq<Seq<u8>>,
        |
            {
                &&& #[trigger] pair_step(images, corners, before, one, 0, 1)
                &&& #[trigger] pair_step(images, corners, one, two, 0, 2)
                &&& pair_step(images, corners, two, after, 1, 2)
            },
{
    reveal_with_fuel(seams_through, 7);
    if seams_through(images, corners, before, 2, 3, after) {
        assert(seams_through(images, corners, before, 1, 3, after));
        let two = choose|mid: Seq<Seq<u8>>|
            seams_through(images, corners, before, 1, 2, mid) && #[trigger] pair_step(
                images,
                corners,
                mid,
                after,
                1,
                2,
            );
        assert(seams_through(images, corners, before, 0, 3, two));
        let one = choose|mid: Seq<Seq<u8>>|
            seams_through(images, corners, before, 0, 2, mid) && #[trigger] pair_step(
                images,
                corners,
                mid,
                two,
                0,
                2,
            );
        let zero = choose|mid: Seq<Seq<u8>>|
            seams_through(images, corners, before, 0, 1, mid) && #[trigger] pair_step(
                images,
                corners,
                mid,
                one,
                0,
                1,
            );
        assert(zero == before);
        assert(pair_step(images, corners, before, one, 0, 1) && pair_step(
            images,
            corners,
            one,
            two,
            0,
            2,
        ));
    }
    if exists|one: Seq<Seq<u8>>, two: Seq<Seq<u8>>|
        {
            &&& #[trigger] pair_step(images, corners, before, one, 0, 1)
            &&& #[trigger] pair_step(images, corners, one, two, 0, 2)
            &&& pair_step(images, corners, two, after, 1, 2)
        } {
        let (one, two) = choose|one: Seq<Seq<u8>>, two: Seq<Seq<u8>>|
            {
                &&& #[trigger] pair_step(images, corners, before, one, 0, 1)
                &&& #[trigger] pair_step(images, corners, one, two, 0, 2)
                &&& pair_step(images, corners, two, after, 1, 2)
            };
        assert(seams_through(images, corners, before, 0, 1, before));
        lemma_seams_next(images, corners, before, 0, 1, before, one);
        lemma_seams_next(images, corners, before, 0, 2, one, two);
        assert(seams_through(images, corners, before, 1, 2, two));
        lemma_seams_next(images, corners, before, 1, 2, two, after);
    }
}

} // verus!
