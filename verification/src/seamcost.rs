//! What the seam between two images costs: how the cost of a cut answers when
//! one point changes hands.

use crate::gcgraph::arcs_cost;
use crate::gcgraph::lemma_edges_cut;
use crate::gcgraph::terms_cost;
use crate::gcgraph::FlowArc;
use crate::gcgraph::Network;
use crate::imgproc::lemma_index;
use crate::imgproc::lemma_index_split;
use crate::seam::Pair;
use crate::warp::PixelImage;
use vstd::prelude::*;

verus! {

/// Component `c` of an image placed at `tl`, at the point (`x`, `y`); black
/// outside the image.
pub open spec fn shade(img: &PixelImage, tl: (i32, i32), x: int, y: int, c: int) -> int {
    if 0 <= x - tl.0 < img.width && 0 <= y - tl.1 < img.height {
        img.data@[((y - tl.1) * img.width + (x - tl.0)) * 3 + c] as int
    } else {
        0
    }
}

/// A mask of an image placed at `tl` is set at the point (`x`, `y`).
pub open spec fn set_at(mask: Seq<u8>, img: &PixelImage, tl: (i32, i32), x: int, y: int) -> bool {
    &&& 0 <= x - tl.0 < img.width
    &&& 0 <= y - tl.1 < img.height
    &&& mask[(y - tl.1) * img.width + (x - tl.0)] != 0
}

/// By how much the two images differ at a point in component `c`.
pub open spec fn gap_in(p: Pair, x: int, y: int, c: int) -> int {
    shade(&p.img1, p.tl1, x, y, c) - shade(&p.img2, p.tl2, x, y, c)
}

/// What a seam between two neighbouring points costs: 1, and the squared
/// differences of the two images at both points in all three components, and
/// 1000 more unless both masks are set at both points.
pub open spec fn parting(p: Pair, x: int, y: int, nx: int, ny: int) -> int {
    let both = |i: int, j: int|
        set_at(p.mask1, &p.img1, p.tl1, i, j) && set_at(p.mask2, &p.img2, p.tl2, i, j);
    1 + gap_in(p, x, y, 0) * gap_in(p, x, y, 0) + gap_in(p, x, y, 1) * gap_in(p, x, y, 1) + gap_in(
        p,
        x,
        y,
        2,
    ) * gap_in(p, x, y, 2) + gap_in(p, nx, ny, 0) * gap_in(p, nx, ny, 0) + gap_in(p, nx, ny, 1)
        * gap_in(p, nx, ny, 1) + gap_in(p, nx, ny, 2) * gap_in(p, nx, ny, 2) + if both(x, y)
        && both(nx, ny) {
        0int
    } else {
        1000
    }
}

/// Ten pixels around the overlap take part in the cut.
pub open spec fn takes_part(p: Pair, x: int, y: int) -> bool {
    &&& p.roi.0 - 10 <= x < p.roi.0 + p.roi.2 + 10
    &&& p.roi.1 - 10 <= y < p.roi.1 + p.roi.3 + 10
}

/// The vertex that stands for a point.
pub open spec fn place(p: Pair, x: int, y: int) -> int {
    (y - (p.roi.1 - 10)) * (p.roi.2 + 20) + (x - (p.roi.0 - 10))
}

/// What it costs to give the point (`x`, `y`) to the first image, as far as
/// the neighbour (`nx`, `ny`) is concerned: a seam between the two if the
/// neighbour is the second image's, and one seam less if it is the first's.
pub open spec fn toward(
    p: Pair,
    side: spec_fn(int) -> bool,
    x: int,
    y: int,
    nx: int,
    ny: int,
) -> int {
    if !takes_part(p, nx, ny) {
        0
    } else if side(place(p, nx, ny)) {
        -parting(p, x, y, nx, ny)
    } else {
        parting(p, x, y, nx, ny)
    }
}

proof fn lemma_shades(p: Pair, x: int, y: int)
    requires
        p.wf(),
        takes_part(p, x, y),
    ensures
        p.x(place(p, x, y)) == x,
        p.y(place(p, x, y)) == y,
        0 <= place(p, x, y) < p.w() * p.h(),
        place(p, x, y) % p.w() == x - p.roi.0 + 10,
        place(p, x, y) / p.w() == y - p.roi.1 + 10,
        p.covered1(place(p, x, y)) == set_at(p.mask1, &p.img1, p.tl1, x, y),
        p.covered2(place(p, x, y)) == set_at(p.mask2, &p.img2, p.tl2, x, y),
        p.diff(place(p, x, y)) == gap_in(p, x, y, 0) * gap_in(p, x, y, 0) + gap_in(p, x, y, 1)
            * gap_in(p, x, y, 1) + gap_in(p, x, y, 2) * gap_in(p, x, y, 2),
{
    lemma_index_split(x - p.roi.0 + 10, y - p.roi.1 + 10, p.w());
    lemma_index(x - p.roi.0 + 10, y - p.roi.1 + 10, p.w(), p.h());
}

proof fn lemma_parting(p: Pair, x: int, y: int, nx: int, ny: int)
    requires
        p.wf(),
        takes_part(p, x, y),
        takes_part(p, nx, ny),
    ensures
        p.seam_cost(place(p, x, y), place(p, nx, ny)) == parting(p, x, y, nx, ny),
        p.seam_cost(place(p, nx, ny), place(p, x, y)) == parting(p, x, y, nx, ny),
{
    lemma_shades(p, x, y);
    lemma_shades(p, nx, ny);
}

proof fn lemma_terms_moved(terms: Seq<int>, side: spec_fn(int) -> bool, v: int, k: int)
    requires
        0 <= k <= terms.len(),
        !side(v),
    ensures
        terms_cost(terms, |i: int| i == v || side(i), k) == terms_cost(terms, side, k) - if 0 <= v
            < k {
            terms[v]
        } else {
            0
        },
    decreases k,
{
    if k > 0 {
        lemma_terms_moved(terms, side, v, k - 1);
    }
}

/// What an edge between `i` and `j` adds when `v` moves over.
spec fn moves(p: Pair, side: spec_fn(int) -> bool, v: int, i: int, j: int) -> int {
    if i == v {
        if side(j) { -p.seam_cost(i, j) } else { p.seam_cost(i, j) }
    } else if j == v {
        if side(i) { -p.seam_cost(i, j) } else { p.seam_cost(i, j) }
    } else {
        0
    }
}

proof fn lemma_pair_moved(
    p: Pair,
    arcs: Seq<FlowArc>,
    side: spec_fn(int) -> bool,
    v: int,
    i: int,
    j: int,
)
    requires
        !side(v),
        i != j,
    ensures
        ({
            let c = p.seam_cost(i, j);
            let more = arcs.push(FlowArc { src: i, dst: j, cap: c }).push(
                FlowArc { src: j, dst: i, cap: c },
            );
            let moved = |u: int| u == v || side(u);
            arcs_cost(more, moved, more.len() as int) - arcs_cost(more, side, more.len() as int)
                == arcs_cost(arcs, moved, arcs.len() as int) - arcs_cost(
                arcs,
                side,
                arcs.len() as int,
            ) + moves(p, side, v, i, j)
        }),
{
    let c = p.seam_cost(i, j);
    let g = Network { base: 0, terms: Seq::empty(), arcs };
    let moved = |u: int| u == v || side(u);
    lemma_edges_cut(g, i, j, c, c, side);
    lemma_edges_cut(g, i, j, c, c, moved);
}

proof fn lemma_arcs_moved(p: Pair, side: spec_fn(int) -> bool, v: int, k: int)
    requires
        p.w() >= 2,
        0 <= k,
        !side(v),
    ensures
        ({
            let w = p.w();
            let moved = |u: int| u == v || side(u);
            let n = p.arcs(k).len() as int;
            arcs_cost(p.arcs(k), moved, n) - arcs_cost(p.arcs(k), side, n) == (if 0 <= v < k && v % w
                < w - 1 {
                moves(p, side, v, v, v + 1)
            } else {
                0
            }) + (if 0 <= v - 1 < k && (v - 1) % w < w - 1 {
                moves(p, side, v, v - 1, v)
            } else {
                0
            }) + (if 0 <= v < k && v / w < p.h() - 1 {
                moves(p, side, v, v, v + w)
            } else {
                0
            }) + (if 0 <= v - w < k && (v - w) / w < p.h() - 1 {
                moves(p, side, v, v - w, v)
            } else {
                0
            })
        }),
    decreases k,
{
    if k > 0 {
        let i = k - 1;
        let w = p.w();
        lemma_arcs_moved(p, side, v, i);
        let before = p.arcs(i);
        let right = if i % w < w - 1 {
            let c = p.seam_cost(i, i + 1);
            before.push(FlowArc { src: i, dst: i + 1, cap: c }).push(
                FlowArc { src: i + 1, dst: i, cap: c },
            )
        } else {
            before
        };
        if i % w < w - 1 {
            lemma_pair_moved(p, before, side, v, i, i + 1);
        }
        if i / w < p.h() - 1 {
            lemma_pair_moved(p, right, side, v, i, i + w);
        }
    }
}

/// What it costs to give one more point to the first image: ten thousand if
/// the second image's mask is set there, less ten thousand if the first's is,
/// and a seam to each of the four neighbours that stays with the second,
/// less the seams to those that are with the first already. Seams cost what
/// the images differ in red, green and blue.
pub proof fn lemma_point_changes_hands(p: Pair, side: spec_fn(int) -> bool, x: int, y: int)
    requires
        p.wf(),
        p.roi.0 - 10 <= x < p.roi.0 + p.roi.2 + 10,
        p.roi.1 - 10 <= y < p.roi.1 + p.roi.3 + 10,
        !side(place(p, x, y)),
    ensures
        p.network().cut_cost(|i: int| i == place(p, x, y) || side(i)) == p.network().cut_cost(side)
            + (if set_at(p.mask2, &p.img2, p.tl2, x, y) {
            10_000int
        } else {
            0
        }) - (if set_at(p.mask1, &p.img1, p.tl1, x, y) {
            10_000int
        } else {
            0
        }) + toward(p, side, x, y, x + 1, y) + toward(p, side, x, y, x - 1, y) + toward(
            p,
            side,
            x,
            y,
            x,
            y + 1,
        ) + toward(p, side, x, y, x, y - 1),
{
    let v = place(p, x, y);
    let (w, h) = (p.w(), p.h());
    let n = w * h;
    lemma_shades(p, x, y);
    lemma_terms_moved(p.network().terms, side, v, n);
    lemma_arcs_moved(p, side, v, n);
    let (cx, cy) = (x - p.roi.0 + 10, y - p.roi.1 + 10);
    assert((cy + 1) * w == cy * w + w && (cy - 1) * w == cy * w - w) by (nonlinear_arith);
    assert(place(p, x + 1, y) == v + 1);
    assert(place(p, x - 1, y) == v - 1);
    assert(place(p, x, y + 1) == v + w);
    assert(place(p, x, y - 1) == v - w);
    if cx > 0 {
        lemma_shades(p, x - 1, y);
        lemma_parting(p, x, y, x - 1, y);
    } else {
        lemma_before_row(cy, w);
    }
    if cx < w - 1 {
        lemma_shades(p, x + 1, y);
        lemma_parting(p, x, y, x + 1, y);
    }
    if cy > 0 {
        lemma_shades(p, x, y - 1);
        lemma_parting(p, x, y, x, y - 1);
    } else {
        assert(cy * w == 0) by (nonlinear_arith)
            requires
                cy == 0,
        ;
    }
    if cy < h - 1 {
        lemma_shades(p, x, y + 1);
        lemma_parting(p, x, y, x, y + 1);
    }
    assert((if 0 <= v - 1 < n && (v - 1) % w < w - 1 { moves(p, side, v, v - 1, v) } else { 0 })
        == toward(p, side, x, y, x - 1, y));
    assert((if 0 <= v < n && v % w < w - 1 { moves(p, side, v, v, v + 1) } else { 0 }) == toward(
        p, side, x, y, x + 1, y));
    assert((if 0 <= v < n && v / w < h - 1 { moves(p, side, v, v, v + w) } else { 0 }) == toward(
        p, side, x, y, x, y + 1));
    assert((if 0 <= v - w < n && (v - w) / w < h - 1 { moves(p, side, v, v - w, v) } else { 0 })
        == toward(p, side, x, y, x, y - 1));
    assert(p.network().terms[v] == p.term1(v) - p.term2(v));
}

/// Before the first place of a row stands the last of the row above.
proof fn lemma_before_row(y: int, w: int)
    requires
        0 <= y,
        w >= 1,
    ensures
        y >= 1 ==> (y * w - 1) % w == w - 1,
        y == 0 ==> y * w == 0,
{
    if y >= 1 {
        lemma_index_split(w - 1, y - 1, w);
        assert((y - 1) * w == y * w - w) by (nonlinear_arith);
    } else {
        assert(0 * w == 0);
    }
}

/// A seam costs nothing but its 1 only between points where both images show
/// the same colour, and a difference in any of the three components makes it
/// dearer. Exchanging the components of both images alike changes no cost.
pub proof fn lemma_parting_by_colour(p: Pair, q: Pair, x: int, y: int, nx: int, ny: int)
    requires
        set_at(p.mask1, &p.img1, p.tl1, x, y) && set_at(p.mask2, &p.img2, p.tl2, x, y),
        set_at(p.mask1, &p.img1, p.tl1, nx, ny) && set_at(p.mask2, &p.img2, p.tl2, nx, ny),
        q.mask1 == p.mask1 && q.mask2 == p.mask2 && q.tl1 == p.tl1 && q.tl2 == p.tl2,
        q.img1.width == p.img1.width && q.img1.height == p.img1.height,
        q.img2.width == p.img2.width && q.img2.height == p.img2.height,
        // `q` has green, blue and red where `p` has red, green and blue.
        forall|i: int, j: int, c: int|
            0 <= c < 3 ==> #[trigger] gap_in(q, i, j, c) == gap_in(p, i, j, (c + 1) % 3),
    ensures
        parting(p, x, y, nx, ny) >= 1,
        parting(p, x, y, nx, ny) == 1 <==> {
            &&& forall|c: int| 0 <= c < 3 ==> #[trigger] gap_in(p, x, y, c) == 0
            &&& forall|c: int| 0 <= c < 3 ==> #[trigger] gap_in(p, nx, ny, c) == 0
        },
        parting(q, x, y, nx, ny) == parting(p, x, y, nx, ny),
{
    lemma_square_sign(gap_in(p, x, y, 0));
    lemma_square_sign(gap_in(p, x, y, 1));
    lemma_square_sign(gap_in(p, x, y, 2));
    lemma_square_sign(gap_in(p, nx, ny, 0));
    lemma_square_sign(gap_in(p, nx, ny, 1));
    lemma_square_sign(gap_in(p, nx, ny, 2));
    assert(gap_in(q, x, y, 0) == gap_in(p, x, y, 1));
    assert(gap_in(q, x, y, 1) == gap_in(p, x, y, 2));
    assert(gap_in(q, x, y, 2) == gap_in(p, x, y, 0));
    assert(gap_in(q, nx, ny, 0) == gap_in(p, nx, ny, 1));
    assert(gap_in(q, nx, ny, 1) == gap_in(p, nx, ny, 2));
    assert(gap_in(q, nx, ny, 2) == gap_in(p, nx, ny, 0));
}

proof fn lemma_square_sign(a: int)
    ensures
        a * a >= 0,
        a * a == 0 <==> a == 0,
{
    assert(a * a >= 0 && (a * a == 0 <==> a == 0)) by (nonlinear_arith);
}

/// Who keeps a point of the overlap that both masks are set at: the first
/// image if the point lies on the source's side of the cut, else the second.
/// The other's mask is cleared there.
pub proof fn lemma_side_keeps(
    p: Pair,
    side: spec_fn(int) -> bool,
    after1: Seq<u8>,
    after2: Seq<u8>,
    x: int,
    y: int,
)
    requires
        p.wf(),
        p.shared_out(side, after1, after2),
        p.roi.0 <= x < p.roi.0 + p.roi.2,
        p.roi.1 <= y < p.roi.1 + p.roi.3,
        set_at(p.mask1, &p.img1, p.tl1, x, y),
        set_at(p.mask2, &p.img2, p.tl2, x, y),
    ensures
        set_at(after1, &p.img1, p.tl1, x, y) == side(place(p, x, y)),
        set_at(after2, &p.img2, p.tl2, x, y) == !side(place(p, x, y)),
{
    assert(p.vertex(x, y) == place(p, x, y));
    p.lemma_keeps(side, after1, after2, x, y);
}

} // verus!
