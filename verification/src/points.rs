//! What happens to a single point of the masks and images that lie over each
//! other.

use crate::blend::distance_transform_l1;
use crate::blend::empty_at;
use crate::blend::is_distance;
use crate::estimation::MatchGraph;
use crate::exposure::shared_pixels;
use crate::exposure::shared_until;
use crate::exposure::BlockView;
use crate::imgproc::GrayImage;
use crate::masks::in_frame;
use crate::masks::suppress_rescued_masks;
use crate::masks::suppressed;
use crate::masks::Frame;
use crate::multiband::crop_covered;
use crate::multiband::BandLayout;
use crate::multiband::PlaneI16;
use crate::painted::yield_to_preferred;
use crate::pyramid::px3;
use crate::seam::alone;
use crate::seam::find_seams_graph_cut_color;
use crate::seam::mask_data;
use crate::seam::owns;
use crate::seam::point_settled;
use crate::spanning::find_max_spanning_tree;
use crate::spanning::is_grown_from;
use crate::spanning::Edge;
use crate::tree::lists;
use crate::tree::visit_order;
use crate::tree::walk_ok;
use crate::tree::SpanningTree;
use crate::warp::PixelImage;
use vstd::arithmetic::power2::pow2;
use vstd::prelude::*;

verus! {

/// Whether a mask whose first pixel is at `c` is set at a point.
pub open spec fn set_on(m: &GrayImage, c: (i32, i32), x: int, y: int) -> bool {
    &&& c.0 <= x < c.0 + m.width
    &&& c.1 <= y < c.1 + m.height
    &&& m.data@[(y - c.1) * m.width + (x - c.0)] != 0
}

/// Seams part the points among the images: a point that some covered is left
/// to just one of these, and to the one that covered it where only one did.
pub proof fn law_seams(
    images: &[PixelImage],
    corners: &[(i32, i32)],
    masks: &mut Vec<GrayImage>,
    i: int,
    x: int,
    y: int,
)
    requires
        call_ensures(find_seams_graph_cut_color, (images, corners, masks), ()),
        old(masks)@.len() == images@.len(),
        forall|k: int|
            0 <= k < images@.len() ==> (#[trigger] old(masks)@[k]).width == images@[k].width && old(
                masks,
            )@[k].height == images@[k].height,
        0 <= i < images@.len(),
    ensures
        final(masks)@.len() == images@.len(),
        set_on(&old(masks)@[i], corners@[i], x, y) ==> exists|l: int|
            0 <= l < images@.len() && #[trigger] set_on(&final(masks)@[l], corners@[l], x, y),
        set_on(&final(masks)@[i], corners@[i], x, y) ==> set_on(&old(masks)@[i], corners@[i], x, y)
            && forall|l: int|
            0 <= l < images@.len() && l != i ==> !#[trigger] set_on(
                &final(masks)@[l],
                corners@[l],
                x,
                y,
            ),
        set_on(&old(masks)@[i], corners@[i], x, y) && (forall|l: int|
            0 <= l < images@.len() && l != i ==> !#[trigger] set_on(
                &old(masks)@[l],
                corners@[l],
                x,
                y,
            )) ==> set_on(&final(masks)@[i], corners@[i], x, y),
{
    let (m0, m1) = (mask_data(old(masks)@), mask_data(final(masks)@));
    assert(point_settled(images@, corners@, m0, m1, x, y));
    assert forall|k: int| 0 <= k < images@.len() implies (#[trigger] set_on(
        &old(masks)@[k],
        corners@[k],
        x,
        y,
    ) <==> owns(images@, corners@, m0, k, x, y)) by {
        assert(m0[k] == old(masks)@[k].data@);
    }
    assert forall|k: int| 0 <= k < images@.len() implies (#[trigger] set_on(
        &final(masks)@[k],
        corners@[k],
        x,
        y,
    ) <==> owns(images@, corners@, m1, k, x, y)) by {
        assert(m1[k] == final(masks)@[k].data@);
    }
    if owns(images@, corners@, m0, i, x, y) {
        let l = choose|l: int| #[trigger] alone(images@, corners@, m1, l, x, y);
        assert(set_on(&final(masks)@[l], corners@[l], x, y));
    }
    if owns(images@, corners@, m1, i, x, y) {
        assert(owns(images@, corners@, m0, i, x, y));
        let l = choose|l: int| #[trigger] alone(images@, corners@, m1, l, x, y);
        assert(l == i);
    }
    if owns(images@, corners@, m0, i, x, y) && forall|l: int|
        0 <= l < images@.len() && l != i ==> !#[trigger] set_on(
            &old(masks)@[l],
            corners@[l],
            x,
            y,
        ) {
        assert forall|l: int|
            0 <= l < images@.len() && #[trigger] owns(images@, corners@, m0, l, x, y) implies l
            == i by {
            assert(set_on(&old(masks)@[l], corners@[l], x, y));
        }
        assert(alone(images@, corners@, m0, i, x, y));
    }
}

/// Where an image that covers a point is preferred there, the others that are
/// not give it up. All else stays.
pub proof fn law_preferred(
    masks: &mut Vec<GrayImage>,
    preferred: &[GrayImage],
    corners: &[(i32, i32)],
    i: int,
    j: int,
    x: int,
    y: int,
)
    requires
        call_ensures(yield_to_preferred, (masks, preferred, corners), ()),
        0 <= i < old(masks)@.len(),
        0 <= j < old(masks)@.len(),
        corners@[i].0 <= x < corners@[i].0 + old(masks)@[i].width,
        corners@[i].1 <= y < corners@[i].1 + old(masks)@[i].height,
    ensures
        ({
            let q = (y - corners@[i].1) * old(masks)@[i].width + (x - corners@[i].0);
            let (was, kept) = (old(masks)@[i].data@[q], final(masks)@[i].data@[q]);
            &&& set_on(&preferred@[i], corners@[i], x, y) ==> kept == was
            &&& set_on(&old(masks)@[j], corners@[j], x, y) && set_on(
                &preferred@[j],
                corners@[j],
                x,
                y,
            ) && !set_on(&preferred@[i], corners@[i], x, y) ==> kept == 0
            &&& (forall|k: int|
                0 <= k < old(masks)@.len() ==> !(#[trigger] set_on(
                    &old(masks)@[k],
                    corners@[k],
                    x,
                    y,
                ) && set_on(&preferred@[k], corners@[k], x, y))) ==> kept == was
        }),
{
    let before = old(masks)@;
    let out = final(masks)@[i];
    assert(crate::painted::yielded(before, preferred@, corners@, i, &out));
    let (px, py) = (x - corners@[i].0, y - corners@[i].1);
    assert(out.px(px, py) == out.data@[py * out.width + px]);
    assert(before[i].px(px, py) == before[i].data@[py * before[i].width + px]);
    assert(corners@[i].0 + px == x && corners@[i].1 + py == y);
    assert forall|k: int| 0 <= k < before.len() implies (#[trigger] crate::painted::claims(
        before,
        preferred@,
        corners@,
        k,
        x,
        y,
    ) <==> set_on(&before[k], corners@[k], x, y) && set_on(
        &preferred@[k],
        corners@[k],
        x,
        y,
    )) by {}
    let claimed = crate::painted::is_claimed(before, preferred@, corners@, x, y);
    if crate::painted::claims(before, preferred@, corners@, j, x, y) {
        assert(claimed);
    }
    if claimed {
        let k = choose|k: int|
            0 <= k < before.len() && #[trigger] crate::painted::claims(
                before,
                preferred@,
                corners@,
                k,
                x,
                y,
            );
        assert(set_on(&before[k], corners@[k], x, y));
    }
    assert(set_on(&preferred@[i], corners@[i], x, y) <==> crate::masks::covers(
        &preferred@[i],
        corners@[i],
        x,
        y,
    ));
}

/// A roughly placed image gives up a point if the firmly placed ones cover all
/// points up to `iters` columns and rows away, and keeps it if one of these
/// points that lies between their outermost edges is not covered. Firmly
/// placed images keep everything.
pub proof fn law_rescued(
    masks: &mut Vec<GrayImage>,
    corners: &[(i32, i32)],
    rescued: &[bool],
    iters: usize,
    i: int,
    x: int,
    y: int,
    a: int,
    b: int,
    left: int,
    top: int,
    right: int,
    bottom: int,
)
    requires
        call_ensures(suppress_rescued_masks, (masks, corners, rescued, iters), ()),
        rescued@.len() == old(masks)@.len(),
        0 <= i < old(masks)@.len(),
        corners@[i].0 <= x < corners@[i].0 + old(masks)@[i].width,
        corners@[i].1 <= y < corners@[i].1 + old(masks)@[i].height,
        0 <= left < old(masks)@.len() && !rescued@[left],
        0 <= top < old(masks)@.len() && !rescued@[top],
        0 <= right < old(masks)@.len() && !rescued@[right],
        0 <= bottom < old(masks)@.len() && !rescued@[bottom],
        corners@[left].0 <= a < corners@[right].0 + old(masks)@[right].width,
        corners@[top].1 <= b < corners@[bottom].1 + old(masks)@[bottom].height,
        x - iters <= a <= x + iters,
        y - iters <= b <= y + iters,
    ensures
        ({
            let q = (y - corners@[i].1) * old(masks)@[i].width + (x - corners@[i].0);
            let (was, kept) = (old(masks)@[i].data@[q], final(masks)@[i].data@[q]);
            &&& !rescued@[i] ==> kept == was
            &&& (forall|j: int|
                0 <= j < old(masks)@.len() && !rescued@[j] ==> !#[trigger] set_on(
                    &old(masks)@[j],
                    corners@[j],
                    a,
                    b,
                )) ==> kept == was
            &&& rescued@[i] && (forall|c: int, d: int|
                x - iters <= c <= x + iters && y - iters <= d <= y + iters ==> #[trigger] firm(
                    old(masks)@,
                    corners@,
                    rescued@,
                    c,
                    d,
                )) ==> kept == 0
        }),
{
    let before = old(masks)@;
    let after = final(masks)@;
    let n = before.len() as int;
    assert forall|c: int, d: int| #[trigger]
        firm(before, corners@, rescued@, c, d) <==> crate::masks::firmly_covered(
            before,
            corners@,
            rescued@,
            n,
            c,
            d,
        ) by {
        if firm(before, corners@, rescued@, c, d) {
            let k = choose|k: int|
                0 <= k < n && !rescued@[k] && #[trigger] set_on(&before[k], corners@[k], c, d);
            assert(crate::masks::covers(&before[k], corners@[k], c, d));
        }
        if crate::masks::firmly_covered(before, corners@, rescued@, n, c, d) {
            let k = choose|k: int|
                0 <= k < n && !rescued@[k] && #[trigger] crate::masks::covers(
                    &before[k],
                    corners@[k],
                    c,
                    d,
                );
            assert(set_on(&before[k], corners@[k], c, d));
        }
    }
    if rescued@[i] {
        assert(rescued@[i] && !rescued@[left]);
        assert(crate::masks::some_rescued(rescued@));
        let roi = choose|roi: Frame| #[trigger]
            crate::masks::is_frame(before, corners@, rescued@, roi) && suppressed(
                before,
                corners@,
                rescued@,
                roi,
                iters as int,
                after,
            );
        let (px, py) = (x - corners@[i].0, y - corners@[i].1);
        assert(after[i].px(px, py) == crate::masks::held_back(
            before,
            corners@,
            rescued@,
            roi,
            iters as int,
            i,
            px,
            py,
        ));
        crate::masks::lemma_rescued_fills(
            before,
            corners@,
            rescued@,
            roi,
            iters as int,
            i,
            px,
            py,
        );
        assert(!rescued@[left] && !rescued@[top] && !rescued@[right] && !rescued@[bottom]);
        assert(in_frame(roi, a, b));
        if forall|j: int|
            0 <= j < n && !rescued@[j] ==> !#[trigger] set_on(&before[j], corners@[j], a, b) {
            assert(!firm(before, corners@, rescued@, a, b));
            assert(!crate::masks::firmly_covered(before, corners@, rescued@, n, a, b));
        }
        if forall|c: int, d: int|
            x - iters <= c <= x + iters && y - iters <= d <= y + iters ==> #[trigger] firm(
                before,
                corners@,
                rescued@,
                c,
                d,
            ) {
            assert(firm(before, corners@, rescued@, x, y));
            let k = choose|k: int|
                0 <= k < n && !rescued@[k] && #[trigger] set_on(&before[k], corners@[k], x, y);
            assert(!rescued@[k]);
            assert forall|c: int, d: int|
                x - iters <= c <= x + iters && y - iters <= d <= y + iters && in_frame(
                    roi,
                    c,
                    d,
                ) implies #[trigger] crate::masks::firmly_covered(
                before,
                corners@,
                rescued@,
                n,
                c,
                d,
            ) by {
                assert(firm(before, corners@, rescued@, c, d));
            }
        }
    } else if crate::masks::some_rescued(rescued@) {
        let roi = choose|roi: Frame| #[trigger]
            crate::masks::is_frame(before, corners@, rescued@, roi) && suppressed(
                before,
                corners@,
                rescued@,
                roi,
                iters as int,
                after,
            );
        assert(after[i].data@ == before[i].data@);
    }
}

/// Whether one of the firmly placed images covers a point.
pub open spec fn firm(
    masks: Seq<GrayImage>,
    corners: Seq<(i32, i32)>,
    rescued: Seq<bool>,
    x: int,
    y: int,
) -> bool {
    exists|j: int|
        0 <= j < masks.len() && !rescued[j] && #[trigger] set_on(&masks[j], corners[j], x, y)
}

/// A distance is the fewest steps across and down to an empty pixel.
pub proof fn law_fewest_steps(mask: &GrayImage, dist: Vec<u64>, x: int, y: int, u: int, v: int) -> (z: (
    int,
    int,
))
    requires
        call_ensures(distance_transform_l1, (mask,), dist),
        0 <= x < mask.width,
        0 <= y < mask.height,
        0 <= u < mask.width,
        0 <= v < mask.height,
        mask.data@[v * mask.width + u] == 0,
    ensures
        dist@[y * mask.width + x] <= (if x < u {
            u - x
        } else {
            x - u
        }) + (if y < v {
            v - y
        } else {
            y - v
        }),
        0 <= z.0 < mask.width,
        0 <= z.1 < mask.height,
        mask.data@[z.1 * mask.width + z.0] == 0,
        dist@[y * mask.width + x] == (if x < z.0 {
            z.0 - x
        } else {
            x - z.0
        }) + (if y < z.1 {
            z.1 - y
        } else {
            y - z.1
        }),
{
    assert(empty_at(mask, u, v));
    let d = dist@[y * mask.width + x] as int;
    assert(is_distance(mask, x, y, d));
    let z = choose|zx: int, zy: int| #[trigger]
        empty_at(mask, zx, zy) && crate::blend::l1(x, y, zx, zy) == d;
    z
}

/// Two blocks are held against each other where they lie over each other, and
/// only if they do.
pub proof fn law_shared(b1: &BlockView, b2: &BlockView, r: Option<Vec<(u32, u32)>>, x: int, y: int) -> (q: (
    int,
    int,
    int,
    int,
))
    requires
        b1.wf(),
        b2.wf(),
        call_ensures(shared_pixels, (b1, b2), r),
    ensures
        (b1.block.corner.0 <= x < b1.block.corner.0 + b1.block.width && b1.block.corner.1 <= y
            < b1.block.corner.1 + b1.block.height && b2.block.corner.0 <= x < b2.block.corner.0
            + b2.block.width && b2.block.corner.1 <= y < b2.block.corner.1 + b2.block.height) <==> (
        r is Some && q.0 <= x < q.0 + q.2 && q.1 <= y < q.1 + q.3),
        r is Some ==> q.2 > 0 && q.3 > 0 && r->0@ == shared_until(b1, b2, q, q.2 * q.3),
{
    crate::seam::common_rect(b1.block.corner, b2.block.corner, b1.extent(), b2.extent())
}

/// A plane that is put out is cut at its top left corner. What is not covered
/// is black.
pub proof fn law_cut_out(
    plane: &PlaneI16,
    covered: &[bool],
    fw: usize,
    fh: usize,
    r: (Vec<i16>, GrayImage),
    x: int,
    y: int,
    c: int,
)
    requires
        call_ensures(crop_covered, (plane, covered, fw, fh), r),
        0 <= x < fw,
        0 <= y < fh,
        0 <= c < 3,
    ensures
        covered@[y * plane.w + x] ==> r.1.data@[y * fw + x] == 255 && r.0@[(y * fw + x) * 3 + c]
            == plane.data@[(y * plane.w + x) * 3 + c],
        !covered@[y * plane.w + x] ==> r.1.data@[y * fw + x] == 0 && r.0@[(y * fw + x) * 3 + c] == 0,
{
    assert(r.1.px(x, y) == r.1.data@[y * fw + x]);
    assert(px3(r.0@, fw as int, x, y, c) == r.0@[(y * fw + x) * 3 + c]);
}

/// A plane is as large as it must be and no larger, in steps of two to the
/// power of its bands, of which there are as many as were asked for or as halve
/// its longer side to one pixel, whichever are fewer.
pub proof fn law_band_room(most: usize, x: i32, y: i32, w: usize, h: usize, l: BandLayout)
    requires
        w >= 1,
        h >= 1,
        call_ensures(BandLayout::prepare, (most, x, y, w, h), l),
    ensures
        ({
            let step = pow2(l.num_bands as nat) as int;
            &&& l.roi.0 == x && l.roi.1 == y
            &&& w <= l.roi.2 < w + step && l.roi.2 as int % step == 0
            &&& h <= l.roi.3 < h + step && l.roi.3 as int % step == 0
            &&& l.num_bands <= most
            &&& l.num_bands < most ==> w <= step && h <= step
            &&& l.num_bands >= 1 ==> w > pow2((l.num_bands - 1) as nat) || h > pow2(
                (l.num_bands - 1) as nat,
            )
        }),
{
    let k = choose|k: nat| #[trigger]
        crate::multiband::is_ceil_log2(crate::multiband::at_least(w as int, h as int), k)
            && l.num_bands == if most < k {
            most as int
        } else {
            k as int
        };
    if l.num_bands >= 1 {
        if l.num_bands < k {
            if l.num_bands - 1 < k - 1 {
                vstd::arithmetic::power2::lemma_pow2_strictly_increases(
                    (l.num_bands - 1) as nat,
                    (k - 1) as nat,
                );
            }
        }
    }
}

/// The tree is grown from the pairs that have a model: those with the most
/// inliers first, and of those with as many the one of the earlier images.
pub proof fn law_tree_order(g: &MatchGraph, t: SpanningTree, x: int, y: int) -> (es: Seq<Edge>)
    requires
        call_ensures(find_max_spanning_tree, (g,), t),
    ensures
        is_grown_from(&t, g, es),
        0 <= x < es.len() ==> {
            &&& es[x].0 < g.n && es[x].1 < g.n
            &&& g.pair(es[x].0 as int, es[x].1 as int).has_h
            &&& es[x].2 == g.pair(es[x].0 as int, es[x].1 as int).num_inliers
        },
        0 <= x < y < es.len() ==> {
            ||| es[x].2 > es[y].2
            ||| es[x].2 == es[y].2 && es[x].0 < es[y].0
            ||| es[x].2 == es[y].2 && es[x].0 == es[y].0 && es[x].1 < es[y].1
        },
{
    choose|es: Seq<Edge>| #[trigger] is_grown_from(&t, g, es)
}

/// A walk leaves the vertices in the order in which it came to them, and goes
/// to the neighbours of each in the order in which they are listed. It comes
/// to no vertex twice, nor back to its start.
pub proof fn law_walk(
    t: &SpanningTree,
    start: usize,
    edges: Vec<(usize, usize)>,
    e: int,
    f: int,
) -> (r: (int, int, int, int))
    requires
        call_ensures(SpanningTree::walk_breadth_first, (t, start), edges),
        0 <= e < f < edges@.len(),
    ensures
        ({
            let came = |k: int|
                if k == 0 {
                    start as int
                } else {
                    edges@[k - 1].1 as int
                };
            let (i, p, j, q) = r;
            &&& 0 <= i <= e && edges@[e].0 == came(i)
            &&& 0 <= j <= f && edges@[f].0 == came(j)
            &&& 0 <= p < t.adj@[edges@[e].0 as int]@.len() && t.adj@[edges@[e].0 as int]@[p]
                == edges@[e].1
            &&& 0 <= q < t.adj@[edges@[f].0 as int]@.len() && t.adj@[edges@[f].0 as int]@[q]
                == edges@[f].1
            &&& i < j || (i == j && p < q)
        }),
        edges@[e].1 != edges@[f].1,
        edges@[e].1 != start,
{
    let adj = lists(t.adj@);
    let (par, pos) = choose|par: Seq<int>, pos: Seq<int>| #[trigger]
        walk_ok(adj, start as int, edges@, par, pos);
    let order = visit_order(start as int, edges@);
    assert(order.len() == edges@.len() + 1);
    assert(order[0] == start);
    assert forall|k: int| 0 < k < order.len() implies #[trigger] order[k] == edges@[k - 1].1 by {}
    assert(order[e + 1] == edges@[e].1 && order[f + 1] == edges@[f].1);
    assert(0 <= par[e] <= e && 0 <= par[f] <= f);
    assert(adj[edges@[e].0 as int] == t.adj@[edges@[e].0 as int]@);
    assert(adj[edges@[f].0 as int] == t.adj@[edges@[f].0 as int]@);
    (par[e], pos[e], par[f], pos[f])
}

} // verus!
