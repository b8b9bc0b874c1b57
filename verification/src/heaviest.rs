//! The spanning tree is the strongest there is: no choice of edges without a
//! ring has more inliers.

use crate::estimation::joined;
use crate::estimation::MatchGraph;
use crate::spanning::chosen;
use crate::spanning::has_edge;
use crate::spanning::has_link;
use crate::spanning::is_chain;
use crate::spanning::is_edge;
use crate::spanning::lemma_chosen_prefix;
use crate::spanning::lemma_linked_by_strongest;
use crate::spanning::lemma_linked_more;
use crate::spanning::lemma_linked_self;
use crate::spanning::lemma_linked_sym;
use crate::spanning::lemma_linked_trans;
use crate::spanning::lemma_links_close_no_ring;
use crate::spanning::lemma_sets_joined;
use crate::spanning::lemma_sets_match;
use crate::spanning::linked;
use crate::spanning::sets_match;
use crate::spanning::stronger;
use crate::spanning::strongest_first;
use crate::spanning::Edge;
use crate::spanning::Link;
use vstd::prelude::*;
use vstd::set_lib::set_int_range;

verus! {

/// No link joins what the links before it join.
pub open spec fn closes_no_ring(links: Seq<Link>) -> bool {
    forall|m: int|
        0 <= m < links.len() ==> !linked(
            links.take(m),
            (#[trigger] links[m]).0 as int,
            links[m].1 as int,
        )
}

/// The links of the edges that `picks` names.
pub open spec fn picked(es: Seq<Edge>, picks: Seq<int>) -> Seq<Link> {
    Seq::new(picks.len(), |i: int| (es[picks[i]].0, es[picks[i]].1))
}

/// Inliers of the first `j` edges that `picks` names.
pub open spec fn picked_weight(es: Seq<Edge>, picks: Seq<int>, j: int) -> int
    decreases j,
{
    if j <= 0 {
        0
    } else {
        picked_weight(es, picks, j - 1) + es[picks[j - 1]].2
    }
}

/// Inliers of the links chosen among the first `k` edges.
pub open spec fn tree_weight(es: Seq<Edge>, k: int) -> int
    decreases k,
{
    if k <= 0 {
        0
    } else if linked(chosen(es, k - 1), es[k - 1].0 as int, es[k - 1].1 as int) {
        tree_weight(es, k - 1)
    } else {
        tree_weight(es, k - 1) + es[k - 1].2
    }
}

/// The numbers that stand for themselves.
spec fn tops(roots: Seq<int>) -> Set<int> {
    Set::new(|i: int| 0 <= i < roots.len() && roots[i] == i)
}

spec fn in_bounds(links: Seq<Link>, n: int) -> bool {
    forall|m: int| 0 <= m < links.len() ==> (#[trigger] links[m]).0 < n && links[m].1 < n
}

/// The sets that links without a ring make: each link leaves one fewer.
proof fn lemma_sets(links: Seq<Link>, n: int) -> (roots: Seq<int>)
    requires
        0 <= n,
        closes_no_ring(links),
        in_bounds(links, n),
    ensures
        roots.len() == n,
        sets_match(links, roots),
        forall|i: int|
            0 <= i < n ==> 0 <= #[trigger] roots[i] < n && roots[roots[i]] == roots[i],
        tops(roots).finite(),
        tops(roots).len() == n - links.len(),
    decreases links.len(),
{
    if links.len() == 0 {
        let roots = Seq::new(n as nat, |i: int| i);
        assert(tops(roots) =~= set_int_range(0, n));
        vstd::set_lib::lemma_int_range(0, n);
        assert forall|a: int, b: int|
            0 <= a < roots.len() && 0 <= b < roots.len() && #[trigger] roots[a]
                == #[trigger] roots[b] implies linked(links, a, b) by {
            lemma_linked_self(links, a);
        }
        roots
    } else {
        let k = links.len() - 1;
        let pre = links.take(k);
        assert forall|m: int| 0 <= m < pre.len() implies !linked(
            pre.take(m),
            (#[trigger] pre[m]).0 as int,
            pre[m].1 as int,
        ) by {
            assert(pre[m] == links[m]);
            assert(pre.take(m) =~= links.take(m));
        }
        assert forall|m: int| 0 <= m < pre.len() implies (#[trigger] pre[m]).0 < n && pre[m].1
            < n by {
            assert(pre[m] == links[m]);
        }
        let before = lemma_sets(pre, n);
        let (a, b) = links[k];
        assert(links[k].0 < n && links[k].1 < n);
        lemma_sets_match(pre, before, a as int, b as int);
        let (ra, rb) = (before[a as int], before[b as int]);
        let roots = joined(before, ra, rb, rb);
        lemma_sets_joined(pre, before, a, b, rb);
        assert(pre.push((a, b)) =~= links);
        assert(before[ra] == ra && before[rb] == rb);
        assert(tops(roots) =~= tops(before).remove(ra));
        assert(tops(before).contains(ra));
        assert forall|i: int| 0 <= i < n implies 0 <= #[trigger] roots[i] < n && roots[roots[i]]
            == roots[i] by {
            assert(0 <= before[i] < n && before[before[i]] == before[i]);
        }
        roots
    }
}

/// What one set of links joins, another joins, if it joins the ends of each.
proof fn lemma_joins(few: Seq<Link>, more: Seq<Link>, path: Seq<int>, k: int)
    requires
        is_chain(few, path),
        0 <= k < path.len(),
        forall|m: int|
            0 <= m < few.len() ==> linked(more, (#[trigger] few[m]).0 as int, few[m].1 as int),
    ensures
        linked(more, path[0], path[k]),
    decreases k,
{
    if k == 0 {
        lemma_linked_self(more, path[0]);
    } else {
        lemma_joins(few, more, path, k - 1);
        let (u, v) = (path[k - 1], path[k - 1 + 1]);
        assert(has_link(few, u, v));
        let m = choose|m: int|
            0 <= m < few.len() && (((#[trigger] few[m]).0 == u && few[m].1 == v) || (few[m].0 == v
                && few[m].1 == u));
        assert(linked(more, few[m].0 as int, few[m].1 as int));
        if few[m].0 != u {
            lemma_linked_sym(more, v, u);
        }
        lemma_linked_trans(more, path[0], u, v);
    }
}

/// Links without a ring are no more than others without a ring that join all
/// their ends.
proof fn lemma_no_more(few: Seq<Link>, more: Seq<Link>, n: int)
    requires
        0 <= n,
        closes_no_ring(few),
        closes_no_ring(more),
        in_bounds(few, n),
        in_bounds(more, n),
        forall|m: int|
            0 <= m < few.len() ==> linked(more, (#[trigger] few[m]).0 as int, few[m].1 as int),
    ensures
        few.len() <= more.len(),
{
    let (rf, rg) = (lemma_sets(few, n), lemma_sets(more, n));
    let f = |i: int| rg[i];
    let image = tops(rf).map(f);
    vstd::set_lib::lemma_map_size_bound(tops(rf), image, f);
    assert forall|g: int| tops(rg).contains(g) implies image.contains(g) by {
        let t = rf[g];
        assert(0 <= rf[g] < n && rf[rf[g]] == rf[g]);
        assert(rf[t] == rf[g]);
        assert(linked(few, t, g));
        let path = choose|path: Seq<int>| #[trigger]
            is_chain(few, path) && path[0] == t && path.last() == g;
        lemma_joins(few, more, path, path.len() - 1);
        lemma_sets_match(more, rg, t, g);
        assert(tops(rf).contains(t) && g == f(t));
    }
    vstd::set_lib::lemma_len_subset(tops(rg), image);
}

/// The links chosen among the first `k` edges close no ring.
proof fn lemma_chosen_rings(es: Seq<Edge>, k: int)
    requires
        0 <= k <= es.len(),
    ensures
        closes_no_ring(chosen(es, k)),
{
    let links = chosen(es, k);
    assert forall|m: int| 0 <= m < links.len() implies !linked(
        links.take(m),
        (#[trigger] links[m]).0 as int,
        links[m].1 as int,
    ) by {
        lemma_links_close_no_ring(es, k, m);
    }
}

/// Among the first `k` edges, the tree takes at least as many as the first `j`
/// picks, and is ahead of them by at least as many inliers as the weakest of
/// those edges has for each one it took more.
proof fn lemma_ahead(g: &MatchGraph, es: Seq<Edge>, picks: Seq<int>, k: int, j: int)
    requires
        strongest_first(g, es),
        0 <= k <= es.len(),
        0 <= j <= picks.len(),
        forall|i: int| 0 <= i < picks.len() ==> 0 <= #[trigger] picks[i] < es.len(),
        forall|a: int, b: int|
            0 <= a < b < picks.len() ==> #[trigger] picks[a] < #[trigger] picks[b],
        closes_no_ring(picked(es, picks)),
        forall|i: int| 0 <= i < j ==> #[trigger] picks[i] < k,
        j < picks.len() ==> picks[j] >= k,
    ensures
        chosen(es, k).len() >= j,
        tree_weight(es, k) - picked_weight(es, picks, j) >= if k > 0 {
            (chosen(es, k).len() - j) * es[k - 1].2
        } else {
            0
        },
    decreases k,
{
    let all = picked(es, picks);
    let few = all.take(j);
    let more = chosen(es, k);
    // As many.
    lemma_chosen_rings(es, k);
    assert forall|m: int| 0 <= m < few.len() implies !linked(
        few.take(m),
        (#[trigger] few[m]).0 as int,
        few[m].1 as int,
    ) by {
        assert(few[m] == all[m]);
        assert(few.take(m) =~= all.take(m));
    }
    assert forall|m: int| 0 <= m < few.len() implies linked(
        more,
        (#[trigger] few[m]).0 as int,
        few[m].1 as int,
    ) by {
        let x = picks[m];
        lemma_linked_by_strongest(es, x);
        lemma_chosen_prefix(es, x + 1, k);
        lemma_linked_more(chosen(es, x + 1), more, es[x].0 as int, es[x].1 as int);
    }
    assert forall|m: int| 0 <= m < few.len() implies (#[trigger] few[m]).0 < g.n && few[m].1
        < g.n by {
        assert(is_edge(g, es[picks[m]]));
    }
    assert forall|m: int| 0 <= m < more.len() implies (#[trigger] more[m]).0 < g.n && more[m].1
        < g.n by {
        lemma_links_close_no_ring(es, k, m);
        let x = choose|x: int| 0 <= x < k && more[m] == ((#[trigger] es[x]).0, es[x].1);
        assert(is_edge(g, es[x]));
    }
    lemma_no_more(few, more, g.n as int);
    // As heavy.
    if k > 0 {
        let w = es[k - 1].2 as int;
        let taken = j > 0 && picks[j - 1] == k - 1;
        let j0 = if taken {
            j - 1
        } else {
            j
        };
        assert forall|i: int| 0 <= i < j0 implies #[trigger] picks[i] < k - 1 by {
            if taken {
                assert(picks[i] < picks[j - 1]);
            } else if i < j - 1 {
                assert(picks[i] < picks[j - 1]);
            }
        }
        lemma_ahead(g, es, picks, k - 1, j0);
        let c0 = chosen(es, k - 1).len() - j0;
        if k > 1 {
            assert(stronger(es[k - 2], es[k - 1]));
            let w0 = es[k - 2].2 as int;
            assert(c0 * w0 >= c0 * w) by (nonlinear_arith)
                requires
                    c0 >= 0,
                    w0 >= w,
            ;
        } else {
            assert(c0 == 0);
            assert(c0 * w == 0) by (nonlinear_arith)
                requires
                    c0 == 0,
            ;
        }
        let c = more.len() - j;
        assert(c == c0 + (if more.len() > chosen(es, k - 1).len() { 1int } else { 0 }) - (if taken {
            1int
        } else {
            0
        }));
        assert((c0 + 1) * w == c0 * w + w && (c0 - 1) * w == c0 * w - w) by (nonlinear_arith);
        assert(c * w == c0 * w + (if more.len() > chosen(es, k - 1).len() { w } else { 0 }) - (
        if taken { w } else { 0 }));
    }
}

/// No edges without a ring have more inliers together than the tree: `picks`
/// names any of them, in order.
pub proof fn lemma_tree_is_heaviest(g: &MatchGraph, es: Seq<Edge>, picks: Seq<int>)
    requires
        strongest_first(g, es),
        forall|i: int| 0 <= i < picks.len() ==> 0 <= #[trigger] picks[i] < es.len(),
        forall|a: int, b: int|
            0 <= a < b < picks.len() ==> #[trigger] picks[a] < #[trigger] picks[b],
        closes_no_ring(picked(es, picks)),
    ensures
        picked_weight(es, picks, picks.len() as int) <= tree_weight(es, es.len() as int),
{
    let (k, j) = (es.len() as int, picks.len() as int);
    lemma_ahead(g, es, picks, k, j);
    if k > 0 {
        let (c, w) = (chosen(es, k).len() - j, es[k - 1].2 as int);
        assert(c * w >= 0) by (nonlinear_arith)
            requires
                c >= 0,
                w >= 0,
        ;
    }
}

/// Inliers of the pairs that `links` name.
pub open spec fn inliers_along(g: &MatchGraph, links: Seq<Link>, k: int) -> int
    decreases k,
{
    if k <= 0 {
        0
    } else {
        inliers_along(g, links, k - 1) + g.entries@[links[k - 1].0 * g.n
            + links[k - 1].1].num_inliers
    }
}

proof fn lemma_picked_inliers(g: &MatchGraph, es: Seq<Edge>, picks: Seq<int>, k: int)
    requires
        strongest_first(g, es),
        0 <= k <= picks.len(),
        forall|i: int| 0 <= i < picks.len() ==> 0 <= #[trigger] picks[i] < es.len(),
    ensures
        inliers_along(g, picked(es, picks), k) == picked_weight(es, picks, k),
    decreases k,
{
    if k > 0 {
        lemma_picked_inliers(g, es, picks, k - 1);
        assert(is_edge(g, es[picks[k - 1]]));
    }
}

proof fn lemma_along_start(g: &MatchGraph, few: Seq<Link>, one: Link, k: int)
    requires
        0 <= k <= few.len(),
    ensures
        inliers_along(g, few.push(one), k) == inliers_along(g, few, k),
    decreases k,
{
    if k > 0 {
        lemma_along_start(g, few, one, k - 1);
    }
}

proof fn lemma_tree_inliers(g: &MatchGraph, es: Seq<Edge>, k: int)
    requires
        strongest_first(g, es),
        0 <= k <= es.len(),
    ensures
        inliers_along(g, chosen(es, k), chosen(es, k).len() as int) == tree_weight(es, k),
    decreases k,
{
    if k > 0 {
        lemma_tree_inliers(g, es, k - 1);
        let before = chosen(es, k - 1);
        let one = (es[k - 1].0, es[k - 1].1);
        assert(is_edge(g, es[k - 1]));
        lemma_along_start(g, before, one, before.len() as int);
    }
}

/// The tree has the most inliers: no pairs with a homography that close no
/// ring have more together.
pub proof fn lemma_tree_has_most_inliers(g: &MatchGraph, es: Seq<Edge>, picks: Seq<int>)
    requires
        strongest_first(g, es),
        forall|i: int| 0 <= i < picks.len() ==> 0 <= #[trigger] picks[i] < es.len(),
        forall|a: int, b: int|
            0 <= a < b < picks.len() ==> #[trigger] picks[a] < #[trigger] picks[b],
        closes_no_ring(picked(es, picks)),
    ensures
        inliers_along(g, picked(es, picks), picks.len() as int) <= inliers_along(
            g,
            chosen(es, es.len() as int),
            chosen(es, es.len() as int).len() as int,
        ),
        forall|i: int, j: int|
            0 <= i < g.n && 0 <= j < g.n && g.entries@[i * g.n + j].has_h ==> #[trigger] has_edge(
                es,
                i,
                j,
            ),
{
    lemma_tree_is_heaviest(g, es, picks);
    lemma_picked_inliers(g, es, picks, picks.len() as int);
    lemma_tree_inliers(g, es, es.len() as int);
    assert forall|i: int, j: int|
        0 <= i < g.n && 0 <= j < g.n && g.entries@[i * g.n + j].has_h implies #[trigger] has_edge(
        es,
        i,
        j,
    ) by {
        assert(g.pair(i, j).has_h);
    }
}

} // verus!
