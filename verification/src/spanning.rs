//! Kruskal's maximum spanning tree of the match graph.

use crate::estimation::joined;
use crate::estimation::DisjointSets;
use crate::estimation::MatchGraph;
use crate::tree::distance;
use crate::tree::in_range;
use crate::tree::lists;
use crate::tree::SpanningTree;
use vstd::prelude::*;

verus! {

/// Two images and the number of inliers between them.
pub type Edge = (usize, usize, usize);

/// The images of `e` are matched, with as many inliers as it says.
pub open spec fn is_edge(g: &MatchGraph, e: Edge) -> bool {
    &&& e.0 < g.n
    &&& e.1 < g.n
    &&& g.pair(e.0 as int, e.1 as int).has_h
    &&& e.2 == g.pair(e.0 as int, e.1 as int).num_inliers
}

/// Pair (`i`, `j`) comes before (`a`, `b`) row by row.
pub open spec fn listed_before(i: int, j: int, a: int, b: int) -> bool {
    i < a || (i == a && j < b)
}

/// More inliers go first; among equals, the pair listed first.
pub open spec fn stronger(x: Edge, y: Edge) -> bool {
    x.2 > y.2 || (x.2 == y.2 && listed_before(x.0 as int, x.1 as int, y.0 as int, y.1 as int))
}

pub open spec fn has_edge(es: Seq<Edge>, i: int, j: int) -> bool {
    exists|x: int| 0 <= x < es.len() && (#[trigger] es[x]).0 == i && es[x].1 == j
}

/// All edges of the graph, the strongest first.
pub open spec fn strongest_first(g: &MatchGraph, es: Seq<Edge>) -> bool {
    &&& forall|x: int| 0 <= x < es.len() ==> is_edge(g, #[trigger] es[x])
    &&& forall|x: int, y: int|
        0 <= x < y < es.len() ==> stronger(#[trigger] es[x], #[trigger] es[y])
    &&& forall|i: int, j: int|
        0 <= i < g.n && 0 <= j < g.n && (#[trigger] g.pair(i, j)).has_h ==> has_edge(es, i, j)
}

/// The edges of the graph, sorted by descending number of inliers.
#[verifier::spinoff_prover]
#[verifier::rlimit(40)]
fn sorted_edges(graph: &MatchGraph) -> (es: Vec<Edge>)
    requires
        graph.wf(),
    ensures
        strongest_first(graph, es@),
{
    let n: usize = graph.n;
    let mut es: Vec<Edge> = Vec::new();
    let mut i: usize = 0;
    while i < n
        invariant
            n == graph.n,
            graph.wf(),
            i <= n,
            edges_until(graph, es@, i as int, 0),
        decreases n - i,
    {
        let mut j: usize = 0;
        while j < n
            invariant
                n == graph.n,
                graph.wf(),
                i < n,
                j <= n,
                edges_until(graph, es@, i as int, j as int),
            decreases n - j,
        {
            let m = graph.at(i, j);
            let w: usize = m.num_inliers;
            let ghost es0 = es@;
            if m.has_h {
                let mut p: usize = es.len();
                while p > 0 && es[p - 1].2 < w
                    invariant
                        p <= es@.len(),
                        es@ == es0,
                        forall|x: int| p <= x < es@.len() ==> (#[trigger] es@[x]).2 < w,
                    decreases p,
                {
                    p = p - 1;
                }
                es.insert(p, (i, j, w));
                proof {
                    lemma_inserted(graph, es0, es@, i as int, j as int, p as int, w);
                }
            } else {
                assert(edges_until(graph, es@, i as int, j + 1));
            }
            j = j + 1;
        }
        i = i + 1;
    }
    es
}

/// The edges listed before (`i`, `j`), the strongest first.
spec fn edges_until(g: &MatchGraph, es: Seq<Edge>, i: int, j: int) -> bool {
    &&& forall|x: int| 0 <= x < es.len() ==> is_edge(g, #[trigger] es[x])
    &&& forall|x: int|
        0 <= x < es.len() ==> listed_before(
            (#[trigger] es[x]).0 as int,
            es[x].1 as int,
            i,
            j,
        )
    &&& forall|x: int, y: int|
        0 <= x < y < es.len() ==> stronger(#[trigger] es[x], #[trigger] es[y])
    &&& forall|a: int, b: int|
        0 <= a < g.n && 0 <= b < g.n && listed_before(a, b, i, j) && (#[trigger] g.pair(
            a,
            b,
        )).has_h ==> has_edge(es, a, b)
}

#[verifier::spinoff_prover]
proof fn lemma_inserted(
    g: &MatchGraph,
    es0: Seq<Edge>,
    es: Seq<Edge>,
    i: int,
    j: int,
    p: int,
    w: usize,
)
    requires
        edges_until(g, es0, i, j),
        0 <= i < g.n,
        0 <= j < g.n,
        0 <= p <= es0.len(),
        es == es0.insert(p, (i as usize, j as usize, w)),
        is_edge(g, (i as usize, j as usize, w)),
        forall|x: int| p <= x < es0.len() ==> (#[trigger] es0[x]).2 < w,
        p > 0 ==> es0[p - 1].2 >= w,
    ensures
        edges_until(g, es, i, j + 1),
{
    let e = (i as usize, j as usize, w);
    assert(es[p] == e);
    assert forall|x: int| 0 <= x < es.len() implies es[x] == #[trigger] at_or(es0, e, p, x) by {}
    assert forall|x: int| 0 <= x < es.len() implies is_edge(g, #[trigger] es[x]) by {
        assert(es[x] == at_or(es0, e, p, x));
    }
    assert forall|x: int| 0 <= x < es.len() implies listed_before(
        (#[trigger] es[x]).0 as int,
        es[x].1 as int,
        i,
        j + 1,
    ) by {
        assert(es[x] == at_or(es0, e, p, x));
    }
    assert forall|x: int, y: int| 0 <= x < y < es.len() implies stronger(
        #[trigger] es[x],
        #[trigger] es[y],
    ) by {
        assert(es[x] == at_or(es0, e, p, x));
        assert(es[y] == at_or(es0, e, p, y));
        if y == p {
            if x < p - 1 {
                assert(stronger(es0[x], es0[p - 1]));
            }
        }
    }
    assert forall|a: int, b: int|
        0 <= a < g.n && 0 <= b < g.n && listed_before(a, b, i, j + 1) && (#[trigger] g.pair(
            a,
            b,
        )).has_h implies has_edge(es, a, b) by {
        if listed_before(a, b, i, j) {
            assert(has_edge(es0, a, b));
            let x = choose|x: int| 0 <= x < es0.len() && (#[trigger] es0[x]).0 == a && es0[x].1 == b;
            if x < p {
                assert(es[x] == es0[x]);
            } else {
                assert(es[x + 1] == es0[x]);
            }
        } else {
            assert(es[p].0 == a);
        }
    }
}

spec fn at_or(es: Seq<Edge>, e: Edge, p: int, x: int) -> Edge {
    if x < p {
        es[x]
    } else if x == p {
        e
    } else {
        es[x - 1]
    }
}

/// Images joined directly.
pub type Link = (usize, usize);

pub open spec fn has_link(links: Seq<Link>, a: int, b: int) -> bool {
    exists|m: int|
        0 <= m < links.len() && (((#[trigger] links[m]).0 == a && links[m].1 == b) || (links[m].0
            == b && links[m].1 == a))
}

/// `path` runs over links.
pub open spec fn is_chain(links: Seq<Link>, path: Seq<int>) -> bool {
    &&& path.len() >= 1
    &&& forall|k: int|
        0 <= k < path.len() - 1 ==> has_link(links, #[trigger] path[k], path[k + 1])
}

/// The links lead from `a` to `b`.
pub open spec fn linked(links: Seq<Link>, a: int, b: int) -> bool {
    exists|path: Seq<int>| #[trigger] is_chain(links, path) && path[0] == a && path.last() == b
}

/// Kruskal's choice among the first `k` edges: each is taken unless its
/// images are linked already.
pub open spec fn chosen(es: Seq<Edge>, k: int) -> Seq<Link>
    decreases k,
{
    if k <= 0 {
        Seq::empty()
    } else {
        let before = chosen(es, k - 1);
        if linked(before, es[k - 1].0 as int, es[k - 1].1 as int) {
            before
        } else {
            before.push((es[k - 1].0, es[k - 1].1))
        }
    }
}

/// The neighbours of `v` over the first `k` links, in that order.
pub open spec fn neighbours(links: Seq<Link>, v: int, k: int) -> Seq<usize>
    decreases k,
{
    if k <= 0 {
        Seq::empty()
    } else {
        let before = neighbours(links, v, k - 1);
        if links[k - 1].0 == v {
            before.push(links[k - 1].1)
        } else if links[k - 1].1 == v {
            before.push(links[k - 1].0)
        } else {
            before
        }
    }
}

pub(crate) proof fn lemma_linked_self(links: Seq<Link>, a: int)
    ensures
        linked(links, a, a),
{
    let path = seq![a];
    assert(is_chain(links, path));
}

pub(crate) proof fn lemma_linked_sym(links: Seq<Link>, a: int, b: int)
    requires
        linked(links, a, b),
    ensures
        linked(links, b, a),
{
    let path = choose|path: Seq<int>| #[trigger]
        is_chain(links, path) && path[0] == a && path.last() == b;
    let back = path.reverse();
    assert forall|k: int| 0 <= k < back.len() - 1 implies has_link(
        links,
        #[trigger] back[k],
        back[k + 1],
    ) by {
        let q = path.len() - 2 - k;
        assert(has_link(links, path[q], path[q + 1]));
        assert(back[k] == path[q + 1]);
        assert(back[k + 1] == path[q]);
    }
    assert(is_chain(links, back));
}

pub(crate) proof fn lemma_linked_trans(links: Seq<Link>, a: int, b: int, c: int)
    requires
        linked(links, a, b),
        linked(links, b, c),
    ensures
        linked(links, a, c),
{
    let p = choose|path: Seq<int>| #[trigger]
        is_chain(links, path) && path[0] == a && path.last() == b;
    let q = choose|path: Seq<int>| #[trigger]
        is_chain(links, path) && path[0] == b && path.last() == c;
    let r = p + q.skip(1);
    assert forall|k: int| 0 <= k < r.len() - 1 implies has_link(
        links,
        #[trigger] r[k],
        r[k + 1],
    ) by {
        if k < p.len() - 1 {
            assert(has_link(links, p[k], p[k + 1]));
        } else {
            let m = k - (p.len() - 1);
            assert(has_link(links, q[m], q[m + 1]));
            if m > 0 {
                assert(r[k] == q[m]);
            }
        }
    }
    assert(is_chain(links, r));
    if q.len() > 1 {
        assert(r.last() == q.last());
    }
}

/// More links lead at least as far.
pub(crate) proof fn lemma_linked_more(links: Seq<Link>, more: Seq<Link>, a: int, b: int)
    requires
        links.len() <= more.len(),
        more.take(links.len() as int) == links,
        linked(links, a, b),
    ensures
        linked(more, a, b),
{
    let path = choose|path: Seq<int>| #[trigger]
        is_chain(links, path) && path[0] == a && path.last() == b;
    assert forall|k: int| 0 <= k < path.len() - 1 implies has_link(
        more,
        #[trigger] path[k],
        path[k + 1],
    ) by {
        assert(has_link(links, path[k], path[k + 1]));
        let m = choose|m: int|
            0 <= m < links.len() && (((#[trigger] links[m]).0 == path[k] && links[m].1 == path[k
                + 1]) || (links[m].0 == path[k + 1] && links[m].1 == path[k]));
        assert(more.take(links.len() as int)[m] == more[m]);
    }
    assert(is_chain(more, path));
}

/// Sets that agree on every link agree on all that is linked.
proof fn lemma_chain_roots(links: Seq<Link>, roots: Seq<int>, path: Seq<int>, k: int)
    requires
        is_chain(links, path),
        0 <= k < path.len(),
        0 <= path[0] < roots.len(),
        forall|m: int|
            0 <= m < links.len() ==> (#[trigger] links[m]).0 < roots.len() && links[m].1
                < roots.len() && roots[links[m].0 as int] == roots[links[m].1 as int],
    ensures
        0 <= path[k] < roots.len(),
        roots[path[k]] == roots[path[0]],
    decreases k,
{
    if k > 0 {
        lemma_chain_roots(links, roots, path, k - 1);
        assert(has_link(links, path[k - 1], path[k - 1 + 1]));
    }
}

/// The sets are exactly what the links connect.
pub open spec fn sets_match(links: Seq<Link>, roots: Seq<int>) -> bool {
    &&& forall|m: int|
        0 <= m < links.len() ==> (#[trigger] links[m]).0 < roots.len() && links[m].1
            < roots.len() && roots[links[m].0 as int] == roots[links[m].1 as int] && links[m].0
            != links[m].1
    &&& forall|a: int, b: int|
        0 <= a < roots.len() && 0 <= b < roots.len() && #[trigger] roots[a] == #[trigger] roots[b]
            ==> linked(links, a, b)
}

pub(crate) proof fn lemma_sets_match(links: Seq<Link>, roots: Seq<int>, a: int, b: int)
    requires
        sets_match(links, roots),
        0 <= a < roots.len(),
        0 <= b < roots.len(),
    ensures
        linked(links, a, b) <==> roots[a] == roots[b],
{
    if linked(links, a, b) {
        let path = choose|path: Seq<int>| #[trigger]
            is_chain(links, path) && path[0] == a && path.last() == b;
        lemma_chain_roots(links, roots, path, path.len() - 1);
    }
}

/// Joining the sets of two images keeps step with linking them.
pub(crate) proof fn lemma_sets_joined(links: Seq<Link>, roots: Seq<int>, a: usize, b: usize, r: int)
    requires
        sets_match(links, roots),
        a < roots.len(),
        b < roots.len(),
        roots[a as int] != roots[b as int],
        r == roots[a as int] || r == roots[b as int],
    ensures
        sets_match(
            links.push((a, b)),
            joined(roots, roots[a as int], roots[b as int], r),
        ),
{
    let more = links.push((a, b));
    let after = joined(roots, roots[a as int], roots[b as int], r);
    assert(more.take(links.len() as int) =~= links);
    assert(more[links.len() as int] == (a, b));
    assert(has_link(more, a as int, b as int));
    let step = seq![a as int, b as int];
    assert(is_chain(more, step));
    assert(linked(more, a as int, b as int));
    lemma_linked_sym(more, a as int, b as int);
    assert forall|m: int| 0 <= m < more.len() implies (#[trigger] more[m]).0 < after.len()
        && more[m].1 < after.len() && after[more[m].0 as int] == after[more[m].1 as int]
        && more[m].0 != more[m].1 by {
        if m < links.len() {
            assert(more[m] == links[m]);
        }
    }
    assert forall|x: int, y: int|
        0 <= x < after.len() && 0 <= y < after.len() && #[trigger] after[x]
            == #[trigger] after[y] implies linked(more, x, y) by {
        if roots[x] == roots[y] {
            assert(linked(links, x, y));
            lemma_linked_more(links, more, x, y);
        } else {
            let (ra, rb) = (roots[a as int], roots[b as int]);
            assert((roots[x] == ra || roots[x] == rb) && (roots[y] == ra || roots[y] == rb));
            let (p, q) = if roots[x] == ra {
                (a as int, b as int)
            } else {
                (b as int, a as int)
            };
            assert(roots[x] == roots[p]);
            assert(roots[q] == roots[y]);
            assert(linked(links, x, p));
            assert(linked(links, q, y));
            lemma_linked_more(links, more, x, p);
            lemma_linked_more(links, more, q, y);
            lemma_linked_trans(more, x, p, q);
            lemma_linked_trans(more, x, q, y);
        }
    }
}

/// The farthest of the leaves among the first `k` vertices from `v`.
pub open spec fn farthest_leaf(adj: Seq<Seq<usize>>, v: int, k: int) -> int
    decreases k,
{
    if k <= 0 {
        0
    } else {
        let rest = farthest_leaf(adj, v, k - 1);
        let d = distance(adj, k - 1, v);
        if adj[k - 1].len() == 1 && d > rest {
            d
        } else {
            rest
        }
    }
}

/// `centers` are the vertices whose farthest leaf is nearest, in ascending
/// order.
pub open spec fn are_centers(adj: Seq<Seq<usize>>, centers: Seq<usize>) -> bool {
    let n = adj.len() as int;
    &&& forall|a: int, b: int|
        0 <= a < b < centers.len() ==> #[trigger] centers[a] < #[trigger] centers[b]
    &&& forall|v: usize|
        #![trigger centers.contains(v)]
        centers.contains(v) <==> v < n && forall|w: int|
            0 <= w < n ==> farthest_leaf(adj, v as int, n) <= #[trigger] farthest_leaf(adj, w, n)
}

/// `tree` is the spanning tree that Kruskal's algorithm grows from the edges
/// of `g`, the strongest first.
pub open spec fn is_grown_from(tree: &SpanningTree, g: &MatchGraph, es: Seq<Edge>) -> bool {
    let links = chosen(es, es.len() as int);
    let adj = lists(tree.adj@);
    &&& strongest_first(g, es)
    &&& adj.len() == g.n
    &&& forall|v: int|
        0 <= v < g.n ==> #[trigger] adj[v] == neighbours(links, v, links.len() as int)
    &&& are_centers(adj, tree.centers@)
}

/// Maximum spanning tree over the matched pairs, weighed by their inliers.
/// Equally strong pairs are taken in the order in which they are listed.
#[verifier::spinoff_prover]
#[verifier::rlimit(60)]
pub fn find_max_spanning_tree(graph: &MatchGraph) -> (tree: SpanningTree)
    requires
        graph.wf(),
        graph.n >= 1,
    ensures
        in_range(lists(tree.adj@)),
        tree.centers@.len() >= 1,
        exists|es: Seq<Edge>| #[trigger] is_grown_from(&tree, graph, es),
{
    let n: usize = graph.n;
    let es = sorted_edges(graph);
    let mut comps = DisjointSets::new(n);
    let mut adj: Vec<Vec<usize>> = Vec::new();
    while adj.len() < n
        invariant
            adj@.len() <= n,
            forall|v: int| 0 <= v < adj@.len() ==> (#[trigger] adj@[v])@ == Seq::<usize>::empty(),
        decreases n - adj@.len(),
    {
        adj.push(Vec::new());
    }
    let mut k: usize = 0;
    let ghost mut links: Seq<Link> = Seq::empty();
    proof {
        assert forall|a: int, b: int|
            0 <= a < comps@.len() && 0 <= b < comps@.len() && #[trigger] comps@[a]
                == #[trigger] comps@[b] implies linked(links, a, b) by {
            lemma_linked_self(links, a);
        }
    }
    while k < es.len()
        invariant
            n == graph.n,
            k <= es@.len(),
            strongest_first(graph, es@),
            comps.wf(),
            comps@.len() == n,
            links == chosen(es@, k as int),
            sets_match(links, comps@),
            adj@.len() == n,
            forall|v: int|
                0 <= v < n ==> (#[trigger] adj@[v])@ == neighbours(links, v, links.len() as int),
        decreases es@.len() - k,
    {
        let (from, to, w) = es[k];
        proof {
            assert(is_edge(graph, es@[k as int]));
        }
        let c1: usize = comps.find_set_by_elem(from);
        let c2: usize = comps.find_set_by_elem(to);
        proof {
            lemma_sets_match(links, comps@, from as int, to as int);
        }
        if c1 != c2 {
            let ghost roots = comps@;
            let ghost adj0 = adj@;
            proof {
                comps.lemma_sizes(from as int);
                comps.lemma_sizes(to as int);
            }
            let c: usize = comps.merge_sets(c1, c2);
            adj[from].push(to);
            adj[to].push(from);
            proof {
                lemma_sets_joined(links, roots, from, to, c as int);
                let more = links.push((from, to));
                assert forall|v: int| 0 <= v < n implies (#[trigger] adj@[v])@ == neighbours(
                    more,
                    v,
                    more.len() as int,
                ) by {
                    lemma_neighbours_prefix(links, more, v, links.len() as int);
                    assert(adj0[v]@ == neighbours(links, v, links.len() as int));
                }
                links = more;
            }
        }
        k = k + 1;
    }
    let tree = SpanningTree { adj, centers: Vec::new() };
    proof {
        assert forall|i: int, q: int|
            0 <= i < n && 0 <= q < lists(tree.adj@)[i].len() implies #[trigger] lists(
            tree.adj@,
        )[i][q] < n by {
            lemma_neighbours_range(links, i, links.len() as int, n as int);
            assert(lists(tree.adj@)[i] == neighbours(links, i, links.len() as int));
        }
    }
    let centers = find_centers(&tree);
    let grown = SpanningTree { adj: tree.adj, centers };
    proof {
        assert(is_grown_from(&grown, graph, es@));
    }
    grown
}

proof fn lemma_neighbours_prefix(links: Seq<Link>, more: Seq<Link>, v: int, k: int)
    requires
        0 <= k <= links.len() <= more.len(),
        forall|m: int| 0 <= m < links.len() ==> more[m] == #[trigger] links[m],
    ensures
        neighbours(more, v, k) == neighbours(links, v, k),
    decreases k,
{
    if k > 0 {
        lemma_neighbours_prefix(links, more, v, k - 1);
        assert(more[k - 1] == links[k - 1]);
    }
}

proof fn lemma_neighbours_range(links: Seq<Link>, v: int, k: int, n: int)
    requires
        0 <= k <= links.len(),
        forall|m: int| 0 <= m < links.len() ==> (#[trigger] links[m]).0 < n && links[m].1 < n,
    ensures
        forall|q: int|
            0 <= q < neighbours(links, v, k).len() ==> #[trigger] neighbours(links, v, k)[q] < n,
    decreases k,
{
    if k > 0 {
        lemma_neighbours_range(links, v, k - 1, n);
        let before = neighbours(links, v, k - 1);
        assert(links[k - 1].0 < n && links[k - 1].1 < n);
        assert forall|q: int| 0 <= q < neighbours(links, v, k).len() implies #[trigger] neighbours(
            links,
            v,
            k,
        )[q] < n by {
            if q < before.len() {
                assert(before[q] < n);
            }
        }
    }
}

/// The vertices whose farthest leaf is nearest.
fn find_centers(tree: &SpanningTree) -> (centers: Vec<usize>)
    requires
        in_range(lists(tree.adj@)),
        tree.adj@.len() >= 1,
    ensures
        are_centers(lists(tree.adj@), centers@),
        centers@.len() >= 1,
{
    let n: usize = tree.adj.len();
    let ghost adj = lists(tree.adj@);
    let mut max_dists: Vec<usize> = Vec::new();
    while max_dists.len() < n
        invariant
            max_dists@.len() <= n,
            forall|v: int| 0 <= v < max_dists@.len() ==> #[trigger] max_dists@[v] == 0,
        decreases n - max_dists@.len(),
    {
        max_dists.push(0);
    }
    let mut l: usize = 0;
    while l < n
        invariant
            n == tree.adj@.len(),
            l <= n,
            adj == lists(tree.adj@),
            in_range(adj),
            max_dists@.len() == n,
            forall|v: int|
                0 <= v < n ==> #[trigger] max_dists@[v] == farthest_leaf(adj, v, l as int),
        decreases n - l,
    {
        assert(adj[l as int] == tree.adj@[l as int]@);
        if tree.adj[l].len() == 1 {
            let dist = tree.distances(l);
            let mut j: usize = 0;
            while j < n
                invariant
                    n == tree.adj@.len(),
                    l < n,
                    j <= n,
                    adj == lists(tree.adj@),
                    adj[l as int].len() == 1,
                    max_dists@.len() == n,
                    dist@.len() == n,
                    forall|v: int|
                        0 <= v < n ==> #[trigger] dist@[v] == distance(adj, l as int, v),
                    forall|v: int|
                        0 <= v < n ==> #[trigger] max_dists@[v] == farthest_leaf(
                            adj,
                            v,
                            if v < j {
                                l + 1
                            } else {
                                l as int
                            },
                        ),
                decreases n - j,
            {
                if dist[j] > max_dists[j] {
                    max_dists[j] = dist[j];
                }
                j = j + 1;
            }
        }
        l = l + 1;
    }
    let mut min_max: usize = max_dists[0];
    let mut i: usize = 1;
    let ghost mut least: int = 0;
    while i < n
        invariant
            1 <= i <= n,
            max_dists@.len() == n,
            0 <= least < n,
            min_max == max_dists@[least],
            forall|v: int| 0 <= v < i ==> min_max <= #[trigger] max_dists@[v],
        decreases n - i,
    {
        if max_dists[i] < min_max {
            min_max = max_dists[i];
            proof {
                least = i as int;
            }
        }
        i = i + 1;
    }
    let mut centers: Vec<usize> = Vec::new();
    let mut c: usize = 0;
    while c < n
        invariant
            n == max_dists@.len(),
            c <= n,
            forall|a: int, b: int|
                0 <= a < b < centers@.len() ==> #[trigger] centers@[a] < #[trigger] centers@[b],
            forall|a: int|
                0 <= a < centers@.len() ==> #[trigger] centers@[a] < c
                    && max_dists@[centers@[a] as int] == min_max,
            forall|v: usize|
                v < c && #[trigger] max_dists@[v as int] == min_max ==> centers@.contains(v),
        decreases n - c,
    {
        let ghost c0 = centers@;
        if max_dists[c] == min_max {
            centers.push(c);
            proof {
                assert(centers@[c0.len() as int] == c);
                assert forall|v: usize|
                    v < c + 1 && #[trigger] max_dists@[v as int] == min_max implies centers@.contains(
                    v,
                ) by {
                    if v < c {
                        let z = c0.index_of(v);
                        assert(centers@[z] == v);
                    }
                }
            }
        }
        c = c + 1;
    }
    proof {
        assert(max_dists@[least as usize as int] == min_max);
        assert(centers@.contains(least as usize));
        assert forall|v: usize|
            #![trigger centers@.contains(v)]
            centers@.contains(v) <==> v < n && forall|w: int|
                0 <= w < n ==> farthest_leaf(adj, v as int, n as int) <= #[trigger] farthest_leaf(
                    adj,
                    w,
                    n as int,
                ) by {
            if v < n {
                assert(max_dists@[v as int] == farthest_leaf(adj, v as int, n as int));
            }
            if centers@.contains(v) {
                let z = centers@.index_of(v);
                assert(centers@[z] == v);
                assert forall|w: int| 0 <= w < n implies farthest_leaf(adj, v as int, n as int)
                    <= #[trigger] farthest_leaf(adj, w, n as int) by {
                    assert(max_dists@[w] == farthest_leaf(adj, w, n as int));
                }
            }
            if v < n && forall|w: int|
                0 <= w < n ==> farthest_leaf(adj, v as int, n as int) <= #[trigger] farthest_leaf(
                    adj,
                    w,
                    n as int,
                ) {
                assert(farthest_leaf(adj, least, n as int) == max_dists@[least]);
                assert(min_max <= max_dists@[v as int]);
            }
        }
    }
    centers
}

pub(crate) proof fn lemma_chosen_prefix(es: Seq<Edge>, j: int, k: int)
    requires
        0 <= j <= k <= es.len(),
    ensures
        chosen(es, j).len() <= chosen(es, k).len(),
        chosen(es, k).take(chosen(es, j).len() as int) == chosen(es, j),
    decreases k,
{
    let (a, b) = (chosen(es, j), chosen(es, k));
    if j < k {
        lemma_chosen_prefix(es, j, k - 1);
        let c = chosen(es, k - 1);
        assert(b.take(a.len() as int) =~= c.take(a.len() as int));
    } else {
        assert(b.take(a.len() as int) =~= a);
    }
}

/// Links that are chosen come from the edges, and close no ring: the images
/// of each are not linked by those chosen before it.
pub proof fn lemma_links_close_no_ring(es: Seq<Edge>, k: int, m: int)
    requires
        0 <= k <= es.len(),
        0 <= m < chosen(es, k).len(),
    ensures
        exists|x: int|
            0 <= x < k && chosen(es, k)[m] == ((#[trigger] es[x]).0, es[x].1),
        !linked(
            chosen(es, k).take(m),
            chosen(es, k)[m].0 as int,
            chosen(es, k)[m].1 as int,
        ),
    decreases k,
{
    let before = chosen(es, k - 1);
    let links = chosen(es, k);
    if m < before.len() {
        lemma_links_close_no_ring(es, k - 1, m);
        assert(links.take(m) =~= before.take(m));
        assert(links[m] == before[m]);
        let x = choose|x: int| 0 <= x < k - 1 && before[m] == ((#[trigger] es[x]).0, es[x].1);
        assert(links[m] == (es[x].0, es[x].1));
    } else {
        assert(links.take(m) =~= before);
        assert(links[m] == (es[k - 1].0, es[k - 1].1));
    }
}

/// The images of every edge are linked in the tree by links at least as
/// strong: those chosen once that edge has been considered, all of which come
/// from edges no later in the order.
pub proof fn lemma_linked_by_strongest(es: Seq<Edge>, x: int)
    requires
        0 <= x < es.len(),
    ensures
        linked(chosen(es, x + 1), es[x].0 as int, es[x].1 as int),
        chosen(es, es.len() as int).take(chosen(es, x + 1).len() as int) == chosen(es, x + 1),
        forall|m: int|
            0 <= m < chosen(es, x + 1).len() ==> exists|y: int|
                0 <= y <= x && #[trigger] chosen(es, x + 1)[m] == ((#[trigger] es[y]).0, es[y].1),
{
    lemma_chosen_prefix(es, x + 1, es.len() as int);
    let links = chosen(es, x + 1);
    let (a, b) = (es[x].0 as int, es[x].1 as int);
    if !linked(chosen(es, x), a, b) {
        let last = links.len() - 1;
        assert(links[last] == (es[x].0, es[x].1));
        assert(has_link(links, a, b));
        let step = seq![a, b];
        assert(is_chain(links, step));
    }
    assert forall|m: int| 0 <= m < links.len() implies exists|y: int|
        0 <= y <= x && #[trigger] links[m] == ((#[trigger] es[y]).0, es[y].1) by {
        lemma_links_close_no_ring(es, x + 1, m);
        let y = choose|y: int| 0 <= y < x + 1 && links[m] == ((#[trigger] es[y]).0, es[y].1);
        assert(links[m] == (es[y].0, es[y].1));
    }
}

/// The edges as links.
pub open spec fn all_links(es: Seq<Edge>) -> Seq<Link> {
    es.map_values(|e: Edge| (e.0, e.1))
}

/// The tree spans: whatever the edges connect, it connects.
pub proof fn lemma_tree_spans(es: Seq<Edge>, a: int, b: int)
    requires
        linked(all_links(es), a, b),
    ensures
        linked(chosen(es, es.len() as int), a, b),
{
    let path = choose|path: Seq<int>| #[trigger]
        is_chain(all_links(es), path) && path[0] == a && path.last() == b;
    lemma_tree_spans_to(es, path, path.len() - 1);
}

proof fn lemma_tree_spans_to(es: Seq<Edge>, path: Seq<int>, k: int)
    requires
        is_chain(all_links(es), path),
        0 <= k < path.len(),
    ensures
        linked(chosen(es, es.len() as int), path[0], path[k]),
    decreases k,
{
    let links = chosen(es, es.len() as int);
    if k == 0 {
        lemma_linked_self(links, path[0]);
    } else {
        lemma_tree_spans_to(es, path, k - 1);
        let (u, v) = (path[k - 1], path[k - 1 + 1]);
        assert(has_link(all_links(es), u, v));
        let all = all_links(es);
        let m = choose|m: int|
            0 <= m < all.len() && (((#[trigger] all[m]).0 == u && all[m].1 == v) || (all[m].0 == v
                && all[m].1 == u));
        lemma_linked_by_strongest(es, m);
        lemma_chosen_prefix(es, m + 1, es.len() as int);
        lemma_linked_more(chosen(es, m + 1), links, es[m].0 as int, es[m].1 as int);
        if all[m].0 != u {
            lemma_linked_sym(links, v, u);
        }
        lemma_linked_trans(links, path[0], u, v);
    }
}

/// How far the farthest leaf is: no leaf is farther, and one is that far,
/// unless there is none but at no distance.
pub proof fn lemma_farthest_leaf(adj: Seq<Seq<usize>>, v: int, k: int)
    requires
        0 <= k <= adj.len(),
    ensures
        forall|l: int|
            0 <= l < k && (#[trigger] adj[l]).len() == 1 ==> distance(adj, l, v) <= farthest_leaf(
                adj,
                v,
                k,
            ),
        farthest_leaf(adj, v, k) >= 0,
        farthest_leaf(adj, v, k) == 0 || exists|l: int|
            0 <= l < k && (#[trigger] adj[l]).len() == 1 && distance(adj, l, v) == farthest_leaf(
                adj,
                v,
                k,
            ),
    decreases k,
{
    if k > 0 {
        lemma_farthest_leaf(adj, v, k - 1);
        assert(adj[k - 1].len() == adj[k - 1].len());
    }
}

/// The links of an image in the tree, in both directions.
pub proof fn lemma_neighbours(links: Seq<Link>, v: int, k: int, u: usize)
    requires
        0 <= k <= links.len(),
        0 <= v <= usize::MAX,
        v != u,
    ensures
        neighbours(links, v, k).contains(u) <==> exists|m: int|
            0 <= m < k && (((#[trigger] links[m]).0 == v && links[m].1 == u) || (links[m].0 == u
                && links[m].1 == v)),
    decreases k,
{
    if k > 0 {
        lemma_neighbours(links, v, k - 1, u);
        let before = neighbours(links, v, k - 1);
        let after = neighbours(links, v, k);
        if before.contains(u) {
            let i = before.index_of(u);
            assert(after[i] == u);
        }
        if after.contains(u) {
            let i = after.index_of(u);
            if i < before.len() {
                assert(before[i] == u);
            } else {
                assert(links[k - 1].0 == v || links[k - 1].1 == v);
            }
        }
        if (links[k - 1].0 == v && links[k - 1].1 == u) || (links[k - 1].0 == u && links[k - 1].1
            == v) {
            assert(after[before.len() as int] == u);
        }
    }
}

} // verus!
