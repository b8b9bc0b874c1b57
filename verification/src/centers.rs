//! The middle of a spanning tree: where all images hang together, it is one
//! image or two.

use crate::estimation::MatchGraph;
use crate::spanning::all_links;
use crate::spanning::chosen;
use crate::spanning::farthest_leaf;
use crate::spanning::has_link;
use crate::spanning::is_chain;
use crate::spanning::is_edge;
use crate::spanning::is_grown_from;
use crate::spanning::lemma_linked_more;
use crate::spanning::lemma_linked_self;
use crate::spanning::lemma_linked_trans;
use crate::spanning::lemma_links_close_no_ring;
use crate::spanning::lemma_tree_spans;
use crate::spanning::linked;
use crate::spanning::neighbours;
use crate::spanning::Edge;
use crate::spanning::Link;
use crate::tree::adjacent;
use crate::tree::distance;
use crate::tree::is_distance;
use crate::tree::is_route;
use crate::tree::lists;
use crate::tree::reaches;
use crate::tree::SpanningTree;
use vstd::prelude::*;

verus! {

spec fn touches(l: Link, v: int) -> bool {
    l.0 == v || l.1 == v
}

/// The other end of a link.
spec fn other(l: Link, v: int) -> int {
    if l.0 == v {
        l.1 as int
    } else {
        l.0 as int
    }
}

/// Steps from `x` to `y` over the first `k` links, negative if they lead
/// nowhere. Each link joins two parts that were apart before.
spec fn span(links: Seq<Link>, k: int, x: int, y: int) -> int
    decreases k,
{
    if k <= 0 {
        if x == y {
            0
        } else {
            -1
        }
    } else {
        let (a, b) = (links[k - 1].0 as int, links[k - 1].1 as int);
        let s = span(links, k - 1, x, y);
        if s >= 0 {
            s
        } else if span(links, k - 1, x, a) >= 0 && span(links, k - 1, b, y) >= 0 {
            span(links, k - 1, x, a) + 1 + span(links, k - 1, b, y)
        } else if span(links, k - 1, x, b) >= 0 && span(links, k - 1, a, y) >= 0 {
            span(links, k - 1, x, b) + 1 + span(links, k - 1, a, y)
        } else {
            -1
        }
    }
}

/// No link joins what the links before it join.
spec fn is_forest(links: Seq<Link>) -> bool {
    forall|m: int|
        0 <= m < links.len() ==> span(
            links,
            m,
            (#[trigger] links[m]).0 as int,
            links[m].1 as int,
        ) < 0
}

/// Spans are symmetric, and what they join hangs together.
#[verifier::spinoff_prover]
proof fn lemma_span(links: Seq<Link>, k: int)
    requires
        is_forest(links),
        0 <= k <= links.len(),
    ensures
        forall|x: int| #[trigger] span(links, k, x, x) == 0,
        forall|x: int, y: int| #[trigger] span(links, k, x, y) == 0 ==> x == y,
        forall|x: int, y: int| #[trigger] span(links, k, x, y) == span(links, k, y, x),
        forall|x: int, y: int, z: int|
            #![trigger span(links, k, x, y), span(links, k, y, z)]
            span(links, k, x, y) >= 0 && span(links, k, y, z) >= 0 ==> span(links, k, x, z) >= 0,
    decreases k,
{
    if k > 0 {
        lemma_span(links, k - 1);
        let (a, b) = (links[k - 1].0 as int, links[k - 1].1 as int);
        assert(span(links, k - 1, links[k - 1].0 as int, links[k - 1].1 as int) < 0);
        assert forall|x: int, y: int| #[trigger] span(links, k, x, y) == span(links, k, y, x) by {
            assert(span(links, k - 1, a, y) == span(links, k - 1, y, a));
            assert(span(links, k - 1, b, y) == span(links, k - 1, y, b));
            assert(span(links, k - 1, a, x) == span(links, k - 1, x, a));
            assert(span(links, k - 1, b, x) == span(links, k - 1, x, b));
        }
        assert forall|x: int, y: int| #[trigger] span(links, k, x, y) == 0 implies x == y by {
            assert(span(links, k - 1, x, y) == 0);
        }
        assert forall|x: int| #[trigger] span(links, k, x, x) == 0 by {
            assert(span(links, k - 1, x, x) == 0);
        }
        assert forall|x: int, y: int, z: int|
            #![trigger span(links, k, x, y), span(links, k, y, z)]
            span(links, k, x, y) >= 0 && span(links, k, y, z) >= 0 implies span(links, k, x, z)
            >= 0 by {
            lemma_joined(links, k, x, y);
            lemma_joined(links, k, y, z);
            lemma_joined(links, k, x, z);
        }
    }
}

/// What the last link adds: it joins what hangs at its ends.
proof fn lemma_joined(links: Seq<Link>, k: int, x: int, y: int)
    requires
        0 < k <= links.len(),
    ensures
        span(links, k, x, y) >= 0 <==> ({
            let (a, b) = (links[k - 1].0 as int, links[k - 1].1 as int);
            ||| span(links, k - 1, x, y) >= 0
            ||| span(links, k - 1, x, a) >= 0 && span(links, k - 1, b, y) >= 0
            ||| span(links, k - 1, x, b) >= 0 && span(links, k - 1, a, y) >= 0
        }),
{
}

/// A link is one step long.
proof fn lemma_span_link(links: Seq<Link>, k: int, j: int)
    requires
        is_forest(links),
        0 <= j < k <= links.len(),
    ensures
        span(links, k, links[j].0 as int, links[j].1 as int) == 1,
        span(links, k, links[j].1 as int, links[j].0 as int) == 1,
    decreases k,
{
    lemma_span(links, k - 1);
    lemma_span(links, k);
    if j < k - 1 {
        lemma_span_link(links, k - 1, j);
    } else {
        let (a, b) = (links[j].0 as int, links[j].1 as int);
        assert(span(links, j, links[j].0 as int, links[j].1 as int) < 0);
        assert(span(links, k - 1, a, a) == 0 && span(links, k - 1, b, b) == 0);
    }
}

/// Seen from `l`, exactly one link of `m` leads nearer, unless `m` is `l`; all
/// others lead one step further.
spec fn parted(links: Seq<Link>, k: int, l: int, m: int, j: int) -> bool {
    let s = span(links, k, l, m);
    &&& s == 0 ==> j == -1
    &&& s > 0 ==> 0 <= j < k && touches(links[j], m) && span(links, k, l, other(links[j], m)) == s
        - 1
    &&& forall|i: int|
        0 <= i < k && i != j && touches(#[trigger] links[i], m) ==> span(
            links,
            k,
            l,
            other(links[i], m),
        ) == s + 1
}

#[verifier::spinoff_prover]
#[verifier::rlimit(60)]
proof fn lemma_parted(links: Seq<Link>, k: int, l: int, m: int) -> (j: int)
    requires
        is_forest(links),
        0 <= k <= links.len(),
        span(links, k, l, m) >= 0,
    ensures
        parted(links, k, l, m, j),
    decreases k,
{
    if k <= 0 {
        -1
    } else {
        lemma_span(links, k - 1);
        lemma_span(links, k);
        let (a, b) = (links[k - 1].0 as int, links[k - 1].1 as int);
        assert(span(links, k - 1, links[k - 1].0 as int, links[k - 1].1 as int) < 0);
        assert(span(links, k - 1, a, a) == 0 && span(links, k - 1, b, b) == 0);
        let s = span(links, k, l, m);
        if span(links, k - 1, l, m) >= 0 {
            let j = lemma_parted(links, k - 1, l, m);
            assert forall|i: int| 0 <= i < k && i != j && touches(#[trigger] links[i], m) implies span(
                links,
                k,
                l,
                other(links[i], m),
            ) == s + 1 by {
                if i < k - 1 {
                    lemma_span_link(links, k - 1, i);
                    assert(span(links, k - 1, l, other(links[i], m)) == s + 1);
                } else if m == a {
                    assert(span(links, k - 1, l, a) >= 0);
                    assert(span(links, k - 1, a, l) >= 0);
                    assert(span(links, k - 1, l, b) < 0);
                } else {
                    assert(span(links, k - 1, l, b) >= 0);
                    assert(span(links, k - 1, b, l) >= 0);
                    assert(span(links, k - 1, l, a) < 0);
                }
            }
            j
        } else {
            // `l` and `m` lie on either side of the last link.
            let (near, far) = if span(links, k - 1, l, a) >= 0 && span(links, k - 1, b, m) >= 0 {
                (a, b)
            } else {
                (b, a)
            };
            assert(span(links, k - 1, l, near) >= 0 && span(links, k - 1, far, m) >= 0);
            assert(s == span(links, k - 1, l, near) + 1 + span(links, k - 1, far, m));
            assert(span(links, k - 1, l, far) < 0) by {
                if span(links, k - 1, l, far) >= 0 {
                    assert(span(links, k - 1, far, l) >= 0);
                    assert(span(links, k - 1, far, near) >= 0);
                }
            }
            let j0 = lemma_parted(links, k - 1, far, m);
            assert forall|i: int| 0 <= i < k - 1 && touches(#[trigger] links[i], m) implies span(
                links,
                k,
                l,
                other(links[i], m),
            ) == span(links, k - 1, l, near) + 1 + span(links, k - 1, far, other(links[i], m))
                && span(links, k - 1, far, other(links[i], m)) >= 0 by {
                lemma_span_link(links, k - 1, i);
                let u = other(links[i], m);
                assert(span(links, k - 1, m, u) == 1 && span(links, k - 1, u, m) == 1);
                assert(span(links, k - 1, far, u) >= 0);
                assert(span(links, k - 1, l, u) < 0) by {
                    if span(links, k - 1, l, u) >= 0 {
                        assert(span(links, k - 1, l, m) >= 0);
                    }
                }
                if near == b {
                    assert(!(span(links, k - 1, l, a) >= 0 && span(links, k - 1, b, u) >= 0));
                }
            }
            if m == far {
                let j = k - 1;
                assert(touches(links[j], m) && other(links[j], m) == near);
                j
            } else {
                assert(m != near);
                assert forall|i: int| 0 <= i < k && i != j0 && touches(#[trigger] links[i], m) implies span(
                    links,
                    k,
                    l,
                    other(links[i], m),
                ) == s + 1 by {
                    assert(i < k - 1);
                }
                j0
            }
        }
    }
}

/// Spans run over links.
proof fn lemma_span_linked(links: Seq<Link>, k: int, x: int, y: int)
    requires
        0 <= k <= links.len(),
        span(links, k, x, y) >= 0,
    ensures
        linked(links.take(k), x, y),
    decreases k,
{
    if k <= 0 {
        lemma_linked_self(links.take(k), x);
    } else {
        let (few, more) = (links.take(k - 1), links.take(k));
        assert(more.take(few.len() as int) =~= few);
        let (a, b) = (links[k - 1].0 as int, links[k - 1].1 as int);
        if span(links, k - 1, x, y) >= 0 {
            lemma_span_linked(links, k - 1, x, y);
            lemma_linked_more(few, more, x, y);
        } else {
            let (p, q) = if span(links, k - 1, x, a) >= 0 && span(links, k - 1, b, y) >= 0 {
                (a, b)
            } else {
                (b, a)
            };
            lemma_span_linked(links, k - 1, x, p);
            lemma_span_linked(links, k - 1, q, y);
            lemma_linked_more(few, more, x, p);
            lemma_linked_more(few, more, q, y);
            assert(more[k - 1] == links[k - 1]);
            assert(has_link(more, p, q));
            let step = seq![p, q];
            assert(is_chain(more, step));
            assert(step[0] == p && step.last() == q);
            assert(linked(more, p, q));
            lemma_linked_trans(more, x, p, q);
            lemma_linked_trans(more, x, q, y);
        }
    }
}

/// What the links join has a span.
proof fn lemma_linked_span(links: Seq<Link>, path: Seq<int>, i: int)
    requires
        is_forest(links),
        is_chain(links, path),
        0 <= i < path.len(),
    ensures
        span(links, links.len() as int, path[0], path[i]) >= 0,
    decreases i,
{
    let k = links.len() as int;
    lemma_span(links, k);
    if i > 0 {
        lemma_linked_span(links, path, i - 1);
        let (u, v) = (path[i - 1], path[i - 1 + 1]);
        assert(has_link(links, u, v));
        let m = choose|m: int|
            0 <= m < links.len() && (((#[trigger] links[m]).0 == u && links[m].1 == v) || (
            links[m].0 == v && links[m].1 == u));
        lemma_span_link(links, k, m);
        assert(span(links, k, u, v) == 1);
    }
}

/// The links chosen for a tree are a forest.
proof fn lemma_chosen_forest(es: Seq<Edge>)
    ensures
        is_forest(chosen(es, es.len() as int)),
{
    let links = chosen(es, es.len() as int);
    assert forall|m: int| 0 <= m < links.len() implies span(
        links,
        m,
        (#[trigger] links[m]).0 as int,
        links[m].1 as int,
    ) < 0 by {
        lemma_links_close_no_ring(es, es.len() as int, m);
        if span(links, m, links[m].0 as int, links[m].1 as int) >= 0 {
            lemma_span_linked(links, m, links[m].0 as int, links[m].1 as int);
        }
    }
}

/// The links of `v` are its neighbours.
proof fn lemma_neighbour_link(links: Seq<Link>, v: int, k: int, q: int) -> (j: int)
    requires
        0 <= k <= links.len(),
        0 <= q < neighbours(links, v, k).len(),
    ensures
        0 <= j < k,
        touches(links[j], v),
        other(links[j], v) == neighbours(links, v, k)[q],
    decreases k,
{
    let before = neighbours(links, v, k - 1);
    if k <= 0 {
        -1
    } else if q < before.len() {
        lemma_neighbour_link(links, v, k - 1, q)
    } else {
        k - 1
    }
}

proof fn lemma_link_neighbour(links: Seq<Link>, v: int, k: int, j: int) -> (q: int)
    requires
        0 <= j < k <= links.len(),
        touches(links[j], v),
    ensures
        0 <= q < neighbours(links, v, k).len(),
        neighbours(links, v, k)[q] == other(links[j], v),
    decreases k,
{
    if j < k - 1 {
        lemma_link_neighbour(links, v, k - 1, j)
    } else {
        neighbours(links, v, k).len() - 1
    }
}

/// A vertex with a single link is a leaf.
proof fn lemma_single_link(links: Seq<Link>, v: int, k: int, j: int)
    requires
        0 <= k <= links.len(),
        0 <= j < links.len(),
        touches(links[j], v),
        forall|i: int| 0 <= i < links.len() && i != j ==> !touches(#[trigger] links[i], v),
    ensures
        neighbours(links, v, k).len() == if j < k {
            1int
        } else {
            0int
        },
    decreases k,
{
    if k > 0 {
        lemma_single_link(links, v, k - 1, j);
        if k - 1 != j {
            assert(!touches(links[k - 1], v));
        }
    }
}

/// A tree over `n` vertices: its links are a forest, reach every vertex, and
/// make up the lists of neighbours.
spec fn is_tree(links: Seq<Link>, adj: Seq<Seq<usize>>) -> bool {
    let k = links.len() as int;
    &&& is_forest(links)
    &&& forall|m: int|
        0 <= m < links.len() ==> (#[trigger] links[m]).0 < adj.len() && links[m].1 < adj.len()
    &&& forall|v: int| 0 <= v < adj.len() ==> #[trigger] adj[v] == neighbours(links, v, k)
    &&& forall|x: int, y: int|
        0 <= x < adj.len() && 0 <= y < adj.len() ==> #[trigger] span(links, k, x, y) >= 0
}

/// No way is shorter than the span.
proof fn lemma_route_span(links: Seq<Link>, adj: Seq<Seq<usize>>, path: Seq<int>, i: int)
    requires
        is_tree(links, adj),
        is_route(adj, path),
        0 <= i < path.len(),
    ensures
        0 <= span(links, links.len() as int, path[0], path[i]) <= i,
    decreases i,
{
    let k = links.len() as int;
    lemma_span(links, k);
    if i > 0 {
        lemma_route_span(links, adj, path, i - 1);
        let (u, v) = (path[i - 1], path[i - 1 + 1]);
        assert(adjacent(adj, u, v));
        let q = choose|q: int| 0 <= q < adj[u].len() && #[trigger] adj[u][q] == v;
        let j = lemma_neighbour_link(links, u, k, q);
        let c = lemma_parted(links, k, path[0], u);
        assert(other(links[j], u) == v);
        assert(span(links, k, path[0], other(links[j], u)) <= span(links, k, path[0], u) + 1);
    }
}

/// The span can be walked.
proof fn lemma_span_reached(links: Seq<Link>, adj: Seq<Seq<usize>>, x: int, y: int)
    requires
        is_tree(links, adj),
        0 <= x < adj.len(),
        0 <= y < adj.len(),
    ensures
        reaches(adj, x, y, span(links, links.len() as int, x, y)),
    decreases span(links, links.len() as int, x, y),
{
    let k = links.len() as int;
    let s = span(links, k, x, y);
    lemma_span(links, k);
    if s == 0 {
        let path = seq![x];
        assert(is_route(adj, path));
        assert(path.last() == y);
    } else {
        let j = lemma_parted(links, k, x, y);
        let w = other(links[j], y);
        lemma_span_reached(links, adj, x, w);
        let path = choose|path: Seq<int>| #[trigger]
            is_route(adj, path) && path.len() == s && path[0] == x && path.last() == w;
        let whole = path.push(y);
        lemma_span_link(links, k, j);
        assert(touches(links[j], w) && other(links[j], w) == y);
        let q = lemma_link_neighbour(links, w, k, j);
        assert(adj[w][q] == y);
        assert forall|i: int| 0 <= i < whole.len() - 1 implies adjacent(
            adj,
            #[trigger] whole[i],
            whole[i + 1],
        ) by {
            if i < path.len() - 1 {
                assert(adjacent(adj, path[i], path[i + 1]));
            } else {
                assert(adjacent(adj, w, y));
            }
        }
        assert(is_route(adj, whole));
        assert(whole.len() == s + 1 && whole[0] == x && whole.last() == y);
    }
}

/// The span is the distance.
proof fn lemma_span_distance(links: Seq<Link>, adj: Seq<Seq<usize>>, x: int, y: int)
    requires
        is_tree(links, adj),
        0 <= x < adj.len(),
        0 <= y < adj.len(),
    ensures
        distance(adj, x, y) == span(links, links.len() as int, x, y),
{
    let s = span(links, links.len() as int, x, y);
    lemma_span_reached(links, adj, x, y);
    assert forall|e: int| #[trigger] reaches(adj, x, y, e) implies s <= e by {
        let path = choose|path: Seq<int>| #[trigger]
            is_route(adj, path) && path.len() == e + 1 && path[0] == x && path.last() == y;
        lemma_route_span(links, adj, path, e);
    }
    assert(is_distance(adj, x, y, s));
    let d = distance(adj, x, y);
    assert(is_distance(adj, x, y, d));
    assert(reaches(adj, x, y, d) && reaches(adj, x, y, s));
}

/// No leaf is farther than the farthest, and there is one that far.
proof fn lemma_farthest(adj: Seq<Seq<usize>>, v: int, k: int) -> (l: int)
    requires
        0 <= k <= adj.len(),
    ensures
        forall|i: int|
            0 <= i < k && (#[trigger] adj[i]).len() == 1 ==> distance(adj, i, v) <= farthest_leaf(
                adj,
                v,
                k,
            ),
        farthest_leaf(adj, v, k) >= 0,
        farthest_leaf(adj, v, k) > 0 ==> 0 <= l < k && adj[l].len() == 1 && distance(adj, l, v)
            == farthest_leaf(adj, v, k),
    decreases k,
{
    if k <= 0 {
        -1
    } else {
        let l = lemma_farthest(adj, v, k - 1);
        if adj[k - 1].len() == 1 && distance(adj, k - 1, v) > farthest_leaf(adj, v, k - 1) {
            k - 1
        } else {
            l
        }
    }
}

/// One of the first `k` vertices with the longest span from `m`.
proof fn lemma_remotest(links: Seq<Link>, m: int, k: int) -> (z: int)
    requires
        k >= 1,
    ensures
        0 <= z < k,
        forall|i: int|
            0 <= i < k ==> #[trigger] span(links, links.len() as int, m, i) <= span(
                links,
                links.len() as int,
                m,
                z,
            ),
    decreases k,
{
    if k == 1 {
        0
    } else {
        let z = lemma_remotest(links, m, k - 1);
        let l = links.len() as int;
        if span(links, l, m, k - 1) > span(links, l, m, z) {
            k - 1
        } else {
            z
        }
    }
}

/// Of two neighbours of a vertex, one is farther from the leaves than it is.
#[verifier::spinoff_prover]
proof fn lemma_hollow(links: Seq<Link>, adj: Seq<Seq<usize>>, m: int, i: int, j: int)
    requires
        is_tree(links, adj),
        0 <= m < adj.len(),
        0 <= i < links.len(),
        0 <= j < links.len(),
        i != j,
        touches(links[i], m),
        touches(links[j], m),
    ensures
        ({
            let n = adj.len() as int;
            let e = farthest_leaf(adj, m, n);
            e < farthest_leaf(adj, other(links[i], m), n) || e < farthest_leaf(
                adj,
                other(links[j], m),
                n,
            )
        }),
{
    let n = adj.len() as int;
    let k = links.len() as int;
    let (u, v) = (other(links[i], m), other(links[j], m));
    lemma_span(links, k);
    lemma_span_link(links, k, i);
    assert(span(links, k, m, u) == 1);
    // The vertex most remote from `m` is a leaf, so the leaves are away from `m`.
    let z = lemma_remotest(links, m, n);
    let c = lemma_parted(links, k, m, z);
    assert(span(links, k, m, z) >= 1);
    assert forall|x: int| 0 <= x < links.len() && x != c implies !touches(
        #[trigger] links[x],
        z,
    ) by {
        if touches(links[x], z) {
            let o = other(links[x], z);
            assert(0 <= o < n);
            assert(span(links, k, m, o) == span(links, k, m, z) + 1);
        }
    }
    lemma_single_link(links, z, k, c);
    assert(adj[z].len() == 1);
    let l = lemma_farthest(adj, m, n);
    lemma_span_distance(links, adj, z, m);
    assert(span(links, k, z, m) >= 1);
    assert(farthest_leaf(adj, m, n) >= 1);
    // From the farthest leaf, at least one of the two lies behind `m`.
    lemma_span_distance(links, adj, l, m);
    let near = lemma_parted(links, k, l, m);
    let w = if i != near {
        u
    } else {
        v
    };
    assert(span(links, k, l, w) == span(links, k, l, m) + 1);
    lemma_span_distance(links, adj, l, w);
    let far = lemma_farthest(adj, w, n);
}

/// Away from where the farthest leaf is nearest, it keeps moving off.
proof fn lemma_climb(links: Seq<Link>, adj: Seq<Seq<usize>>, goal: int, q: int, j: int)
    requires
        is_tree(links, adj),
        0 <= goal < adj.len(),
        0 <= q < adj.len(),
        0 <= j < links.len(),
        touches(links[j], q),
        span(links, links.len() as int, goal, other(links[j], q)) == span(
            links,
            links.len() as int,
            goal,
            q,
        ) - 1,
        farthest_leaf(adj, q, adj.len() as int) <= farthest_leaf(
            adj,
            other(links[j], q),
            adj.len() as int,
        ),
    ensures
        ({
            let p = other(links[j], q);
            let n = adj.len() as int;
            p == goal || farthest_leaf(adj, p, n) < farthest_leaf(adj, goal, n)
        }),
    decreases span(links, links.len() as int, goal, q),
{
    let k = links.len() as int;
    let p = other(links[j], q);
    lemma_span(links, k);
    lemma_span_link(links, k, j);
    assert(0 <= p < adj.len());
    assert(span(links, k, goal, p) >= 0);
    if p != goal {
        let i = lemma_parted(links, k, goal, p);
        assert(touches(links[j], p) && other(links[j], p) == q);
        assert(i != j);
        lemma_hollow(links, adj, p, i, j);
        lemma_climb(links, adj, goal, p, i);
    }
}

/// Two vertices that are nearest to their farthest leaves are neighbours.
proof fn lemma_middle_linked(links: Seq<Link>, adj: Seq<Seq<usize>>, a: int, b: int) -> (j: int)
    requires
        is_tree(links, adj),
        0 <= a < adj.len(),
        0 <= b < adj.len(),
        a != b,
        forall|w: int|
            0 <= w < adj.len() ==> farthest_leaf(adj, a, adj.len() as int)
                <= #[trigger] farthest_leaf(adj, w, adj.len() as int),
        farthest_leaf(adj, b, adj.len() as int) == farthest_leaf(adj, a, adj.len() as int),
    ensures
        0 <= j < links.len(),
        touches(links[j], a),
        other(links[j], a) == b,
{
    let k = links.len() as int;
    lemma_span(links, k);
    assert(span(links, k, b, a) >= 0);
    let j = lemma_parted(links, k, b, a);
    let p = other(links[j], a);
    assert(0 <= p < adj.len());
    lemma_climb(links, adj, b, a, j);
    j
}

/// Where the edges connect all images, the spanning tree has one center or
/// two.
pub proof fn lemma_few_centers(tree: &SpanningTree, g: &MatchGraph, es: Seq<Edge>)
    requires
        is_grown_from(tree, g, es),
        g.n >= 1,
        forall|a: int, b: int| 0 <= a < g.n && 0 <= b < g.n ==> #[trigger] linked(all_links(es), a, b),
    ensures
        1 <= tree.centers@.len() <= 2,
{
    let links = chosen(es, es.len() as int);
    let adj = lists(tree.adj@);
    let n = adj.len() as int;
    lemma_chosen_forest(es);
    assert(is_tree(links, adj)) by {
        assert forall|m: int| 0 <= m < links.len() implies (#[trigger] links[m]).0 < n && links[m].1
            < n by {
            lemma_links_close_no_ring(es, es.len() as int, m);
            let x = choose|x: int|
                0 <= x < es.len() && links[m] == ((#[trigger] es[x]).0, es[x].1);
            assert(is_edge(g, es[x]));
        }
        assert forall|x: int, y: int| 0 <= x < n && 0 <= y < n implies #[trigger] span(
            links,
            links.len() as int,
            x,
            y,
        ) >= 0 by {
            assert(linked(all_links(es), x, y));
            lemma_tree_spans(es, x, y);
            let path = choose|path: Seq<int>| #[trigger]
                is_chain(links, path) && path[0] == x && path.last() == y;
            lemma_linked_span(links, path, path.len() - 1);
        }
    }
    let cs = tree.centers@;
    if cs.len() >= 3 {
        let (a, b, c) = (cs[0], cs[1], cs[2]);
        assert(cs.contains(a) && cs.contains(b) && cs.contains(c));
        assert(a < b < c);
        assert(farthest_leaf(adj, a as int, n) == farthest_leaf(adj, b as int, n));
        assert(farthest_leaf(adj, a as int, n) == farthest_leaf(adj, c as int, n));
        let i = lemma_middle_linked(links, adj, a as int, b as int);
        let j = lemma_middle_linked(links, adj, a as int, c as int);
        lemma_hollow(links, adj, a as int, i, j);
    }
    let m = lemma_middle(adj, n);
    assert(cs.contains(m as usize));
}

/// One of the first `k` vertices whose farthest leaf is nearest.
proof fn lemma_middle(adj: Seq<Seq<usize>>, k: int) -> (m: int)
    requires
        1 <= k <= adj.len(),
    ensures
        0 <= m < k,
        forall|w: int|
            0 <= w < k ==> farthest_leaf(adj, m, adj.len() as int) <= #[trigger] farthest_leaf(
                adj,
                w,
                adj.len() as int,
            ),
    decreases k,
{
    if k == 1 {
        0
    } else {
        let m = lemma_middle(adj, k - 1);
        let n = adj.len() as int;
        if farthest_leaf(adj, k - 1, n) < farthest_leaf(adj, m, n) {
            k - 1
        } else {
            m
        }
    }
}

} // verus!
