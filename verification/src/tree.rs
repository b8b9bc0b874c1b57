//! Spanning trees over images, walked breadth first.

use std::collections::VecDeque;
use vstd::prelude::*;

verus! {

/// Spanning tree over images: the neighbours of each, and the images in the
/// middle of the tree.
pub struct SpanningTree {
    pub adj: Vec<Vec<usize>>,
    pub centers: Vec<usize>,
}

/// Adjacency lists as mathematical values.
pub open spec fn lists(adj: Seq<Vec<usize>>) -> Seq<Seq<usize>> {
    adj.map_values(|v: Vec<usize>| v@)
}

/// Every neighbour is a vertex.
pub open spec fn in_range(adj: Seq<Seq<usize>>) -> bool {
    forall|i: int, q: int|
        0 <= i < adj.len() && 0 <= q < adj[i].len() ==> #[trigger] adj[i][q] < adj.len()
}

/// The vertices in the order in which a walk from `start` reaches them.
pub open spec fn visit_order(start: int, edges: Seq<(usize, usize)>) -> Seq<int> {
    seq![start] + edges.map_values(|e: (usize, usize)| e.1 as int)
}

/// Breadth-first order, with witnesses: edge `e` was found from the vertex
/// visited as number `par[e]`, at place `pos[e]` of its neighbours.
pub open spec fn walk_ok(
    adj: Seq<Seq<usize>>,
    start: int,
    edges: Seq<(usize, usize)>,
    par: Seq<int>,
    pos: Seq<int>,
) -> bool {
    let order = visit_order(start, edges);
    &&& par.len() == edges.len()
    &&& pos.len() == edges.len()
    &&& order.no_duplicates()
    &&& forall|k: int| 0 <= k < order.len() ==> 0 <= #[trigger] order[k] < adj.len()
    // Each edge leaves an earlier vertex and reaches one of its neighbours.
    &&& forall|e: int|
        0 <= e < edges.len() ==> {
            &&& 0 <= #[trigger] par[e] <= e
            &&& order[par[e]] == edges[e].0
            &&& 0 <= pos[e] < adj[order[par[e]]].len()
            &&& adj[order[par[e]]][pos[e]] == edges[e].1
        }
    // Vertices are left in the order in which they were reached, and their
    // neighbours are taken in the order listed.
    &&& forall|e: int, f: int|
        0 <= e < f < edges.len() ==> #[trigger] par[e] < #[trigger] par[f] || (par[e] == par[f]
            && pos[e] < pos[f])
    // No vertex could have been reached earlier.
    &&& forall|e: int, k: int|
        0 <= e < edges.len() && 0 <= k < par[e] ==> !(#[trigger] adj[order[k]]).contains(
            (#[trigger] edges[e]).1,
        )
    // Every neighbour of a visited vertex is visited.
    &&& forall|k: int, q: int|
        0 <= k < order.len() && 0 <= q < adj[order[k]].len() ==> order.contains(
            #[trigger] adj[order[k]][q] as int,
        )
}

/// `edges` are the tree edges of the breadth-first walk from `start`, in the
/// order in which it takes them.
pub open spec fn is_walk(adj: Seq<Seq<usize>>, start: int, edges: Seq<(usize, usize)>) -> bool {
    exists|par: Seq<int>, pos: Seq<int>| #[trigger] walk_ok(adj, start, edges, par, pos)
}

impl SpanningTree {
    /// The edges (from, to) of the breadth-first walk from `start`.
    #[verifier::spinoff_prover]
    #[verifier::rlimit(60)]
    pub fn walk_breadth_first(&self, start: usize) -> (edges: Vec<(usize, usize)>)
        requires
            start < self.adj@.len(),
            in_range(lists(self.adj@)),
        ensures
            is_walk(lists(self.adj@), start as int, edges@),
    {
        let n: usize = self.adj.len();
        let ghost adj = lists(self.adj@);
        let mut seen: Vec<bool> = Vec::new();
        while seen.len() < n
            invariant
                n == self.adj@.len(),
                seen@.len() <= n,
                forall|i: int| 0 <= i < seen@.len() ==> !#[trigger] seen@[i],
            decreases n - seen@.len(),
        {
            seen.push(false);
        }
        let mut queue: VecDeque<usize> = VecDeque::new();
        queue.push_back(start);
        seen[start] = true;
        let mut edges: Vec<(usize, usize)> = Vec::new();
        let ghost mut par: Seq<int> = Seq::empty();
        let ghost mut pos: Seq<int> = Seq::empty();
        let ghost mut p: int = 0;
        proof {
            let order = visit_order(start as int, edges@);
            assert(order =~= seq![start as int]);
            assert forall|v: int| 0 <= v < n implies (#[trigger] seen@[v] <==> order.contains(v)) by {
                assert(order[0] == start);
            }
        }
        while queue.len() > 0
            invariant
                n == self.adj@.len(),
                adj == lists(self.adj@),
                in_range(adj),
                start < n,
                seen@.len() == n,
                partial(adj, start as int, edges@, par, pos, seen@, p),
                0 <= p,
                forall|e: int| 0 <= e < par.len() ==> #[trigger] par[e] < p,
                p + queue@.len() == edges@.len() + 1,
                forall|k: int|
                    0 <= k < queue@.len() ==> #[trigger] queue@[k] == visit_order(
                        start as int,
                        edges@,
                    )[p + k],
            decreases n - p,
        {
            let ghost q0 = queue@;
            proof {
                lemma_order_len(adj, start as int, edges@, par, pos, seen@, p);
            }
            if let Some(u) = queue.pop_front() {
                proof {
                    assert(q0[0] == u);
                    assert(u == visit_order(start as int, edges@)[p]);
                    assert(adj[u as int] == self.adj@[u as int]@);
                }
                let mut q: usize = 0;
                while q < self.adj[u].len()
                    invariant
                        n == self.adj@.len(),
                        adj == lists(self.adj@),
                        in_range(adj),
                        start < n,
                        seen@.len() == n,
                        u < n,
                        adj[u as int] == self.adj@[u as int]@,
                        q <= adj[u as int].len(),
                        0 <= p < edges@.len() + 1,
                        u == visit_order(start as int, edges@)[p],
                        partial(adj, start as int, edges@, par, pos, seen@, p),
                        forall|e: int| 0 <= e < par.len() && #[trigger] par[e] == p ==> pos[e] < q,
                        forall|k: int|
                            0 <= k < q ==> visit_order(start as int, edges@).contains(
                                #[trigger] adj[u as int][k] as int,
                            ),
                        p + 1 + queue@.len() == edges@.len() + 1,
                        forall|k: int|
                            0 <= k < queue@.len() ==> #[trigger] queue@[k] == visit_order(
                                start as int,
                                edges@,
                            )[p + 1 + k],
                    decreases adj[u as int].len() - q,
                {
                    let v: usize = self.adj[u][q];
                    let ghost e0 = edges@;
                    let ghost s0 = seen@;
                    let ghost o0 = visit_order(start as int, e0);
                    assert(adj[u as int][q as int] == v);
                    assert(v < n);
                    if !seen[v] {
                        seen[v] = true;
                        edges.push((u, v));
                        queue.push_back(v);
                        proof {
                            let o1 = visit_order(start as int, edges@);
                            assert(o1 =~= o0.push(v as int));
                            lemma_extend(adj, start as int, e0, par, pos, s0, p, u, v, q as int);
                            assert(seen@ =~= s0.update(v as int, true));
                            par = par.push(p);
                            pos = pos.push(q as int);
                            assert forall|k: int| 0 <= k < q + 1 implies o1.contains(
                                #[trigger] adj[u as int][k] as int,
                            ) by {
                                if k < q {
                                    let z = o0.index_of(adj[u as int][k] as int);
                                    assert(o0.contains(adj[u as int][k] as int));
                                    assert(o1[z] == adj[u as int][k]);
                                } else {
                                    assert(o1[o0.len() as int] == v);
                                }
                            }
                        }
                    } else {
                        assert(o0.contains(v as int));
                    }
                    q = q + 1;
                }
                proof {
                    lemma_advance(adj, start as int, edges@, par, pos, seen@, p);
                    p = p + 1;
                }
            }
        }
        proof {
            lemma_finish(adj, start as int, edges@, par, pos, seen@, p);
        }
        edges
    }
}

/// The state of a walk that has left the first `p` vertices and may be
/// leaving the next.
spec fn partial(
    adj: Seq<Seq<usize>>,
    start: int,
    edges: Seq<(usize, usize)>,
    par: Seq<int>,
    pos: Seq<int>,
    seen: Seq<bool>,
    p: int,
) -> bool {
    let order = visit_order(start, edges);
    &&& par.len() == edges.len()
    &&& pos.len() == edges.len()
    &&& order.len() == edges.len() + 1
    &&& order.no_duplicates()
    &&& forall|k: int| 0 <= k < order.len() ==> 0 <= #[trigger] order[k] < adj.len()
    &&& forall|v: int| 0 <= v < adj.len() ==> (#[trigger] seen[v] <==> order.contains(v))
    &&& forall|e: int|
        0 <= e < edges.len() ==> {
            &&& 0 <= #[trigger] par[e] <= e
            &&& par[e] <= p
            &&& order[par[e]] == edges[e].0
            &&& 0 <= pos[e] < adj[order[par[e]]].len()
            &&& adj[order[par[e]]][pos[e]] == edges[e].1
        }
    &&& forall|e: int, f: int|
        0 <= e < f < edges.len() ==> #[trigger] par[e] < #[trigger] par[f] || (par[e] == par[f]
            && pos[e] < pos[f])
    &&& forall|e: int, k: int|
        0 <= e < edges.len() && 0 <= k < par[e] ==> !(#[trigger] adj[order[k]]).contains(
            (#[trigger] edges[e]).1,
        )
    &&& forall|k: int, q: int|
        0 <= k < p && k < order.len() && 0 <= q < adj[order[k]].len() ==> order.contains(
            #[trigger] adj[order[k]][q] as int,
        )
}

proof fn lemma_order_len(
    adj: Seq<Seq<usize>>,
    start: int,
    edges: Seq<(usize, usize)>,
    par: Seq<int>,
    pos: Seq<int>,
    seen: Seq<bool>,
    p: int,
)
    requires
        partial(adj, start, edges, par, pos, seen, p),
    ensures
        edges.len() + 1 <= adj.len(),
{
    let order = visit_order(start, edges);
    order.unique_seq_to_set();
    vstd::set_lib::lemma_int_range(0, adj.len() as int);
    let all = vstd::set_lib::set_int_range(0, adj.len() as int);
    assert(order.to_set().subset_of(all)) by {
        assert forall|x: int| order.to_set().contains(x) implies all.contains(x) by {
            let i = order.index_of(x);
            assert(order[i] == x);
        }
    }
    vstd::set_lib::lemma_len_subset(order.to_set(), all);
}

/// Taking an edge to an unseen neighbour keeps the walk sound.
#[verifier::spinoff_prover]
proof fn lemma_extend(
    adj: Seq<Seq<usize>>,
    start: int,
    edges: Seq<(usize, usize)>,
    par: Seq<int>,
    pos: Seq<int>,
    seen: Seq<bool>,
    p: int,
    u: usize,
    v: usize,
    q: int,
)
    requires
        partial(adj, start, edges, par, pos, seen, p),
        seen.len() == adj.len(),
        0 <= p < edges.len() + 1,
        u == visit_order(start, edges)[p],
        v < adj.len(),
        !seen[v as int],
        0 <= q < adj[u as int].len(),
        adj[u as int][q] == v,
        forall|e: int| 0 <= e < par.len() && #[trigger] par[e] == p ==> pos[e] < q,
    ensures
        partial(
            adj,
            start,
            edges.push((u, v)),
            par.push(p),
            pos.push(q),
            seen.update(v as int, true),
            p,
        ),
{
    let o0 = visit_order(start, edges);
    let e1 = edges.push((u, v));
    let o1 = visit_order(start, e1);
    assert(o1 =~= o0.push(v as int));
    assert(!o0.contains(v as int));
    let s1 = seen.update(v as int, true);
    let (p1, q1) = (par.push(p), pos.push(q));
    assert forall|w: int| 0 <= w < adj.len() implies (#[trigger] s1[w] <==> o1.contains(w)) by {
        if o0.contains(w) {
            let z = o0.index_of(w);
            assert(o1[z] == w);
        }
        if o1.contains(w) && w != v {
            let z = o1.index_of(w);
            assert(o0[z] == w);
        }
        if w == v {
            assert(o1[o0.len() as int] == v);
        }
    }
    assert(o1.no_duplicates()) by {
        assert forall|a: int, b: int| 0 <= a < b < o1.len() implies o1[a] != o1[b] by {
            if b == o0.len() {
                assert(o0[a] != v) by {
                    assert(o0.contains(o0[a]));
                }
            }
        }
    }
    assert forall|e: int, f: int| 0 <= e < f < e1.len() implies #[trigger] p1[e] < #[trigger] p1[f] || (
    p1[e] == p1[f] && q1[e] < q1[f]) by {
        if f == edges.len() {
            assert(par[e] <= p);
        } else {
            assert(par[e] < par[f] || (par[e] == par[f] && pos[e] < pos[f]));
        }
    }
    assert forall|e: int, k: int| 0 <= e < e1.len() && 0 <= k < p1[e] implies !(#[trigger] adj[o1[k]]).contains(
        (#[trigger] e1[e]).1,
    ) by {
        if e == edges.len() {
            if adj[o0[k]].contains(v) {
                let z = adj[o0[k]].index_of(v);
                assert(o0.contains(adj[o0[k]][z] as int));
            }
        } else {
            assert(par[e] <= e);
            assert(!adj[o0[k]].contains(edges[e].1));
        }
    }
    assert forall|k: int, z: int| 0 <= k < p && k < o1.len() && 0 <= z < adj[o1[k]].len() implies o1.contains(
        #[trigger] adj[o1[k]][z] as int,
    ) by {
        assert(o1[k] == o0[k]);
        assert(o0.contains(adj[o0[k]][z] as int));
        let y = o0.index_of(adj[o0[k]][z] as int);
        assert(o1[y] == adj[o0[k]][z]);
    }
    assert forall|e: int| 0 <= e < e1.len() implies {
        &&& 0 <= #[trigger] p1[e] <= e
        &&& p1[e] <= p
        &&& o1[p1[e]] == e1[e].0
        &&& 0 <= q1[e] < adj[o1[p1[e]]].len()
        &&& adj[o1[p1[e]]][q1[e]] == e1[e].1
    } by {
        if e < edges.len() {
            assert(0 <= par[e] <= e);
        }
    }
}

/// A vertex all of whose neighbours are visited has been left.
proof fn lemma_advance(
    adj: Seq<Seq<usize>>,
    start: int,
    edges: Seq<(usize, usize)>,
    par: Seq<int>,
    pos: Seq<int>,
    seen: Seq<bool>,
    p: int,
)
    requires
        partial(adj, start, edges, par, pos, seen, p),
        0 <= p < edges.len() + 1,
        forall|k: int|
            0 <= k < adj[visit_order(start, edges)[p]].len() ==> visit_order(start, edges).contains(
                #[trigger] adj[visit_order(start, edges)[p]][k] as int,
            ),
    ensures
        partial(adj, start, edges, par, pos, seen, p + 1),
{
    let order = visit_order(start, edges);
    assert forall|e: int| 0 <= e < edges.len() implies {
        &&& 0 <= #[trigger] par[e] <= e
        &&& par[e] <= p + 1
        &&& order[par[e]] == edges[e].0
        &&& 0 <= pos[e] < adj[order[par[e]]].len()
        &&& adj[order[par[e]]][pos[e]] == edges[e].1
    } by {
        assert(par[e] <= p);
    }
}

proof fn lemma_finish(
    adj: Seq<Seq<usize>>,
    start: int,
    edges: Seq<(usize, usize)>,
    par: Seq<int>,
    pos: Seq<int>,
    seen: Seq<bool>,
    p: int,
)
    requires
        partial(adj, start, edges, par, pos, seen, p),
        p == edges.len() + 1,
    ensures
        is_walk(adj, start, edges),
{
    assert(walk_ok(adj, start, edges, par, pos));
}

/// `b` is among the neighbours of `a`.
pub open spec fn adjacent(adj: Seq<Seq<usize>>, a: int, b: int) -> bool {
    exists|q: int| 0 <= q < adj[a].len() && #[trigger] adj[a][q] == b
}

/// `path` leads from each vertex to one of its neighbours.
pub open spec fn is_route(adj: Seq<Seq<usize>>, path: Seq<int>) -> bool {
    &&& path.len() >= 1
    &&& forall|k: int| 0 <= k < path.len() ==> 0 <= #[trigger] path[k] < adj.len()
    &&& forall|k: int|
        0 <= k < path.len() - 1 ==> adjacent(adj, #[trigger] path[k], path[k + 1])
}

/// Vertex `b` can be reached from `a` in `d` steps.
pub open spec fn reaches(adj: Seq<Seq<usize>>, a: int, b: int, d: int) -> bool {
    exists|path: Seq<int>| #[trigger]
        is_route(adj, path) && path.len() == d + 1 && path[0] == a && path.last() == b
}

/// `d` is the least number of steps from `a` to `b`.
pub open spec fn is_distance(adj: Seq<Seq<usize>>, a: int, b: int, d: int) -> bool {
    &&& reaches(adj, a, b, d)
    &&& forall|e: int| #[trigger] reaches(adj, a, b, e) ==> d <= e
}

/// The least number of steps from `a` to `b`; zero where there is no way.
pub open spec fn distance(adj: Seq<Seq<usize>>, a: int, b: int) -> int {
    if exists|d: int| #[trigger] is_distance(adj, a, b, d) {
        choose|d: int| #[trigger] is_distance(adj, a, b, d)
    } else {
        0
    }
}

/// How many edges back to the start the vertex visited as number `i` is.
spec fn depth(par: Seq<int>, i: int) -> int
    decreases i,
{
    if 0 < i <= par.len() && 0 <= par[i - 1] < i {
        1 + depth(par, par[i - 1])
    } else {
        0
    }
}

proof fn lemma_depth_grows(
    adj: Seq<Seq<usize>>,
    start: int,
    edges: Seq<(usize, usize)>,
    par: Seq<int>,
    pos: Seq<int>,
    i: int,
    j: int,
)
    requires
        walk_ok(adj, start, edges, par, pos),
        0 <= i <= j <= edges.len(),
    ensures
        0 <= depth(par, i) <= depth(par, j),
    decreases j,
{
    if j > 0 {
        assert(0 <= par[j - 1] <= j - 1);
        lemma_depth_grows(adj, start, edges, par, pos, 0, par[j - 1]);
        if 0 < i < j {
            assert(0 <= par[i - 1] <= i - 1);
            assert(par[i - 1] <= par[j - 1]);
            lemma_depth_grows(adj, start, edges, par, pos, par[i - 1], par[j - 1]);
        }
    }
}

/// A visited vertex is reached in as many steps as its depth.
proof fn lemma_depth_reached(
    adj: Seq<Seq<usize>>,
    start: int,
    edges: Seq<(usize, usize)>,
    par: Seq<int>,
    pos: Seq<int>,
    i: int,
)
    requires
        walk_ok(adj, start, edges, par, pos),
        0 <= i <= edges.len(),
    ensures
        reaches(adj, start, visit_order(start, edges)[i], depth(par, i)),
    decreases i,
{
    let order = visit_order(start, edges);
    if i == 0 {
        let path = seq![start];
        assert(order[0] == start);
        assert(is_route(adj, path));
    } else {
        let p = par[i - 1];
        assert(0 <= p <= i - 1);
        lemma_depth_reached(adj, start, edges, par, pos, p);
        let path = choose|path: Seq<int>| #[trigger]
            is_route(adj, path) && path.len() == depth(par, p) + 1 && path[0] == start
                && path.last() == order[p];
        let longer = path.push(order[i]);
        assert(order[i] == edges[i - 1].1);
        assert forall|k: int| 0 <= k < longer.len() - 1 implies adjacent(
            adj,
            #[trigger] longer[k],
            longer[k + 1],
        ) by {
            if k == path.len() - 1 {
                assert(adj[order[p]][pos[i - 1]] == edges[i - 1].1);
            } else {
                assert(longer[k] == path[k]);
            }
        }
        assert(is_route(adj, longer));
    }
}

/// No route is shorter than the depth of where it ends.
proof fn lemma_route_depth(
    adj: Seq<Seq<usize>>,
    start: int,
    edges: Seq<(usize, usize)>,
    par: Seq<int>,
    pos: Seq<int>,
    path: Seq<int>,
    k: int,
) -> (i: int)
    requires
        walk_ok(adj, start, edges, par, pos),
        is_route(adj, path),
        path[0] == start,
        0 <= k < path.len(),
    ensures
        0 <= i <= edges.len(),
        visit_order(start, edges)[i] == path[k],
        depth(par, i) <= k,
    decreases k,
{
    let order = visit_order(start, edges);
    assert(order.len() == edges.len() + 1);
    if k == 0 {
        assert(order[0] == start);
        0
    } else {
        let j = lemma_route_depth(adj, start, edges, par, pos, path, k - 1);
        assert(adjacent(adj, path[k - 1], path[k - 1 + 1]));
        let q = choose|q: int| 0 <= q < adj[order[j]].len() && #[trigger] adj[order[j]][q] == path[k];
        let v = path[k];
        assert(order.contains(adj[order[j]][q] as int));
        let i = order.index_of(v);
        assert(order[i] == v);
        if i > 0 {
            assert(0 <= par[i - 1] <= i - 1);
            if par[i - 1] > j {
                assert(edges[i - 1].1 == adj[order[j]][q]);
                assert(!adj[order[j]].contains(edges[i - 1].1));
            }
            lemma_depth_grows(adj, start, edges, par, pos, par[i - 1], j);
        }
        i
    }
}

/// Breadth first, the number of edges taken to a vertex is its distance.
proof fn lemma_walk_distance(
    adj: Seq<Seq<usize>>,
    start: int,
    edges: Seq<(usize, usize)>,
    par: Seq<int>,
    pos: Seq<int>,
)
    requires
        walk_ok(adj, start, edges, par, pos),
    ensures
        forall|i: int|
            0 <= i <= edges.len() ==> distance(
                adj,
                start,
                #[trigger] visit_order(start, edges)[i],
            ) == depth(par, i),
        forall|v: int|
            !visit_order(start, edges).contains(v) ==> #[trigger] distance(adj, start, v) == 0,
{
    let order = visit_order(start, edges);
    assert forall|i: int| 0 <= i <= edges.len() implies distance(adj, start, #[trigger] order[i])
        == depth(par, i) by {
        lemma_depth_reached(adj, start, edges, par, pos, i);
        assert forall|e: int| #[trigger] reaches(adj, start, order[i], e) implies depth(par, i)
            <= e by {
            let path = choose|path: Seq<int>| #[trigger]
                is_route(adj, path) && path.len() == e + 1 && path[0] == start && path.last()
                    == order[i];
            let j = lemma_route_depth(adj, start, edges, par, pos, path, e);
            assert(order[j] == order[i]);
        }
        assert(is_distance(adj, start, order[i], depth(par, i)));
        let d = choose|d: int| #[trigger] is_distance(adj, start, order[i], d);
        assert(is_distance(adj, start, order[i], d));
    }
    assert forall|v: int| !order.contains(v) implies #[trigger] distance(adj, start, v) == 0 by {
        if exists|d: int| #[trigger] is_distance(adj, start, v, d) {
            let d = choose|d: int| #[trigger] is_distance(adj, start, v, d);
            let path = choose|path: Seq<int>| #[trigger]
                is_route(adj, path) && path.len() == d + 1 && path[0] == start && path.last() == v;
            let j = lemma_route_depth(adj, start, edges, par, pos, path, d);
            assert(order[j] == v);
        }
    }
}

impl SpanningTree {
    /// The number of edges from `start` to every vertex; zero where there is
    /// no way.
    pub fn distances(&self, start: usize) -> (dist: Vec<usize>)
        requires
            start < self.adj@.len(),
            in_range(lists(self.adj@)),
        ensures
            dist@.len() == self.adj@.len(),
            forall|v: int|
                0 <= v < dist@.len() ==> #[trigger] dist@[v] == distance(
                    lists(self.adj@),
                    start as int,
                    v,
                ),
    {
        let n: usize = self.adj.len();
        let edges = self.walk_breadth_first(start);
        let ghost adj = lists(self.adj@);
        let ghost order = visit_order(start as int, edges@);
        let ghost (par, pos) = choose|par: Seq<int>, pos: Seq<int>| #[trigger]
            walk_ok(adj, start as int, edges@, par, pos);
        let mut dist: Vec<usize> = Vec::new();
        while dist.len() < n
            invariant
                n == self.adj@.len(),
                dist@.len() <= n,
                forall|i: int| 0 <= i < dist@.len() ==> #[trigger] dist@[i] == 0,
            decreases n - dist@.len(),
        {
            dist.push(0);
        }
        proof {
            assert(edges@.len() == edges.len());
            assert(depth(par, 0) == 0);
        }
        let mut e: usize = 0;
        while e < edges.len()
            invariant
                n == self.adj@.len(),
                adj == lists(self.adj@),
                dist@.len() == n,
                e <= edges@.len(),
                order == visit_order(start as int, edges@),
                walk_ok(adj, start as int, edges@, par, pos),
                forall|i: int| 0 <= i <= e ==> dist@[#[trigger] order[i]] == depth(par, i),
                forall|i: int| 0 <= i <= e ==> #[trigger] depth(par, i) <= i,
                forall|v: int|
                    0 <= v < n && !order.take(e + 1).contains(v) ==> #[trigger] dist@[v] == 0,
            decreases edges@.len() - e,
        {
            let (from, to) = edges[e];
            let ghost d0 = dist@;
            proof {
                assert(0 <= par[e as int] <= e);
                assert(order[par[e as int]] == from);
                assert(order[e + 1] == to);
                assert(depth(par, par[e as int]) <= par[e as int]);
                assert(depth(par, e + 1) == 1 + depth(par, par[e as int]));
                assert(0 <= order[par[e as int]] < n);
            }
            dist[to] = dist[from] + 1;
            proof {
                assert forall|i: int| 0 <= i <= e + 1 implies dist@[#[trigger] order[i]] == depth(
                    par,
                    i,
                ) by {
                    assert(0 <= order[i] < n);
                    if i <= e {
                        assert(order[i] != order[e + 1]);
                    }
                }
                assert forall|v: int| 0 <= v < n && !order.take(e + 2).contains(v) implies #[trigger] dist@[v]
                    == 0 by {
                    let t1 = order.take(e + 1);
                    let t2 = order.take(e + 2);
                    assert(t2[e + 1] == to);
                    if t1.contains(v) {
                        let z = t1.index_of(v);
                        assert(t2[z] == v);
                    }
                }
            }
            e = e + 1;
        }
        proof {
            lemma_walk_distance(adj, start as int, edges@, par, pos);
            assert(order.take(e + 1) =~= order);
            assert forall|v: int| 0 <= v < n implies #[trigger] dist@[v] == distance(
                adj,
                start as int,
                v,
            ) by {
                if order.contains(v) {
                    let i = order.index_of(v);
                    assert(dist@[order[i]] == depth(par, i));
                }
            }
        }
        dist
    }
}

} // verus!
