//! Two-terminal flow networks and the augmenting-path maximum flow that the
//! seam finder cuts overlaps with.
//!
//! Capacities are integers. Every vertex holds the net capacity of its two
//! terminal arcs (positive towards the source, negative towards the sink);
//! arcs between vertices come in mated pairs, one per direction.

use std::collections::VecDeque;
use vstd::prelude::*;

verus! {

/// Largest net terminal capacity of one vertex.
pub const WEIGHT_LIMIT: i64 = 0x7fff_ffff;

/// Largest flow that may be committed before [`GcGraph::max_flow`] runs.
pub const FLOW_LIMIT: i64 = 0x3fff_0000_0000_0000;

/// One directed arc of a [`Network`].
pub ghost struct FlowArc {
    pub src: int,
    pub dst: int,
    pub cap: int,
}

/// A flow network: `base` units already flow from source to sink,
/// `terms[v]` is the net terminal capacity of vertex `v`, and `arcs` are the
/// capacities between vertices.
pub ghost struct Network {
    pub base: int,
    pub terms: Seq<int>,
    pub arcs: Seq<FlowArc>,
}

/// What cutting vertex capacity `w` costs, by the side the vertex is on.
pub open spec fn term_cost(w: int, inside: bool) -> int {
    if inside {
        if w < 0 { -w } else { 0 }
    } else {
        if w > 0 { w } else { 0 }
    }
}

/// What arc `a` costs when the vertices of `side` are cut from the others.
pub open spec fn arc_cost(a: FlowArc, side: spec_fn(int) -> bool) -> int {
    if side(a.src) && !side(a.dst) { a.cap } else { 0 }
}

pub open spec fn terms_cost(terms: Seq<int>, side: spec_fn(int) -> bool, k: int) -> int
    decreases k,
{
    if k <= 0 {
        0
    } else {
        terms_cost(terms, side, k - 1) + term_cost(terms[k - 1], side(k - 1))
    }
}

pub open spec fn arcs_cost(arcs: Seq<FlowArc>, side: spec_fn(int) -> bool, k: int) -> int
    decreases k,
{
    if k <= 0 {
        0
    } else {
        arcs_cost(arcs, side, k - 1) + arc_cost(arcs[k - 1], side)
    }
}

impl Network {
    /// Capacity of the cut that keeps the vertices of `side` with the source
    /// and leaves all others to the sink.
    pub open spec fn cut_cost(self, side: spec_fn(int) -> bool) -> int {
        self.base + terms_cost(self.terms, side, self.terms.len() as int) + arcs_cost(
            self.arcs,
            side,
            self.arcs.len() as int,
        )
    }

    /// `side` is a cut of least capacity.
    pub open spec fn is_min_cut(self, side: spec_fn(int) -> bool) -> bool {
        forall|other: spec_fn(int) -> bool| self.cut_cost(side) <= #[trigger] self.cut_cost(other)
    }

    /// `flow` is the value of a maximum flow: what a cut of least capacity
    /// lets through.
    pub open spec fn is_max_flow(self, flow: int) -> bool {
        exists|cut: spec_fn(int) -> bool| #[trigger]
            self.is_min_cut(cut) && self.cut_cost(cut) == flow
    }

    /// `side` lies between two cuts of least capacity: it holds all of the
    /// one and nothing outside the other.
    pub open spec fn between_min_cuts(self, side: spec_fn(int) -> bool) -> bool {
        exists|low: spec_fn(int) -> bool, high: spec_fn(int) -> bool|
            {
                &&& #[trigger] self.is_min_cut(low)
                &&& #[trigger] self.is_min_cut(high)
                &&& forall|v: int|
                    0 <= v < self.terms.len() ==> (low(v) ==> #[trigger] side(v)) && (side(v)
                        ==> high(v))
            }
    }
}

/// How a vertex hangs in one of the two search trees.
#[derive(Clone, Copy, PartialEq, Eq, Structural)]
enum Parent {
    /// In neither tree.
    Free,
    /// Attached to its terminal.
    Terminal,
    /// Cut off from its tree, waiting for a new parent.
    Orphan,
    /// Attached by this arc, which leads from the vertex to its parent.
    Edge(usize),
}

/// A flow network under construction, and the search state of its solver.
pub struct GcGraph {
    // Vertices.
    parent: Vec<Parent>,
    first: Vec<usize>,
    ts: Vec<i64>,
    dist: Vec<i128>,
    weight: Vec<i64>,
    sink: Vec<bool>,
    // Arcs; 0 and 1 are unused, so that 0 can end an arc list.
    dst: Vec<usize>,
    enext: Vec<usize>,
    cap: Vec<i64>,
    flow: i64,
}

/// The arc in the opposite direction.
pub open spec fn mate(e: int) -> int {
    if e % 2 == 0 { e + 1 } else { e - 1 }
}

fn mate_of(e: usize) -> (m: usize)
    requires
        e < usize::MAX,
    ensures
        m == mate(e as int),
{
    if e % 2 == 0 { e + 1 } else { e - 1 }
}

impl View for GcGraph {
    type V = Network;

    closed spec fn view(&self) -> Network {
        Network {
            base: self.flow as int,
            terms: Seq::new(self.weight@.len(), |v: int| self.weight@[v] as int),
            arcs: Seq::new(
                self.arc_count(),
                |a: int| FlowArc {
                    src: self.src(a + 2),
                    dst: self.dst@[a + 2] as int,
                    cap: self.cap@[a + 2] as int,
                },
            ),
        }
    }
}

impl GcGraph {
    spec fn n(&self) -> int {
        self.parent@.len() as int
    }

    spec fn m(&self) -> int {
        self.dst@.len() as int
    }

    spec fn arc_count(&self) -> nat {
        if self.m() < 2 { 0 } else { (self.m() - 2) as nat }
    }

    /// The vertex that arc `e` leaves.
    spec fn src(&self, e: int) -> int {
        self.dst@[mate(e)] as int
    }

    spec fn is_arc(&self, e: int) -> bool {
        2 <= e < self.m()
    }

    /// Arc `e` is stored soundly; its list link skips no arc of its vertex.
    spec fn arc_ok(&self, e: int) -> bool {
        &&& self.dst@[e] < self.n()
        &&& self.src(e) != self.dst@[e]
        &&& 0 <= self.cap@[e]
        &&& self.cap@[e] + self.cap@[mate(e)] <= 0x1_ffff_fffe
        &&& (self.enext@[e] == 0 || (2 <= self.enext@[e] < e && self.src(self.enext@[e] as int)
            == self.src(e)))
    }

    /// No arc of the same vertex lies between `e` and the next one in its list.
    spec fn list_ok(&self, e: int, f: int) -> bool {
        self.is_arc(e) && self.is_arc(f) && f < e && self.src(f) == self.src(e) ==> f
            <= self.enext@[e]
    }

    spec fn head_ok(&self, v: int) -> bool {
        self.first@[v] == 0 || (self.is_arc(self.first@[v] as int) && self.src(
            self.first@[v] as int,
        ) == v)
    }

    /// The stored network is sound: lengths agree, and the arc list of each
    /// vertex names every arc that leaves it, latest first.
    spec fn shape(&self) -> bool {
        &&& self.first@.len() == self.n()
        &&& self.ts@.len() == self.n()
        &&& self.dist@.len() == self.n()
        &&& self.weight@.len() == self.n()
        &&& self.sink@.len() == self.n()
        &&& self.n() <= i32::MAX
        &&& self.enext@.len() == self.m()
        &&& self.cap@.len() == self.m()
        &&& self.m() % 2 == 0
        &&& self.m() <= i32::MAX
        &&& forall|e: int| #[trigger] self.is_arc(e) ==> self.arc_ok(e)
        &&& forall|e: int, f: int| #[trigger] self.list_ok(e, f)
        &&& forall|v: int| 0 <= v < self.n() ==> #[trigger] self.head_ok(v)
        &&& forall|e: int| #[trigger] self.is_arc(e) ==> e <= self.first@[self.src(e)]
    }

    /// The type's invariant.
    pub closed spec fn wf(&self) -> bool {
        &&& self.shape()
        &&& 0 <= self.flow
        &&& forall|v: int|
            0 <= v < self.n() ==> -WEIGHT_LIMIT <= #[trigger] self.weight@[v] <= WEIGHT_LIMIT
    }

    /// An empty network. The counts size the storage and bound nothing.
    pub fn new(vtx_count: usize, edge_count: usize) -> (g: Self)
        ensures
            g.wf(),
            g@ == (Network { base: 0, terms: Seq::empty(), arcs: Seq::empty() }),
    {
        let g = GcGraph {
            parent: Vec::with_capacity(vtx_count),
            first: Vec::with_capacity(vtx_count),
            ts: Vec::with_capacity(vtx_count),
            dist: Vec::with_capacity(vtx_count),
            weight: Vec::with_capacity(vtx_count),
            sink: Vec::with_capacity(vtx_count),
            dst: Vec::with_capacity(edge_count),
            enext: Vec::with_capacity(edge_count),
            cap: Vec::with_capacity(edge_count),
            flow: 0,
        };
        assert(g@.terms =~= Seq::empty());
        assert(g@.arcs =~= Seq::empty());
        g
    }

    /// Adds a vertex without capacities and returns its index.
    pub fn add_vtx(&mut self) -> (i: i32)
        requires
            old(self).wf(),
            old(self)@.terms.len() < i32::MAX,
        ensures
            final(self).wf(),
            i == old(self)@.terms.len(),
            final(self)@ == (Network { terms: old(self)@.terms.push(0), ..old(self)@ }),
    {
        self.parent.push(Parent::Free);
        self.first.push(0);
        self.ts.push(0);
        self.dist.push(0);
        self.weight.push(0);
        self.sink.push(false);
        assert(self.shape()) by {
            assert forall|e: int| #[trigger] self.is_arc(e) implies self.arc_ok(e) by {
                assert(old(self).is_arc(e));
                assert(old(self).arc_ok(e));
            }
            assert forall|e: int, f: int| #[trigger] self.list_ok(e, f) by {
                assert(old(self).list_ok(e, f));
            }
            assert forall|v: int| 0 <= v < self.n() implies #[trigger] self.head_ok(v) by {
                if v < old(self).n() {
                    assert(old(self).head_ok(v));
                }
            }
            assert forall|e: int| #[trigger] self.is_arc(e) implies e <= self.first@[self.src(e)] by {
                assert(old(self).is_arc(e));
                assert(old(self).arc_ok(e));
                assert(old(self).is_arc(mate(e)));
                assert(old(self).arc_ok(mate(e)));
            }
        }
        assert(self@.terms =~= old(self)@.terms.push(0));
        assert(self@.arcs =~= old(self)@.arcs);
        self.parent.len() as i32 - 1
    }

    /// Adds the arc from `i` to `j` with capacity `w` and its mate with
    /// capacity `revw`.
    pub fn add_edges(&mut self, i: i32, j: i32, w: u32, revw: u32)
        requires
            old(self).wf(),
            0 <= i < old(self)@.terms.len(),
            0 <= j < old(self)@.terms.len(),
            i != j,
            old(self)@.arcs.len() + 4 <= i32::MAX,
        ensures
            final(self).wf(),
            final(self)@ == with_edges(old(self)@, i as int, j as int, w as int, revw as int),
    {
        if self.dst.len() == 0 {
            self.dst.push(0);
            self.dst.push(0);
            self.enext.push(0);
            self.enext.push(0);
            self.cap.push(0);
            self.cap.push(0);
        }
        let ghost mid = *self;
        assert(mid.shape() && mid@ == old(self)@) by {
            assert forall|e: int| #[trigger] mid.is_arc(e) implies mid.arc_ok(e) by {
                assert(old(self).is_arc(e));
                assert(old(self).arc_ok(e));
            }
            assert forall|e: int, f: int| #[trigger] mid.list_ok(e, f) by {
                assert(old(self).list_ok(e, f));
            }
            assert forall|v: int| 0 <= v < mid.n() implies #[trigger] mid.head_ok(v) by {
                assert(old(self).head_ok(v));
            }
            assert(mid@.arcs =~= old(self)@.arcs);
            assert(mid@.terms =~= old(self)@.terms);
        }
        let e: usize = self.dst.len();
        let iu: usize = i as usize;
        let ju: usize = j as usize;
        self.dst.push(ju);
        self.enext.push(self.first[iu]);
        self.cap.push(w as i64);
        self.first[iu] = e;
        self.dst.push(iu);
        self.enext.push(self.first[ju]);
        self.cap.push(revw as i64);
        self.first[ju] = e + 1;
        proof {
            let ghost b = *self;
            assert(forall|f: int| 2 <= f < e ==> #[trigger] b.src(f) == mid.src(f)) by {
                assert forall|f: int| 2 <= f < e implies #[trigger] b.src(f) == mid.src(f) by {
                    assert(mid.is_arc(mate(f)));
                }
            }
            assert(b.src(e as int) == i && b.src(e + 1) == j);
            assert forall|f: int| #[trigger] b.is_arc(f) implies b.arc_ok(f) by {
                if f < e {
                    assert(mid.is_arc(f));
                    assert(mid.arc_ok(f));
                    assert(mid.is_arc(mate(f)));
                } else {
                    assert(mid.head_ok(i as int));
                    assert(mid.head_ok(j as int));
                }
            }
            assert forall|f: int, g: int| #[trigger] b.list_ok(f, g) by {
                if b.is_arc(f) && b.is_arc(g) && g < f {
                    assert(mid.list_ok(f, g));
                    assert(b.src(g) == b.src(g));
                    if g < e {
                        assert(mid.is_arc(g));
                        assert(g <= mid.first@[mid.src(g)]);
                    }
                    if f < e {
                        assert(mid.is_arc(f));
                        assert(b.src(f) == mid.src(f));
                    }
                }
            }
            assert forall|v: int| 0 <= v < b.n() implies #[trigger] b.head_ok(v) by {
                assert(mid.head_ok(v));
                assert(b.is_arc(b.first@[v] as int) || b.first@[v] == 0);
            }
            assert forall|f: int| #[trigger] b.is_arc(f) implies f <= b.first@[b.src(f)] by {
                if f < e {
                    assert(mid.is_arc(f));
                    assert(b.src(f) == mid.src(f));
                    assert(mid.is_arc(mate(f)));
                    assert(mid.arc_ok(mate(f)));
                }
            }
            assert(self@.terms =~= old(self)@.terms);
            assert(self@.arcs =~= old(self)@.arcs.push(
                FlowArc { src: i as int, dst: j as int, cap: w as int },
            ).push(FlowArc { src: j as int, dst: i as int, cap: revw as int }));
        }
    }

    /// Adds terminal capacities to vertex `i`: `source_w` from the source and
    /// `sink_w` to the sink. What can pass straight through is committed to
    /// the flow, the difference stays on the vertex.
    pub fn add_term_weights(&mut self, i: i32, source_w: u32, sink_w: u32)
        requires
            old(self).wf(),
            0 <= i < old(self)@.terms.len(),
            source_w + term_cost(old(self)@.terms[i as int], false) <= WEIGHT_LIMIT,
            sink_w + term_cost(old(self)@.terms[i as int], true) <= WEIGHT_LIMIT,
            old(self)@.base + WEIGHT_LIMIT <= FLOW_LIMIT,
        ensures
            final(self).wf(),
            final(self)@ == with_terms(old(self)@, i as int, source_w as int, sink_w as int),
    {
        let dw: i64 = self.weight[i as usize];
        let mut s: i64 = source_w as i64;
        let mut k: i64 = sink_w as i64;
        if dw > 0 {
            s = s + dw;
        } else {
            k = k - dw;
        }
        self.flow = self.flow + if s < k { s } else { k };
        self.weight[i as usize] = s - k;
        proof {
            assert(self.shape()) by {
                assert forall|e: int| #[trigger] self.is_arc(e) implies self.arc_ok(e) by {
                    assert(old(self).is_arc(e));
                    assert(old(self).arc_ok(e));
                }
                assert forall|e: int, f: int| #[trigger] self.list_ok(e, f) by {
                    assert(old(self).list_ok(e, f));
                }
                assert forall|v: int| 0 <= v < self.n() implies #[trigger] self.head_ok(v) by {
                    assert(old(self).head_ok(v));
                }
                assert forall|e: int| #[trigger] self.is_arc(e) implies e
                    <= self.first@[self.src(e)] by {
                    assert(old(self).is_arc(e));
                }
            }
            let a = source_w + term_cost(old(self)@.terms[i as int], false);
            let b = sink_w + term_cost(old(self)@.terms[i as int], true);
            assert(self@.terms =~= old(self)@.terms.update(i as int, a - b));
            assert(self@.arcs =~= old(self)@.arcs);
        }
    }

    /// Residual capacity by which a tree grows over arc `e` away from its
    /// root: along the arc in the source tree, against it in the sink tree.
    spec fn grow_cap(&self, e: int, k: bool) -> int {
        self.cap@[if k { mate(e) } else { e }] as int
    }

    /// The labels place `u` nearer to its root than `v`.
    spec fn above(&self, u: int, v: int) -> bool {
        self.ts@[u] > self.ts@[v] || (self.ts@[u] == self.ts@[v] && self.dist@[u] < self.dist@[v])
    }

    /// A vertex attached by an arc hangs below a vertex of the same tree.
    spec fn hung(&self, v: int) -> bool {
        self.parent@[v] matches Parent::Edge(e) ==> {
            let u = self.dst@[e as int] as int;
            &&& self.is_arc(e as int)
            &&& self.src(e as int) == v
            &&& self.parent@[u] != Parent::Free
            &&& self.sink@[u] == self.sink@[v]
            &&& self.grow_cap(mate(e as int), self.sink@[v]) > 0
            &&& self.above(u, v)
        }
    }

    /// Exactly the vertices with terminal capacity hang from their terminal.
    spec fn root_ok(&self, v: int) -> bool {
        &&& self.parent@[v] == Parent::Terminal <==> self.weight@[v] != 0
        &&& self.weight@[v] != 0 ==> self.sink@[v] == (self.weight@[v] < 0)
        &&& self.parent@[v] == Parent::Terminal ==> self.dist@[v] == 1
    }

    spec fn label_ok(&self, v: int, now: int, lim: int) -> bool {
        &&& 0 <= self.ts@[v] <= now
        &&& self.parent@[v] != Parent::Free ==> 1 <= self.dist@[v] <= lim
    }

    /// Arc `e` offers no growth to a vertex that is done growing.
    spec fn settled(&self, e: int, queued: Seq<bool>) -> bool {
        let v = self.src(e);
        let u = self.dst@[e] as int;
        self.parent@[v] != Parent::Free && !queued[v] && self.grow_cap(e, self.sink@[v]) != 0
            ==> self.parent@[u] != Parent::Free && self.sink@[u] == self.sink@[v]
    }

    /// Both search trees are sound, up to vertices waiting for a parent.
    spec fn forest(&self, now: int, lim: int) -> bool {
        &&& self.wf()
        &&& forall|v: int| 0 <= v < self.n() ==> #[trigger] self.hung(v)
        &&& forall|v: int| 0 <= v < self.n() ==> #[trigger] self.root_ok(v)
        &&& forall|v: int| 0 <= v < self.n() ==> #[trigger] self.label_ok(v, now, lim)
    }

    spec fn all_settled(&self, queued: Seq<bool>) -> bool {
        forall|e: int| self.is_arc(e) ==> #[trigger] self.settled(e, queued)
    }

    spec fn no_orphans(&self) -> bool {
        forall|v: int| 0 <= v < self.n() ==> #[trigger] self.parent@[v] != Parent::Orphan
    }

    /// Every queued vertex is in the queue, and the queue holds vertices.
    spec fn queue_ok(&self, active: Seq<usize>, queued: Seq<bool>) -> bool {
        &&& queued.len() == self.n()
        &&& forall|i: int| 0 <= i < active.len() ==> #[trigger] active[i] < self.n()
        &&& forall|v: int|
            0 <= v < self.n() && #[trigger] queued[v] ==> active.contains(v as usize)
    }

    spec fn same_arcs(&self, o: &GcGraph) -> bool {
        &&& self.n() == o.n()
        &&& self.first@ == o.first@
        &&& self.dst@ == o.dst@
        &&& self.enext@ == o.enext@
    }

    spec fn same_network(&self, o: &GcGraph) -> bool {
        &&& self.same_arcs(o)
        &&& self.weight@ == o.weight@
        &&& self.cap@ == o.cap@
        &&& self.flow == o.flow
    }

    proof fn lemma_arc(&self, e: int)
        requires
            self.shape(),
            self.is_arc(e),
        ensures
            self.is_arc(mate(e)),
            mate(mate(e)) == e,
            0 <= self.src(e) < self.n(),
            0 <= self.dst@[e] < self.n(),
            self.src(e) != self.dst@[e],
            self.src(mate(e)) == self.dst@[e],
            self.dst@[mate(e)] == self.src(e),
            self.arc_ok(e),
            self.arc_ok(mate(e)),
    {
        assert(self.is_arc(mate(e)));
        assert(self.arc_ok(e));
        assert(self.arc_ok(mate(e)));
    }

    /// Soundness of the stored network does not depend on the search state.
    proof fn lemma_shape_kept(&self, o: &GcGraph)
        requires
            o.shape(),
            self.same_arcs(o),
            self.ts@.len() == o.n(),
            self.dist@.len() == o.n(),
            self.weight@.len() == o.n(),
            self.sink@.len() == o.n(),
            self.cap@.len() == o.m(),
            forall|e: int| #[trigger] o.is_arc(e) ==> 0 <= self.cap@[e] && self.cap@[e] + self.cap@[mate(
                e,
            )] <= 0x1_ffff_fffe,
        ensures
            self.shape(),
    {
        assert forall|e: int| #[trigger] self.is_arc(e) implies self.arc_ok(e) by {
            assert(o.is_arc(e));
            assert(o.arc_ok(e));
        }
        assert forall|e: int, f: int| #[trigger] self.list_ok(e, f) by {
            assert(o.list_ok(e, f));
        }
        assert forall|v: int| 0 <= v < self.n() implies #[trigger] self.head_ok(v) by {
            assert(o.head_ok(v));
        }
        assert forall|e: int| #[trigger] self.is_arc(e) implies e <= self.first@[self.src(e)] by {
            assert(o.is_arc(e));
        }
    }

    /// The same, where the capacities have not changed either.
    proof fn lemma_wf_kept(&self, o: &GcGraph)
        requires
            o.wf(),
            self.same_network(o),
            self.ts@.len() == o.n(),
            self.dist@.len() == o.n(),
            self.sink@.len() == o.n(),
        ensures
            self.wf(),
    {
        assert forall|e: int| #[trigger] o.is_arc(e) implies 0 <= self.cap@[e] && self.cap@[e]
            + self.cap@[mate(e)] <= 0x1_ffff_fffe by {
            assert(o.arc_ok(e));
        }
        self.lemma_shape_kept(o);
    }
}

/// How many of the first `k` vertices are in neither tree.
spec fn count_free(p: Seq<Parent>, k: int) -> int
    decreases k,
{
    if k <= 0 {
        0
    } else {
        count_free(p, k - 1) + if p[k - 1] == Parent::Free { 1int } else { 0 }
    }
}

proof fn lemma_count_free_bounds(p: Seq<Parent>, k: int)
    requires
        0 <= k,
    ensures
        0 <= count_free(p, k) <= k,
    decreases k,
{
    if k > 0 {
        lemma_count_free_bounds(p, k - 1);
    }
}

proof fn lemma_count_free_update(p: Seq<Parent>, i: int, x: Parent, k: int)
    requires
        0 <= i < p.len(),
        0 <= k <= p.len(),
    ensures
        count_free(p.update(i, x), k) == count_free(p, k) + if i < k {
            (if x == Parent::Free { 1int } else { 0 }) - (if p[i] == Parent::Free { 1int } else { 0 })
        } else {
            0
        },
    decreases k,
{
    if k > 0 {
        lemma_count_free_update(p, i, x, k - 1);
    }
}

impl GcGraph {
    /// Grows the tree of `v` over each of its arcs, latest arc first.
    fn grow_from(
        &mut self,
        v: usize,
        active: &mut VecDeque<usize>,
        queued: &mut Vec<bool>,
        Ghost(now): Ghost<int>,
        Ghost(top): Ghost<int>,
    ) -> (touch: Option<usize>)
        requires
            old(self).forest(now, top - count_free(old(self).parent@, old(self).n())),
            old(self).no_orphans(),
            old(self).all_settled(old(queued)@),
            old(self).queue_ok(old(active)@, old(queued)@),
            v < old(self).n(),
            old(self).parent@[v as int] != Parent::Free,
            old(active)@.len() > 0,
            0 <= top < 0x5000_0000_0000_0000_0000_0000_0000_0000,
        ensures
            final(self).forest(now, top - count_free(final(self).parent@, final(self).n())),
            final(self).same_network(old(self)),
            final(self).no_orphans(),
            final(self).all_settled(final(queued)@),
            final(self).queue_ok(final(active)@, final(queued)@),
            final(active)@.len() > 0,
            final(active)@[0] == old(active)@[0],
            count_free(final(self).parent@, final(self).n()) < count_free(
                old(self).parent@,
                old(self).n(),
            ) || (final(active)@ == old(active)@ && final(self).parent@.len() == old(self).parent@.len()
                && count_free(final(self).parent@, final(self).n()) == count_free(
                old(self).parent@,
                old(self).n(),
            )),
            match touch {
                Some(e) => {
                    let a = final(self).src(e as int);
                    let b = final(self).dst@[e as int] as int;
                    &&& final(self).is_arc(e as int)
                    &&& final(self).cap@[e as int] > 0
                    &&& final(self).parent@[a] != Parent::Free
                    &&& !final(self).sink@[a]
                    &&& final(self).parent@[b] != Parent::Free
                    &&& final(self).sink@[b]
                },
                None => forall|e: int|
                    final(self).is_arc(e) && #[trigger] final(self).src(e) == v
                        && final(self).grow_cap(e, final(self).sink@[v as int]) != 0
                        ==> final(self).parent@[final(self).dst@[e] as int] != Parent::Free
                        && final(self).sink@[final(self).dst@[e] as int]
                        == final(self).sink@[v as int],
            },
    {
        let k: bool = self.sink[v];
        let mut ei: usize = self.first[v];
        let ghost free1 = count_free(self.parent@, self.n());
        proof {
            assert(self.head_ok(v as int));
            assert forall|e: int| self.is_arc(e) && #[trigger] self.src(e) == v implies e <= ei by {
                assert(self.is_arc(e));
            }
        }
        while ei != 0
            invariant
                self.same_network(old(self)),
                self.no_orphans(),
                self.all_settled(queued@),
                self.queue_ok(active@, queued@),
                self.forest(now, top - count_free(self.parent@, self.n())),
                0 <= top < 0x5000_0000_0000_0000_0000_0000_0000_0000,
                v < self.n(),
                self.sink@[v as int] == k,
                self.parent@[v as int] != Parent::Free,
                active@.len() > 0,
                active@[0] == old(active)@[0],
                count_free(self.parent@, self.n()) < free1 || (active@ == old(active)@
                    && count_free(self.parent@, self.n()) == free1),
                free1 == count_free(old(self).parent@, old(self).n()),
                ei != 0 ==> self.is_arc(ei as int) && self.src(ei as int) == v,
                forall|e: int|
                    self.is_arc(e) && #[trigger] self.src(e) == v && e > ei && self.grow_cap(e, k) != 0
                        ==> self.parent@[self.dst@[e] as int] != Parent::Free
                        && self.sink@[self.dst@[e] as int] == k,
            decreases ei,
        {
            proof {
                self.lemma_arc(ei as int);
                lemma_count_free_bounds(self.parent@, self.n());
            }
            let ghost s0 = *self;
            let ghost q0 = queued@;
            let ghost a0 = active@;
            let ghost lim0 = top - count_free(self.parent@, self.n());
            let m: usize = mate_of(ei);
            let out: usize = if k { m } else { ei };
            if self.cap[out] != 0 {
                let u: usize = self.dst[ei];
                proof {
                    assert(self.label_ok(v as int, now, lim0));
                    assert(self.label_ok(u as int, now, lim0));
                    assert(self.hung(u as int));
                    assert(self.root_ok(u as int));
                }
                if self.parent[u] == Parent::Free {
                    self.sink[u] = k;
                    self.parent[u] = Parent::Edge(m);
                    self.ts[u] = self.ts[v];
                    self.dist[u] = self.dist[v] + 1;
                    if !queued[u] {
                        queued[u] = true;
                        active.push_back(u);
                    }
                    proof {
                        lemma_count_free_update(s0.parent@, u as int, Parent::Edge(m), s0.n());
                        assert(self.parent@ =~= s0.parent@.update(u as int, Parent::Edge(m)));
                        self.lemma_wf_kept(&s0);
                        assert(s0.root_ok(u as int));
                        assert forall|x: int| 0 <= x < self.n() implies #[trigger] self.hung(x) by {
                            assert(s0.hung(x));
                        }
                        assert forall|x: int| 0 <= x < self.n() implies #[trigger] self.root_ok(x) by {
                            assert(s0.root_ok(x));
                        }
                        assert forall|x: int| 0 <= x < self.n() implies #[trigger] self.label_ok(x, now, lim0 + 1) by {
                            assert(s0.label_ok(x, now, lim0));
                        }
                        assert forall|e: int| self.is_arc(e) implies #[trigger] self.settled(e, queued@) by {
                            s0.lemma_arc(e);
                            assert(s0.settled(e, q0));
                        }
                        assert forall|w: int| 0 <= w < self.n() && #[trigger] queued@[w] implies active@.contains(
                            w as usize,
                        ) by {
                            if q0[w] {
                                let i = a0.index_of(w as usize);
                                assert(a0.contains(w as usize));
                                assert(active@[i] == w);
                            } else {
                                assert(active@[active@.len() - 1] == w);
                            }
                        }
                        assert(count_free(self.parent@, self.n()) == count_free(s0.parent@, s0.n()) - 1);
                        assert(self.forest(now, lim0 + 1));
                    }
                } else if self.sink[u] != k {
                    return Some(out);
                } else if self.dist[u] > self.dist[v] + 1 && self.ts[u] <= self.ts[v] {
                    self.parent[u] = Parent::Edge(m);
                    self.ts[u] = self.ts[v];
                    self.dist[u] = self.dist[v] + 1;
                    proof {
                        lemma_count_free_update(s0.parent@, u as int, Parent::Edge(m), s0.n());
                        assert(self.parent@ =~= s0.parent@.update(u as int, Parent::Edge(m)));
                        self.lemma_wf_kept(&s0);
                        assert forall|x: int| 0 <= x < self.n() implies #[trigger] self.hung(x) by {
                            assert(s0.hung(x));
                        }
                        assert forall|x: int| 0 <= x < self.n() implies #[trigger] self.root_ok(x) by {
                            assert(s0.root_ok(x));
                        }
                        assert forall|x: int| 0 <= x < self.n() implies #[trigger] self.label_ok(x, now, lim0) by {
                            assert(s0.label_ok(x, now, lim0));
                        }
                        assert forall|e: int| self.is_arc(e) implies #[trigger] self.settled(e, queued@) by {
                            s0.lemma_arc(e);
                            assert(s0.settled(e, q0));
                        }
                        assert(count_free(self.parent@, self.n()) == count_free(s0.parent@, s0.n()));
                        assert(self.forest(now, lim0));
                    }
                }
            }
            assert(self.forest(now, top - count_free(self.parent@, self.n())));
            let ghost e1 = ei;
            proof {
                assert(self.arc_ok(ei as int)) by {
                    self.lemma_arc(ei as int);
                }
            }
            ei = self.enext[ei];
            proof {
                assert forall|e: int|
                    self.is_arc(e) && #[trigger] self.src(e) == v && e > ei && self.grow_cap(e, k)
                        != 0 implies self.parent@[self.dst@[e] as int] != Parent::Free
                    && self.sink@[self.dst@[e] as int] == k by {
                    assert(self.list_ok(e1 as int, e));
                    s0.lemma_arc(e);
                    assert(s0.src(e) == v);
                    assert(e > e1 || e == e1);
                }
            }
        }
        None
    }

    /// Grows both trees from the active vertices until they touch: the arc
    /// over which they do, from the source tree to the sink tree, or `None`
    /// once no active vertex is left.
    fn grow(
        &mut self,
        active: &mut VecDeque<usize>,
        queued: &mut Vec<bool>,
        Ghost(now): Ghost<int>,
        Ghost(lim): Ghost<int>,
    ) -> (touch: Option<usize>)
        requires
            old(self).forest(now, lim),
            old(self).no_orphans(),
            old(self).all_settled(old(queued)@),
            old(self).queue_ok(old(active)@, old(queued)@),
            0 <= lim < 0x4000_0000_0000_0000_0000_0000_0000_0000,
        ensures
            final(self).forest(now, lim + old(self).n()),
            final(self).same_network(old(self)),
            final(self).no_orphans(),
            final(self).all_settled(final(queued)@),
            final(self).queue_ok(final(active)@, final(queued)@),
            match touch {
                Some(e) => {
                    let a = final(self).src(e as int);
                    let b = final(self).dst@[e as int] as int;
                    &&& final(self).is_arc(e as int)
                    &&& final(self).cap@[e as int] > 0
                    &&& final(self).parent@[a] != Parent::Free
                    &&& !final(self).sink@[a]
                    &&& final(self).parent@[b] != Parent::Free
                    &&& final(self).sink@[b]
                },
                None => final(active)@.len() == 0,
            },
    {
        let ghost free0 = count_free(self.parent@, self.n());
        proof {
            lemma_count_free_bounds(self.parent@, self.n());
        }
        while active.len() > 0
            invariant
                self.same_network(old(self)),
                self.no_orphans(),
                self.all_settled(queued@),
                self.queue_ok(active@, queued@),
                self.forest(now, lim + free0 - count_free(self.parent@, self.n())),
                0 <= free0 <= self.n(),
                0 <= lim < 0x4000_0000_0000_0000_0000_0000_0000_0000,
            decreases count_free(self.parent@, self.n()), active@.len(),
        {
            proof {
                lemma_count_free_bounds(self.parent@, self.n());
            }
            let v: usize = active[0];
            let ghost free1 = count_free(self.parent@, self.n());
            if self.parent[v] != Parent::Free {
                match self.grow_from(
                    v,
                    active,
                    queued,
                    Ghost(now),
                    Ghost(lim + free0),
                ) {
                    Some(e) => {
                        proof {
                            lemma_count_free_bounds(self.parent@, self.n());
                            let l = lim + free0 - count_free(self.parent@, self.n());
                            assert forall|x: int| 0 <= x < self.n() implies #[trigger] self.label_ok(
                                x,
                                now,
                                lim + old(self).n(),
                            ) by {
                                assert(self.label_ok(x, now, l));
                            }
                        }
                        return Some(e);
                    },
                    None => {},
                }
            }
            let ghost act = active@;
            let ghost que = queued@;
            active.pop_front();
            queued[v] = false;
            proof {
                assert forall|e: int| self.is_arc(e) implies #[trigger] self.settled(e, queued@) by {
                    self.lemma_arc(e);
                    assert(self.settled(e, que));
                }
                assert forall|w: int| 0 <= w < self.n() && #[trigger] queued@[w] implies active@.contains(
                    w as usize,
                ) by {
                    assert(que[w]);
                    let i = act.index_of(w as usize);
                    assert(act.contains(w as usize));
                    assert(act[i] == w);
                    assert(i > 0);
                    assert(active@[i - 1] == w);
                }
                lemma_count_free_bounds(self.parent@, self.n());
            }
        }
        proof {
            lemma_count_free_bounds(self.parent@, self.n());
            assert forall|v: int| 0 <= v < self.n() implies #[trigger] self.label_ok(v, now, lim + old(self).n()) by {
                assert(self.label_ok(v, now, lim + free0 - count_free(self.parent@, self.n())));
            }
        }
        None
    }
}

/// `m` where `side` holds the vertex `x`, else nothing.
spec fn held(side: spec_fn(int) -> bool, x: int, m: int) -> int {
    if side(x) { m } else { 0 }
}

proof fn lemma_terms_update(terms: Seq<int>, i: int, w: int, side: spec_fn(int) -> bool, k: int)
    requires
        0 <= i < terms.len(),
        0 <= k <= terms.len(),
    ensures
        terms_cost(terms.update(i, w), side, k) == terms_cost(terms, side, k) + if i < k {
            term_cost(w, side(i)) - term_cost(terms[i], side(i))
        } else {
            0
        },
    decreases k,
{
    if k > 0 {
        lemma_terms_update(terms, i, w, side, k - 1);
    }
}

proof fn lemma_arcs_update(
    arcs: Seq<FlowArc>,
    i: int,
    a: FlowArc,
    side: spec_fn(int) -> bool,
    k: int,
)
    requires
        0 <= i < arcs.len(),
        0 <= k <= arcs.len(),
    ensures
        arcs_cost(arcs.update(i, a), side, k) == arcs_cost(arcs, side, k) + if i < k {
            arc_cost(a, side) - arc_cost(arcs[i], side)
        } else {
            0
        },
    decreases k,
{
    if k > 0 {
        lemma_arcs_update(arcs, i, a, side, k - 1);
    }
}

impl GcGraph {
    /// Pushing `m` units over arc `e` moves the capacity of a cut by what
    /// enters its side less what leaves it.
    proof fn lemma_push_arc(&self, o: &GcGraph, e: int, m: int, side: spec_fn(int) -> bool)
        requires
            o.shape(),
            o.is_arc(e),
            self.same_arcs(o),
            self.weight@ == o.weight@,
            self.flow == o.flow,
            self.cap@.len() == o.cap@.len(),
            self.cap@[e] == o.cap@[e] - m,
            self.cap@[mate(e)] == o.cap@[mate(e)] + m,
            forall|f: int|
                0 <= f < o.m() && f != e && f != mate(e) ==> #[trigger] self.cap@[f] == o.cap@[f],
        ensures
            self@.cut_cost(side) == o@.cut_cost(side) + held(side, o.dst@[e] as int, m) - held(
                side,
                o.src(e),
                m,
            ),
    {
        o.lemma_arc(e);
        let f = mate(e);
        let a = FlowArc { src: o.src(e), dst: o.dst@[e] as int, cap: o.cap@[e] - m };
        let b = FlowArc { src: o.src(f), dst: o.dst@[f] as int, cap: o.cap@[f] + m };
        let arcs = o@.arcs;
        let mid = arcs.update(e - 2, a);
        assert(self@.terms =~= o@.terms);
        assert(self@.arcs =~= mid.update(f - 2, b));
        lemma_arcs_update(arcs, e - 2, a, side, arcs.len() as int);
        lemma_arcs_update(mid, f - 2, b, side, arcs.len() as int);
    }

    /// Taking `m` units off a terminal arc of `v` lowers every cut that
    /// separates `v` from that terminal.
    proof fn lemma_push_term(&self, o: &GcGraph, v: int, m: int, side: spec_fn(int) -> bool)
        requires
            o.shape(),
            0 <= v < o.n(),
            self.same_arcs(o),
            self.cap@ == o.cap@,
            self.flow == o.flow,
            0 <= m,
            if o.weight@[v] > 0 {
                m <= o.weight@[v] && self.weight@ == o.weight@.update(v, (o.weight@[v] - m) as i64)
            } else {
                m <= -o.weight@[v] && self.weight@ == o.weight@.update(v, (o.weight@[v] + m) as i64)
            },
        ensures
            self@.cut_cost(side) == o@.cut_cost(side) + if o.weight@[v] > 0 {
                held(side, v, m) - m
            } else {
                -held(side, v, m)
            },
    {
        let w = if o.weight@[v] > 0 { o.weight@[v] - m } else { o.weight@[v] + m };
        assert(self@.terms =~= o@.terms.update(v, w));
        assert(self@.arcs =~= o@.arcs);
        lemma_terms_update(o@.terms, v, w, side, o.n());
    }

    /// `path[i + 1]` is the parent of `path[i]`.
    spec fn step(&self, path: Seq<int>, i: int) -> bool {
        self.parent@[path[i]] matches Parent::Edge(e) && self.is_arc(e as int)
            && self.src(e as int) == path[i] && self.dst@[e as int] == path[i + 1]
    }

    /// At least `m` units can still flow between `path[i]` and its parent.
    spec fn room(&self, path: Seq<int>, i: int, m: int) -> bool {
        self.parent@[path[i]] matches Parent::Edge(e) && m <= self.grow_cap(
            mate(e as int),
            self.sink@[path[i]],
        )
    }

    /// `path` leads from a vertex up to the root of the tree of side `k`, with
    /// room for `m` units on the way from position `from` on.
    spec fn path_ok(&self, path: Seq<int>, from: int, k: bool, m: int) -> bool {
        &&& 0 <= from < path.len()
        &&& forall|i: int|
            0 <= i < path.len() ==> 0 <= #[trigger] path[i] < self.n() && self.sink@[path[i]] == k
        &&& forall|i: int| from <= i < path.len() - 1 ==> #[trigger] self.step(path, i)
        &&& forall|i: int| from <= i < path.len() - 1 ==> #[trigger] self.room(path, i, m)
        &&& self.parent@[path.last()] == Parent::Terminal
        &&& m <= if self.weight@[path.last()] < 0 {
            -self.weight@[path.last()]
        } else {
            self.weight@[path.last()] as int
        }
    }

    proof fn lemma_path_above(&self, path: Seq<int>, now: int, lim: int, i: int, j: int)
        requires
            self.forest(now, lim),
            0 <= i < j < path.len(),
            forall|q: int| 0 <= q < path.len() ==> 0 <= #[trigger] path[q] < self.n(),
            forall|q: int| 0 <= q < path.len() - 1 ==> #[trigger] self.step(path, q),
        ensures
            self.above(path[j], path[i]),
        decreases j - i,
    {
        assert(self.step(path, j - 1));
        assert(self.hung(path[j - 1]));
        if i < j - 1 {
            self.lemma_path_above(path, now, lim, i, j - 1);
        }
    }

    /// The smallest of `m` and the residual capacities from `v` to its root.
    fn path_min(
        &self,
        v: usize,
        k: bool,
        m: i64,
        Ghost(now): Ghost<int>,
        Ghost(lim): Ghost<int>,
    ) -> (r: (i64, Ghost<Seq<int>>))
        requires
            self.forest(now, lim),
            self.no_orphans(),
            v < self.n(),
            self.parent@[v as int] != Parent::Free,
            self.sink@[v as int] == k,
            m > 0,
        ensures
            0 < r.0 <= m,
            r.1@.len() > 0,
            r.1@[0] == v,
            self.path_ok(r.1@, 0, k, r.0 as int),
    {
        let mut u: usize = v;
        let mut least: i64 = m;
        let ghost mut path: Seq<int> = seq![v as int];
        loop
            invariant
                self.forest(now, lim),
                self.no_orphans(),
                u < self.n(),
                self.parent@[u as int] != Parent::Free,
                0 < least <= m,
                path.len() > 0,
                path[0] == v,
                path.last() == u,
                forall|i: int|
                    0 <= i < path.len() ==> 0 <= #[trigger] path[i] < self.n()
                        && self.sink@[path[i]] == k,
                forall|i: int| 0 <= i < path.len() - 1 ==> #[trigger] self.step(path, i),
                forall|i: int|
                    0 <= i < path.len() - 1 ==> #[trigger] self.room(path, i, least as int),
            ensures
                self.parent@[u as int] == Parent::Terminal,
            decreases now - self.ts@[u as int], self.dist@[u as int],
        {
            assert(self.hung(u as int));
            assert(self.label_ok(u as int, now, lim));
            match self.parent[u] {
                Parent::Edge(e) => {
                    proof {
                        self.lemma_arc(e as int);
                    }
                    let up: usize = if k { e } else { mate_of(e) };
                    let ghost before = path;
                    let ghost was = least;
                    if self.cap[up] < least {
                        least = self.cap[up];
                    }
                    u = self.dst[e];
                    assert(self.label_ok(u as int, now, lim));
                    proof {
                        path = path.push(u as int);
                        assert forall|i: int| 0 <= i < path.len() - 1 implies #[trigger] self.step(path, i) by {
                            if i < before.len() - 1 {
                                assert(self.step(before, i));
                            }
                        }
                        assert forall|i: int| 0 <= i < path.len() - 1 implies #[trigger] self.room(path, i, least as int) by {
                            if i < before.len() - 1 {
                                assert(self.room(before, i, was as int));
                            }
                        }
                    }
                },
                _ => {
                    break;
                },
            }
        }
        assert(self.root_ok(u as int));
        let w: i64 = self.weight[u];
        assert(-WEIGHT_LIMIT <= w <= WEIGHT_LIMIT);
        let room: i64 = if w < 0 { -w } else { w };
        let ghost was = least;
        if room < least {
            least = room;
        }
        proof {
            assert forall|i: int| 0 <= i < path.len() - 1 implies #[trigger] self.room(path, i, least as int) by {
                assert(self.room(path, i, was as int));
            }
        }
        (least, Ghost(path))
    }

    /// `orphans` lists the vertices waiting for a parent, each once.
    spec fn orphans_ok(&self, orphans: Seq<usize>) -> bool {
        &&& orphans.no_duplicates()
        &&& forall|i: int|
            0 <= i < orphans.len() ==> #[trigger] orphans[i] < self.n()
                && self.parent@[orphans[i] as int] == Parent::Orphan
        &&& forall|v: int|
            0 <= v < self.n() && #[trigger] self.parent@[v] == Parent::Orphan ==> orphans.contains(
                v as usize,
            )
    }

    /// Only the tree of side `k` lost capacity or vertices.
    spec fn only_side(&self, o: &GcGraph, k: bool) -> bool {
        &&& self.same_arcs(o)
        &&& self.ts@ == o.ts@
        &&& self.dist@ == o.dist@
        &&& self.sink@ == o.sink@
        &&& self.flow == o.flow
        &&& forall|x: int|
            0 <= x < o.n() && #[trigger] o.sink@[x] != k ==> self.parent@[x] == o.parent@[x]
                && self.weight@[x] == o.weight@[x]
        &&& forall|e: int|
            #[trigger] o.is_arc(e) && !(o.sink@[o.src(e)] == k && o.sink@[o.dst@[e] as int] == k)
                ==> self.cap@[e] == o.cap@[e]
    }

    /// Pushes `m` units along the tree path between `v` and its root. Arcs
    /// that saturate cut the vertices below them off.
    #[verifier::rlimit(40)]
    #[verifier::spinoff_prover]
    fn augment_path(
        &mut self,
        v: usize,
        k: bool,
        m: i64,
        orphans: &mut Vec<usize>,
        Ghost(path): Ghost<Seq<int>>,
        Ghost(queued): Ghost<Seq<bool>>,
        Ghost(now): Ghost<int>,
        Ghost(lim): Ghost<int>,
    )
        requires
            old(self).forest(now, lim),
            old(self).all_settled(queued),
            queued.len() == old(self).n(),
            old(self).orphans_ok(old(orphans)@),
            m > 0,
            old(self).path_ok(path, 0, k, m as int),
            path[0] == v,
        ensures
            final(self).forest(now, lim),
            final(self).all_settled(queued),
            final(self).orphans_ok(final(orphans)@),
            final(self).only_side(old(self), k),
            forall|side: spec_fn(int) -> bool| #[trigger]
                final(self)@.cut_cost(side) == old(self)@.cut_cost(side) + if k {
                    -held(side, v as int, m as int)
                } else {
                    held(side, v as int, m as int) - m
                },
    {
        let mut u: usize = v;
        let ghost mut i: int = 0;
        proof {
            assert forall|a: int, b: int| 0 <= a < b < path.len() implies path[a] != path[b] by {
                self.lemma_path_above(path, now, lim, a, b);
            }
        }
        loop
            invariant
                self.forest(now, lim),
                self.all_settled(queued),
                queued.len() == self.n(),
                self.orphans_ok(orphans@),
                self.only_side(old(self), k),
                self.weight@ == old(self).weight@,
                m > 0,
                self.path_ok(path, i, k, m as int),
                u == path[i],
                path[0] == v,
                forall|a: int, b: int| 0 <= a < b < path.len() ==> path[a] != path[b],
                forall|side: spec_fn(int) -> bool| #[trigger]
                    self@.cut_cost(side) == old(self)@.cut_cost(side) + if k {
                        held(side, path[i], m as int) - held(side, v as int, m as int)
                    } else {
                        held(side, v as int, m as int) - held(side, path[i], m as int)
                    },
            ensures
                i == path.len() - 1,
            decreases path.len() - i,
        {
            let ghost s0 = *self;
            let ghost orp0 = orphans@;
            match self.parent[u] {
                Parent::Edge(e) => {
                    proof {
                        assert(i < path.len() - 1);
                        assert(self.step(path, i));
                        assert(self.room(path, i, m as int));
                        self.lemma_arc(e as int);
                        assert(self.hung(u as int));
                    }
                    let other: usize = mate_of(e);
                    let (up, down): (usize, usize) = if k { (e, other) } else { (other, e) };
                    self.cap[down] = self.cap[down] + m;
                    self.cap[up] = self.cap[up] - m;
                    if self.cap[up] == 0 {
                        orphans.push(u);
                        self.parent[u] = Parent::Orphan;
                    }
                    proof {
                        let ghost b = *self;
                        assert forall|f: int| #[trigger] s0.is_arc(f) implies 0 <= b.cap@[f]
                            && b.cap@[f] + b.cap@[mate(f)] <= 0x1_ffff_fffe by {
                            s0.lemma_arc(f);
                        }
                        b.lemma_shape_kept(&s0);
                        assert forall|side: spec_fn(int) -> bool| #[trigger]
                            b@.cut_cost(side) == old(self)@.cut_cost(side) + if k {
                                held(side, path[i + 1], m as int) - held(side, v as int, m as int)
                            } else {
                                held(side, v as int, m as int) - held(side, path[i + 1], m as int)
                            } by {
                            b.lemma_push_arc(&s0, up as int, m as int, side);
                            assert(s0@.cut_cost(side) == s0@.cut_cost(side));
                        }
                        assert forall|x: int| 0 <= x < b.n() implies #[trigger] b.hung(x) by {
                            assert(s0.hung(x));
                            if let Parent::Edge(f) = s0.parent@[x] {
                                s0.lemma_arc(f as int);
                            }
                        }
                        assert forall|x: int| 0 <= x < b.n() implies #[trigger] b.root_ok(x) by {
                            assert(s0.root_ok(x));
                        }
                        assert forall|x: int| 0 <= x < b.n() implies #[trigger] b.label_ok(x, now, lim) by {
                            assert(s0.label_ok(x, now, lim));
                        }
                        assert forall|f: int| b.is_arc(f) implies #[trigger] b.settled(f, queued) by {
                            s0.lemma_arc(f);
                            assert(s0.settled(f, queued));
                        }
                        assert forall|f: int|
                            #[trigger] old(self).is_arc(f) && !(old(self).sink@[old(self).src(f)] == k
                                && old(self).sink@[old(self).dst@[f] as int] == k) implies b.cap@[f]
                            == old(self).cap@[f] by {
                            s0.lemma_arc(f);
                        }
                        assert(b.orphans_ok(orphans@)) by {
                            assert forall|x: int|
                                0 <= x < b.n() && #[trigger] b.parent@[x] == Parent::Orphan implies orphans@.contains(
                                x as usize,
                            ) by {
                                if s0.parent@[x] == Parent::Orphan {
                                    let q = orp0.index_of(x as usize);
                                    assert(orp0.contains(x as usize));
                                    assert(orphans@[q] == x);
                                } else {
                                    assert(orphans@[orphans@.len() - 1] == x);
                                }
                            }
                            assert(!orp0.contains(u));
                            assert(orphans@.no_duplicates());
                        }
                        assert(b.path_ok(path, i + 1, k, m as int)) by {
                            assert forall|j: int| i + 1 <= j < path.len() - 1 implies #[trigger] b.step(path, j) by {
                                assert(s0.step(path, j));
                            }
                            assert forall|j: int| i + 1 <= j < path.len() - 1 implies #[trigger] b.room(path, j, m as int) by {
                                assert(s0.room(path, j, m as int));
                                assert(s0.step(path, j));
                                if let Parent::Edge(f) = s0.parent@[path[j]] {
                                    s0.lemma_arc(f as int);
                                    assert(path[j] != path[i]);
                                    assert(path[j + 1] != path[i]);
                                    assert(f != e);
                                    assert(f != mate(e as int));
                                }
                            }
                        }
                        i = i + 1;
                    }
                    u = self.dst[e];
                },
                _ => {
                    proof {
                        if i < path.len() - 1 {
                            assert(self.step(path, i));
                        }
                    }
                    break;
                },
            }
        }
        let ghost s0 = *self;
        let ghost orp0 = orphans@;
        let w: i64 = self.weight[u];
        proof {
            assert(self.root_ok(u as int));
            assert(-WEIGHT_LIMIT <= self.weight@[u as int] <= WEIGHT_LIMIT);
        }
        let left: i64 = if k { w + m } else { w - m };
        self.weight[u] = left;
        if left == 0 {
            orphans.push(u);
            self.parent[u] = Parent::Orphan;
        }
        proof {
            let ghost b = *self;
            assert forall|f: int| #[trigger] s0.is_arc(f) implies 0 <= b.cap@[f] && b.cap@[f]
                + b.cap@[mate(f)] <= 0x1_ffff_fffe by {
                s0.lemma_arc(f);
            }
            b.lemma_shape_kept(&s0);
            assert forall|side: spec_fn(int) -> bool| #[trigger]
                b@.cut_cost(side) == old(self)@.cut_cost(side) + if k {
                    -held(side, v as int, m as int)
                } else {
                    held(side, v as int, m as int) - m
                } by {
                b.lemma_push_term(&s0, u as int, m as int, side);
                assert(s0@.cut_cost(side) == s0@.cut_cost(side));
            }
            assert forall|x: int| 0 <= x < b.n() implies #[trigger] b.hung(x) by {
                assert(s0.hung(x));
            }
            assert forall|x: int| 0 <= x < b.n() implies #[trigger] b.root_ok(x) by {
                assert(s0.root_ok(x));
            }
            assert forall|x: int| 0 <= x < b.n() implies #[trigger] b.label_ok(x, now, lim) by {
                assert(s0.label_ok(x, now, lim));
            }
            assert forall|f: int| b.is_arc(f) implies #[trigger] b.settled(f, queued) by {
                s0.lemma_arc(f);
                assert(s0.settled(f, queued));
            }
            assert(b.orphans_ok(orphans@)) by {
                assert forall|x: int|
                    0 <= x < b.n() && #[trigger] b.parent@[x] == Parent::Orphan implies orphans@.contains(
                    x as usize,
                ) by {
                    if s0.parent@[x] == Parent::Orphan {
                        let q = orp0.index_of(x as usize);
                        assert(orp0.contains(x as usize));
                        assert(orphans@[q] == x);
                    } else {
                        assert(orphans@[orphans@.len() - 1] == x);
                    }
                }
                assert(!orp0.contains(u));
                assert(orphans@.no_duplicates());
            }
        }
    }
}

/// How many of the first `k` vertices carry the time stamp `now`.
spec fn count_at(ts: Seq<i64>, now: int, k: int) -> int
    decreases k,
{
    if k <= 0 {
        0
    } else {
        count_at(ts, now, k - 1) + if ts[k - 1] == now { 1int } else { 0 }
    }
}

proof fn lemma_count_at_bounds(ts: Seq<i64>, now: int, k: int)
    requires
        0 <= k,
    ensures
        0 <= count_at(ts, now, k) <= k,
    decreases k,
{
    if k > 0 {
        lemma_count_at_bounds(ts, now, k - 1);
    }
}

proof fn lemma_count_at_update(ts: Seq<i64>, now: int, i: int, x: i64, k: int)
    requires
        0 <= i < ts.len(),
        0 <= k <= ts.len(),
    ensures
        count_at(ts.update(i, x), now, k) == count_at(ts, now, k) + if i < k {
            (if x == now { 1int } else { 0 }) - (if ts[i] == now { 1int } else { 0 })
        } else {
            0
        },
    decreases k,
{
    if k > 0 {
        lemma_count_at_update(ts, now, i, x, k - 1);
    }
}

/// Distinct vertex indices are at most as many as there are vertices.
proof fn lemma_distinct_len(path: Seq<int>, n: int)
    requires
        0 <= n,
        path.no_duplicates(),
        forall|i: int| 0 <= i < path.len() ==> 0 <= #[trigger] path[i] < n,
    ensures
        path.len() <= n,
{
    path.unique_seq_to_set();
    vstd::set_lib::lemma_int_range(0, n);
    let all = vstd::set_lib::set_int_range(0, n);
    assert(path.to_set().subset_of(all)) by {
        assert forall|x: int| path.to_set().contains(x) implies all.contains(x) by {
            let i = path.index_of(x);
            assert(path[i] == x);
        }
    }
    vstd::set_lib::lemma_len_subset(path.to_set(), all);
}

impl GcGraph {
    /// The state while orphans look for parents at time `now`: a vertex
    /// stamped `now` is known to be connected to its terminal.
    spec fn adopting(&self, now: int, lim: int) -> bool {
        &&& self.forest(now, lim)
        &&& 1 <= now
        &&& self.n() <= lim
        &&& forall|v: int|
            0 <= v < self.n() && #[trigger] self.ts@[v] == now ==> self.parent@[v] != Parent::Free
                && self.parent@[v] != Parent::Orphan && self.dist@[v] <= count_at(
                self.ts@,
                now,
                self.n(),
            )
    }

    /// Only labels changed, and only to the stamp `now`.
    spec fn only_stamped(&self, o: &GcGraph, now: int) -> bool {
        &&& self.same_network(o)
        &&& self.parent@ == o.parent@
        &&& self.sink@ == o.sink@
        &&& self.ts@.len() == o.ts@.len()
        &&& self.dist@.len() == o.dist@.len()
        &&& forall|v: int|
            0 <= v < o.n() ==> (#[trigger] self.ts@[v] == o.ts@[v] && self.dist@[v] == o.dist@[v])
                || (self.ts@[v] == now && o.ts@[v] != now)
    }

    /// Parents can be followed: each step leads nearer to the root.
    spec fn climbable(&self, now: int) -> bool {
        &&& self.shape()
        &&& forall|v: int| 0 <= v < self.n() ==> #[trigger] self.hung(v)
        &&& forall|v: int|
            0 <= v < self.n() ==> 0 <= #[trigger] self.ts@[v] <= now && (self.parent@[v]
                != Parent::Free ==> self.dist@[v] >= 1)
    }

    /// The distance from `u` to its terminal: what a vertex stamped `now` says
    /// of itself, and one more than its parent's for any other. `None` where
    /// an orphan lies between.
    spec fn root_way(&self, u: int, now: int) -> Option<int>
        decreases now - self.ts@[u], self.dist@[u],
        when self.climbable(now) && 0 <= u < self.n()
    {
        proof {
            assert(self.hung(u));
            if let Parent::Edge(e) = self.parent@[u] {
                self.lemma_arc(e as int);
                let w = self.dst@[e as int] as int;
                assert(0 <= self.ts@[w] <= now && 0 <= self.ts@[u] <= now);
            }
        }
        if self.ts@[u] == now {
            Some(self.dist@[u] as int)
        } else {
            match self.parent@[u] {
                Parent::Terminal => Some(1),
                Parent::Edge(e) => match self.root_way(self.dst@[e as int] as int, now) {
                    Some(d) => Some(d + 1),
                    None => None,
                },
                _ => None,
            }
        }
    }

    /// The way from `u` towards its terminal, up to the first vertex stamped
    /// `now`, leads over `x`.
    spec fn on_way(&self, u: int, x: int, now: int) -> bool
        decreases now - self.ts@[u], self.dist@[u],
        when self.climbable(now) && 0 <= u < self.n()
    {
        proof {
            assert(self.hung(u));
            if let Parent::Edge(e) = self.parent@[u] {
                self.lemma_arc(e as int);
                let w = self.dst@[e as int] as int;
                assert(0 <= self.ts@[w] <= now && 0 <= self.ts@[u] <= now);
            }
        }
        x == u || (self.ts@[u] != now && (self.parent@[u] matches Parent::Edge(e) && self.on_way(
            self.dst@[e as int] as int,
            x,
            now,
        )))
    }

    /// Vertex `x` carries the stamp `now` and the distance that `o` gives it.
    spec fn measured(&self, o: &GcGraph, x: int, now: int) -> bool {
        self.ts@[x] == now && o.root_way(x, now) == Some(self.dist@[x] as int)
    }

    /// The labels of vertex `x` are those of `o`.
    spec fn labelled_as(&self, o: &GcGraph, x: int) -> bool {
        self.ts@[x] == o.ts@[x] && self.dist@[x] == o.dist@[x]
    }

    /// What became of vertex `x` when the way from `u` was followed: measured,
    /// if the way leads over it and `arrived` at the terminal, else unchanged.
    spec fn traced(&self, o: &GcGraph, arrived: bool, u: int, x: int, now: int) -> bool {
        if arrived && o.on_way(u, x, now) {
            self.measured(o, x, now)
        } else {
            self.labelled_as(o, x)
        }
    }

    /// What became of vertex `x` when the ways over the adoptive arcs of `v`
    /// behind `low` were followed.
    spec fn surveyed(&self, o: &GcGraph, v: int, low: int, x: int, now: int) -> bool {
        if o.is_passed(v, low, x, now) {
            self.measured(o, x, now)
        } else {
            self.labelled_as(o, x)
        }
    }

    /// Arc `e` leads from the orphan `v` to a vertex of its tree that is
    /// connected to the terminal, and flow can pass it.
    spec fn is_adoptive(&self, e: int, v: int, now: int) -> bool {
        let u = self.dst@[e] as int;
        &&& self.is_arc(e)
        &&& self.src(e) == v
        &&& self.grow_cap(mate(e), self.sink@[v]) != 0
        &&& self.sink@[u] == self.sink@[v]
        &&& self.parent@[u] != Parent::Free
        &&& self.root_way(u, now) is Some
    }

    /// The way over one of the adoptive arcs of `v` behind `low` leads over
    /// `x`.
    spec fn is_passed(&self, v: int, low: int, x: int, now: int) -> bool {
        exists|e: int|
            #![trigger self.is_adoptive(e, v, now)]
            self.is_adoptive(e, v, now) && e > low && self.on_way(self.dst@[e] as int, x, now)
    }

    /// Of the adoptive arcs of `v` behind `low`, arc `e` gives `v` the least
    /// distance, `d`, and is the latest of those that do.
    spec fn is_least(&self, e: int, v: int, low: int, d: int, now: int) -> bool {
        &&& self.is_adoptive(e, v, now)
        &&& e > low
        &&& self.root_way(self.dst@[e] as int, now) == Some(d - 1)
        &&& forall|f: int| #[trigger]
            self.is_adoptive(f, v, now) && f > low ==> {
                let c = self.root_way(self.dst@[f] as int, now)->0;
                c > d - 1 || (c == d - 1 && f <= e)
            }
    }

    proof fn lemma_climbable(&self, now: int, lim: int)
        requires
            self.adopting(now, lim),
        ensures
            self.climbable(now),
    {
        assert forall|v: int| 0 <= v < self.n() implies 0 <= #[trigger] self.ts@[v] <= now && (
        self.parent@[v] != Parent::Free ==> self.dist@[v] >= 1) by {
            assert(self.label_ok(v, now, lim));
        }
    }

    /// A way from `path[i]`, followed to where it ends.
    proof fn lemma_path_way(&self, path: Seq<int>, now: int, i: int)
        requires
            self.climbable(now),
            0 <= i < path.len(),
            forall|q: int| 0 <= q < path.len() ==> 0 <= #[trigger] path[q] < self.n(),
            forall|q: int| 0 <= q < path.len() - 1 ==> #[trigger] self.step(path, q),
            forall|q: int| 0 <= q < path.len() - 1 ==> self.ts@[#[trigger] path[q]] < now,
            self.ts@[path.last()] == now || self.parent@[path.last()] !is Edge,
        ensures
            self.root_way(path[i], now) == match self.root_way(path.last(), now) {
                Some(d) => Some(d + path.len() - 1 - i),
                None => None::<int>,
            },
            forall|x: int| #[trigger]
                self.on_way(path[i], x, now) <==> exists|j: int|
                    i <= j < path.len() && #[trigger] path[j] == x,
        decreases path.len() - i,
    {
        if i < path.len() - 1 {
            self.lemma_path_way(path, now, i + 1);
            assert(self.step(path, i));
            assert(self.ts@[path[i]] < now);
            assert forall|x: int| #[trigger]
                self.on_way(path[i], x, now) <==> exists|j: int|
                    i <= j < path.len() && #[trigger] path[j] == x by {
                assert(self.on_way(path[i], x, now) <==> x == path[i] || self.on_way(
                    path[i + 1],
                    x,
                    now,
                ));
                if exists|j: int| i <= j < path.len() && #[trigger] path[j] == x {
                    let j = choose|j: int| i <= j < path.len() && #[trigger] path[j] == x;
                    if j > i {
                        assert(i + 1 <= j < path.len() && path[j] == x);
                    }
                }
            }
        } else {
            assert(path[i] == path.last());
            assert forall|x: int| #[trigger]
                self.on_way(path[i], x, now) <==> exists|j: int|
                    i <= j < path.len() && #[trigger] path[j] == x by {
                if x == path[i] {
                    assert(i <= i < path.len() && path[i] == x);
                }
            }
        }
    }

    /// Stamping vertices with their distances changes no distance.
    proof fn lemma_way_kept(&self, o: &GcGraph, u: int, now: int)
        requires
            o.climbable(now),
            self.climbable(now),
            self.same_arcs(o),
            self.parent@ == o.parent@,
            forall|x: int|
                0 <= x < o.n() ==> #[trigger] self.labelled_as(o, x) || self.measured(o, x, now),
            0 <= u < o.n(),
        ensures
            self.root_way(u, now) == o.root_way(u, now),
        decreases now - o.ts@[u], o.dist@[u],
    {
        assert(self.labelled_as(o, u) || self.measured(o, u, now));
        if self.ts@[u] != now && o.ts@[u] != now {
            if let Parent::Edge(e) = o.parent@[u] {
                assert(o.hung(u));
                o.lemma_arc(e as int);
                let w = o.dst@[e as int] as int;
                assert(0 <= o.ts@[w] <= now && 0 <= o.ts@[u] <= now);
                self.lemma_way_kept(o, w, now);
            }
        }
    }

    /// Once vertices have been stamped, a way ends at the first of them.
    proof fn lemma_way_cut(&self, o: &GcGraph, u: int, x: int, now: int) -> (w: int)
        requires
            o.climbable(now),
            self.climbable(now),
            self.same_arcs(o),
            self.parent@ == o.parent@,
            forall|y: int|
                0 <= y < o.n() ==> #[trigger] self.labelled_as(o, y) || self.measured(o, y, now),
            0 <= u < o.n(),
        ensures
            self.on_way(u, x, now) ==> o.on_way(u, x, now),
            o.on_way(u, x, now) && !self.on_way(u, x, now) ==> {
                &&& 0 <= w < o.n()
                &&& self.ts@[w] == now
                &&& o.ts@[w] != now
                &&& o.on_way(w, x, now)
            },
        decreases now - o.ts@[u], o.dist@[u],
    {
        assert(self.labelled_as(o, u) || self.measured(o, u, now));
        if self.ts@[u] != now && o.ts@[u] != now {
            if let Parent::Edge(e) = o.parent@[u] {
                assert(o.hung(u));
                o.lemma_arc(e as int);
                let w = o.dst@[e as int] as int;
                assert(0 <= o.ts@[w] <= now && 0 <= o.ts@[u] <= now);
                self.lemma_way_cut(o, w, x, now)
            } else {
                u
            }
        } else {
            u
        }
    }

    /// A way that leads over `w` goes on as the way from `w` does.
    proof fn lemma_way_on(&self, u: int, w: int, x: int, now: int)
        requires
            self.climbable(now),
            0 <= u < self.n(),
            0 <= w < self.n(),
            self.on_way(u, w, now),
            self.on_way(w, x, now),
        ensures
            self.on_way(u, x, now),
        decreases now - self.ts@[u], self.dist@[u],
    {
        if u != w {
            if let Parent::Edge(e) = self.parent@[u] {
                assert(self.hung(u));
                self.lemma_arc(e as int);
                let y = self.dst@[e as int] as int;
                assert(0 <= self.ts@[y] <= now && 0 <= self.ts@[u] <= now);
                self.lemma_way_on(y, w, x, now);
            }
        }
    }

    /// One more arc of `v` has been looked at: what its way leads over has been
    /// measured, too.
    proof fn lemma_passed(&self, s: &GcGraph, o: &GcGraph, v: int, e: int, low: int, x: int, now: int)
        requires
            o.climbable(now),
            s.climbable(now),
            s.same_arcs(o),
            s.parent@ == o.parent@,
            forall|y: int|
                0 <= y < o.n() ==> #[trigger] s.surveyed(o, v, e, y, now),
            o.is_arc(e),
            low < e,
            forall|f: int| #[trigger] o.is_adoptive(f, v, now) && f > low ==> f >= e,
            forall|y: int|
                0 <= y < o.n() ==> #[trigger] self.traced(
                    s,
                    o.is_adoptive(e, v, now),
                    o.dst@[e] as int,
                    y,
                    now,
                ),
            0 <= x < o.n(),
        ensures
            self.surveyed(o, v, low, x, now),
    {
        let u = o.dst@[e] as int;
        o.lemma_arc(e);
        assert forall|y: int| 0 <= y < o.n() implies #[trigger] s.labelled_as(o, y) || s.measured(
            o,
            y,
            now,
        ) by {
            assert(s.surveyed(o, v, e, y, now));
        }
        s.lemma_way_kept(o, x, now);
        let w = s.lemma_way_cut(o, u, x, now);
        assert(s.surveyed(o, v, e, x, now));
        assert(self.traced(s, o.is_adoptive(e, v, now), u, x, now));
        if o.is_passed(v, e, x, now) {
            let f = choose|f: int|
                #![trigger o.is_adoptive(f, v, now)]
                o.is_adoptive(f, v, now) && f > e && o.on_way(o.dst@[f] as int, x, now);
            assert(o.is_adoptive(f, v, now) && f > low);
            assert(o.is_passed(v, low, x, now));
        } else {
            if o.is_adoptive(e, v, now) && o.on_way(u, x, now) && !s.on_way(u, x, now) {
                assert(s.surveyed(o, v, e, w, now));
                assert(o.is_passed(v, e, w, now));
                let f = choose|f: int|
                    #![trigger o.is_adoptive(f, v, now)]
                    o.is_adoptive(f, v, now) && f > e && o.on_way(o.dst@[f] as int, w, now);
                o.lemma_arc(f);
                o.lemma_way_on(o.dst@[f] as int, w, x, now);
                assert(o.is_passed(v, e, x, now));
            }
            if o.is_passed(v, low, x, now) {
                let f = choose|f: int|
                    #![trigger o.is_adoptive(f, v, now)]
                    o.is_adoptive(f, v, now) && f > low && o.on_way(o.dst@[f] as int, x, now);
                assert(f >= e);
                assert(f == e);
            }
        }
    }

    /// The number of arcs from `u0` to its terminal, or `None` if an orphan
    /// lies between. Stamps the way, so that it is walked once.
    #[verifier::spinoff_prover]
    #[verifier::rlimit(40)]
    fn root_distance(&mut self, u0: usize, now: i64, Ghost(lim): Ghost<int>) -> (r: Option<i128>)
        requires
            old(self).adopting(now as int, lim),
            u0 < old(self).n(),
            old(self).parent@[u0 as int] != Parent::Free,
            lim < 0x6000_0000_0000_0000_0000_0000_0000_0000,
        ensures
            final(self).adopting(now as int, lim),
            final(self).only_stamped(old(self), now as int),
            match r {
                Some(d) => old(self).root_way(u0 as int, now as int) == Some(d as int),
                None => old(self).root_way(u0 as int, now as int) is None,
            },
            forall|x: int|
                0 <= x < old(self).n() ==> #[trigger] final(self).traced(
                    old(self),
                    r is Some,
                    u0 as int,
                    x,
                    now as int,
                ),
    {
        proof {
            self.lemma_climbable(now as int, lim);
        }
        let mut u: usize = u0;
        let mut hops: i128 = 0;
        let ghost mut path: Seq<int> = seq![u0 as int];
        loop
            invariant
                self.adopting(now as int, lim),
                *self == *old(self),
                u < self.n(),
                path.len() > 0,
                path[0] == u0,
                path.last() == u,
                self.parent@[u as int] != Parent::Free,
                hops == path.len() - 1,
                hops <= i32::MAX,
                forall|i: int| 0 <= i < path.len() ==> 0 <= #[trigger] path[i] < self.n(),
                forall|i: int| 0 <= i < path.len() - 1 ==> #[trigger] self.step(path, i),
                forall|i: int| 0 <= i < path.len() - 1 ==> self.ts@[#[trigger] path[i]] < now,
            ensures
                self.ts@[u as int] == now || self.parent@[u as int] == Parent::Terminal
                    || self.parent@[u as int] == Parent::Orphan,
            decreases now - self.ts@[u as int], self.dist@[u as int],
        {
            if self.ts[u] == now {
                break;
            }
            assert(self.hung(u as int));
            assert(self.label_ok(u as int, now as int, lim));
            match self.parent[u] {
                Parent::Edge(e) => {
                    proof {
                        self.lemma_arc(e as int);
                    }
                    let ghost before = path;
                    u = self.dst[e];
                    assert(self.label_ok(u as int, now as int, lim));
                    proof {
                        path = path.push(u as int);
                        assert forall|i: int| 0 <= i < path.len() - 1 implies #[trigger] self.step(path, i) by {
                            if i < before.len() - 1 {
                                assert(self.step(before, i));
                            }
                        }
                        assert forall|i: int| 0 <= i < path.len() - 1 implies self.ts@[#[trigger] path[i]] < now by {
                            if i < before.len() - 1 {
                                assert(self.ts@[before[i]] < now);
                            }
                        }
                        assert forall|a: int, b: int| 0 <= a < b < path.len() implies path[a] != path[b] by {
                            self.lemma_path_above(path, now as int, lim, a, b);
                        }
                        lemma_distinct_len(path, self.n());
                    }
                    hops = hops + 1;
                },
                _ => {
                    break;
                },
            }
        }
        let ghost h = path.len() - 1;
        proof {
            assert forall|a: int, b: int| 0 <= a < b < path.len() implies path[a] != path[b] by {
                self.lemma_path_above(path, now as int, lim, a, b);
            }
            assert(self.root_ok(u as int));
            assert(self.label_ok(u as int, now as int, lim));
            assert forall|i: int| 0 <= i < path.len() implies self.root_way(
                #[trigger] path[i],
                now as int,
            ) == match self.root_way(u as int, now as int) {
                Some(d) => Some(d + path.len() - 1 - i),
                None => None::<int>,
            } by {
                self.lemma_path_way(path, now as int, i);
            }
            self.lemma_path_way(path, now as int, 0);
        }
        if self.ts[u] != now {
            if self.parent[u] == Parent::Orphan {
                return None;
            }
            let ghost s0 = *self;
            self.ts[u] = now;
            self.dist[u] = 1;
            proof {
                self.lemma_wf_kept(&s0);
                lemma_count_at_update(s0.ts@, now as int, u as int, now, s0.n());
                assert(self.ts@ =~= s0.ts@.update(u as int, now));
                assert(self.dist@ =~= s0.dist@);
                lemma_count_at_bounds(s0.ts@, now as int, s0.n());
                assert forall|x: int| 0 <= x < self.n() implies #[trigger] self.hung(x) by {
                    assert(s0.hung(x));
                    assert(s0.label_ok(x, now as int, lim));
                }
                assert forall|x: int| 0 <= x < self.n() implies #[trigger] self.root_ok(x) by {
                    assert(s0.root_ok(x));
                }
                assert forall|x: int| 0 <= x < self.n() implies #[trigger] self.label_ok(x, now as int, lim) by {
                    assert(s0.label_ok(x, now as int, lim));
                }
                assert forall|i: int| 0 <= i < path.len() - 1 implies #[trigger] self.step(path, i) by {
                    assert(s0.step(path, i));
                }
            }
        }
        let ghost s1 = *self;
        assert(self.label_ok(u as int, now as int, lim));
        let d: i128 = hops + self.dist[u];
        let mut w: usize = u0;
        let mut left: i128 = d;
        let ghost mut i: int = 0;
        proof {
            lemma_count_at_bounds(s1.ts@, now as int, s1.n());
            if h > 0 {
                assert(s1.ts@[path[0]] < now);
            }
        }
        while self.ts[w] != now
            invariant
                s1.adopting(now as int, lim),
                self.same_network(&s1),
                self.parent@ == s1.parent@,
                self.sink@ == s1.sink@,
                self.ts@.len() == s1.n(),
                self.dist@.len() == s1.n(),
                0 <= i <= h,
                h == path.len() - 1,
                w < s1.n(),
                w == path[i],
                left == d - i,
                h <= i32::MAX,
                d == h + s1.dist@[path[h]],
                d < 0x7000_0000_0000_0000_0000_0000_0000_0000,
                1 <= s1.dist@[path[h]],
                s1.ts@[path[h]] == now,
                i < h ==> self.ts@[w as int] < now,
                forall|j: int| 0 <= j < path.len() ==> 0 <= #[trigger] path[j] < s1.n(),
                forall|j: int| 0 <= j < h ==> #[trigger] s1.step(path, j),
                forall|j: int| 0 <= j < h ==> s1.ts@[#[trigger] path[j]] < now,
                forall|a: int, b: int| 0 <= a < b < path.len() ==> path[a] != path[b],
                forall|j: int|
                    0 <= j < i ==> self.ts@[#[trigger] path[j]] == now && self.dist@[path[j]] == d - j,
                forall|x: int|
                    0 <= x < s1.n() && !path.take(i).contains(x) ==> #[trigger] self.ts@[x] == s1.ts@[x]
                        && self.dist@[x] == s1.dist@[x],
                count_at(self.ts@, now as int, s1.n()) == count_at(s1.ts@, now as int, s1.n()) + i,
            decreases h - i,
        {
            let ghost s2 = *self;
            proof {
                assert(i < h) by {
                    if i == h {
                        assert(!path.take(i).contains(w as int));
                    }
                }
                assert(s1.step(path, i));
                assert(s1.hung(path[i]));
            }
            self.ts[w] = now;
            self.dist[w] = left;
            left = left - 1;
            if let Parent::Edge(e) = self.parent[w] {
                proof {
                    s1.lemma_arc(e as int);
                }
                w = self.dst[e];
            }
            proof {
                lemma_count_at_update(s2.ts@, now as int, path[i], now, s1.n());
                assert(self.ts@ =~= s2.ts@.update(path[i], now));
                assert forall|x: int| 0 <= x < s1.n() && !path.take(i + 1).contains(x) implies #[trigger] self.ts@[x]
                    == s1.ts@[x] && self.dist@[x] == s1.dist@[x] by {
                    assert(path.take(i + 1)[i] == path[i]);
                    if path.take(i).contains(x) {
                        let q = path.take(i).index_of(x);
                        assert(path.take(i + 1)[q] == x);
                    }
                    assert(s2.ts@[x] == s1.ts@[x]);
                }
                assert forall|j: int| 0 <= j < i + 1 implies self.ts@[#[trigger] path[j]] == now
                    && self.dist@[path[j]] == d - j by {
                    if j < i {
                        assert(s2.ts@[path[j]] == now);
                    }
                }
                assert(!path.take(i).contains(path[i + 1])) by {
                    if path.take(i).contains(path[i + 1]) {
                        let q = path.take(i).index_of(path[i + 1]);
                        assert(path[q] == path[i + 1]);
                    }
                }
                if i + 1 < h {
                    assert(s1.ts@[path[i + 1]] < now);
                    assert(s2.ts@[path[i + 1]] < now);
                }
                i = i + 1;
            }
        }
        proof {
            assert(i == h);
            let ghost b = *self;
            b.lemma_wf_kept(&s1);
            lemma_count_at_bounds(b.ts@, now as int, b.n());
            assert forall|x: int| 0 <= x < b.n() implies path.take(h).contains(x) || (#[trigger] b.ts@[x]
                == s1.ts@[x] && b.dist@[x] == s1.dist@[x]) by {}
            assert forall|x: int| path.take(h).contains(x) implies exists|j: int|
                0 <= j < h && #[trigger] path[j] == x by {
                let q = path.take(h).index_of(x);
                assert(path[q] == x);
            }
            assert(!path.take(h).contains(path[h])) by {
                if path.take(h).contains(path[h]) {
                    let q = path.take(h).index_of(path[h]);
                    assert(path[q] == path[h]);
                }
            }
            assert(b.ts@[path[h]] == now && b.dist@[path[h]] == d - h);
            assert forall|x: int| 0 <= x < b.n() implies #[trigger] b.hung(x) by {
                assert(s1.hung(x));
                if let Parent::Edge(e) = b.parent@[x] {
                    s1.lemma_arc(e as int);
                    let y = b.dst@[e as int] as int;
                    assert(s1.label_ok(y, now as int, lim));
                    assert(s1.label_ok(x, now as int, lim));
                    if path.take(h).contains(x) {
                        let j = path.take(h).index_of(x);
                        assert(path[j] == x);
                        assert(s1.step(path, j));
                        assert(y == path[j + 1]);
                        assert(b.ts@[path[j]] == now);
                        if j + 1 < h {
                            assert(b.ts@[path[j + 1]] == now);
                        }
                    } else {
                        assert(b.ts@[x] == s1.ts@[x]);
                        if path.take(h).contains(y) {
                            let j = path.take(h).index_of(y);
                            assert(path[j] == y);
                            assert(b.ts@[path[j]] == now);
                            assert(s1.ts@[path[j]] < now);
                        } else {
                            assert(b.ts@[y] == s1.ts@[y]);
                        }
                    }
                }
            }
            assert forall|x: int| 0 <= x < b.n() implies #[trigger] b.root_ok(x) by {
                assert(s1.root_ok(x));
                if path.take(h).contains(x) {
                    let j = path.take(h).index_of(x);
                    assert(path[j] == x);
                    assert(s1.step(path, j));
                } else {
                    assert(b.ts@[x] == s1.ts@[x]);
                }
            }
            assert(d <= count_at(b.ts@, now as int, b.n()));
            assert forall|x: int| 0 <= x < b.n() implies #[trigger] b.label_ok(x, now as int, lim) by {
                assert(s1.label_ok(x, now as int, lim));
                if path.take(h).contains(x) {
                    let j = path.take(h).index_of(x);
                    assert(path[j] == x);
                    assert(b.ts@[path[j]] == now);
                } else {
                    assert(b.ts@[x] == s1.ts@[x]);
                }
            }
            assert forall|x: int| 0 <= x < b.n() && #[trigger] b.ts@[x] == now implies b.parent@[x]
                != Parent::Free && b.parent@[x] != Parent::Orphan && b.dist@[x] <= count_at(
                b.ts@,
                now as int,
                b.n(),
            ) by {
                if path.take(h).contains(x) {
                    let j = path.take(h).index_of(x);
                    assert(path[j] == x);
                    assert(s1.step(path, j));
                    assert(b.ts@[path[j]] == now);
                } else {
                    assert(b.ts@[x] == s1.ts@[x]);
                    assert(s1.ts@[x] == now);
                }
            }
            assert forall|x: int| 0 <= x < old(self).n() implies (#[trigger] b.ts@[x] == old(self).ts@[x]
                && b.dist@[x] == old(self).dist@[x]) || (b.ts@[x] == now && old(self).ts@[x] != now) by {
                if path.take(h).contains(x) {
                    let j = path.take(h).index_of(x);
                    assert(path[j] == x);
                    assert(b.ts@[path[j]] == now);
                    assert(s1.ts@[path[j]] < now);
                } else {
                    assert(b.ts@[x] == s1.ts@[x]);
                }
            }
            assert(old(self).root_way(path[0], now as int) == Some(d as int));
            assert forall|x: int| 0 <= x < old(self).n() implies #[trigger] b.traced(
                old(self),
                true,
                u0 as int,
                x,
                now as int,
            ) by {
                if old(self).on_way(u0 as int, x, now as int) {
                    let j = choose|j: int| 0 <= j < path.len() && #[trigger] path[j] == x;
                    assert(old(self).root_way(path[j], now as int) == Some(d - j));
                    if j < h {
                        assert(b.ts@[path[j]] == now);
                    }
                } else {
                    if path.take(h).contains(x) {
                        let q = path.take(h).index_of(x);
                        assert(path[q] == x);
                    }
                    assert(path[h] != x);
                    assert(b.ts@[x] == s1.ts@[x]);
                }
            }
        }
        Some(d)
    }

    /// The arc from the orphan `v` to its nearest possible parent, with the
    /// distance from its terminal that it would give `v`; arc 0 if none.
    #[verifier::spinoff_prover]
    fn find_parent(&mut self, v: usize, now: i64, Ghost(lim): Ghost<int>) -> (r: (usize, i128))
        requires
            old(self).adopting(now as int, lim),
            v < old(self).n(),
            old(self).parent@[v as int] == Parent::Orphan,
            lim < 0x6000_0000_0000_0000_0000_0000_0000_0000,
        ensures
            final(self).adopting(now as int, lim),
            final(self).only_stamped(old(self), now as int),
            // No arc is given only where there is none to choose.
            r.0 == 0 ==> r.1 == i128::MAX && forall|e: int| !#[trigger]
                old(self).is_adoptive(e, v as int, now as int),
            // Else it leads to the nearest; the latest arc wins a tie.
            r.0 != 0 ==> old(self).is_least(r.0 as int, v as int, 0, r.1 as int, now as int),
            // The ways to all of them have been measured.
            forall|x: int|
                0 <= x < old(self).n() ==> #[trigger] final(self).surveyed(
                    old(self),
                    v as int,
                    0,
                    x,
                    now as int,
                ),
    {
        proof {
            self.lemma_climbable(now as int, lim);
        }
        let k: bool = self.sink[v];
        let mut best: usize = 0;
        let mut least: i128 = i128::MAX;
        let mut ei: usize = self.first[v];
        proof {
            assert(self.head_ok(v as int));
            assert forall|e: int| #[trigger] self.is_adoptive(e, v as int, now as int) implies e
                <= ei by {
                assert(self.is_arc(e));
            }
        }
        while ei != 0
            invariant
                old(self).climbable(now as int),
                self.adopting(now as int, lim),
                self.only_stamped(old(self), now as int),
                v < self.n(),
                self.parent@[v as int] == Parent::Orphan,
                self.sink@[v as int] == k,
                lim < 0x6000_0000_0000_0000_0000_0000_0000_0000,
                ei != 0 ==> self.is_arc(ei as int) && self.src(ei as int) == v,
                best == 0 ==> least == i128::MAX && forall|e: int| #[trigger]
                    old(self).is_adoptive(e, v as int, now as int) ==> e <= ei,
                best != 0 ==> old(self).is_least(
                    best as int,
                    v as int,
                    ei as int,
                    least as int,
                    now as int,
                ),
                forall|x: int|
                    0 <= x < old(self).n() ==> #[trigger] self.surveyed(
                        old(self),
                        v as int,
                        ei as int,
                        x,
                        now as int,
                    ),
            decreases ei,
        {
            let ghost s0 = *self;
            let ghost e1 = ei as int;
            proof {
                self.lemma_arc(ei as int);
                self.lemma_climbable(now as int, lim);
                assert forall|x: int| 0 <= x < old(self).n() implies #[trigger] self.labelled_as(
                    old(self),
                    x,
                ) || self.measured(old(self), x, now as int) by {
                    assert(self.surveyed(old(self), v as int, e1, x, now as int));
                }
            }
            let ghost mut found = false;
            let back: usize = if k { ei } else { mate_of(ei) };
            let u: usize = self.dst[ei];
            if self.cap[back] != 0 && self.sink[u] == k && self.parent[u] != Parent::Free {
                proof {
                    s0.lemma_way_kept(old(self), u as int, now as int);
                }
                match self.root_distance(u, now, Ghost(lim)) {
                    Some(d) => {
                        proof {
                            found = true;
                        }
                        assert(old(self).is_adoptive(e1, v as int, now as int));
                        assert(s0.on_way(u as int, u as int, now as int));
                        assert(self.traced(&s0, true, u as int, u as int, now as int));
                        assert(self.label_ok(u as int, now as int, lim));
                        if best == 0 || d + 1 < least {
                            least = d + 1;
                            best = ei;
                        }
                    },
                    None => {},
                }
                proof {
                    assert forall|x: int| 0 <= x < old(self).n() implies (#[trigger] self.ts@[x]
                        == old(self).ts@[x] && self.dist@[x] == old(self).dist@[x]) || (
                    self.ts@[x] == now && old(self).ts@[x] != now) by {
                        assert(s0.ts@[x] == s0.ts@[x]);
                    }
                }
            }
            proof {
                self.lemma_arc(ei as int);
            }
            ei = self.enext[ei];
            proof {
                // Behind the next arc of the list lie those seen before and `e1`.
                assert forall|f: int| #[trigger]
                    old(self).is_adoptive(f, v as int, now as int) && f > ei implies f >= e1 by {
                    assert(self.list_ok(e1, f));
                }
                assert(found == old(self).is_adoptive(e1, v as int, now as int));
                assert forall|y: int| 0 <= y < old(self).n() implies #[trigger] self.traced(
                    &s0,
                    found,
                    u as int,
                    y,
                    now as int,
                ) by {}
                assert forall|x: int| 0 <= x < old(self).n() implies #[trigger] self.surveyed(
                    old(self),
                    v as int,
                    ei as int,
                    x,
                    now as int,
                ) by {
                    self.lemma_passed(
                        &s0,
                        old(self),
                        v as int,
                        e1,
                        ei as int,
                        x,
                        now as int,
                    );
                }
            }
        }
        (best, least)
    }

    /// Takes the orphan `v` out of its tree: its children become orphans, and
    /// the neighbours that could grow back into it become active.
    #[verifier::spinoff_prover]
    #[verifier::rlimit(40)]
    fn release(
        &mut self,
        v: usize,
        active: &mut VecDeque<usize>,
        queued: &mut Vec<bool>,
        orphans: &mut Vec<usize>,
        Ghost(now): Ghost<int>,
        Ghost(lim): Ghost<int>,
    )
        requires
            old(self).adopting(now, lim),
            v < old(self).n(),
            old(self).parent@[v as int] == Parent::Orphan,
            old(self).orphans_ok(old(orphans)@.push(v)),
            old(self).all_settled(old(queued)@),
            old(self).queue_ok(old(active)@, old(queued)@),
        ensures
            final(self).adopting(now, lim),
            final(self).same_network(old(self)),
            final(self).orphans_ok(final(orphans)@),
            final(self).all_settled(final(queued)@),
            final(self).queue_ok(final(active)@, final(queued)@),
            final(self).n() == old(self).n(),
            count_free(final(self).parent@, old(self).n()) == count_free(
                old(self).parent@,
                old(self).n(),
            ) + 1,
    {
        let k: bool = self.sink[v];
        let ghost s0 = *self;
        let ghost orp0 = orphans@;
        let ghost que0 = queued@;
        proof {
            assert(self.label_ok(v as int, now, lim));
            assert(orp0.push(v)[orp0.len() as int] == v);
        }
        self.parent[v] = Parent::Free;
        self.ts[v] = 0;
        let mut ei: usize = self.first[v];
        proof {
            lemma_count_free_update(s0.parent@, v as int, Parent::Free, s0.n());
            assert(self.parent@ =~= s0.parent@.update(v as int, Parent::Free));
            lemma_count_at_update(s0.ts@, now, v as int, 0, s0.n());
            assert(self.ts@ =~= s0.ts@.update(v as int, 0));
            assert(s0.ts@[v as int] != now);
            self.lemma_wf_kept(&s0);
            assert(s0.head_ok(v as int));
            assert(s0.root_ok(v as int));
            assert forall|x: int| 0 <= x < self.n() implies #[trigger] self.root_ok(x) by {
                assert(s0.root_ok(x));
            }
            assert forall|x: int| 0 <= x < self.n() implies #[trigger] self.label_ok(x, now, lim) by {
                assert(s0.label_ok(x, now, lim));
            }
            assert forall|x: int|
                0 <= x < self.n() && !(self.parent@[x] matches Parent::Edge(e) && self.dst@[e as int] == v
                    && mate(e as int) <= ei) implies #[trigger] self.hung(x) by {
                assert(s0.hung(x));
                if let Parent::Edge(e) = self.parent@[x] {
                    s0.lemma_arc(e as int);
                    if self.dst@[e as int] == v {
                        assert(s0.is_arc(mate(e as int)));
                    }
                }
            }
            assert forall|x: int|
                0 <= x < self.n() && (self.parent@[x] matches Parent::Edge(e) && self.dst@[e as int] == v) implies #[trigger] s0.hung(
                x,
            ) by {}
            assert forall|e: int|
                self.is_arc(e) && !(self.dst@[e] == v && mate(e) <= ei) implies #[trigger] self.settled(
                e,
                queued@,
            ) by {
                s0.lemma_arc(e);
                assert(s0.settled(e, queued@));
                if self.dst@[e] == v {
                    assert(s0.is_arc(mate(e)));
                }
            }
            assert(self.orphans_ok(orphans@)) by {
                let all = orp0.push(v);
                assert forall|i: int| 0 <= i < orp0.len() implies #[trigger] orp0[i] < self.n()
                    && self.parent@[orp0[i] as int] == Parent::Orphan by {
                    assert(all[i] == orp0[i]);
                    assert(all[orp0.len() as int] == v);
                }
                assert forall|a: int, b: int| 0 <= a < b < orp0.len() implies orp0[a] != orp0[b] by {
                    assert(all[a] == orp0[a]);
                    assert(all[b] == orp0[b]);
                }
                assert forall|x: int| 0 <= x < self.n() && #[trigger] self.parent@[x] == Parent::Orphan implies orp0.contains(
                    x as usize,
                ) by {
                    assert(s0.parent@[x] == Parent::Orphan);
                    let q = all.index_of(x as usize);
                    assert(all.contains(x as usize));
                    assert(all[q] == x);
                    assert(orp0[q] == x);
                }
            }
        }
        while ei != 0
            invariant
                s0.adopting(now, lim),
                self.same_network(&s0),
                self.wf(),
                self.sink@ == s0.sink@,
                self.dist@ == s0.dist@,
                self.ts@ == s0.ts@.update(v as int, 0),
                s0.ts@[v as int] < now,
                count_at(self.ts@, now, self.n()) == count_at(s0.ts@, now, s0.n()),
                count_free(self.parent@, self.n()) == count_free(s0.parent@, s0.n()) + 1,
                v < self.n(),
                s0.parent@[v as int] == Parent::Orphan,
                self.parent@[v as int] == Parent::Free,
                self.sink@[v as int] == k,
                ei != 0 ==> self.is_arc(ei as int) && self.src(ei as int) == v,
                forall|x: int| 0 <= x < self.n() ==> #[trigger] self.root_ok(x),
                forall|x: int| 0 <= x < self.n() ==> #[trigger] self.label_ok(x, now, lim),
                forall|x: int|
                    0 <= x < self.n() && x != v ==> #[trigger] self.parent@[x] == s0.parent@[x] || (
                    self.parent@[x] == Parent::Orphan && (s0.parent@[x] matches Parent::Edge(e)
                        && s0.dst@[e as int] == v)),
                forall|x: int|
                    0 <= x < self.n() && !(self.parent@[x] matches Parent::Edge(e)
                        && self.dst@[e as int] == v && mate(e as int) <= ei) ==> #[trigger] self.hung(x),
                forall|e: int|
                    self.is_arc(e) && !(self.dst@[e] == v && mate(e) <= ei)
                        ==> #[trigger] self.settled(e, queued@),
                self.queue_ok(active@, queued@),
                self.orphans_ok(orphans@),
                s0.all_settled(que0),
                que0.len() == s0.n(),
                forall|w: int| 0 <= w < s0.n() && que0[w] ==> #[trigger] queued@[w],
            decreases ei,
        {
            proof {
                self.lemma_arc(ei as int);
            }
            let ghost s1 = *self;
            let ghost q0 = queued@;
            let ghost a0 = active@;
            let ghost orp1 = orphans@;
            let ghost e1 = ei as int;
            let u: usize = self.dst[ei];
            let back: usize = if k { ei } else { mate_of(ei) };
            if self.sink[u] == k && self.parent[u] != Parent::Free {
                if self.cap[back] != 0 && !queued[u] {
                    queued[u] = true;
                    active.push_back(u);
                }
                if let Parent::Edge(ej) = self.parent[u] {
                    proof {
                        assert(s0.hung(u as int));
                        s0.lemma_arc(ej as int);
                    }
                    if self.dst[ej] == v {
                        orphans.push(u);
                        self.parent[u] = Parent::Orphan;
                    }
                }
            }
            proof {
                assert(self.arc_ok(ei as int)) by {
                    s1.lemma_arc(ei as int);
                    self.lemma_wf_kept(&s1);
                    self.lemma_arc(ei as int);
                }
            }
            ei = self.enext[ei];
            proof {
                self.lemma_wf_kept(&s1);
                lemma_count_free_update(s1.parent@, u as int, self.parent@[u as int], s1.n());
                assert(self.parent@ =~= s1.parent@.update(u as int, self.parent@[u as int]));
                assert forall|x: int| 0 <= x < self.n() implies #[trigger] self.root_ok(x) by {
                    assert(s1.root_ok(x));
                }
                assert forall|x: int| 0 <= x < self.n() implies #[trigger] self.label_ok(x, now, lim) by {
                    assert(s1.label_ok(x, now, lim));
                }
                assert forall|x: int|
                    0 <= x < self.n() && x != v implies #[trigger] self.parent@[x] == s0.parent@[x] || (
                self.parent@[x] == Parent::Orphan && (s0.parent@[x] matches Parent::Edge(e)
                    && s0.dst@[e as int] == v)) by {
                    assert(s1.parent@[x] == s1.parent@[x]);
                }
                assert forall|x: int|
                    0 <= x < self.n() && !(self.parent@[x] matches Parent::Edge(e) && self.dst@[e as int]
                        == v && mate(e as int) <= ei) implies #[trigger] self.hung(x) by {
                    assert(s0.hung(x));
                    if let Parent::Edge(e) = self.parent@[x] {
                        assert(s1.parent@[x] == self.parent@[x]);
                        assert(s0.parent@[x] == self.parent@[x]);
                        s0.lemma_arc(e as int);
                        if self.dst@[e as int] == v {
                            assert(self.list_ok(e1, mate(e as int)));
                            assert(mate(e as int) != e1);
                            assert(mate(e as int) > e1);
                        }
                        assert(s1.hung(x));
                    }
                }
                assert forall|e: int| self.is_arc(e) && !(self.dst@[e] == v && mate(e) <= ei) implies #[trigger] self.settled(
                    e,
                    queued@,
                ) by {
                    s0.lemma_arc(e);
                    if self.dst@[e] == v {
                        assert(self.list_ok(e1, mate(e)));
                        if mate(e) > e1 {
                            assert(s1.settled(e, q0));
                        } else {
                            assert(mate(e) == e1);
                            assert(s0.settled(e, que0));
                            assert(self.src(e) == u);
                            assert(self.parent@[u as int] != Parent::Free ==> s0.parent@[u as int] != Parent::Free);
                        }
                    } else {
                        assert(s1.settled(e, q0));
                    }
                }
                assert forall|w: int| 0 <= w < self.n() && #[trigger] queued@[w] implies active@.contains(
                    w as usize,
                ) by {
                    if q0[w] {
                        let i = a0.index_of(w as usize);
                        assert(a0.contains(w as usize));
                        assert(active@[i] == w);
                    } else {
                        assert(active@[active@.len() - 1] == w);
                    }
                }
                assert(self.orphans_ok(orphans@)) by {
                    assert forall|x: int| 0 <= x < self.n() && #[trigger] self.parent@[x] == Parent::Orphan implies orphans@.contains(
                        x as usize,
                    ) by {
                        if s1.parent@[x] == Parent::Orphan {
                            let q = orp1.index_of(x as usize);
                            assert(orp1.contains(x as usize));
                            assert(orphans@[q] == x);
                        } else {
                            assert(orphans@[orphans@.len() - 1] == x);
                        }
                    }
                    if s1.parent@[u as int] != Parent::Orphan {
                        assert(!orp1.contains(u));
                    }
                    assert(orphans@.no_duplicates());
                }
            }
        }
        proof {
            assert forall|x: int| 0 <= x < self.n() implies #[trigger] self.hung(x) by {
                if let Parent::Edge(e) = self.parent@[x] {
                    if self.dst@[e as int] == v {
                        assert(s0.parent@[x] == self.parent@[x]);
                        assert(s0.hung(x));
                        s0.lemma_arc(e as int);
                        assert(mate(e as int) > 0);
                    }
                }
            }
            assert forall|e: int| self.is_arc(e) implies #[trigger] self.settled(e, queued@) by {
                self.lemma_arc(e);
                assert(mate(e) > 0);
            }
            assert forall|x: int| 0 <= x < self.n() && #[trigger] self.ts@[x] == now implies self.parent@[x]
                != Parent::Free && self.parent@[x] != Parent::Orphan && self.dist@[x] <= count_at(
                self.ts@,
                now,
                self.n(),
            ) by {
                assert(x != v);
                assert(s0.ts@[x] == now);
                assert(self.parent@[x] == self.parent@[x]);
                if let Parent::Edge(e) = s0.parent@[x] {
                    assert(s0.hung(x));
                    if s0.dst@[e as int] == v {
                        assert(s0.above(v as int, x));
                    }
                }
            }
        }
    }

    /// Finds each orphan a new parent in its tree, or releases it.
    #[verifier::spinoff_prover]
    fn adopt(
        &mut self,
        active: &mut VecDeque<usize>,
        queued: &mut Vec<bool>,
        orphans: &mut Vec<usize>,
        now: i64,
        Ghost(lim): Ghost<int>,
    )
        requires
            old(self).adopting(now as int, lim),
            lim < 0x6000_0000_0000_0000_0000_0000_0000_0000,
            old(self).orphans_ok(old(orphans)@),
            old(self).all_settled(old(queued)@),
            old(self).queue_ok(old(active)@, old(queued)@),
        ensures
            final(self).forest(now as int, lim),
            final(self).same_network(old(self)),
            final(self).no_orphans(),
            final(orphans)@.len() == 0,
            final(self).all_settled(final(queued)@),
            final(self).queue_ok(final(active)@, final(queued)@),
    {
        while orphans.len() > 0
            invariant
                self.adopting(now as int, lim),
                self.same_network(old(self)),
                lim < 0x6000_0000_0000_0000_0000_0000_0000_0000,
                self.orphans_ok(orphans@),
                self.all_settled(queued@),
                self.queue_ok(active@, queued@),
            decreases self.n() - count_free(self.parent@, self.n()), orphans@.len(),
        {
            let ghost s0 = *self;
            let ghost orp0 = orphans@;
            if let Some(v) = orphans.pop() {
                proof {
                    lemma_count_free_bounds(s0.parent@, s0.n());
                    assert(orp0[orp0.len() - 1] == v);
                    assert(orphans@.push(v) =~= orp0);
                }
                let (e, d): (usize, i128) = self.find_parent(v, now, Ghost(lim));
                let ghost s1 = *self;
                proof {
                    assert forall|f: int| s1.is_arc(f) implies #[trigger] s1.settled(f, queued@) by {
                        assert(s0.settled(f, queued@));
                    }
                    assert(s1.orphans_ok(orp0)) by {
                        assert forall|x: int|
                            0 <= x < s1.n() && #[trigger] s1.parent@[x] == Parent::Orphan implies orp0.contains(
                            x as usize,
                        ) by {
                            assert(s0.parent@[x] == Parent::Orphan);
                        }
                    }
                    assert(s1.ts@[v as int] != now);
                    s0.lemma_climbable(now as int, lim);
                    if e != 0 {
                        s0.lemma_arc(e as int);
                        let u = s0.dst@[e as int] as int;
                        assert(s0.is_adoptive(e as int, v as int, now as int));
                        assert(s0.on_way(u, u, now as int));
                        assert(s0.is_passed(v as int, 0, u, now as int));
                        assert(s1.surveyed(&s0, v as int, 0, u, now as int));
                    }
                }
                if e != 0 {
                    self.parent[v] = Parent::Edge(e);
                    self.ts[v] = now;
                    self.dist[v] = d;
                    proof {
                        let ghost b = *self;
                        s1.lemma_arc(e as int);
                        b.lemma_wf_kept(&s1);
                        lemma_count_free_update(s1.parent@, v as int, Parent::Edge(e), s1.n());
                        assert(b.parent@ =~= s1.parent@.update(v as int, Parent::Edge(e)));
                        lemma_count_at_update(s1.ts@, now as int, v as int, now, s1.n());
                        assert(b.ts@ =~= s1.ts@.update(v as int, now));
                        lemma_count_at_bounds(b.ts@, now as int, b.n());
                        let u = s1.dst@[e as int] as int;
                        assert(s1.ts@[u] == now);
                        assert(s1.label_ok(v as int, now as int, lim));
                        assert(s1.label_ok(u, now as int, lim));
                        assert forall|x: int| 0 <= x < b.n() implies #[trigger] b.hung(x) by {
                            assert(s1.hung(x));
                            assert(s1.label_ok(x, now as int, lim));
                        }
                        assert(s1.root_ok(v as int));
                        assert forall|x: int| 0 <= x < b.n() implies #[trigger] b.root_ok(x) by {
                            assert(s1.root_ok(x));
                        }
                        assert forall|x: int| 0 <= x < b.n() implies #[trigger] b.label_ok(x, now as int, lim) by {
                            assert(s1.label_ok(x, now as int, lim));
                        }
                        assert forall|x: int| 0 <= x < b.n() && #[trigger] b.ts@[x] == now implies b.parent@[x]
                            != Parent::Free && b.parent@[x] != Parent::Orphan && b.dist@[x] <= count_at(
                            b.ts@,
                            now as int,
                            b.n(),
                        ) by {
                            if x != v {
                                assert(s1.ts@[x] == now);
                            }
                        }
                        assert forall|f: int| b.is_arc(f) implies #[trigger] b.settled(f, queued@) by {
                            s1.lemma_arc(f);
                            assert(s1.settled(f, queued@));
                        }
                        assert(b.orphans_ok(orphans@)) by {
                            assert forall|i: int| 0 <= i < orphans@.len() implies #[trigger] orphans@[i]
                                < b.n() && b.parent@[orphans@[i] as int] == Parent::Orphan by {
                                assert(orp0[i] == orphans@[i]);
                                assert(orp0[orp0.len() - 1] == v);
                            }
                            assert forall|x: int|
                                0 <= x < b.n() && #[trigger] b.parent@[x] == Parent::Orphan implies orphans@.contains(
                                x as usize,
                            ) by {
                                assert(s1.parent@[x] == Parent::Orphan);
                                let q = orp0.index_of(x as usize);
                                assert(orp0.contains(x as usize));
                                assert(orphans@[q] == x);
                            }
                        }
                    }
                } else {
                    self.release(v, active, queued, orphans, Ghost(now as int), Ghost(lim));
                    proof {
                        lemma_count_free_bounds(self.parent@, self.n());
                    }
                }
            }
        }
        proof {
            assert forall|v: int| 0 <= v < self.n() implies #[trigger] self.parent@[v] != Parent::Orphan by {
                if self.parent@[v] == Parent::Orphan {
                    assert(orphans@.contains(v as usize));
                }
            }
        }
    }

    proof fn lemma_path_less(&self, path: Seq<int>, from: int, k: bool, m: int, l: int)
        requires
            self.path_ok(path, from, k, m),
            l <= m,
        ensures
            self.path_ok(path, from, k, l),
    {
        assert forall|i: int| from <= i < path.len() - 1 implies #[trigger] self.room(path, i, l) by {
            assert(self.room(path, i, m));
        }
    }

    /// A path of one tree survives changes of capacity outside that tree.
    proof fn lemma_path_kept(&self, o: &GcGraph, path: Seq<int>, k: bool, m: int)
        requires
            o.shape(),
            o.path_ok(path, 0, k, m),
            self.same_arcs(o),
            self.sink@ == o.sink@,
            forall|x: int|
                0 <= x < o.n() && #[trigger] o.sink@[x] == k ==> self.parent@[x] == o.parent@[x]
                    && self.weight@[x] == o.weight@[x],
            forall|e: int|
                #[trigger] o.is_arc(e) && o.sink@[o.src(e)] == k && o.sink@[o.dst@[e] as int] == k
                    ==> self.cap@[e] == o.cap@[e],
        ensures
            self.path_ok(path, 0, k, m),
    {
        assert forall|i: int| 0 <= i < path.len() - 1 implies #[trigger] self.step(path, i) by {
            assert(o.step(path, i));
            assert(o.sink@[path[i]] == k);
        }
        assert forall|i: int| 0 <= i < path.len() - 1 implies #[trigger] self.room(path, i, m) by {
            assert(o.room(path, i, m));
            assert(o.step(path, i));
            assert(o.sink@[path[i]] == k);
            assert(o.sink@[path[i + 1]] == k);
            if let Parent::Edge(e) = o.parent@[path[i]] {
                o.lemma_arc(e as int);
                assert(o.is_arc(mate(e as int)));
            }
        }
        assert(o.sink@[path.last()] == k);
    }

    /// Pushes as much as it can carry over the path through the touching arc
    /// `e0`. The capacity of every cut, with the flow, stays the same.
    #[verifier::spinoff_prover]
    #[verifier::rlimit(40)]
    fn augment(
        &mut self,
        e0: usize,
        orphans: &mut Vec<usize>,
        Ghost(queued): Ghost<Seq<bool>>,
        Ghost(now): Ghost<int>,
        Ghost(lim): Ghost<int>,
    )
        requires
            old(self).forest(now, lim),
            old(self).no_orphans(),
            old(self).all_settled(queued),
            queued.len() == old(self).n(),
            old(orphans)@.len() == 0,
            old(self).is_arc(e0 as int),
            old(self).cap@[e0 as int] > 0,
            old(self).parent@[old(self).src(e0 as int)] != Parent::Free,
            !old(self).sink@[old(self).src(e0 as int)],
            old(self).parent@[old(self).dst@[e0 as int] as int] != Parent::Free,
            old(self).sink@[old(self).dst@[e0 as int] as int],
            old(self).flow < i64::MAX - 0x2_0000_0000,
        ensures
            final(self).forest(now, lim),
            final(self).same_arcs(old(self)),
            final(self).all_settled(queued),
            final(self).orphans_ok(final(orphans)@),
            final(self).flow > old(self).flow,
            forall|side: spec_fn(int) -> bool| #[trigger]
                final(self)@.cut_cost(side) == old(self)@.cut_cost(side),
    {
        proof {
            self.lemma_arc(e0 as int);
        }
        let ghost s0 = *self;
        let f0: usize = mate_of(e0);
        let a: usize = self.dst[f0];
        let b: usize = self.dst[e0];
        let m1: i64 = self.cap[e0];
        let (m2, Ghost(pa)) = self.path_min(a, false, m1, Ghost(now), Ghost(lim));
        let (m, Ghost(pb)) = self.path_min(b, true, m2, Ghost(now), Ghost(lim));
        proof {
            self.lemma_path_less(pa, 0, false, m2 as int, m as int);
        }
        self.cap[e0] = self.cap[e0] - m;
        self.cap[f0] = self.cap[f0] + m;
        let ghost s1 = *self;
        proof {
            assert forall|f: int| #[trigger] s0.is_arc(f) implies 0 <= s1.cap@[f] && s1.cap@[f]
                + s1.cap@[mate(f)] <= 0x1_ffff_fffe by {
                s0.lemma_arc(f);
            }
            s1.lemma_shape_kept(&s0);
            assert forall|x: int| 0 <= x < s1.n() implies #[trigger] s1.hung(x) by {
                assert(s0.hung(x));
                if let Parent::Edge(f) = s0.parent@[x] {
                    s0.lemma_arc(f as int);
                }
            }
            assert forall|x: int| 0 <= x < s1.n() implies #[trigger] s1.root_ok(x) by {
                assert(s0.root_ok(x));
            }
            assert forall|x: int| 0 <= x < s1.n() implies #[trigger] s1.label_ok(x, now, lim) by {
                assert(s0.label_ok(x, now, lim));
            }
            assert forall|f: int| s1.is_arc(f) implies #[trigger] s1.settled(f, queued) by {
                s0.lemma_arc(f);
                assert(s0.settled(f, queued));
            }
            assert(s1.orphans_ok(orphans@)) by {
                assert forall|x: int|
                    0 <= x < s1.n() && #[trigger] s1.parent@[x] == Parent::Orphan implies orphans@.contains(
                    x as usize,
                ) by {
                    assert(s0.parent@[x] != Parent::Orphan);
                }
            }
            assert forall|e: int|
                #[trigger] s0.is_arc(e) && s0.sink@[s0.src(e)] == s0.sink@[s0.dst@[e] as int] implies s1.cap@[e]
                == s0.cap@[e] by {}
            s1.lemma_path_kept(&s0, pa, false, m as int);
            s1.lemma_path_kept(&s0, pb, true, m as int);
        }
        self.augment_path(a, false, m, orphans, Ghost(pa), Ghost(queued), Ghost(now), Ghost(lim));
        let ghost s2 = *self;
        proof {
            s2.lemma_path_kept(&s1, pb, true, m as int);
        }
        self.augment_path(b, true, m, orphans, Ghost(pb), Ghost(queued), Ghost(now), Ghost(lim));
        let ghost s3 = *self;
        self.flow = self.flow + m;
        proof {
            let ghost s4 = *self;
            s4.lemma_shape_kept(&s3);
            assert forall|x: int| 0 <= x < s4.n() implies #[trigger] s4.hung(x) by {
                assert(s3.hung(x));
            }
            assert forall|x: int| 0 <= x < s4.n() implies #[trigger] s4.root_ok(x) by {
                assert(s3.root_ok(x));
            }
            assert forall|x: int| 0 <= x < s4.n() implies #[trigger] s4.label_ok(x, now, lim) by {
                assert(s3.label_ok(x, now, lim));
            }
            assert forall|f: int| s4.is_arc(f) implies #[trigger] s4.settled(f, queued) by {
                assert(s3.settled(f, queued));
            }
            assert forall|x: int|
                0 <= x < s4.n() && #[trigger] s4.parent@[x] == Parent::Orphan implies orphans@.contains(
                x as usize,
            ) by {
                assert(s3.parent@[x] == Parent::Orphan);
            }
            assert forall|side: spec_fn(int) -> bool| #[trigger]
                s4@.cut_cost(side) == s0@.cut_cost(side) by {
                s1.lemma_push_arc(&s0, e0 as int, m as int, side);
                assert(s1@.cut_cost(side) == s0@.cut_cost(side) + held(side, b as int, m as int) - held(
                    side,
                    a as int,
                    m as int,
                ));
                assert(s2@.cut_cost(side) == s1@.cut_cost(side) + held(side, a as int, m as int) - m);
                assert(s3@.cut_cost(side) == s2@.cut_cost(side) - held(side, b as int, m as int));
                assert(s4@.terms =~= s3@.terms);
                assert(s4@.arcs =~= s3@.arcs);
            }
        }
    }
}

proof fn lemma_terms_bounds(terms: Seq<int>, side: spec_fn(int) -> bool, k: int)
    requires
        0 <= k <= terms.len(),
        forall|v: int| 0 <= v < k ==> -WEIGHT_LIMIT <= #[trigger] terms[v] <= WEIGHT_LIMIT,
    ensures
        0 <= terms_cost(terms, side, k) <= k * WEIGHT_LIMIT,
    decreases k,
{
    if k > 0 {
        lemma_terms_bounds(terms, side, k - 1);
        assert(-WEIGHT_LIMIT <= terms[k - 1] <= WEIGHT_LIMIT);
    }
}

proof fn lemma_arcs_bounds(arcs: Seq<FlowArc>, side: spec_fn(int) -> bool, k: int)
    requires
        0 <= k <= arcs.len(),
        forall|a: int| 0 <= a < k ==> 0 <= (#[trigger] arcs[a]).cap,
    ensures
        0 <= arcs_cost(arcs, side, k),
    decreases k,
{
    if k > 0 {
        lemma_arcs_bounds(arcs, side, k - 1);
        assert(0 <= arcs[k - 1].cap);
    }
}

proof fn lemma_terms_zero(terms: Seq<int>, side: spec_fn(int) -> bool, k: int)
    requires
        0 <= k <= terms.len(),
        forall|v: int| 0 <= v < k ==> term_cost(#[trigger] terms[v], side(v)) == 0,
    ensures
        terms_cost(terms, side, k) == 0,
    decreases k,
{
    if k > 0 {
        lemma_terms_zero(terms, side, k - 1);
        assert(term_cost(terms[k - 1], side(k - 1)) == 0);
    }
}

proof fn lemma_arcs_zero(arcs: Seq<FlowArc>, side: spec_fn(int) -> bool, k: int)
    requires
        0 <= k <= arcs.len(),
        forall|a: int| 0 <= a < k ==> arc_cost(#[trigger] arcs[a], side) == 0,
    ensures
        arcs_cost(arcs, side, k) == 0,
    decreases k,
{
    if k > 0 {
        lemma_arcs_zero(arcs, side, k - 1);
        assert(arc_cost(arcs[k - 1], side) == 0);
    }
}

impl GcGraph {
    /// No cut lets less through than what already flows.
    proof fn lemma_flow_least(&self, side: spec_fn(int) -> bool)
        requires
            self.wf(),
        ensures
            self.flow <= self@.cut_cost(side),
    {
        assert forall|v: int| 0 <= v < self.n() implies -WEIGHT_LIMIT <= #[trigger] self@.terms[v]
            <= WEIGHT_LIMIT by {
            assert(self@.terms[v] == self.weight@[v]);
        }
        lemma_terms_bounds(self@.terms, side, self.n());
        assert forall|a: int| 0 <= a < self@.arcs.len() implies 0 <= (#[trigger] self@.arcs[a]).cap by {
            self.lemma_arc(a + 2);
        }
        lemma_arcs_bounds(self@.arcs, side, self@.arcs.len() as int);
    }

    /// Side `v` ends on: the source's, unless the sink tree reached it last.
    pub closed spec fn source_side(&self) -> spec_fn(int) -> bool {
        |v: int| !self.sink@[v]
    }

    /// With no vertex left to grow from, both trees are cuts through which
    /// nothing more can flow.
    proof fn lemma_trees_cut(&self, now: int, lim: int, queued: Seq<bool>, side: spec_fn(int) -> bool)
        requires
            self.forest(now, lim),
            self.all_settled(queued),
            queued.len() == self.n(),
            forall|v: int| 0 <= v < self.n() ==> !#[trigger] queued[v],
            (forall|v: int| #[trigger]
                side(v) <==> 0 <= v < self.n() && self.parent@[v] != Parent::Free && !self.sink@[v])
                || (forall|v: int| #[trigger]
                side(v) <==> !(0 <= v < self.n() && self.parent@[v] != Parent::Free && self.sink@[v])),
        ensures
            self@.cut_cost(side) == self.flow,
    {
        assert forall|v: int| 0 <= v < self.n() implies term_cost(#[trigger] self@.terms[v], side(v))
            == 0 by {
            assert(self.root_ok(v));
            assert(self@.terms[v] == self.weight@[v]);
        }
        lemma_terms_zero(self@.terms, side, self.n());
        assert forall|a: int| 0 <= a < self@.arcs.len() implies arc_cost(#[trigger] self@.arcs[a], side)
            == 0 by {
            let e = a + 2;
            self.lemma_arc(e);
            assert(self.settled(e, queued));
            assert(self.settled(mate(e), queued));
            let ghost arc = self@.arcs[a];
            assert(arc.src == self.src(e) && arc.dst == self.dst@[e] && arc.cap == self.cap@[e]);
            assert(!queued[arc.src] && !queued[arc.dst]);
        }
        lemma_arcs_zero(self@.arcs, side, self@.arcs.len() as int);
    }

    /// Sends as much flow as the network can carry and returns its value,
    /// the flow already committed included.
    #[verifier::spinoff_prover]
    #[verifier::rlimit(40)]
    pub fn max_flow(&mut self) -> (flow: i64)
        requires
            old(self).wf(),
            old(self)@.terms.len() > 0,
            old(self)@.arcs.len() > 0,
            old(self)@.base <= FLOW_LIMIT,
        ensures
            final(self).wf(),
            old(self)@.is_max_flow(flow as int),
            old(self)@.between_min_cuts(final(self).source_side()),
            final(self)@.base == flow,
            final(self)@.terms.len() == old(self)@.terms.len(),
            final(self)@.arcs.len() == old(self)@.arcs.len(),
            forall|side: spec_fn(int) -> bool| #[trigger]
                final(self)@.cut_cost(side) == old(self)@.cut_cost(side),
    {
        let ghost g0 = *self;
        let ghost none = |v: int| false;
        let ghost total = g0@.cut_cost(none);
        proof {
            self.lemma_flow_least(none);
            assert forall|v: int| 0 <= v < self.n() implies -WEIGHT_LIMIT <= #[trigger] self@.terms[v]
                <= WEIGHT_LIMIT by {
                assert(self@.terms[v] == self.weight@[v]);
            }
            lemma_terms_bounds(self@.terms, none, self.n());
            lemma_arcs_zero(self@.arcs, none, self@.arcs.len() as int);
            assert(self.n() * WEIGHT_LIMIT <= 0x7fff_ffff * 0x7fff_ffff) by (nonlinear_arith)
                requires
                    0 <= self.n() <= 0x7fff_ffff,
                    WEIGHT_LIMIT == 0x7fff_ffff,
            ;
        }
        let mut active: VecDeque<usize> = VecDeque::new();
        let mut queued: Vec<bool> = Vec::new();
        let mut i: usize = 0;
        while i < self.parent.len()
            invariant
                g0.wf(),
                self.same_network(&g0),
                self.ts@.len() == self.n(),
                self.dist@.len() == self.n(),
                self.sink@.len() == self.n(),
                self.weight@.len() == self.n(),
                i <= self.n(),
                queued@.len() == i,
                forall|v: int| 0 <= v < i ==> self.parent@[v] == Parent::Terminal || #[trigger] self.parent@[v] == Parent::Free,
                forall|v: int| 0 <= v < i ==> #[trigger] self.root_ok(v),
                forall|v: int| 0 <= v < i ==> #[trigger] self.label_ok(v, 0, 1),
                forall|v: int| 0 <= v < i ==> #[trigger] queued@[v] == (self.parent@[v] != Parent::Free),
                forall|q: int| 0 <= q < active@.len() ==> #[trigger] active@[q] < i,
                forall|v: int| 0 <= v < i && #[trigger] queued@[v] ==> active@.contains(v as usize),
            decreases self.n() - i,
        {
            let ghost s0 = *self;
            let ghost a0 = active@;
            let ghost q0 = queued@;
            self.ts[i] = 0;
            if self.weight[i] != 0 {
                self.dist[i] = 1;
                self.parent[i] = Parent::Terminal;
                self.sink[i] = self.weight[i] < 0;
                active.push_back(i);
                queued.push(true);
            } else {
                self.parent[i] = Parent::Free;
                queued.push(false);
            }
            proof {
                assert forall|v: int| 0 <= v < i + 1 implies #[trigger] self.root_ok(v) by {
                    if v < i {
                        assert(s0.root_ok(v));
                    }
                }
                assert forall|v: int| 0 <= v < i + 1 implies #[trigger] self.label_ok(v, 0, 1) by {
                    if v < i {
                        assert(s0.label_ok(v, 0, 1));
                    }
                }
                assert forall|v: int| 0 <= v < i + 1 && #[trigger] queued@[v] implies active@.contains(v as usize) by {
                    if v < i {
                        assert(q0[v]);
                        let q = a0.index_of(v as usize);
                        assert(a0.contains(v as usize));
                        assert(active@[q] == v);
                    } else {
                        assert(active@[active@.len() - 1] == v);
                    }
                }
                assert forall|v: int| 0 <= v < i + 1 implies #[trigger] queued@[v] == (self.parent@[v] != Parent::Free) by {
                    if v < i {
                        assert(q0[v] == (s0.parent@[v] != Parent::Free));
                    }
                }
            }
            i = i + 1;
        }
        let mut orphans: Vec<usize> = Vec::new();
        let mut now: i64 = 0;
        let ghost mut lim: int = 1;
        proof {
            self.lemma_wf_kept(&g0);
            assert forall|v: int| 0 <= v < self.n() implies #[trigger] self.hung(v) by {
                assert(self.parent@[v] == Parent::Terminal || self.parent@[v] == Parent::Free);
            }
            assert forall|e: int| self.is_arc(e) implies #[trigger] self.settled(e, queued@) by {
                self.lemma_arc(e);
                assert(queued@[self.src(e)] == (self.parent@[self.src(e)] != Parent::Free));
            }
            assert forall|v: int| 0 <= v < self.n() implies #[trigger] self.parent@[v] != Parent::Orphan by {
                assert(self.root_ok(v));
            }
            assert(self@.terms =~= g0@.terms);
            assert(self@.arcs =~= g0@.arcs);
        }
        loop
            invariant_except_break
                1 <= lim <= 0x1_0000_0000 * (now + 1),
            invariant
                self.forest(now as int, lim),
                self.no_orphans(),
                self.same_arcs(&g0),
                self.all_settled(queued@),
                self.queue_ok(active@, queued@),
                orphans@.len() == 0,
                g0.wf(),
                g0.flow <= self.flow,
                0 <= now <= self.flow - g0.flow,
                total == g0@.cut_cost(none),
                total <= FLOW_LIMIT + 0x7fff_ffff * 0x7fff_ffff,
                forall|side: spec_fn(int) -> bool| #[trigger]
                    self@.cut_cost(side) == g0@.cut_cost(side),
            ensures
                active@.len() == 0,
            decreases total - self.flow,
        {
            proof {
                self.lemma_flow_least(none);
            }
            let ghost s0 = *self;
            match self.grow(&mut active, &mut queued, Ghost(now as int), Ghost(lim)) {
                Some(e0) => {
                    let ghost s1 = *self;
                    proof {
                        assert(s1@.terms =~= s0@.terms);
                        assert(s1@.arcs =~= s0@.arcs);
                        lim = lim + self.n();
                        s1.lemma_arc(e0 as int);
                    }
                    self.augment(e0, &mut orphans, Ghost(queued@), Ghost(now as int), Ghost(lim));
                    let ghost s2 = *self;
                    proof {
                        assert(s2@.cut_cost(none) == s1@.cut_cost(none));
                        s2.lemma_flow_least(none);
                    }
                    now = now + 1;
                    proof {
                        assert forall|v: int| 0 <= v < self.n() implies #[trigger] self.label_ok(v, now as int, lim) by {
                            assert(self.label_ok(v, now - 1, lim));
                        }
                        assert forall|v: int| 0 <= v < self.n() && #[trigger] self.ts@[v] == now implies false by {
                            assert(self.label_ok(v, now - 1, lim));
                        }
                    }
                    self.adopt(&mut active, &mut queued, &mut orphans, now, Ghost(lim));
                    proof {
                        assert forall|side: spec_fn(int) -> bool| #[trigger]
                            self@.cut_cost(side) == g0@.cut_cost(side) by {
                            assert(self@.terms =~= s2@.terms);
                            assert(self@.arcs =~= s2@.arcs);
                            assert(s2@.cut_cost(side) == s1@.cut_cost(side));
                            assert(s0@.cut_cost(side) == g0@.cut_cost(side));
                        }
                    }
                },
                None => {
                    proof {
                        assert(self@.terms =~= s0@.terms);
                        assert(self@.arcs =~= s0@.arcs);
                        lim = lim + self.n();
                    }
                    break;
                },
            }
        }
        proof {
            assert forall|v: int| 0 <= v < self.n() implies !#[trigger] queued@[v] by {
                if queued@[v] {
                    assert(active@.contains(v as usize));
                }
            }
            let low = |v: int| 0 <= v < self.n() && self.parent@[v] != Parent::Free && !self.sink@[v];
            let high = |v: int| !(0 <= v < self.n() && self.parent@[v] != Parent::Free && self.sink@[v]);
            self.lemma_trees_cut(now as int, lim, queued@, low);
            self.lemma_trees_cut(now as int, lim, queued@, high);
            assert(self@.cut_cost(low) == g0@.cut_cost(low));
            assert(self@.cut_cost(high) == g0@.cut_cost(high));
            assert forall|other: spec_fn(int) -> bool| self.flow <= #[trigger] g0@.cut_cost(other) by {
                self.lemma_flow_least(other);
                assert(self@.cut_cost(other) == g0@.cut_cost(other));
            }
            assert(g0@.is_min_cut(low));
            assert(g0@.is_min_cut(high));
            let side = self.source_side();
            assert(forall|v: int|
                0 <= v < g0@.terms.len() ==> (low(v) ==> #[trigger] side(v)) && (side(v) ==> high(v)));
        }
        self.flow
    }

    /// Whether vertex `i` was left on the source's side of the cut.
    pub fn in_source_segment(&self, i: i32) -> (r: bool)
        requires
            self.wf(),
            0 <= i < self@.terms.len(),
        ensures
            r == (self.source_side())(i as int),
    {
        !self.sink[i as usize]
    }
}

/// A network with terminal capacities added to vertex `v`.
pub open spec fn with_terms(g: Network, v: int, source_w: int, sink_w: int) -> Network {
    let a = source_w + term_cost(g.terms[v], false);
    let b = sink_w + term_cost(g.terms[v], true);
    Network {
        base: g.base + if a < b { a } else { b },
        terms: g.terms.update(v, a - b),
        ..g
    }
}

/// A network with a mated pair of arcs added.
pub open spec fn with_edges(g: Network, i: int, j: int, w: int, revw: int) -> Network {
    Network {
        arcs: g.arcs.push(FlowArc { src: i, dst: j, cap: w }).push(
            FlowArc { src: j, dst: i, cap: revw },
        ),
        ..g
    }
}

/// Terminal capacities cost every cut exactly what it severs: the capacity to
/// the sink if the vertex stays with the source, else that from the source.
pub proof fn lemma_term_weights_cut(
    g: Network,
    v: int,
    source_w: int,
    sink_w: int,
    side: spec_fn(int) -> bool,
)
    requires
        0 <= v < g.terms.len(),
        source_w >= 0,
        sink_w >= 0,
    ensures
        with_terms(g, v, source_w, sink_w).cut_cost(side) == g.cut_cost(side) + if side(v) {
            sink_w
        } else {
            source_w
        },
{
    let h = with_terms(g, v, source_w, sink_w);
    lemma_terms_update(g.terms, v, h.terms[v], side, g.terms.len() as int);
}

/// A mated pair of arcs costs every cut that parts its ends the capacity of
/// the arc that leaves the source's side, and no other cut anything.
pub proof fn lemma_edges_cut(
    g: Network,
    i: int,
    j: int,
    w: int,
    revw: int,
    side: spec_fn(int) -> bool,
)
    ensures
        with_edges(g, i, j, w, revw).cut_cost(side) == g.cut_cost(side) + if side(i) && !side(j) {
            w
        } else if side(j) && !side(i) {
            revw
        } else {
            0
        },
{
    let h = with_edges(g, i, j, w, revw);
    let n = g.arcs.len() as int;
    lemma_arcs_prefix(g.arcs, h.arcs, side, n);
    assert(h.arcs[n] == (FlowArc { src: i, dst: j, cap: w }));
    assert(h.arcs[n + 1] == (FlowArc { src: j, dst: i, cap: revw }));
    assert(arcs_cost(h.arcs, side, n + 1) == arcs_cost(h.arcs, side, n) + arc_cost(
        h.arcs[n],
        side,
    ));
}

proof fn lemma_arcs_prefix(
    few: Seq<FlowArc>,
    more: Seq<FlowArc>,
    side: spec_fn(int) -> bool,
    k: int,
)
    requires
        0 <= k <= few.len() <= more.len(),
        forall|e: int| 0 <= e < few.len() ==> #[trigger] few[e] == more[e],
    ensures
        arcs_cost(more, side, k) == arcs_cost(few, side, k),
    decreases k,
{
    if k > 0 {
        lemma_arcs_prefix(few, more, side, k - 1);
        assert(few[k - 1] == more[k - 1]);
    }
}

} // verus!
