//! The graph of matched images: which of them hang together, and the tree
//! along which their orientations are chained.

use crate::imgproc::lemma_index;
use crate::imgproc::lemma_index_split;
use crate::matcher::PairMatches;
use crate::matcher::Ratio;
use crate::matcher::RawMatch;
pub use crate::spanning::find_max_spanning_tree;
pub use crate::tree::SpanningTree;
use vstd::prelude::*;

verus! {

/// How many of the first `k` entries equal `r`.
pub open spec fn count_eq(s: Seq<int>, r: int, k: int) -> int
    decreases k,
{
    if k <= 0 {
        0
    } else {
        count_eq(s, r, k - 1) + if s[k - 1] == r { 1int } else { 0 }
    }
}

proof fn lemma_count_eq_bounds(s: Seq<int>, r: int, k: int)
    requires
        0 <= k,
    ensures
        0 <= count_eq(s, r, k) <= k,
    decreases k,
{
    if k > 0 {
        lemma_count_eq_bounds(s, r, k - 1);
    }
}

proof fn lemma_count_eq_pos(s: Seq<int>, r: int, k: int, i: int)
    requires
        0 <= i < k <= s.len(),
        s[i] == r,
    ensures
        count_eq(s, r, k) >= 1,
    decreases k,
{
    lemma_count_eq_bounds(s, r, k - 1);
    if i < k - 1 {
        lemma_count_eq_pos(s, r, k - 1, i);
    }
}

/// Two different values share the entries between them.
proof fn lemma_count_eq_two(s: Seq<int>, a: int, b: int, k: int)
    requires
        0 <= k,
        a != b,
    ensures
        count_eq(s, a, k) + count_eq(s, b, k) <= k,
    decreases k,
{
    if k > 0 {
        lemma_count_eq_two(s, a, b, k - 1);
    }
}

/// The entries of `s` with `a` and `b` replaced by `r`.
pub open spec fn joined(s: Seq<int>, a: int, b: int, r: int) -> Seq<int> {
    Seq::new(s.len(), |i: int| if s[i] == a || s[i] == b { r } else { s[i] })
}

proof fn lemma_count_joined(s: Seq<int>, a: int, b: int, r: int, x: int, k: int)
    requires
        0 <= k <= s.len(),
        a != b,
        r == a || r == b,
    ensures
        count_eq(joined(s, a, b, r), x, k) == if x == r {
            count_eq(s, a, k) + count_eq(s, b, k)
        } else if x == a || x == b {
            0
        } else {
            count_eq(s, x, k)
        },
    decreases k,
{
    if k > 0 {
        lemma_count_joined(s, a, b, r, x, k - 1);
    }
}

/// Disjoint sets of the numbers below some bound. Viewed as the
/// representative of each number.
pub struct DisjointSets {
    /// The number above each in its tree, itself at the top.
    pub parent: Vec<usize>,
    /// Bound on the depth of the tree below each number.
    pub rank: Vec<usize>,
    /// Size of the set that each representative stands for.
    pub size: Vec<usize>,
    /// The top of each number's tree.
    pub roots: Ghost<Seq<int>>,
}

impl View for DisjointSets {
    type V = Seq<int>;

    open spec fn view(&self) -> Seq<int> {
        self.roots@
    }
}

impl DisjointSets {
    spec fn elem_ok(&self, i: int) -> bool {
        let p = self.parent@[i] as int;
        let r = self.roots@[i];
        &&& 0 <= p < self.parent@.len()
        &&& 0 <= r < self.parent@.len()
        &&& self.parent@[r] == r
        &&& self.roots@[r] == r
        &&& p == i ==> r == i
        &&& p != i ==> self.roots@[p] == r && self.rank@[i] < self.rank@[p]
        &&& self.rank@[i] < self.parent@.len()
        &&& r != i ==> self.size@[i] < self.size@[r]
        &&& r == i ==> self.size@[i] == count_eq(self.roots@, i, self.parent@.len() as int)
            && self.rank@[i] < self.size@[i]
    }

    pub closed spec fn wf(&self) -> bool {
        &&& self.rank@.len() == self.parent@.len()
        &&& self.size@.len() == self.parent@.len()
        &&& self.roots@.len() == self.parent@.len()
        &&& forall|i: int| 0 <= i < self.parent@.len() ==> #[trigger] self.elem_ok(i)
    }

    /// Bound on the depth of each number's tree.
    pub open spec fn ranks(&self) -> Seq<usize> {
        self.rank@
    }

    /// What is recorded as each number's set size.
    pub open spec fn sizes(&self) -> Seq<usize> {
        self.size@
    }

    /// Representatives stand for themselves, and each set's recorded size is
    /// the number of its members; what is recorded for other members is
    /// smaller.
    pub proof fn lemma_sizes(&self, i: int)
        requires
            self.wf(),
            0 <= i < self@.len(),
        ensures
            self.sizes().len() == self@.len(),
            0 <= self@[i] < self@.len(),
            self@[self@[i]] == self@[i],
            self.sizes()[self@[i]] == count_eq(self@, self@[i], self@.len() as int),
            self@[i] != i ==> self.sizes()[i] < self.sizes()[self@[i]],
    {
        assert(self.elem_ok(i));
        assert(self.elem_ok(self@[i]));
    }

    /// Every number below `n` in a set of its own.
    pub fn new(n: usize) -> (s: Self)
        ensures
            s.wf(),
            s@ == Seq::new(n as nat, |i: int| i),
            s.sizes() == Seq::new(n as nat, |i: int| 1usize),
            s.ranks() == Seq::new(n as nat, |i: int| 0usize),
    {
        let mut parent: Vec<usize> = Vec::new();
        let mut rank: Vec<usize> = Vec::new();
        let mut size: Vec<usize> = Vec::new();
        let mut i: usize = 0;
        while i < n
            invariant
                i <= n,
                parent@.len() == i,
                rank@ == Seq::new(i as nat, |k: int| 0usize),
                size@ == Seq::new(i as nat, |k: int| 1usize),
                forall|k: int| 0 <= k < i ==> #[trigger] parent@[k] == k,
            decreases n - i,
        {
            parent.push(i);
            rank.push(0);
            size.push(1);
            i = i + 1;
            assert(rank@ =~= Seq::new(i as nat, |k: int| 0usize));
            assert(size@ =~= Seq::new(i as nat, |k: int| 1usize));
        }
        let ghost roots = Seq::new(n as nat, |k: int| k);
        let s = DisjointSets { parent, rank, size, roots: Ghost(roots) };
        proof {
            assert forall|k: int| 0 <= k < n implies #[trigger] s.elem_ok(k) by {
                lemma_count_own(roots, k, n as int);
            }
        }
        s
    }

    /// The representative of `elem`. Shortens the way to it.
    pub fn find_set_by_elem(&mut self, elem: usize) -> (set: usize)
        requires
            old(self).wf(),
            elem < old(self)@.len(),
        ensures
            final(self).wf(),
            set == old(self)@[elem as int],
            final(self)@ == old(self)@,
            final(self).sizes() == old(self).sizes(),
            final(self).ranks() == old(self).ranks(),
    {
        let mut set: usize = elem;
        while self.parent[set] != set
            invariant
                self.wf(),
                *self == *old(self),
                set < self.parent@.len(),
                self.roots@[set as int] == self.roots@[elem as int],
            decreases self.parent@.len() - self.rank@[set as int],
        {
            assert(self.elem_ok(set as int));
            assert(self.elem_ok(self.parent@[set as int] as int));
            set = self.parent[set];
        }
        assert(self.elem_ok(set as int));
        let mut x: usize = elem;
        while self.parent[x] != set
            invariant
                self.wf(),
                self.roots@ == old(self).roots@,
                self.rank@ == old(self).rank@,
                self.size@ == old(self).size@,
                x < self.parent@.len(),
                set < self.parent@.len(),
                self.parent@.len() == old(self).parent@.len(),
                self.roots@[x as int] == set,
                self.parent@[set as int] == set,
            decreases self.parent@.len() - self.rank@[x as int],
        {
            let ghost s0 = *self;
            let next: usize = self.parent[x];
            proof {
                assert(self.elem_ok(x as int));
                assert(self.elem_ok(next as int));
                s0.lemma_rank_below(next as int);
            }
            self.parent[x] = set;
            proof {
                assert forall|k: int| 0 <= k < self.parent@.len() implies #[trigger] self.elem_ok(k) by {
                    assert(s0.elem_ok(k));
                    assert(s0.elem_ok(x as int));
                    assert(s0.elem_ok(set as int));
                }
            }
            x = next;
        }
        set
    }

    /// A representative has the highest rank of its set.
    proof fn lemma_rank_below(&self, i: int)
        requires
            self.wf(),
            0 <= i < self.parent@.len(),
        ensures
            self.rank@[i] <= self.rank@[self.roots@[i]],
        decreases self.parent@.len() - self.rank@[i],
    {
        assert(self.elem_ok(i));
        let p = self.parent@[i] as int;
        if p != i {
            assert(self.elem_ok(p));
            self.lemma_rank_below(p);
        }
    }

    /// Joins the sets of two representatives and returns the representative
    /// of the union: that of the deeper tree, `set2` if they are equal.
    #[verifier::spinoff_prover]
    pub fn merge_sets(&mut self, set1: usize, set2: usize) -> (set: usize)
        requires
            old(self).wf(),
            set1 < old(self)@.len(),
            set2 < old(self)@.len(),
            old(self)@[set1 as int] == set1,
            old(self)@[set2 as int] == set2,
            set1 != set2,
        ensures
            final(self).wf(),
            set == if old(self).ranks()[set1 as int] > old(self).ranks()[set2 as int] {
                set1
            } else {
                set2
            },
            final(self)@ == joined(old(self)@, set1 as int, set2 as int, set as int),
            final(self).sizes() == old(self).sizes().update(
                set as int,
                (old(self).sizes()[set1 as int] + old(self).sizes()[set2 as int]) as usize,
            ),
            final(self).ranks() == if old(self).ranks()[set1 as int] == old(self).ranks()[set2 as int] {
                old(self).ranks().update(set2 as int, (old(self).ranks()[set2 as int] + 1) as usize)
            } else {
                old(self).ranks()
            },
    {
        let ghost s0 = *self;
        let ghost n = self.parent@.len() as int;
        proof {
            assert(s0.elem_ok(set1 as int));
            assert(s0.elem_ok(set2 as int));
            lemma_count_eq_two(s0.roots@, set1 as int, set2 as int, n);
            lemma_count_eq_pos(s0.roots@, set1 as int, n, set1 as int);
            lemma_count_eq_pos(s0.roots@, set2 as int, n, set2 as int);
            assert(self.parent@.len() == self.parent.len());
        }
        let (r1, r2): (usize, usize) = (self.rank[set1], self.rank[set2]);
        let (low, high): (usize, usize) = if r1 > r2 { (set2, set1) } else { (set1, set2) };
        self.parent[low] = high;
        if r1 == r2 {
            self.rank[high] = r2 + 1;
        }
        self.size[high] = self.size[high] + self.size[low];
        self.roots = Ghost(joined(s0.roots@, set1 as int, set2 as int, high as int));
        proof {
            assert forall|k: int| 0 <= k < n implies #[trigger] self.elem_ok(k) by {
                assert(s0.elem_ok(k));
                assert(s0.elem_ok(s0.roots@[k]));
                assert(s0.elem_ok(s0.parent@[k] as int));
                s0.lemma_rank_below(k);
                lemma_count_joined(s0.roots@, set1 as int, set2 as int, high as int, k, n);
                lemma_count_eq_bounds(s0.roots@, k, n);
            }
            assert(self.size@ =~= s0.size@.update(
                high as int,
                (s0.size@[set1 as int] + s0.size@[set2 as int]) as usize,
            ));
            if r1 != r2 {
                assert(self.rank@ =~= s0.rank@);
            }
        }
        high
    }
}

proof fn lemma_count_own(roots: Seq<int>, r: int, k: int)
    requires
        0 <= k <= roots.len(),
        forall|i: int| 0 <= i < roots.len() ==> #[trigger] roots[i] == i,
    ensures
        count_eq(roots, r, k) == if 0 <= r < k { 1int } else { 0 },
    decreases k,
{
    if k > 0 {
        lemma_count_own(roots, r, k - 1);
    }
}

/// Matches of every ordered pair of `n` images: pair (`i`, `j`) at
/// `i * n + j`.
pub struct MatchGraph {
    pub n: usize,
    pub entries: Vec<PairMatches>,
}

/// The contents of a pair's record.
pub ghost struct Pair {
    pub matches: Seq<RawMatch>,
    pub inliers: Seq<bool>,
    pub num_inliers: int,
    pub has_h: bool,
    pub confidence: Ratio,
}

impl View for PairMatches {
    type V = Pair;

    open spec fn view(&self) -> Pair {
        Pair {
            matches: self.matches@,
            inliers: self.inliers@,
            num_inliers: self.num_inliers as int,
            has_h: self.has_h,
            confidence: self.confidence,
        }
    }
}

/// The record of a pair without matches.
pub open spec fn no_pair() -> Pair {
    Pair {
        matches: Seq::empty(),
        inliers: Seq::empty(),
        num_inliers: 0,
        has_h: false,
        confidence: Ratio { num: 0, den: 1 },
    }
}

/// The record of the same pair seen from the other image.
pub open spec fn turned(p: Pair) -> Pair {
    Pair {
        matches: p.matches.map_values(
            |m: RawMatch| RawMatch { query: m.train, train: m.query, distance: m.distance },
        ),
        ..p
    }
}

/// The record of (`a`, `b`) once the first `k` results have been entered, each
/// in both directions.
pub open spec fn entered(
    upper: Seq<((usize, usize), PairMatches)>,
    k: int,
    a: int,
    b: int,
) -> Pair
    decreases k,
{
    if k <= 0 {
        no_pair()
    } else {
        let (i, j) = upper[k - 1].0;
        if j == a && i == b {
            turned(upper[k - 1].1@)
        } else if i == a && j == b {
            upper[k - 1].1@
        } else {
            entered(upper, k - 1, a, b)
        }
    }
}

fn turn(p: &PairMatches) -> (q: PairMatches)
    ensures
        q@ == turned(p@),
{
    let mut matches: Vec<RawMatch> = Vec::new();
    let mut i: usize = 0;
    while i < p.matches.len()
        invariant
            i <= p.matches@.len(),
            matches@.len() == i,
            forall|k: int|
                0 <= k < i ==> #[trigger] matches@[k] == (RawMatch {
                    query: p.matches@[k].train,
                    train: p.matches@[k].query,
                    distance: p.matches@[k].distance,
                }),
        decreases p.matches@.len() - i,
    {
        let m: RawMatch = p.matches[i];
        matches.push(RawMatch { query: m.train, train: m.query, distance: m.distance });
        i = i + 1;
    }
    let inliers: Vec<bool> = p.inliers.clone();
    let q = PairMatches {
        matches,
        inliers,
        num_inliers: p.num_inliers,
        has_h: p.has_h,
        confidence: p.confidence,
    };
    assert(q@.matches =~= turned(p@).matches);
    assert(q@.inliers =~= p@.inliers);
    q
}

impl MatchGraph {
    pub open spec fn wf(&self) -> bool {
        &&& self.entries@.len() == self.n * self.n
        &&& forall|i: int|
            0 <= i < self.entries@.len() ==> (#[trigger] self.entries@[i]).confidence.wf()
    }

    /// The record of (`i`, `j`).
    pub open spec fn pair(&self, i: int, j: int) -> Pair {
        self.entries@[i * self.n + j]@
    }

    pub fn at(&self, i: usize, j: usize) -> (p: &PairMatches)
        requires
            self.wf(),
            i < self.n,
            j < self.n,
        ensures
            p@ == self.pair(i as int, j as int),
            p.confidence.wf(),
    {
        proof {
            crate::imgproc::lemma_index(j as int, i as int, self.n as int, self.n as int);
            assert(self.entries@.len() == self.entries.len());
        }
        &self.entries[i * self.n + j]
    }

    /// The graph of results for some pairs, each entered in both directions;
    /// pairs without a result have no matches.
    #[verifier::spinoff_prover]
    pub fn from_upper_triangle(n: usize, upper: Vec<((usize, usize), PairMatches)>) -> (g: Self)
        requires
            n * n <= usize::MAX,
            forall|k: int|
                0 <= k < upper@.len() ==> (#[trigger] upper@[k]).0.0 < n && upper@[k].0.1 < n
                    && upper@[k].1.confidence.wf(),
        ensures
            g.wf(),
            g.n == n,
            forall|i: int, j: int|
                0 <= i < n && 0 <= j < n ==> #[trigger] g.pair(i, j) == entered(
                    upper@,
                    upper@.len() as int,
                    i,
                    j,
                ),
    {
        let ghost all = upper@;
        let mut entries: Vec<PairMatches> = Vec::new();
        while entries.len() < n * n
            invariant
                n * n <= usize::MAX,
                entries@.len() <= n * n,
                forall|q: int|
                    0 <= q < entries@.len() ==> (#[trigger] entries@[q])@ == no_pair(),
            decreases n * n - entries@.len(),
        {
            let e: PairMatches = PairMatches::empty();
            assert(e@.matches =~= no_pair().matches && e@.inliers =~= no_pair().inliers);
            entries.push(e);
        }
        let mut upper: Vec<((usize, usize), PairMatches)> = upper;
        let mut k: usize = 0;
        let total: usize = upper.len();
        while k < total
            invariant
                n * n <= usize::MAX,
                total == all.len(),
                k <= total,
                upper@ == all,
                entries@.len() == n * n,
                forall|q: int|
                    0 <= q < all.len() ==> (#[trigger] all[q]).0.0 < n && all[q].0.1 < n
                        && all[q].1.confidence.wf(),
                forall|q: int|
                    0 <= q < n * n ==> (#[trigger] entries@[q])@ == entered(
                        all,
                        k as int,
                        q / (n as int),
                        q % (n as int),
                    ),
                forall|q: int| 0 <= q < n * n ==> (#[trigger] entries@[q]).confidence.wf(),
            decreases total - k,
        {
            let ghost e0 = entries@;
            let (i, j): (usize, usize) = upper[k].0;
            assert(all[k as int].0.0 < n && all[k as int].0.1 < n);
            proof {
                crate::imgproc::lemma_index(j as int, i as int, n as int, n as int);
                crate::imgproc::lemma_index(i as int, j as int, n as int, n as int);
                crate::imgproc::lemma_index_split(j as int, i as int, n as int);
                crate::imgproc::lemma_index_split(i as int, j as int, n as int);
            }
            let dual: PairMatches = turn(&upper[k].1);
            let own: PairMatches = copy_of(&upper[k].1);
            entries[i * n + j] = own;
            entries[j * n + i] = dual;
            proof {
                assert forall|q: int| 0 <= q < n * n implies (#[trigger] entries@[q])@ == entered(
                    all,
                    k + 1,
                    q / (n as int),
                    q % (n as int),
                ) by {
                    vstd::arithmetic::div_mod::lemma_fundamental_div_mod(q, n as int);
                    assert((q / (n as int)) * n == n * (q / (n as int))) by (nonlinear_arith);
                    if q != i * n + j && q != j * n + i {
                        assert(entries@[q] == e0[q]);
                    }
                }
            }
            k = k + 1;
        }
        let g = MatchGraph { n, entries };
        proof {
            assert forall|i: int, j: int| 0 <= i < n && 0 <= j < n implies #[trigger] g.pair(i, j) == entered(
                all,
                all.len() as int,
                i,
                j,
            ) by {
                crate::imgproc::lemma_index(j, i, n as int, n as int);
                crate::imgproc::lemma_index_split(j, i, n as int);
            }
        }
        g
    }
}

pub fn copy_of(p: &PairMatches) -> (q: PairMatches)
    ensures
        q@ == p@,
{
    let matches: Vec<RawMatch> = p.matches.clone();
    let inliers: Vec<bool> = p.inliers.clone();
    assert(matches@ =~= p.matches@);
    assert(inliers@ =~= p.inliers@);
    PairMatches {
        matches,
        inliers,
        num_inliers: p.num_inliers,
        has_h: p.has_h,
        confidence: p.confidence,
    }
}

/// Turning a pair round twice gives it back.
pub proof fn lemma_turned_twice(p: Pair)
    ensures
        turned(turned(p)) == p,
{
    assert(turned(turned(p)).matches =~= p.matches);
}

/// Both directions of a pair tell the same.
pub proof fn lemma_entered_both_ways(
    upper: Seq<((usize, usize), PairMatches)>,
    k: int,
    a: int,
    b: int,
)
    requires
        a != b,
    ensures
        entered(upper, k, b, a) == turned(entered(upper, k, a, b)),
    decreases k,
{
    if k <= 0 {
        assert(turned(no_pair()).matches =~= no_pair().matches);
    } else {
        lemma_entered_both_ways(upper, k - 1, a, b);
        lemma_turned_twice(upper[k - 1].1@);
    }
}

/// Images `i` and `j` are matched with at least confidence `t`, in either
/// direction.
pub open spec fn confident(g: &MatchGraph, t: Ratio, i: int, j: int) -> bool {
    !g.pair(i, j).confidence.lt(t) || !g.pair(j, i).confidence.lt(t)
}

/// `path` leads from image to image over confident matches.
pub open spec fn is_path(g: &MatchGraph, t: Ratio, path: Seq<int>) -> bool {
    &&& path.len() >= 1
    &&& forall|k: int| 0 <= k < path.len() ==> 0 <= #[trigger] path[k] < g.n
    &&& forall|k: int|
        0 <= k < path.len() - 1 ==> confident(g, t, #[trigger] path[k], path[k + 1])
}

/// Images `a` and `b` are connected by confident matches.
pub open spec fn connected(g: &MatchGraph, t: Ratio, a: int, b: int) -> bool {
    exists|path: Seq<int>| #[trigger]
        is_path(g, t, path) && path[0] == a && path.last() == b
}

proof fn lemma_connected_self(g: &MatchGraph, t: Ratio, a: int)
    requires
        0 <= a < g.n,
    ensures
        connected(g, t, a, a),
{
    assert(is_path(g, t, seq![a]));
}

proof fn lemma_connected_sym(g: &MatchGraph, t: Ratio, a: int, b: int)
    requires
        connected(g, t, a, b),
    ensures
        connected(g, t, b, a),
{
    let p = choose|path: Seq<int>| #[trigger]
        is_path(g, t, path) && path[0] == a && path.last() == b;
    let q = Seq::new(p.len(), |k: int| p[p.len() - 1 - k]);
    assert forall|k: int| 0 <= k < q.len() - 1 implies confident(g, t, #[trigger] q[k], q[k + 1]) by {
        let m = p.len() - 2 - k;
        assert(confident(g, t, p[m], p[m + 1]));
    }
    assert(is_path(g, t, q));
}

proof fn lemma_connected_trans(g: &MatchGraph, t: Ratio, a: int, b: int, c: int)
    requires
        connected(g, t, a, b),
        connected(g, t, b, c),
    ensures
        connected(g, t, a, c),
{
    let p = choose|path: Seq<int>| #[trigger]
        is_path(g, t, path) && path[0] == a && path.last() == b;
    let q = choose|path: Seq<int>| #[trigger]
        is_path(g, t, path) && path[0] == b && path.last() == c;
    let r = p + q.skip(1);
    assert forall|k: int| 0 <= k < r.len() - 1 implies confident(g, t, #[trigger] r[k], r[k + 1]) by {
        if k < p.len() - 1 {
            assert(confident(g, t, p[k], p[k + 1]));
        } else {
            let m = k - (p.len() - 1);
            assert(r[k] == q[m]);
            assert(r[k + 1] == q[m + 1]);
            assert(confident(g, t, q[m], q[m + 1]));
        }
    }
    assert forall|k: int| 0 <= k < r.len() implies 0 <= #[trigger] r[k] < g.n by {
        if k >= p.len() {
            assert(r[k] == q[k - p.len() + 1]);
        }
    }
    assert(is_path(g, t, r));
    assert(r.last() == c);
}

/// How many of the first `k` images are connected with image `a`.
pub open spec fn count_connected(g: &MatchGraph, t: Ratio, a: int, k: int) -> int
    decreases k,
{
    if k <= 0 {
        0
    } else {
        count_connected(g, t, a, k - 1) + if connected(g, t, a, k - 1) { 1int } else { 0 }
    }
}

/// `kept` is one of the largest sets of images that hang together.
pub open spec fn is_biggest_component(g: &MatchGraph, t: Ratio, kept: Seq<usize>) -> bool {
    &&& kept.len() >= 1
    &&& forall|i: int, j: int| 0 <= i < j < kept.len() ==> kept[i] < kept[j]
    &&& forall|i: int| 0 <= i < kept.len() ==> #[trigger] kept[i] < g.n
    &&& forall|i: int, b: int|
        0 <= i < kept.len() && 0 <= b < g.n ==> (#[trigger] kept.contains(b as usize) <==> connected(
            g,
            t,
            #[trigger] kept[i] as int,
            b,
        ))
    &&& forall|a: int| 0 <= a < g.n ==> #[trigger] count_connected(g, t, a, g.n as int) <= kept.len()
}

proof fn lemma_count_connected(g: &MatchGraph, t: Ratio, roots: Seq<int>, a: int, k: int)
    requires
        0 <= k <= roots.len(),
        0 <= a < roots.len(),
        forall|i: int, j: int|
            0 <= i < roots.len() && 0 <= j < roots.len() ==> (#[trigger] roots[i] == #[trigger] roots[j]
                <==> connected(g, t, i, j)),
    ensures
        count_connected(g, t, a, k) == count_eq(roots, roots[a], k),
    decreases k,
{
    if k > 0 {
        lemma_count_connected(g, t, roots, a, k - 1);
        assert(roots[k - 1] == roots[a] <==> connected(g, t, a, k - 1)) by {
            assert(roots[a] == roots[k - 1] <==> connected(g, t, a, k - 1));
        }
    }
}

/// Two images in one set are connected, and edges taken so far join sets.
spec fn sets_sound(g: &MatchGraph, t: Ratio, roots: Seq<int>) -> bool {
    forall|i: int, j: int|
        0 <= i < roots.len() && 0 <= j < roots.len() && #[trigger] roots[i] == #[trigger] roots[j]
            ==> connected(g, t, i, j)
}

/// Images `i` and `j` are in one set if they are confidently matched.
spec fn edge_taken(g: &MatchGraph, t: Ratio, roots: Seq<int>, i: int, j: int) -> bool {
    !g.pair(i, j).confidence.lt(t) ==> roots[i] == roots[j]
}

proof fn lemma_path_same(g: &MatchGraph, t: Ratio, roots: Seq<int>, path: Seq<int>, k: int)
    requires
        roots.len() == g.n,
        is_path(g, t, path),
        0 <= k < path.len(),
        forall|i: int, j: int|
            0 <= i < g.n && 0 <= j < g.n ==> #[trigger] edge_taken(g, t, roots, i, j),
    ensures
        roots[path[0]] == roots[path[k]],
    decreases k,
{
    if k > 0 {
        lemma_path_same(g, t, roots, path, k - 1);
        assert(confident(g, t, path[k - 1], path[(k - 1) + 1]));
        assert(edge_taken(g, t, roots, path[k - 1], path[k]));
        assert(edge_taken(g, t, roots, path[k], path[k - 1]));
    }
}

/// Disjoint sets of images: the representative of each, and the depth of each
/// representative's tree.
pub ghost struct ImageSets {
    pub roots: Seq<int>,
    pub ranks: Seq<usize>,
}

/// The sets of two representatives joined: the deeper tree gives the new
/// representative, the second one if both are as deep.
pub open spec fn merged(s: ImageSets, a: int, b: int) -> ImageSets {
    let top = if s.ranks[a] > s.ranks[b] {
        a
    } else {
        b
    };
    ImageSets {
        roots: joined(s.roots, a, b, top),
        ranks: if s.ranks[a] == s.ranks[b] {
            s.ranks.update(b, (s.ranks[b] + 1) as usize)
        } else {
            s.ranks
        },
    }
}

/// The sets once the first `k` ordered pairs, row by row, have been joined
/// where their matches are confident.
pub open spec fn sets_until(g: &MatchGraph, t: Ratio, k: int) -> ImageSets
    decreases k,
{
    if k <= 0 {
        ImageSets {
            roots: Seq::new(g.n as nat, |i: int| i),
            ranks: Seq::new(g.n as nat, |i: int| 0usize),
        }
    } else {
        let s = sets_until(g, t, k - 1);
        let i = (k - 1) / g.n as int;
        let j = (k - 1) % g.n as int;
        if g.pair(i, j).confidence.lt(t) || s.roots[i] == s.roots[j] {
            s
        } else {
            merged(s, s.roots[i], s.roots[j])
        }
    }
}

/// `r` represents the largest set, the first one of those equally large.
pub open spec fn is_first_biggest(roots: Seq<int>, r: int) -> bool {
    let n = roots.len() as int;
    &&& 0 <= r < n
    &&& roots[r] == r
    &&& forall|x: int|
        0 <= x < n && #[trigger] roots[x] == x ==> count_eq(roots, x, n) <= count_eq(roots, r, n)
    &&& forall|x: int|
        0 <= x < r && #[trigger] roots[x] == x ==> count_eq(roots, x, n) < count_eq(roots, r, n)
}

/// `kept` is the set that is chosen among the largest.
pub open spec fn is_chosen_component(g: &MatchGraph, t: Ratio, kept: Seq<usize>) -> bool {
    let roots = sets_until(g, t, g.n * g.n).roots;
    exists|r: int| #[trigger]
        is_first_biggest(roots, r) && forall|b: int|
            0 <= b < g.n ==> (#[trigger] kept.contains(b as usize) <==> roots[b] == r)
}

/// Indices of the largest set of images that hang together by matches of at
/// least the given confidence, in order.
#[verifier::spinoff_prover]
#[verifier::rlimit(40)]
pub fn leave_biggest_component(graph: &MatchGraph, conf_threshold: Ratio) -> (kept: Vec<usize>)
    requires
        graph.wf(),
        graph.n >= 1,
        conf_threshold.wf(),
    ensures
        is_biggest_component(graph, conf_threshold, kept@),
        is_chosen_component(graph, conf_threshold, kept@),
{
    let n: usize = graph.n;
    let ghost t = conf_threshold;
    let mut comps: DisjointSets = DisjointSets::new(n);
    let mut i: usize = 0;
    proof {
        assert(sets_sound(graph, t, comps@)) by {
            assert forall|a: int, b: int|
                0 <= a < n && 0 <= b < n && #[trigger] comps@[a] == #[trigger] comps@[b] implies connected(
                graph,
                t,
                a,
                b,
            ) by {
                lemma_connected_self(graph, t, a);
            }
        }
    }
    while i < n
        invariant
            graph.wf(),
            n == graph.n,
            t == conf_threshold,
            t.wf(),
            i <= n,
            comps.wf(),
            comps@.len() == n,
            comps@ == sets_until(graph, t, i * n).roots,
            comps.ranks() == sets_until(graph, t, i * n).ranks,
            sets_sound(graph, t, comps@),
            forall|a: int, b: int|
                0 <= a < i && 0 <= b < n ==> #[trigger] edge_taken(graph, t, comps@, a, b),
        decreases n - i,
    {
        let mut j: usize = 0;
        while j < n
            invariant
                graph.wf(),
                n == graph.n,
                t == conf_threshold,
                t.wf(),
                i < n,
                j <= n,
                comps.wf(),
                comps@.len() == n,
                comps@ == sets_until(graph, t, i * n + j).roots,
                comps.ranks() == sets_until(graph, t, i * n + j).ranks,
                sets_sound(graph, t, comps@),
                forall|a: int, b: int|
                    0 <= a < i && 0 <= b < n ==> #[trigger] edge_taken(graph, t, comps@, a, b),
                forall|b: int|
                    0 <= b < j ==> #[trigger] edge_taken(graph, t, comps@, i as int, b),
            decreases n - j,
        {
            let ghost r0 = comps@;
            proof {
                lemma_index(j as int, i as int, n as int, n as int);
                lemma_index_split(j as int, i as int, n as int);
            }
            if !graph.at(i, j).confidence.less(&conf_threshold) {
                let c1: usize = comps.find_set_by_elem(i);
                let c2: usize = comps.find_set_by_elem(j);
                proof {
                    comps.lemma_sizes(i as int);
                    comps.lemma_sizes(j as int);
                }
                if c1 != c2 {
                    let r: usize = comps.merge_sets(c1, c2);
                    proof {
                        assert(confident(graph, t, i as int, j as int));
                        assert(is_path(graph, t, seq![i as int, j as int]));
                        assert(connected(graph, t, i as int, j as int)) by {
                            let p = seq![i as int, j as int];
                            assert(is_path(graph, t, p) && p[0] == i && p.last() == j);
                        }
                        let r1 = comps@;
                        assert forall|a: int, b: int|
                            0 <= a < n && 0 <= b < n && #[trigger] r1[a] == #[trigger] r1[b] implies connected(
                            graph,
                            t,
                            a,
                            b,
                        ) by {
                            if r0[a] == r0[b] {
                            } else {
                                // One side of the new union each.
                                if r0[a] == c1 {
                                    assert(r0[i as int] == r0[a]);
                                    assert(r0[j as int] == r0[b]);
                                    lemma_connected_trans(graph, t, a, i as int, j as int);
                                    lemma_connected_trans(graph, t, a, j as int, b);
                                } else {
                                    assert(r0[j as int] == r0[a]);
                                    assert(r0[i as int] == r0[b]);
                                    lemma_connected_sym(graph, t, i as int, j as int);
                                    lemma_connected_trans(graph, t, a, j as int, i as int);
                                    lemma_connected_trans(graph, t, a, i as int, b);
                                }
                            }
                        }
                        assert forall|a: int, b: int| 0 <= a < i && 0 <= b < n implies #[trigger] edge_taken(
                            graph,
                            t,
                            r1,
                            a,
                            b,
                        ) by {
                            assert(edge_taken(graph, t, r0, a, b));
                        }
                        assert forall|b: int| 0 <= b < j implies #[trigger] edge_taken(
                            graph,
                            t,
                            r1,
                            i as int,
                            b,
                        ) by {
                            assert(edge_taken(graph, t, r0, i as int, b));
                        }
                    }
                }
            }
            proof {
                assert(edge_taken(graph, t, comps@, i as int, j as int));
            }
            j = j + 1;
        }
        assert((i + 1) * n == i * n + n) by (nonlinear_arith);
        i = i + 1;
    }
    let ghost roots = comps@;
    proof {
        assert forall|a: int, b: int| 0 <= a < n && 0 <= b < n implies (#[trigger] roots[a] == #[trigger] roots[b]
            <==> connected(graph, t, a, b)) by {
            if connected(graph, t, a, b) {
                let p = choose|path: Seq<int>| #[trigger]
                    is_path(graph, t, path) && path[0] == a && path.last() == b;
                lemma_path_same(graph, t, roots, p, p.len() - 1);
            }
        }
    }
    // The largest recorded size belongs to a representative.
    let mut best: usize = 0;
    i = 1;
    while i < n
        invariant
            n == graph.n,
            1 <= i <= n,
            best < i,
            comps.wf(),
            comps@.len() == n,
            comps.sizes().len() == n,
            comps.size@ == comps.sizes(),
            forall|k: int| 0 <= k < i ==> #[trigger] comps.sizes()[k] <= comps.sizes()[best as int],
            forall|k: int|
                0 <= k < best ==> #[trigger] comps.sizes()[k] < comps.sizes()[best as int],
        decreases n - i,
    {
        if comps.size[i] > comps.size[best] {
            best = i;
        }
        i = i + 1;
    }
    proof {
        comps.lemma_sizes(best as int);
        assert(comps.sizes()[comps@[best as int]] <= comps.sizes()[best as int]);
        assert(roots[best as int] == best);
    }
    let mut kept: Vec<usize> = Vec::new();
    let ghost sizes = comps.sizes();
    i = 0;
    while i < n
        invariant
            n == graph.n,
            i <= n,
            best < n,
            comps.wf(),
            comps.sizes() == sizes,
            comps@ == roots,
            roots.len() == n,
            kept@.len() == count_eq(roots, best as int, i as int),
            forall|a: int, b: int| 0 <= a < b < kept@.len() ==> kept@[a] < kept@[b],
            forall|a: int|
                0 <= a < kept@.len() ==> (#[trigger] kept@[a]) < i && roots[kept@[a] as int] == best,
            forall|b: int|
                0 <= b < i && #[trigger] roots[b] == best ==> kept@.contains(b as usize),
        decreases n - i,
    {
        let ghost k0 = kept@;
        if comps.find_set_by_elem(i) == best {
            kept.push(i);
        }
        proof {
            assert forall|b: int| 0 <= b < i + 1 && #[trigger] roots[b] == best implies kept@.contains(
                b as usize,
            ) by {
                if b < i {
                    assert(k0.contains(b as usize));
                    let q = k0.index_of(b as usize);
                    assert(kept@[q] == b);
                } else {
                    assert(kept@[kept@.len() - 1] == b);
                }
            }
        }
        i = i + 1;
    }
    proof {
        lemma_count_eq_pos(roots, best as int, n as int, best as int);
        assert forall|a: int, b: int| 0 <= a < kept@.len() && 0 <= b < n implies (#[trigger] kept@.contains(
            b as usize,
        ) <==> connected(graph, t, #[trigger] kept@[a] as int, b)) by {
            let x = kept@[a] as int;
            assert(roots[x] == best);
            assert(roots[x] == roots[b] <==> connected(graph, t, x, b));
            if kept@.contains(b as usize) {
                let q = kept@.index_of(b as usize);
                assert(roots[kept@[q] as int] == best);
            }
        }
        assert forall|a: int| 0 <= a < n implies #[trigger] count_connected(graph, t, a, n as int)
            <= kept@.len() by {
            lemma_count_connected(graph, t, roots, a, n as int);
            comps.lemma_sizes(a);
            comps.lemma_sizes(best as int);
            assert(sizes[roots[a]] <= sizes[best as int]);
        }
        assert(is_first_biggest(roots, best as int)) by {
            comps.lemma_sizes(best as int);
            assert forall|x: int| 0 <= x < n && #[trigger] roots[x] == x implies count_eq(
                roots,
                x,
                n as int,
            ) <= count_eq(roots, best as int, n as int) && (x < best ==> count_eq(
                roots,
                x,
                n as int,
            ) < count_eq(roots, best as int, n as int)) by {
                comps.lemma_sizes(x);
                assert(sizes[x] <= sizes[best as int]);
            }
        }
        assert forall|b: int| 0 <= b < n implies (#[trigger] kept@.contains(b as usize) <==> roots[b]
            == best) by {
            if kept@.contains(b as usize) {
                let q = kept@.index_of(b as usize);
                assert(roots[kept@[q] as int] == best);
            }
        }
    }
    kept
}

/// A list of distinct images that are all connected with `a` is no longer than
/// their number.
pub proof fn lemma_connected_listed(
    g: &MatchGraph,
    t: Ratio,
    a: int,
    k: int,
    others: Seq<usize>,
)
    requires
        0 <= k <= usize::MAX,
        others.no_duplicates(),
        forall|i: int|
            0 <= i < others.len() ==> #[trigger] others[i] < k && connected(
                g,
                t,
                a,
                others[i] as int,
            ),
    ensures
        others.len() <= count_connected(g, t, a, k),
    decreases k,
{
    if k > 0 {
        let last = (k - 1) as usize;
        if others.contains(last) {
            let p = others.index_of(last);
            let rest = others.remove(p);
            assert forall|i: int| 0 <= i < rest.len() implies #[trigger] rest[i] < k - 1
                && connected(g, t, a, rest[i] as int) by {
                let j = if i < p { i } else { i + 1 };
                assert(rest[i] == others[j]);
                assert(others[j] != others[p]);
            }
            assert(rest.no_duplicates()) by {
                assert forall|x: int, y: int|
                    0 <= x < rest.len() && 0 <= y < rest.len() && x != y implies rest[x]
                    != rest[y] by {
                    let u = if x < p { x } else { x + 1 };
                    let v = if y < p { y } else { y + 1 };
                    assert(others[u] != others[v]);
                }
            }
            lemma_connected_listed(g, t, a, k - 1, rest);
            assert(others[p] < k && connected(g, t, a, others[p] as int));
        } else {
            assert forall|i: int| 0 <= i < others.len() implies #[trigger] others[i] < k - 1
                && connected(g, t, a, others[i] as int) by {
                assert(others.contains(others[i]));
            }
            lemma_connected_listed(g, t, a, k - 1, others);
        }
    } else if others.len() > 0 {
        assert(others[0] < k);
    }
}

/// A pair that is listed once, one way or the other, is entered as it is
/// listed, and turned round for its images in reverse. Pairs that are not
/// listed have no matches.
pub proof fn lemma_entered_listed(
    upper: Seq<((usize, usize), PairMatches)>,
    n: int,
    k: int,
    a: int,
    b: int,
)
    requires
        0 <= n <= upper.len(),
    ensures
        0 <= k < n && upper[k].0.0 == a && upper[k].0.1 == b && a != b && (forall|m: int|
            k < m < n ==> !(((#[trigger] upper[m]).0.0 == a && upper[m].0.1 == b) || (
            upper[m].0.0 == b && upper[m].0.1 == a))) ==> {
            &&& entered(upper, n, a, b) == upper[k].1@
            &&& entered(upper, n, b, a) == turned(upper[k].1@)
        },
        (forall|m: int|
            0 <= m < n ==> !(((#[trigger] upper[m]).0.0 == a && upper[m].0.1 == b) || (
            upper[m].0.0 == b && upper[m].0.1 == a))) ==> entered(upper, n, a, b) == no_pair(),
    decreases n,
{
    if n > 0 {
        lemma_entered_listed(upper, n - 1, k, a, b);
        let last = upper[n - 1];
    }
}

/// A pair seen from its other image has the same matches, each the other way
/// round, and everything else alike.
pub proof fn lemma_turned(p: Pair, i: int)
    requires
        0 <= i < p.matches.len(),
    ensures
        turned(p).matches.len() == p.matches.len(),
        turned(p).matches[i].query == p.matches[i].train,
        turned(p).matches[i].train == p.matches[i].query,
        turned(p).matches[i].distance == p.matches[i].distance,
        turned(p).inliers == p.inliers,
        turned(p).num_inliers == p.num_inliers,
        turned(p).has_h == p.has_h,
        turned(p).confidence == p.confidence,
{
}

/// Joining two sets puts their elements together and no others.
pub proof fn lemma_joined(s: Seq<int>, a: int, b: int, r: int, i: int, j: int)
    requires
        r == a || r == b,
        0 <= i < s.len(),
        0 <= j < s.len(),
    ensures
        joined(s, a, b, r)[i] == joined(s, a, b, r)[j] <==> s[i] == s[j] || ((s[i] == a || s[i] == b)
            && (s[j] == a || s[j] == b)),
        joined(s, a, b, r).len() == s.len(),
{
}

/// The pairs are looked at row by row: one that is confident joins the sets of
/// its images, if they are not one already.
pub proof fn lemma_sets_step(g: &MatchGraph, t: Ratio, i: int, j: int)
    requires
        0 <= i < g.n,
        0 <= j < g.n,
    ensures
        ({
            let n = g.n as int;
            let (s, r) = (sets_until(g, t, i * n + j), sets_until(g, t, i * n + j + 1));
            let (a, b) = (s.roots[i], s.roots[j]);
            let c = g.pair(i, j).confidence;
            if c.num * t.den >= t.num * c.den && a != b {
                // The second image's set takes in the first's, unless that is
                // of higher rank.
                &&& r.roots.len() == s.roots.len()
                &&& forall|x: int|
                    0 <= x < s.roots.len() ==> #[trigger] r.roots[x] == if s.roots[x] != a
                        && s.roots[x] != b {
                        s.roots[x]
                    } else if s.ranks[a] > s.ranks[b] {
                        a
                    } else {
                        b
                    }
            } else {
                r == s
            }
        }),
{
    let n = g.n as int;
    lemma_index(j, i, n, n);
    lemma_index_split(j, i, n);
}

} // verus!
