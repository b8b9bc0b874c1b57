//! The stages of stitching: which images are kept, which are placed from
//! their pose alone, and the preview on its full canvas.

use crate::estimation::copy_of;
use crate::estimation::entered;
use crate::estimation::is_biggest_component;
use crate::estimation::is_chosen_component;
use crate::estimation::leave_biggest_component;
use crate::estimation::no_pair;
use crate::estimation::turned;
use crate::estimation::MatchGraph;
use crate::ids::find_id;
use crate::imgproc::lemma_index;
use crate::imgproc::lemma_index_split;
use crate::imgproc::GrayImage;
use crate::layout::wrap_column;
use crate::spanning::listed_before;
use crate::matcher::PairMatches;
use crate::matcher::Ratio;
use vstd::prelude::*;

verus! {

/// Why stitching cannot go on.
#[derive(Debug, Clone, Copy, PartialEq, Eq, Structural)]
pub enum PipelineError {
    TooFewImages,
    NoOverlap,
    AdjustmentFailed,
    SourcesMismatch,
}

impl PipelineError {
    /// What to tell the user.
    pub fn message(&self) -> (s: &'static str)
        ensures
            s@ == match *self {
                PipelineError::TooFewImages => "need at least two images"@,
                PipelineError::NoOverlap => "images do not overlap enough to align"@,
                PipelineError::AdjustmentFailed => "bundle adjustment failed"@,
                PipelineError::SourcesMismatch => "sources/alignment mismatch"@,
            },
    {
        match self {
            PipelineError::TooFewImages => "need at least two images",
            PipelineError::NoOverlap => "images do not overlap enough to align",
            PipelineError::AdjustmentFailed => "bundle adjustment failed",
            PipelineError::SourcesMismatch => "sources/alignment mismatch",
        }
    }
}

/// Aligning takes two images.
pub fn check_count(n: usize) -> (r: Result<(), PipelineError>)
    ensures
        r == if n < 2 {
            Err::<(), PipelineError>(PipelineError::TooFewImages)
        } else {
            Ok(())
        },
{
    if n < 2 {
        Err(PipelineError::TooFewImages)
    } else {
        Ok(())
    }
}

/// Every aligned image has its source.
pub fn check_sources(sources: usize, aligned: usize) -> (r: Result<(), PipelineError>)
    ensures
        r == if sources != aligned {
            Err::<(), PipelineError>(PipelineError::SourcesMismatch)
        } else {
            Ok(())
        },
{
    if sources != aligned {
        Err(PipelineError::SourcesMismatch)
    } else {
        Ok(())
    }
}

/// The ids of the first `k` images that are not kept, in order.
pub open spec fn left_out(ids: Seq<u32>, kept: Seq<usize>, k: int) -> Seq<u32>
    decreases k,
{
    if k <= 0 {
        Seq::empty()
    } else if kept.contains((k - 1) as usize) {
        left_out(ids, kept, k - 1)
    } else {
        left_out(ids, kept, k - 1).push(ids[k - 1])
    }
}

/// The confidence from which on two images count as overlapping.
pub open spec fn overlap_confidence() -> Ratio {
    Ratio { num: 1, den: 1 }
}

fn contains_index(list: &Vec<usize>, i: usize) -> (b: bool)
    ensures
        b == list@.contains(i),
{
    let mut k: usize = 0;
    while k < list.len()
        invariant
            k <= list@.len(),
            forall|j: int| 0 <= j < k ==> #[trigger] list@[j] != i,
        decreases list@.len() - k,
    {
        if list[k] == i {
            return true;
        }
        k = k + 1;
    }
    false
}

/// The images that hang together, and the ids of those that do not belong.
pub fn choose_kept(graph: &MatchGraph, ids: &[u32]) -> (r: Result<
    (Vec<usize>, Vec<u32>),
    PipelineError,
>)
    requires
        graph.wf(),
        graph.n >= 1,
        ids@.len() == graph.n,
    ensures
        match r {
            Ok((kept, dropped)) => {
                &&& is_biggest_component(graph, overlap_confidence(), kept@)
                &&& is_chosen_component(graph, overlap_confidence(), kept@)
                &&& kept@.len() >= 2
                &&& dropped@ == left_out(ids@, kept@, graph.n as int)
            },
            Err(e) => e is NoOverlap && exists|kept: Seq<usize>| #[trigger]
                is_biggest_component(graph, overlap_confidence(), kept) && is_chosen_component(
                    graph,
                    overlap_confidence(),
                    kept,
                ) && kept.len() < 2,
        },
{
    let kept = leave_biggest_component(graph, Ratio { num: 1, den: 1 });
    if kept.len() < 2 {
        assert(is_biggest_component(graph, overlap_confidence(), kept@));
        return Err(PipelineError::NoOverlap);
    }
    let mut dropped: Vec<u32> = Vec::new();
    let mut i: usize = 0;
    while i < graph.n
        invariant
            i <= graph.n,
            ids@.len() == graph.n,
            dropped@ == left_out(ids@, kept@, i as int),
        decreases graph.n - i,
    {
        if !contains_index(&kept, i) {
            dropped.push(ids[i]);
        }
        i = i + 1;
    }
    Ok((kept, dropped))
}

/// What the graph says of the images at `kept`, among each other.
pub open spec fn is_subgraph(sub: &MatchGraph, g: &MatchGraph, kept: Seq<usize>) -> bool {
    &&& sub.wf()
    &&& sub.n == kept.len()
    &&& forall|a: int, b: int|
        0 <= a < kept.len() && 0 <= b < kept.len() ==> #[trigger] sub.pair(a, b) == if a < b {
            g.pair(kept[a] as int, kept[b] as int)
        } else if a == b {
            no_pair()
        } else {
            turned(g.pair(kept[b] as int, kept[a] as int))
        }
}

/// The graph of the images that are kept. Where all are, it stays as it is.
#[verifier::spinoff_prover]
#[verifier::rlimit(40)]
pub fn keep_images(graph: MatchGraph, kept: &[usize]) -> (sub: MatchGraph)
    requires
        graph.wf(),
        kept@.len() <= graph.n,
        forall|a: int| 0 <= a < kept@.len() ==> #[trigger] kept@[a] < graph.n,
    ensures
        kept@.len() == graph.n ==> sub == graph,
        kept@.len() < graph.n ==> is_subgraph(&sub, &graph, kept@),
{
    let m: usize = kept.len();
    if m == graph.n {
        return graph;
    }
    let mut upper: Vec<((usize, usize), PairMatches)> = Vec::new();
    let mut a: usize = 0;
    while a < m
        invariant
            m == kept@.len(),
            graph.wf(),
            forall|k: int| 0 <= k < m ==> #[trigger] kept@[k] < graph.n,
            a <= m,
            pairs_until(upper@, &graph, kept@, a as int, 0),
        decreases m - a,
    {
        let mut b: usize = a + 1;
        assert(pairs_until(upper@, &graph, kept@, a as int, b as int)) by {
            assert forall|i: int, j: int|
                0 <= i < j < kept@.len() && (i < a || (i == a && j < b)) implies #[trigger] is_listed(
                upper@,
                i,
                j,
            ) by {
                assert(i < a);
            }
            assert forall|k: int| 0 <= k < upper@.len() implies entry_ok(
                #[trigger] upper@[k],
                &graph,
                kept@,
                a as int,
                b as int,
            ) by {
                assert(entry_ok(upper@[k], &graph, kept@, a as int, 0));
            }
        }
        while b < m
            invariant
                m == kept@.len(),
                graph.wf(),
                forall|k: int| 0 <= k < m ==> #[trigger] kept@[k] < graph.n,
                a < m,
                a < b <= m,
                pairs_until(upper@, &graph, kept@, a as int, b as int),
            decreases m - b,
        {
            let ghost u0 = upper@;
            assert(kept@[a as int] < graph.n && kept@[b as int] < graph.n);
            upper.push(((a, b), copy_of(graph.at(kept[a], kept[b]))));
            proof {
                let u1 = upper@;
                assert(u1[u0.len() as int].0 == (a, b));
                assert forall|i: int, j: int|
                    0 <= i < j < kept@.len() && (i < a || (i == a && j < b + 1)) implies #[trigger] is_listed(
                    u1,
                    i,
                    j,
                ) by {
                    if i == a && j == b {
                        assert(u1[u0.len() as int].0.0 == i);
                    } else {
                        assert(is_listed(u0, i, j));
                        let k = choose|k: int|
                            0 <= k < u0.len() && (#[trigger] u0[k]).0.0 == i && u0[k].0.1 == j;
                        assert(u1[k].0.0 == i);
                    }
                }
                assert forall|k: int| 0 <= k < u1.len() implies entry_ok(
                    #[trigger] u1[k],
                    &graph,
                    kept@,
                    a as int,
                    b + 1,
                ) by {
                    if k < u0.len() {
                        assert(entry_ok(u0[k], &graph, kept@, a as int, b as int));
                    }
                }
            }
            b = b + 1;
        }
        assert(pairs_until(upper@, &graph, kept@, a + 1, 0)) by {
            assert forall|k: int| 0 <= k < upper@.len() implies entry_ok(
                #[trigger] upper@[k],
                &graph,
                kept@,
                a + 1,
                0,
            ) by {
                assert(entry_ok(upper@[k], &graph, kept@, a as int, b as int));
            }
        }
        a = a + 1;
    }
    proof {
        assert forall|k: int| 0 <= k < upper@.len() implies (#[trigger] upper@[k]).0.0 < m
            && upper@[k].0.1 < m && upper@[k].1.confidence.wf() by {
            assert(entry_ok(upper@[k], &graph, kept@, m as int, 0));
        }
        assert(m * m <= graph.n * graph.n) by (nonlinear_arith)
            requires
                m <= graph.n,
        ;
        assert(graph.entries@.len() == graph.entries.len());
    }
    let ghost all = upper@;
    let sub = MatchGraph::from_upper_triangle(m, upper);
    proof {
        assert forall|x: int, y: int| 0 <= x < m && 0 <= y < m implies #[trigger] sub.pair(x, y) == if x
            < y {
            graph.pair(kept@[x] as int, kept@[y] as int)
        } else if x == y {
            no_pair()
        } else {
            turned(graph.pair(kept@[y] as int, kept@[x] as int))
        } by {
            lemma_entered_pairs(all, &graph, kept@, m as int, all.len() as int, x, y);
        }
    }
    sub
}

/// A result entered for two kept images, listed before (`a`, `b`).
spec fn entry_ok(
    u: ((usize, usize), PairMatches),
    g: &MatchGraph,
    kept: Seq<usize>,
    a: int,
    b: int,
) -> bool {
    let (i, j) = (u.0.0 as int, u.0.1 as int);
    &&& i < j < kept.len()
    &&& i < a || (i == a && j < b)
    &&& u.1@ == g.pair(kept[i] as int, kept[j] as int)
    &&& u.1.confidence.wf()
}

/// Results for every pair of kept images listed before (`a`, `b`).
spec fn pairs_until(
    upper: Seq<((usize, usize), PairMatches)>,
    g: &MatchGraph,
    kept: Seq<usize>,
    a: int,
    b: int,
) -> bool {
    &&& forall|k: int| 0 <= k < upper.len() ==> entry_ok(#[trigger] upper[k], g, kept, a, b)
    &&& forall|i: int, j: int|
        0 <= i < j < kept.len() && (i < a || (i == a && j < b)) ==> #[trigger] is_listed(upper, i, j)
}

/// A result is entered for (`i`, `j`).
spec fn is_listed(upper: Seq<((usize, usize), PairMatches)>, i: int, j: int) -> bool {
    exists|k: int| 0 <= k < upper.len() && (#[trigger] upper[k]).0.0 == i && upper[k].0.1 == j
}

/// What is entered for a pair comes from its result.
proof fn lemma_entered_pairs(
    upper: Seq<((usize, usize), PairMatches)>,
    g: &MatchGraph,
    kept: Seq<usize>,
    m: int,
    k: int,
    x: int,
    y: int,
)
    requires
        m == kept.len(),
        pairs_until(upper, g, kept, m, 0),
        0 <= k <= upper.len(),
        0 <= x < m,
        0 <= y < m,
    ensures
        entered(upper, k, x, y) == no_pair() || entered(upper, k, x, y) == if x < y {
            g.pair(kept[x] as int, kept[y] as int)
        } else {
            turned(g.pair(kept[y] as int, kept[x] as int))
        },
        x == y ==> entered(upper, k, x, y) == no_pair(),
        x != y && k == upper.len() ==> entered(upper, k, x, y) == if x < y {
            g.pair(kept[x] as int, kept[y] as int)
        } else {
            turned(g.pair(kept[y] as int, kept[x] as int))
        },
    decreases k,
{
    let target = if x < y {
        g.pair(kept[x] as int, kept[y] as int)
    } else {
        turned(g.pair(kept[y] as int, kept[x] as int))
    };
    if k > 0 {
        lemma_entered_pairs(upper, g, kept, m, k - 1, x, y);
        assert(entry_ok(upper[k - 1], g, kept, m, 0));
    }
    if x != y && k == upper.len() {
        let (i, j) = if x < y {
            (x, y)
        } else {
            (y, x)
        };
        assert(is_listed(upper, i, j));
        let p = choose|p: int|
            0 <= p < upper.len() && (#[trigger] upper[p]).0.0 == i && upper[p].0.1 == j;
        lemma_entered_stays(upper, g, kept, m, p, k, x, y);
    }
}

proof fn lemma_entered_stays(
    upper: Seq<((usize, usize), PairMatches)>,
    g: &MatchGraph,
    kept: Seq<usize>,
    m: int,
    p: int,
    k: int,
    x: int,
    y: int,
)
    requires
        m == kept.len(),
        pairs_until(upper, g, kept, m, 0),
        0 <= p < k <= upper.len(),
        0 <= x < m,
        0 <= y < m,
        x != y,
        upper[p].0.0 == (if x < y {
            x
        } else {
            y
        }),
        upper[p].0.1 == (if x < y {
            y
        } else {
            x
        }),
    ensures
        entered(upper, k, x, y) == if x < y {
            g.pair(kept[x] as int, kept[y] as int)
        } else {
            turned(g.pair(kept[y] as int, kept[x] as int))
        },
    decreases k,
{
    assert(entry_ok(upper[k - 1], g, kept, m, 0));
    if p < k - 1 {
        lemma_entered_stays(upper, g, kept, m, p, k - 1, x, y);
    }
}

/// `ps` lists the pairs of `n` images, the first before the second, up to but
/// not including (`i`, `j`): each of them once, row by row.
pub open spec fn lists_pairs(ps: Seq<(usize, usize)>, n: int, i: int, j: int) -> bool {
    &&& forall|q: int|
        0 <= q < ps.len() ==> (#[trigger] ps[q]).0 < ps[q].1 < n && listed_before(
            ps[q].0 as int,
            ps[q].1 as int,
            i,
            j,
        )
    &&& forall|a: int, b: int|
        0 <= a < b < ps.len() ==> listed_before(
            (#[trigger] ps[a]).0 as int,
            ps[a].1 as int,
            (#[trigger] ps[b]).0 as int,
            ps[b].1 as int,
        )
    &&& forall|x: usize, y: usize|
        x < y < n && listed_before(x as int, y as int, i, j) ==> #[trigger] ps.contains((x, y))
}

/// Every pair of `n` images, the first before the second, row by row.
pub fn all_pairs(n: usize) -> (pairs: Vec<(usize, usize)>)
    ensures
        lists_pairs(pairs@, n as int, n as int, 0),
{
    let mut pairs: Vec<(usize, usize)> = Vec::new();
    let mut i: usize = 0;
    while i < n
        invariant
            i <= n,
            lists_pairs(pairs@, n as int, i as int, 0),
        decreases n - i,
    {
        let mut j: usize = i + 1;
        while j < n
            invariant
                i < j <= n,
                lists_pairs(pairs@, n as int, i as int, j as int),
            decreases n - j,
        {
            let ghost before = pairs@;
            pairs.push((i, j));
            proof {
                let ps = pairs@;
                assert forall|x: usize, y: usize|
                    x < y < n && listed_before(x as int, y as int, i as int, j + 1) implies #[trigger] ps.contains(
                    (x, y),
                ) by {
                    if x == i && y == j {
                        assert(ps[before.len() as int] == (x, y));
                    } else {
                        assert(before.contains((x, y)));
                        let z = before.index_of((x, y));
                        assert(ps[z] == (x, y));
                    }
                }
            }
            j = j + 1;
        }
        i = i + 1;
    }
    pairs
}

/// Image `i` was dropped and can be placed from its pose.
pub open spec fn is_rescued(
    ids: Seq<u32>,
    posed: Seq<bool>,
    dropped: Seq<u32>,
    anchored: bool,
    i: int,
) -> bool {
    dropped.contains(ids[i]) && posed[i] && anchored
}

/// Those of the first `k` images that are placed from their pose.
pub open spec fn rescued_until(
    ids: Seq<u32>,
    posed: Seq<bool>,
    dropped: Seq<u32>,
    anchored: bool,
    k: int,
) -> Seq<usize>
    decreases k,
{
    if k <= 0 {
        Seq::empty()
    } else {
        let before = rescued_until(ids, posed, dropped, anchored, k - 1);
        if is_rescued(ids, posed, dropped, anchored, k - 1) {
            before.push((k - 1) as usize)
        } else {
            before
        }
    }
}

/// Ids of those of the first `k` images that stay dropped.
pub open spec fn lost_until(
    ids: Seq<u32>,
    posed: Seq<bool>,
    dropped: Seq<u32>,
    anchored: bool,
    k: int,
) -> Seq<u32>
    decreases k,
{
    if k <= 0 {
        Seq::empty()
    } else {
        let before = lost_until(ids, posed, dropped, anchored, k - 1);
        if dropped.contains(ids[k - 1]) && !is_rescued(ids, posed, dropped, anchored, k - 1) {
            before.push(ids[k - 1])
        } else {
            before
        }
    }
}

/// Sorts dropped images into those that can be placed from the pose they
/// carry and those that stay dropped. Poses count only where the frame they
/// are given in could be `anchored` to the panorama.
pub fn rescue_dropped(ids: &[u32], posed: &[bool], dropped: &[u32], anchored: bool) -> (r: (
    Vec<usize>,
    Vec<u32>,
))
    requires
        posed@.len() == ids@.len(),
    ensures
        r.0@ == rescued_until(ids@, posed@, dropped@, anchored, ids@.len() as int),
        r.1@ == lost_until(ids@, posed@, dropped@, anchored, ids@.len() as int),
{
    let mut rescued: Vec<usize> = Vec::new();
    let mut lost: Vec<u32> = Vec::new();
    let mut i: usize = 0;
    while i < ids.len()
        invariant
            posed@.len() == ids@.len(),
            i <= ids@.len(),
            rescued@ == rescued_until(ids@, posed@, dropped@, anchored, i as int),
            lost@ == lost_until(ids@, posed@, dropped@, anchored, i as int),
        decreases ids@.len() - i,
    {
        let found: Option<usize> = find_id(dropped, ids[i]);
        proof {
            if let Some(k) = found {
                assert(dropped@[k as int] == ids@[i as int]);
            }
        }
        if found.is_some() {
            if posed[i] && anchored {
                rescued.push(i);
            } else {
                lost.push(ids[i]);
            }
        }
        i = i + 1;
    }
    (rescued, lost)
}

/// What becomes of the images is settled: each is either kept, or placed from
/// its pose, or reported as dropped. None comes twice, and of the images that
/// are not kept those with a pose are placed from it, where there is an anchor.
pub proof fn lemma_none_forgotten(
    ids: Seq<u32>,
    kept: Seq<usize>,
    posed: Seq<bool>,
    anchored: bool,
    i: int,
)
    requires
        ids.no_duplicates(),
        ids.len() <= usize::MAX,
        0 <= i < ids.len(),
    ensures
        ({
            let n = ids.len() as int;
            let dropped = left_out(ids, kept, n);
            let rescued = rescued_until(ids, posed, dropped, anchored, n);
            let lost = lost_until(ids, posed, dropped, anchored, n);
            let (k, r, l) = (
                kept.contains(i as usize),
                rescued.contains(i as usize),
                lost.contains(ids[i]),
            );
            &&& (k && !r && !l) || (!k && r && !l) || (!k && !r && l)
            &&& r <==> !k && posed[i] && anchored
            &&& rescued.no_duplicates()
            &&& lost.no_duplicates()
            &&& forall|q: int| 0 <= q < rescued.len() ==> #[trigger] rescued[q] < n
            &&& forall|q: int| 0 <= q < lost.len() ==> ids.contains(#[trigger] lost[q])
        }),
{
    let n = ids.len() as int;
    let dropped = left_out(ids, kept, n);
    lemma_left_out(ids, kept, n);
    lemma_rescued(ids, posed, dropped, anchored, n);
    lemma_lost(ids, posed, dropped, anchored, n);
    let rescued = rescued_until(ids, posed, dropped, anchored, n);
    let lost = lost_until(ids, posed, dropped, anchored, n);
    assert(dropped.contains(ids[i]) <==> !kept.contains(i as usize)) by {
        if dropped.contains(ids[i]) {
            let q = dropped.index_of(ids[i]);
            let j = choose|j: int| 0 <= j < n && !kept.contains(j as usize) && ids[j] == dropped[q];
            assert(j == i);
        }
    }
    assert(lost.contains(ids[i]) <==> dropped.contains(ids[i]) && !is_rescued(
        ids,
        posed,
        dropped,
        anchored,
        i,
    )) by {
        if lost.contains(ids[i]) {
            let q = lost.index_of(ids[i]);
            assert(is_lost_id(ids, posed, dropped, anchored, n, lost[q]));
            let j = choose|j: int| 0 <= j < n && #[trigger] is_lost(ids, posed, dropped, anchored, j)
                && ids[j] == lost[q];
            assert(j == i);
        }
        if is_lost(ids, posed, dropped, anchored, i) {
            assert(lost.contains(ids[i]));
        }
    }
    assert(rescued.contains(i as usize) <==> is_rescued(ids, posed, dropped, anchored, i));
    assert forall|q: int| 0 <= q < lost.len() implies ids.contains(#[trigger] lost[q]) by {
        assert(is_lost_id(ids, posed, dropped, anchored, n, lost[q]));
        let j = choose|j: int| 0 <= j < n && #[trigger] is_lost(ids, posed, dropped, anchored, j)
            && ids[j] == lost[q];
        assert(ids[j] == lost[q]);
    }
}

/// Image `i` was dropped and stays so.
pub open spec fn is_lost(
    ids: Seq<u32>,
    posed: Seq<bool>,
    dropped: Seq<u32>,
    anchored: bool,
    i: int,
) -> bool {
    dropped.contains(ids[i]) && !is_rescued(ids, posed, dropped, anchored, i)
}

/// `id` is that of one of the first `k` images that were dropped and stay so.
spec fn is_lost_id(
    ids: Seq<u32>,
    posed: Seq<bool>,
    dropped: Seq<u32>,
    anchored: bool,
    k: int,
    id: u32,
) -> bool {
    exists|j: int|
        0 <= j < k && #[trigger] is_lost(ids, posed, dropped, anchored, j) && ids[j] == id
}

proof fn lemma_left_out(ids: Seq<u32>, kept: Seq<usize>, k: int)
    requires
        0 <= k <= ids.len(),
    ensures
        forall|i: int|
            0 <= i < k && !kept.contains(i as usize) ==> left_out(ids, kept, k).contains(
                #[trigger] ids[i],
            ),
        forall|q: int|
            0 <= q < left_out(ids, kept, k).len() ==> exists|j: int|
                0 <= j < k && !kept.contains(j as usize) && ids[j] == #[trigger] left_out(
                    ids,
                    kept,
                    k,
                )[q],
    decreases k,
{
    if k > 0 {
        lemma_left_out(ids, kept, k - 1);
        let before = left_out(ids, kept, k - 1);
        let after = left_out(ids, kept, k);
        assert forall|i: int| 0 <= i < k && !kept.contains(i as usize) implies after.contains(
            #[trigger] ids[i],
        ) by {
            if i == k - 1 {
                assert(after[before.len() as int] == ids[i]);
            } else {
                let z = before.index_of(ids[i]);
                assert(after[z] == ids[i]);
            }
        }
        assert forall|q: int| 0 <= q < after.len() implies exists|j: int|
            0 <= j < k && !kept.contains(j as usize) && ids[j] == #[trigger] after[q] by {
            if q < before.len() {
                assert(after[q] == before[q]);
                let j = choose|j: int|
                    0 <= j < k - 1 && !kept.contains(j as usize) && ids[j] == before[q];
                assert(0 <= j < k && ids[j] == after[q]);
            } else {
                assert(ids[k - 1] == after[q]);
            }
        }
    }
}

proof fn lemma_rescued(
    ids: Seq<u32>,
    posed: Seq<bool>,
    dropped: Seq<u32>,
    anchored: bool,
    k: int,
)
    requires
        0 <= k <= ids.len() <= usize::MAX,
    ensures
        ({
            let r = rescued_until(ids, posed, dropped, anchored, k);
            &&& r.no_duplicates()
            &&& forall|q: int|
                0 <= q < r.len() ==> (#[trigger] r[q]) < k && is_rescued(
                    ids,
                    posed,
                    dropped,
                    anchored,
                    r[q] as int,
                )
            &&& forall|i: int|
                0 <= i < k && #[trigger] is_rescued(ids, posed, dropped, anchored, i) ==> r.contains(
                    i as usize,
                )
        }),
    decreases k,
{
    if k > 0 {
        lemma_rescued(ids, posed, dropped, anchored, k - 1);
        let before = rescued_until(ids, posed, dropped, anchored, k - 1);
        let r = rescued_until(ids, posed, dropped, anchored, k);
        assert forall|q: int| 0 <= q < r.len() implies (#[trigger] r[q]) < k && is_rescued(
            ids,
            posed,
            dropped,
            anchored,
            r[q] as int,
        ) by {
            if q < before.len() {
                assert(r[q] == before[q]);
            }
        }
        assert forall|a: int, b: int| 0 <= a < r.len() && 0 <= b < r.len() && a != b implies r[a]
            != r[b] by {
            if a < before.len() {
                assert(r[a] == before[a] && before[a] < k - 1);
            }
            if b < before.len() {
                assert(r[b] == before[b] && before[b] < k - 1);
            }
        }
        assert forall|i: int| 0 <= i < k && #[trigger] is_rescued(ids, posed, dropped, anchored, i) implies r.contains(
            i as usize,
        ) by {
            if i == k - 1 {
                assert(r[before.len() as int] == i as usize);
            } else {
                let z = before.index_of(i as usize);
                assert(r[z] == i as usize);
            }
        }
    }
}

proof fn lemma_lost(ids: Seq<u32>, posed: Seq<bool>, dropped: Seq<u32>, anchored: bool, k: int)
    requires
        ids.no_duplicates(),
        0 <= k <= ids.len(),
    ensures
        ({
            let l = lost_until(ids, posed, dropped, anchored, k);
            &&& l.no_duplicates()
            &&& forall|q: int|
                0 <= q < l.len() ==> is_lost_id(ids, posed, dropped, anchored, k, #[trigger] l[q])
            &&& forall|i: int|
                0 <= i < k && #[trigger] is_lost(ids, posed, dropped, anchored, i) ==> l.contains(
                    ids[i],
                )
        }),
    decreases k,
{
    if k > 0 {
        lemma_lost(ids, posed, dropped, anchored, k - 1);
        let before = lost_until(ids, posed, dropped, anchored, k - 1);
        let l = lost_until(ids, posed, dropped, anchored, k);
        assert forall|q: int| 0 <= q < l.len() implies is_lost_id(
            ids,
            posed,
            dropped,
            anchored,
            k,
            #[trigger] l[q],
        ) by {
            if q < before.len() {
                assert(l[q] == before[q]);
                assert(is_lost_id(ids, posed, dropped, anchored, k - 1, before[q]));
                let j = choose|j: int|
                    0 <= j < k - 1 && #[trigger] is_lost(ids, posed, dropped, anchored, j) && ids[j]
                        == before[q];
                assert(is_lost(ids, posed, dropped, anchored, j) && ids[j] == l[q]);
            } else {
                assert(is_lost(ids, posed, dropped, anchored, k - 1) && ids[k - 1] == l[q]);
            }
        }
        assert forall|q: int| 0 <= q < before.len() implies #[trigger] before[q] != ids[k - 1] by {
            assert(is_lost_id(ids, posed, dropped, anchored, k - 1, before[q]));
            let j = choose|j: int|
                0 <= j < k - 1 && #[trigger] is_lost(ids, posed, dropped, anchored, j) && ids[j]
                    == before[q];
            assert(ids[j] != ids[k - 1]);
        }
        assert(l.no_duplicates());
        assert forall|i: int| 0 <= i < k && #[trigger] is_lost(ids, posed, dropped, anchored, i) implies l.contains(
            ids[i],
        ) by {
            if i == k - 1 {
                assert(l[before.len() as int] == ids[i]);
            } else {
                let z = before.index_of(ids[i]);
                assert(l[z] == ids[i]);
            }
        }
    }
}

/// A blended panorama on a full canvas, four bytes a pixel; what is not
/// covered is transparent.
#[derive(Debug)]
pub struct Preview {
    pub rgba: Vec<u8>,
    pub width: usize,
    pub height: usize,
}

/// The strip column shown in canvas column `c`: the last of the first `k`
/// that is covered in row `y` and falls there.
pub open spec fn shown_column(
    coverage: &GrayImage,
    left: int,
    canvas_w: int,
    y: int,
    c: int,
    k: int,
) -> Option<int>
    decreases k,
{
    if k <= 0 {
        None
    } else if coverage.px(k - 1, y) != 0 && (left + k - 1) % canvas_w == c {
        Some(k - 1)
    } else {
        shown_column(coverage, left, canvas_w, y, c, k - 1)
    }
}

/// Byte `b` of a preview once the strip's rows above `yy` are shown, and the
/// first `k` columns of row `yy`. The strip starts at row `top` and column
/// `left` of the canvas.
pub open spec fn shown_byte(
    blended: Seq<u8>,
    coverage: &GrayImage,
    left: int,
    top: int,
    canvas_w: int,
    yy: int,
    k: int,
    b: int,
) -> u8 {
    let y = (b / 4) / canvas_w - top;
    let c = (b / 4) % canvas_w;
    let from = if y < 0 || y > yy {
        None
    } else {
        shown_column(
            coverage,
            left,
            canvas_w,
            y,
            c,
            if y < yy {
                coverage.width as int
            } else {
                k
            },
        )
    };
    match from {
        None => 0,
        Some(x) => if b % 4 == 3 {
            255
        } else {
            blended[(y * coverage.width + x) * 3 + b % 4]
        },
    }
}

/// Shows a blended strip on a full canvas. The strip starts at column
/// `roi_left - off_x`, counted round the canvas, and at row `roi_top`.
#[verifier::spinoff_prover]
#[verifier::rlimit(60)]
pub fn show_preview(
    blended: &[u8],
    coverage: &GrayImage,
    roi_left: i32,
    roi_top: i32,
    off_x: i32,
    canvas_w: usize,
    canvas_h: usize,
) -> (p: Preview)
    requires
        coverage.wf(),
        blended@.len() == coverage.width * coverage.height * 3,
        1 <= canvas_w <= i32::MAX,
        canvas_h <= i32::MAX,
        canvas_w * canvas_h * 4 <= usize::MAX,
        coverage.width <= i32::MAX,
        coverage.height <= i32::MAX,
    ensures
        p.width == canvas_w,
        p.height == canvas_h,
        p.rgba@.len() == canvas_w * canvas_h * 4,
        forall|b: int|
            0 <= b < p.rgba@.len() ==> #[trigger] p.rgba@[b] == shown_byte(
                blended@,
                coverage,
                roi_left - off_x,
                roi_top as int,
                canvas_w as int,
                coverage.height as int,
                0,
                b,
            ),
{
    let w: usize = coverage.width;
    let h: usize = coverage.height;
    let left: i64 = roi_left as i64 - off_x as i64;
    let mut rgba: Vec<u8> = vec![0u8; canvas_w * canvas_h * 4];
    proof {
        assert forall|b: int| 0 <= b < rgba@.len() implies #[trigger] rgba@[b] == shown_byte(
            blended@,
            coverage,
            left as int,
            roi_top as int,
            canvas_w as int,
            0,
            0,
            b,
        ) by {}
    }
    let mut y: usize = 0;
    while y < h
        invariant
            coverage.wf(),
            w == coverage.width,
            h == coverage.height,
            blended@.len() == w * h * 3,
            1 <= canvas_w <= i32::MAX,
            canvas_h <= i32::MAX,
            canvas_w * canvas_h * 4 <= usize::MAX,
            w <= i32::MAX,
            h <= i32::MAX,
            left == roi_left - off_x,
            y <= h,
            rgba@.len() == canvas_w * canvas_h * 4,
            forall|b: int|
                0 <= b < rgba@.len() ==> #[trigger] rgba@[b] == shown_byte(
                    blended@,
                    coverage,
                    left as int,
                    roi_top as int,
                    canvas_w as int,
                    y as int,
                    0,
                    b,
                ),
        decreases h - y,
    {
        let cy: i64 = roi_top as i64 + y as i64;
        if cy >= 0 && cy < canvas_h as i64 {
            let mut x: usize = 0;
            while x < w
                invariant
                    coverage.wf(),
                    w == coverage.width,
                    h == coverage.height,
                    blended@.len() == w * h * 3,
                    1 <= canvas_w <= i32::MAX,
                    canvas_h <= i32::MAX,
                    canvas_w * canvas_h * 4 <= usize::MAX,
                    w <= i32::MAX,
                    h <= i32::MAX,
                    left == roi_left - off_x,
                    y < h,
                    x <= w,
                    cy == roi_top + y,
                    0 <= cy < canvas_h,
                    rgba@.len() == canvas_w * canvas_h * 4,
                    forall|b: int|
                        0 <= b < rgba@.len() ==> #[trigger] rgba@[b] == shown_byte(
                            blended@,
                            coverage,
                            left as int,
                            roi_top as int,
                            canvas_w as int,
                            y as int,
                            x as int,
                            b,
                        ),
                decreases w - x,
            {
                let c: usize = wrap_column(left + x as i64, canvas_w);
                let ghost r0 = rgba@;
                if coverage.at(x, y) != 0 {
                    proof {
                        lemma_index(c as int, cy as int, canvas_w as int, canvas_h as int);
                        lemma_index(x as int, y as int, w as int, h as int);
                        lemma_index_split(c as int, cy as int, canvas_w as int);
                        assert(blended@.len() == blended.len());
                    }
                    let src: usize = (y * w + x) * 3;
                    let cell: usize = cy as usize * canvas_w + c;
                    let dst: usize = cell * 4;
                    rgba.set(dst, blended[src]);
                    rgba.set(dst + 1, blended[src + 1]);
                    rgba.set(dst + 2, blended[src + 2]);
                    rgba.set(dst + 3, 255);
                    proof {
                        assert forall|b: int| 0 <= b < rgba@.len() implies #[trigger] rgba@[b] == shown_byte(
                            blended@,
                            coverage,
                            left as int,
                            roi_top as int,
                            canvas_w as int,
                            y as int,
                            x + 1,
                            b,
                        ) by {
                            let q = b / 4;
                            vstd::arithmetic::div_mod::lemma_fundamental_div_mod(q, canvas_w as int);
                            assert(canvas_w * (q / (canvas_w as int)) == (q / (canvas_w as int))
                                * canvas_w) by (nonlinear_arith);
                            assert(r0[b] == shown_byte(
                                blended@,
                                coverage,
                                left as int,
                                roi_top as int,
                                canvas_w as int,
                                y as int,
                                x as int,
                                b,
                            ));
                            if q == cell {
                                assert(b == dst + b % 4);
                                assert(q / (canvas_w as int) - roi_top == y);
                            } else {
                                assert(rgba@[b] == r0[b]);
                                if q / (canvas_w as int) - roi_top == y && q % (canvas_w as int) == c {
                                    assert(q == cell);
                                }
                            }
                        }
                    }
                } else {
                    proof {
                        assert forall|b: int| 0 <= b < rgba@.len() implies #[trigger] rgba@[b] == shown_byte(
                            blended@,
                            coverage,
                            left as int,
                            roi_top as int,
                            canvas_w as int,
                            y as int,
                            x + 1,
                            b,
                        ) by {
                            assert(r0[b] == shown_byte(
                                blended@,
                                coverage,
                                left as int,
                                roi_top as int,
                                canvas_w as int,
                                y as int,
                                x as int,
                                b,
                            ));
                        }
                    }
                }
                x = x + 1;
            }
        }
        proof {
            assert forall|b: int| 0 <= b < rgba@.len() implies #[trigger] rgba@[b] == shown_byte(
                blended@,
                coverage,
                left as int,
                roi_top as int,
                canvas_w as int,
                y + 1,
                0,
                b,
            ) by {
                let row = (b / 4) / (canvas_w as int);
                if row - roi_top == y {
                    assert(row == cy);
                    lemma_row_range(b / 4, canvas_w as int, canvas_h as int);
                }
            }
        }
        y = y + 1;
    }
    Preview { rgba, width: canvas_w, height: canvas_h }
}

/// The row of a pixel lies on the canvas.
proof fn lemma_row_range(q: int, w: int, h: int)
    requires
        w >= 1,
        0 <= q < w * h,
    ensures
        0 <= q / w < h,
{
    vstd::arithmetic::div_mod::lemma_fundamental_div_mod(q, w);
    assert(q / w < h) by (nonlinear_arith)
        requires
            q < w * h,
            q == w * (q / w) + q % w,
            q % w >= 0,
            w >= 1,
    ;
    assert(0 <= q / w) by (nonlinear_arith)
        requires
            q >= 0,
            w >= 1,
    ;
}

/// Strip column `o` is covered in strip row `sy` and lands on canvas column
/// `c`, counted round the canvas.
pub open spec fn strip_lands(
    coverage: &GrayImage,
    left: int,
    canvas_w: int,
    sy: int,
    c: int,
    o: int,
) -> bool {
    coverage.data@[sy * coverage.width + o] != 0 && (left + o) % canvas_w == c
}

/// What a preview shows at canvas pixel (`c`, `y`): the last covered strip
/// column that lands there, in its own colour and opaque, in the row that is
/// as far below the strip's top. Where none lands it is clear.
pub proof fn lemma_preview_pixel(
    blended: Seq<u8>,
    coverage: &GrayImage,
    left: int,
    top: int,
    canvas_w: int,
    c: int,
    y: int,
    x: int,
    k: int,
)
    requires
        canvas_w >= 1,
        0 <= c < canvas_w,
        0 <= y,
        0 <= k < 4,
    ensures
        ({
            let shown = shown_byte(
                blended,
                coverage,
                left,
                top,
                canvas_w,
                coverage.height as int,
                0,
                (y * canvas_w + c) * 4 + k,
            );
            let sy = y - top;
            &&& 0 <= sy < coverage.height && 0 <= x < coverage.width && strip_lands(
                coverage,
                left,
                canvas_w,
                sy,
                c,
                x,
            ) && (forall|o: int|
                x < o < coverage.width ==> !#[trigger] strip_lands(
                    coverage,
                    left,
                    canvas_w,
                    sy,
                    c,
                    o,
                )) ==> shown == if k == 3 {
                255
            } else {
                blended[(sy * coverage.width + x) * 3 + k]
            }
            &&& sy < 0 || sy >= coverage.height || (forall|o: int|
                0 <= o < coverage.width ==> !#[trigger] strip_lands(
                    coverage,
                    left,
                    canvas_w,
                    sy,
                    c,
                    o,
                )) ==> shown == 0
        }),
{
    let b = (y * canvas_w + c) * 4 + k;
    let sy = y - top;
    assert(b / 4 == y * canvas_w + c && b % 4 == k);
    lemma_index_split(c, y, canvas_w);
    let w = coverage.width as int;
    if 0 <= sy < coverage.height && 0 <= x < w && strip_lands(coverage, left, canvas_w, sy, c, x)
        && (forall|o: int|
        x < o < w ==> !#[trigger] strip_lands(coverage, left, canvas_w, sy, c, o)) {
        lemma_last_lands(coverage, left, canvas_w, sy, c, w, x);
    }
    if 0 <= sy < coverage.height && (forall|o: int|
        0 <= o < w ==> !#[trigger] strip_lands(coverage, left, canvas_w, sy, c, o)) {
        lemma_none_lands(coverage, left, canvas_w, sy, c, w);
    }
}

proof fn lemma_last_lands(
    coverage: &GrayImage,
    left: int,
    canvas_w: int,
    sy: int,
    c: int,
    k: int,
    x: int,
)
    requires
        0 <= x < k,
        strip_lands(coverage, left, canvas_w, sy, c, x),
        forall|o: int| x < o < k ==> !#[trigger] strip_lands(coverage, left, canvas_w, sy, c, o),
    ensures
        shown_column(coverage, left, canvas_w, sy, c, k) == Some(x),
    decreases k,
{
    if k - 1 > x {
        assert(!strip_lands(coverage, left, canvas_w, sy, c, k - 1));
        lemma_last_lands(coverage, left, canvas_w, sy, c, k - 1, x);
    }
}

proof fn lemma_none_lands(
    coverage: &GrayImage,
    left: int,
    canvas_w: int,
    sy: int,
    c: int,
    k: int,
)
    requires
        forall|o: int| 0 <= o < k ==> !#[trigger] strip_lands(coverage, left, canvas_w, sy, c, o),
    ensures
        shown_column(coverage, left, canvas_w, sy, c, k) is None,
    decreases k,
{
    if k > 0 {
        assert(!strip_lands(coverage, left, canvas_w, sy, c, k - 1));
        lemma_none_lands(coverage, left, canvas_w, sy, c, k - 1);
    }
}

/// Images that overlap surely, with confidence 1 or more either way, are kept
/// or dropped together, and no images that hang together are more than those
/// that are kept.
pub proof fn lemma_kept_together(
    g: &MatchGraph,
    kept: Seq<usize>,
    i: usize,
    j: usize,
    others: Seq<usize>,
)
    requires
        g.wf(),
        is_biggest_component(g, overlap_confidence(), kept),
        i < g.n,
        j < g.n,
        others.no_duplicates(),
        forall|k: int|
            0 <= k < others.len() ==> #[trigger] others[k] < g.n && crate::estimation::connected(
                g,
                overlap_confidence(),
                i as int,
                others[k] as int,
            ),
    ensures
        g.pair(i as int, j as int).confidence.num >= g.pair(i as int, j as int).confidence.den
            || g.pair(j as int, i as int).confidence.num >= g.pair(
            j as int,
            i as int,
        ).confidence.den ==> (kept.contains(i) <==> kept.contains(j)),
        others.len() <= kept.len(),
{
    let t = overlap_confidence();
    let (a, b) = (i as int, j as int);
    if g.pair(a, b).confidence.num >= g.pair(a, b).confidence.den || g.pair(b, a).confidence.num
        >= g.pair(b, a).confidence.den {
        let (p, q) = (g.pair(a, b).confidence, g.pair(b, a).confidence);
        assert(p.num * t.den == p.num && t.num * p.den == p.den && q.num * t.den == q.num && t.num
            * q.den == q.den) by (nonlinear_arith)
            requires
                t.num == 1,
                t.den == 1,
        ;
        assert(crate::estimation::confident(g, t, a, b));
        assert(crate::estimation::confident(g, t, b, a));
        let ab = seq![a, b];
        assert(crate::estimation::is_path(g, t, ab));
        let ba = seq![b, a];
        assert(crate::estimation::is_path(g, t, ba));
        assert(ab[0] == a && ab.last() == b && ba[0] == b && ba.last() == a);
        if kept.contains(i) {
            let k = kept.index_of(i);
            assert(kept.contains(b as usize) <==> crate::estimation::connected(
                g,
                t,
                kept[k] as int,
                b,
            ));
        }
        if kept.contains(j) {
            let k = kept.index_of(j);
            assert(kept.contains(a as usize) <==> crate::estimation::connected(
                g,
                t,
                kept[k] as int,
                a,
            ));
        }
    }
    crate::estimation::lemma_connected_listed(g, t, a, g.n as int, others);
    assert(crate::estimation::count_connected(g, t, a, g.n as int) <= kept.len());
}

} // verus!
