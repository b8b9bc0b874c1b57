//! Choosing control points among the matches of a pair: spread over the
//! image, the closest matches of each part first.

use crate::matcher::PairMatches;
use crate::matcher::Ratio;
use vstd::prelude::*;

verus! {

/// Columns of the grid over an image.
pub const GRID_X: usize = 6;

/// Rows of the grid over an image.
pub const GRID_Y: usize = 4;

/// Parts of an image.
pub const CELLS: usize = 24;

/// The part of the image in column `cx` and row `cy` of the grid; what lies
/// beyond the last column or row counts to it.
pub fn grid_cell(cx: usize, cy: usize) -> (cell: usize)
    ensures
        cell == (if cy < GRID_Y {
            cy as int
        } else {
            GRID_Y - 1
        }) * GRID_X + if cx < GRID_X {
            cx as int
        } else {
            GRID_X - 1
        },
        cell < CELLS,
{
    let x: usize = if cx < GRID_X {
        cx
    } else {
        GRID_X - 1
    };
    let y: usize = if cy < GRID_Y {
        cy
    } else {
        GRID_Y - 1
    };
    y * GRID_X + x
}

/// Where a match lies, as a part of the image, and how far apart its two
/// features are.
pub type Spot = (usize, u32);

/// Match `a` comes before `b`: its features are closer, or as close and it is
/// listed first.
pub open spec fn closer(spots: Seq<Spot>, a: int, b: int) -> bool {
    spots[a].1 < spots[b].1 || (spots[a].1 == spots[b].1 && a < b)
}

/// `list` holds the first `k` matches that lie in part `c`, the closest first.
pub open spec fn is_cell_list(spots: Seq<Spot>, k: int, c: int, list: Seq<usize>) -> bool {
    &&& forall|a: int, b: int|
        0 <= a < b < list.len() ==> closer(
            spots,
            #[trigger] list[a] as int,
            #[trigger] list[b] as int,
        )
    &&& forall|a: int| 0 <= a < list.len() ==> #[trigger] list[a] < k && spots[list[a] as int].0 == c
    &&& forall|i: usize| i < k && (#[trigger] spots[i as int]).0 == c ==> list.contains(i)
}

/// The lists of all parts.
pub open spec fn are_cell_lists(spots: Seq<Spot>, k: int, cells: Seq<Vec<usize>>) -> bool {
    &&& cells.len() == CELLS
    &&& forall|c: int| 0 <= c < CELLS ==> is_cell_list(spots, k, c, (#[trigger] cells[c])@)
}

/// Deals from the parts in turn, one match from each: everything up to round
/// `r`, part `c`.
pub open spec fn dealt(cells: Seq<Vec<usize>>, r: int, c: int) -> Seq<usize>
    decreases r, c,
{
    if r <= 0 && c <= 0 {
        Seq::empty()
    } else if c <= 0 {
        dealt(cells, r - 1, CELLS as int)
    } else {
        let before = dealt(cells, r, c - 1);
        if r < cells[c - 1]@.len() {
            before.push(cells[c - 1]@[r])
        } else {
            before
        }
    }
}

/// `s` cut to at most `n` elements.
pub open spec fn at_most(s: Seq<usize>, n: int) -> Seq<usize> {
    if s.len() <= n {
        s
    } else {
        s.take(n)
    }
}

/// Sorts matches into the parts of the image.
#[verifier::spinoff_prover]
#[verifier::rlimit(40)]
fn sort_into_cells(spots: &[Spot]) -> (cells: Vec<Vec<usize>>)
    requires
        forall|i: int| 0 <= i < spots@.len() ==> (#[trigger] spots@[i]).0 < CELLS,
    ensures
        are_cell_lists(spots@, spots@.len() as int, cells@),
{
    let mut cells: Vec<Vec<usize>> = Vec::new();
    while cells.len() < CELLS
        invariant
            cells@.len() <= CELLS,
            forall|c: int| 0 <= c < cells@.len() ==> (#[trigger] cells@[c])@.len() == 0,
        decreases CELLS - cells@.len(),
    {
        cells.push(Vec::new());
    }
    let mut k: usize = 0;
    while k < spots.len()
        invariant
            k <= spots@.len(),
            forall|i: int| 0 <= i < spots@.len() ==> (#[trigger] spots@[i]).0 < CELLS,
            are_cell_lists(spots@, k as int, cells@),
        decreases spots@.len() - k,
    {
        let (c, d) = spots[k];
        let ghost cells0 = cells@;
        assert(spots@[k as int].0 < CELLS);
        assert(is_cell_list(spots@, k as int, c as int, cells0[c as int]@));
        let mut p: usize = cells[c].len();
        while p > 0 && spots[cells[c][p - 1]].1 > d
            invariant
                k < spots@.len(),
                c < CELLS,
                cells@ == cells0,
                cells@.len() == CELLS,
                is_cell_list(spots@, k as int, c as int, cells0[c as int]@),
                p <= cells0[c as int]@.len(),
                forall|a: int|
                    p <= a < cells0[c as int]@.len() ==> spots@[(
                    #[trigger] cells0[c as int]@[a]) as int].1 > d,
            decreases p,
        {
            p = p - 1;
        }
        cells[c].insert(p, k);
        proof {
            let l0 = cells0[c as int]@;
            let l1 = cells@[c as int]@;
            assert(l1 == l0.insert(p as int, k));
            lemma_inserted_spot(spots@, k as int, c as int, l0, l1, p as int);
            assert forall|x: int| 0 <= x < CELLS implies is_cell_list(
                spots@,
                k + 1,
                x,
                (#[trigger] cells@[x])@,
            ) by {
                if x != c {
                    assert(cells@[x] == cells0[x]);
                    assert(is_cell_list(spots@, k as int, x, cells0[x]@));
                }
            }
        }
        k = k + 1;
    }
    cells
}

proof fn lemma_inserted_spot(
    spots: Seq<Spot>,
    k: int,
    c: int,
    l0: Seq<usize>,
    l1: Seq<usize>,
    p: int,
)
    requires
        0 <= k < spots.len(),
        k <= usize::MAX,
        spots[k].0 == c,
        is_cell_list(spots, k, c, l0),
        0 <= p <= l0.len(),
        l1 == l0.insert(p, k as usize),
        forall|a: int| p <= a < l0.len() ==> spots[(#[trigger] l0[a]) as int].1 > spots[k].1,
        p > 0 ==> spots[l0[p - 1] as int].1 <= spots[k].1,
    ensures
        is_cell_list(spots, k + 1, c, l1),
{
    assert(l1[p] == k);
    assert forall|a: int, b: int| 0 <= a < b < l1.len() implies closer(
        spots,
        #[trigger] l1[a] as int,
        #[trigger] l1[b] as int,
    ) by {
        let (x, y) = (
            if a < p {
                a
            } else {
                a - 1
            },
            if b < p {
                b
            } else {
                b - 1
            },
        );
        if b == p {
            if a < p - 1 {
                assert(closer(spots, l0[a] as int, l0[p - 1] as int));
            }
            assert(l0[a] < k);
        } else if a != p {
            assert(closer(spots, l0[x] as int, l0[y] as int));
        }
    }
    assert forall|a: int| 0 <= a < l1.len() implies #[trigger] l1[a] < k + 1
        && spots[l1[a] as int].0 == c by {
        if a < p {
            assert(l0[a] < k);
        } else if a > p {
            assert(l0[a - 1] < k);
        }
    }
    assert forall|i: usize| i < k + 1 && (#[trigger] spots[i as int]).0 == c implies l1.contains(i) by {
        if i < k {
            let z = l0.index_of(i);
            if z < p {
                assert(l1[z] == i);
            } else {
                assert(l1[z + 1] == i);
            }
        }
    }
}

/// Up to `max_per_pair` matches, dealt from the parts of the image in turn.
#[verifier::spinoff_prover]
pub fn pick_spread(spots: &[Spot], max_per_pair: usize) -> (picked: Vec<usize>)
    requires
        forall|i: int| 0 <= i < spots@.len() ==> (#[trigger] spots@[i]).0 < CELLS,
    ensures
        exists|cells: Seq<Vec<usize>>| #[trigger]
            are_cell_lists(spots@, spots@.len() as int, cells) && picked@ == at_most(
                dealt(cells, spots@.len() as int, 0),
                max_per_pair as int,
            ),
{
    let cells = sort_into_cells(spots);
    let mut picked: Vec<usize> = Vec::new();
    let n: usize = spots.len();
    let mut r: usize = 0;
    while r < n
        invariant
            n == spots@.len(),
            cells@.len() == CELLS,
            r <= n,
            picked@ == at_most(dealt(cells@, r as int, 0), max_per_pair as int),
        decreases n - r,
    {
        let mut c: usize = 0;
        while c < CELLS
            invariant
                n == spots@.len(),
                cells@.len() == CELLS,
                r < n,
                c <= CELLS,
                picked@ == at_most(dealt(cells@, r as int, c as int), max_per_pair as int),
            decreases CELLS - c,
        {
            let ghost before = dealt(cells@, r as int, c as int);
            let ghost after = dealt(cells@, r as int, c + 1);
            if r < cells[c].len() && picked.len() < max_per_pair {
                picked.push(cells[c][r]);
            }
            assert(picked@ =~= at_most(after, max_per_pair as int));
            c = c + 1;
        }
        r = r + 1;
    }
    picked
}

/// What is dealt comes from a part's list, from an earlier round or from an
/// earlier part of the same round.
proof fn lemma_dealt_from(cells: Seq<Vec<usize>>, r: int, c: int, i: int)
    requires
        cells.len() == CELLS,
        0 <= r,
        0 <= c <= CELLS,
        0 <= i < dealt(cells, r, c).len(),
    ensures
        exists|d: int, s: int|
            0 <= d < CELLS && 0 <= s < cells[d]@.len() && (s < r || (s == r && d < c))
                && #[trigger] cells[d]@[s] == dealt(cells, r, c)[i],
    decreases r, c,
{
    if r <= 0 && c <= 0 {
    } else if c <= 0 {
        lemma_dealt_from(cells, r - 1, CELLS as int, i);
        let (d, s) = choose|d: int, s: int|
            0 <= d < CELLS && 0 <= s < cells[d]@.len() && (s < r - 1 || (s == r - 1 && d
                < CELLS)) && #[trigger] cells[d]@[s] == dealt(cells, r - 1, CELLS as int)[i];
        assert(cells[d]@[s] == dealt(cells, r, c)[i]);
    } else {
        let before = dealt(cells, r, c - 1);
        if i < before.len() {
            lemma_dealt_from(cells, r, c - 1, i);
            let (d, s) = choose|d: int, s: int|
                0 <= d < CELLS && 0 <= s < cells[d]@.len() && (s < r || (s == r && d < c - 1))
                    && #[trigger] cells[d]@[s] == before[i];
            assert(cells[d]@[s] == dealt(cells, r, c)[i]);
        } else {
            assert(cells[c - 1]@[r] == dealt(cells, r, c)[i]);
        }
    }
}

/// No match is dealt twice.
pub proof fn lemma_dealt_once(spots: Seq<Spot>, cells: Seq<Vec<usize>>, r: int, c: int)
    requires
        are_cell_lists(spots, spots.len() as int, cells),
        0 <= r,
        0 <= c <= CELLS,
    ensures
        dealt(cells, r, c).no_duplicates(),
    decreases r, c,
{
    let n = spots.len() as int;
    if r <= 0 && c <= 0 {
    } else if c <= 0 {
        lemma_dealt_once(spots, cells, r - 1, CELLS as int);
    } else {
        lemma_dealt_once(spots, cells, r, c - 1);
        let before = dealt(cells, r, c - 1);
        let own = cells[c - 1]@;
        if r < own.len() {
            assert(is_cell_list(spots, n, c - 1, own));
            assert forall|i: int| 0 <= i < before.len() implies before[i] != own[r] by {
                lemma_dealt_from(cells, r, c - 1, i);
                let (d, s) = choose|d: int, s: int|
                    0 <= d < CELLS && 0 <= s < cells[d]@.len() && (s < r || (s == r && d < c - 1))
                        && #[trigger] cells[d]@[s] == before[i];
                assert(is_cell_list(spots, n, d, cells[d]@));
                if d == c - 1 {
                    assert(closer(spots, own[s] as int, own[r] as int));
                } else {
                    assert(spots[cells[d]@[s] as int].0 == d);
                    assert(spots[own[r] as int].0 == c - 1);
                }
            }
        }
    }
}

/// Whether a pair is sure enough to take control points from: a homography
/// was found, and the confidence is at least one.
pub fn is_candidate(p: &PairMatches) -> (b: bool)
    requires
        p.confidence.wf(),
    ensures
        b == (p.has_h && !p.confidence.lt(Ratio { num: 1, den: 1 })),
{
    p.has_h && !p.confidence.less(&Ratio { num: 1, den: 1 })
}

/// Every match is dealt, and in rounds: each cell gives its best match before
/// any gives its second, and so on.
pub proof fn lemma_dealt_in_rounds(
    spots: Seq<Spot>,
    cells: Seq<Vec<usize>>,
    i: usize,
    p: int,
    q: int,
)
    requires
        are_cell_lists(spots, spots.len() as int, cells),
        spots.len() <= usize::MAX,
        i < spots.len(),
        spots[i as int].0 < 24,
    ensures
        ({
            let all = dealt(cells, spots.len() as int, 0);
            &&& all.contains(i)
            // Of two matches of one cell the one that fits better comes first.
            &&& 0 <= p < q < all.len() && spots[all[p] as int].0 == spots[all[q] as int].0
                ==> spots[all[p] as int].1 < spots[all[q] as int].1 || (spots[all[p] as int].1
                == spots[all[q] as int].1 && all[p] < all[q])
            // Places in the cells' lists do not go down, and of one place the
            // cells come in order.
            &&& 0 <= p < q < all.len() ==> exists|s: int, t: int|
                {
                    &&& 0 <= s < t || (0 <= s && s == t && spots[all[p] as int].0
                        < spots[all[q] as int].0)
                    &&& #[trigger] cells[spots[all[p] as int].0 as int]@[s] == all[p]
                    &&& #[trigger] cells[spots[all[q] as int].0 as int]@[t] == all[q]
                }
        }),
{
    let n = spots.len() as int;
    let c = spots[i as int].0 as int;
    assert(is_cell_list(spots, n, c, cells[c]@));
    let list = cells[c]@;
    assert(list.contains(i));
    let r = list.index_of(i);
    lemma_cell_short(spots, list, n, c);
    lemma_dealt_has(cells, n, 0, c, r);
    if 0 <= p < q < dealt(cells, n, 0).len() {
        lemma_dealt_order(spots, cells, n, 0, p, q);
    }
}

/// A cell holds no more matches than there are.
proof fn lemma_cell_short(spots: Seq<Spot>, list: Seq<usize>, n: int, c: int)
    requires
        is_cell_list(spots, n, c, list),
        n == spots.len(),
    ensures
        list.len() <= n,
{
    assert(list.no_duplicates()) by {
        assert forall|a: int, b: int| 0 <= a < list.len() && 0 <= b < list.len() && a != b implies list[a]
            != list[b] by {
            if a < b {
                assert(closer(spots, list[a] as int, list[b] as int));
            } else {
                assert(closer(spots, list[b] as int, list[a] as int));
            }
        }
    }
    let ints = list.map_values(|u: usize| u as int);
    assert(ints.no_duplicates()) by {
        assert forall|a: int, b: int| 0 <= a < ints.len() && 0 <= b < ints.len() && a != b implies ints[a]
            != ints[b] by {
            assert(list[a] != list[b]);
        }
    }
    ints.unique_seq_to_set();
    let all = vstd::set_lib::set_int_range(0, n);
    vstd::set_lib::lemma_int_range(0, n);
    assert(ints.to_set().subset_of(all)) by {
        assert forall|x: int| ints.to_set().contains(x) implies #[trigger] all.contains(x) by {
            let a = ints.index_of(x);
            assert(list[a] < n);
        }
    }
    vstd::set_lib::lemma_len_subset(ints.to_set(), all);
}

proof fn lemma_dealt_has(cells: Seq<Vec<usize>>, r: int, c: int, d: int, s: int)
    requires
        cells.len() == CELLS,
        0 <= r,
        0 <= c <= CELLS,
        0 <= d < CELLS,
        0 <= s < cells[d]@.len(),
        s < r || (s == r && d < c),
    ensures
        dealt(cells, r, c).contains(cells[d]@[s]),
    decreases r, c,
{
    let v = cells[d]@[s];
    if c <= 0 {
        lemma_dealt_has(cells, r - 1, CELLS as int, d, s);
    } else {
        let before = dealt(cells, r, c - 1);
        let after = dealt(cells, r, c);
        if s == r && d == c - 1 {
            assert(after[before.len() as int] == v);
        } else {
            lemma_dealt_has(cells, r, c - 1, d, s);
            let k = before.index_of(v);
            assert(after[k] == v);
        }
    }
}

/// Element `p` of those dealt before round `r`, cell `c`, is the one of place
/// `s` in its cell's list.
spec fn dealt_at(
    spots: Seq<Spot>,
    cells: Seq<Vec<usize>>,
    all: Seq<usize>,
    p: int,
    s: int,
) -> bool {
    let d = spots[all[p] as int].0 as int;
    0 <= d < CELLS && 0 <= s < cells[d]@.len() && cells[d]@[s] == all[p]
}

proof fn lemma_dealt_places(
    spots: Seq<Spot>,
    cells: Seq<Vec<usize>>,
    r: int,
    c: int,
    p: int,
) -> (s: int)
    requires
        are_cell_lists(spots, spots.len() as int, cells),
        0 <= r,
        0 <= c <= CELLS,
        0 <= p < dealt(cells, r, c).len(),
    ensures
        dealt_at(spots, cells, dealt(cells, r, c), p, s),
        s <= r,
        s == r ==> spots[dealt(cells, r, c)[p] as int].0 < c,
    decreases r, c,
{
    if r <= 0 && c <= 0 {
        0
    } else if c <= 0 {
        lemma_dealt_places(spots, cells, r - 1, CELLS as int, p)
    } else {
        let before = dealt(cells, r, c - 1);
        if p < before.len() {
            let s = lemma_dealt_places(spots, cells, r, c - 1, p);
            assert(dealt(cells, r, c)[p] == before[p]);
            s
        } else {
            assert(is_cell_list(spots, spots.len() as int, c - 1, cells[c - 1]@));
            r
        }
    }
}

proof fn lemma_dealt_order(
    spots: Seq<Spot>,
    cells: Seq<Vec<usize>>,
    r: int,
    c: int,
    p: int,
    q: int,
)
    requires
        are_cell_lists(spots, spots.len() as int, cells),
        0 <= r,
        0 <= c <= CELLS,
        0 <= p < q < dealt(cells, r, c).len(),
    ensures
        ({
            let all = dealt(cells, r, c);
            &&& exists|s: int, t: int|
                {
                    &&& 0 <= s < t || (0 <= s && s == t && spots[all[p] as int].0
                        < spots[all[q] as int].0)
                    &&& #[trigger] cells[spots[all[p] as int].0 as int]@[s] == all[p]
                    &&& #[trigger] cells[spots[all[q] as int].0 as int]@[t] == all[q]
                }
            &&& spots[all[p] as int].0 == spots[all[q] as int].0 ==> spots[all[p] as int].1
                < spots[all[q] as int].1 || (spots[all[p] as int].1 == spots[all[q] as int].1
                && all[p] < all[q])
        }),
    decreases r, c,
{
    if r <= 0 && c <= 0 {
    } else if c <= 0 {
        lemma_dealt_order(spots, cells, r - 1, CELLS as int, p, q);
    } else {
        let before = dealt(cells, r, c - 1);
        let all = dealt(cells, r, c);
        if q < before.len() {
            lemma_dealt_order(spots, cells, r, c - 1, p, q);
            assert(all[p] == before[p] && all[q] == before[q]);
        } else {
            let s = lemma_dealt_places(spots, cells, r, c - 1, p);
            assert(all[p] == before[p]);
            let own = cells[c - 1]@;
            assert(is_cell_list(spots, spots.len() as int, c - 1, own));
            assert(all[q] == own[r]);
            assert(spots[own[r] as int].0 == c - 1);
            assert(cells[spots[all[p] as int].0 as int]@[s] == all[p]);
            assert(cells[spots[all[q] as int].0 as int]@[r] == all[q]);
            if spots[all[p] as int].0 == spots[all[q] as int].0 && s < r {
                assert(closer(spots, own[s] as int, own[r] as int));
            }
        }
    }
}

} // verus!
