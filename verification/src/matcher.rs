//! Descriptor matching: exact nearest neighbours by Hamming distance, a ratio
//! test in both directions, and how far a pair of images can be trusted.

use vstd::prelude::*;

verus! {

/// Fewest matches for which a homography is sought.
pub const NUM_MATCHES_THRESH1: usize = 6;

/// Fewest inliers for which it is refined.
pub const NUM_MATCHES_THRESH2: usize = 6;

/// Confidence above which two images count as near duplicates.
pub const MATCHES_CONFIDENCE_THRESH: u64 = 3;

/// Binary descriptor of a keypoint.
pub type Descriptor = [u8; 32];

/// A match between descriptor `query` of one image and `train` of another.
#[derive(Debug, Clone, Copy, PartialEq, Eq, Structural)]
pub struct RawMatch {
    pub query: usize,
    pub train: usize,
    pub distance: u32,
}

/// Number of bits set in a byte.
pub open spec fn bits(x: u8) -> int {
    (x & 1) + ((x >> 1) & 1) + ((x >> 2) & 1) + ((x >> 3) & 1) + ((x >> 4) & 1) + ((x >> 5) & 1) + ((
    x >> 6) & 1) + ((x >> 7) & 1)
}

/// Number of bits in which the first `k` bytes differ.
pub open spec fn bit_distance(a: Seq<u8>, b: Seq<u8>, k: int) -> int
    decreases k,
{
    if k <= 0 {
        0
    } else {
        bit_distance(a, b, k - 1) + bits(a[k - 1] ^ b[k - 1])
    }
}

/// Adds neighbouring bits, then pairs, then nibbles.
fn count_bits(x: u8) -> (n: u8)
    ensures
        n == bits(x),
        n <= 8,
{
    assert(((x >> 1) & 0x55) <= x) by (bit_vector);
    let y: u8 = x - ((x >> 1) & 0x55);
    assert((y & 0x33) + ((y >> 2) & 0x33) <= 0x66) by (bit_vector);
    let z: u8 = (y & 0x33) + ((y >> 2) & 0x33);
    assert(z <= 0x66 ==> z + (z >> 4) <= 0xff) by (bit_vector);
    let s: u8 = z + (z >> 4);
    let n: u8 = s & 0x0f;
    assert(n == (x & 1) + ((x >> 1) & 1) + ((x >> 2) & 1) + ((x >> 3) & 1) + ((x >> 4) & 1) + ((x
        >> 5) & 1) + ((x >> 6) & 1) + ((x >> 7) & 1) && n <= 8) by (bit_vector)
        requires
            y == x - ((x >> 1) & 0x55),
            z == (y & 0x33) + ((y >> 2) & 0x33),
            s == z + (z >> 4),
            n == s & 0x0f,
    ;
    n
}

/// Number of bits in which two descriptors differ.
pub fn hamming(a: &[u8; 32], b: &[u8; 32]) -> (d: u32)
    ensures
        d == bit_distance(a@, b@, 32),
        d <= 256,
{
    let mut acc: u32 = 0;
    let mut i: usize = 0;
    while i < 32
        invariant
            i <= 32,
            acc == bit_distance(a@, b@, i as int),
            acc <= 8 * i,
        decreases 32 - i,
    {
        acc = acc + count_bits(a[i] ^ b[i]) as u32;
        i = i + 1;
    }
    acc
}

/// A descriptor differs from itself in no bit.
pub proof fn lemma_distance_self(a: Seq<u8>, k: int)
    ensures
        bit_distance(a, a, k) == 0,
    decreases k,
{
    if k > 0 {
        lemma_distance_self(a, k - 1);
        let x = a[k - 1];
        assert(x ^ x == 0) by (bit_vector);
        assert((0u8 & 1) + ((0u8 >> 1) & 1) + ((0u8 >> 2) & 1) + ((0u8 >> 3) & 1) + ((0u8 >> 4) & 1)
            + ((0u8 >> 5) & 1) + ((0u8 >> 6) & 1) + ((0u8 >> 7) & 1) == 0) by (bit_vector);
    }
}

/// The distance does not depend on the order of the two descriptors.
pub proof fn lemma_distance_symmetric(a: Seq<u8>, b: Seq<u8>, k: int)
    ensures
        bit_distance(a, b, k) == bit_distance(b, a, k),
    decreases k,
{
    if k > 0 {
        lemma_distance_symmetric(a, b, k - 1);
        let (x, y) = (a[k - 1], b[k - 1]);
        assert(x ^ y == y ^ x) by (bit_vector);
    }
}

pub open spec fn ham(a: Descriptor, b: Descriptor) -> int {
    bit_distance(a@, b@, 32)
}

/// `i` is the first of the descriptors nearest to `query`.
pub open spec fn is_nearest(query: Descriptor, train: Seq<Descriptor>, i: int) -> bool {
    &&& 0 <= i < train.len()
    &&& forall|j: int| 0 <= j < train.len() ==> ham(query, train[i]) <= #[trigger] ham(query, train[j])
    &&& forall|j: int| 0 <= j < i ==> ham(query, train[i]) < #[trigger] ham(query, train[j])
}

/// `d` is the smallest distance of `query` to the descriptors other than `i`.
pub open spec fn is_second(query: Descriptor, train: Seq<Descriptor>, i: int, d: int) -> bool {
    &&& forall|j: int| 0 <= j < train.len() && j != i ==> d <= #[trigger] ham(query, train[j])
    &&& exists|j: int| 0 <= j < train.len() && j != i && #[trigger] ham(query, train[j]) == d
}

/// Nearest and second nearest of at least two descriptors: (index, distance,
/// second distance). The lower index wins a tie.
pub fn two_nn(query: &Descriptor, train: &[Descriptor]) -> (r: Option<(usize, u32, u32)>)
    ensures
        match r {
            Some((i, d0, d1)) => {
                &&& train@.len() >= 2
                &&& is_nearest(*query, train@, i as int)
                &&& d0 == ham(*query, train@[i as int])
                &&& is_second(*query, train@, i as int, d1 as int)
                &&& d0 <= d1 <= 256
            },
            None => train@.len() < 2,
        },
{
    if train.len() < 2 {
        return None;
    }
    let mut bi: usize = 0;
    let mut b0: u32 = hamming(query, &train[0]);
    let mut b1: u32 = u32::MAX;
    let mut i: usize = 1;
    let ghost mut second: int = 0;
    while i < train.len()
        invariant
            train@.len() >= 2,
            1 <= i <= train@.len(),
            bi < i,
            b0 == ham(*query, train@[bi as int]),
            b0 <= 256,
            forall|j: int| 0 <= j < i ==> b0 <= #[trigger] ham(*query, train@[j]),
            forall|j: int| 0 <= j < bi ==> b0 < #[trigger] ham(*query, train@[j]),
            i == 1 ==> b1 == u32::MAX,
            i > 1 ==> b1 <= 256 && 0 <= second < i && second != bi && ham(*query, train@[second])
                == b1,
            b0 <= b1,
            forall|j: int| 0 <= j < i && j != bi ==> b1 <= #[trigger] ham(*query, train@[j]),
        decreases train@.len() - i,
    {
        let d: u32 = hamming(query, &train[i]);
        assert(d == ham(*query, train@[i as int]));
        if d < b0 {
            b1 = b0;
            proof {
                second = bi as int;
            }
            b0 = d;
            bi = i;
        } else if d < b1 {
            b1 = d;
            proof {
                second = i as int;
            }
        }
        i = i + 1;
    }
    assert(ham(*query, train@[second]) == b1);
    Some((bi, b0, b1))
}

/// The match of a descriptor that is clearly nearer than any other: its index
/// and distance. The nearest must be closer than 0.7 of the second nearest.
pub open spec fn clear_match(query: Descriptor, train: Seq<Descriptor>) -> Option<(int, int)> {
    if train.len() < 2 {
        None
    } else {
        let i = choose|i: int| is_nearest(query, train, i);
        let d1 = choose|d: int| is_second(query, train, i, d);
        if 10 * ham(query, train[i]) < 7 * d1 {
            Some((i, ham(query, train[i])))
        } else {
            None
        }
    }
}

fn clear_match_of(query: &Descriptor, train: &[Descriptor]) -> (r: Option<(usize, u32)>)
    ensures
        match r {
            Some((i, d)) => clear_match(*query, train@) == Some((i as int, d as int)) && i
                < train@.len(),
            None => clear_match(*query, train@) is None,
        },
{
    match two_nn(query, train) {
        Some((i, d0, d1)) => {
            proof {
                let z = choose|z: int| is_nearest(*query, train@, z);
                assert(z == i) by {
                    assert(is_nearest(*query, train@, z));
                    if z < i {
                        assert(ham(*query, train@[i as int]) < ham(*query, train@[z]));
                    } else if i < z {
                        assert(ham(*query, train@[z]) < ham(*query, train@[i as int]));
                    }
                }
                let e = choose|d: int| is_second(*query, train@, z, d);
                assert(e == d1) by {
                    assert(is_second(*query, train@, z, d1 as int));
                    assert(is_second(*query, train@, z, e));
                    let j1 = choose|j: int|
                        0 <= j < train@.len() && j != z && #[trigger] ham(*query, train@[j]) == d1;
                    let j2 = choose|j: int|
                        0 <= j < train@.len() && j != z && #[trigger] ham(*query, train@[j]) == e;
                    assert(e <= ham(*query, train@[j1]));
                    assert(d1 <= ham(*query, train@[j2]));
                }
            }
            if 10 * d0 < 7 * d1 {
                Some((i, d0))
            } else {
                None
            }
        },
        None => None,
    }
}

/// Matches of the first `k` descriptors of `a` in `b`, in order.
pub open spec fn forward(a: Seq<Descriptor>, b: Seq<Descriptor>, k: int) -> Seq<RawMatch>
    decreases k,
{
    if k <= 0 {
        Seq::empty()
    } else {
        let before = forward(a, b, k - 1);
        match clear_match(a[k - 1], b) {
            Some((t, d)) => before.push(
                RawMatch { query: (k - 1) as usize, train: t as usize, distance: d as u32 },
            ),
            None => before,
        }
    }
}

/// Matches of the first `k` descriptors of `b` in `a`, in order and turned
/// round, without those that the forward direction found too.
pub open spec fn backward(a: Seq<Descriptor>, b: Seq<Descriptor>, k: int) -> Seq<RawMatch>
    decreases k,
{
    if k <= 0 {
        Seq::empty()
    } else {
        let before = backward(a, b, k - 1);
        match clear_match(b[k - 1], a) {
            Some((t, d)) => if is_forward(a, b, t, k - 1) {
                before
            } else {
                before.push(
                    RawMatch { query: t as usize, train: (k - 1) as usize, distance: d as u32 },
                )
            },
            None => before,
        }
    }
}

/// The forward direction matches `q` with `t`.
pub open spec fn is_forward(a: Seq<Descriptor>, b: Seq<Descriptor>, q: int, t: int) -> bool {
    clear_match(a[q], b) matches Some((i, d)) && i == t
}

/// Clear matches of two sets of descriptors in both directions.
pub fn best_of_2_nearest_raw(desc_a: &[Descriptor], desc_b: &[Descriptor]) -> (m: Vec<RawMatch>)
    ensures
        m@ == forward(desc_a@, desc_b@, desc_a@.len() as int) + backward(
            desc_a@,
            desc_b@,
            desc_b@.len() as int,
        ),
{
    let mut m: Vec<RawMatch> = Vec::new();
    let mut found: Vec<Option<usize>> = Vec::new();
    let mut q: usize = 0;
    while q < desc_a.len()
        invariant
            q <= desc_a@.len(),
            m@ == forward(desc_a@, desc_b@, q as int),
            found@.len() == q,
            forall|k: int|
                0 <= k < q ==> match #[trigger] found@[k] {
                    Some(t) => clear_match(desc_a@[k], desc_b@) matches Some((i, d)) && i == t,
                    None => clear_match(desc_a@[k], desc_b@) is None,
                },
        decreases desc_a@.len() - q,
    {
        match clear_match_of(&desc_a[q], desc_b) {
            Some((t, d)) => {
                m.push(RawMatch { query: q, train: t, distance: d });
                found.push(Some(t));
            },
            None => {
                found.push(None);
            },
        }
        q = q + 1;
    }
    let ghost fwd = m@;
    let mut p: usize = 0;
    assert(m@ =~= fwd + backward(desc_a@, desc_b@, 0));
    while p < desc_b.len()
        invariant
            p <= desc_b@.len(),
            fwd == forward(desc_a@, desc_b@, desc_a@.len() as int),
            m@ == fwd + backward(desc_a@, desc_b@, p as int),
            found@.len() == desc_a@.len(),
            forall|k: int|
                0 <= k < desc_a@.len() ==> match #[trigger] found@[k] {
                    Some(t) => clear_match(desc_a@[k], desc_b@) matches Some((i, d)) && i == t,
                    None => clear_match(desc_a@[k], desc_b@) is None,
                },
        decreases desc_b@.len() - p,
    {
        match clear_match_of(&desc_b[p], desc_a) {
            Some((t, d)) => {
                let seen: bool = match found[t] {
                    Some(i) => i == p,
                    None => false,
                };
                assert(seen == is_forward(desc_a@, desc_b@, t as int, p as int));
                if !seen {
                    m.push(RawMatch { query: t, train: p, distance: d });
                }
            },
            None => {},
        }
        p = p + 1;
        assert(m@ =~= fwd + backward(desc_a@, desc_b@, p as int));
    }
    m
}

proof fn lemma_clear_match_range(query: Descriptor, train: Seq<Descriptor>)
    ensures
        clear_match(query, train) matches Some((i, d)) ==> 0 <= i < train.len(),
{
    if train.len() >= 2 {
        lemma_nearest_exists(query, train, train.len() as int);
        assert(train.take(train.len() as int) =~= train);
    }
}

proof fn lemma_nearest_exists(query: Descriptor, train: Seq<Descriptor>, k: int)
    requires
        1 <= k <= train.len(),
    ensures
        exists|i: int| #[trigger] is_nearest(query, train.take(k), i),
    decreases k,
{
    let t = train.take(k);
    if k == 1 {
        assert(is_nearest(query, t, 0));
    } else {
        lemma_nearest_exists(query, train, k - 1);
        let s = train.take(k - 1);
        let i = choose|i: int| #[trigger] is_nearest(query, s, i);
        assert(forall|j: int| 0 <= j < k - 1 ==> #[trigger] t[j] == s[j]);
        if ham(query, t[k - 1]) < ham(query, t[i]) {
            assert forall|j: int| 0 <= j < k implies ham(query, t[k - 1]) <= #[trigger] ham(query, t[j]) by {
                if j < k - 1 {
                    assert(ham(query, s[i]) <= ham(query, s[j]));
                }
            }
            assert forall|j: int| 0 <= j < k - 1 implies ham(query, t[k - 1]) < #[trigger] ham(query, t[j]) by {
                assert(ham(query, s[i]) <= ham(query, s[j]));
            }
            assert(is_nearest(query, t, k - 1));
        } else {
            assert forall|j: int| 0 <= j < k implies ham(query, t[i]) <= #[trigger] ham(query, t[j]) by {
                if j < k - 1 {
                    assert(ham(query, s[i]) <= ham(query, s[j]));
                }
            }
            assert forall|j: int| 0 <= j < i implies ham(query, t[i]) < #[trigger] ham(query, t[j]) by {
                assert(ham(query, s[i]) < ham(query, s[j]));
            }
            assert(is_nearest(query, t, i));
        }
    }
    assert(train.take(train.len() as int) =~= train);
}

proof fn lemma_forward(a: Seq<Descriptor>, b: Seq<Descriptor>, k: int)
    requires
        0 <= k <= a.len(),
        a.len() <= usize::MAX,
        b.len() <= usize::MAX,
    ensures
        ({
            let m = forward(a, b, k);
            &&& forall|i: int|
                0 <= i < m.len() ==> (#[trigger] m[i]).query < k && m[i].train < b.len()
                    && is_forward(a, b, m[i].query as int, m[i].train as int)
            &&& forall|i: int, j: int|
                0 <= i < j < m.len() ==> (#[trigger] m[i]).query < (#[trigger] m[j]).query
        }),
    decreases k,
{
    if k > 0 {
        lemma_forward(a, b, k - 1);
        lemma_clear_match_range(a[k - 1], b);
        let (m, p) = (forward(a, b, k), forward(a, b, k - 1));
        assert forall|i: int| 0 <= i < m.len() implies (#[trigger] m[i]).query < k && m[i].train
            < b.len() && is_forward(a, b, m[i].query as int, m[i].train as int) by {
            if i < p.len() {
                assert(m[i] == p[i]);
            }
        }
        assert forall|i: int, j: int| 0 <= i < j < m.len() implies (#[trigger] m[i]).query < (
        #[trigger] m[j]).query by {
            assert(m[i] == p[i]);
            if j < p.len() {
                assert(m[j] == p[j]);
            }
        }
    }
}

proof fn lemma_backward(a: Seq<Descriptor>, b: Seq<Descriptor>, k: int)
    requires
        0 <= k <= b.len(),
        a.len() <= usize::MAX,
        b.len() <= usize::MAX,
    ensures
        ({
            let m = backward(a, b, k);
            &&& forall|i: int|
                0 <= i < m.len() ==> (#[trigger] m[i]).train < k && m[i].query < a.len()
                    && !is_forward(a, b, m[i].query as int, m[i].train as int)
            &&& forall|i: int, j: int|
                0 <= i < j < m.len() ==> (#[trigger] m[i]).train < (#[trigger] m[j]).train
        }),
    decreases k,
{
    if k > 0 {
        lemma_backward(a, b, k - 1);
        lemma_clear_match_range(b[k - 1], a);
        let (m, p) = (backward(a, b, k), backward(a, b, k - 1));
        assert forall|i: int| 0 <= i < m.len() implies (#[trigger] m[i]).train < k && m[i].query
            < a.len() && !is_forward(a, b, m[i].query as int, m[i].train as int) by {
            if i < p.len() {
                assert(m[i] == p[i]);
            }
        }
        assert forall|i: int, j: int| 0 <= i < j < m.len() implies (#[trigger] m[i]).train < (
        #[trigger] m[j]).train by {
            assert(m[i] == p[i]);
            if j < p.len() {
                assert(m[j] == p[j]);
            }
        }
    }
}

/// No pair of descriptors is matched twice, and every match names
/// descriptors of the two sets.
pub proof fn lemma_matches_distinct(a: Seq<Descriptor>, b: Seq<Descriptor>)
    requires
        a.len() <= usize::MAX,
        b.len() <= usize::MAX,
    ensures
        ({
            let m = forward(a, b, a.len() as int) + backward(a, b, b.len() as int);
            &&& forall|i: int|
                0 <= i < m.len() ==> (#[trigger] m[i]).query < a.len() && m[i].train < b.len()
            &&& forall|i: int, j: int|
                0 <= i < j < m.len() ==> !((#[trigger] m[i]).query == (#[trigger] m[j]).query
                    && m[i].train == m[j].train)
        }),
{
    lemma_forward(a, b, a.len() as int);
    lemma_backward(a, b, b.len() as int);
    let f = forward(a, b, a.len() as int);
    let g = backward(a, b, b.len() as int);
    let m = f + g;
    assert forall|i: int, j: int| 0 <= i < j < m.len() implies !((#[trigger] m[i]).query == (
    #[trigger] m[j]).query && m[i].train == m[j].train) by {
        if j < f.len() {
            assert(f[i].query < f[j].query);
        } else if i >= f.len() {
            assert(g[i - f.len()].train < g[j - f.len()].train);
        } else {
            assert(is_forward(a, b, f[i].query as int, f[i].train as int));
            assert(!is_forward(a, b, g[j - f.len()].query as int, g[j - f.len()].train as int));
        }
    }
}

proof fn lemma_second_exists(query: Descriptor, train: Seq<Descriptor>, i: int, k: int) -> (d: int)
    requires
        0 <= k <= train.len(),
        k >= 2 || (k == 1 && i != 0),
    ensures
        forall|j: int| 0 <= j < k && j != i ==> d <= #[trigger] ham(query, train[j]),
        exists|j: int| 0 <= j < k && j != i && #[trigger] ham(query, train[j]) == d,
    decreases k,
{
    let last = ham(query, train[k - 1]);
    if k - 1 == i {
        lemma_second_exists(query, train, i, k - 1)
    } else if k >= 3 || (k == 2 && i != 0) {
        let d = lemma_second_exists(query, train, i, k - 1);
        if last < d {
            assert(ham(query, train[k - 1]) == last);
            last
        } else {
            d
        }
    } else {
        assert forall|j: int| 0 <= j < k && j != i implies last <= #[trigger] ham(
            query,
            train[j],
        ) by {
            assert(!(0 <= j < k - 1));
        }
        assert(ham(query, train[k - 1]) == last);
        last
    }
}

proof fn lemma_distance_range(a: Seq<u8>, b: Seq<u8>, k: int)
    requires
        0 <= k,
    ensures
        0 <= bit_distance(a, b, k) <= 8 * k,
    decreases k,
{
    if k > 0 {
        lemma_distance_range(a, b, k - 1);
        let x = a[k - 1] ^ b[k - 1];
        assert((x & 1) + ((x >> 1) & 1) + ((x >> 2) & 1) + ((x >> 3) & 1) + ((x >> 4) & 1) + ((x
            >> 5) & 1) + ((x >> 6) & 1) + ((x >> 7) & 1) <= 8) by (bit_vector);
    }
}

/// A descriptor is matched with the one that is less than seven tenths as far
/// as every other.
proof fn lemma_clear(query: Descriptor, train: Seq<Descriptor>, t: int)
    requires
        0 <= t < train.len(),
    ensures
        clear_match(query, train) == Some((t, ham(query, train[t]))) <==> {
            &&& train.len() >= 2
            &&& forall|j: int|
                0 <= j < train.len() && j != t ==> 10 * ham(query, train[t]) < 7 * #[trigger] ham(
                    query,
                    train[j],
                )
        },
        clear_match(query, train) matches Some((i, d)) ==> d == ham(query, train[i]),
{
    if train.len() >= 2 {
        lemma_nearest_exists(query, train, train.len() as int);
        assert(train.take(train.len() as int) =~= train);
        let i = choose|i: int| is_nearest(query, train, i);
        assert(is_nearest(query, train, i));
        let e = lemma_second_exists(query, train, i, train.len() as int);
        assert(is_second(query, train, i, e));
        let d1 = choose|d: int| is_second(query, train, i, d);
        assert(is_second(query, train, i, d1));
        lemma_distance_range(query@, train[t]@, 32);
        lemma_distance_range(query@, train[i]@, 32);
        if forall|j: int|
            0 <= j < train.len() && j != t ==> 10 * ham(query, train[t]) < 7 * #[trigger] ham(
                query,
                train[j],
            ) {
            assert(ham(query, train[i]) <= ham(query, train[t]));
            assert(i == t);
            let j = choose|j: int|
                0 <= j < train.len() && j != i && #[trigger] ham(query, train[j]) == d1;
            assert(10 * ham(query, train[t]) < 7 * ham(query, train[j]));
        }
        if clear_match(query, train) == Some((t, ham(query, train[t]))) {
            assert(i == t);
            assert forall|j: int| 0 <= j < train.len() && j != t implies 10 * ham(query, train[t])
                < 7 * #[trigger] ham(query, train[j]) by {
                assert(d1 <= ham(query, train[j]));
            }
        }
    }
}

/// The first `k` descriptors of `a` have the matches that are clear.
proof fn lemma_forward_has(a: Seq<Descriptor>, b: Seq<Descriptor>, k: int, m: RawMatch)
    requires
        0 <= k <= a.len(),
        a.len() <= usize::MAX,
        b.len() <= usize::MAX,
    ensures
        forward(a, b, k).contains(m) <==> m.query < k && m.train < b.len() && clear_match(
            a[m.query as int],
            b,
        ) == Some((m.train as int, m.distance as int)),
    decreases k,
{
    if k > 0 {
        lemma_forward_has(a, b, k - 1, m);
        lemma_clear_match_range(a[k - 1], b);
        let before = forward(a, b, k - 1);
        match clear_match(a[k - 1], b) {
            Some((t, d)) => {
                lemma_clear(a[k - 1], b, t);
                lemma_distance_range(a[k - 1]@, b[t]@, 32);
                let one = RawMatch {
                    query: (k - 1) as usize,
                    train: t as usize,
                    distance: d as u32,
                };
                lemma_push_contains(before, one, m);
            },
            None => {},
        }
    }
}

proof fn lemma_backward_has(a: Seq<Descriptor>, b: Seq<Descriptor>, k: int, m: RawMatch)
    requires
        0 <= k <= b.len(),
        a.len() <= usize::MAX,
        b.len() <= usize::MAX,
    ensures
        backward(a, b, k).contains(m) <==> m.train < k && m.query < a.len() && clear_match(
            b[m.train as int],
            a,
        ) == Some((m.query as int, m.distance as int)) && !is_forward(
            a,
            b,
            m.query as int,
            m.train as int,
        ),
    decreases k,
{
    if k > 0 {
        lemma_backward_has(a, b, k - 1, m);
        lemma_clear_match_range(b[k - 1], a);
        let before = backward(a, b, k - 1);
        match clear_match(b[k - 1], a) {
            Some((t, d)) => {
                lemma_clear(b[k - 1], a, t);
                lemma_distance_range(b[k - 1]@, a[t]@, 32);
                let one = RawMatch {
                    query: t as usize,
                    train: (k - 1) as usize,
                    distance: d as u32,
                };
                lemma_push_contains(before, one, m);
            },
            None => {},
        }
    }
}

proof fn lemma_push_contains(s: Seq<RawMatch>, one: RawMatch, m: RawMatch)
    ensures
        s.push(one).contains(m) <==> s.contains(m) || m == one,
{
    let t = s.push(one);
    if s.contains(m) {
        let i = choose|i: int| 0 <= i < s.len() && s[i] == m;
        assert(t[i] == m);
    }
    if m == one {
        assert(t[s.len() as int] == m);
    }
    if t.contains(m) {
        let i = choose|i: int| 0 <= i < t.len() && t[i] == m;
        if i < s.len() {
            assert(s[i] == m);
        }
    }
}

/// Which descriptors are matched: those `q` and `t` of which one is less than
/// seven tenths as far from the other as every other candidate is, whichever
/// of the two is looked up. There have to be two candidates at least, and the
/// match tells the distance.
pub proof fn lemma_matches_are_clear(
    a: Seq<Descriptor>,
    b: Seq<Descriptor>,
    q: usize,
    t: usize,
    d: u32,
)
    requires
        a.len() <= usize::MAX,
        b.len() <= usize::MAX,
    ensures
        (forward(a, b, a.len() as int) + backward(a, b, b.len() as int)).contains(
            RawMatch { query: q, train: t, distance: d },
        ) <==> {
            &&& q < a.len()
            &&& t < b.len()
            &&& d == ham(a[q as int], b[t as int])
            &&& ({
                ||| b.len() >= 2 && forall|j: int|
                    0 <= j < b.len() && j != t ==> 10 * d < 7 * #[trigger] ham(a[q as int], b[j])
                ||| a.len() >= 2 && forall|j: int|
                    0 <= j < a.len() && j != q ==> 10 * d < 7 * #[trigger] ham(b[t as int], a[j])
            })
        },
{
    let m = RawMatch { query: q, train: t, distance: d };
    let f = forward(a, b, a.len() as int);
    let g = backward(a, b, b.len() as int);
    lemma_forward_has(a, b, a.len() as int, m);
    lemma_backward_has(a, b, b.len() as int, m);
    assert((f + g).contains(m) <==> f.contains(m) || g.contains(m)) by {
        if f.contains(m) {
            let i = choose|i: int| 0 <= i < f.len() && f[i] == m;
            assert((f + g)[i] == m);
        }
        if g.contains(m) {
            let i = choose|i: int| 0 <= i < g.len() && g[i] == m;
            assert((f + g)[f.len() + i] == m);
        }
        if (f + g).contains(m) {
            let i = choose|i: int| 0 <= i < (f + g).len() && (f + g)[i] == m;
            if i < f.len() {
                assert(f[i] == m);
            } else {
                assert(g[i - f.len()] == m);
            }
        }
    }
    if q < a.len() && t < b.len() {
        lemma_clear(a[q as int], b, t as int);
        lemma_clear(b[t as int], a, q as int);
        lemma_distance_symmetric(a[q as int]@, b[t as int]@, 32);
        lemma_distance_range(a[q as int]@, b[t as int]@, 32);
    }
}

/// The order of the matches: first those that are clear when `a` is looked up
/// in `b`, by their place in `a`, then the others, by their place in `b`.
pub proof fn lemma_matches_ordered(a: Seq<Descriptor>, b: Seq<Descriptor>, i: int, j: int)
    requires
        a.len() <= usize::MAX,
        b.len() <= usize::MAX,
        0 <= i < j < forward(a, b, a.len() as int).len() + backward(a, b, b.len() as int).len(),
    ensures
        ({
            let m = forward(a, b, a.len() as int) + backward(a, b, b.len() as int);
            let clear = |k: int|
                forall|l: int|
                    0 <= l < b.len() && l != m[k].train ==> 10 * ham(
                        a[m[k].query as int],
                        b[m[k].train as int],
                    ) < 7 * #[trigger] ham(a[m[k].query as int], b[l]);
            if clear(j) && b.len() >= 2 {
                clear(i) && m[i].query < m[j].query
            } else {
                clear(i) && b.len() >= 2 || m[i].train < m[j].train
            }
        }),
{
    lemma_forward(a, b, a.len() as int);
    lemma_backward(a, b, b.len() as int);
    let f = forward(a, b, a.len() as int);
    let g = backward(a, b, b.len() as int);
    let m = f + g;
    let (x, y) = (m[i], m[j]);
    lemma_matches_distinct(a, b);
    if i < f.len() {
        assert(f[i] == x);
    } else {
        assert(g[i - f.len()] == x);
    }
    if j < f.len() {
        assert(f[j] == y);
    } else {
        assert(g[j - f.len()] == y);
    }
    lemma_clear(a[x.query as int], b, x.train as int);
    lemma_clear(a[y.query as int], b, y.train as int);
    assert((i < f.len()) == is_forward(a, b, x.query as int, x.train as int));
    assert((j < f.len()) == is_forward(a, b, y.query as int, y.train as int));
}

/// Turning one bit of a descriptor moves it one bit further from those that
/// agreed with it there, and one bit nearer to the others.
pub proof fn lemma_one_bit(a: Seq<u8>, b: Seq<u8>, k: int, i: int, j: u8)
    requires
        0 <= i < k <= b.len(),
        j < 8,
    ensures
        bit_distance(a, b.update(i, b[i] ^ (1u8 << j)), k) == bit_distance(a, b, k) + if (a[i] >> j)
            & 1 == (b[i] >> j) & 1 {
            1int
        } else {
            -1
        },
    decreases k,
{
    let c = b.update(i, b[i] ^ (1u8 << j));
    if i < k - 1 {
        lemma_one_bit(a, b, k - 1, i, j);
    } else {
        lemma_same_start(a, b, c, k - 1);
        let (x, y) = (a[i], b[i]);
        let (u, v) = (x ^ y, x ^ (y ^ (1u8 << j)));
        assert((v & 1) + ((v >> 1) & 1) + ((v >> 2) & 1) + ((v >> 3) & 1) + ((v >> 4) & 1) + ((v
            >> 5) & 1) + ((v >> 6) & 1) + ((v >> 7) & 1) == (u & 1) + ((u >> 1) & 1) + ((u >> 2)
            & 1) + ((u >> 3) & 1) + ((u >> 4) & 1) + ((u >> 5) & 1) + ((u >> 6) & 1) + ((u >> 7)
            & 1) + (if (x >> j) & 1 == (y >> j) & 1 { 1int } else { -1int })) by (bit_vector)
            requires
                j < 8,
                u == x ^ y,
                v == x ^ (y ^ (1u8 << j)),
        ;
    }
}

proof fn lemma_same_start(a: Seq<u8>, b: Seq<u8>, c: Seq<u8>, k: int)
    requires
        forall|i: int| 0 <= i < k ==> #[trigger] b[i] == c[i],
    ensures
        bit_distance(a, b, k) == bit_distance(a, c, k),
    decreases k,
{
    if k > 0 {
        lemma_same_start(a, b, c, k - 1);
    }
}

/// A nonnegative fraction.
#[derive(Debug, Clone, Copy, PartialEq, Eq, Structural)]
pub struct Ratio {
    pub num: u64,
    pub den: u64,
}

impl Ratio {
    pub open spec fn wf(self) -> bool {
        self.den > 0
    }

    pub open spec fn lt(self, other: Ratio) -> bool {
        self.num * other.den < other.num * self.den
    }

    pub fn zero() -> (r: Self)
        ensures
            r.wf(),
            r.num == 0,
            r.den == 1,
    {
        Ratio { num: 0, den: 1 }
    }

    /// Whether `self` is smaller than `other`.
    pub fn less(&self, other: &Ratio) -> (r: bool)
        requires
            self.wf(),
            other.wf(),
        ensures
            r == self.lt(*other),
    {
        proof {
            assert(self.num * other.den <= 0xffff_ffff_ffff_ffff * 0xffff_ffff_ffff_ffff)
                by (nonlinear_arith)
                requires
                    0 <= self.num <= 0xffff_ffff_ffff_ffff,
                    0 <= other.den <= 0xffff_ffff_ffff_ffff,
            ;
            assert(other.num * self.den <= 0xffff_ffff_ffff_ffff * 0xffff_ffff_ffff_ffff)
                by (nonlinear_arith)
                requires
                    0 <= other.num <= 0xffff_ffff_ffff_ffff,
                    0 <= self.den <= 0xffff_ffff_ffff_ffff,
            ;
        }
        (self.num as u128) * (other.den as u128) < (other.num as u128) * (self.den as u128)
    }
}

/// Confidence in a pair with `num_inliers` of `num_matches` matches in
/// agreement: `num_inliers / (8 + 0.3 * num_matches)`, and 0 where that is
/// over the threshold for near duplicates.
pub open spec fn confidence_of(num_inliers: int, num_matches: int) -> (int, int) {
    if 10 * num_inliers > MATCHES_CONFIDENCE_THRESH * (80 + 3 * num_matches) {
        (0, 1)
    } else {
        (10 * num_inliers, 80 + 3 * num_matches)
    }
}

pub fn match_confidence(num_inliers: usize, num_matches: usize) -> (c: Ratio)
    requires
        num_inliers <= 0xff_ffff_ffff_ffff,
        num_matches <= 0xff_ffff_ffff_ffff,
    ensures
        c.wf(),
        c.num == confidence_of(num_inliers as int, num_matches as int).0,
        c.den == confidence_of(num_inliers as int, num_matches as int).1,
{
    let num: u64 = 10 * num_inliers as u64;
    let den: u64 = 80 + 3 * num_matches as u64;
    if num > MATCHES_CONFIDENCE_THRESH * den {
        Ratio::zero()
    } else {
        Ratio { num, den }
    }
}

/// A pair can be trusted, its confidence being over 1, where the inliers
/// outnumber eight and three tenths of the matches, unless they are so many,
/// over three times that, that the images are near duplicates. Up to there
/// the confidence grows with the inliers in proportion.
pub proof fn lemma_confidence(num_inliers: int, num_matches: int, more: int)
    requires
        0 <= num_inliers <= more,
        0 <= num_matches,
    ensures
        ({
            let (n, d) = confidence_of(num_inliers, num_matches);
            let (n2, d2) = confidence_of(more, num_matches);
            &&& d > 0
            &&& n > d <==> 80 + 3 * num_matches < 10 * num_inliers <= 240 + 9 * num_matches
            &&& n == 0 <==> num_inliers == 0 || 10 * num_inliers > 240 + 9 * num_matches
            &&& n <= 3 * d
            &&& 10 * more <= 240 + 9 * num_matches ==> n * (d2 * more) == n2 * (d * num_inliers)
        }),
{
    let (n, d) = confidence_of(num_inliers, num_matches);
    let (n2, d2) = confidence_of(more, num_matches);
    if 10 * more <= 240 + 9 * num_matches {
        assert(n * (d2 * more) == n2 * (d * num_inliers)) by (nonlinear_arith)
            requires
                n == 10 * num_inliers,
                n2 == 10 * more,
                d == d2,
        ;
    }
}

/// One flag more is one more that is set, if it is.
pub proof fn lemma_count_set(flags: Seq<bool>, k: int, i: int)
    requires
        0 <= i < k <= flags.len(),
    ensures
        0 <= count_set(flags, k) <= k,
        count_set(flags.update(i, true), k) == count_set(flags.update(i, false), k) + 1,
        (forall|j: int| 0 <= j < k ==> !#[trigger] flags[j]) ==> count_set(flags, k) == 0,
    decreases k,
{
    if k > 1 {
        if i < k - 1 {
            lemma_count_set(flags, k - 1, i);
        } else {
            lemma_count_set(flags, k - 1, 0);
            lemma_count_start(flags.update(i, true), flags.update(i, false), k - 1);
        }
    } else {
        reveal_with_fuel(count_set, 2);
    }
}

proof fn lemma_count_start(a: Seq<bool>, b: Seq<bool>, k: int)
    requires
        forall|i: int| 0 <= i < k ==> #[trigger] a[i] == b[i],
    ensures
        count_set(a, k) == count_set(b, k),
    decreases k,
{
    if k > 0 {
        lemma_count_start(a, b, k - 1);
    }
}

/// What is known of a pair of images: its matches, which of them agree with
/// the homography found for it, and how far the pair can be trusted.
pub struct PairMatches {
    pub matches: Vec<RawMatch>,
    pub inliers: Vec<bool>,
    pub num_inliers: usize,
    /// Whether a homography was found.
    pub has_h: bool,
    pub confidence: Ratio,
}

/// How many of the first `k` flags are set.
pub open spec fn count_set(flags: Seq<bool>, k: int) -> int
    decreases k,
{
    if k <= 0 {
        0
    } else {
        count_set(flags, k - 1) + if flags[k - 1] { 1int } else { 0 }
    }
}

impl PairMatches {
    /// A pair without matches.
    pub fn empty() -> (p: Self)
        ensures
            p.matches@.len() == 0,
            p.inliers@.len() == 0,
            p.num_inliers == 0,
            !p.has_h,
            p.confidence == (Ratio { num: 0, den: 1 }),
    {
        PairMatches {
            matches: Vec::new(),
            inliers: Vec::new(),
            num_inliers: 0,
            has_h: false,
            confidence: Ratio::zero(),
        }
    }

    /// The record of a pair with the given matches: `inliers` marks those that
    /// agree with its homography, if one was found.
    pub fn new(matches: Vec<RawMatch>, inliers: Option<Vec<bool>>) -> (p: Self)
        requires
            matches@.len() <= 0xff_ffff_ffff_ffff,
            inliers matches Some(v) ==> v@.len() <= 0xff_ffff_ffff_ffff,
        ensures
            p.matches@ == matches@,
            match inliers {
                Some(v) => {
                    &&& p.inliers@ == v@
                    &&& p.num_inliers == count_set(v@, v@.len() as int)
                    &&& p.has_h
                    &&& p.confidence.num == confidence_of(
                        p.num_inliers as int,
                        matches@.len() as int,
                    ).0
                    &&& p.confidence.den == confidence_of(
                        p.num_inliers as int,
                        matches@.len() as int,
                    ).1
                },
                None => {
                    &&& p.inliers@ == Seq::new(matches@.len(), |i: int| false)
                    &&& p.num_inliers == 0
                    &&& !p.has_h
                    &&& p.confidence == (Ratio { num: 0, den: 1 })
                },
            },
    {
        match inliers {
            Some(v) => {
                let mut n: usize = 0;
                let mut i: usize = 0;
                while i < v.len()
                    invariant
                        i <= v@.len(),
                        n == count_set(v@, i as int),
                        n <= i,
                    decreases v@.len() - i,
                {
                    if v[i] {
                        n = n + 1;
                    }
                    i = i + 1;
                }
                let confidence: Ratio = match_confidence(n, matches.len());
                PairMatches { matches, inliers: v, num_inliers: n, has_h: true, confidence }
            },
            None => {
                let mut v: Vec<bool> = Vec::new();
                while v.len() < matches.len()
                    invariant
                        v@.len() <= matches@.len(),
                        forall|i: int| 0 <= i < v@.len() ==> !#[trigger] v@[i],
                    decreases matches@.len() - v@.len(),
                {
                    v.push(false);
                }
                assert(v@ =~= Seq::new(matches@.len(), |i: int| false));
                PairMatches {
                    matches,
                    inliers: v,
                    num_inliers: 0,
                    has_h: false,
                    confidence: Ratio::zero(),
                }
            },
        }
    }

    /// Whether there are enough matches to look for a homography.
    pub fn wants_homography(num_matches: usize) -> (r: bool)
        ensures
            r == (num_matches >= NUM_MATCHES_THRESH1),
    {
        num_matches >= NUM_MATCHES_THRESH1
    }

    /// Whether there are enough inliers to estimate the homography again from
    /// them alone.
    pub fn wants_refit(&self) -> (r: bool)
        ensures
            r == (self.has_h && self.num_inliers >= NUM_MATCHES_THRESH2),
    {
        self.has_h && self.num_inliers >= NUM_MATCHES_THRESH2
    }

    /// Positions of the inliers among the matches, in order.
    pub fn inlier_indices(&self) -> (r: Vec<usize>)
        ensures
            forall|i: int, j: int| 0 <= i < j < r@.len() ==> r@[i] < r@[j],
            forall|i: int|
                0 <= i < r@.len() ==> (#[trigger] r@[i]) < self.inliers@.len()
                    && self.inliers@[r@[i] as int],
            forall|k: int|
                0 <= k < self.inliers@.len() && #[trigger] self.inliers@[k] ==> r@.contains(
                    k as usize,
                ),
    {
        let mut r: Vec<usize> = Vec::new();
        let mut i: usize = 0;
        while i < self.inliers.len()
            invariant
                i <= self.inliers@.len(),
                forall|a: int, b: int| 0 <= a < b < r@.len() ==> r@[a] < r@[b],
                forall|a: int|
                    0 <= a < r@.len() ==> (#[trigger] r@[a]) < i && self.inliers@[r@[a] as int],
                forall|k: int| 0 <= k < i && #[trigger] self.inliers@[k] ==> r@.contains(k as usize),
            decreases self.inliers@.len() - i,
        {
            let ghost r0 = r@;
            if self.inliers[i] {
                r.push(i);
            }
            proof {
                assert forall|k: int| 0 <= k < i + 1 && #[trigger] self.inliers@[k] implies r@.contains(
                    k as usize,
                ) by {
                    if k < i {
                        assert(r0.contains(k as usize));
                        let q = r0.index_of(k as usize);
                        assert(r@[q] == k);
                    } else {
                        assert(r@[r@.len() - 1] == k);
                    }
                }
            }
            i = i + 1;
        }
        r
    }
}

/// Fractions are ordered as numbers are, and do not change when both parts are
/// multiplied alike.
pub proof fn lemma_fractions(a: Ratio, b: Ratio, c: Ratio, k: u64)
    requires
        a.wf(),
        b.wf(),
        k >= 1,
        c.num == a.num * k,
        c.den == a.den * k,
    ensures
        a.den == b.den ==> (a.lt(b) <==> a.num < b.num),
        a.num == b.num && a.num > 0 ==> (a.lt(b) <==> a.den > b.den),
        a.lt(b) <==> c.lt(b),
        b.lt(a) <==> b.lt(c),
        !(a.lt(b) && b.lt(a)),
{
    let (p, q, r, s) = (a.num as int, a.den as int, b.num as int, b.den as int);
    let n = k as int;
    assert((p * n) * s == (p * s) * n && r * (q * n) == (r * q) * n) by (nonlinear_arith);
    assert((p * s) * n < (r * q) * n <==> p * s < r * q) by (nonlinear_arith)
        requires
            n >= 1,
    ;
    assert((r * q) * n < (p * s) * n <==> r * q < p * s) by (nonlinear_arith)
        requires
            n >= 1,
    ;
    if q == s {
        assert(p * s < r * q <==> p < r) by (nonlinear_arith)
            requires
                q == s,
                q >= 1,
        ;
    }
    if p == r && p > 0 {
        assert(p * s < r * q <==> q > s) by (nonlinear_arith)
            requires
                p == r,
                p > 0,
        ;
    }
}

} // verus!
