//! Oriented features: the round patch, corner strength, orientation moments
//! and binary descriptors, on whole numbers.

use crate::fast::FastKeypoint;
use crate::imgproc::GrayImage;
use crate::matcher::Descriptor;
use vstd::prelude::*;

verus! {

/// `r` is the whole number nearest to the square root of `k`.
pub open spec fn is_nearest_root(k: int, r: int) -> bool {
    &&& 0 <= r
    &&& r == 0 || r * (r - 1) < k
    &&& k <= r * (r + 1)
}

/// The whole number nearest to the square root of `k`.
pub open spec fn root_of(k: int) -> int {
    choose|r: int| #[trigger] is_nearest_root(k, r)
}

/// Half the width of a disc of radius `hp` in row `v`, to the nearest pixel.
pub open spec fn half_width(hp: int, v: int) -> int {
    root_of(hp * hp - v * v)
}

/// There is but one nearest root, and larger numbers have no smaller one.
proof fn lemma_root_order(k: int, r: int, l: int, s: int)
    requires
        is_nearest_root(k, r),
        is_nearest_root(l, s),
        k <= l,
    ensures
        r <= s,
        k == l ==> r == s,
{
    if s < r {
        assert(s * (s + 1) <= r * (r - 1)) by (nonlinear_arith)
            requires
                0 <= s,
                s + 1 <= r,
        ;
    }
    if k == l && r < s {
        assert(r * (r + 1) <= s * (s - 1)) by (nonlinear_arith)
            requires
                0 <= r,
                r + 1 <= s,
        ;
    }
}

proof fn lemma_half_width(hp: int, v: int, r: int)
    requires
        is_nearest_root(hp * hp - v * v, r),
    ensures
        half_width(hp, v) == r,
        is_nearest_root(hp * hp - v * v, half_width(hp, v)),
{
    let s = half_width(hp, v);
    lemma_root_order(hp * hp - v * v, r, hp * hp - v * v, s);
}

/// The whole number nearest to the square root of `k`.
fn nearest_root(k: i64) -> (r: i64)
    requires
        0 <= k <= 0x7fff_ffff,
    ensures
        is_nearest_root(k as int, r as int),
        r <= 46341,
{
    let mut r: i64 = 0;
    while r * (r + 1) < k
        invariant
            0 <= k <= 0x7fff_ffff,
            0 <= r <= 46341,
            r == 0 || r * (r - 1) < k,
            r * (r + 1) <= 46341 * 46342,
        decreases 46341 - r,
    {
        proof {
            if r >= 46341 {
                assert(r * (r + 1) >= 0x7fff_ffff) by (nonlinear_arith)
                    requires
                        r >= 46341,
                ;
            }
        }
        r = r + 1;
        proof {
            assert(r * (r - 1) == (r - 1) * (r - 1 + 1)) by (nonlinear_arith);
            assert(r * (r + 1) <= 46341 * 46342) by (nonlinear_arith)
                requires
                    0 <= r <= 46341,
            ;
        }
    }
    r
}

/// `m` is the first row beyond the diagonal of a disc of radius `hp`.
pub open spec fn is_diagonal(hp: int, m: int) -> bool {
    1 <= m <= hp && 2 * (m - 1) * (m - 1) <= hp * hp < 2 * m * m
}

/// Half widths of the rows of a disc of radius `hp`. Above the diagonal they
/// are those of a circle; from the diagonal on, row `v` reaches as far as the
/// rows above reach down to it.
pub open spec fn is_disc(hp: int, m: int, umax: Seq<i32>) -> bool {
    &&& is_diagonal(hp, m)
    &&& umax.len() == hp + 2
    &&& forall|v: int| 0 <= v < m ==> #[trigger] umax[v] == half_width(hp, v)
    &&& forall|v: int|
        m <= v <= hp ==> {
            &&& 0 <= #[trigger] umax[v] <= m
            &&& half_width(hp, umax[v] as int) >= v
            &&& umax[v] == m || half_width(hp, umax[v] + 1) < v
        }
    &&& umax[hp + 1] == 0
}

/// Facts about the rows of a disc up to its diagonal.
proof fn lemma_rows(hp: int, m: int, u: int)
    requires
        is_diagonal(hp, m),
        0 <= u < m,
        is_nearest_root(hp * hp - u * u, half_width(hp, u)),
        is_nearest_root(hp * hp - (u + 1) * (u + 1), half_width(hp, u + 1)),
    ensures
        half_width(hp, u + 1) <= half_width(hp, u),
        half_width(hp, u) >= u + 2 ==> half_width(hp, u + 1) >= half_width(hp, u) - 1,
{
    let (a, b) = (half_width(hp, u), half_width(hp, u + 1));
    let (k, l) = (hp * hp - u * u, hp * hp - (u + 1) * (u + 1));
    assert((u + 1) * (u + 1) == u * u + 2 * u + 1) by (nonlinear_arith);
    lemma_root_order(l, b, k, a);
    if a >= u + 2 && b <= a - 2 {
        assert(b * (b + 1) <= (a - 2) * (a - 1)) by (nonlinear_arith)
            requires
                0 <= b <= a - 2,
        ;
        assert(a * (a - 1) - (a - 2) * (a - 1) == 2 * (a - 1)) by (nonlinear_arith);
    }
}

/// The diagonal row is no wider than it is far down.
proof fn lemma_diagonal_row(hp: int, m: int)
    requires
        is_diagonal(hp, m),
        is_nearest_root(hp * hp - m * m, half_width(hp, m)),
    ensures
        half_width(hp, m) <= m,
{
    let r = half_width(hp, m);
    if r > m {
        assert(r * (r - 1) >= m * m) by (nonlinear_arith)
            requires
                r >= m + 1,
                m >= 1,
        ;
        assert(2 * m * m == m * m + m * m) by (nonlinear_arith);
    }
}

/// Half widths of the rows of a disc of radius `half_patch`, the same whether
/// taken by rows or by columns.
#[verifier::spinoff_prover]
#[verifier::rlimit(60)]
pub fn umax_table(half_patch: i32) -> (umax: Vec<i32>)
    requires
        1 <= half_patch <= 46340,
    ensures
        exists|m: int| #[trigger] is_disc(half_patch as int, m, umax@),
{
    let hp: i64 = half_patch as i64;
    assert(hp * hp <= 46340 * 46340) by (nonlinear_arith)
        requires
            1 <= hp <= 46340,
    ;
    assert(hp * hp >= 1) by (nonlinear_arith)
        requires
            1 <= hp,
    ;
    let mut m: i64 = 1;
    while 2 * m * m <= hp * hp
        invariant
            1 <= hp <= 46340,
            1 <= hp * hp <= 46340 * 46340,
            1 <= m <= hp,
            2 * (m - 1) * (m - 1) <= hp * hp,
            2 * m * m <= 2 * 46340 * 46340,
        decreases hp - m,
    {
        proof {
            if m >= hp {
                assert(2 * m * m > hp * hp) by (nonlinear_arith)
                    requires
                        m >= hp,
                        hp * hp >= 1,
                        hp >= 1,
                ;
            }
        }
        m = m + 1;
        assert(2 * m * m <= 2 * 46340 * 46340) by (nonlinear_arith)
            requires
                1 <= m <= 46340,
        ;
    }
    let mut umax: Vec<i32> = Vec::new();
    let mut i: i64 = 0;
    while i <= hp + 1
        invariant
            1 <= hp <= 46340,
            1 <= hp * hp <= 46340 * 46340,
            is_diagonal(hp as int, m as int),
            0 <= i <= hp + 2,
            umax@.len() == i,
            forall|v: int|
                0 <= v < i && v <= m ==> is_nearest_root(hp * hp - v * v, #[trigger] umax@[v] as int),
            forall|v: int| m < v < i ==> #[trigger] umax@[v] == 0,
        decreases hp + 2 - i,
    {
        if i <= m {
            proof {
                assert(0 <= i * i <= hp * hp) by (nonlinear_arith)
                    requires
                        0 <= i <= hp,
                ;
            }
            let r: i64 = nearest_root(hp * hp - i * i);
            umax.push(r as i32);
        } else {
            umax.push(0);
        }
        i = i + 1;
    }
    let ghost first = umax@;
    proof {
        assert forall|v: int| 0 <= v <= m implies #[trigger] umax@[v] == half_width(hp as int, v) by {
            lemma_half_width(hp as int, v, umax@[v] as int);
        }
        assert forall|v: int| 0 <= v <= m implies is_nearest_root(
            hp * hp - v * v,
            #[trigger] half_width(hp as int, v),
        ) by {
            lemma_half_width(hp as int, v, umax@[v] as int);
        }
        assert(half_width(hp as int, m as int) == umax@[m as int]);
        lemma_diagonal_row(hp as int, m as int);
        assert(is_nearest_root(hp * hp, hp as int)) by (nonlinear_arith)
            requires
                hp >= 1,
        ;
        lemma_root_order(hp * hp - 0 * 0, umax@[0] as int, hp * hp, hp as int);
    }
    let mut v0: i64 = 0;
    let mut v: i64 = hp;
    while v >= m
        invariant
            1 <= hp <= 46340,
            is_diagonal(hp as int, m as int),
            m - 1 <= v <= hp,
            umax@.len() == hp + 2,
            half_width(hp as int, m as int) <= m,
            forall|w: int|
                0 <= w <= m ==> is_nearest_root(
                    hp * hp - w * w,
                    #[trigger] half_width(hp as int, w),
                ),
            forall|w: int|
                0 <= w < m ==> #[trigger] umax@[w] == half_width(hp as int, w),
            v >= m ==> umax@[m as int] == half_width(hp as int, m as int),
            forall|w: int|
                v < w <= hp && m <= w ==> {
                    &&& 0 <= #[trigger] umax@[w] <= m
                    &&& half_width(hp as int, umax@[w] as int) >= w
                    &&& umax@[w] == m || half_width(hp as int, umax@[w] + 1) < w
                },
            umax@[hp + 1] == 0,
            0 <= v0,
            v >= m ==> v0 <= m && half_width(hp as int, v0 as int) == v,
        decreases v - m + 1,
    {
        while umax[v0 as usize] == umax[(v0 + 1) as usize]
            invariant
                1 <= hp <= 46340,
                is_diagonal(hp as int, m as int),
                m <= v <= hp,
                umax@.len() == hp + 2,
                half_width(hp as int, m as int) <= m,
                forall|w: int|
                    0 <= w < m ==> #[trigger] umax@[w] == half_width(hp as int, w),
                umax@[m as int] == half_width(hp as int, m as int),
                forall|w: int|
                    v < w <= hp && m <= w ==> {
                        &&& 0 <= #[trigger] umax@[w] <= m
                        &&& half_width(hp as int, umax@[w] as int) >= w
                    },
                umax@[hp + 1] == 0,
                0 <= v0 <= m,
                half_width(hp as int, v0 as int) == v,
            decreases m + 1 - v0,
        {
            proof {
                if v0 == m {
                    assert(v == m);
                    if m < hp {
                        assert(half_width(hp as int, umax@[m + 1] as int) >= m + 1);
                        assert(umax@[m + 1] != m);
                    }
                }
                assert(v0 < m);
            }
            v0 = v0 + 1;
        }
        proof {
            if v0 < m {
                lemma_rows(hp as int, m as int, v0 as int);
            }
        }
        umax.set(v as usize, v0 as i32);
        v0 = v0 + 1;
        v = v - 1;
    }
    proof {
        assert(is_disc(half_patch as int, m as int, umax@));
    }
    umax
}

proof fn lemma_root_exists(k: int) -> (r: int)
    requires
        0 <= k,
    ensures
        is_nearest_root(k, r),
    decreases k,
{
    if k == 0 {
        0
    } else {
        let r = lemma_root_exists(k - 1);
        if k <= r * (r + 1) {
            r
        } else {
            assert((r + 1) * (r + 1 + 1) >= r * (r + 1) + 1) by (nonlinear_arith)
                requires
                    r >= 0,
            ;
            assert((r + 1) * (r + 1 - 1) == r * (r + 1)) by (nonlinear_arith);
            r + 1
        }
    }
}

/// Rows further from the middle are no wider.
proof fn lemma_narrows(hp: int, m: int, u: int, v: int)
    requires
        is_diagonal(hp, m),
        0 <= u <= v <= m,
    ensures
        half_width(hp, v) <= half_width(hp, u),
{
    assert(u * u <= v * v) by (nonlinear_arith)
        requires
            0 <= u <= v,
    ;
    assert(v * v <= hp * hp) by (nonlinear_arith)
        requires
            0 <= v <= hp,
    ;
    let r = lemma_root_exists(hp * hp - u * u);
    let s = lemma_root_exists(hp * hp - v * v);
    lemma_half_width(hp, u, r);
    lemma_half_width(hp, v, s);
    lemma_root_order(hp * hp - v * v, s, hp * hp - u * u, r);
}

/// The disc is the same by rows and by columns: row `a` reaches column `b`
/// just where row `b` reaches column `a`.
pub proof fn lemma_disc_symmetric(hp: int, m: int, umax: Seq<i32>, a: int, b: int)
    requires
        is_disc(hp, m, umax),
        0 <= a <= hp,
        0 <= b <= hp,
    ensures
        umax[a] >= b <==> umax[b] >= a,
{
    assert(m * m <= hp * hp) by (nonlinear_arith)
        requires
            1 <= m <= hp,
    ;
    let d = lemma_root_exists(hp * hp - m * m);
    lemma_half_width(hp, m, d);
    lemma_diagonal_row(hp, m);
    assert((m - 1) * (m - 1) <= m * m) by (nonlinear_arith)
        requires
            1 <= m,
    ;
    let e = lemma_root_exists(hp * hp - (m - 1) * (m - 1));
    assert(hp * hp - (m - 1) * (m - 1) >= (m - 1) * (m - 1)) by (nonlinear_arith)
        requires
            2 * (m - 1) * (m - 1) <= hp * hp,
    ;
    lemma_half_width(hp, m - 1, e);
    if e < m - 1 {
        assert(e * (e + 1) < (m - 1) * (m - 1)) by (nonlinear_arith)
            requires
                0 <= e <= m - 2,
        ;
    }
    if a < m && b < m {
        lemma_narrows(hp, m, a, m - 1);
        lemma_narrows(hp, m, b, m - 1);
    } else if a < m {
        lemma_disc_mixed(hp, m, umax, a, b);
    } else if b < m {
        lemma_disc_mixed(hp, m, umax, b, a);
    } else {
        if umax[a] >= b {
            assert(half_width(hp, m) >= a);
        }
        if umax[b] >= a {
            assert(half_width(hp, m) >= b);
        }
    }
}

proof fn lemma_disc_mixed(hp: int, m: int, umax: Seq<i32>, a: int, b: int)
    requires
        is_disc(hp, m, umax),
        0 <= a < m <= b <= hp,
    ensures
        umax[a] >= b <==> umax[b] >= a,
{
    let u = umax[b] as int;
    if u >= a {
        lemma_narrows(hp, m, a, u);
    } else {
        lemma_narrows(hp, m, u + 1, a);
    }
}

/// No row of the disc is wider than the one above it.
pub proof fn lemma_disc_narrows(hp: int, m: int, umax: Seq<i32>, v: int)
    requires
        is_disc(hp, m, umax),
        0 <= v < hp,
    ensures
        umax[v] >= umax[v + 1],
{
    if umax[v] < umax[v + 1] {
        let b = umax[v] + 1;
        if v + 1 < m {
            lemma_narrows(hp, m, v, v + 1);
        } else {
            lemma_disc_bound(hp, m, umax, v + 1);
            if v < m {
                assert(v * v <= hp * hp) by (nonlinear_arith)
                    requires
                        0 <= v <= hp,
                ;
                let r = lemma_root_exists(hp * hp - v * v);
                lemma_half_width(hp, v, r);
            }
            lemma_disc_symmetric(hp, m, umax, v, b);
            lemma_disc_symmetric(hp, m, umax, v + 1, b);
        }
    }
}

proof fn lemma_disc_bound(hp: int, m: int, umax: Seq<i32>, v: int)
    requires
        is_disc(hp, m, umax),
        m <= v <= hp,
    ensures
        umax[v] <= m <= hp,
{
}

/// The keypoints at least `border` pixels inside an image of `w` by `h`
/// pixels, in order.
pub open spec fn inside_until(
    kps: Seq<FastKeypoint>,
    w: int,
    h: int,
    border: int,
    k: int,
) -> Seq<FastKeypoint>
    decreases k,
{
    if k <= 0 {
        Seq::empty()
    } else {
        let before = inside_until(kps, w, h, border, k - 1);
        let p = kps[k - 1];
        if border <= p.x < w - border && border <= p.y < h - border {
            before.push(p)
        } else {
            before
        }
    }
}

/// Keeps the keypoints at least `border` pixels inside the image.
pub fn run_by_image_border(kps: &[FastKeypoint], w: usize, h: usize, border: i32) -> (r: Vec<
    FastKeypoint,
>)
    requires
        w <= i32::MAX,
        h <= i32::MAX,
        forall|i: int|
            0 <= i < kps@.len() ==> (#[trigger] kps@[i]).x <= i32::MAX && kps@[i].y <= i32::MAX,
    ensures
        r@ == inside_until(kps@, w as int, h as int, border as int, kps@.len() as int),
{
    let b: i64 = border as i64;
    let mut r: Vec<FastKeypoint> = Vec::new();
    let mut i: usize = 0;
    while i < kps.len()
        invariant
            w <= i32::MAX,
            h <= i32::MAX,
            forall|k: int|
                0 <= k < kps@.len() ==> (#[trigger] kps@[k]).x <= i32::MAX && kps@[k].y <= i32::MAX,
            b == border,
            i <= kps@.len(),
            r@ == inside_until(kps@, w as int, h as int, border as int, i as int),
        decreases kps@.len() - i,
    {
        let p = kps[i];
        assert(kps@[i as int].x <= i32::MAX);
        let (x, y) = (p.x as i64, p.y as i64);
        if b <= x && x < w as i64 - b && b <= y && y < h as i64 - b {
            r.push(p);
        }
        i = i + 1;
    }
    r
}

/// Higher scores first, equal ones in the order given.
pub open spec fn ranks_before(scores: Seq<i64>, a: int, b: int) -> bool {
    scores[a] > scores[b] || (scores[a] == scores[b] && a < b)
}

/// The places of the scores, the best first.
pub open spec fn is_ranking(scores: Seq<i64>, k: int, order: Seq<usize>) -> bool {
    &&& order.len() == k
    &&& forall|a: int, b: int|
        0 <= a < b < order.len() ==> ranks_before(
            scores,
            #[trigger] order[a] as int,
            #[trigger] order[b] as int,
        )
    &&& forall|a: int| 0 <= a < order.len() ==> #[trigger] order[a] < k
    &&& forall|i: usize| i < k ==> #[trigger] order.contains(i)
}

fn rank_scores(scores: &[i64]) -> (order: Vec<usize>)
    ensures
        is_ranking(scores@, scores@.len() as int, order@),
{
    let mut order: Vec<usize> = Vec::new();
    let mut k: usize = 0;
    while k < scores.len()
        invariant
            k <= scores@.len(),
            is_ranking(scores@, k as int, order@),
        decreases scores@.len() - k,
    {
        let ghost o0 = order@;
        let s: i64 = scores[k];
        let mut p: usize = order.len();
        while p > 0 && scores[order[p - 1]] < s
            invariant
                k < scores@.len(),
                order@ == o0,
                is_ranking(scores@, k as int, o0),
                p <= o0.len(),
                forall|a: int| p <= a < o0.len() ==> scores@[(#[trigger] o0[a]) as int] < s,
            decreases p,
        {
            p = p - 1;
        }
        order.insert(p, k);
        proof {
            lemma_ranked(scores@, k as int, o0, order@, p as int);
        }
        k = k + 1;
    }
    order
}

proof fn lemma_ranked(scores: Seq<i64>, k: int, o0: Seq<usize>, o1: Seq<usize>, p: int)
    requires
        0 <= k < scores.len(),
        k <= usize::MAX,
        is_ranking(scores, k, o0),
        0 <= p <= o0.len(),
        o1 == o0.insert(p, k as usize),
        forall|a: int| p <= a < o0.len() ==> scores[(#[trigger] o0[a]) as int] < scores[k],
        p > 0 ==> scores[o0[p - 1] as int] >= scores[k],
    ensures
        is_ranking(scores, k + 1, o1),
{
    assert(o1[p] == k);
    assert forall|a: int, b: int| 0 <= a < b < o1.len() implies ranks_before(
        scores,
        #[trigger] o1[a] as int,
        #[trigger] o1[b] as int,
    ) by {
        let (x, y) = (
            if a < p {
                a
            } else {
                a - 1
            },
            if b < p {
                b
            } else {
                b - 1
            },
        );
        if b == p {
            if a < p - 1 {
                assert(ranks_before(scores, o0[a] as int, o0[p - 1] as int));
            }
            assert(o0[a] < k);
        } else if a != p {
            assert(ranks_before(scores, o0[x] as int, o0[y] as int));
        }
    }
    assert forall|a: int| 0 <= a < o1.len() implies #[trigger] o1[a] < k + 1 by {
        if a < p {
            assert(o0[a] < k);
        } else if a > p {
            assert(o0[a - 1] < k);
        }
    }
    assert forall|i: usize| i < k + 1 implies #[trigger] o1.contains(i) by {
        if i < k {
            assert(o0.contains(i));
            let z = o0.index_of(i);
            if z < p {
                assert(o1[z] == i);
            } else {
                assert(o1[z + 1] == i);
            }
        }
    }
}

/// `kept` are the places of the scores at least as good as the best but
/// `n - 1`, the best first.
pub open spec fn is_best(scores: Seq<i64>, n: int, order: Seq<usize>, kept: Seq<usize>) -> bool {
    &&& is_ranking(scores, scores.len() as int, order)
    &&& forall|a: int, b: int|
        0 <= a < b < kept.len() ==> ranks_before(
            scores,
            #[trigger] kept[a] as int,
            #[trigger] kept[b] as int,
        )
    &&& forall|i: usize| #[trigger]
        kept.contains(i) <==> i < scores.len() && scores[i as int] >= scores[order[n - 1] as int]
}

/// The places of the best `n` scores, the best first, with whatever ties with
/// the last of them. Where there are no more than `n`, all in their order.
pub fn retain_best(scores: &[i64], n: usize) -> (kept: Vec<usize>)
    ensures
        n == 0 ==> kept@.len() == 0,
        scores@.len() <= n ==> kept@ == Seq::new(scores@.len(), |i: int| i as usize),
        0 < n < scores@.len() ==> exists|order: Seq<usize>| #[trigger]
            is_best(scores@, n as int, order, kept@),
{
    let mut kept: Vec<usize> = Vec::new();
    if n == 0 {
        assert(scores@.len() == 0 ==> kept@ =~= Seq::new(scores@.len(), |i: int| i as usize));
        return kept;
    }
    if scores.len() <= n {
        while kept.len() < scores.len()
            invariant
                kept@.len() <= scores@.len(),
                forall|i: int| 0 <= i < kept@.len() ==> #[trigger] kept@[i] == i,
            decreases scores@.len() - kept@.len(),
        {
            kept.push(kept.len());
        }
        assert(kept@ =~= Seq::new(scores@.len(), |i: int| i as usize));
        return kept;
    }
    let order = rank_scores(scores);
    assert(order@[n - 1] < scores@.len());
    let pivot: i64 = scores[order[n - 1]];
    let mut k: usize = 0;
    while k < order.len() && scores[order[k]] >= pivot
        invariant
            is_ranking(scores@, scores@.len() as int, order@),
            k <= order@.len(),
            kept@ == order@.take(k as int),
            forall|a: int| 0 <= a < k ==> scores@[(#[trigger] order@[a]) as int] >= pivot,
        decreases order@.len() - k,
    {
        kept.push(order[k]);
        k = k + 1;
        assert(kept@ =~= order@.take(k as int));
    }
    proof {
        assert forall|i: usize| #[trigger] kept@.contains(i) <==> i < scores@.len()
            && scores@[i as int] >= pivot by {
            if kept@.contains(i) {
                let y = kept@.index_of(i);
                assert(order@[y] == i);
            }
            if i < scores@.len() && scores@[i as int] >= pivot {
                assert(order@.contains(i));
                let z = order@.index_of(i);
                if z >= k {
                    assert(scores@[order@[k as int] as int] < pivot);
                    if z > k {
                        assert(ranks_before(scores@, order@[k as int] as int, order@[z] as int));
                    }
                }
                assert(kept@[z] == i);
            }
        }
        assert(is_best(scores@, n as int, order@, kept@));
    }
    kept
}

/// The pixel `dx` columns and `dy` rows from (`x`, `y`).
pub open spec fn near(img: &GrayImage, x: int, y: int, dx: int, dy: int) -> int {
    img.px(x + dx, y + dy) as int
}

/// Slope of the image across (`x`, `y`).
pub open spec fn slope_x(img: &GrayImage, x: int, y: int) -> int {
    2 * (near(img, x, y, 1, 0) - near(img, x, y, -1, 0)) + (near(img, x, y, 1, -1) - near(
        img,
        x,
        y,
        -1,
        -1,
    )) + (near(img, x, y, 1, 1) - near(img, x, y, -1, 1))
}

/// Slope of the image down (`x`, `y`).
pub open spec fn slope_y(img: &GrayImage, x: int, y: int) -> int {
    2 * (near(img, x, y, 0, 1) - near(img, x, y, 0, -1)) + (near(img, x, y, -1, 1) - near(
        img,
        x,
        y,
        -1,
        -1,
    )) + (near(img, x, y, 1, 1) - near(img, x, y, 1, -1))
}

/// Extent of the block whose slopes tell a corner's strength.
pub const HARRIS_BLOCK_SIZE: i64 = 7;

/// Sums over the first `k` pixels, row by row, of the block around (`x`, `y`):
/// squared slopes across and down, and their products.
pub open spec fn harris_until(img: &GrayImage, x: int, y: int, k: int) -> (int, int, int)
    decreases k,
{
    if k <= 0 {
        (0, 0, 0)
    } else {
        let (a, b, c) = harris_until(img, x, y, k - 1);
        let px = x - 3 + (k - 1) % HARRIS_BLOCK_SIZE as int;
        let py = y - 3 + (k - 1) / HARRIS_BLOCK_SIZE as int;
        let (ix, iy) = (slope_x(img, px, py), slope_y(img, px, py));
        (a + ix * ix, b + iy * iy, c + ix * iy)
    }
}

/// The byte at position `p` of the image's rows, laid end to end.
fn byte_at(img: &GrayImage, p: i128) -> (v: i64)
    requires
        0 <= p < img.data@.len(),
    ensures
        v == img.data@[p as int],
        0 <= v <= 255,
{
    assert(img.data@.len() == img.data.len());
    img.data[p as usize] as i64
}

/// A step of `dy` rows and `dx` columns is a step of `dy * w + dx` bytes.
proof fn lemma_step(w: int, x: int, y: int, dx: int, dy: int)
    ensures
        (y + dy) * w + (x + dx) == y * w + x + dy * w + dx,
{
    assert((y + dy) * w == y * w + dy * w) by (nonlinear_arith);
}

/// What lies within `r` rows and columns of a point lies, byte for byte,
/// between the far corners.
proof fn lemma_block(w: int, x: int, y: int, dx: int, dy: int, r: int)
    requires
        w >= 0,
        -r <= dx <= r,
        -r <= dy <= r,
    ensures
        (y - r) * w + (x - r) <= (y + dy) * w + (x + dx) <= (y + r) * w + (x + r),
{
    assert((y - r) * w <= (y + dy) * w <= (y + r) * w) by (nonlinear_arith)
        requires
            w >= 0,
            -r <= dy <= r,
    ;
}

/// The slopes across and down (`x`, `y`).
fn slopes(img: &GrayImage, x: i128, y: i128) -> (r: (i64, i64))
    requires
        -8 <= x <= usize::MAX + 8,
        0 <= (y - 1) * img.width + (x - 1),
        (y + 1) * img.width + (x + 1) < img.data@.len(),
    ensures
        r.0 == slope_x(img, x as int, y as int),
        r.1 == slope_y(img, x as int, y as int),
        -1020 <= r.0 <= 1020,
        -1020 <= r.1 <= 1020,
{
    let w: i128 = img.width as i128;
    proof {
        assert(img.data@.len() == img.data.len());
        assert((y - 1) * w == y * w - w && (y + 1) * w == y * w + w) by (nonlinear_arith);
        assert((y + -1) * w == (y - 1) * w);
    }
    let p: i128 = y * w + x;
    let nw: i64 = byte_at(img, p - w - 1);
    let n: i64 = byte_at(img, p - w);
    let ne: i64 = byte_at(img, p - w + 1);
    let west: i64 = byte_at(img, p - 1);
    let east: i64 = byte_at(img, p + 1);
    let sw: i64 = byte_at(img, p + w - 1);
    let s: i64 = byte_at(img, p + w);
    let se: i64 = byte_at(img, p + w + 1);
    (2 * (east - west) + (ne - nw) + (se - sw), 2 * (s - n) + (sw - nw) + (se - ne))
}

/// Sums over the block around (`x`, `y`) of the squared slopes across and
/// down, and of their products. Near the sides the block goes on in the rows
/// before and after.
pub fn harris_sums(img: &GrayImage, x: usize, y: usize) -> (r: (i64, i64, i64))
    requires
        0 <= (y - 4) * img.width + (x - 4),
        (y + 4) * img.width + (x + 4) < img.data@.len(),
    ensures
        (r.0 as int, r.1 as int, r.2 as int) == harris_until(
            img,
            x as int,
            y as int,
            HARRIS_BLOCK_SIZE * HARRIS_BLOCK_SIZE,
        ),
        0 <= r.0 <= 49 * 1020 * 1020,
        0 <= r.1 <= 49 * 1020 * 1020,
        -49 * 1020 * 1020 <= r.2 <= 49 * 1020 * 1020,
{
    let mut a: i64 = 0;
    let mut b: i64 = 0;
    let mut c: i64 = 0;
    let mut k: usize = 0;
    while k < 49
        invariant
            0 <= (y - 4) * img.width + (x - 4),
            (y + 4) * img.width + (x + 4) < img.data@.len(),
            k <= 49,
            (a as int, b as int, c as int) == harris_until(img, x as int, y as int, k as int),
            0 <= a <= k * 1040400,
            0 <= b <= k * 1040400,
            -k * 1040400 <= c <= k * 1040400,
        decreases 49 - k,
    {
        proof {
            let (dx, dy) = (k % 7 - 3, k / 7 - 3);
            lemma_block(img.width as int, x as int, y as int, dx - 1, dy - 1, 4);
            lemma_block(img.width as int, x as int, y as int, dx + 1, dy + 1, 4);
        }
        let (ix, iy) = slopes(
            img,
            x as i128 - 3 + (k % 7) as i128,
            y as i128 - 3 + (k / 7) as i128,
        );
        proof {
            assert(0 <= ix * ix <= 1040400 && 0 <= iy * iy <= 1040400 && -1040400 <= ix * iy
                <= 1040400) by (nonlinear_arith)
                requires
                    -1020 <= ix <= 1020,
                    -1020 <= iy <= 1020,
            ;
        }
        a = a + ix * ix;
        b = b + iy * iy;
        c = c + ix * iy;
        k = k + 1;
    }
    (a, b, c)
}

/// A flat block has no strength.
pub proof fn lemma_flat_block(img: &GrayImage, x: int, y: int, v: u8, k: int)
    requires
        0 <= k <= 49,
        forall|i: int, j: int|
            x - 4 <= i <= x + 4 && y - 4 <= j <= y + 4 ==> #[trigger] img.px(i, j) == v,
    ensures
        harris_until(img, x, y, k) == (0int, 0int, 0int),
    decreases k,
{
    if k > 0 {
        lemma_flat_block(img, x, y, v, k - 1);
        let px = x - 3 + (k - 1) % 7;
        let py = y - 3 + (k - 1) / 7;
        assert(slope_x(img, px, py) == 0);
        assert(slope_y(img, px, py) == 0);
    }
}

/// Moments of row `dy` below (`x`, `y`) and its mirror above, over columns
/// `-d` up to but not including `-d + k`: the sum of column offsets weighed by
/// both pixels, and the sum of their differences.
pub open spec fn row_moments(img: &GrayImage, x: int, y: int, dy: int, d: int, k: int) -> (int, int)
    decreases k,
{
    if k <= 0 {
        (0, 0)
    } else {
        let (m, s) = row_moments(img, x, y, dy, d, k - 1);
        let u = -d + k - 1;
        let (below, above) = (near(img, x, y, u, dy), near(img, x, y, u, -dy));
        (m + u * (below + above), s + (below - above))
    }
}

/// Moments of the middle row, over columns `-d` up to but not including
/// `-d + k`.
pub open spec fn middle_moment(img: &GrayImage, x: int, y: int, d: int, k: int) -> int
    decreases k,
{
    if k <= 0 {
        0
    } else {
        middle_moment(img, x, y, d, k - 1) + (-d + k - 1) * near(img, x, y, -d + k - 1, 0)
    }
}

/// Moments of the disc around (`x`, `y`) over its middle row and the first `v`
/// pairs of rows: down and across.
pub open spec fn disc_moments(
    img: &GrayImage,
    x: int,
    y: int,
    umax: Seq<i32>,
    hp: int,
    v: int,
) -> (int, int)
    decreases v,
{
    if v <= 0 {
        (0, middle_moment(img, x, y, hp, 2 * hp + 1))
    } else {
        let (m01, m10) = disc_moments(img, x, y, umax, hp, v - 1);
        let (m, s) = row_moments(img, x, y, v, umax[v] as int, 2 * umax[v] + 1);
        (m01 + v * s, m10 + m)
    }
}

/// The disc around (`x`, `y`) lies within the image's bytes: its middle row,
/// and each pair of rows above and below.
pub open spec fn disc_fits(img: &GrayImage, x: int, y: int, umax: Seq<i32>, hp: int) -> bool {
    &&& hp <= y * img.width + x
    &&& y * img.width + x + hp < img.data@.len()
    &&& forall|v: int| 1 <= v <= hp ==> #[trigger] rows_fit(img, x, y, v, umax[v] as int)
}

/// The rows `v` above and below (`x`, `y`) lie within the image's bytes, `d`
/// columns to either side.
pub open spec fn rows_fit(img: &GrayImage, x: int, y: int, v: int, d: int) -> bool {
    &&& 0 <= (y - v) * img.width + (x - d)
    &&& (y + v) * img.width + (x + d) < img.data@.len()
}

/// Moments of the disc around (`x`, `y`), down and across: they point to where
/// the patch is brightest. Near the sides the disc goes on in the rows before
/// and after.
#[verifier::spinoff_prover]
#[verifier::rlimit(40)]
pub fn ic_moments(img: &GrayImage, x: usize, y: usize, umax: &[i32], half_k: usize) -> (r: (
    i64,
    i64,
))
    requires
        half_k <= 46340,
        umax@.len() > half_k,
        disc_fits(img, x as int, y as int, umax@, half_k as int),
        forall|v: int| 0 <= v <= half_k ==> 0 <= #[trigger] umax@[v] <= half_k,
    ensures
        (r.0 as int, r.1 as int) == disc_moments(
            img,
            x as int,
            y as int,
            umax@,
            half_k as int,
            half_k as int,
        ),
{
    let w: i128 = img.width as i128;
    assert(img.data@.len() == img.data.len());
    let p: i128 = y as i128 * w + x as i128;
    let mut m01: i64 = 0;
    let mut m10: i64 = 0;
    let mut k: usize = 0;
    while k < 2 * half_k + 1
        invariant
            half_k <= 46340,
            p == y * img.width + x,
            half_k <= p,
            p + half_k < img.data@.len(),
            img.data@.len() <= usize::MAX,
            k <= 2 * half_k + 1,
            m10 == middle_moment(img, x as int, y as int, half_k as int, k as int),
            -11_816_700 * k <= m10 <= 11_816_700 * k,
        decreases 2 * half_k + 1 - k,
    {
        let u: i64 = k as i64 - half_k as i64;
        let here: i64 = byte_at(img, p + u as i128);
        assert(-11_816_700 <= u * here <= 11_816_700) by (nonlinear_arith)
            requires
                -46340 <= u <= 46340,
                0 <= here <= 255,
        ;
        m10 = m10 + u * here;
        k = k + 1;
    }
    let mut v: usize = 0;
    while v < half_k
        invariant
            half_k <= 46340,
            w == img.width,
            p == y * img.width + x,
            img.data@.len() <= usize::MAX,
            umax@.len() > half_k,
            disc_fits(img, x as int, y as int, umax@, half_k as int),
            forall|r: int| 0 <= r <= half_k ==> 0 <= #[trigger] umax@[r] <= half_k,
            v <= half_k,
            (m01 as int, m10 as int) == disc_moments(
                img,
                x as int,
                y as int,
                umax@,
                half_k as int,
                v as int,
            ),
            -2_200_000_000_000 * (v + 1) <= m10 <= 2_200_000_000_000 * (v + 1),
            -2_200_000_000_000 * v <= m01 <= 2_200_000_000_000 * v,
        decreases half_k - v,
    {
        v = v + 1;
        let d: usize = umax[v] as usize;
        proof {
            assert(rows_fit(img, x as int, y as int, v as int, d as int));
            lemma_step(w as int, x as int, y as int, d as int, v as int);
            lemma_step(w as int, x as int, y as int, -d, -v);
            assert(-v * w == -(v * w)) by (nonlinear_arith);
        }
        let up: i128 = v as i128 * w;
        let mut m: i64 = 0;
        let mut s: i64 = 0;
        let mut c: usize = 0;
        while c < 2 * d + 1
            invariant
                half_k <= 46340,
                w == img.width,
                p == y * img.width + x,
                up == v * w,
                0 <= p - up - d,
                p + up + d < img.data@.len(),
                img.data@.len() <= usize::MAX,
                1 <= v <= half_k,
                d <= half_k,
                c <= 2 * d + 1,
                (m as int, s as int) == row_moments(
                    img,
                    x as int,
                    y as int,
                    v as int,
                    d as int,
                    c as int,
                ),
                -23_633_400 * c <= m <= 23_633_400 * c,
                -255 * c <= s <= 255 * c,
            decreases 2 * d + 1 - c,
        {
            let u: i64 = c as i64 - d as i64;
            proof {
                lemma_step(w as int, x as int, y as int, u as int, v as int);
                lemma_step(w as int, x as int, y as int, u as int, -v);
                assert(-v * w == -(v * w)) by (nonlinear_arith);
                assert(0 <= v * w) by (nonlinear_arith)
                    requires
                        0 <= v,
                        0 <= w,
                ;
            }
            let below: i64 = byte_at(img, p + up + u as i128);
            let above: i64 = byte_at(img, p - up + u as i128);
            assert(-23_633_400 <= u * (below + above) <= 23_633_400) by (nonlinear_arith)
                requires
                    -46340 <= u <= 46340,
                    0 <= below + above <= 510,
            ;
            m = m + u * (below + above);
            s = s + (below - above);
            c = c + 1;
        }
        assert(-1_100_000_000_000 <= v * s <= 1_100_000_000_000) by (nonlinear_arith)
            requires
                0 <= v <= 46340,
                -23_640_000 <= s <= 23_640_000,
        ;
        m01 = m01 + v as i64 * s;
        m10 = m10 + m;
    }
    (m01, m10)
}

/// Bytes of a descriptor.
pub const DESCRIPTOR_BYTES: usize = 32;

/// The pixel that sample `k` of a pattern falls on.
pub open spec fn sampled(img: &GrayImage, x: int, y: int, offs: Seq<(i32, i32)>, k: int) -> u8 {
    img.px(x + offs[k].0, y + offs[k].1)
}

/// Bit `k` of a descriptor: whether the first of its two samples is darker.
pub open spec fn is_darker(img: &GrayImage, x: int, y: int, offs: Seq<(i32, i32)>, k: int) -> bool {
    sampled(img, x, y, offs, 2 * k) < sampled(img, x, y, offs, 2 * k + 1)
}

/// Two to the power of `bit`.
pub open spec fn weight(bit: int) -> int {
    if bit == 0 {
        1
    } else if bit == 1 {
        2
    } else if bit == 2 {
        4
    } else if bit == 3 {
        8
    } else if bit == 4 {
        16
    } else if bit == 5 {
        32
    } else if bit == 6 {
        64
    } else {
        128
    }
}

/// The first `bit` bits of byte `i` of a descriptor, as a number.
pub open spec fn byte_until(
    img: &GrayImage,
    x: int,
    y: int,
    offs: Seq<(i32, i32)>,
    i: int,
    bit: int,
) -> int
    decreases bit,
{
    if bit <= 0 {
        0
    } else {
        byte_until(img, x, y, offs, i, bit - 1) + if is_darker(
            img,
            x,
            y,
            offs,
            8 * i + bit - 1,
        ) {
            weight(bit - 1)
        } else {
            0
        }
    }
}

/// The samples around (`x`, `y`) fall within the image's bytes.
pub open spec fn samples_fit(img: &GrayImage, x: int, y: int, offs: Seq<(i32, i32)>) -> bool {
    forall|k: int|
        0 <= k < offs.len() ==> 0 <= (y + (#[trigger] offs[k]).1) * img.width + (x + offs[k].0)
            < img.data@.len()
}

/// The pixel `off` columns and rows from (`x`, `y`).
fn sample(img: &GrayImage, x: usize, y: usize, off: (i32, i32)) -> (v: i64)
    requires
        x <= i32::MAX,
        y <= i32::MAX,
        0 <= (y + off.1) * img.width + (x + off.0) < img.data@.len(),
    ensures
        v == img.px(x + off.0, y + off.1),
{
    let w: i128 = img.width as i128;
    let row: i128 = y as i128 + off.1 as i128;
    assert(img.data@.len() == img.data.len());
    assert((y + off.1) * img.width == row * w);
    byte_at(img, row * w + (x as i128 + off.0 as i128))
}

/// Compares pairs of pixels around (`x`, `y`): two samples a bit, eight bits a
/// byte, the lowest bit first. Near the sides the pattern goes on in the rows
/// before and after.
pub fn describe(img: &GrayImage, x: usize, y: usize, offs: &[(i32, i32)]) -> (d: Descriptor)
    requires
        x <= i32::MAX,
        y <= i32::MAX,
        offs@.len() == 16 * DESCRIPTOR_BYTES,
        samples_fit(img, x as int, y as int, offs@),
    ensures
        forall|i: int|
            0 <= i < DESCRIPTOR_BYTES ==> #[trigger] d@[i] == byte_until(
                img,
                x as int,
                y as int,
                offs@,
                i,
                8,
            ),
{
    let mut d: Descriptor = [0u8; 32];
    let mut i: usize = 0;
    while i < DESCRIPTOR_BYTES
        invariant
            x <= i32::MAX,
            y <= i32::MAX,
            offs@.len() == 16 * DESCRIPTOR_BYTES,
            samples_fit(img, x as int, y as int, offs@),
            i <= DESCRIPTOR_BYTES,
            forall|j: int|
                0 <= j < i ==> #[trigger] d@[j] == byte_until(
                    img,
                    x as int,
                    y as int,
                    offs@,
                    j,
                    8,
                ),
        decreases DESCRIPTOR_BYTES - i,
    {
        let mut val: u8 = 0;
        let mut w: u8 = 1;
        let mut bit: usize = 0;
        while bit < 8
            invariant
                x <= i32::MAX,
                y <= i32::MAX,
                offs@.len() == 16 * DESCRIPTOR_BYTES,
                samples_fit(img, x as int, y as int, offs@),
                i < DESCRIPTOR_BYTES,
                bit <= 8,
                val == byte_until(img, x as int, y as int, offs@, i as int, bit as int),
                bit < 8 ==> w == weight(bit as int) && val < w,
            decreases 8 - bit,
        {
            let k: usize = 2 * (8 * i + bit);
            let (a, b) = (offs[k], offs[k + 1]);
            assert(a == offs@[k as int] && b == offs@[k + 1]);
            let t0: i64 = sample(img, x, y, a);
            let t1: i64 = sample(img, x, y, b);
            if t0 < t1 {
                val = val + w;
            }
            bit = bit + 1;
            if bit < 8 {
                w = 2 * w;
            }
        }
        d[i] = val;
        i = i + 1;
    }
    d
}

/// The disc is round: up to the diagonal its half width in row `v` is the
/// square root of `hp * hp - v * v`, to the nearest pixel.
pub proof fn lemma_disc_round(hp: int, m: int, umax: Seq<i32>, v: int)
    requires
        hp >= 1,
        is_disc(hp, m, umax),
        0 <= v <= hp,
        2 * (v * v) <= hp * hp,
    ensures
        ({
            let u = umax[v] as int;
            &&& u >= 1
            &&& (2 * u - 1) * (2 * u - 1) < 4 * (hp * hp - v * v) < (2 * u + 1) * (2 * u + 1)
        }),
        umax[0] == hp,
{
    assert(v < m) by (nonlinear_arith)
        requires
            2 * (v * v) <= hp * hp,
            hp * hp < 2 * m * m,
            v >= 0,
            m >= 1,
    ;
    let k = hp * hp - v * v;
    assert(k >= 1) by (nonlinear_arith)
        requires
            k == hp * hp - v * v,
            2 * (v * v) <= hp * hp,
            hp >= 1,
    ;
    let r = lemma_root_exists(k);
    lemma_half_width(hp, v, r);
    let u = umax[v] as int;
    assert(u == r);
    assert(u >= 1) by (nonlinear_arith)
        requires
            k >= 1,
            k <= u * (u + 1),
            u >= 0,
    ;
    assert((2 * u - 1) * (2 * u - 1) < 4 * k < (2 * u + 1) * (2 * u + 1)) by (nonlinear_arith)
        requires
            u >= 1,
            u * (u - 1) < k,
            k <= u * (u + 1),
    ;
    let z = lemma_root_exists(hp * hp);
    assert(0int * 0 == 0);
    lemma_half_width(hp, 0, z);
    assert(is_nearest_root(hp * hp, hp)) by (nonlinear_arith)
        requires
            hp >= 1,
    ;
    lemma_root_order(hp * hp, hp, hp * hp, z);
}

/// Keypoints stay if they are `border` or more pixels from every edge, and
/// keep their order: those of two lists together are those of the one and
/// then those of the other.
pub proof fn lemma_inside(
    a: Seq<FastKeypoint>,
    b: Seq<FastKeypoint>,
    w: int,
    h: int,
    border: int,
    p: FastKeypoint,
)
    ensures
        inside_until(a + b, w, h, border, (a + b).len() as int) == inside_until(
            a,
            w,
            h,
            border,
            a.len() as int,
        ) + inside_until(b, w, h, border, b.len() as int),
        inside_until(seq![p], w, h, border, 1) == if p.x >= border && p.y >= border && p.x + border
            < w && p.y + border < h {
            seq![p]
        } else {
            Seq::empty()
        },
{
    reveal_with_fuel(inside_until, 2);
    assert(Seq::<FastKeypoint>::empty().push(p) =~= seq![p]);
    lemma_inside_both(a, b, w, h, border, b.len() as int);
}

proof fn lemma_inside_both(
    a: Seq<FastKeypoint>,
    b: Seq<FastKeypoint>,
    w: int,
    h: int,
    border: int,
    k: int,
)
    requires
        0 <= k <= b.len(),
    ensures
        inside_until(a + b, w, h, border, a.len() + k) == inside_until(
            a,
            w,
            h,
            border,
            a.len() as int,
        ) + inside_until(b, w, h, border, k),
    decreases k,
{
    let f = inside_until(a, w, h, border, a.len() as int);
    if k > 0 {
        lemma_inside_both(a, b, w, h, border, k - 1);
        assert((a + b)[a.len() + k - 1] == b[k - 1]);
        let g = inside_until(b, w, h, border, k - 1);
        assert((f + g).push(b[k - 1]) =~= f + g.push(b[k - 1]));
    } else {
        lemma_inside_start(a, b, w, h, border, a.len() as int);
        assert(f + Seq::<FastKeypoint>::empty() =~= f);
    }
}

proof fn lemma_inside_start(
    a: Seq<FastKeypoint>,
    b: Seq<FastKeypoint>,
    w: int,
    h: int,
    border: int,
    k: int,
)
    requires
        0 <= k <= a.len(),
    ensures
        inside_until(a + b, w, h, border, k) == inside_until(a, w, h, border, k),
    decreases k,
{
    if k > 0 {
        lemma_inside_start(a, b, w, h, border, k - 1);
        assert((a + b)[k - 1] == a[k - 1]);
    }
}

/// The best `n` are kept: whatever is left out is worse than everything that
/// is kept, of which there are `n` at least; and no `n` others are all better
/// than one that is kept.
pub proof fn lemma_best_kept(
    scores: Seq<i64>,
    n: int,
    order: Seq<usize>,
    kept: Seq<usize>,
    i: usize,
    others: Seq<usize>,
)
    requires
        is_best(scores, n, order, kept),
        0 < n < scores.len() <= usize::MAX,
        i < scores.len(),
        others.no_duplicates(),
        others.len() == n,
        forall|k: int| 0 <= k < others.len() ==> #[trigger] others[k] < scores.len(),
    ensures
        kept.len() >= n,
        !kept.contains(i) ==> forall|k: int|
            0 <= k < kept.len() ==> scores[#[trigger] kept[k] as int] > scores[i as int],
        kept.contains(i) ==> exists|k: int|
            0 <= k < others.len() && scores[#[trigger] others[k] as int] <= scores[i as int],
        forall|a: int, b: int|
            0 <= a < b < kept.len() ==> scores[#[trigger] kept[a] as int] >= scores[#[trigger] kept[b] as int],
{
    let best = order.take(n);
    let pivot = scores[order[n - 1] as int];
    assert forall|a: int| 0 <= a < n implies kept.contains(#[trigger] order[a]) by {
        if a < n - 1 {
            assert(ranks_before(scores, order[a] as int, order[n - 1] as int));
        }
    }
    assert(best.no_duplicates()) by {
        assert forall|a: int, b: int| 0 <= a < best.len() && 0 <= b < best.len() && a != b implies best[a]
            != best[b] by {
            if a < b {
                assert(ranks_before(scores, order[a] as int, order[b] as int));
            } else {
                assert(ranks_before(scores, order[b] as int, order[a] as int));
            }
        }
    }
    best.unique_seq_to_set();
    assert(best.to_set().subset_of(kept.to_set())) by {
        assert forall|x: usize| best.to_set().contains(x) implies #[trigger] kept.to_set().contains(
            x,
        ) by {
            let a = best.index_of(x);
            assert(kept.contains(order[a]));
        }
    }
    kept.lemma_cardinality_of_set();
    vstd::set_lib::lemma_len_subset(best.to_set(), kept.to_set());
    if !kept.contains(i) {
        assert forall|k: int| 0 <= k < kept.len() implies scores[#[trigger] kept[k] as int]
            > scores[i as int] by {
            assert(kept.contains(kept[k]));
        }
    }
    if kept.contains(i) && (forall|k: int|
        0 <= k < others.len() ==> scores[#[trigger] others[k] as int] > scores[i as int]) {
        let few = order.take(n - 1);
        others.unique_seq_to_set();
        assert(others.to_set().subset_of(few.to_set())) by {
            assert forall|x: usize| others.to_set().contains(x) implies #[trigger] few.to_set().contains(
                x,
            ) by {
                let k = others.index_of(x);
                assert(others[k] == x);
                assert(order.contains(x));
                let z = order.index_of(x);
                if z > n - 1 {
                    assert(ranks_before(scores, order[n - 1] as int, order[z] as int));
                }
                assert(few[z] == x);
            }
        }
        few.lemma_cardinality_of_set();
        vstd::set_lib::lemma_len_subset(others.to_set(), few.to_set());
        assert(false);
    }
}

} // verus!
