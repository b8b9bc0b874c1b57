//! FAST-9/16 corners: a pixel whose surrounding ring of 16 pixels has an arc
//! of nine that are all darker or all brighter than the pixel by more than a
//! threshold, thinned to local maxima of the score.

use crate::imgproc::lemma_index;
use crate::imgproc::GrayImage;
use vstd::prelude::*;

verus! {

/// Pixels on the ring.
pub const PATTERN_SIZE: usize = 16;

/// Offset (dx, dy) of ring position `k`.
pub open spec fn ring(k: int) -> (int, int) {
    if k == 0 {
        (0, 3)
    } else if k == 1 {
        (1, 3)
    } else if k == 2 {
        (2, 2)
    } else if k == 3 {
        (3, 1)
    } else if k == 4 {
        (3, 0)
    } else if k == 5 {
        (3, -1)
    } else if k == 6 {
        (2, -2)
    } else if k == 7 {
        (1, -3)
    } else if k == 8 {
        (0, -3)
    } else if k == 9 {
        (-1, -3)
    } else if k == 10 {
        (-2, -2)
    } else if k == 11 {
        (-3, -1)
    } else if k == 12 {
        (-3, 0)
    } else if k == 13 {
        (-3, 1)
    } else if k == 14 {
        (-2, 2)
    } else {
        (-1, 3)
    }
}

fn ring_offset(k: usize) -> (r: (i32, i32))
    requires
        k < 16,
    ensures
        r.0 == ring(k as int).0,
        r.1 == ring(k as int).1,
{
    match k {
        0 => (0, 3),
        1 => (1, 3),
        2 => (2, 2),
        3 => (3, 1),
        4 => (3, 0),
        5 => (3, -1),
        6 => (2, -2),
        7 => (1, -3),
        8 => (0, -3),
        9 => (-1, -3),
        10 => (-2, -2),
        11 => (-3, -1),
        12 => (-3, 0),
        13 => (-3, 1),
        14 => (-2, 2),
        _ => (-1, 3),
    }
}

/// A detected corner and its score.
#[derive(Debug, Clone, Copy, PartialEq, Eq, Structural)]
pub struct FastKeypoint {
    pub x: usize,
    pub y: usize,
    pub response: u8,
}

/// Buffer offset of ring position `k`, counted round the ring, in an image of
/// the given row stride.
pub open spec fn ring_step(k: int, stride: int) -> int {
    ring(k % 16).0 + ring(k % 16).1 * stride
}

/// Widest image whose ring offsets can be counted.
pub const MAX_STRIDE: i32 = 715_827_882;

/// Buffer offsets of the ring, the first nine repeated at the end.
pub fn make_offsets(row_stride: i32) -> (pixel: [i32; 25])
    requires
        -MAX_STRIDE <= row_stride <= MAX_STRIDE,
    ensures
        forall|k: int| 0 <= k < 25 ==> #[trigger] pixel@[k] == ring_step(k, row_stride as int),
{
    let mut pixel: [i32; 25] = [0i32; 25];
    let mut k: usize = 0;
    while k < 25
        invariant
            k <= 25,
            -MAX_STRIDE <= row_stride <= MAX_STRIDE,
            forall|q: int| 0 <= q < k ==> #[trigger] pixel@[q] == ring_step(q, row_stride as int),
        decreases 25 - k,
    {
        let (dx, dy): (i32, i32) = ring_offset(k % 16);
        proof {
            assert(-MAX_STRIDE * 3 <= dy * row_stride <= MAX_STRIDE * 3) by (nonlinear_arith)
                requires
                    -3 <= dy <= 3,
                    -MAX_STRIDE <= row_stride <= MAX_STRIDE,
            ;
        }
        pixel[k] = dx + dy * row_stride;
        k = k + 1;
    }
    pixel
}

/// How much brighter the centre is than ring position `k`.
pub open spec fn contrast(data: Seq<u8>, center: int, stride: int, k: int) -> int {
    data[center] - data[center + ring_step(k, stride)]
}

/// The nine ring positions from `s` on are darker by more than `t`.
pub open spec fn dark_arc(data: Seq<u8>, center: int, stride: int, s: int, t: int) -> bool {
    forall|q: int| s <= q < s + 9 ==> #[trigger] contrast(data, center, stride, q) > t
}

/// The nine ring positions from `s` on are brighter by more than `t`.
pub open spec fn bright_arc(data: Seq<u8>, center: int, stride: int, s: int, t: int) -> bool {
    forall|q: int| s <= q < s + 9 ==> #[trigger] contrast(data, center, stride, q) < -t
}

/// The nine ring positions from `s` on are all darker or all brighter.
pub open spec fn corner_arc(data: Seq<u8>, center: int, stride: int, s: int, t: int) -> bool {
    dark_arc(data, center, stride, s, t) || bright_arc(data, center, stride, s, t)
}

/// The pixel is a corner at threshold `t`.
pub open spec fn is_corner(data: Seq<u8>, center: int, stride: int, t: int) -> bool {
    exists|s: int| 0 <= s < 16 && #[trigger] corner_arc(data, center, stride, s, t)
}

/// `score` is the largest threshold at which the pixel is still a corner, and
/// 0 if it is none.
pub open spec fn is_score(data: Seq<u8>, center: int, stride: int, score: int) -> bool {
    &&& 0 <= score <= 255
    &&& is_corner(data, center, stride, 0) ==> forall|t: int|
        0 <= t ==> (#[trigger] is_corner(data, center, stride, t) <==> t <= score)
    &&& !is_corner(data, center, stride, 0) ==> score == 0
}

/// A pixel has one score.
pub proof fn lemma_score_unique(data: Seq<u8>, center: int, stride: int, a: int, b: int)
    requires
        is_score(data, center, stride, a),
        is_score(data, center, stride, b),
    ensures
        a == b,
{
    if is_corner(data, center, stride, 0) {
        assert(is_corner(data, center, stride, a) <==> a <= b);
        assert(is_corner(data, center, stride, b) <==> b <= a);
        assert(is_corner(data, center, stride, a) <==> a <= a);
        assert(is_corner(data, center, stride, b) <==> b <= b);
    }
}

/// A corner at some threshold is one at every smaller threshold.
pub proof fn lemma_corner_monotone(data: Seq<u8>, center: int, stride: int, t: int, u: int)
    requires
        is_corner(data, center, stride, t),
        u <= t,
    ensures
        is_corner(data, center, stride, u),
{
    let s = choose|s: int| 0 <= s < 16 && #[trigger] corner_arc(data, center, stride, s, t);
    assert(corner_arc(data, center, stride, s, u));
}

/// The ring stays inside the buffer.
pub open spec fn ring_inside(data: Seq<u8>, center: int, stride: int) -> bool {
    &&& 0 <= center < data.len()
    &&& forall|k: int| 0 <= k < 25 ==> 0 <= center + #[trigger] ring_step(k, stride) < data.len()
}

/// Every value from `s` on, nine of them, is at least `b`.
spec fn all_ge(d: Seq<i32>, s: int, b: int) -> bool {
    forall|q: int| s <= q < s + 9 ==> #[trigger] d[q] >= b
}

spec fn some_le(d: Seq<i32>, s: int, b: int) -> bool {
    exists|q: int| s <= q < s + 9 && #[trigger] d[q] <= b
}

spec fn all_le(d: Seq<i32>, s: int, b: int) -> bool {
    forall|q: int| s <= q < s + 9 ==> #[trigger] d[q] <= b
}

spec fn some_ge(d: Seq<i32>, s: int, b: int) -> bool {
    exists|q: int| s <= q < s + 9 && #[trigger] d[q] >= b
}

/// The largest threshold at which the pixel is still a corner.
#[verifier::spinoff_prover]
#[verifier::rlimit(40)]
fn corner_score(data: &[u8], center: usize, pixel: &[i32; 25], Ghost(stride): Ghost<int>) -> (score:
    u8)
    requires
        ring_inside(data@, center as int, stride),
        data@.len() <= isize::MAX,
        forall|k: int| 0 <= k < 25 ==> #[trigger] pixel@[k] == ring_step(k, stride),
    ensures
        is_score(data@, center as int, stride, score as int),
{
    let v: i32 = data[center] as i32;
    let mut d: [i32; 25] = [0i32; 25];
    let mut k: usize = 0;
    while k < 25
        invariant
            k <= 25,
            ring_inside(data@, center as int, stride),
            data@.len() <= isize::MAX,
            forall|q: int| 0 <= q < 25 ==> #[trigger] pixel@[q] == ring_step(q, stride),
            v == data@[center as int],
            forall|q: int|
                0 <= q < k ==> #[trigger] d@[q] == contrast(data@, center as int, stride, q),
        decreases 25 - k,
    {
        assert(pixel@[k as int] == ring_step(k as int, stride));
        let at: usize = (center as isize + pixel[k] as isize) as usize;
        d[k] = v - data[at] as i32;
        k = k + 1;
    }
    assert forall|q: int| 0 <= q < 25 implies -255 <= #[trigger] d@[q] <= 255 by {
        assert(d@[q] == contrast(data@, center as int, stride, q));
    }
    let mut q0: i32 = -1000;
    let mut q1: i32 = 1000;
    k = 0;
    while k < 16
        invariant
            k <= 16,
            forall|q: int| 0 <= q < 25 ==> -255 <= #[trigger] d@[q] <= 255,
            k == 0 ==> q0 == -1000 && q1 == 1000,
            k > 0 ==> -255 <= q0 <= 255 && -255 <= q1 <= 255,
            k > 0 ==> exists|s: int| 0 <= s <= k && #[trigger] all_ge(d@, s, q0 as int),
            k > 0 ==> exists|s: int| 0 <= s <= k && #[trigger] all_le(d@, s, q1 as int),
            k > 0 ==> forall|s: int| 0 <= s <= k ==> #[trigger] some_le(d@, s, q0 as int),
            k > 0 ==> forall|s: int| 0 <= s <= k ==> #[trigger] some_ge(d@, s, q1 as int),
        decreases 16 - k,
    {
        let mut a: i32 = d[k + 1];
        let mut b: i32 = d[k + 1];
        let mut t: usize = 2;
        let ghost mut ia: int = k + 1;
        let ghost mut ib: int = k + 1;
        while t <= 8
            invariant
                k < 16,
                2 <= t <= 9,
                forall|q: int| 0 <= q < 25 ==> -255 <= #[trigger] d@[q] <= 255,
                k + 1 <= ia < k + t,
                k + 1 <= ib < k + t,
                d@[ia] == a,
                d@[ib] == b,
                forall|q: int| k + 1 <= q < k + t ==> a <= #[trigger] d@[q] <= b,
            decreases 9 - t,
        {
            if d[k + t] < a {
                a = d[k + t];
                proof {
                    ia = k + t;
                }
            }
            if d[k + t] > b {
                b = d[k + t];
                proof {
                    ib = k + t;
                }
            }
            t = t + 1;
        }
        let ghost p0 = q0;
        let ghost p1 = q1;
        let lo0: i32 = if a < d[k] { a } else { d[k] };
        let lo1: i32 = if a < d[k + 9] { a } else { d[k + 9] };
        let hi0: i32 = if b > d[k] { b } else { d[k] };
        let hi1: i32 = if b > d[k + 9] { b } else { d[k + 9] };
        if lo0 > q0 {
            q0 = lo0;
        }
        if lo1 > q0 {
            q0 = lo1;
        }
        if hi0 < q1 {
            q1 = hi0;
        }
        if hi1 < q1 {
            q1 = hi1;
        }
        proof {
            let ki = k as int;
            assert(all_ge(d@, ki, lo0 as int));
            assert(all_ge(d@, ki + 1, lo1 as int));
            assert(all_le(d@, ki, hi0 as int));
            assert(all_le(d@, ki + 1, hi1 as int));
            assert(some_le(d@, ki, lo0 as int)) by {
                assert(d@[ia] <= lo0 || d@[ki] <= lo0);
            }
            assert(some_le(d@, ki + 1, lo1 as int)) by {
                assert(d@[ia] <= lo1 || d@[ki + 9] <= lo1);
            }
            assert(some_ge(d@, ki, hi0 as int)) by {
                assert(d@[ib] >= hi0 || d@[ki] >= hi0);
            }
            assert(some_ge(d@, ki + 1, hi1 as int)) by {
                assert(d@[ib] >= hi1 || d@[ki + 9] >= hi1);
            }
            assert forall|s: int| 0 <= s <= k + 1 implies #[trigger] some_le(d@, s, q0 as int) by {
                if s < ki && k > 0 {
                    assert(some_le(d@, s, p0 as int));
                    let w = choose|q: int| s <= q < s + 9 && #[trigger] d@[q] <= p0;
                    assert(d@[w] <= q0);
                } else if s == ki {
                    let w = choose|q: int| s <= q < s + 9 && #[trigger] d@[q] <= lo0;
                    assert(d@[w] <= q0);
                } else {
                    let w = choose|q: int| s <= q < s + 9 && #[trigger] d@[q] <= lo1;
                    assert(d@[w] <= q0);
                }
            }
            assert forall|s: int| 0 <= s <= k + 1 implies #[trigger] some_ge(d@, s, q1 as int) by {
                if s < ki && k > 0 {
                    assert(some_ge(d@, s, p1 as int));
                    let w = choose|q: int| s <= q < s + 9 && #[trigger] d@[q] >= p1;
                    assert(d@[w] >= q1);
                } else if s == ki {
                    let w = choose|q: int| s <= q < s + 9 && #[trigger] d@[q] >= hi0;
                    assert(d@[w] >= q1);
                } else {
                    let w = choose|q: int| s <= q < s + 9 && #[trigger] d@[q] >= hi1;
                    assert(d@[w] >= q1);
                }
            }
            assert(exists|s: int| 0 <= s <= k + 1 && #[trigger] all_ge(d@, s, q0 as int)) by {
                if q0 == lo0 {
                    assert(all_ge(d@, ki, q0 as int));
                } else if q0 == lo1 {
                    assert(all_ge(d@, ki + 1, q0 as int));
                } else {
                    let s = choose|s: int| 0 <= s <= k && #[trigger] all_ge(d@, s, p0 as int);
                    assert(all_ge(d@, s, q0 as int));
                }
            }
            assert(exists|s: int| 0 <= s <= k + 1 && #[trigger] all_le(d@, s, q1 as int)) by {
                if q1 == hi0 {
                    assert(all_le(d@, ki, q1 as int));
                } else if q1 == hi1 {
                    assert(all_le(d@, ki + 1, q1 as int));
                } else {
                    let s = choose|s: int| 0 <= s <= k && #[trigger] all_le(d@, s, p1 as int);
                    assert(all_le(d@, s, q1 as int));
                }
            }
        }
        k = k + 1;
    }
    let best: i32 = if q0 > -q1 { q0 } else { -q1 };
    let score: u8 = if best < 1 { 0 } else { (best - 1) as u8 };
    proof {
        let c = center as int;
        assert forall|t: int| #![trigger is_corner(data@, c, stride, t)]
            is_corner(data@, c, stride, t) <==> t < best by {
            if is_corner(data@, c, stride, t) {
                let s = choose|s: int| 0 <= s < 16 && #[trigger] corner_arc(data@, c, stride, s, t);
                assert(some_le(d@, s, q0 as int));
                assert(some_ge(d@, s, q1 as int));
                let w0 = choose|q: int| s <= q < s + 9 && #[trigger] d@[q] <= q0;
                let w1 = choose|q: int| s <= q < s + 9 && #[trigger] d@[q] >= q1;
                assert(d@[w0] == contrast(data@, c, stride, w0));
                assert(d@[w1] == contrast(data@, c, stride, w1));
            }
            if t < q0 {
                let s = choose|s: int| 0 <= s <= 16 && #[trigger] all_ge(d@, s, q0 as int);
                lemma_dark_from(d@, data@, c, stride, s, q0 as int, t);
            }
            if t < -q1 {
                let s = choose|s: int| 0 <= s <= 16 && #[trigger] all_le(d@, s, q1 as int);
                lemma_bright_from(d@, data@, c, stride, s, q1 as int, t);
            }
        }
    }
    score
}

proof fn lemma_dark_from(
    d: Seq<i32>,
    data: Seq<u8>,
    center: int,
    stride: int,
    s: int,
    b: int,
    t: int,
)
    requires
        d.len() == 25,
        forall|q: int| 0 <= q < 25 ==> #[trigger] d[q] == contrast(data, center, stride, q),
        0 <= s <= 16,
        all_ge(d, s, b),
        t < b,
    ensures
        is_corner(data, center, stride, t),
{
    let z = s % 16;
    assert forall|q: int| z <= q < z + 9 implies #[trigger] contrast(data, center, stride, q) > t by {
        let r = q + (s - z);
        assert(r % 16 == q % 16);
        assert(d[r] == contrast(data, center, stride, r));
    }
    assert(corner_arc(data, center, stride, z, t));
}

proof fn lemma_bright_from(
    d: Seq<i32>,
    data: Seq<u8>,
    center: int,
    stride: int,
    s: int,
    b: int,
    t: int,
)
    requires
        d.len() == 25,
        forall|q: int| 0 <= q < 25 ==> #[trigger] d[q] == contrast(data, center, stride, q),
        0 <= s <= 16,
        all_le(d, s, b),
        b < -t,
    ensures
        is_corner(data, center, stride, t),
{
    let z = s % 16;
    assert forall|q: int| z <= q < z + 9 implies #[trigger] contrast(data, center, stride, q) < -t by {
        let r = q + (s - z);
        assert(r % 16 == q % 16);
        assert(d[r] == contrast(data, center, stride, r));
    }
    assert(corner_arc(data, center, stride, z, t));
}

/// Whether nine ring positions in a row pass: darker than the centre by more
/// than `t` if `dark`, else brighter by more than `t`.
#[verifier::spinoff_prover]
fn has_arc(
    data: &[u8],
    center: usize,
    pixel: &[i32; 25],
    t: i32,
    dark: bool,
    Ghost(stride): Ghost<int>,
) -> (r: bool)
    requires
        ring_inside(data@, center as int, stride),
        data@.len() <= isize::MAX,
        forall|k: int| 0 <= k < 25 ==> #[trigger] pixel@[k] == ring_step(k, stride),
        0 <= t <= 255,
    ensures
        r == exists|s: int| 0 <= s < 16 && #[trigger] arc(data@, center as int, stride, s, t as int, dark),
{
    let v: i32 = data[center] as i32;
    let mut count: usize = 0;
    let mut k: usize = 0;
    while k < 25
        invariant
            k <= 25,
            ring_inside(data@, center as int, stride),
            data@.len() <= isize::MAX,
            forall|q: int| 0 <= q < 25 ==> #[trigger] pixel@[q] == ring_step(q, stride),
            v == data@[center as int],
            0 <= t <= 255,
            count <= 8,
            count <= k,
            forall|q: int|
                k - count <= q < k ==> #[trigger] passes(data@, center as int, stride, q, t as int, dark),
            forall|s: int|
                0 <= s && s + 9 <= k ==> !#[trigger] arc(data@, center as int, stride, s, t as int, dark),
            count < k ==> !passes(data@, center as int, stride, k - count - 1, t as int, dark),
        decreases 25 - k,
    {
        assert(pixel@[k as int] == ring_step(k as int, stride));
        let at: usize = (center as isize + pixel[k] as isize) as usize;
        let x: i32 = data[at] as i32;
        let ghost k0 = k as int;
        let ghost c0 = count as int;
        let pass: bool = if dark { x < v - t } else { x > v + t };
        assert(pass == passes(data@, center as int, stride, k0, t as int, dark));
        if pass {
            count = count + 1;
            if count > 8 {
                proof {
                    let s = k0 - 8;
                    let z = s % 16;
                    assert(arc(data@, center as int, stride, z, t as int, dark)) by {
                        assert forall|q: int| z <= q < z + 9 implies #[trigger] passes(
                            data@,
                            center as int,
                            stride,
                            q,
                            t as int,
                            dark,
                        ) by {
                            let r = q + (s - z);
                            assert(r % 16 == q % 16);
                            assert(passes(data@, center as int, stride, r, t as int, dark));
                        }
                    }
                }
                return true;
            }
        } else {
            count = 0;
        }
        k = k + 1;
        proof {
            assert forall|s: int| 0 <= s && s + 9 <= k implies !#[trigger] arc(
                data@,
                center as int,
                stride,
                s,
                t as int,
                dark,
            ) by {
                if s + 9 == k {
                    assert(!passes(data@, center as int, stride, k - count - 1, t as int, dark));
                }
            }
        }
    }
    false
}

/// Ring position `q` is darker, or brighter, than the centre by more than `t`.
spec fn passes(data: Seq<u8>, center: int, stride: int, q: int, t: int, dark: bool) -> bool {
    if dark {
        contrast(data, center, stride, q) > t
    } else {
        contrast(data, center, stride, q) < -t
    }
}

spec fn arc(data: Seq<u8>, center: int, stride: int, s: int, t: int, dark: bool) -> bool {
    forall|q: int| s <= q < s + 9 ==> #[trigger] passes(data, center, stride, q, t, dark)
}

/// Of two opposite ring positions, one lies on any arc of nine.
proof fn lemma_opposite(data: Seq<u8>, center: int, stride: int, t: int, dark: bool, s: int, k: int)
    requires
        0 <= s < 16,
        0 <= k < 8,
        arc(data, center, stride, s, t, dark),
    ensures
        passes(data, center, stride, k, t, dark) || passes(data, center, stride, k + 8, t, dark),
{
    // The nine positions from s on hold one congruent to k modulo 8.
    let r = s + (k - s) % 8;
    assert(s <= r < s + 9);
    assert(passes(data, center, stride, r, t, dark));
    assert(r % 16 == k % 16 || r % 16 == (k + 8) % 16);
}

/// Whether the pixel is a corner at threshold `t`. Opposite ring positions
/// are tried first: a corner has one of each pair on its arc.
#[verifier::spinoff_prover]
#[verifier::rlimit(30)]
fn corner_test(data: &[u8], center: usize, pixel: &[i32; 25], t: i32, Ghost(stride): Ghost<int>) -> (r:
    bool)
    requires
        ring_inside(data@, center as int, stride),
        data@.len() <= isize::MAX,
        forall|k: int| 0 <= k < 25 ==> #[trigger] pixel@[k] == ring_step(k, stride),
        0 <= t <= 255,
    ensures
        r == is_corner(data@, center as int, stride, t as int),
{
    let v: i32 = data[center] as i32;
    let mut dark: bool = true;
    let mut bright: bool = true;
    let mut k: usize = 0;
    while k < 8 && (dark || bright)
        invariant
            k <= 8,
            ring_inside(data@, center as int, stride),
            data@.len() <= isize::MAX,
            forall|q: int| 0 <= q < 25 ==> #[trigger] pixel@[q] == ring_step(q, stride),
            v == data@[center as int],
            0 <= t <= 255,
            !dark ==> forall|s: int|
                0 <= s < 16 ==> !#[trigger] arc(data@, center as int, stride, s, t as int, true),
            !bright ==> forall|s: int|
                0 <= s < 16 ==> !#[trigger] arc(data@, center as int, stride, s, t as int, false),
        decreases 8 - k,
    {
        assert(pixel@[k as int] == ring_step(k as int, stride));
        assert(pixel@[k + 8] == ring_step(k + 8, stride));
        let a: i32 = data[(center as isize + pixel[k] as isize) as usize] as i32;
        let b: i32 = data[(center as isize + pixel[k + 8] as isize) as usize] as i32;
        let dark_here: bool = a < v - t || b < v - t;
        let bright_here: bool = a > v + t || b > v + t;
        proof {
            let c = center as int;
            assert(dark_here == (passes(data@, c, stride, k as int, t as int, true) || passes(
                data@,
                c,
                stride,
                k + 8,
                t as int,
                true,
            )));
            assert(bright_here == (passes(data@, c, stride, k as int, t as int, false) || passes(
                data@,
                c,
                stride,
                k + 8,
                t as int,
                false,
            )));
            if !dark_here {
                assert forall|s: int| 0 <= s < 16 implies !#[trigger] arc(data@, c, stride, s, t as int, true) by {
                    if arc(data@, c, stride, s, t as int, true) {
                        lemma_opposite(data@, c, stride, t as int, true, s, k as int);
                    }
                }
            }
            if !bright_here {
                assert forall|s: int| 0 <= s < 16 implies !#[trigger] arc(data@, c, stride, s, t as int, false) by {
                    if arc(data@, c, stride, s, t as int, false) {
                        lemma_opposite(data@, c, stride, t as int, false, s, k as int);
                    }
                }
            }
        }
        dark = dark && dark_here;
        bright = bright && bright_here;
        k = k + 1;
    }
    let mut found: bool = false;
    if dark {
        found = has_arc(data, center, pixel, t, true, Ghost(stride));
        proof {
            if found {
                let c = center as int;
                let s = choose|s: int| 0 <= s < 16 && #[trigger] arc(data@, c, stride, s, t as int, true);
                lemma_arc_kinds(data@, c, stride, s, t as int);
                assert(corner_arc(data@, c, stride, s, t as int));
            }
        }
    }
    if !found && bright {
        found = has_arc(data, center, pixel, t, false, Ghost(stride));
        proof {
            if found {
                let c = center as int;
                let s = choose|s: int| 0 <= s < 16 && #[trigger] arc(data@, c, stride, s, t as int, false);
                lemma_arc_kinds(data@, c, stride, s, t as int);
                assert(corner_arc(data@, c, stride, s, t as int));
            }
        }
    }
    proof {
        let c = center as int;
        if !found && is_corner(data@, c, stride, t as int) {
            let s = choose|s: int| 0 <= s < 16 && #[trigger] corner_arc(data@, c, stride, s, t as int);
            lemma_arc_kinds(data@, c, stride, s, t as int);
            assert(arc(data@, c, stride, s, t as int, true) || arc(data@, c, stride, s, t as int, false));
        }
    }
    found
}

proof fn lemma_arc_kinds(data: Seq<u8>, center: int, stride: int, s: int, t: int)
    ensures
        dark_arc(data, center, stride, s, t) == arc(data, center, stride, s, t, true),
        bright_arc(data, center, stride, s, t) == arc(data, center, stride, s, t, false),
{
    if dark_arc(data, center, stride, s, t) {
        assert forall|q: int| s <= q < s + 9 implies #[trigger] passes(data, center, stride, q, t, true) by {
            assert(contrast(data, center, stride, q) > t);
        }
    }
    if arc(data, center, stride, s, t, true) {
        assert forall|q: int| s <= q < s + 9 implies #[trigger] contrast(data, center, stride, q) > t by {
            assert(passes(data, center, stride, q, t, true));
        }
    }
    if bright_arc(data, center, stride, s, t) {
        assert forall|q: int| s <= q < s + 9 implies #[trigger] passes(data, center, stride, q, t, false) by {
            assert(contrast(data, center, stride, q) < -t);
        }
    }
    if arc(data, center, stride, s, t, false) {
        assert forall|q: int| s <= q < s + 9 implies #[trigger] contrast(data, center, stride, q) < -t by {
            assert(passes(data, center, stride, q, t, false));
        }
    }
}

/// The one score of a pixel.
pub open spec fn score_of(data: Seq<u8>, center: int, stride: int) -> int {
    choose|score: int| is_score(data, center, stride, score)
}

/// The pixels that have a whole ring around them, and more.
pub open spec fn has_ring(img: &GrayImage, x: int, y: int) -> bool {
    3 <= x < img.width - 3 && 3 <= y < img.height - 3
}

pub open spec fn corner_at(img: &GrayImage, t: int, x: int, y: int) -> bool {
    has_ring(img, x, y) && is_corner(img.data@, y * img.width + x, img.width as int, t)
}

/// Score by which a pixel competes with its neighbours: 0 for all but corners.
pub open spec fn score_at(img: &GrayImage, t: int, x: int, y: int) -> int {
    if corner_at(img, t, x, y) {
        score_of(img.data@, y * img.width + x, img.width as int)
    } else {
        0
    }
}

/// A corner that scores higher than each of its eight neighbours.
pub open spec fn is_keypoint(img: &GrayImage, t: int, x: int, y: int) -> bool {
    &&& corner_at(img, t, x, y)
    &&& score_at(img, t, x, y) > score_at(img, t, x - 1, y)
    &&& score_at(img, t, x, y) > score_at(img, t, x + 1, y)
    &&& score_at(img, t, x, y) > score_at(img, t, x - 1, y - 1)
    &&& score_at(img, t, x, y) > score_at(img, t, x, y - 1)
    &&& score_at(img, t, x, y) > score_at(img, t, x + 1, y - 1)
    &&& score_at(img, t, x, y) > score_at(img, t, x - 1, y + 1)
    &&& score_at(img, t, x, y) > score_at(img, t, x, y + 1)
    &&& score_at(img, t, x, y) > score_at(img, t, x + 1, y + 1)
}

/// No two keypoints touch, not even at a corner.
pub proof fn lemma_keypoints_apart(img: &GrayImage, t: int, x1: int, y1: int, x2: int, y2: int)
    requires
        is_keypoint(img, t, x1, y1),
        is_keypoint(img, t, x2, y2),
        -1 <= x1 - x2 <= 1,
        -1 <= y1 - y2 <= 1,
    ensures
        x1 == x2 && y1 == y2,
{
}

/// A flat ring has no corner: where all pixels read are equal, no threshold
/// finds one.
pub proof fn lemma_flat_no_corner(data: Seq<u8>, center: int, stride: int, t: int)
    requires
        0 <= t,
        forall|k: int| #[trigger] contrast(data, center, stride, k) == 0,
    ensures
        !is_corner(data, center, stride, t),
{
    if is_corner(data, center, stride, t) {
        let s = choose|s: int| 0 <= s < 16 && #[trigger] corner_arc(data, center, stride, s, t);
        assert(contrast(data, center, stride, s) == 0);
    }
}

pub open spec fn before(a: FastKeypoint, b: FastKeypoint) -> bool {
    a.y < b.y || (a.y == b.y && a.x < b.x)
}

proof fn lemma_ring_inside(img: &GrayImage, x: int, y: int)
    requires
        img.wf(),
        has_ring(img, x, y),
    ensures
        ring_inside(img.data@, y * img.width + x, img.width as int),
{
    let w = img.width as int;
    let h = img.height as int;
    let c = y * w + x;
    lemma_index(x, y, w, h);
    assert forall|k: int| 0 <= k < 25 implies 0 <= c + #[trigger] ring_step(k, w) < img.data@.len() by {
        let (dx, dy) = ring(k % 16);
        assert(-3 <= dx <= 3 && -3 <= dy <= 3);
        lemma_index(x + dx, y + dy, w, h);
        assert((y + dy) * w == y * w + dy * w) by (nonlinear_arith);
    }
}

/// Scores of row `y`, and the columns of its corners in order.
#[verifier::spinoff_prover]
fn score_row(img: &GrayImage, y: usize, t: i32, pixel: &[i32; 25]) -> (r: (Vec<u8>, Vec<usize>))
    requires
        img.wf(),
        img.width >= 7,
        img.height >= 7,
        img.data@.len() <= isize::MAX,
        3 <= y < img.height - 2,
        0 <= t <= 255,
        forall|k: int| 0 <= k < 25 ==> #[trigger] pixel@[k] == ring_step(k, img.width as int),
    ensures
        r.0@.len() == img.width,
        forall|x: int|
            0 <= x < img.width ==> #[trigger] r.0@[x] == score_at(img, t as int, x, y as int),
        forall|i: int, j: int| 0 <= i < j < r.1@.len() ==> r.1@[i] < r.1@[j],
        forall|i: int|
            0 <= i < r.1@.len() ==> corner_at(img, t as int, #[trigger] r.1@[i] as int, y as int),
        forall|x: int|
            #![trigger corner_at(img, t as int, x, y as int)]
            corner_at(img, t as int, x, y as int) ==> r.1@.contains(x as usize),
{
    let w: usize = img.width;
    let mut scores: Vec<u8> = Vec::new();
    let mut corners: Vec<usize> = Vec::new();
    let mut x: usize = 0;
    while x < w
        invariant
            img.wf(),
            img.width >= 7,
            img.height >= 7,
            img.data@.len() <= isize::MAX,
            3 <= y < img.height - 2,
            0 <= t <= 255,
            w == img.width,
            forall|k: int| 0 <= k < 25 ==> #[trigger] pixel@[k] == ring_step(k, img.width as int),
            x <= w,
            scores@.len() == x,
            forall|q: int|
                0 <= q < x ==> #[trigger] scores@[q] == score_at(img, t as int, q, y as int),
            forall|i: int, j: int| 0 <= i < j < corners@.len() ==> corners@[i] < corners@[j],
            forall|i: int|
                0 <= i < corners@.len() ==> corner_at(
                    img,
                    t as int,
                    #[trigger] corners@[i] as int,
                    y as int,
                ) && corners@[i] < x,
            forall|q: int|
                #![trigger corner_at(img, t as int, q, y as int)]
                q < x && corner_at(img, t as int, q, y as int) ==> corners@.contains(q as usize),
        decreases w - x,
    {
        let ghost old_c = corners@;
        let mut score: u8 = 0;
        if y < img.height - 3 && x >= 3 && x < w - 3 {
            proof {
                lemma_index(x as int, y as int, w as int, img.height as int);
                lemma_ring_inside(img, x as int, y as int);
                assert(img.data@.len() == img.data.len());
            }
            let center: usize = y * w + x;
            if corner_test(img.data.as_slice(), center, pixel, t, Ghost(w as int)) {
                score = corner_score(img.data.as_slice(), center, pixel, Ghost(w as int));
                corners.push(x);
                proof {
                    lemma_score_unique(
                        img.data@,
                        center as int,
                        w as int,
                        score as int,
                        score_of(img.data@, center as int, w as int),
                    );
                }
            }
        }
        scores.push(score);
        proof {
            assert forall|q: int|
                #![trigger corner_at(img, t as int, q, y as int)]
                q < x + 1 && corner_at(img, t as int, q, y as int) implies corners@.contains(q as usize) by {
                if q < x {
                    assert(old_c.contains(q as usize));
                    let i = old_c.index_of(q as usize);
                    assert(corners@[i] == q);
                } else {
                    assert(corners@[corners@.len() - 1] == q);
                }
            }
        }
        x = x + 1;
    }
    (scores, corners)
}

/// The threshold that counts: cut to what a byte holds.
pub open spec fn effective(threshold: i32) -> int {
    if threshold < 0 {
        0
    } else if threshold > 255 {
        255
    } else {
        threshold as int
    }
}

/// One of the keypoints lies at (`x`, `y`).
pub open spec fn has_keypoint(kps: Seq<FastKeypoint>, x: int, y: int) -> bool {
    exists|i: int| 0 <= i < kps.len() && (#[trigger] kps[i]).x == x && kps[i].y == y
}

/// The keypoints of an image in reading order.
#[verifier::spinoff_prover]
#[verifier::rlimit(40)]
pub fn fast16(img: &GrayImage, threshold: i32) -> (kps: Vec<FastKeypoint>)
    requires
        img.wf(),
        img.width <= MAX_STRIDE,
        img.data@.len() <= isize::MAX,
    ensures
        forall|i: int, j: int| 0 <= i < j < kps@.len() ==> before(kps@[i], kps@[j]),
        forall|i: int|
            0 <= i < kps@.len() ==> {
                &&& is_keypoint(
                    img,
                    effective(threshold),
                    (#[trigger] kps@[i]).x as int,
                    kps@[i].y as int,
                )
                &&& kps@[i].response == score_at(
                    img,
                    effective(threshold),
                    kps@[i].x as int,
                    kps@[i].y as int,
                )
            },
        forall|x: int, y: int|
            #![trigger is_keypoint(img, effective(threshold), x, y)]
            #![trigger has_keypoint(kps@, x, y)]
            is_keypoint(img, effective(threshold), x, y) ==> has_keypoint(kps@, x, y),
{
    let t: i32 = if threshold < 0 {
        0
    } else if threshold > 255 {
        255
    } else {
        threshold
    };
    let (cols, rows): (usize, usize) = (img.width, img.height);
    let mut kps: Vec<FastKeypoint> = Vec::new();
    if rows < 7 || cols < 7 {
        return kps;
    }
    let pixel: [i32; 25] = make_offsets(cols as i32);
    let mut above: Vec<u8> = vec![0u8; cols];
    let first: (Vec<u8>, Vec<usize>) = score_row(img, 3, t, &pixel);
    let mut here: Vec<u8> = first.0;
    let mut corners: Vec<usize> = first.1;
    let mut y: usize = 3;
    while y < rows - 3
        invariant
            img.wf(),
            img.data@.len() <= isize::MAX,
            cols == img.width,
            rows == img.height,
            rows >= 7,
            cols >= 7,
            0 <= t <= 255,
            forall|k: int| 0 <= k < 25 ==> #[trigger] pixel@[k] == ring_step(k, img.width as int),
            3 <= y <= rows - 3,
            above@.len() == cols,
            here@.len() == cols,
            forall|x: int| 0 <= x < cols ==> #[trigger] above@[x] == score_at(img, t as int, x, y - 1),
            forall|x: int| 0 <= x < cols ==> #[trigger] here@[x] == score_at(img, t as int, x, y as int),
            forall|i: int, j: int| 0 <= i < j < corners@.len() ==> corners@[i] < corners@[j],
            forall|i: int|
                0 <= i < corners@.len() ==> corner_at(
                    img,
                    t as int,
                    #[trigger] corners@[i] as int,
                    y as int,
                ),
            forall|x: int|
                #![trigger corner_at(img, t as int, x, y as int)]
                corner_at(img, t as int, x, y as int) ==> corners@.contains(x as usize),
            forall|i: int, j: int| 0 <= i < j < kps@.len() ==> before(kps@[i], kps@[j]),
            forall|i: int|
                0 <= i < kps@.len() ==> (#[trigger] kps@[i]).y < y && is_keypoint(
                    img,
                    t as int,
                    kps@[i].x as int,
                    kps@[i].y as int,
                ) && kps@[i].response == score_at(
                    img,
                    t as int,
                    kps@[i].x as int,
                    kps@[i].y as int,
                ),
            forall|qx: int, qy: int|
                qy < y && #[trigger] is_keypoint(img, t as int, qx, qy) ==> exists|i: int|
                    0 <= i < kps@.len() && (#[trigger] kps@[i]).x == qx && kps@[i].y == qy,
        decreases rows - y,
    {
        let next: (Vec<u8>, Vec<usize>) = score_row(img, y + 1, t, &pixel);
        let below: Vec<u8> = next.0;
        let mut k: usize = 0;
        while k < corners.len()
            invariant
                img.wf(),
                cols == img.width,
                rows == img.height,
                3 <= y < rows - 3,
                above@.len() == cols,
                here@.len() == cols,
                below@.len() == cols,
                k <= corners@.len(),
                forall|x: int|
                    0 <= x < cols ==> #[trigger] above@[x] == score_at(img, t as int, x, y - 1),
                forall|x: int|
                    0 <= x < cols ==> #[trigger] here@[x] == score_at(img, t as int, x, y as int),
                forall|x: int|
                    0 <= x < cols ==> #[trigger] below@[x] == score_at(img, t as int, x, y + 1),
                forall|i: int, j: int| 0 <= i < j < corners@.len() ==> corners@[i] < corners@[j],
                forall|i: int|
                    0 <= i < corners@.len() ==> corner_at(
                        img,
                        t as int,
                        #[trigger] corners@[i] as int,
                        y as int,
                    ),
                forall|i: int, j: int| 0 <= i < j < kps@.len() ==> before(kps@[i], kps@[j]),
                forall|i: int|
                    0 <= i < kps@.len() ==> ((#[trigger] kps@[i]).y < y || (kps@[i].y == y && (k > 0
                        && kps@[i].x <= corners@[k - 1]))) && is_keypoint(
                        img,
                        t as int,
                        kps@[i].x as int,
                        kps@[i].y as int,
                    ) && kps@[i].response == score_at(
                        img,
                        t as int,
                        kps@[i].x as int,
                        kps@[i].y as int,
                    ),
                forall|qx: int, qy: int|
                    qy < y && #[trigger] is_keypoint(img, t as int, qx, qy) ==> exists|i: int|
                        0 <= i < kps@.len() && (#[trigger] kps@[i]).x == qx && kps@[i].y == qy,
                forall|q: int|
                    0 <= q < k && is_keypoint(
                        img,
                        t as int,
                        #[trigger] corners@[q] as int,
                        y as int,
                    ) ==> exists|i: int|
                        0 <= i < kps@.len() && (#[trigger] kps@[i]).x == corners@[q] && kps@[i].y
                            == y,
            decreases corners@.len() - k,
        {
            let j: usize = corners[k];
            let ghost old_k = kps@;
            assert(corner_at(img, t as int, corners@[k as int] as int, y as int));
            let score: u8 = here[j];
            if score > here[j + 1] && score > here[j - 1] && score > above[j - 1] && score > above[j]
                && score > above[j + 1] && score > below[j - 1] && score > below[j] && score
                > below[j + 1] {
                kps.push(FastKeypoint { x: j, y, response: score });
                assert(is_keypoint(img, t as int, j as int, y as int));
            } else {
                assert(!is_keypoint(img, t as int, j as int, y as int));
            }
            proof {
                assert(forall|i: int| 0 <= i < old_k.len() ==> kps@[i] == #[trigger] old_k[i]);
                assert forall|qx: int, qy: int|
                    qy < y && #[trigger] is_keypoint(img, t as int, qx, qy) implies exists|i: int|
                    0 <= i < kps@.len() && (#[trigger] kps@[i]).x == qx && kps@[i].y == qy by {
                    let i = choose|i: int|
                        0 <= i < old_k.len() && (#[trigger] old_k[i]).x == qx && old_k[i].y == qy;
                    assert(kps@[i] == old_k[i]);
                }
                assert forall|q: int|
                    0 <= q < k + 1 && is_keypoint(
                        img,
                        t as int,
                        #[trigger] corners@[q] as int,
                        y as int,
                    ) implies exists|i: int|
                    0 <= i < kps@.len() && (#[trigger] kps@[i]).x == corners@[q] && kps@[i].y == y by {
                    if q < k {
                        let i = choose|i: int|
                            0 <= i < old_k.len() && (#[trigger] old_k[i]).x == corners@[q]
                                && old_k[i].y == y;
                        assert(kps@[i] == old_k[i]);
                    } else {
                        assert(kps@[kps@.len() - 1].x == j);
                    }
                }
                if k > 0 {
                    assert(corners@[k - 1] < corners@[k as int]);
                }
            }
            k = k + 1;
        }
        proof {
            assert forall|qx: int, qy: int|
                qy < y + 1 && #[trigger] is_keypoint(img, t as int, qx, qy) implies exists|i: int|
                0 <= i < kps@.len() && (#[trigger] kps@[i]).x == qx && kps@[i].y == qy by {
                if qy == y {
                    assert(corner_at(img, t as int, qx, y as int));
                    assert(corners@.contains(qx as usize));
                    let q = corners@.index_of(qx as usize);
                    assert(corners@[q] == qx);
                }
            }
        }
        above = here;
        here = below;
        corners = next.1;
        y = y + 1;
    }
    kps
}

/// The ring is the circle of radius 3 around a pixel: sixteen steps, each to a
/// pixel that touches the last, none nearer than the square root of 8 nor
/// further than that of 10, beginning straight below. Four steps are a quarter
/// turn.
pub proof fn lemma_ring_is_circle(k: int)
    requires
        0 <= k < 16,
    ensures
        ring(0) == (0int, 3int),
        8 <= ring(k).0 * ring(k).0 + ring(k).1 * ring(k).1 <= 10,
        -1 <= ring((k + 1) % 16).0 - ring(k).0 <= 1,
        -1 <= ring((k + 1) % 16).1 - ring(k).1 <= 1,
        ring((k + 1) % 16) != ring(k),
        ring((k + 4) % 16) == (ring(k).1, -ring(k).0),
{
    assert(3int * 3 == 9 && 1int * 1 == 1 && 2int * 2 == 4 && 0int * 0 == 0 && (-1int) * (-1) == 1
        && (-2int) * (-2) == 4 && (-3int) * (-3) == 9) by (nonlinear_arith);
}

/// A pixel is a corner if nine pixels in a row on its ring are all darker than
/// it by more than the threshold, or all brighter. The ring closes on itself.
pub proof fn lemma_corner_means(data: Seq<u8>, center: int, stride: int, t: int)
    ensures
        is_corner(data, center, stride, t) <==> exists|s: int|
            0 <= s < 16 && #[trigger] corner_arc(data, center, stride, s, t),
        forall|s: int|
            0 <= s < 16 ==> (#[trigger] corner_arc(data, center, stride, s, t) <==> {
                ||| forall|q: int|
                    #![trigger ring(q)]
                    0 <= q < 16 && (s <= q < s + 9 || s <= q + 16 < s + 9) ==> data[center + ring(
                        q,
                    ).0 + ring(q).1 * stride] + t < data[center]
                ||| forall|q: int|
                    #![trigger ring(q)]
                    0 <= q < 16 && (s <= q < s + 9 || s <= q + 16 < s + 9) ==> data[center + ring(
                        q,
                    ).0 + ring(q).1 * stride] > data[center] + t
            }),
{
    assert forall|s: int| 0 <= s < 16 implies (#[trigger] corner_arc(data, center, stride, s, t)
        <==> {
        ||| forall|q: int|
            #![trigger ring(q)]
            0 <= q < 16 && (s <= q < s + 9 || s <= q + 16 < s + 9) ==> data[center + ring(q).0
                + ring(q).1 * stride] + t < data[center]
        ||| forall|q: int|
            #![trigger ring(q)]
            0 <= q < 16 && (s <= q < s + 9 || s <= q + 16 < s + 9) ==> data[center + ring(q).0
                + ring(q).1 * stride] > data[center] + t
    }) by {
        if dark_arc(data, center, stride, s, t) {
            assert forall|q: int|
                #![trigger ring(q)]
                0 <= q < 16 && (s <= q < s + 9 || s <= q + 16 < s + 9) implies data[center + ring(
                q,
            ).0 + ring(q).1 * stride] + t < data[center] by {
                let p = if s <= q { q } else { q + 16 };
                assert(contrast(data, center, stride, p) > t);
                assert(p % 16 == q);
            }
        }
        if bright_arc(data, center, stride, s, t) {
            assert forall|q: int|
                #![trigger ring(q)]
                0 <= q < 16 && (s <= q < s + 9 || s <= q + 16 < s + 9) implies data[center + ring(
                q,
            ).0 + ring(q).1 * stride] > data[center] + t by {
                let p = if s <= q { q } else { q + 16 };
                assert(contrast(data, center, stride, p) < -t);
                assert(p % 16 == q);
            }
        }
        if forall|q: int|
            #![trigger ring(q)]
            0 <= q < 16 && (s <= q < s + 9 || s <= q + 16 < s + 9) ==> data[center + ring(q).0
                + ring(q).1 * stride] + t < data[center] {
            assert forall|p: int| s <= p < s + 9 implies #[trigger] contrast(
                data,
                center,
                stride,
                p,
            ) > t by {
                let q = p % 16;
                assert(q == p || q + 16 == p);
                assert(ring(q) == ring(q));
            }
        }
        if forall|q: int|
            #![trigger ring(q)]
            0 <= q < 16 && (s <= q < s + 9 || s <= q + 16 < s + 9) ==> data[center + ring(q).0
                + ring(q).1 * stride] > data[center] + t {
            assert forall|p: int| s <= p < s + 9 implies #[trigger] contrast(
                data,
                center,
                stride,
                p,
            ) < -t by {
                let q = p % 16;
                assert(q == p || q + 16 == p);
                assert(ring(q) == ring(q));
            }
        }
    }
}

/// A corner is left out only for a corner beside it that scores no less. What
/// stands nearer to the edge than three pixels is none.
pub proof fn lemma_left_out_for_better(img: &GrayImage, t: int, x: int, y: int)
    requires
        score_at(img, t, x, y) > 0,
    ensures
        3 <= x < img.width - 3 && 3 <= y < img.height - 3,
        is_keypoint(img, t, x, y) || exists|i: int, j: int|
            x - 1 <= i <= x + 1 && y - 1 <= j <= y + 1 && !(i == x && j == y) && #[trigger] corner_at(
                img,
                t,
                i,
                j,
            ) && score_at(img, t, i, j) >= score_at(img, t, x, y),
{
    if !is_keypoint(img, t, x, y) {
        let s = score_at(img, t, x, y);
        if score_at(img, t, x - 1, y) >= s {
            assert(corner_at(img, t, x - 1, y));
        } else if score_at(img, t, x + 1, y) >= s {
            assert(corner_at(img, t, x + 1, y));
        } else if score_at(img, t, x - 1, y - 1) >= s {
            assert(corner_at(img, t, x - 1, y - 1));
        } else if score_at(img, t, x, y - 1) >= s {
            assert(corner_at(img, t, x, y - 1));
        } else if score_at(img, t, x + 1, y - 1) >= s {
            assert(corner_at(img, t, x + 1, y - 1));
        } else if score_at(img, t, x - 1, y + 1) >= s {
            assert(corner_at(img, t, x - 1, y + 1));
        } else if score_at(img, t, x, y + 1) >= s {
            assert(corner_at(img, t, x, y + 1));
        } else {
            assert(corner_at(img, t, x + 1, y + 1));
        }
    }
}

/// Whether nine pixels in a row on the circle around a pixel, from step `s` on,
/// are all darker than it by more than `t`, or all brighter.
pub open spec fn stands_out(img: &GrayImage, x: int, y: int, s: int, t: int) -> bool {
    let own = img.data@[y * img.width + x];
    ||| forall|q: int|
        #![trigger ring(q)]
        0 <= q < 16 && (s <= q < s + 9 || s <= q + 16 < s + 9) ==> img.data@[y * img.width + x + ring(
            q,
        ).0 + ring(q).1 * img.width] + t < own
    ||| forall|q: int|
        #![trigger ring(q)]
        0 <= q < 16 && (s <= q < s + 9 || s <= q + 16 < s + 9) ==> img.data@[y * img.width + x + ring(
            q,
        ).0 + ring(q).1 * img.width] > own + t
}

proof fn lemma_stands_out(img: &GrayImage, x: int, y: int, t: int)
    ensures
        is_corner(img.data@, y * img.width + x, img.width as int, t) <==> exists|s: int|
            0 <= s < 16 && #[trigger] stands_out(img, x, y, s, t),
{
    let (c, w) = (y * img.width + x, img.width as int);
    lemma_corner_means(img.data@, c, w, t);
    assert forall|s: int| 0 <= s < 16 implies (#[trigger] stands_out(img, x, y, s, t)
        <==> corner_arc(img.data@, c, w, s, t)) by {}
    if is_corner(img.data@, c, w, t) {
        let s = choose|s: int| 0 <= s < 16 && #[trigger] corner_arc(img.data@, c, w, s, t);
        assert(stands_out(img, x, y, s, t));
    }
}

proof fn lemma_score_exists(data: Seq<u8>, center: int, stride: int, t: int)
    requires
        0 <= t <= 255,
        is_corner(data, center, stride, 0),
        !is_corner(data, center, stride, t + 1),
    ensures
        is_score(data, center, stride, score_of(data, center, stride)),
    decreases t,
{
    if is_corner(data, center, stride, t) {
        assert forall|u: int| 0 <= u implies (#[trigger] is_corner(data, center, stride, u) <==> u
            <= t) by {
            if u <= t {
                lemma_corner_monotone(data, center, stride, t, u);
            } else if is_corner(data, center, stride, u) {
                lemma_corner_monotone(data, center, stride, u, t + 1);
            }
        }
        assert(is_score(data, center, stride, t));
    } else {
        lemma_score_exists(data, center, stride, t - 1);
    }
}

/// A corner's score is the most by which an arc of its circle stands out.
pub proof fn lemma_score_at(img: &GrayImage, t: int, x: int, y: int)
    requires
        0 <= t,
        corner_at(img, t, x, y),
    ensures
        0 <= t <= score_at(img, t, x, y) <= 255,
        forall|u: int|
            0 <= u ==> (#[trigger] is_corner(img.data@, y * img.width + x, img.width as int, u)
                <==> u <= score_at(img, t, x, y)),
{
    let (c, w) = (y * img.width + x, img.width as int);
    lemma_corner_monotone(img.data@, c, w, t, 0);
    assert(!is_corner(img.data@, c, w, 256)) by {
        if is_corner(img.data@, c, w, 256) {
            let s = choose|s: int| 0 <= s < 16 && #[trigger] corner_arc(img.data@, c, w, s, 256);
            assert(-255 <= contrast(img.data@, c, w, s) <= 255);
        }
    }
    lemma_score_exists(img.data@, c, w, 255);
}

/// A feature is a pixel whose circle stands out by the threshold at least. Its
/// score is the most by which one of its arcs does, and no pixel beside it
/// reaches that.
pub proof fn lemma_feature(img: &GrayImage, t: int, x: int, y: int, a: int, b: int)
    requires
        0 <= t,
        is_keypoint(img, t, x, y),
        3 <= a < img.width - 3,
        3 <= b < img.height - 3,
        x - 1 <= a <= x + 1,
        y - 1 <= b <= y + 1,
        !(a == x && b == y),
    ensures
        ({
            let v = score_at(img, t, x, y);
            &&& v >= t
            &&& exists|s: int| 0 <= s < 16 && #[trigger] stands_out(img, x, y, s, v)
            &&& forall|s: int| 0 <= s < 16 ==> !#[trigger] stands_out(img, x, y, s, v + 1)
            &&& forall|s: int| 0 <= s < 16 ==> !#[trigger] stands_out(img, a, b, s, v)
        }),
{
    let v = score_at(img, t, x, y);
    lemma_score_at(img, t, x, y);
    lemma_stands_out(img, x, y, v);
    lemma_stands_out(img, x, y, v + 1);
    lemma_stands_out(img, a, b, v);
    let (c, w) = (b * img.width + a, img.width as int);
    assert(is_corner(img.data@, y * img.width + x, w, v));
    assert(!is_corner(img.data@, y * img.width + x, w, v + 1));
    if is_corner(img.data@, c, w, v) {
        lemma_corner_monotone(img.data@, c, w, v, t);
        assert(corner_at(img, t, a, b));
        lemma_score_at(img, t, a, b);
        assert(score_at(img, t, a, b) >= v);
    }
}

/// A pixel that stands out by `v`, above the threshold, is a feature if no
/// pixel beside it does.
pub proof fn lemma_feature_found(img: &GrayImage, t: int, x: int, y: int, s: int, v: int)
    requires
        0 <= t <= v,
        1 <= v,
        3 <= x < img.width - 3,
        3 <= y < img.height - 3,
        0 <= s < 16,
        stands_out(img, x, y, s, v),
        forall|a: int, b: int, r: int|
            x - 1 <= a <= x + 1 && y - 1 <= b <= y + 1 && !(a == x && b == y) && 3 <= a < img.width
                - 3 && 3 <= b < img.height - 3 && 0 <= r < 16 ==> !#[trigger] stands_out(
                img,
                a,
                b,
                r,
                v,
            ),
    ensures
        is_keypoint(img, t, x, y),
        score_at(img, t, x, y) >= v,
{
    let w = img.width as int;
    lemma_stands_out(img, x, y, v);
    lemma_corner_monotone(img.data@, y * img.width + x, w, v, t);
    assert(corner_at(img, t, x, y));
    lemma_score_at(img, t, x, y);
    assert(is_corner(img.data@, y * img.width + x, w, v));
    assert forall|a: int, b: int|
        x - 1 <= a <= x + 1 && y - 1 <= b <= y + 1 && !(a == x && b == y) implies #[trigger] score_at(
        img,
        t,
        a,
        b,
    ) < v by {
        if corner_at(img, t, a, b) {
            lemma_score_at(img, t, a, b);
            lemma_stands_out(img, a, b, v);
            assert(!is_corner(img.data@, b * img.width + a, w, v));
        }
    }
}

} // verus!
