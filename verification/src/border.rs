//! Mirrored image borders: which pixel stands for one past the edge.

use vstd::arithmetic::div_mod::lemma_fundamental_div_mod;
use vstd::arithmetic::div_mod::lemma_fundamental_div_mod_converse;
use vstd::prelude::*;

verus! {

/// Mirror at the outer pixels, `gfedcb|abcdefgh|gfedcba`: the edge pixel is
/// not repeated. The pattern has period `2 * (len - 1)`.
pub open spec fn mirror101(i: int, len: int) -> int {
    if len == 1 {
        0
    } else {
        let period = 2 * (len - 1);
        let m = i % period;
        if m < len { m } else { period - m }
    }
}

/// Mirror behind the outer pixels, `fedcba|abcdefgh|hgfedcb`: the edge pixel
/// is repeated. The pattern has period `2 * len`.
pub open spec fn mirror(i: int, len: int) -> int {
    let period = 2 * len;
    let m = i % period;
    if m < len { m } else { period - 1 - m }
}

proof fn lemma_mod_is(i: int, d: int, q: int, r: int)
    requires
        d > 0,
        0 <= r < d,
        i == q * d + r,
    ensures
        i % d == r,
{
    lemma_fundamental_div_mod_converse(i, d, q, r);
}

/// A mirrored index always lies inside the image, and an index inside the
/// image stands for itself.
pub proof fn lemma_mirror101_range(i: int, len: int)
    requires
        len >= 1,
    ensures
        0 <= mirror101(i, len) < len,
        0 <= i < len ==> mirror101(i, len) == i,
{
    if len > 1 {
        let period = 2 * (len - 1);
        lemma_fundamental_div_mod(i, period);
        assert(0 <= i % period < period);
        if 0 <= i < len {
            lemma_mod_is(i, period, 0, i);
        }
    }
}

/// A mirrored index is the index itself or its negative, up to whole periods.
pub proof fn lemma_mirror101_congruent(i: int, len: int)
    requires
        len >= 2,
    ensures
        (mirror101(i, len) - i) % (2 * (len - 1)) == 0 || (mirror101(i, len) + i) % (2 * (len - 1))
            == 0,
{
    let period = 2 * (len - 1);
    let (m, q) = (i % period, i / period);
    lemma_fundamental_div_mod(i, period);
    if m < len {
        assert(m - i == (-q) * period + 0) by (nonlinear_arith)
            requires
                i == period * q + m,
        ;
        lemma_mod_is(m - i, period, -q, 0);
    } else {
        assert(period - m + i == (q + 1) * period + 0) by (nonlinear_arith)
            requires
                i == period * q + m,
        ;
        lemma_mod_is(period - m + i, period, q + 1, 0);
    }
}

/// Mirroring at the left edge pixel: `i` and `-i` are the same pixel.
pub proof fn lemma_mirror101_left(i: int, len: int)
    requires
        len >= 1,
    ensures
        mirror101(-i, len) == mirror101(i, len),
{
    if len > 1 {
        let period = 2 * (len - 1);
        let m = i % period;
        let q = i / period;
        lemma_fundamental_div_mod(i, period);
        if m == 0 {
            assert(-i == (-q) * period + 0) by (nonlinear_arith)
                requires
                    i == period * q + m,
                    m == 0,
            ;
            lemma_mod_is(-i, period, -q, 0);
        } else {
            assert(-i == (-q - 1) * period + (period - m)) by (nonlinear_arith)
                requires
                    i == period * q + m,
            ;
            lemma_mod_is(-i, period, -q - 1, period - m);
        }
    }
}

/// Mirroring at the right edge pixel: `i` and `2 * (len - 1) - i` are the
/// same pixel.
pub proof fn lemma_mirror101_right(i: int, len: int)
    requires
        len >= 1,
    ensures
        mirror101(2 * (len - 1) - i, len) == mirror101(i, len),
{
    if len > 1 {
        let period = 2 * (len - 1);
        lemma_mirror101_left(i, len);
        let m = (-i) % period;
        let q = (-i) / period;
        lemma_fundamental_div_mod(-i, period);
        assert(period - i == (q + 1) * period + m) by (nonlinear_arith)
            requires
                -i == period * q + m,
        ;
        lemma_mod_is(period - i, period, q + 1, m);
    }
}

/// A mirrored index always lies inside the image, and an index inside the
/// image stands for itself.
pub proof fn lemma_mirror_range(i: int, len: int)
    requires
        len >= 1,
    ensures
        0 <= mirror(i, len) < len,
        0 <= i < len ==> mirror(i, len) == i,
{
    let period = 2 * len;
    lemma_fundamental_div_mod(i, period);
    assert(0 <= i % period < period);
    if 0 <= i < len {
        lemma_mod_is(i, period, 0, i);
    }
}

/// Mirroring before the first pixel: `i` and `-i - 1` are the same pixel.
pub proof fn lemma_mirror_left(i: int, len: int)
    requires
        len >= 1,
    ensures
        mirror(-i - 1, len) == mirror(i, len),
{
    let period = 2 * len;
    let m = i % period;
    let q = i / period;
    lemma_fundamental_div_mod(i, period);
    assert(-i - 1 == (-q - 1) * period + (period - 1 - m)) by (nonlinear_arith)
        requires
            i == period * q + m,
    ;
    lemma_mod_is(-i - 1, period, -q - 1, period - 1 - m);
}

/// Mirroring behind the last pixel: `i` and `2 * len - 1 - i` are the same
/// pixel.
pub proof fn lemma_mirror_right(i: int, len: int)
    requires
        len >= 1,
    ensures
        mirror(2 * len - 1 - i, len) == mirror(i, len),
{
    let period = 2 * len;
    lemma_mirror_left(i, len);
    let m = (-i - 1) % period;
    let q = (-i - 1) / period;
    lemma_fundamental_div_mod(-i - 1, period);
    assert(period - 1 - i == (q + 1) * period + m) by (nonlinear_arith)
        requires
            -i - 1 == period * q + m,
    ;
    lemma_mod_is(period - 1 - i, period, q + 1, m);
}

} // verus!
