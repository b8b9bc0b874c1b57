//! Deterministic random numbers: the multiply-with-carry generator that the
//! sampling stages draw from.

use vstd::prelude::*;

verus! {

/// Multiplier of the generator.
pub const CV_RNG_COEFF: u64 = 4164903690;

/// Two to the power of 32.
pub const WORD: u64 = 0x1_0000_0000;

/// Multiply-with-carry generator: 64 bits of state, 32 bits per draw.
#[derive(Debug, Clone, Copy, PartialEq, Eq, Structural)]
pub struct CvRng {
    state: u64,
}

/// The state after `s`: the low word is multiplied, the high word is the
/// carry.
pub open spec fn next_state(s: int) -> int {
    (s % WORD as int) * CV_RNG_COEFF + s / WORD as int
}

/// The 32-bit signed integer equal to `v` modulo the word size.
pub open spec fn to_signed(v: int) -> int {
    let low = v % WORD as int;
    if low <= i32::MAX {
        low
    } else {
        low - WORD
    }
}

impl View for CvRng {
    type V = int;

    closed spec fn view(&self) -> int {
        self.state as int
    }
}

impl CvRng {
    /// A generator with the given state. Zero would never leave zero and is
    /// replaced.
    pub fn new(state: u64) -> (r: Self)
        ensures
            r@ == if state == 0 {
                0xffff_ffff
            } else {
                state as int
            },
    {
        CvRng {
            state: if state == 0 {
                0xffff_ffff
            } else {
                state
            },
        }
    }

    /// Moves to the next state and gives its low word.
    pub fn next(&mut self) -> (word: u32)
        ensures
            final(self)@ == next_state(old(self)@),
            word == final(self)@ % WORD as int,
    {
        let low: u64 = self.state % WORD;
        let carry: u64 = self.state / WORD;
        assert(low * CV_RNG_COEFF + carry <= u64::MAX) by (nonlinear_arith)
            requires
                0 <= low < 0x1_0000_0000,
                0 <= carry < 0x1_0000_0000,
                CV_RNG_COEFF == 4164903690,
        ;
        assert(low * CV_RNG_COEFF >= 0) by (nonlinear_arith)
            requires
                low >= 0,
                CV_RNG_COEFF == 4164903690,
        ;
        self.state = low * CV_RNG_COEFF + carry;
        (self.state % WORD) as u32
    }

    /// A number from `a` up to but not including `b`; `a` itself, and no
    /// draw, where the two are equal. Where `b` lies below `a`, the range is
    /// taken modulo the word size.
    pub fn uniform_int(&mut self, a: i32, b: i32) -> (r: i32)
        ensures
            a == b ==> r == a && final(self)@ == old(self)@,
            a != b ==> {
                &&& final(self)@ == next_state(old(self)@)
                &&& r == to_signed(
                    (next_state(old(self)@) % WORD as int) % ((b - a) % WORD as int) + a,
                )
            },
            a < b ==> a <= r < b,
    {
        if a == b {
            return a;
        }
        let diff: i64 = b as i64 - a as i64;
        let span: u32 = if diff > 0 {
            diff as u32
        } else {
            (diff + WORD as i64) as u32
        };
        proof {
            if diff < 0 {
                vstd::arithmetic::div_mod::lemma_fundamental_div_mod_converse(
                    diff as int,
                    WORD as int,
                    -1,
                    diff + WORD as int,
                );
            } else {
                vstd::arithmetic::div_mod::lemma_small_mod(diff as nat, WORD as nat);
            }
            assert(span == (b - a) % WORD as int);
        }
        let v: u32 = self.next() % span;
        let sum: i64 = v as i64 + a as i64;
        proof {
            let (s, w) = (sum as int, WORD as int);
            if s < 0 {
                vstd::arithmetic::div_mod::lemma_fundamental_div_mod_converse(s, w, -1, s + w);
            } else if s < w {
                vstd::arithmetic::div_mod::lemma_fundamental_div_mod_converse(s, w, 0, s);
            } else {
                vstd::arithmetic::div_mod::lemma_fundamental_div_mod_converse(s, w, 1, s - w);
            }
        }
        if sum > i32::MAX as i64 {
            (sum - WORD as i64) as i32
        } else {
            sum as i32
        }
    }

    /// The whole state.
    pub fn state(&self) -> (s: u64)
        ensures
            s == self@,
    {
        self.state
    }
}

/// The state never becomes zero, so the sequence never dies out.
pub proof fn lemma_state_lives(s: int)
    requires
        0 < s <= u64::MAX,
    ensures
        0 < next_state(s) <= u64::MAX,
{
    let (low, high) = (s % WORD as int, s / WORD as int);
    assert(low * CV_RNG_COEFF + high <= u64::MAX) by (nonlinear_arith)
        requires
            0 <= low < 0x1_0000_0000,
            0 <= high < 0x1_0000_0000,
            CV_RNG_COEFF == 4164903690,
    ;
    assert(low * CV_RNG_COEFF >= low) by (nonlinear_arith)
        requires
            0 <= low,
            CV_RNG_COEFF == 4164903690,
    ;
    assert(low > 0 || high > 0);
}

/// The generator is a multiply-with-carry one: up to multiples of
/// `4164903690 * 2^32 - 1` the old state is `2^32` times the new.
pub proof fn lemma_multiply_with_carry(s: int)
    requires
        0 <= s <= u64::MAX,
    ensures
        0x1_0000_0000 * next_state(s) == s + (s % 0x1_0000_0000) * (4164903690 * 0x1_0000_0000 - 1),
{
    let (low, high) = (s % 0x1_0000_0000, s / 0x1_0000_0000);
    assert(s == 0x1_0000_0000 * high + low);
    assert(0x1_0000_0000 * (low * 4164903690 + high) == (0x1_0000_0000 * high + low) + low * (
    4164903690 * 0x1_0000_0000 - 1)) by (nonlinear_arith);
}

/// A number drawn from `a` up to but not including `b` is as far from `a` as
/// the drawn word is from a multiple of the range's length.
pub proof fn lemma_uniform(word: int, a: i32, b: i32)
    requires
        a < b,
        0 <= word < 0x1_0000_0000,
    ensures
        to_signed((word % 0x1_0000_0000) % ((b - a) % 0x1_0000_0000) + a) == a + word % (b - a),
        a <= a + word % (b - a) < b,
{
    assert(word % 0x1_0000_0000 == word);
    assert((b - a) % 0x1_0000_0000 == b - a);
    let d = word % (b - a);
    assert(0 <= d < b - a);
    let v = d + a;
    if v < 0 {
        assert(v % 0x1_0000_0000 == v + 0x1_0000_0000);
    } else {
        assert(v % 0x1_0000_0000 == v);
    }
}

} // verus!
