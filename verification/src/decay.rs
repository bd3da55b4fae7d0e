//! Fixed-point arithmetic for exponentially decaying scores.
//!
//! A score is stored as an integer number of `1/SCALE` units. The decay
//! factor `2^(delta/half_life)` is approximated by [`exp2_fixed`]: exact at
//! whole powers of two and linearly interpolated between them, which keeps
//! every operation in integer arithmetic with a fully determined result.

use vstd::arithmetic::div_mod::{
    lemma_div_by_multiple, lemma_div_is_ordered, lemma_div_is_ordered_by_denominator,
    lemma_div_multiples_vanish, lemma_div_multiples_vanish_quotient, lemma_div_pos_is_pos,
    lemma_fundamental_div_mod, lemma_mod_division_less_than_divisor, lemma_remainder_lower,
    lemma_remainder_upper,
};
use vstd::arithmetic::mul::{
    lemma_mul_inequality, lemma_mul_is_commutative, lemma_mul_left_inequality,
    lemma_mul_strict_inequality, lemma_mul_unary_negation,
};
use vstd::arithmetic::power2::{lemma2_to64, lemma_pow2_adds, lemma_pow2_pos, pow2};
use vstd::prelude::*;

verus! {

/// The fixed-point unit: a stored value of `SCALE` means a score of one.
pub const SCALE: u64 = 65536;

/// Largest number of half-lives an exponent may span; rebasing the store's
/// reference time keeps real exponents far below this.
pub const MAX_EXPONENT: u64 = 32;

/// Bound on timestamps and half-lives, in seconds (about a thousand years).
pub const TIME_LIMIT: i64 = 34359738368;

/// Bound on stored score accumulators, leaving headroom below `i64::MAX`.
pub const FREC_LIMIT: i64 = 2305843009213693952;

/// `2^(e/SCALE) * SCALE`, approximated: exact when `e` is a multiple of
/// `SCALE`, linearly interpolated in between.
pub open spec fn exp2_fixed(e: int) -> int
    recommends
        0 <= e,
{
    (SCALE + e % (SCALE as int)) * pow2((e / (SCALE as int)) as nat)
}

/// Signed division rounding towards zero, as the `/` of the machine does.
pub open spec fn div_to_zero(a: int, b: int) -> int
    recommends
        b > 0,
{
    if a >= 0 {
        a / b
    } else {
        -((-a) / b)
    }
}

/// The decay exponent, in `1/SCALE` units, accumulated over `delta` seconds
/// with the given half-life.
pub open spec fn exponent_units(delta: int, half_life: int) -> int
    recommends
        0 <= delta,
        0 < half_life,
{
    (delta * (SCALE as int)) / half_life
}

/// The score read off an accumulator `acc` after decaying by exponent `e`.
pub open spec fn decayed(acc: int, e: int) -> int
    recommends
        0 <= e,
{
    div_to_zero(acc * (SCALE as int), exp2_fixed(e))
}

/// The accumulator that stands for `score` when anchored `e` exponent units
/// in the past; the inverse operation of [`decayed`].
pub open spec fn anchored(score: int, e: int) -> int
    recommends
        0 <= e,
{
    div_to_zero(score * exp2_fixed(e), SCALE as int)
}

/// Elapsed time ahead of the anchor gives a non-negative exponent.
pub proof fn lemma_exponent_nonneg(delta: int, half_life: int)
    requires
        0 <= delta,
        0 < half_life,
    ensures
        0 <= exponent_units(delta, half_life),
{
    vstd::arithmetic::mul::lemma_mul_nonnegative(delta, SCALE as int);
    lemma_div_pos_is_pos(delta * (SCALE as int), half_life);
}

/// At the anchor's own instant no time has decayed away.
pub proof fn lemma_zero_exponent(half_life: int)
    requires
        0 < half_life,
    ensures
        exponent_units(0, half_life) == 0,
{
    assert(0 * (SCALE as int) == 0);
    vstd::arithmetic::div_mod::lemma_div_of0(half_life);
}

/// An empty accumulator reads back as a zero score.
pub proof fn lemma_decay_of_zero(e: int)
    requires
        0 <= e <= MAX_EXPONENT * SCALE,
    ensures
        decayed(0, e) == 0,
{
    lemma_exp2_fixed_bounds(e);
    assert(0 * (SCALE as int) == 0);
    vstd::arithmetic::div_mod::lemma_div_of0(exp2_fixed(e));
}

/// Decaying by one exponent keeps the order of accumulators: a larger
/// anchored sum never reads back below a smaller one.
pub proof fn lemma_decay_monotone(a1: int, a2: int, e: int)
    requires
        a1 <= a2,
        0 <= e <= MAX_EXPONENT * SCALE,
    ensures
        decayed(a1, e) <= decayed(a2, e),
{
    let s = SCALE as int;
    let d = exp2_fixed(e);
    lemma_exp2_fixed_bounds(e);
    if a1 >= 0 {
        lemma_mul_inequality(a1, a2, s);
        lemma_div_is_ordered(a1 * s, a2 * s, d);
    } else if a2 < 0 {
        lemma_mul_inequality(-a2, -a1, s);
        lemma_div_is_ordered((-a2) * s, (-a1) * s, d);
        assert((-a1) * s == -(a1 * s)) by {
            lemma_mul_unary_negation(a1, s);
        }
        assert((-a2) * s == -(a2 * s)) by {
            lemma_mul_unary_negation(a2, s);
        }
    } else {
        vstd::arithmetic::mul::lemma_mul_nonnegative(a2, s);
        lemma_div_pos_is_pos(a2 * s, d);
        vstd::arithmetic::mul::lemma_mul_nonnegative(-a1, s);
        lemma_div_pos_is_pos((-a1) * s, d);
        assert((-a1) * s == -(a1 * s)) by {
            lemma_mul_unary_negation(a1, s);
        }
    }
}

/// The whole number of score units nearest to the fixed-point value `w`,
/// ties rounding away from zero.
pub open spec fn round_units(w: int) -> int {
    if w >= 0 {
        (w + (SCALE as int) / 2) / (SCALE as int)
    } else {
        -((-w + (SCALE as int) / 2) / (SCALE as int))
    }
}

/// [`round_units`] as a machine word.
pub fn round_units_exec(w: i64) -> (r: i64)
    requires
        -FREC_LIMIT <= w <= FREC_LIMIT,
    ensures
        r == round_units(w as int),
{
    if w >= 0 {
        (((w as u64) + SCALE / 2) / SCALE) as i64
    } else {
        let m = -w;
        -((((m as u64) + SCALE / 2) / SCALE) as i64)
    }
}

pub proof fn lemma_exp2_fixed_bounds(e: int)
    requires
        0 <= e <= MAX_EXPONENT * SCALE,
    ensures
        SCALE <= exp2_fixed(e),
        exp2_fixed(e) <= 2 * (SCALE as int) * pow2(MAX_EXPONENT as nat),
        exp2_fixed(e) < 0x2000000000000,
{
    let s = SCALE as int;
    let k = (e / s) as nat;
    let f = e % s;
    lemma_mod_division_less_than_divisor(e, s);
    lemma_pow2_pos(k);
    assert(s + f >= s);
    assert(exp2_fixed(e) == (s + f) * pow2(k));
    lemma_mul_left_inequality(s + f, 1, pow2(k) as int);
    assert((s + f) * 1 <= (s + f) * pow2(k));
    lemma_div_is_ordered(e, MAX_EXPONENT * SCALE, s);
    assert(e / s <= (MAX_EXPONENT * SCALE) as int / s);
    assert((MAX_EXPONENT * SCALE) as int / s == MAX_EXPONENT) by {
        lemma_div_by_multiple(MAX_EXPONENT as int, s);
    }
    assert(k <= MAX_EXPONENT);
    lemma_pow2_le(k, MAX_EXPONENT as nat);
    assert(s + f < 2 * s);
    assert((s + f) * pow2(k) <= (s + f) * pow2(MAX_EXPONENT as nat)) by {
        lemma_mul_left_inequality(s + f, pow2(k) as int, pow2(MAX_EXPONENT as nat) as int);
    }
    assert((s + f) * pow2(MAX_EXPONENT as nat) < (2 * s) * pow2(MAX_EXPONENT as nat)) by {
        lemma_pow2_pos(MAX_EXPONENT as nat);
        lemma_mul_strict_inequality(s + f, 2 * s, pow2(MAX_EXPONENT as nat) as int);
    }
    assert(pow2(MAX_EXPONENT as nat) == 0x100000000) by {
        lemma2_to64();
    }
    assert(2 * s * 0x100000000 == 0x2000000000000);
}

/// `pow2` is monotonic.
pub proof fn lemma_pow2_le(a: nat, b: nat)
    requires
        a <= b,
    ensures
        pow2(a) <= pow2(b),
{
    lemma_pow2_adds(a, (b - a) as nat);
    lemma_pow2_pos((b - a) as nat);
    lemma_pow2_pos(a);
    lemma_mul_left_inequality(pow2(a) as int, 1, pow2((b - a) as nat) as int);
}

/// At a whole number of half-lives the approximation is exact.
pub proof fn lemma_exp2_at_half_lives(k: int)
    requires
        0 <= k,
    ensures
        exp2_fixed(k * SCALE) == (SCALE as int) * pow2(k as nat),
{
    let s = SCALE as int;
    vstd::arithmetic::div_mod::lemma_mod_multiples_basic(k, s);
    assert((k * s) % s == 0);
    lemma_div_by_multiple(k, s);
    assert((k * s) / s == k);
}

/// Decaying by a zero exponent reads the accumulator back unchanged.
pub proof fn lemma_decay_at_zero(acc: int)
    ensures
        decayed(acc, 0) == acc,
{
    let s = SCALE as int;
    assert(exp2_fixed(0) == s * pow2(0)) by {
        lemma_exp2_at_half_lives(0);
    }
    assert(pow2(0) == 1) by {
        lemma2_to64();
    }
    if acc >= 0 {
        lemma_div_multiples_vanish(acc, s);
    } else {
        lemma_div_multiples_vanish(-acc, s);
        assert((-acc) * s == -(acc * s)) by (nonlinear_arith);
    }
}

/// Reading a score never grows its magnitude: the decay divisor is at least
/// one.
pub proof fn lemma_decay_shrinks(acc: int, e: int)
    requires
        0 <= e <= MAX_EXPONENT * SCALE,
    ensures
        acc >= 0 ==> 0 <= decayed(acc, e) <= acc,
        acc < 0 ==> acc <= decayed(acc, e) <= 0,
{
    let s = SCALE as int;
    let d = exp2_fixed(e);
    lemma_exp2_fixed_bounds(e);
    if acc >= 0 {
        lemma_div_pos_is_pos(acc * s, d);
        lemma_div_is_ordered_by_denominator(acc * s, s, d);
        lemma_div_multiples_vanish(acc, s);
        assert(acc * s / s == acc);
    } else {
        lemma_div_pos_is_pos((-acc) * s, d);
        lemma_div_is_ordered_by_denominator((-acc) * s, s, d);
        lemma_div_multiples_vanish(-acc, s);
        assert((-acc) * s == -(acc * s)) by (nonlinear_arith);
    }
}

/// Anchoring at a zero exponent stores the score itself.
pub proof fn lemma_anchor_at_zero(score: int)
    ensures
        anchored(score, 0) == score,
{
    let s = SCALE as int;
    assert(exp2_fixed(0) == s * pow2(0)) by {
        lemma_exp2_at_half_lives(0);
    }
    assert(pow2(0) == 1) by {
        lemma2_to64();
    }
    assert(score * (s * 1) == score * s);
    if score >= 0 {
        lemma_div_multiples_vanish(score, s);
    } else {
        lemma_div_multiples_vanish(-score, s);
        assert((-score) * s == -(score * s)) by (nonlinear_arith);
    }
}

/// Over a span of `k` whole half-lives the exponent comes out exact.
pub proof fn lemma_exponent_at_half_lives(k: int, half_life: int)
    requires
        0 <= k,
        0 < half_life,
    ensures
        exponent_units(k * half_life, half_life) == k * SCALE,
{
    let s = SCALE as int;
    assert((k * half_life) * s == (k * s) * half_life) by (nonlinear_arith);
    lemma_div_multiples_vanish(k * s, half_life);
}

/// The decay law: after `k` whole half-lives an accumulator reads back as
/// its value divided by `2^k`.
pub proof fn lemma_decay_halves(acc: int, k: int)
    requires
        0 <= k <= MAX_EXPONENT,
    ensures
        decayed(acc, k * SCALE) == div_to_zero(acc, pow2(k as nat) as int),
{
    let s = SCALE as int;
    let p = pow2(k as nat) as int;
    lemma_exp2_at_half_lives(k);
    lemma_pow2_pos(k as nat);
    if acc >= 0 {
        assert(acc * s == s * acc);
        lemma_div_multiples_vanish_quotient(s, acc, p);
        assert((s * acc) / (s * p) == acc / p);
    } else {
        assert((-(acc * s)) == s * (-acc)) by (nonlinear_arith);
        lemma_div_multiples_vanish_quotient(s, -acc, p);
        assert((s * (-acc)) / (s * p) == (-acc) / p);
    }
}

/// Writing a non-negative score and reading it back at the same instant
/// loses at most one fixed-point unit to rounding.
proof fn lemma_anchor_then_decay_nonneg(score: int, e: int)
    requires
        0 <= score,
        0 <= e <= MAX_EXPONENT * SCALE,
    ensures
        score - 1 <= decayed(anchored(score, e), e) <= score,
        0 <= anchored(score, e),
{
    let s = SCALE as int;
    let d = exp2_fixed(e);
    lemma_exp2_fixed_bounds(e);
    assert(score * d >= 0) by {
        vstd::arithmetic::mul::lemma_mul_nonnegative(score, d);
    }
    let a = (score * d) / s;
    let r1 = (score * d) % s;
    lemma_fundamental_div_mod(score * d, s);
    lemma_remainder_lower(score * d, s);
    lemma_remainder_upper(score * d, s);
    assert(s * a == score * d - r1);
    lemma_div_pos_is_pos(score * d, s);
    assert(anchored(score, e) == a);
    assert(a * s == s * a) by {
        lemma_mul_is_commutative(a, s);
    }
    assert(decayed(a, e) == (score * d - r1) / d);
    assert((score - 1) * d == score * d - d) by (nonlinear_arith);
    assert(score * d - r1 >= score * d - d);
    lemma_div_is_ordered(score * d - d, score * d - r1, d);
    lemma_div_multiples_vanish(score - 1, d);
    assert((score * d - d) / d == score - 1);
    lemma_div_is_ordered(score * d - r1, score * d, d);
    lemma_div_multiples_vanish(score, d);
    assert((score * d) / d == score);
}

/// Writing a score and reading it back at the same instant moves it by at
/// most one fixed-point unit, and never away from zero.
pub proof fn lemma_anchor_then_decay(score: int, e: int)
    requires
        0 <= e <= MAX_EXPONENT * SCALE,
    ensures
        score >= 0 ==> score - 1 <= decayed(anchored(score, e), e) <= score,
        score < 0 ==> score <= decayed(anchored(score, e), e) <= score + 1,
{
    if score >= 0 {
        lemma_anchor_then_decay_nonneg(score, e);
    } else {
        let s = SCALE as int;
        let d = exp2_fixed(e);
        lemma_exp2_fixed_bounds(e);
        lemma_anchor_then_decay_nonneg(-score, e);
        assert(score * d < 0) by {
            vstd::arithmetic::mul::lemma_mul_strictly_positive(-score, d);
            lemma_mul_unary_negation(score, d);
        }
        assert((-score) * d == -(score * d)) by {
            lemma_mul_unary_negation(score, d);
        }
        let a = anchored(score, e);
        let b = anchored(-score, e);
        assert(a == -b);
        if b == 0 {
            lemma_decay_at_zero(0);
            assert(decayed(0, e) == 0) by {
                assert(0 * s == 0);
                lemma_div_of0_any(d);
            }
        } else {
            assert(b > 0);
            assert(a < 0);
            assert((-a) * s == -(a * s)) by {
                lemma_mul_unary_negation(a, s);
            }
            assert(decayed(a, e) == -decayed(b, e));
        }
    }
}

/// `0 / d == 0` for positive `d`.
proof fn lemma_div_of0_any(d: int)
    requires
        0 < d,
    ensures
        0int / d == 0,
{
    vstd::arithmetic::div_mod::lemma_div_of0(d);
}

/// `2^k` as a machine word.
fn pow2_exec(k: u64) -> (r: u64)
    requires
        k <= 62,
    ensures
        r == pow2(k as nat),
{
    let mut i: u64 = 0;
    let mut r: u64 = 1;
    proof {
        lemma2_to64();
        assert(pow2(0) == 1);
    }
    while i < k
        invariant
            i <= k <= 62,
            r == pow2(i as nat),
        decreases k - i,
    {
        proof {
            lemma_pow2_le(i as nat, 61);
            lemma2_to64();
            vstd::arithmetic::power2::lemma2_to64_rest();
            assert(pow2((i + 1) as nat) == pow2(i as nat) * pow2(1)) by {
                lemma_pow2_adds(i as nat, 1);
            }
            assert(pow2(1) == 2);
        }
        r = r * 2;
        i = i + 1;
    }
    r
}

/// [`exp2_fixed`] as a machine word.
pub fn exp2_units(e: u64) -> (r: u64)
    requires
        e <= MAX_EXPONENT * SCALE,
    ensures
        r == exp2_fixed(e as int),
        SCALE <= r < 0x2000000000000,
{
    let k = e / SCALE;
    let f = e % SCALE;
    proof {
        lemma_exp2_fixed_bounds(e as int);
        lemma_div_is_ordered(e as int, (MAX_EXPONENT * SCALE) as int, SCALE as int);
        lemma_div_by_multiple(MAX_EXPONENT as int, SCALE as int);
    }
    let p = pow2_exec(k);
    (SCALE + f) * p
}

/// The score that accumulator `acc` yields after decaying by exponent `e`.
pub fn decay_score(acc: i64, e: u64) -> (r: i64)
    requires
        -FREC_LIMIT <= acc <= FREC_LIMIT,
        e <= MAX_EXPONENT * SCALE,
    ensures
        r == decayed(acc as int, e as int),
        acc >= 0 ==> 0 <= r <= acc,
        acc < 0 ==> acc <= r <= 0,
{
    let d = exp2_units(e);
    proof {
        lemma_decay_shrinks(acc as int, e as int);
    }
    if acc >= 0 {
        let q = ((acc as u128) * (SCALE as u128)) / (d as u128);
        q as i64
    } else {
        let m = -acc;
        let q = ((m as u128) * (SCALE as u128)) / (d as u128);
        proof {
            assert((m as int) * (SCALE as int) == -((acc as int) * (SCALE as int))) by {
                assert(m == -(acc as int));
            }
        }
        -(q as i64)
    }
}

/// The accumulator that will read back as `score` after decaying by
/// exponent `e`; the executable inverse of [`decay_score`].
pub fn anchor_score(score: i64, e: u64) -> (r: i64)
    requires
        -FREC_LIMIT <= score <= FREC_LIMIT,
        e <= MAX_EXPONENT * SCALE,
        -FREC_LIMIT <= anchored(score as int, e as int) <= FREC_LIMIT,
    ensures
        r == anchored(score as int, e as int),
{
    let d = exp2_units(e);
    if score >= 0 {
        proof {
            lemma_mul_inequality(score as int, FREC_LIMIT as int, d as int);
            lemma_mul_left_inequality(FREC_LIMIT as int, d as int, 0x2000000000000);
            lemma_div_pos_is_pos((score as int) * (d as int), SCALE as int);
        }
        let q = ((score as u128) * (d as u128)) / (SCALE as u128);
        q as i64
    } else {
        let m = -score;
        proof {
            lemma_mul_inequality(m as int, FREC_LIMIT as int, d as int);
            lemma_mul_left_inequality(FREC_LIMIT as int, d as int, 0x2000000000000);
            lemma_mul_unary_negation(score as int, d as int);
            assert((m as int) * (d as int) == -((score as int) * (d as int)));
            lemma_div_pos_is_pos((m as int) * (d as int), SCALE as int);
        }
        let q = ((m as u128) * (d as u128)) / (SCALE as u128);
        -(q as i64)
    }
}

} // verus!
