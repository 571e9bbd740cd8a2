//! Durations as nanosecond counts. The engine keeps every duration and every
//! point in time as a plain number of nanoseconds, so that schedule arithmetic
//! is exact.

use vstd::prelude::*;
use vstd::arithmetic::div_mod::{lemma_fundamental_div_mod, lemma_div_multiples_vanish};

verus! {

/// Nanoseconds of a duration given as whole seconds plus a sub-second part.
pub open spec fn dur_nanos_spec(secs: u64, nanos: u32) -> int {
    secs * 1_000_000_000 + nanos
}

/// Builds a nanosecond count from seconds and a sub-second nanosecond part.
pub fn dur_from_parts(secs: u64, nanos: u32) -> (r: u128)
    ensures
        r == dur_nanos_spec(secs, nanos),
{
    secs as u128 * 1_000_000_000 + nanos as u128
}

/// The quotient of two durations, rounded up or down to a whole number.
pub open spec fn div_round_spec(a: int, b: int, round_up: bool) -> int
    recommends
        b > 0,
{
    if round_up {
        (a + b - 1) / b
    } else {
        a / b
    }
}

/// Rounding up and rounding down differ by at most one, and agree exactly
/// when the divisor divides the dividend.
pub proof fn lemma_div_round_flip(a: int, b: int)
    requires
        a >= 0,
        b > 0,
    ensures
        div_round_spec(a, b, false) <= div_round_spec(a, b, true)
            <= div_round_spec(a, b, false) + 1,
        div_round_spec(a, b, true) == div_round_spec(a, b, false) <==> a % b == 0,
{
    lemma_fundamental_div_mod(a, b);
    let q = a / b;
    let r = a % b;
    assert(divides(b, b * q)) by {
        assert(b * q == b * q);
    }
    assert(divides(b, b * (q + 1))) by {
        assert(b * (q + 1) == b * (q + 1));
    }
    if r == 0 {
        // a + b - 1 == b * q + (b - 1), so the rounded-up quotient is q.
        assert(a + b - 1 == b * q + (b - 1)) by (nonlinear_arith)
            requires
                a == b * q + r,
                r == 0,
        ;
        lemma_small_div_quotient(b * q, b - 1, b);
        lemma_div_multiples_vanish(q, b);
        assert((a + b - 1) / b == q);
    } else {
        // a + b - 1 == b * (q + 1) + (r - 1) with 0 <= r - 1 < b.
        assert(a + b - 1 == b * (q + 1) + (r - 1)) by (nonlinear_arith)
            requires
                a == b * q + r,
        ;
        lemma_small_div_quotient(b * (q + 1), r - 1, b);
        lemma_div_multiples_vanish(q + 1, b);
        assert((a + b - 1) / b == q + 1);
    }
}

/// Adding less than one divisor to a multiple of it does not change the
/// quotient.
proof fn lemma_small_div_quotient(x: int, r: int, d: int)
    requires
        d > 0,
        0 <= r < d,
        divides(d, x),
    ensures
        (x + r) / d == x / d,
{
    let k = choose|k: int| x == #[trigger] (d * k);
    lemma_div_multiples_vanish(k, d);
    lemma_fundamental_div_mod(x + r, d);
    let q = (x + r) / d;
    let m = (x + r) % d;
    assert(d * q + m == d * k + r) by (nonlinear_arith)
        requires
            x + r == d * q + m,
            x == d * k,
    ;
    assert(q == k) by (nonlinear_arith)
        requires
            d * q + m == d * k + r,
            0 <= m < d,
            0 <= r < d,
            d > 0,
    ;
}

use crate::math::divides;

/// How many times `b` fits into `a`, rounding up or down; the callers of the
/// schedule builder divide a hyper-period by a tick and a rate by a tick.
///
/// When rounding up, `b * result >= a`; when rounding down, `b * result <= a`.
pub fn divide_durations(a: u128, b: u128, round_up: bool) -> (r: usize)
    requires
        b > 0,
        div_round_spec(a as int, b as int, round_up) <= usize::MAX,
    ensures
        r == div_round_spec(a as int, b as int, round_up),
        round_up ==> b * r >= a,
        !round_up ==> b * r <= a,
{
    let q = a / b;
    let rem = a % b;
    proof {
        lemma_fundamental_div_mod(a as int, b as int);
        lemma_div_round_flip(a as int, b as int);
        assert(b * (q + 1) >= a) by (nonlinear_arith)
            requires
                a == b * q + rem,
                rem < b,
        ;
        assert(b * q <= a) by (nonlinear_arith)
            requires
                a == b * q + rem,
                rem >= 0,
        ;
    }
    if round_up && rem != 0 {
        (q + 1) as usize
    } else {
        q as usize
    }
}

} // verus!
