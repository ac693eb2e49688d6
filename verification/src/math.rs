//! Exact integer weighted averages for the smoothing step.
//!
//! The EMA update blends the previous smoothed value `o` and a new
//! observation `p` with weights `den - num` and `num`, dividing once
//! by `den` and truncating the remainder toward zero:
//! `(o * (den - num) + p * num) / den`.  The executable form computes
//! this without overflow by splitting each operand into quotient and
//! remainder by `den` first.

use crate::price::SCALED_LIMIT;
use vstd::arithmetic::div_mod::{
    lemma_div_by_multiple, lemma_div_is_ordered, lemma_fundamental_div_mod,
    lemma_hoist_over_denominator,
};
use vstd::arithmetic::mul::{
    lemma_mul_inequality, lemma_mul_is_distributive_add, lemma_mul_upper_bound,
};
use vstd::prelude::*;

verus! {

/// The convex combination of `o` and `p` with weight `num / den` on
/// `p`, truncated toward zero.  A zero denominator stands for a
/// zero-length window hit exactly at its last update, where the whole
/// weight lies on the new observation.
pub open spec fn blend(o: int, p: int, num: int, den: int) -> int {
    if den <= 0 {
        p
    } else {
        (o * (den - num) + p * num) / den
    }
}

/// A blend with zero weight on the new observation returns the old
/// value unchanged.
pub proof fn lemma_blend_zero(o: int, p: int, den: int)
    requires
        den >= 1,
        o >= 0,
    ensures
        blend(o, p, 0, den) == o,
{
    lemma_div_by_multiple(o, den);
}

/// The blended value always lies between the old value and the new
/// observation, so repeated smoothing toward a constant observation
/// never overshoots it and never moves away from it.
pub proof fn lemma_blend_between(o: int, p: int, num: int, den: int)
    requires
        den >= 1,
        0 <= num <= den,
        o >= 0,
        p >= 0,
    ensures
        blend(o, p, num, den) <= o || blend(o, p, num, den) <= p,
        blend(o, p, num, den) >= o || blend(o, p, num, den) >= p,
        o <= p ==> o <= blend(o, p, num, den) <= p,
        p <= o ==> p <= blend(o, p, num, den) <= o,
{
    let lo = if o <= p {
        o
    } else {
        p
    };
    let hi = if o >= p {
        o
    } else {
        p
    };
    let s = o * (den - num) + p * num;
    lemma_mul_inequality(lo, o, den - num);
    lemma_mul_inequality(lo, p, num);
    lemma_mul_inequality(o, hi, den - num);
    lemma_mul_inequality(p, hi, num);
    lemma_mul_is_distributive_add(lo, den - num, num);
    lemma_mul_is_distributive_add(hi, den - num, num);
    assert(lo * (den as int) <= s <= hi * (den as int));
    lemma_div_is_ordered(lo * den, s, den);
    lemma_div_is_ordered(s, hi * den, den);
    lemma_div_by_multiple(lo, den);
    lemma_div_by_multiple(hi, den);
}

/// The exact size of one smoothing move toward a higher observation:
/// the stored value gains the truncated share `num / den` of the gap,
/// so any gap of at least `den / num` units strictly shrinks.
pub proof fn lemma_blend_gap(o: int, p: int, num: int, den: int)
    requires
        den >= 1,
        0 <= num <= den,
        0 <= o <= p,
    ensures
        blend(o, p, num, den) == o + (p - o) * num / den,
{
    lemma_hoist_over_denominator((p - o) * num, o, den as nat);
    assert((p - o) * num + o * den == o * (den - num) + p * num) by (nonlinear_arith);
}

/// Executable form of `blend` over canonical price values.
pub fn blend_exec(o: u128, p: u128, num: u64, den: u64) -> (r: u128)
    requires
        1 <= den,
        num <= den,
        1 <= o <= SCALED_LIMIT,
        1 <= p <= SCALED_LIMIT,
    ensures
        r as int == blend(o as int, p as int, num as int, den as int),
        1 <= r <= SCALED_LIMIT,
{
    let d = den as u128;
    let n = num as u128;
    let b = d - n;
    proof {
        lemma_fundamental_div_mod(o as int, d as int);
        lemma_fundamental_div_mod(p as int, d as int);
    }
    let q1 = o / d;
    let r1 = o % d;
    let q2 = p / d;
    let r2 = p % d;
    proof {
        lemma_mul_inequality(r1 as int, d as int - 1, b as int);
        lemma_mul_inequality(r2 as int, d as int - 1, n as int);
        lemma_mul_is_distributive_add(d as int - 1, b as int, n as int);
        lemma_mul_upper_bound(d as int - 1, u64::MAX - 1, d as int, u64::MAX as int);
    }
    let t = r1 * b + r2 * n;
    proof {
        assert(t as int <= (d as int - 1) * (d as int));
        lemma_div_is_ordered(t as int, (d as int - 1) * (d as int), d as int);
        lemma_div_by_multiple(d as int - 1, d as int);
        // q1 * b <= q1 * d <= o, and likewise for p
        lemma_mul_inequality(b as int, d as int, q1 as int);
        lemma_mul_inequality(n as int, d as int, q2 as int);
        vstd::arithmetic::mul::lemma_mul_is_commutative(q1 as int, b as int);
        vstd::arithmetic::mul::lemma_mul_is_commutative(q2 as int, n as int);
        assert((q1 as int) * (b as int) <= (d as int) * (q1 as int));
        assert((q2 as int) * (n as int) <= (d as int) * (q2 as int));
    }
    let tail = t / d;
    let r = q1 * b + q2 * n + tail;
    proof {
        let j = q1 as int * b as int + q2 as int * n as int;
        lemma_hoist_over_denominator(t as int, j, den as nat);
        assert(t as int + j * (d as int) == (o as int) * (b as int) + (p as int) * (n as int))
            by (nonlinear_arith)
            requires
                o as int == (d as int) * (q1 as int) + r1 as int,
                p as int == (d as int) * (q2 as int) + r2 as int,
                t as int == (r1 as int) * (b as int) + (r2 as int) * (n as int),
                j == q1 as int * b as int + q2 as int * n as int,
        ;
        lemma_blend_between(o as int, p as int, num as int, den as int);
    }
    r
}

} // verus!
