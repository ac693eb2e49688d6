//! Fixed-point prices and their canonical numeric model.
//!
//! A price is an integer mantissa together with a count of decimal
//! places, so that aggregation is bit-reproducible across independent
//! executions.  Every price the engine stores or returns is compared
//! and combined through its canonical value at scale `10^18`
//! (`scaled`), never through the raw mantissa alone.

use vstd::arithmetic::mul::{lemma_mul_inequality, lemma_mul_is_associative, lemma_mul_upper_bound};
use vstd::prelude::*;
use vstd::relations::total_ordering;

verus! {

/// Number of decimal places of the canonical scale; also the largest
/// decimal count a price may carry.
pub const MAX_DECIMALS: u8 = 18;

/// Largest mantissa a submitted price may carry (10^20).
pub const MAX_MULTIPLIER: u128 = 100_000_000_000_000_000_000;

/// Largest canonical value of any price held by the engine:
/// `MAX_MULTIPLIER * 10^18`.
pub const SCALED_LIMIT: u128 = 100_000_000_000_000_000_000_000_000_000_000_000_000;

/// A fixed-point decimal price with value `multiplier / 10^decimals`.
#[derive(Clone, Copy, PartialEq, Eq, Structural, Debug)]
pub struct Price {
    pub multiplier: u128,
    pub decimals: u8,
}

pub open spec fn pow10(e: nat) -> nat
    decreases e,
{
    if e == 0 {
        1
    } else {
        10 * pow10((e - 1) as nat)
    }
}

/// The canonical value of a price: its numeric value times `10^18`.
pub open spec fn scaled(p: Price) -> int {
    if p.decimals <= MAX_DECIMALS {
        p.multiplier * pow10((MAX_DECIMALS - p.decimals) as nat)
    } else {
        0
    }
}

/// A price is accepted for ingestion only in this shape: nonzero
/// mantissa within bound, decimal count within bound.
pub open spec fn valid_price(p: Price) -> bool {
    &&& 1 <= p.multiplier <= MAX_MULTIPLIER
    &&& p.decimals <= MAX_DECIMALS
}

/// Every price the engine stores satisfies this weaker shape; results
/// of aggregation may carry a mantissa above `MAX_MULTIPLIER` but
/// never a canonical value above `SCALED_LIMIT`.
pub open spec fn wf_price(p: Price) -> bool {
    &&& p.multiplier >= 1
    &&& p.decimals <= MAX_DECIMALS
    &&& scaled(p) <= SCALED_LIMIT as int
}

pub proof fn lemma_pow10_monotone(a: nat, b: nat)
    requires
        a <= b,
    ensures
        pow10(a) <= pow10(b),
    decreases b,
{
    if a < b {
        lemma_pow10_monotone(a, (b - 1) as nat);
    }
}

pub proof fn lemma_pow10_cap()
    ensures
        pow10(MAX_DECIMALS as nat) == 1_000_000_000_000_000_000,
{
    assert(pow10(18) == 1_000_000_000_000_000_000) by {
        reveal_with_fuel(pow10, 19);
    }
}

pub proof fn lemma_pow10_adds(a: nat, b: nat)
    ensures
        pow10(a) * pow10(b) == pow10(a + b),
    decreases a,
{
    if a == 0 {
        assert(pow10(a) == 1);
        assert(pow10(a) * pow10(b) == 1 * pow10(b));
        assert(1 * pow10(b) == pow10(b));
    } else {
        lemma_pow10_adds((a - 1) as nat, b);
        let x = pow10((a - 1) as nat);
        let y = pow10(b);
        assert(pow10(a) == 10 * x);
        assert((a + b - 1) as nat == (a - 1) as nat + b);
        assert(pow10(a + b) == 10 * (x * y));
        assert((10 * x) * y == 10 * (x * y)) by (nonlinear_arith);
        assert(pow10(a) * pow10(b) == (10 * x) * y);
        assert(pow10(a) * pow10(b) == pow10(a + b));
    }
}

pub proof fn lemma_scaled_pos(p: Price)
    requires
        p.multiplier >= 1,
        p.decimals <= MAX_DECIMALS,
    ensures
        scaled(p) >= 1,
{
    let e = (MAX_DECIMALS - p.decimals) as nat;
    lemma_pow10_monotone(0, e);
    lemma_mul_inequality(1, p.multiplier as int, pow10(e) as int);
}

pub proof fn lemma_valid_wf(p: Price)
    requires
        valid_price(p),
    ensures
        wf_price(p),
{
    let e = (MAX_DECIMALS - p.decimals) as nat;
    lemma_pow10_monotone(e, MAX_DECIMALS as nat);
    lemma_pow10_cap();
    lemma_mul_upper_bound(
        p.multiplier as int,
        MAX_MULTIPLIER as int,
        pow10(e) as int,
        1_000_000_000_000_000_000,
    );
}

/// Relates the mantissa of a price rescaled to `d` decimals back to
/// its canonical value.
pub proof fn lemma_scaled_at(p: Price, d: u8)
    requires
        p.decimals <= d <= MAX_DECIMALS,
    ensures
        (p.multiplier * pow10((d - p.decimals) as nat)) * pow10((MAX_DECIMALS - d) as nat)
            == scaled(p),
{
    lemma_pow10_adds((d - p.decimals) as nat, (MAX_DECIMALS - d) as nat);
    lemma_mul_is_associative(
        p.multiplier as int,
        pow10((d - p.decimals) as nat) as int,
        pow10((MAX_DECIMALS - d) as nat) as int,
    );
}

pub fn pow10_exec(e: u8) -> (r: u128)
    requires
        e <= MAX_DECIMALS,
    ensures
        r == pow10(e as nat),
{
    let mut r: u128 = 1;
    let mut i: u8 = 0;
    while i < e
        invariant
            i <= e <= MAX_DECIMALS,
            r == pow10(i as nat),
        decreases e - i,
    {
        proof {
            lemma_pow10_monotone((i + 1) as nat, MAX_DECIMALS as nat);
            lemma_pow10_cap();
        }
        r = r * 10;
        i = i + 1;
    }
    r
}

pub fn scaled_exec(p: &Price) -> (r: u128)
    requires
        wf_price(*p),
    ensures
        r as int == scaled(*p),
        1 <= r <= SCALED_LIMIT,
{
    proof {
        lemma_scaled_pos(*p);
    }
    let f = pow10_exec(MAX_DECIMALS - p.decimals);
    p.multiplier * f
}

pub fn is_valid_price(p: &Price) -> (b: bool)
    ensures
        b == valid_price(*p),
{
    p.multiplier >= 1 && p.multiplier <= MAX_MULTIPLIER && p.decimals <= MAX_DECIMALS
}

/// Total order on prices: ascending canonical value, with the raw
/// fields as a deterministic tiebreak among equal values.
pub open spec fn le_price(a: Price, b: Price) -> bool {
    ||| scaled(a) < scaled(b)
    ||| (scaled(a) == scaled(b) && a.multiplier < b.multiplier)
    ||| (scaled(a) == scaled(b) && a.multiplier == b.multiplier && a.decimals <= b.decimals)
}

pub open spec fn price_leq() -> spec_fn(Price, Price) -> bool {
    |a: Price, b: Price| le_price(a, b)
}

pub proof fn lemma_price_leq_total()
    ensures
        total_ordering(price_leq()),
{
    let leq = price_leq();
    assert forall|a: Price, b: Price| #[trigger] leq(a, b) && #[trigger] leq(b, a) implies a
        == b by {
        assert(a.multiplier == b.multiplier && a.decimals == b.decimals);
    }
    assert forall|a: Price, b: Price| #[trigger] leq(a, b) || #[trigger] leq(b, a) by {}
}

pub fn price_le_exec(a: &Price, b: &Price) -> (r: bool)
    requires
        wf_price(*a),
        wf_price(*b),
    ensures
        r == le_price(*a, *b),
{
    let sa = scaled_exec(a);
    let sb = scaled_exec(b);
    if sa < sb {
        true
    } else if sa > sb {
        false
    } else if a.multiplier < b.multiplier {
        true
    } else if a.multiplier > b.multiplier {
        false
    } else {
        a.decimals <= b.decimals
    }
}

/// The arithmetic mean of two prices, taken at the finer of the two
/// precisions, any fractional remainder truncated toward zero.
pub open spec fn mean_price(a: Price, b: Price) -> Price {
    let d = if a.decimals >= b.decimals {
        a.decimals
    } else {
        b.decimals
    };
    let ma = a.multiplier * pow10((d - a.decimals) as nat);
    let mb = b.multiplier * pow10((d - b.decimals) as nat);
    Price { multiplier: (((ma + mb) / 2) as u128), decimals: d }
}

pub fn mean_exec(a: &Price, b: &Price) -> (r: Price)
    requires
        valid_price(*a),
        valid_price(*b),
    ensures
        r == mean_price(*a, *b),
        wf_price(r),
        2 * scaled(r) <= scaled(*a) + scaled(*b) < 2 * scaled(r) + 2 * pow10(
            (MAX_DECIMALS - r.decimals) as nat,
        ),
{
    let d = if a.decimals >= b.decimals {
        a.decimals
    } else {
        b.decimals
    };
    let fa = pow10_exec(d - a.decimals);
    let fb = pow10_exec(d - b.decimals);
    proof {
        lemma_valid_wf(*a);
        lemma_valid_wf(*b);
        lemma_pow10_monotone((d - a.decimals) as nat, MAX_DECIMALS as nat);
        lemma_pow10_monotone((d - b.decimals) as nat, MAX_DECIMALS as nat);
        lemma_pow10_cap();
        lemma_mul_upper_bound(
            a.multiplier as int,
            MAX_MULTIPLIER as int,
            fa as int,
            1_000_000_000_000_000_000,
        );
        lemma_mul_upper_bound(
            b.multiplier as int,
            MAX_MULTIPLIER as int,
            fb as int,
            1_000_000_000_000_000_000,
        );
        lemma_scaled_pos(*a);
        lemma_scaled_pos(*b);
        lemma_mul_inequality(1, a.multiplier as int, fa as int);
        lemma_mul_inequality(1, b.multiplier as int, fb as int);
        lemma_pow10_monotone(0, (d - a.decimals) as nat);
        lemma_pow10_monotone(0, (d - b.decimals) as nat);
    }
    let ma = a.multiplier * fa;
    let mb = b.multiplier * fb;
    let m = (ma + mb) / 2;
    let r = Price { multiplier: m, decimals: d };
    proof {
        let e = (MAX_DECIMALS - d) as nat;
        lemma_scaled_at(*a, d);
        lemma_scaled_at(*b, d);
        let mx = if ma >= mb {
            ma
        } else {
            mb
        };
        lemma_mul_inequality(m as int, mx as int, pow10(e) as int);
        lemma_pow10_monotone(0, e);
        // relate the truncated mean at scale d to the canonical values
        assert((ma + mb) as int == (2 * (m as int) + ((ma + mb) as int % 2)));
        vstd::arithmetic::mul::lemma_mul_is_distributive_add_other_way(
            pow10(e) as int,
            ma as int,
            mb as int,
        );
        assert(((scaled(*a) + scaled(*b)) == ((ma + mb) as int) * pow10(e)));
        assert((2 * (m as int) + ((ma + mb) as int % 2)) * pow10(e) == 2 * ((m as int) * pow10(
            e,
        )) + ((ma + mb) as int % 2) * pow10(e)) by (nonlinear_arith);
        lemma_mul_inequality(((ma + mb) as int % 2), 1, pow10(e) as int);
    }
    r
}

} // verus!
