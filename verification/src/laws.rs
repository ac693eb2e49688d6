//! The engine's aggregate guarantees, stated and proved once over the
//! model that the executable contracts speak of.

use crate::asset::{
    dt_seconds, ema_step, fresh, fresh_prices, has_reporter, median_seq, reporter_at,
    upsert_report, EmaEntry, ReportV,
};
use crate::math::{blend, lemma_blend_between, lemma_blend_gap, lemma_blend_zero};
use crate::price::{
    lemma_price_leq_total, lemma_scaled_pos, lemma_valid_wf, mean_price, price_leq, scaled,
    valid_price, wf_price, Price, SCALED_LIMIT,
};
use vstd::prelude::*;
use vstd::relations::sorted_by;
use vstd::seq_lib::lemma_sorted_unique;

verus! {

/// For an odd number of prices, the median is the middle element of
/// any ascending numeric sort of them.
pub proof fn lemma_median_odd(ps: Seq<Price>, t: Seq<Price>)
    requires
        t.to_multiset() == ps.to_multiset(),
        sorted_by(t, price_leq()),
        ps.len() % 2 == 1,
    ensures
        median_seq(ps) == Some(t[ps.len() as int / 2]),
{
    lemma_price_leq_total();
    ps.lemma_sort_by_ensures(price_leq());
    lemma_sorted_unique(t, ps.sort_by(price_leq()), price_leq());
}

/// For an even, nonzero number of prices, the median is the truncated
/// mean of the two central elements of any ascending numeric sort.
pub proof fn lemma_median_even(ps: Seq<Price>, t: Seq<Price>)
    requires
        t.to_multiset() == ps.to_multiset(),
        sorted_by(t, price_leq()),
        ps.len() % 2 == 0,
        ps.len() > 0,
    ensures
        median_seq(ps) == Some(mean_price(t[ps.len() as int / 2 - 1], t[ps.len() as int / 2])),
{
    lemma_price_leq_total();
    ps.lemma_sort_by_ensures(price_leq());
    lemma_sorted_unique(t, ps.sort_by(price_leq()), price_leq());
}

/// Names the freshness test so that one closure value serves both the
/// statement and the proof of the filter law below.
pub open spec fn is_fresh_at(now: u64, recency_sec: u32) -> spec_fn(ReportV) -> bool {
    |r: ReportV| fresh(r.timestamp, now, recency_sec)
}

pub open spec fn price_of() -> spec_fn(ReportV) -> Price {
    |r: ReportV| r.price
}

/// The median pool holds exactly the prices of the reports fresh at
/// the query time, in ledger order: a report older than the recency
/// window contributes nothing, every other report contributes its
/// price.
pub proof fn lemma_fresh_prices_are_filter(s: Seq<ReportV>, now: u64, recency_sec: u32)
    ensures
        fresh_prices(s, now, recency_sec) == s.filter(is_fresh_at(now, recency_sec)).map_values(
            price_of(),
        ),
    decreases s.len(),
{
    reveal(Seq::filter);
    let f = is_fresh_at(now, recency_sec);
    let g = price_of();
    if s.len() == 0 {
        assert(fresh_prices(s, now, recency_sec) =~= s.filter(f).map_values(g));
    } else {
        lemma_fresh_prices_are_filter(s.drop_last(), now, recency_sec);
        let rest = s.drop_last();
        if f(s.last()) {
            assert(s.filter(f) == rest.filter(f).push(s.last()));
            assert(s.filter(f).map_values(g) =~= rest.filter(f).map_values(g).push(
                s.last().price,
            ));
        } else {
            assert(s.filter(f) == rest.filter(f));
        }
        assert(fresh_prices(s, now, recency_sec) =~= s.filter(f).map_values(g));
    }
}

/// A ledger whose reports are all stale at the query time yields an
/// empty median pool, and so no consensus price at all.
pub proof fn lemma_all_stale_yields_none(s: Seq<ReportV>, now: u64, recency_sec: u32)
    requires
        forall|i: int| 0 <= i < s.len() ==> !fresh((#[trigger] s[i]).timestamp, now, recency_sec),
    ensures
        fresh_prices(s, now, recency_sec).len() == 0,
        median_seq(fresh_prices(s, now, recency_sec)) is None,
    decreases s.len(),
{
    if s.len() > 0 {
        assert(forall|i: int|
            0 <= i < s.len() - 1 ==> (#[trigger] s.drop_last()[i]) == s[i]);
        lemma_all_stale_yields_none(s.drop_last(), now, recency_sec);
    }
}

/// After an upsert there is exactly one live report carrying the
/// submitting reporter's identity, and it is the new report; no other
/// reporter's entry moves.
pub proof fn lemma_single_report_per_reporter(s: Seq<ReportV>, r: ReportV)
    requires
        forall|i: int, j: int|
            #![trigger s[i].reporter, s[j].reporter]
            0 <= i < j < s.len() ==> s[i].reporter != s[j].reporter,
    ensures
        ({
            let t = upsert_report(s, r);
            &&& has_reporter(t, r.reporter)
            &&& forall|i: int|
                0 <= i < t.len() && (#[trigger] t[i]).reporter == r.reporter ==> t[i] == r
            &&& forall|i: int, j: int|
                #![trigger t[i].reporter, t[j].reporter]
                0 <= i < j < t.len() ==> t[i].reporter != t[j].reporter
            &&& forall|i: int|
                0 <= i < t.len() && (#[trigger] t[i]).reporter != r.reporter ==> exists|k: int|
                    0 <= k < s.len() && s[k] == t[i]
        }),
{
    let t = upsert_report(s, r);
    if has_reporter(s, r.reporter) {
        let k = reporter_at(s, r.reporter);
        assert(0 <= k < s.len() && s[k].reporter == r.reporter);
        assert(t == s.update(k, r));
        assert(t[k] == r);
        assert(has_reporter(t, r.reporter));
        assert forall|i: int|
            0 <= i < t.len() && (#[trigger] t[i]).reporter == r.reporter implies t[i] == r by {
            if i != k {
                assert(t[i] == s[i]);
                if i < k {
                    assert(s[i].reporter != s[k].reporter);
                } else {
                    assert(s[k].reporter != s[i].reporter);
                }
            }
        }
        assert forall|i: int, j: int|
            #![trigger t[i].reporter, t[j].reporter]
            0 <= i < j < t.len() implies t[i].reporter != t[j].reporter by {
            assert(t[i].reporter == s[i].reporter);
            assert(t[j].reporter == s[j].reporter);
            assert(s[i].reporter != s[j].reporter);
        }
        assert forall|i: int|
            0 <= i < t.len() && (#[trigger] t[i]).reporter != r.reporter implies exists|kk: int|
                0 <= kk < s.len() && s[kk] == t[i] by {
            assert(t[i] == s[i]);
        }
    } else {
        assert(t == s.push(r));
        assert(t[s.len() as int] == r);
        assert(has_reporter(t, r.reporter));
        assert forall|i: int|
            0 <= i < t.len() && (#[trigger] t[i]).reporter == r.reporter implies t[i] == r by {
            if i < s.len() {
                assert(s[i].reporter != r.reporter);
            }
        }
        assert forall|i: int, j: int|
            #![trigger t[i].reporter, t[j].reporter]
            0 <= i < j < t.len() implies t[i].reporter != t[j].reporter by {
            if j < s.len() {
                assert(s[i].reporter != s[j].reporter);
            } else {
                assert(t[j] == r);
                assert(s[i].reporter != r.reporter);
            }
        }
        assert forall|i: int|
            0 <= i < t.len() && (#[trigger] t[i]).reporter != r.reporter implies exists|kk: int|
                0 <= kk < s.len() && s[kk] == t[i] by {
            assert(t[i] == s[i]);
        }
    }
}

/// One smoothing step moves the stored value toward the observation
/// and never past it, so repeated reports of one constant price
/// approach that constant monotonically from the initial value.
pub proof fn lemma_ema_step_approaches(e: EmaEntry, p: Price, ts: u64)
    requires
        wf_price(e.price),
        valid_price(p),
    ensures
        ({
            let v2 = scaled(ema_step(e, p, ts).price);
            &&& scaled(e.price) <= scaled(p) ==> scaled(e.price) <= v2 <= scaled(p)
            &&& scaled(p) <= scaled(e.price) ==> scaled(p) <= v2 <= scaled(e.price)
        }),
{
    lemma_valid_wf(p);
    lemma_scaled_pos(p);
    lemma_scaled_pos(e.price);
    let o = scaled(e.price);
    let sp = scaled(p);
    let num = dt_seconds(e.last_update, ts);
    let den = num + e.window_sec as int;
    if ts > e.last_update {
        vstd::arithmetic::div_mod::lemma_div_by_multiple(0, 1_000_000_000);
        vstd::arithmetic::div_mod::lemma_div_is_ordered(
            0,
            ts - e.last_update,
            1_000_000_000,
        );
    }
    assert(num >= 0);
    let b = blend(o, sp, num, den);
    if den <= 0 {
        assert(b == sp);
    } else {
        lemma_blend_between(o, sp, num, den);
    }
    assert(1 <= b <= SCALED_LIMIT as int);
    assert(crate::price::pow10(0) == 1);
    assert(scaled(ema_step(e, p, ts).price) == b * crate::price::pow10(0));
    assert(scaled(ema_step(e, p, ts).price) == b);
}

/// The exact size of one smoothing move toward a higher observation:
/// the stored value gains the truncated share `dt / (dt + window)` of
/// the gap, so repeated reports at intervals of at least the window
/// length halve the remaining gap or better, driving the smoothed
/// value toward a constant observation.
pub proof fn lemma_ema_step_gap(e: EmaEntry, p: Price, ts: u64)
    requires
        wf_price(e.price),
        valid_price(p),
        scaled(e.price) <= scaled(p),
    ensures
        ({
            let num = dt_seconds(e.last_update, ts);
            let den = num + e.window_sec as int;
            den >= 1 ==> scaled(ema_step(e, p, ts).price) == scaled(e.price) + (scaled(p) - scaled(
                e.price,
            )) * num / den
        }),
{
    lemma_valid_wf(p);
    lemma_scaled_pos(p);
    lemma_scaled_pos(e.price);
    let o = scaled(e.price);
    let sp = scaled(p);
    let num = dt_seconds(e.last_update, ts);
    let den = num + e.window_sec as int;
    if ts > e.last_update {
        vstd::arithmetic::div_mod::lemma_div_by_multiple(0, 1_000_000_000);
        vstd::arithmetic::div_mod::lemma_div_is_ordered(0, ts - e.last_update, 1_000_000_000);
    }
    assert(num >= 0);
    if den >= 1 {
        lemma_blend_between(o, sp, num, den);
        lemma_blend_gap(o, sp, num, den);
        let b = blend(o, sp, num, den);
        assert(1 <= b <= SCALED_LIMIT as int);
        assert(crate::price::pow10(0) == 1);
        assert(scaled(ema_step(e, p, ts).price) == b * crate::price::pow10(0));
        assert(b * crate::price::pow10(0) == b) by (nonlinear_arith)
            requires
                crate::price::pow10(0) == 1,
        ;
    }
}

/// The smoothing clock never moves backward; a report dated at or
/// before the last update is absorbed with a zero-length interval, so
/// for a nonzero window it leaves the smoothed value unchanged.
pub proof fn lemma_ema_clock_monotone(e: EmaEntry, p: Price, ts: u64)
    requires
        wf_price(e.price),
        valid_price(p),
    ensures
        ema_step(e, p, ts).last_update == if ts >= e.last_update {
            ts
        } else {
            e.last_update
        },
        ema_step(e, p, ts).last_update >= e.last_update,
        ts <= e.last_update && e.window_sec >= 1 ==> scaled(ema_step(e, p, ts).price) == scaled(
            e.price,
        ),
{
    lemma_scaled_pos(e.price);
    if ts <= e.last_update && e.window_sec >= 1 {
        let o = scaled(e.price);
        let sp = scaled(p);
        assert(dt_seconds(e.last_update, ts) == 0);
        lemma_blend_zero(o, sp, e.window_sec as int);
        assert(blend(o, sp, 0, 0 + e.window_sec as int) == o);
        assert(1 <= o <= SCALED_LIMIT as int);
        assert(crate::price::pow10(0) == 1);
        assert(scaled(ema_step(e, p, ts).price) == o * crate::price::pow10(0));
        assert(scaled(ema_step(e, p, ts).price) == o);
    }
}

} // verus!
