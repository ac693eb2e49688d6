//! Per-asset state: the report ledger and the smoothed-price states.
//!
//! An asset keeps the latest report of each reporter (at most one live
//! report per reporter) and one EMA state per window length requested
//! so far.  The consensus price of an asset is the median of the
//! canonical values of its fresh reports; the smoothed price of a
//! window is updated on every accepted report.

use crate::ids::{bytes_eq, clone_bytes};
use crate::math::{blend, blend_exec};
use crate::price::{
    le_price, lemma_price_leq_total, lemma_scaled_pos, lemma_valid_wf, mean_exec, mean_price,
    pow10, price_le_exec, price_leq, scaled, scaled_exec, valid_price, wf_price, Price,
    MAX_DECIMALS,
};
use vstd::arithmetic::div_mod::lemma_fundamental_div_mod;
use vstd::prelude::*;
use vstd::relations::sorted_by;
use vstd::seq_lib::lemma_multiset_commutative;
use vstd::seq_lib::lemma_sorted_unique;

verus! {

pub const NANOS_PER_SEC: u64 = 1_000_000_000;

/// One reporter's latest timestamped observation for one asset.
pub struct Report {
    pub reporter: Vec<u8>,
    pub timestamp: u64,
    pub price: Price,
}

#[verifier::ext_equal]
pub ghost struct ReportV {
    pub reporter: Seq<u8>,
    pub timestamp: u64,
    pub price: Price,
}

impl View for Report {
    type V = ReportV;

    open spec fn view(&self) -> ReportV {
        ReportV { reporter: self.reporter@, timestamp: self.timestamp, price: self.price }
    }
}

/// Smoothed-price state for one (asset, window) pair.
#[derive(Clone, Copy, PartialEq, Eq, Structural, Debug)]
pub struct EmaEntry {
    pub window_sec: u32,
    pub price: Price,
    pub last_update: u64,
}

/// Everything the engine stores about one asset.
pub struct Asset {
    pub reports: Vec<Report>,
    pub emas: Vec<EmaEntry>,
}

#[verifier::ext_equal]
pub ghost struct AssetV {
    pub reports: Seq<ReportV>,
    pub emas: Seq<EmaEntry>,
}

pub open spec fn reports_view(s: Seq<Report>) -> Seq<ReportV> {
    s.map_values(|r: Report| r@)
}

impl View for Asset {
    type V = AssetV;

    open spec fn view(&self) -> AssetV {
        AssetV { reports: reports_view(self.reports@), emas: self.emas@ }
    }
}

pub open spec fn empty_asset() -> AssetV {
    AssetV { reports: Seq::empty(), emas: Seq::empty() }
}

/// Internal shape of an asset: stored report prices were accepted by
/// validation, reporters and windows are unique, smoothed prices are
/// within canonical bounds.
pub open spec fn wf_asset(a: AssetV) -> bool {
    &&& forall|i: int| 0 <= i < a.reports.len() ==> valid_price(#[trigger] a.reports[i].price)
    &&& forall|i: int, j: int|
        #![trigger a.reports[i].reporter, a.reports[j].reporter]
        0 <= i < j < a.reports.len() ==> a.reports[i].reporter != a.reports[j].reporter
    &&& forall|i: int| 0 <= i < a.emas.len() ==> wf_price(#[trigger] a.emas[i].price)
    &&& forall|i: int, j: int|
        #![trigger a.emas[i].window_sec, a.emas[j].window_sec]
        0 <= i < j < a.emas.len() ==> a.emas[i].window_sec != a.emas[j].window_sec
}

// ---------------------------------------------------------------------------
// Recency filter and median reducer
// ---------------------------------------------------------------------------

/// A report is fresh iff its age at `now` is at most the recency
/// window; reports from the future count as fresh.
pub open spec fn fresh(ts: u64, now: u64, recency_sec: u32) -> bool {
    now - ts <= recency_sec * (NANOS_PER_SEC as int)
}

/// The prices of the fresh reports, in ledger order.
pub open spec fn fresh_prices(s: Seq<ReportV>, now: u64, recency_sec: u32) -> Seq<Price>
    decreases s.len(),
{
    if s.len() == 0 {
        Seq::empty()
    } else {
        let rest = fresh_prices(s.drop_last(), now, recency_sec);
        if fresh(s.last().timestamp, now, recency_sec) {
            rest.push(s.last().price)
        } else {
            rest
        }
    }
}

/// The median of a set of prices: the middle of the ascending numeric
/// sort for an odd count, the truncated mean of the two central values
/// for an even count, nothing for an empty set.
pub open spec fn median_seq(ps: Seq<Price>) -> Option<Price> {
    if ps.len() == 0 {
        None
    } else {
        let t = ps.sort_by(price_leq());
        if ps.len() % 2 == 1 {
            Some(t[ps.len() as int / 2])
        } else {
            Some(mean_price(t[ps.len() as int / 2 - 1], t[ps.len() as int / 2]))
        }
    }
}

// ---------------------------------------------------------------------------
// EMA tracker
// ---------------------------------------------------------------------------

/// Elapsed whole seconds between the last update and a report's
/// timestamp; a report at or before the last update counts as zero.
pub open spec fn dt_seconds(last_update: u64, ts: u64) -> int {
    if ts <= last_update {
        0
    } else {
        (ts - last_update) / (NANOS_PER_SEC as int)
    }
}

/// One smoothing step: the state absorbs a report with decay weight
/// `dt / (dt + window)` on the observation, and the clock advances to
/// the report's timestamp but never moves backward.
pub open spec fn ema_step(e: EmaEntry, p: Price, ts: u64) -> EmaEntry {
    let num = dt_seconds(e.last_update, ts);
    let den = num + e.window_sec;
    EmaEntry {
        window_sec: e.window_sec,
        price: Price {
            multiplier: blend(scaled(e.price), scaled(p), num, den) as u128,
            decimals: MAX_DECIMALS,
        },
        last_update: if ts >= e.last_update {
            ts
        } else {
            e.last_update
        },
    }
}

pub open spec fn ema_all(emas: Seq<EmaEntry>, p: Price, ts: u64) -> Seq<EmaEntry> {
    emas.map_values(|e: EmaEntry| ema_step(e, p, ts))
}

pub open spec fn has_window(emas: Seq<EmaEntry>, w: u32) -> bool {
    exists|i: int| 0 <= i < emas.len() && (#[trigger] emas[i].window_sec) == w
}

pub open spec fn window_at(emas: Seq<EmaEntry>, w: u32) -> int {
    choose|i: int| 0 <= i < emas.len() && (#[trigger] emas[i].window_sec) == w
}

/// The smoothed price currently recorded for a window, if any report
/// has ever referenced that window.
pub open spec fn ema_value(emas: Seq<EmaEntry>, w: u32) -> Option<Price> {
    if has_window(emas, w) {
        Some(emas[window_at(emas, w)].price)
    } else {
        None
    }
}

/// The EMA states after a report for this asset: every existing state
/// absorbs the report; a requested window not seen before gains a
/// state initialized from the report itself.
pub open spec fn emas_after(emas: Seq<EmaEntry>, req: Option<u32>, p: Price, ts: u64) -> Seq<
    EmaEntry,
> {
    let upd = ema_all(emas, p, ts);
    match req {
        Option::None => upd,
        Option::Some(w) => if has_window(emas, w) {
            upd
        } else {
            upd.push(EmaEntry { window_sec: w, price: p, last_update: ts })
        },
    }
}

// ---------------------------------------------------------------------------
// Ledger model
// ---------------------------------------------------------------------------

pub open spec fn has_reporter(s: Seq<ReportV>, id: Seq<u8>) -> bool {
    exists|i: int| 0 <= i < s.len() && (#[trigger] s[i].reporter) == id
}

pub open spec fn reporter_at(s: Seq<ReportV>, id: Seq<u8>) -> int {
    choose|i: int| 0 <= i < s.len() && (#[trigger] s[i].reporter) == id
}

/// Last-write-wins ledger discipline: a new report replaces the same
/// reporter's entry in place, or is appended for a new reporter.
pub open spec fn upsert_report(s: Seq<ReportV>, r: ReportV) -> Seq<ReportV> {
    if has_reporter(s, r.reporter) {
        s.update(reporter_at(s, r.reporter), r)
    } else {
        s.push(r)
    }
}

/// The whole effect of one accepted report on one asset.
pub open spec fn asset_step(a: AssetV, r: ReportV, req: Option<u32>) -> AssetV {
    AssetV {
        reports: upsert_report(a.reports, r),
        emas: emas_after(a.emas, req, r.price, r.timestamp),
    }
}

pub fn ema_step_exec(e: &EmaEntry, p: &Price, ts: u64) -> (r: EmaEntry)
    requires
        wf_price(e.price),
        valid_price(*p),
    ensures
        r == ema_step(*e, *p, ts),
        wf_price(r.price),
{
    proof {
        lemma_valid_wf(*p);
        lemma_scaled_pos(*p);
        lemma_scaled_pos(e.price);
    }
    let sp = scaled_exec(p);
    let dt_ns: u64 = if ts > e.last_update {
        ts - e.last_update
    } else {
        0
    };
    let num: u64 = dt_ns / NANOS_PER_SEC;
    proof {
        lemma_fundamental_div_mod(dt_ns as int, NANOS_PER_SEC as int);
        assert(num as int == dt_seconds(e.last_update, ts));
    }
    let den: u64 = num + (e.window_sec as u64);
    let last2: u64 = if ts >= e.last_update {
        ts
    } else {
        e.last_update
    };
    if den == 0 {
        let r = EmaEntry {
            window_sec: e.window_sec,
            price: Price { multiplier: sp, decimals: MAX_DECIMALS },
            last_update: last2,
        };
        proof {
            assert(pow10(0) == 1);
            assert(scaled(r.price) == sp as int * 1);
        }
        r
    } else {
        let so = scaled_exec(&e.price);
        let s = blend_exec(so, sp, num, den);
        let r = EmaEntry {
            window_sec: e.window_sec,
            price: Price { multiplier: s, decimals: MAX_DECIMALS },
            last_update: last2,
        };
        proof {
            assert(pow10(0) == 1);
            assert(scaled(r.price) == s as int * 1);
        }
        r
    }
}

fn find_reporter_idx(reports: &Vec<Report>, reporter: &Vec<u8>) -> (r: Option<usize>)
    ensures
        match r {
            Some(i) => i < reports@.len() && reports_view(reports@)[i as int].reporter
                == reporter@,
            None => !has_reporter(reports_view(reports@), reporter@),
        },
{
    let mut i: usize = 0;
    while i < reports.len()
        invariant
            i <= reports@.len(),
            forall|j: int| 0 <= j < i ==> reports_view(reports@)[j].reporter != reporter@,
        decreases reports@.len() - i,
    {
        if bytes_eq(&reports[i].reporter, reporter) {
            return Some(i);
        }
        i = i + 1;
    }
    None
}

fn find_window_idx(emas: &Vec<EmaEntry>, w: u32) -> (r: Option<usize>)
    ensures
        match r {
            Some(i) => i < emas@.len() && emas@[i as int].window_sec == w,
            None => !has_window(emas@, w),
        },
{
    let mut i: usize = 0;
    while i < emas.len()
        invariant
            i <= emas@.len(),
            forall|j: int| 0 <= j < i ==> (#[trigger] emas@[j].window_sec) != w,
        decreases emas@.len() - i,
    {
        if emas[i].window_sec == w {
            return Some(i);
        }
        i = i + 1;
    }
    None
}

pub fn is_fresh_exec(ts: u64, now: u64, recency_sec: u32) -> (r: bool)
    ensures
        r == fresh(ts, now, recency_sec),
{
    if ts >= now {
        true
    } else {
        now - ts <= (recency_sec as u64) * NANOS_PER_SEC
    }
}

proof fn lemma_to_multiset_insert<A>(s: Seq<A>, i: int, x: A)
    requires
        0 <= i <= s.len(),
    ensures
        s.insert(i, x).to_multiset() == s.to_multiset().insert(x),
{
    broadcast use vstd::seq_lib::group_to_multiset_ensures;
    broadcast use vstd::multiset::group_multiset_axioms;

    let pre = s.subrange(0, i);
    let post = s.subrange(i, s.len() as int);
    lemma_multiset_commutative(pre.push(x), post);
    lemma_multiset_commutative(pre, post);
    assert(s =~= pre + post);
    assert(pre.push(x).to_multiset() =~= pre.to_multiset().insert(x));
    assert(s.insert(i, x).to_multiset() =~= s.to_multiset().insert(x));
}

fn insert_pos(out: &Vec<Price>, x: &Price) -> (pos: usize)
    requires
        wf_price(*x),
        forall|k: int| 0 <= k < out@.len() ==> wf_price(#[trigger] out@[k]),
    ensures
        pos <= out@.len(),
        forall|k: int| 0 <= k < pos ==> le_price(#[trigger] out@[k], *x),
        pos < out@.len() ==> !le_price(out@[pos as int], *x),
{
    let mut pos: usize = 0;
    while pos < out.len()
        invariant
            pos <= out@.len(),
            wf_price(*x),
            forall|k: int| 0 <= k < out@.len() ==> wf_price(#[trigger] out@[k]),
            forall|k: int| 0 <= k < pos ==> le_price(#[trigger] out@[k], *x),
        decreases out@.len() - pos,
    {
        if !price_le_exec(&out[pos], x) {
            return pos;
        }
        pos = pos + 1;
    }
    pos
}

/// Sorts prices ascending by canonical value (with the deterministic
/// tiebreak of `le_price`), by insertion into a fresh vector.
fn sort_prices(v: Vec<Price>) -> (out: Vec<Price>)
    requires
        forall|k: int| 0 <= k < v@.len() ==> wf_price(#[trigger] v@[k]),
    ensures
        out@ == v@.sort_by(price_leq()),
{
    proof {
        lemma_price_leq_total();
        v@.lemma_sort_by_ensures(price_leq());
    }
    let ghost leq = price_leq();
    let mut out: Vec<Price> = Vec::new();
    let mut i: usize = 0;
    proof {
        broadcast use vstd::seq_lib::group_to_multiset_ensures;

        assert(v@.take(0int) =~= Seq::<Price>::empty());
        assert(out@.to_multiset() =~= v@.take(0int).to_multiset());
    }
    while i < v.len()
        invariant
            i <= v@.len(),
            forall|k: int| 0 <= k < v@.len() ==> wf_price(#[trigger] v@[k]),
            forall|k: int| 0 <= k < out@.len() ==> wf_price(#[trigger] out@[k]),
            sorted_by(out@, price_leq()),
            out@.to_multiset() == v@.take(i as int).to_multiset(),
        decreases v@.len() - i,
    {
        let x = v[i];
        let pos = insert_pos(&out, &x);
        let ghost prev = out@;
        out.insert(pos, x);
        proof {
            broadcast use vstd::seq_lib::group_to_multiset_ensures;

            lemma_price_leq_total();
            prev.insert_ensures(pos as int, x);
            lemma_to_multiset_insert(prev, pos as int, x);
            assert(v@.take(i + 1 as int).drop_last() =~= v@.take(i as int));
            assert(v@.take(i + 1 as int) =~= v@.take(i as int).push(v@[i as int]));
            assert(out@.to_multiset() == v@.take(i + 1 as int).to_multiset());
            let leq = price_leq();
            assert forall|a: int, b: int| 0 <= a < b < out@.len() implies #[trigger] leq(
                out@[a],
                out@[b],
            ) by {
                if b < pos {
                    assert(leq(prev[a], prev[b]));
                } else if b == pos {
                    assert(leq(prev[a], x));
                } else if a < pos {
                    assert(leq(prev[a], prev[b - 1]));
                } else if a == pos {
                    assert(leq(x, prev[pos as int]));
                    if (pos as int) < b - 1 {
                        assert(leq(prev[pos as int], prev[b - 1]));
                    }
                } else {
                    assert(leq(prev[a - 1], prev[b - 1]));
                }
            }
        }
        i = i + 1;
    }
    proof {
        assert(v@.take(v@.len() as int) =~= v@);
        lemma_sorted_unique(out@, v@.sort_by(price_leq()), price_leq());
    }
    out
}

impl Asset {
    pub fn new() -> (a: Asset)
        ensures
            a@ == empty_asset(),
            wf_asset(a@),
    {
        let a = Asset { reports: Vec::new(), emas: Vec::new() };
        proof {
            assert(a@ =~~= empty_asset());
        }
        a
    }

    /// A deep copy; the engine hands assets out by value.
    pub fn duplicate(&self) -> (r: Asset)
        ensures
            r@ == self@,
    {
        let mut reports: Vec<Report> = Vec::new();
        let mut i: usize = 0;
        while i < self.reports.len()
            invariant
                i <= self.reports@.len(),
                reports_view(reports@) =~= reports_view(self.reports@).take(i as int),
            decreases self.reports@.len() - i,
        {
            let src = &self.reports[i];
            let copy = Report {
                reporter: clone_bytes(&src.reporter),
                timestamp: src.timestamp,
                price: src.price,
            };
            proof {
                assert(copy@ == self.reports@[i as int]@);
            }
            let ghost prev = reports@;
            reports.push(copy);
            proof {
                let rv = reports_view(self.reports@);
                assert(reports_view(reports@) =~= reports_view(prev).push(copy@));
                assert(rv.take(i + 1 as int) =~= rv.take(i as int).push(rv[i as int]));
                assert(reports_view(reports@) =~= rv.take(i + 1 as int));
            }
            i = i + 1;
        }
        let mut emas: Vec<EmaEntry> = Vec::new();
        let mut j: usize = 0;
        while j < self.emas.len()
            invariant
                j <= self.emas@.len(),
                emas@ =~= self.emas@.take(j as int),
            decreases self.emas@.len() - j,
        {
            emas.push(self.emas[j]);
            proof {
                assert(emas@ =~= self.emas@.take(j + 1 as int));
            }
            j = j + 1;
        }
        let r = Asset { reports, emas };
        proof {
            assert(reports_view(self.reports@).take(self.reports@.len() as int) =~= reports_view(
                self.reports@,
            ));
            assert(self.emas@.take(self.emas@.len() as int) =~= self.emas@);
            assert(r@ =~~= self@);
        }
        r
    }

    /// The consensus price over the reports fresh at `now`.
    pub fn median_price(&self, now: u64, recency_sec: u32) -> (r: Option<Price>)
        requires
            wf_asset(self@),
        ensures
            r == median_seq(fresh_prices(self@.reports, now, recency_sec)),
    {
        let ghost rs = self@.reports;
        let mut vals: Vec<Price> = Vec::new();
        let mut i: usize = 0;
        proof {
            assert(rs.take(0int) =~= Seq::<ReportV>::empty());
        }
        while i < self.reports.len()
            invariant
                i <= self.reports@.len(),
                rs == self@.reports,
                wf_asset(self@),
                vals@ == fresh_prices(rs.take(i as int), now, recency_sec),
                forall|k: int| 0 <= k < vals@.len() ==> valid_price(#[trigger] vals@[k]),
            decreases self.reports@.len() - i,
        {
            proof {
                assert(rs.take(i + 1 as int).drop_last() =~= rs.take(i as int));
                assert(rs.take(i + 1 as int).last() == rs[i as int]);
                lemma_valid_wf(rs[i as int].price);
            }
            let rep = &self.reports[i];
            if is_fresh_exec(rep.timestamp, now, recency_sec) {
                vals.push(rep.price);
            }
            i = i + 1;
        }
        let ghost ps = fresh_prices(rs, now, recency_sec);
        proof {
            assert(rs.take(rs.len() as int) =~= rs);
            assert(vals@ == ps);
        }
        let n = vals.len();
        if n == 0 {
            return None;
        }
        proof {
            assert forall|k: int| 0 <= k < vals@.len() implies wf_price(#[trigger] vals@[k]) by {
                lemma_valid_wf(vals@[k]);
            }
            lemma_price_leq_total();
            ps.lemma_sort_by_ensures(price_leq());
        }
        let sorted = sort_prices(vals);
        proof {
            broadcast use vstd::seq_lib::group_to_multiset_ensures;

            assert forall|k: int| 0 <= k < sorted@.len() implies valid_price(
                #[trigger] sorted@[k],
            ) by {
                assert(sorted@.to_multiset().count(sorted@[k]) > 0);
                assert(ps.contains(sorted@[k]));
                let j = choose|j: int| 0 <= j < ps.len() && ps[j] == sorted@[k];
                assert(valid_price(ps[j]));
            }
        }
        proof {
            broadcast use vstd::seq_lib::group_to_multiset_ensures;

            assert(sorted@.len() == sorted@.to_multiset().len());
            assert(ps.len() == ps.to_multiset().len());
            assert(sorted@.len() == ps.len());
        }
        if n % 2 == 1 {
            Some(sorted[n / 2])
        } else {
            let a = sorted[n / 2 - 1];
            let b = sorted[n / 2];
            Some(mean_exec(&a, &b))
        }
    }

    /// The smoothed price stored for a window, if any report has ever
    /// referenced that (asset, window) pair.
    pub fn ema_price(&self, w: u32) -> (r: Option<Price>)
        requires
            wf_asset(self@),
        ensures
            r == ema_value(self@.emas, w),
    {
        match find_window_idx(&self.emas, w) {
            Some(i) => {
                proof {
                    assert(has_window(self@.emas, w));
                    let j = window_at(self@.emas, w);
                    assert(0 <= j < self@.emas.len() && self@.emas[j].window_sec == w);
                    if j < i as int {
                        assert(self@.emas[j].window_sec != self@.emas[i as int].window_sec);
                    }
                    if (i as int) < j {
                        assert(self@.emas[i as int].window_sec != self@.emas[j].window_sec);
                    }
                }
                Some(self.emas[i].price)
            },
            None => None,
        }
    }

    /// Stores or replaces this reporter's entry.
    pub fn add_report(&mut self, r: Report)
        requires
            wf_asset(old(self)@),
            valid_price(r.price),
        ensures
            wf_asset(final(self)@),
            final(self)@.reports == upsert_report(old(self)@.reports, r@),
            final(self)@.emas == old(self)@.emas,
    {
        let ghost rs = reports_view(self.reports@);
        proof {
            assert(rs == old(self)@.reports);
        }
        match find_reporter_idx(&self.reports, &r.reporter) {
            Some(i) => {
                proof {
                    assert(has_reporter(rs, r@.reporter));
                    let j = reporter_at(rs, r@.reporter);
                    assert(0 <= j < rs.len() && rs[j].reporter == r@.reporter);
                    if j < i as int {
                        assert(rs[j].reporter != rs[i as int].reporter);
                    }
                    if (i as int) < j {
                        assert(rs[i as int].reporter != rs[j].reporter);
                    }
                    assert(j == i as int);
                }
                let ghost prev = self.reports@;
                self.reports.set(i, r);
                proof {
                    let s0 = reports_view(prev);
                    let s1 = reports_view(self.reports@);
                    assert(s1 =~= s0.update(i as int, r@));
                    assert(s1 == upsert_report(rs, r@));
                    assert forall|k: int| 0 <= k < s1.len() implies valid_price(
                        #[trigger] s1[k].price,
                    ) by {
                        if k != i as int {
                            assert(valid_price(s0[k].price));
                        }
                    }
                    assert forall|a: int, b: int|
                        #![trigger s1[a].reporter, s1[b].reporter]
                        0 <= a < b < s1.len() implies s1[a].reporter != s1[b].reporter by {
                        assert(s1[a].reporter == s0[a].reporter);
                        assert(s1[b].reporter == s0[b].reporter);
                        assert(s0[a].reporter != s0[b].reporter);
                    }
                }
            },
            None => {
                let ghost prev = self.reports@;
                self.reports.push(r);
                proof {
                    let s0 = reports_view(prev);
                    let s1 = reports_view(self.reports@);
                    assert(s1 =~= s0.push(r@));
                    assert(s1 == upsert_report(rs, r@));
                    assert forall|k: int| 0 <= k < s1.len() implies valid_price(
                        #[trigger] s1[k].price,
                    ) by {
                        if k < s0.len() {
                            assert(valid_price(s0[k].price));
                        }
                    }
                    assert forall|a: int, b: int|
                        #![trigger s1[a].reporter, s1[b].reporter]
                        0 <= a < b < s1.len() implies s1[a].reporter != s1[b].reporter by {
                        if b < s0.len() {
                            assert(s0[a].reporter != s0[b].reporter);
                        } else {
                            assert(s1[b] == r@);
                            assert(s0[a].reporter != r@.reporter);
                        }
                    }
                }
            },
        }
        proof {
            assert(self@.emas == old(self)@.emas);
            assert(wf_asset(self@));
        }
    }

    /// Every existing EMA state absorbs one accepted report.
    pub fn update_emas(&mut self, p: Price, ts: u64)
        requires
            wf_asset(old(self)@),
            valid_price(p),
        ensures
            wf_asset(final(self)@),
            final(self)@.emas == ema_all(old(self)@.emas, p, ts),
            final(self)@.reports == old(self)@.reports,
    {
        let ghost orig = self.emas@;
        proof {
            assert(orig == old(self)@.emas);
            assert forall|j: int| 0 <= j < orig.len() implies wf_price(
                #[trigger] orig[j].price,
            ) by {
                assert(wf_price(old(self)@.emas[j].price));
            }
        }
        let mut i: usize = 0;
        while i < self.emas.len()
            invariant
                i <= self.emas@.len(),
                self.emas@.len() == orig.len(),
                self.reports == old(self).reports,
                wf_asset(old(self)@),
                valid_price(p),
                forall|j: int| 0 <= j < orig.len() ==> wf_price(#[trigger] orig[j].price),
                forall|j: int| i <= j < orig.len() ==> self.emas@[j] == orig[j],
                forall|j: int| 0 <= j < i ==> self.emas@[j] == ema_step(orig[j], p, ts),
                forall|j: int| 0 <= j < i ==> wf_price(#[trigger] self.emas@[j].price),
            decreases self.emas@.len() - i,
        {
            proof {
                assert(self.emas@[i as int] == orig[i as int]);
                assert(wf_price(orig[i as int].price));
            }
            let e = self.emas[i];
            let e2 = ema_step_exec(&e, &p, ts);
            self.emas.set(i, e2);
            i = i + 1;
        }
        proof {
            assert(self@.emas =~= ema_all(orig, p, ts));
            assert forall|a: int, b: int|
                #![trigger self@.emas[a].window_sec, self@.emas[b].window_sec]
                0 <= a < b < self@.emas.len() implies self@.emas[a].window_sec
                != self@.emas[b].window_sec by {
                assert(self@.emas[a].window_sec == orig[a].window_sec);
                assert(self@.emas[b].window_sec == orig[b].window_sec);
                assert(old(self)@.emas[a].window_sec != old(self)@.emas[b].window_sec);
            }
            assert forall|k: int| 0 <= k < self@.emas.len() implies wf_price(
                #[trigger] self@.emas[k].price,
            ) by {}
            assert(self@.reports == old(self)@.reports);
            assert(wf_asset(self@));
        }
    }

    /// Creates the EMA state for a requested window on the first
    /// report that references it, initialized from that report.
    pub fn ensure_window(&mut self, w: u32, p: Price, ts: u64)
        requires
            wf_asset(old(self)@),
            valid_price(p),
        ensures
            wf_asset(final(self)@),
            final(self)@.reports == old(self)@.reports,
            final(self)@.emas == if has_window(old(self)@.emas, w) {
                old(self)@.emas
            } else {
                old(self)@.emas.push(EmaEntry { window_sec: w, price: p, last_update: ts })
            },
    {
        match find_window_idx(&self.emas, w) {
            Some(_) => {
                proof {
                    assert(has_window(self@.emas, w));
                }
            },
            None => {
                proof {
                    lemma_valid_wf(p);
                }
                let ghost prev = self.emas@;
                self.emas.push(EmaEntry { window_sec: w, price: p, last_update: ts });
                proof {
                    let s1 = self@.emas;
                    assert forall|k: int| 0 <= k < s1.len() implies wf_price(
                        #[trigger] s1[k].price,
                    ) by {
                        if k < prev.len() {
                            assert(wf_price(old(self)@.emas[k].price));
                        }
                    }
                    assert forall|a: int, b: int|
                        #![trigger s1[a].window_sec, s1[b].window_sec]
                        0 <= a < b < s1.len() implies s1[a].window_sec != s1[b].window_sec by {
                        if b < prev.len() {
                            assert(old(self)@.emas[a].window_sec != old(
                                self,
                            )@.emas[b].window_sec);
                        } else {
                            assert(prev[a].window_sec != w);
                        }
                    }
                }
            },
        }
        proof {
            assert(self@.reports == old(self)@.reports);
            assert(wf_asset(self@));
        }
    }

    /// The whole effect of one accepted report, windows included.
    pub fn apply_report(&mut self, r: Report, req: Option<u32>)
        requires
            wf_asset(old(self)@),
            valid_price(r.price),
        ensures
            wf_asset(final(self)@),
            final(self)@ == asset_step(old(self)@, r@, req),
    {
        let ghost a0 = self@;
        let price = r.price;
        let ts = r.timestamp;
        let ghost rv = r@;
        self.add_report(r);
        self.update_emas(price, ts);
        match req {
            Some(w) => {
                let ghost upd = self@.emas;
                proof {
                    // windows are unchanged by the smoothing pass
                    assert forall|j: int| 0 <= j < upd.len() implies (#[trigger] upd[j].window_sec)
                        == a0.emas[j].window_sec by {}
                    if has_window(a0.emas, w) {
                        let i = window_at(a0.emas, w);
                        assert(upd[i].window_sec == w);
                        assert(has_window(upd, w));
                    }
                    if has_window(upd, w) {
                        let i = window_at(upd, w);
                        assert(a0.emas[i].window_sec == w);
                        assert(has_window(a0.emas, w));
                    }
                }
                self.ensure_window(w, price, ts);
            },
            None => {},
        }
        proof {
            assert(self@ =~~= asset_step(a0, rv, req));
        }
    }
}

} // verus!
