//! A multi-source price aggregation engine.
//!
//! Independent reporters submit fixed-point price observations for a
//! catalogue of assets.  The engine keeps the latest report per
//! (asset, reporter) pair, reduces the fresh reports of an asset to a
//! consensus value by a median, and maintains an exponential moving
//! average per (asset, window) pair.  A snapshot query assembles a
//! timestamped view across requested assets, choosing the median or an
//! EMA per asset according to the shape of the requested identifier
//! (`base` or `base#window`).
//!
//! Time and caller identity are supplied by the embedding environment
//! as plain values; the engine itself never reads a clock.  Delivery
//! of snapshots to a registered consumer, and the payment and budget
//! checks guarding it, belong to that environment as well.

pub mod asset;
pub mod ids;
pub mod laws;
pub mod math;
pub mod price;

use crate::asset::{
    asset_step, ema_value, empty_asset, fresh_prices, median_seq, wf_asset, Asset, AssetV, Report,
    ReportV,
};
use crate::ids::{base_id, bytes_eq, clone_bytes, has_hash, parse_asset_id, window_req};
use crate::price::{is_valid_price, valid_price, Price};
use vstd::prelude::*;

verus! {

pub type AssetId = Vec<u8>;

pub type DurationSec = u32;

pub type Timestamp = u64;

/// One (asset id, price) pair of a batch submission.
pub struct AssetPrice {
    pub asset_id: AssetId,
    pub price: Price,
}

/// One entry of a snapshot: an absent price is an explicit "none",
/// never an omission and never a default value.
pub struct AssetOptionalPrice {
    pub asset_id: AssetId,
    pub price: Option<Price>,
}

/// A timestamped consensus view over the requested assets, one entry
/// per requested id, in request order.
pub struct PriceData {
    pub timestamp: Timestamp,
    pub recency_duration_sec: DurationSec,
    pub prices: Vec<AssetOptionalPrice>,
}

/// Why a command was rejected.  A rejected command leaves all state
/// unchanged.
#[derive(Clone, Copy, PartialEq, Eq, Structural, Debug)]
pub enum OracleError {
    /// A batch submission carried no report at all.
    EmptyBatch,
    /// A report of the batch carried a malformed price.
    InvalidPrice,
}

/// One stored asset with its identifier.
pub struct AssetEntry {
    pub asset_id: AssetId,
    pub asset: Asset,
}

impl View for AssetEntry {
    type V = (Seq<u8>, AssetV);

    open spec fn view(&self) -> (Seq<u8>, AssetV) {
        (self.asset_id@, self.asset@)
    }
}

pub open spec fn entries_view(s: Seq<AssetEntry>) -> Seq<(Seq<u8>, AssetV)> {
    s.map_values(|e: AssetEntry| e@)
}

pub open spec fn pairs_view(s: Seq<(AssetId, Asset)>) -> Seq<(Seq<u8>, AssetV)> {
    s.map_values(|t: (AssetId, Asset)| (t.0@, t.1@))
}

/// The aggregation engine: the asset table, the process-wide recency
/// window for the median path, and the owning identity.
pub struct Contract {
    pub assets: Vec<AssetEntry>,
    pub recency_duration_sec: DurationSec,
    pub owner_id: Vec<u8>,
}

impl View for Contract {
    type V = Seq<(Seq<u8>, AssetV)>;

    open spec fn view(&self) -> Seq<(Seq<u8>, AssetV)> {
        entries_view(self.assets@)
    }
}

pub open spec fn has_asset(assets: Seq<(Seq<u8>, AssetV)>, id: Seq<u8>) -> bool {
    exists|i: int| 0 <= i < assets.len() && (#[trigger] assets[i].0) == id
}

pub open spec fn asset_at(assets: Seq<(Seq<u8>, AssetV)>, id: Seq<u8>) -> int {
    choose|i: int| 0 <= i < assets.len() && (#[trigger] assets[i].0) == id
}

pub open spec fn lookup_asset(assets: Seq<(Seq<u8>, AssetV)>, id: Seq<u8>) -> Option<AssetV> {
    if has_asset(assets, id) {
        Some(assets[asset_at(assets, id)].1)
    } else {
        None
    }
}

pub open spec fn wf_entries(assets: Seq<(Seq<u8>, AssetV)>) -> bool {
    &&& forall|i: int| 0 <= i < assets.len() ==> wf_asset((#[trigger] assets[i]).1)
    &&& forall|i: int, j: int|
        #![trigger assets[i].0, assets[j].0]
        0 <= i < j < assets.len() ==> assets[i].0 != assets[j].0
}

/// The effect of one accepted report on the asset table: the base
/// asset is created on first contact, and its ledger and EMA states
/// absorb the report.
pub open spec fn entry_step(
    assets: Seq<(Seq<u8>, AssetV)>,
    id: Seq<u8>,
    p: Price,
    reporter: Seq<u8>,
    ts: u64,
) -> Seq<(Seq<u8>, AssetV)> {
    let base = base_id(id);
    let req = window_req(id);
    let rv = ReportV { reporter, timestamp: ts, price: p };
    if has_asset(assets, base) {
        let i = asset_at(assets, base);
        assets.update(i, (base, asset_step(assets[i].1, rv, req)))
    } else {
        assets.push((base, asset_step(empty_asset(), rv, req)))
    }
}

pub open spec fn batch_view(prices: Seq<AssetPrice>) -> Seq<(Seq<u8>, Price)> {
    prices.map_values(|ap: AssetPrice| (ap.asset_id@, ap.price))
}

/// The effect of the first `n` items of an accepted batch, applied in
/// order.
pub open spec fn apply_batch(
    assets: Seq<(Seq<u8>, AssetV)>,
    items: Seq<(Seq<u8>, Price)>,
    reporter: Seq<u8>,
    ts: u64,
    n: int,
) -> Seq<(Seq<u8>, AssetV)>
    decreases n,
{
    if n <= 0 {
        assets
    } else {
        entry_step(
            apply_batch(assets, items, reporter, ts, n - 1),
            items[n - 1].0,
            items[n - 1].1,
            reporter,
            ts,
        )
    }
}

/// What one requested identifier resolves to: the (base, window) EMA
/// for a `base#window` form, the median over fresh reports for a plain
/// id, and "none" wherever nothing is recorded.
pub open spec fn price_for(
    assets: Seq<(Seq<u8>, AssetV)>,
    id: Seq<u8>,
    now: u64,
    recency_sec: u32,
) -> Option<Price> {
    if has_hash(id) {
        match window_req(id) {
            Some(w) => match lookup_asset(assets, base_id(id)) {
                Some(a) => ema_value(a.emas, w),
                None => None,
            },
            None => None,
        }
    } else {
        match lookup_asset(assets, id) {
            Some(a) => median_seq(fresh_prices(a.reports, now, recency_sec)),
            None => None,
        }
    }
}

pub open spec fn ids_view(v: Seq<Vec<u8>>) -> Seq<Seq<u8>> {
    v.map_values(|x: Vec<u8>| x@)
}

pub open spec fn keys_of(assets: Seq<(Seq<u8>, AssetV)>) -> Seq<Seq<u8>> {
    assets.map_values(|e: (Seq<u8>, AssetV)| e.0)
}

/// The asset-id/price pairs present in pushed snapshot data.
pub open spec fn present_prices(s: Seq<AssetOptionalPrice>) -> Seq<(Seq<u8>, Price)>
    decreases s.len(),
{
    if s.len() == 0 {
        Seq::empty()
    } else {
        let rest = present_prices(s.drop_last());
        match s.last().price {
            Some(p) => rest.push((s.last().asset_id@, p)),
            None => rest,
        }
    }
}

fn find_asset_idx(assets: &Vec<AssetEntry>, id: &Vec<u8>) -> (r: Option<usize>)
    ensures
        match r {
            Some(i) => i < assets@.len() && entries_view(assets@)[i as int].0 == id@,
            None => !has_asset(entries_view(assets@), id@),
        },
{
    let mut i: usize = 0;
    while i < assets.len()
        invariant
            i <= assets@.len(),
            forall|j: int| 0 <= j < i ==> (#[trigger] entries_view(assets@)[j].0) != id@,
        decreases assets@.len() - i,
    {
        if bytes_eq(&assets[i].asset_id, id) {
            return Some(i);
        }
        i = i + 1;
    }
    None
}

/// With unique ids, a found index is the index the model speaks of.
proof fn lemma_lookup_at(assets: Seq<(Seq<u8>, AssetV)>, id: Seq<u8>, i: int)
    requires
        wf_entries(assets),
        0 <= i < assets.len(),
        assets[i].0 == id,
    ensures
        has_asset(assets, id),
        asset_at(assets, id) == i,
        lookup_asset(assets, id) == Some(assets[i].1),
{
    assert(has_asset(assets, id));
    let j = asset_at(assets, id);
    assert(0 <= j < assets.len() && assets[j].0 == id);
    if j < i {
        assert(assets[j].0 != assets[i].0);
    }
    if i < j {
        assert(assets[i].0 != assets[j].0);
    }
}

/// The registered consumer's inbound interface: this engine pushes a
/// snapshot and an opaque message to it, one-way and without waiting.
pub trait ExtPriceReceiver {
    fn oracle_on_call(&mut self, sender_id: Vec<u8>, data: PriceData, msg: String);
}

/// A party that can receive pushed price data and act on it.
pub trait OraclePriceReceiver {
    fn oracle_on_call(&mut self, sender_id: Vec<u8>, data: PriceData, msg: String);
}

impl Contract {
    pub open spec fn wf(&self) -> bool {
        wf_entries(self@)
    }

    pub fn new(recency_duration_sec: DurationSec, owner_id: Vec<u8>) -> (c: Contract)
        ensures
            c.wf(),
            c@ == Seq::<(Seq<u8>, AssetV)>::empty(),
            c.recency_duration_sec == recency_duration_sec,
            c.owner_id@ == owner_id@,
    {
        let c = Contract { assets: Vec::new(), recency_duration_sec, owner_id };
        proof {
            assert(c@ =~= Seq::<(Seq<u8>, AssetV)>::empty());
        }
        c
    }

    /// Paginated enumeration of the stored assets, in storage order.
    pub fn get_assets(&self, from_index: Option<u64>, limit: Option<u64>) -> (r: Vec<
        (AssetId, Asset),
    >)
        ensures
            ({
                let from = match from_index {
                    Some(f) => f as int,
                    None => 0int,
                };
                let start = if from <= self@.len() {
                    from
                } else {
                    self@.len() as int
                };
                let end = match limit {
                    Some(l) => if start + l <= self@.len() {
                        start + l
                    } else {
                        self@.len() as int
                    },
                    None => self@.len() as int,
                };
                pairs_view(r@) == self@.subrange(start, end)
            }),
    {
        let n = self.assets.len();
        let start: usize = match from_index {
            Some(f) => {
                if f >= n as u64 {
                    n
                } else {
                    f as usize
                }
            },
            None => 0,
        };
        let count: usize = match limit {
            Some(l) => {
                if l >= (n - start) as u64 {
                    n - start
                } else {
                    l as usize
                }
            },
            None => n - start,
        };
        let mut r: Vec<(AssetId, Asset)> = Vec::new();
        let mut i: usize = 0;
        while i < count
            invariant
                n == self.assets@.len(),
                start + count <= n,
                i <= count,
                pairs_view(r@) =~= self@.subrange(start as int, start + i),
            decreases count - i,
        {
            let src = &self.assets[start + i];
            let copy = (clone_bytes(&src.asset_id), src.asset.duplicate());
            proof {
                assert((copy.0@, copy.1@) == self@[start + i]);
            }
            let ghost prev = r@;
            r.push(copy);
            proof {
                assert(pairs_view(r@) =~= pairs_view(prev).push((copy.0@, copy.1@)));
                assert(pairs_view(r@) =~= self@.subrange(start as int, start + i + 1));
            }
            i = i + 1;
        }
        r
    }

    /// The stored record of one asset, or nothing for an unknown id.
    pub fn get_asset(&self, asset_id: &Vec<u8>) -> (r: Option<Asset>)
        requires
            self.wf(),
        ensures
            match r {
                Some(a) => lookup_asset(self@, asset_id@) == Some(a@),
                None => lookup_asset(self@, asset_id@) is None,
            },
    {
        match find_asset_idx(&self.assets, asset_id) {
            Some(i) => {
                proof {
                    lemma_lookup_at(self@, asset_id@, i as int);
                }
                Some(self.assets[i].asset.duplicate())
            },
            None => None,
        }
    }

    /// Applies one validated report under a given reporter identity.
    fn submit_single(&mut self, asset_id: &Vec<u8>, price: Price, reporter: &Vec<u8>, ts: u64)
        requires
            old(self).wf(),
            valid_price(price),
        ensures
            final(self).wf(),
            final(self)@ == entry_step(old(self)@, asset_id@, price, reporter@, ts),
            final(self).recency_duration_sec == old(self).recency_duration_sec,
            final(self).owner_id == old(self).owner_id,
    {
        let (base, req, _) = parse_asset_id(asset_id);
        let report = Report { reporter: clone_bytes(reporter), timestamp: ts, price };
        let ghost rv = ReportV { reporter: reporter@, timestamp: ts, price };
        proof {
            assert(report@ == rv);
        }
        match find_asset_idx(&self.assets, &base) {
            Some(i) => {
                proof {
                    lemma_lookup_at(self@, base@, i as int);
                }
                let ghost prev = self.assets@;
                let ghost prevv = self@;
                let mut entry = self.assets.remove(i);
                entry.asset.apply_report(report, req);
                self.assets.insert(i, entry);
                proof {
                    let e2 = self.assets@[i as int];
                    assert(self.assets@ =~= prev.update(i as int, e2));
                    assert(e2@ == (base@, asset_step(prevv[i as int].1, rv, req)));
                    assert(entries_view(self.assets@) =~= prevv.update(
                        i as int,
                        (base@, asset_step(prevv[i as int].1, rv, req)),
                    ));
                    assert(self@ == entry_step(prevv, asset_id@, price, reporter@, ts));
                    assert forall|k: int| 0 <= k < self@.len() implies wf_asset(
                        (#[trigger] self@[k]).1,
                    ) by {
                        if k != i as int {
                            assert(wf_asset(prevv[k].1));
                        }
                    }
                    assert forall|a: int, b: int|
                        #![trigger self@[a].0, self@[b].0]
                        0 <= a < b < self@.len() implies self@[a].0 != self@[b].0 by {
                        assert(self@[a].0 == prevv[a].0);
                        assert(self@[b].0 == prevv[b].0);
                        assert(prevv[a].0 != prevv[b].0);
                    }
                }
            },
            None => {
                let mut a = Asset::new();
                a.apply_report(report, req);
                let ghost prevv = self@;
                self.assets.push(AssetEntry { asset_id: base, asset: a });
                proof {
                    assert(entries_view(self.assets@) =~= prevv.push(
                        (base_id(asset_id@), asset_step(empty_asset(), rv, req)),
                    ));
                    assert(self@ == entry_step(prevv, asset_id@, price, reporter@, ts));
                    assert forall|k: int| 0 <= k < self@.len() implies wf_asset(
                        (#[trigger] self@[k]).1,
                    ) by {
                        if k < prevv.len() {
                            assert(wf_asset(prevv[k].1));
                        }
                    }
                    assert forall|a: int, b: int|
                        #![trigger self@[a].0, self@[b].0]
                        0 <= a < b < self@.len() implies self@[a].0 != self@[b].0 by {
                        if b < prevv.len() {
                            assert(prevv[a].0 != prevv[b].0);
                        } else {
                            assert(prevv[a].0 != base_id(asset_id@));
                        }
                    }
                }
            },
        }
    }

    /// Ingests a batch of reports, all stamped with one reporter
    /// identity and one timestamp, applied in the order given.  The
    /// batch is atomic: an empty batch, or any malformed price in it,
    /// rejects the whole command and changes nothing.
    pub fn report_prices(&mut self, prices: Vec<AssetPrice>, reporter: Vec<u8>, timestamp: u64) -> (res: Result<
        (),
        OracleError,
    >)
        requires
            old(self).wf(),
        ensures
            final(self).wf(),
            final(self).recency_duration_sec == old(self).recency_duration_sec,
            final(self).owner_id == old(self).owner_id,
            prices@.len() == 0 ==> res == Err::<(), OracleError>(OracleError::EmptyBatch)
                && final(self)@ == old(self)@,
            prices@.len() > 0 && (exists|i: int|
                0 <= i < prices@.len() && !valid_price(
                    (#[trigger] prices@[i]).price,
                )) ==> res == Err::<(), OracleError>(OracleError::InvalidPrice) && final(self)@
                == old(self)@,
            prices@.len() > 0 && (forall|i: int|
                0 <= i < prices@.len() ==> valid_price((#[trigger] prices@[i]).price)) ==> res
                == Ok::<(), OracleError>(()) && final(self)@ == apply_batch(
                old(self)@,
                batch_view(prices@),
                reporter@,
                timestamp,
                prices@.len() as int,
            ),
    {
        if prices.len() == 0 {
            return Err(OracleError::EmptyBatch);
        }
        let mut i: usize = 0;
        while i < prices.len()
            invariant
                i <= prices@.len(),
                forall|j: int| 0 <= j < i ==> valid_price((#[trigger] prices@[j]).price),
                *self == *old(self),
                self.wf(),
            decreases prices@.len() - i,
        {
            if !is_valid_price(&prices[i].price) {
                return Err(OracleError::InvalidPrice);
            }
            i = i + 1;
        }
        let ghost items = batch_view(prices@);
        let mut k: usize = 0;
        while k < prices.len()
            invariant
                k <= prices@.len(),
                items == batch_view(prices@),
                forall|j: int| 0 <= j < prices@.len() ==> valid_price((#[trigger] prices@[j]).price),
                self.wf(),
                self@ == apply_batch(old(self)@, items, reporter@, timestamp, k as int),
                self.recency_duration_sec == old(self).recency_duration_sec,
                self.owner_id == old(self).owner_id,
            decreases prices@.len() - k,
        {
            let ap = &prices[k];
            self.submit_single(&ap.asset_id, ap.price, &reporter, timestamp);
            proof {
                assert(items[k as int] == (prices@[k as int].asset_id@, prices@[k as int].price));
            }
            k = k + 1;
        }
        Ok(())
    }

    /// Resolves one requested identifier against the current state.
    fn resolve_id(&self, id: &Vec<u8>, now: u64) -> (r: Option<Price>)
        requires
            self.wf(),
        ensures
            r == price_for(self@, id@, now, self.recency_duration_sec),
    {
        let (base, req, hashed) = parse_asset_id(id);
        if hashed {
            match req {
                Some(w) => {
                    match find_asset_idx(&self.assets, &base) {
                        Some(i) => {
                            proof {
                                lemma_lookup_at(self@, base@, i as int);
                                assert(wf_asset(self@[i as int].1));
                            }
                            self.assets[i].asset.ema_price(w)
                        },
                        None => None,
                    }
                },
                None => None,
            }
        } else {
            match find_asset_idx(&self.assets, id) {
                Some(i) => {
                    proof {
                        lemma_lookup_at(self@, id@, i as int);
                        assert(wf_asset(self@[i as int].1));
                    }
                    self.assets[i].asset.median_price(now, self.recency_duration_sec)
                },
                None => None,
            }
        }
    }

    /// Builds a snapshot at `now`: one entry per requested id, in
    /// request order, an explicit "none" where nothing is recorded;
    /// every stored asset when no ids are requested.
    pub fn get_price_data(&self, asset_ids: Option<Vec<AssetId>>, now: u64) -> (r: PriceData)
        requires
            self.wf(),
        ensures
            r.timestamp == now,
            r.recency_duration_sec == self.recency_duration_sec,
            ({
                let ids = match asset_ids {
                    Some(v) => ids_view(v@),
                    None => keys_of(self@),
                };
                &&& r.prices@.len() == ids.len()
                &&& forall|i: int|
                    0 <= i < ids.len() ==> (#[trigger] r.prices@[i]).asset_id@ == ids[i]
                &&& forall|i: int|
                    0 <= i < ids.len() ==> (#[trigger] r.prices@[i]).price == price_for(
                        self@,
                        ids[i],
                        now,
                        self.recency_duration_sec,
                    )
            }),
    {
        let has_ids = asset_ids.is_some();
        let ids: Vec<Vec<u8>> = if has_ids {
            asset_ids.unwrap()
        } else {
                let mut ks: Vec<Vec<u8>> = Vec::new();
                let mut i: usize = 0;
                proof {
                    assert(ids_view(ks@) =~= keys_of(self@).take(0int));
                }
                while i < self.assets.len()
                    invariant
                        i <= self.assets@.len(),
                        ids_view(ks@) =~= keys_of(self@).take(i as int),
                    decreases self.assets@.len() - i,
                {
                    let key = clone_bytes(&self.assets[i].asset_id);
                    let ghost prev = ks@;
                    ks.push(key);
                    proof {
                        assert(ids_view(ks@) =~= ids_view(prev).push(key@));
                        assert(ids_view(ks@) =~= keys_of(self@).take(i + 1 as int));
                    }
                    i = i + 1;
                }
                proof {
                    assert(keys_of(self@).take(keys_of(self@).len() as int) =~= keys_of(self@));
                }
                ks
        };
        let ghost gids = ids_view(ids@);
        proof {
            assert(gids == match asset_ids {
                Some(v) => ids_view(v@),
                None => keys_of(self@),
            });
        }
        let mut prices: Vec<AssetOptionalPrice> = Vec::new();
        let mut i: usize = 0;
        while i < ids.len()
            invariant
                i <= ids@.len(),
                gids == ids_view(ids@),
                self.wf(),
                prices@.len() == i,
                forall|j: int| 0 <= j < i ==> (#[trigger] prices@[j]).asset_id@ == gids[j],
                forall|j: int|
                    0 <= j < i ==> (#[trigger] prices@[j]).price == price_for(
                        self@,
                        gids[j],
                        now,
                        self.recency_duration_sec,
                    ),
            decreases ids@.len() - i,
        {
            let id = &ids[i];
            let p = self.resolve_id(id, now);
            prices.push(AssetOptionalPrice { asset_id: clone_bytes(id), price: p });
            i = i + 1;
        }
        PriceData { timestamp: now, recency_duration_sec: self.recency_duration_sec, prices }
    }

    /// Receives pushed price data: every entry that carries a price is
    /// re-reported under the pushing caller's identity; a snapshot with
    /// no present prices changes nothing.  The opaque message is not
    /// interpreted.
    pub fn oracle_on_call(
        &mut self,
        sender_id: Vec<u8>,
        data: PriceData,
        _msg: String,
        timestamp: u64,
    ) -> (res: Result<(), OracleError>)
        requires
            old(self).wf(),
        ensures
            final(self).wf(),
            final(self).recency_duration_sec == old(self).recency_duration_sec,
            final(self).owner_id == old(self).owner_id,
            ({
                let items = present_prices(data.prices@);
                &&& items.len() == 0 ==> res == Ok::<(), OracleError>(()) && final(self)@ == old(
                    self,
                )@
                &&& items.len() > 0 && (exists|i: int|
                    0 <= i < items.len() && !valid_price((#[trigger] items[i]).1)) ==> res
                    == Err::<(), OracleError>(OracleError::InvalidPrice) && final(self)@ == old(
                    self,
                )@
                &&& items.len() > 0 && (forall|i: int|
                    0 <= i < items.len() ==> valid_price((#[trigger] items[i]).1)) ==> res
                    == Ok::<(), OracleError>(()) && final(self)@ == apply_batch(
                    old(self)@,
                    items,
                    sender_id@,
                    timestamp,
                    items.len() as int,
                )
            }),
    {
        let ghost items = present_prices(data.prices@);
        let mut batch: Vec<AssetPrice> = Vec::new();
        let mut i: usize = 0;
        proof {
            assert(data.prices@.take(0int) =~= Seq::<AssetOptionalPrice>::empty());
            assert(batch_view(batch@) =~= present_prices(data.prices@.take(0int)));
        }
        while i < data.prices.len()
            invariant
                i <= data.prices@.len(),
                batch_view(batch@) == present_prices(data.prices@.take(i as int)),
            decreases data.prices@.len() - i,
        {
            proof {
                assert(data.prices@.take(i + 1 as int).drop_last() =~= data.prices@.take(i as int));
                assert(data.prices@.take(i + 1 as int).last() == data.prices@[i as int]);
            }
            let entry = &data.prices[i];
            match &entry.price {
                Some(p) => {
                    let ghost prev = batch@;
                    batch.push(AssetPrice { asset_id: clone_bytes(&entry.asset_id), price: *p });
                    proof {
                        assert(batch_view(batch@) =~= batch_view(prev).push(
                            (entry.asset_id@, *p),
                        ));
                        assert(batch_view(batch@) =~= present_prices(
                            data.prices@.take(i + 1 as int),
                        ));
                    }
                },
                None => {},
            }
            i = i + 1;
        }
        proof {
            assert(data.prices@.take(data.prices@.len() as int) =~= data.prices@);
            assert(batch_view(batch@) == items);
        }
        if batch.len() == 0 {
            return Ok(());
        }
        proof {
            assert(batch@.len() == items.len());
            assert forall|j: int| 0 <= j < batch@.len() implies (#[trigger] batch@[j]).price
                == items[j].1 by {
                assert(batch_view(batch@)[j] == (batch@[j].asset_id@, batch@[j].price));
            }
        }
        let res = self.report_prices(batch, sender_id, timestamp);
        res
    }
}

} // verus!
