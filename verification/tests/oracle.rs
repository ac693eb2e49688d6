use priceoracle::asset::EmaEntry;
use priceoracle::price::Price;
use priceoracle::{AssetPrice, AssetOptionalPrice, Contract, OracleError, PriceData};

const NANOS: u64 = 1_000_000_000;

fn id(s: &str) -> Vec<u8> {
    s.as_bytes().to_vec()
}

fn price(multiplier: u128, decimals: u8) -> Price {
    Price { multiplier, decimals }
}

fn submit(c: &mut Contract, reporter: &str, asset: &str, p: Price, ts: u64) {
    let r = c.report_prices(vec![AssetPrice { asset_id: id(asset), price: p }], id(reporter), ts);
    assert!(r.is_ok());
}

fn query_one(c: &Contract, asset: &str, now: u64) -> Option<Price> {
    let data = c.get_price_data(Some(vec![id(asset)]), now);
    assert_eq!(data.prices.len(), 1);
    assert_eq!(data.prices[0].asset_id, id(asset));
    data.prices[0].price
}

#[test]
fn median_odd_is_middle_value() {
    let mut c = Contract::new(60, id("owner"));
    submit(&mut c, "a", "eth", price(1, 0), 0);
    submit(&mut c, "b", "eth", price(2, 0), 0);
    submit(&mut c, "c", "eth", price(3, 0), 0);
    assert_eq!(query_one(&c, "eth", 0), Some(price(2, 0)));
}

#[test]
fn median_even_is_truncated_mean() {
    let mut c = Contract::new(60, id("owner"));
    submit(&mut c, "a", "eth", price(1, 0), 0);
    submit(&mut c, "b", "eth", price(2, 0), 0);
    submit(&mut c, "c", "eth", price(3, 0), 0);
    submit(&mut c, "d", "eth", price(4, 0), 0);
    // mean of the central values 2 and 3 is 2.5, truncated to 2
    assert_eq!(query_one(&c, "eth", 0), Some(price(2, 0)));
}

#[test]
fn median_sorts_by_numeric_value_not_raw_mantissa() {
    let mut c = Contract::new(60, id("owner"));
    // 1.5, 2, 2.5: raw mantissas 15, 2, 25 would sort differently
    submit(&mut c, "a", "eth", price(15, 1), 0);
    submit(&mut c, "b", "eth", price(2, 0), 0);
    submit(&mut c, "c", "eth", price(25, 1), 0);
    assert_eq!(query_one(&c, "eth", 0), Some(price(2, 0)));
}

#[test]
fn median_even_mean_normalizes_decimals() {
    let mut c = Contract::new(60, id("owner"));
    // 1.5 and 2: the mean 1.75 is taken at one decimal place: 1.7
    submit(&mut c, "a", "eth", price(15, 1), 0);
    submit(&mut c, "b", "eth", price(2, 0), 0);
    assert_eq!(query_one(&c, "eth", 0), Some(price(17, 1)));
}

#[test]
fn stale_report_is_excluded_at_recency_boundary() {
    let mut c = Contract::new(60, id("owner"));
    submit(&mut c, "a", "eth", price(1000, 0), 0);
    // one second past the 60s window: no consensus price
    assert_eq!(query_one(&c, "eth", 61 * NANOS), None);
    // exactly at the window: the report still counts
    assert_eq!(query_one(&c, "eth", 60 * NANOS), Some(price(1000, 0)));
}

#[test]
fn future_report_is_accepted() {
    let mut c = Contract::new(60, id("owner"));
    submit(&mut c, "a", "eth", price(7, 0), 100 * NANOS);
    assert_eq!(query_one(&c, "eth", 0), Some(price(7, 0)));
}

#[test]
fn same_reporter_replaces_not_accumulates() {
    let mut c = Contract::new(60, id("owner"));
    submit(&mut c, "a", "eth", price(1000, 0), 0);
    submit(&mut c, "a", "eth", price(2000, 0), NANOS);
    let asset = c.get_asset(&id("eth")).unwrap();
    assert_eq!(asset.reports.len(), 1);
    assert_eq!(asset.reports[0].price, price(2000, 0));
    assert_eq!(query_one(&c, "eth", NANOS), Some(price(2000, 0)));
}

#[test]
fn ema_initializes_from_first_report() {
    let mut c = Contract::new(60, id("owner"));
    submit(&mut c, "a", "eth#3600", price(2000, 0), 1000 * NANOS);
    assert_eq!(query_one(&c, "eth#3600", 1000 * NANOS), Some(price(2000, 0)));
}

#[test]
fn ema_converges_monotonically_toward_constant() {
    let mut c = Contract::new(60, id("owner"));
    let scale: u128 = 1_000_000_000_000_000_000;
    let t0 = 1000 * NANOS;
    submit(&mut c, "a", "eth#3600", price(1000, 0), t0);
    // the same 2000 price at 3600s intervals halves the gap each time
    submit(&mut c, "a", "eth#3600", price(2000, 0), t0 + 3600 * NANOS);
    assert_eq!(query_one(&c, "eth#3600", t0), Some(price(1500 * scale, 18)));
    submit(&mut c, "a", "eth#3600", price(2000, 0), t0 + 2 * 3600 * NANOS);
    assert_eq!(query_one(&c, "eth#3600", t0), Some(price(1750 * scale, 18)));
    submit(&mut c, "a", "eth#3600", price(2000, 0), t0 + 3 * 3600 * NANOS);
    assert_eq!(query_one(&c, "eth#3600", t0), Some(price(1875 * scale, 18)));
}

#[test]
fn ema_clock_never_moves_backward() {
    let mut c = Contract::new(60, id("owner"));
    let t1 = 5000 * NANOS;
    submit(&mut c, "a", "eth#3600", price(1000, 0), t1);
    let before: Vec<EmaEntry> = c.get_asset(&id("eth")).unwrap().emas;
    assert_eq!(before[0].last_update, t1);
    // a report dated earlier is absorbed with a zero-length interval:
    // the clock stays, and so does the smoothed value
    submit(&mut c, "a", "eth#3600", price(9000, 0), t1 - 600 * NANOS);
    let after: Vec<EmaEntry> = c.get_asset(&id("eth")).unwrap().emas;
    assert_eq!(after[0].last_update, t1);
    assert_eq!(after[0].price.multiplier, 1000 * 1_000_000_000_000_000_000u128);
}

#[test]
fn windowed_id_resolves_ema_not_median() {
    let mut c = Contract::new(60, id("owner"));
    let t0 = 1000 * NANOS;
    submit(&mut c, "a", "eth", price(1000, 0), t0);
    submit(&mut c, "b", "eth#3600", price(2000, 0), t0);
    let data = c.get_price_data(Some(vec![id("eth"), id("eth#3600")]), t0);
    assert_eq!(data.prices.len(), 2);
    // plain id: the median over both reporters' ledger entries
    assert_eq!(data.prices[0].price, Some(price(1500, 0)));
    // windowed id: the (eth, 3600) EMA, initialized from its report
    assert_eq!(data.prices[1].price, Some(price(2000, 0)));
}

#[test]
fn zero_window_ema_tracks_latest_report() {
    let mut c = Contract::new(60, id("owner"));
    submit(&mut c, "a", "eth#0", price(5, 0), 0);
    assert_eq!(query_one(&c, "eth#0", 0), Some(price(5, 0)));
    submit(&mut c, "a", "eth#0", price(7, 0), 0);
    assert_eq!(
        query_one(&c, "eth#0", 0),
        Some(price(7 * 1_000_000_000_000_000_000, 18))
    );
}

#[test]
fn malformed_window_yields_none() {
    let mut c = Contract::new(60, id("owner"));
    submit(&mut c, "a", "eth", price(1, 0), 0);
    assert_eq!(query_one(&c, "eth#", 0), None);
    assert_eq!(query_one(&c, "eth#abc", 0), None);
    assert_eq!(query_one(&c, "eth#99999999999", 0), None);
}

#[test]
fn batch_with_one_invalid_price_changes_nothing() {
    let mut c = Contract::new(60, id("owner"));
    let batch = vec![
        AssetPrice { asset_id: id("eth"), price: price(1000, 0) },
        AssetPrice { asset_id: id("btc"), price: price(0, 0) },
    ];
    let r = c.report_prices(batch, id("a"), 0);
    assert_eq!(r, Err(OracleError::InvalidPrice));
    assert!(c.get_asset(&id("eth")).is_none());
    assert!(c.get_asset(&id("btc")).is_none());
    assert_eq!(c.get_assets(None, None).len(), 0);
}

#[test]
fn oversized_mantissa_and_decimals_are_rejected() {
    let mut c = Contract::new(60, id("owner"));
    let too_big = price(100_000_000_000_000_000_001, 0);
    let r = c.report_prices(
        vec![AssetPrice { asset_id: id("eth"), price: too_big }],
        id("a"),
        0,
    );
    assert_eq!(r, Err(OracleError::InvalidPrice));
    let deep = price(1, 19);
    let r2 = c.report_prices(vec![AssetPrice { asset_id: id("eth"), price: deep }], id("a"), 0);
    assert_eq!(r2, Err(OracleError::InvalidPrice));
}

#[test]
fn empty_batch_is_rejected() {
    let mut c = Contract::new(60, id("owner"));
    let r = c.report_prices(vec![], id("a"), 0);
    assert_eq!(r, Err(OracleError::EmptyBatch));
}

#[test]
fn unknown_asset_yields_none_not_error() {
    let mut c = Contract::new(60, id("owner"));
    assert_eq!(query_one(&c, "nothere", 0), None);
    assert!(c.get_asset(&id("nothere")).is_none());
}

#[test]
fn snapshot_carries_timestamp_and_recency() {
    let mut c = Contract::new(60, id("owner"));
    submit(&mut c, "a", "eth", price(5, 0), 0);
    let data = c.get_price_data(None, 42);
    assert_eq!(data.timestamp, 42);
    assert_eq!(data.recency_duration_sec, 60);
    assert_eq!(data.prices.len(), 1);
    assert_eq!(data.prices[0].asset_id, id("eth"));
}

#[test]
fn default_snapshot_covers_all_assets_in_order() {
    let mut c = Contract::new(60, id("owner"));
    submit(&mut c, "a", "eth", price(5, 0), 0);
    submit(&mut c, "a", "btc", price(9, 0), 0);
    let data = c.get_price_data(None, 0);
    assert_eq!(data.prices.len(), 2);
    assert_eq!(data.prices[0].asset_id, id("eth"));
    assert_eq!(data.prices[1].asset_id, id("btc"));
    assert_eq!(data.prices[0].price, Some(price(5, 0)));
    assert_eq!(data.prices[1].price, Some(price(9, 0)));
}

#[test]
fn pagination_slices_the_asset_list() {
    let mut c = Contract::new(60, id("owner"));
    submit(&mut c, "a", "eth", price(5, 0), 0);
    submit(&mut c, "a", "btc", price(9, 0), 0);
    submit(&mut c, "a", "sol", price(3, 0), 0);
    assert_eq!(c.get_assets(None, None).len(), 3);
    let page = c.get_assets(Some(1), Some(1));
    assert_eq!(page.len(), 1);
    assert_eq!(page[0].0, id("btc"));
    assert_eq!(c.get_assets(Some(2), Some(10)).len(), 1);
    assert_eq!(c.get_assets(Some(10), None).len(), 0);
}

#[test]
fn pushed_data_reports_present_prices_only() {
    let mut c = Contract::new(60, id("owner"));
    let data = PriceData {
        timestamp: 0,
        recency_duration_sec: 60,
        prices: vec![
            AssetOptionalPrice { asset_id: id("eth"), price: Some(price(100, 0)) },
            AssetOptionalPrice { asset_id: id("btc"), price: None },
        ],
    };
    let r = c.oracle_on_call(id("oracle"), data, String::from("act"), 7 * NANOS);
    assert!(r.is_ok());
    assert_eq!(query_one(&c, "eth", 7 * NANOS), Some(price(100, 0)));
    assert!(c.get_asset(&id("btc")).is_none());
}

#[test]
fn pushed_data_with_no_prices_changes_nothing() {
    let mut c = Contract::new(60, id("owner"));
    let data = PriceData {
        timestamp: 0,
        recency_duration_sec: 60,
        prices: vec![AssetOptionalPrice { asset_id: id("eth"), price: None }],
    };
    let r = c.oracle_on_call(id("oracle"), data, String::from("act"), 0);
    assert!(r.is_ok());
    assert_eq!(c.get_assets(None, None).len(), 0);
}

#[test]
fn plain_report_updates_existing_windows() {
    let mut c = Contract::new(60, id("owner"));
    let t0 = 1000 * NANOS;
    submit(&mut c, "a", "eth#3600", price(1000, 0), t0);
    // a later plain report for the asset is absorbed by its EMA states
    submit(&mut c, "a", "eth", price(2000, 0), t0 + 3600 * NANOS);
    assert_eq!(
        query_one(&c, "eth#3600", t0),
        Some(price(1500 * 1_000_000_000_000_000_000, 18))
    );
}

#[test]
fn windowed_report_also_feeds_the_base_ledger() {
    let mut c = Contract::new(60, id("owner"));
    submit(&mut c, "a", "eth#3600", price(1000, 0), 0);
    assert_eq!(query_one(&c, "eth", 0), Some(price(1000, 0)));
}

#[test]
fn asset_creation_is_idempotent() {
    let mut c = Contract::new(60, id("owner"));
    submit(&mut c, "a", "eth", price(5, 0), 0);
    submit(&mut c, "b", "eth", price(7, 0), 0);
    assert_eq!(c.get_assets(None, None).len(), 1);
    assert_eq!(c.get_asset(&id("eth")).unwrap().reports.len(), 2);
}
