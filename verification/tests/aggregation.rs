use sweepgen::candle::ticks_to_candles;
use sweepgen::tick::Tick;

fn tick(ts_ms: u64, bid: i64, ask: i64) -> Tick {
    Tick { ts_ms, bid, ask }
}

#[test]
fn empty_ticks_yield_empty_candles() {
    let ticks: Vec<Tick> = Vec::new();
    let candles = ticks_to_candles(&ticks, 60_000);
    assert!(candles.is_empty());
}

#[test]
fn two_windows_with_boundary_crossing() {
    // prices carry four decimal places: 1.0 is 10000, 2.0 is 20000
    let ticks = vec![
        tick(0, 10000, 10000),
        tick(30_000, 10000, 10000),
        tick(70_000, 20000, 20000),
    ];
    let candles = ticks_to_candles(&ticks, 60_000);
    assert_eq!(candles.len(), 2);

    assert_eq!(candles[0].start_ts, 0);
    assert_eq!(candles[0].end_ts, 60_000);
    assert_eq!(candles[0].open, 10000);
    assert_eq!(candles[0].high, 10000);
    assert_eq!(candles[0].low, 10000);
    assert_eq!(candles[0].close, 10000);
    assert_eq!(candles[0].mid_spread, 0);

    assert_eq!(candles[1].start_ts, 60_000);
    assert_eq!(candles[1].end_ts, 120_000);
    assert_eq!(candles[1].open, 20000);
    assert_eq!(candles[1].high, 20000);
    assert_eq!(candles[1].low, 20000);
    assert_eq!(candles[1].close, 20000);
}

#[test]
fn gap_windows_are_skipped_not_zero_filled() {
    let ticks = vec![tick(0, 10000, 10000), tick(130_000, 15000, 15000)];
    let candles = ticks_to_candles(&ticks, 60_000);
    assert_eq!(candles.len(), 2);
    assert_eq!(candles[0].start_ts, 0);
    assert_eq!(candles[0].end_ts, 60_000);
    // the bucket advances past the silent window [60000, 120000)
    assert_eq!(candles[1].start_ts, 120_000);
    assert_eq!(candles[1].end_ts, 180_000);
    // the last input tick belongs to the last emitted candle
    assert!(candles[1].start_ts <= 130_000 && 130_000 < candles[1].end_ts);
}

#[test]
fn ohlc_and_average_spread_within_one_window() {
    let ticks = vec![
        tick(0, 10000, 10030),
        tick(1_000, 12000, 12010),
        tick(2_000, 9000, 9020),
        tick(3_000, 11000, 11020),
    ];
    let candles = ticks_to_candles(&ticks, 60_000);
    assert_eq!(candles.len(), 1);
    let c = &candles[0];
    assert_eq!(c.open, 10000);
    assert_eq!(c.high, 12000);
    assert_eq!(c.low, 9000);
    assert_eq!(c.close, 11000);
    // average of |ask - bid|: (30 + 10 + 20 + 20) / 4 = 20
    assert_eq!(c.mid_spread, 20);
    // every candle spans exactly one interval, low/high bound open/close
    assert_eq!(c.end_ts - c.start_ts, 60_000);
    assert!(c.low <= c.open.min(c.close));
    assert!(c.high >= c.open.max(c.close));
}

#[test]
fn trailing_bucket_is_always_flushed() {
    let ticks = vec![tick(5, 10000, 10000)];
    let candles = ticks_to_candles(&ticks, 60_000);
    assert_eq!(candles.len(), 1);
    assert_eq!(candles[0].start_ts, 5);
    assert_eq!(candles[0].end_ts, 60_005);
    assert_eq!(candles[0].open, 10000);
}
