use mdi::kline::KLineBuilder;
use mdi::models::Tick;

#[test]
fn test_kline_builder() {
    let mut builder = KLineBuilder::new(vec![60, 300]);

    // Two ticks inside the same minute bucket.
    let tick1 = Tick::new("BTCUSDT".to_string(), 1000000, 1000000, 100, 1, true, 1);
    let tick2 = Tick::new("BTCUSDT".to_string(), 1000030, 1000030, 102, 2, true, 2);

    builder.process_tick(&tick1);
    builder.process_tick(&tick2);

    let kline = builder.get_latest_kline("BTCUSDT", 60).unwrap();
    assert_eq!(kline.close, 102);
    assert_eq!(kline.volume, 3); // 1 + 2
    assert_eq!(kline.number_of_trades, 2);
}

#[test]
fn test_kline_stats() {
    let mut builder = KLineBuilder::standard();

    let tick = Tick::new("BTCUSDT".to_string(), 1000000, 1000000, 100, 1, true, 1);
    builder.process_tick(&tick);

    let stats = builder.get_stats();
    assert_eq!(stats.total_symbols, 1);
    assert_eq!(stats.total_klines, 6); // one per configured interval
}

#[test]
fn same_bucket_ticks_combine() {
    // interval 60; both timestamps map to bucket start 960.
    let mut builder = KLineBuilder::new(vec![60]);
    let tick_a = Tick::new("BTCUSDT".to_string(), 1000000, 1000000, 100, 1, true, 1);
    let tick_b = Tick::new("BTCUSDT".to_string(), 1000030, 1000030, 102, 2, true, 2);
    builder.process_tick(&tick_a);
    let updated = builder.process_tick(&tick_b);

    assert_eq!(updated.len(), 1);
    let k = &updated[0];
    assert_eq!(k.timestamp, 960);
    assert_eq!(k.open, 100);
    assert_eq!(k.high, 102);
    assert_eq!(k.low, 100);
    assert_eq!(k.close, 102);
    assert_eq!(k.volume, 3);
    assert_eq!(k.number_of_trades, 2);
}

#[test]
fn one_candle_per_interval_with_aligned_buckets() {
    let mut builder = KLineBuilder::new(vec![60, 300]);
    let tick = Tick::new("BTCUSDT".to_string(), 1000000, 1000000, 100, 1, true, 1);
    let updated = builder.process_tick(&tick);

    assert_eq!(updated.len(), 2);
    assert_eq!(updated[0].interval, 60);
    assert_eq!(updated[0].timestamp, 1000 / 60 * 60); // 960
    assert_eq!(updated[1].interval, 300);
    assert_eq!(updated[1].timestamp, 1000 / 300 * 300); // 900
    for k in &updated {
        assert_eq!(k.symbol, "BTCUSDT");
        assert_eq!(k.open_time, k.timestamp);
        assert_eq!(k.close_time, k.timestamp + k.interval);
    }
}

#[test]
fn get_klines_sorted_even_for_out_of_order_ticks() {
    let mut builder = KLineBuilder::new(vec![60]);
    // Buckets 120, 0, 60, arriving out of order.
    let t1 = Tick::new("BTCUSDT".to_string(), 120000, 120000, 103, 1, true, 1);
    let t2 = Tick::new("BTCUSDT".to_string(), 0, 0, 101, 1, true, 2);
    let t3 = Tick::new("BTCUSDT".to_string(), 60000, 60000, 102, 1, true, 3);
    builder.process_tick(&t1);
    builder.process_tick(&t2);
    builder.process_tick(&t3);

    let klines = builder.get_klines("BTCUSDT", 60);
    assert_eq!(klines.len(), 3);
    assert_eq!(klines[0].timestamp, 0);
    assert_eq!(klines[1].timestamp, 60);
    assert_eq!(klines[2].timestamp, 120);

    let latest = builder.get_latest_kline("BTCUSDT", 60).unwrap();
    assert_eq!(latest.timestamp, 120);
    assert_eq!(latest.close, 103);
}

#[test]
fn unknown_keys_hold_no_candles() {
    let mut builder = KLineBuilder::new(vec![60]);
    let tick = Tick::new("BTCUSDT".to_string(), 1000000, 1000000, 100, 1, true, 1);
    builder.process_tick(&tick);

    assert!(builder.get_latest_kline("ETHUSDT", 60).is_none());
    assert!(builder.get_latest_kline("BTCUSDT", 300).is_none());
    assert_eq!(builder.get_klines("ETHUSDT", 60).len(), 0);

    builder.clear();
    assert!(builder.get_latest_kline("BTCUSDT", 60).is_none());
    let stats = builder.get_stats();
    assert_eq!(stats.total_symbols, 0);
    assert_eq!(stats.total_klines, 0);
    assert_eq!(stats.intervals, vec![60]);
}

#[test]
fn no_interval_configured_registers_nothing() {
    let mut builder = KLineBuilder::new(vec![]);
    let tick = Tick::new("BTCUSDT".to_string(), 1000000, 1000000, 100, 1, true, 1);
    let updated = builder.process_tick(&tick);
    assert_eq!(updated.len(), 0);
    let stats = builder.get_stats();
    assert_eq!(stats.total_symbols, 0);
    assert_eq!(stats.total_klines, 0);
}
