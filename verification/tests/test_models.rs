use mdi::models::{KLine, SymbolStats, Tick};

#[test]
fn test_tick_kline_key() {
    let tick = Tick::new("BTCUSDT".to_string(), 1000000, 1000000, 100, 1, true, 1);
    // (1000000 ms / 1000) / 60 * 60 = 1000 / 60 * 60 = 16 * 60 = 960
    assert_eq!(tick.kline_key_for_period(60), 960);
}

#[test]
fn test_kline_update() {
    let mut kline = KLine::new("BTCUSDT".to_string(), 0, 60, 100);
    let tick1 = Tick::new("BTCUSDT".to_string(), 0, 0, 105, 10, true, 1);
    let tick2 = Tick::new("BTCUSDT".to_string(), 500, 500, 103, 5, false, 2);

    kline.update(&tick1);
    kline.update(&tick2);

    assert_eq!(kline.high, 105);
    assert_eq!(kline.low, 100);
    assert_eq!(kline.close, 103);
    assert_eq!(kline.volume, 15);
    assert_eq!(kline.number_of_trades, 2);
}

#[test]
fn kline_new_seeds_all_prices_from_open() {
    let kline = KLine::new("BTCUSDT".to_string(), 960, 60, 100);
    assert_eq!(kline.open, 100);
    assert_eq!(kline.high, 100);
    assert_eq!(kline.low, 100);
    assert_eq!(kline.close, 100);
    assert_eq!(kline.volume, 0);
    assert_eq!(kline.number_of_trades, 0);
    assert_eq!(kline.open_time, 960);
    assert_eq!(kline.close_time, 1020);
}

#[test]
fn vwap_is_quote_volume_over_volume() {
    let mut kline = KLine::new("BTCUSDT".to_string(), 0, 60, 100);
    assert_eq!(kline.vwap(), 0);
    let tick1 = Tick::new("BTCUSDT".to_string(), 0, 0, 100, 1, true, 1);
    let tick2 = Tick::new("BTCUSDT".to_string(), 1, 1, 200, 3, true, 2);
    kline.update(&tick1);
    kline.update(&tick2);
    // (100*1 + 200*3) / 4 = 700 / 4 = 175
    assert_eq!(kline.vwap(), 175);
}

#[test]
fn change_percent_rounds_toward_zero() {
    let mut up = KLine::new("BTCUSDT".to_string(), 0, 60, 200);
    let tick = Tick::new("BTCUSDT".to_string(), 0, 0, 203, 1, true, 1);
    up.update(&tick);
    // (203 - 200) * 100 / 200 = 1 (1.5 rounded toward zero)
    assert_eq!(up.change_percent(), 1);

    let mut down = KLine::new("BTCUSDT".to_string(), 0, 60, 200);
    let tick = Tick::new("BTCUSDT".to_string(), 0, 0, 197, 1, true, 2);
    down.update(&tick);
    // (197 - 200) * 100 / 200 = -1 (-1.5 rounded toward zero)
    assert_eq!(down.change_percent(), -1);

    let zero_open = KLine::new("BTCUSDT".to_string(), 0, 60, 0);
    assert_eq!(zero_open.change_percent(), 0);
}

#[test]
fn symbol_stats_track_extrema_and_totals() {
    let mut stats = SymbolStats::new("BTCUSDT".to_string());
    assert_eq!(stats.tick_count, 0);

    let tick1 = Tick::new("BTCUSDT".to_string(), 10, 10, 100, 2, true, 1);
    let tick2 = Tick::new("BTCUSDT".to_string(), 20, 20, 95, 3, false, 2);
    let tick3 = Tick::new("BTCUSDT".to_string(), 30, 30, 110, 1, true, 3);
    stats.update(&tick1);
    stats.update(&tick2);
    stats.update(&tick3);

    assert_eq!(stats.open, 100);
    assert_eq!(stats.high, 110);
    assert_eq!(stats.low, 95);
    assert_eq!(stats.last_price, 110);
    assert_eq!(stats.last_update, 30);
    assert_eq!(stats.volume, 6);
    assert_eq!(stats.tick_count, 3);
}
