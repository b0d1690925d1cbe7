use mdi::distributor::Distributor;
use mdi::models::KLine;

#[test]
fn test_distributor_broadcast() {
    let mut distributor = Distributor::new(100);

    // Two subscribers on the same key.
    let mut rx1 = distributor.subscribe("BTCUSDT", 60);
    let mut rx2 = distributor.subscribe("BTCUSDT", 60);

    assert_eq!(distributor.subscriber_count("BTCUSDT", 60), 2);

    let kline = KLine::new("BTCUSDT".to_string(), 1000, 60, 100);
    let receiver_count = distributor.broadcast_kline(kline.clone(), false);
    assert_eq!(receiver_count, 2);

    // Both subscribers see the update.
    let msg1 = rx1.try_recv().unwrap();
    let msg2 = rx2.try_recv().unwrap();

    assert_eq!(msg1.kline.symbol, "BTCUSDT");
    assert_eq!(msg2.kline.symbol, "BTCUSDT");
    assert!(!msg1.is_closed);
    assert!(!msg2.is_closed);
}

#[test]
fn test_distributor_multiple_symbols() {
    let mut distributor = Distributor::new(100);

    let mut rx1 = distributor.subscribe("BTCUSDT", 60);
    let mut rx2 = distributor.subscribe("ETHUSDT", 60);

    assert_eq!(distributor.subscriber_count("BTCUSDT", 60), 1);
    assert_eq!(distributor.subscriber_count("ETHUSDT", 60), 1);

    let kline1 = KLine::new("BTCUSDT".to_string(), 1000, 60, 100);
    let kline2 = KLine::new("ETHUSDT".to_string(), 1000, 60, 50);

    distributor.broadcast_kline(kline1, false);
    distributor.broadcast_kline(kline2, false);

    let msg1 = rx1.try_recv().unwrap();
    let msg2 = rx2.try_recv().unwrap();

    assert_eq!(msg1.kline.symbol, "BTCUSDT");
    assert_eq!(msg2.kline.symbol, "ETHUSDT");
    // Each subscriber got exactly its own key's update.
    assert!(rx1.try_recv().is_err());
    assert!(rx2.try_recv().is_err());
}

#[test]
fn publish_without_subscribers_returns_zero() {
    let mut distributor = Distributor::new(100);
    // No channel exists for the key at all.
    let kline = KLine::new("BTCUSDT".to_string(), 1000, 60, 100);
    assert_eq!(distributor.broadcast_kline(kline, false), 0);

    // A channel exists but its only subscriber is gone.
    let mut distributor = Distributor::new(100);
    let rx = distributor.subscribe("BTCUSDT", 60);
    drop(rx);
    let kline = KLine::new("BTCUSDT".to_string(), 1000, 60, 100);
    assert_eq!(distributor.broadcast_kline(kline, false), 0);
    assert_eq!(distributor.subscriber_count("BTCUSDT", 60), 0);
}

#[test]
fn subscription_starts_at_the_moment_of_subscribe() {
    let mut distributor = Distributor::new(100);
    let _early = distributor.subscribe("BTCUSDT", 60);
    let kline = KLine::new("BTCUSDT".to_string(), 1000, 60, 100);
    distributor.broadcast_kline(kline.clone(), false);

    // A later subscriber does not see the earlier update.
    let mut late = distributor.subscribe("BTCUSDT", 60);
    assert!(late.try_recv().is_err());
    distributor.broadcast_kline(kline, true);
    let msg = late.try_recv().unwrap();
    assert!(msg.is_closed);
}

#[test]
fn active_channels_lists_keys_with_subscribers() {
    let mut distributor = Distributor::new(100);
    assert_eq!(distributor.active_channels().len(), 0);

    let _rx = distributor.subscribe("BTCUSDT", 60);
    let idle = distributor.subscribe("ETHUSDT", 300);
    drop(idle);

    let active = distributor.active_channels();
    assert_eq!(active, vec!["BTCUSDT:60".to_string()]);

    distributor.clear();
    assert_eq!(distributor.active_channels().len(), 0);
    let kline = KLine::new("BTCUSDT".to_string(), 1000, 60, 100);
    assert_eq!(distributor.broadcast_kline(kline, false), 0);
}
