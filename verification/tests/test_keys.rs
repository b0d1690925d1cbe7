use mdi::keys::{channel_key, kline_key, tick_key, u64_to_string};

#[test]
fn decimal_rendering_matches_std() {
    assert_eq!(u64_to_string(0), "0");
    assert_eq!(u64_to_string(7), "7");
    assert_eq!(u64_to_string(60), "60");
    assert_eq!(u64_to_string(1000030), "1000030");
    assert_eq!(u64_to_string(u64::MAX), u64::MAX.to_string());
}

#[test]
fn tick_keys_follow_the_persisted_layout() {
    assert_eq!(tick_key("BTCUSDT", 1), "tick:BTCUSDT:1");
    assert_eq!(tick_key("ETHUSDT", 987654321), "tick:ETHUSDT:987654321");
}

#[test]
fn kline_keys_follow_the_persisted_layout() {
    assert_eq!(kline_key("BTCUSDT", 60, 1000), "kline:BTCUSDT:60:1000");
    assert_eq!(kline_key("ETHUSDT", 86400, 0), "kline:ETHUSDT:86400:0");
}

#[test]
fn channel_keys_join_symbol_and_interval() {
    assert_eq!(channel_key("BTCUSDT", 60), "BTCUSDT:60");
    assert_eq!(channel_key("ETHUSDT", 300), "ETHUSDT:300");
}
