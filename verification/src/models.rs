//! Core data model: trade events (ticks), candlesticks (K lines) and running
//! per-instrument statistics.
//!
//! Prices and quantities are fixed-point integers: a caller picks one scale
//! (for example 1e-8 units) and uses it consistently. All aggregation rules
//! below are exact integer arithmetic over that representation.

use vstd::prelude::*;

verus! {

/// A single trade event, immutable once constructed.
#[derive(Debug, Clone)]
pub struct Tick {
    /// Instrument identifier, e.g. a trading pair.
    pub symbol: String,
    /// Trade timestamp in milliseconds.
    pub timestamp: u64,
    /// Time the record was observed, in milliseconds.
    pub event_time: u64,
    /// Trade price in fixed-point units.
    pub price: u64,
    /// Trade quantity in fixed-point units.
    pub quantity: u64,
    /// Whether the buyer was the maker.
    pub is_buyer_maker: bool,
    /// Unique trade sequence id.
    pub trade_id: u64,
}

/// Mathematical value of a `Tick`.
pub ghost struct TickV {
    pub symbol: Seq<char>,
    pub timestamp: u64,
    pub event_time: u64,
    pub price: u64,
    pub quantity: u64,
    pub is_buyer_maker: bool,
    pub trade_id: u64,
}

impl View for Tick {
    type V = TickV;

    open spec fn view(&self) -> TickV {
        TickV {
            symbol: self.symbol@,
            timestamp: self.timestamp,
            event_time: self.event_time,
            price: self.price,
            quantity: self.quantity,
            is_buyer_maker: self.is_buyer_maker,
            trade_id: self.trade_id,
        }
    }
}

/// The bucket a millisecond timestamp falls into for a given interval:
/// the timestamp in seconds, rounded down to a multiple of the interval.
pub open spec fn bucket_start(timestamp_ms: u64, interval: u64) -> int
    recommends
        interval >= 1,
{
    (timestamp_ms as int / 1000) / (interval as int) * (interval as int)
}

impl Tick {
    pub fn new(
        symbol: String,
        timestamp: u64,
        event_time: u64,
        price: u64,
        quantity: u64,
        is_buyer_maker: bool,
        trade_id: u64,
    ) -> (t: Tick)
        ensures
            t@ == (TickV {
                symbol: symbol@,
                timestamp,
                event_time,
                price,
                quantity,
                is_buyer_maker,
                trade_id,
            }),
    {
        Tick { symbol, timestamp, event_time, price, quantity, is_buyer_maker, trade_id }
    }

    /// The start of the bucket this tick falls into for the given period.
    pub fn kline_key_for_period(&self, period_seconds: u64) -> (key: u64)
        requires
            period_seconds >= 1,
        ensures
            key == bucket_start(self.timestamp, period_seconds),
    {
        let seconds: u64 = self.timestamp / 1000;
        proof {
            assert(seconds / period_seconds * period_seconds <= seconds) by (nonlinear_arith)
                requires
                    period_seconds >= 1,
                    seconds >= 0,
            ;
        }
        seconds / period_seconds * period_seconds
    }
}

/// One candlestick: the OHLCV summary of all ticks that fell into one
/// (instrument, interval, bucket) key.
#[derive(Debug, Clone)]
pub struct KLine {
    pub symbol: String,
    /// Bucket start in seconds.
    pub timestamp: u64,
    /// Bucket length in seconds.
    pub interval: u64,
    pub open: u64,
    pub high: u64,
    pub low: u64,
    pub close: u64,
    /// Cumulative traded quantity.
    pub volume: u64,
    /// Cumulative price * quantity.
    pub quote_asset_volume: u128,
    pub number_of_trades: u64,
    /// Equal to `timestamp`.
    pub open_time: u64,
    /// Equal to `timestamp + interval`.
    pub close_time: u64,
}

/// Mathematical value of a `KLine`.
pub ghost struct KLineV {
    pub symbol: Seq<char>,
    pub timestamp: u64,
    pub interval: u64,
    pub open: u64,
    pub high: u64,
    pub low: u64,
    pub close: u64,
    pub volume: u64,
    pub quote_asset_volume: u128,
    pub number_of_trades: u64,
    pub open_time: u64,
    pub close_time: u64,
}

impl View for KLine {
    type V = KLineV;

    open spec fn view(&self) -> KLineV {
        KLineV {
            symbol: self.symbol@,
            timestamp: self.timestamp,
            interval: self.interval,
            open: self.open,
            high: self.high,
            low: self.low,
            close: self.close,
            volume: self.volume,
            quote_asset_volume: self.quote_asset_volume,
            number_of_trades: self.number_of_trades,
            open_time: self.open_time,
            close_time: self.close_time,
        }
    }
}

/// A candle as first created for a bucket, before any tick is applied:
/// all four prices equal the opening price and the totals are zero.
pub open spec fn fresh_kline(symbol: Seq<char>, timestamp: u64, interval: u64, open: u64) -> KLineV
    recommends
        timestamp + interval <= u64::MAX,
{
    KLineV {
        symbol,
        timestamp,
        interval,
        open,
        high: open,
        low: open,
        close: open,
        volume: 0,
        quote_asset_volume: 0,
        number_of_trades: 0,
        open_time: timestamp,
        close_time: (timestamp + interval) as u64,
    }
}

/// The candle invariant: the high is at least the open and the close, the
/// low is at most both, and the time bounds frame the bucket.
pub open spec fn kline_wf(k: KLineV) -> bool {
    &&& k.high >= k.open
    &&& k.high >= k.close
    &&& k.low <= k.open
    &&& k.low <= k.close
    &&& k.open_time == k.timestamp
    &&& k.close_time == k.timestamp + k.interval
}

/// Whether `k` can absorb `t` without any counter leaving its range.
pub open spec fn kline_can_absorb(k: KLineV, t: TickV) -> bool {
    &&& k.volume + t.quantity <= u64::MAX
    &&& k.quote_asset_volume + t.price * t.quantity <= u128::MAX
    &&& k.number_of_trades + 1 <= u64::MAX
}

/// The candle update rule: extend the extrema, move the close to the tick's
/// price, and accumulate volume, quote volume and the trade count.
pub open spec fn kline_apply(k: KLineV, t: TickV) -> KLineV
    recommends
        kline_can_absorb(k, t),
{
    KLineV {
        high: if t.price > k.high { t.price } else { k.high },
        low: if t.price < k.low { t.price } else { k.low },
        close: t.price,
        volume: (k.volume + t.quantity) as u64,
        quote_asset_volume: (k.quote_asset_volume + t.price * t.quantity) as u128,
        number_of_trades: (k.number_of_trades + 1) as u64,
        ..k
    }
}

/// Applying a tick preserves the candle invariant, never lowers the high,
/// never raises the low, and only ever increases the volume, quote volume
/// and trade count.
pub proof fn lemma_kline_apply_preserves_wf(k: KLineV, t: TickV)
    requires
        kline_wf(k),
        kline_can_absorb(k, t),
    ensures
        kline_wf(kline_apply(k, t)),
        kline_apply(k, t).high >= k.high,
        kline_apply(k, t).low <= k.low,
        kline_apply(k, t).volume >= k.volume,
        kline_apply(k, t).quote_asset_volume >= k.quote_asset_volume,
        kline_apply(k, t).number_of_trades == k.number_of_trades + 1,
{
}

/// A candle created for a bucket whose end fits in 64 bits satisfies the
/// candle invariant.
pub proof fn lemma_fresh_kline_wf(symbol: Seq<char>, timestamp: u64, interval: u64, open: u64)
    requires
        timestamp + interval <= u64::MAX,
    ensures
        kline_wf(fresh_kline(symbol, timestamp, interval, open)),
{
}

impl KLine {
    pub fn new(symbol: String, timestamp: u64, interval: u64, open: u64) -> (k: KLine)
        requires
            timestamp + interval <= u64::MAX,
        ensures
            k@ == fresh_kline(symbol@, timestamp, interval, open),
    {
        KLine {
            symbol,
            timestamp,
            interval,
            open,
            high: open,
            low: open,
            close: open,
            volume: 0,
            quote_asset_volume: 0,
            number_of_trades: 0,
            open_time: timestamp,
            close_time: timestamp + interval,
        }
    }

    /// Apply one tick to this candle.
    pub fn update(&mut self, tick: &Tick)
        requires
            kline_can_absorb(old(self)@, tick@),
        ensures
            final(self)@ == kline_apply(old(self)@, tick@),
    {
        if tick.price > self.high {
            self.high = tick.price;
        }
        if tick.price < self.low {
            self.low = tick.price;
        }
        self.close = tick.price;
        self.volume = self.volume + tick.quantity;
        self.quote_asset_volume = self.quote_asset_volume + (tick.price as u128) * (tick.quantity as u128);
        self.number_of_trades = self.number_of_trades + 1;
    }

    /// Volume-weighted average price, rounded toward zero; 0 when no volume.
    pub fn vwap(&self) -> (r: u128)
        ensures
            r == if self.volume == 0 { 0int } else { self.quote_asset_volume as int / self.volume as int },
    {
        if self.volume == 0 {
            0
        } else {
            self.quote_asset_volume / (self.volume as u128)
        }
    }

    /// Price change from open to close in whole percent, rounded toward
    /// zero; 0 when the open is 0.
    pub fn change_percent(&self) -> (r: i128)
        ensures
            self.open == 0 ==> r == 0,
            self.open != 0 && self.close >= self.open ==> r == (self.close - self.open) * 100
                / (self.open as int),
            self.open != 0 && self.close < self.open ==> r == -((self.open - self.close) * 100
                / (self.open as int)),
    {
        if self.open == 0 {
            0
        } else {
            (self.close as i128 - self.open as i128) * 100 / (self.open as i128)
        }
    }

    /// An equal candle, sharing no storage with this one.
    pub fn duplicate(&self) -> (r: KLine)
        ensures
            r@ == self@,
    {
        KLine {
            symbol: self.symbol.clone(),
            timestamp: self.timestamp,
            interval: self.interval,
            open: self.open,
            high: self.high,
            low: self.low,
            close: self.close,
            volume: self.volume,
            quote_asset_volume: self.quote_asset_volume,
            number_of_trades: self.number_of_trades,
            open_time: self.open_time,
            close_time: self.close_time,
        }
    }
}

/// Running per-instrument statistics over every tick seen, regardless of
/// interval or bucket.
#[derive(Debug, Clone)]
pub struct SymbolStats {
    pub symbol: String,
    pub tick_count: u64,
    pub volume: u64,
    pub open: u64,
    pub high: u64,
    pub low: u64,
    pub last_price: u64,
    pub last_update: u64,
}

/// Mathematical value of a `SymbolStats`.
pub ghost struct SymbolStatsV {
    pub symbol: Seq<char>,
    pub tick_count: u64,
    pub volume: u64,
    pub open: u64,
    pub high: u64,
    pub low: u64,
    pub last_price: u64,
    pub last_update: u64,
}

impl View for SymbolStats {
    type V = SymbolStatsV;

    open spec fn view(&self) -> SymbolStatsV {
        SymbolStatsV {
            symbol: self.symbol@,
            tick_count: self.tick_count,
            volume: self.volume,
            open: self.open,
            high: self.high,
            low: self.low,
            last_price: self.last_price,
            last_update: self.last_update,
        }
    }
}

/// The statistics update rule: the first tick fixes the open and seeds the
/// extrema, and every tick extends the extrema, accumulates volume and the
/// tick count, and records the last price and time.
pub open spec fn stats_apply(s: SymbolStatsV, t: TickV) -> SymbolStatsV
    recommends
        s.tick_count + 1 <= u64::MAX,
        s.volume + t.quantity <= u64::MAX,
{
    let seeded = if s.tick_count == 0 {
        SymbolStatsV { open: t.price, high: t.price, low: t.price, ..s }
    } else {
        s
    };
    SymbolStatsV {
        tick_count: (seeded.tick_count + 1) as u64,
        volume: (seeded.volume + t.quantity) as u64,
        high: if t.price > seeded.high {
            t.price
        } else {
            seeded.high
        },
        low: if t.price < seeded.low {
            t.price
        } else {
            seeded.low
        },
        last_price: t.price,
        last_update: t.timestamp,
        ..seeded
    }
}

impl SymbolStats {
    pub fn new(symbol: String) -> (s: SymbolStats)
        ensures
            s@ == (SymbolStatsV {
                symbol: symbol@,
                tick_count: 0,
                volume: 0,
                open: 0,
                high: 0,
                low: 0,
                last_price: 0,
                last_update: 0,
            }),
    {
        SymbolStats {
            symbol,
            tick_count: 0,
            volume: 0,
            open: 0,
            high: 0,
            low: 0,
            last_price: 0,
            last_update: 0,
        }
    }

    /// Fold one tick into the statistics.
    pub fn update(&mut self, tick: &Tick)
        requires
            old(self).tick_count + 1 <= u64::MAX,
            old(self).volume + tick.quantity <= u64::MAX,
        ensures
            final(self)@ == stats_apply(old(self)@, tick@),
    {
        if self.tick_count == 0 {
            self.open = tick.price;
            self.high = tick.price;
            self.low = tick.price;
        }
        self.tick_count = self.tick_count + 1;
        self.volume = self.volume + tick.quantity;
        if tick.price > self.high {
            self.high = tick.price;
        }
        if tick.price < self.low {
            self.low = tick.price;
        }
        self.last_price = tick.price;
        self.last_update = tick.timestamp;
    }
}

} // verus!
