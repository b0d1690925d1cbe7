//! Multi-interval candlestick aggregator.
//!
//! The store is a three-level mapping instrument -> interval -> bucket,
//! held as nested vectors with unique symbols, unique intervals per symbol,
//! and each bucket series strictly sorted by bucket start. Every tick is
//! folded into one candle per configured interval.

use vstd::prelude::*;

use crate::models::{
    bucket_start, fresh_kline, kline_apply, kline_can_absorb, kline_wf,
    lemma_fresh_kline_wf, lemma_kline_apply_preserves_wf, KLine, KLineV, Tick, TickV,
};

verus! {

struct IntervalSeries {
    interval: u64,
    klines: Vec<KLine>,
}

struct SymbolSeries {
    symbol: String,
    series: Vec<IntervalSeries>,
}

/// Builds and stores candles for every configured interval.
pub struct KLineBuilder {
    intervals: Vec<u64>,
    store: Vec<SymbolSeries>,
}

/// Aggregate counts over the whole store.
#[derive(Debug, Clone)]
pub struct KLineStats {
    pub total_symbols: usize,
    pub total_klines: usize,
    pub intervals: Vec<u64>,
}

/// A candle series in ascending bucket order, no two candles sharing a
/// bucket.
pub open spec fn sorted_by_bucket(s: Seq<KLineV>) -> bool {
    forall|i: int, j: int| 0 <= i < j < s.len() ==> s[i].timestamp < s[j].timestamp
}

/// The candle of bucket `ts` in `s`, if any.
pub open spec fn find_bucket(s: Seq<KLineV>, ts: u64) -> Option<KLineV>
    decreases s.len(),
{
    if s.len() == 0 {
        None
    } else if s[0].timestamp == ts {
        Some(s[0])
    } else {
        find_bucket(s.drop_first(), ts)
    }
}

/// The bucket a tick falls into for an interval.
pub open spec fn bucket_of(t: TickV, iv: u64) -> u64
    recommends
        iv >= 1,
{
    bucket_start(t.timestamp, iv) as u64
}

/// The candle that results from folding tick `t` into series `prev` for
/// interval `iv`: the tick is applied to the candle of its bucket, which is
/// created from the tick's price if the bucket is new.
pub open spec fn candle_for(prev: Seq<KLineV>, t: TickV, iv: u64) -> KLineV
    recommends
        iv >= 1,
{
    match find_bucket(prev, bucket_of(t, iv)) {
        Some(k) => kline_apply(k, t),
        None => kline_apply(fresh_kline(t.symbol, bucket_of(t, iv), iv, t.price), t),
    }
}

/// Where a candle of bucket `ts` sits (or is inserted) in an ascending
/// series: the index of the first bucket at or past `ts`.
pub open spec fn upsert_pos(s: Seq<KLineV>, ts: u64) -> int
    decreases s.len(),
{
    if s.len() == 0 {
        0
    } else if s[0].timestamp >= ts {
        0
    } else {
        1 + upsert_pos(s.drop_first(), ts)
    }
}

/// A series with candle `k` placed at its bucket: replacing the bucket's
/// candle when the bucket exists, inserted in ascending position otherwise.
pub open spec fn series_upsert(s: Seq<KLineV>, k: KLineV) -> Seq<KLineV> {
    let p = upsert_pos(s, k.timestamp);
    if p < s.len() && s[p].timestamp == k.timestamp {
        s.update(p, k)
    } else {
        s.insert(p, k)
    }
}

/// Whether folding `t` into series `prev` for interval `iv` stays within
/// machine bounds: the bucket's end fits in 64 bits and an existing candle
/// of that bucket can absorb the tick without counter overflow.
pub open spec fn tick_fits(prev: Seq<KLineV>, t: TickV, iv: u64) -> bool
    recommends
        iv >= 1,
{
    &&& bucket_of(t, iv) + iv <= u64::MAX
    &&& match find_bucket(prev, bucket_of(t, iv)) {
        Some(k) => kline_can_absorb(k, t),
        None => true,
    }
}

/// How many of the intervals in `ivs` hold no candle yet, in `b`, for the
/// bucket that tick `t` falls into: the number of candles one
/// `process_tick` call creates (the others are updated in place).
pub open spec fn created_count(b: KLineBuilder, t: TickV, ivs: Seq<u64>) -> nat
    decreases ivs.len(),
{
    if ivs.len() == 0 {
        0
    } else {
        created_count(b, t, ivs.drop_last()) + (if find_bucket(
            b.klines_at(t.symbol, ivs.last()),
            bucket_of(t, ivs.last()),
        ) is None {
            1nat
        } else {
            0nat
        })
    }
}

spec fn views_of(ks: Seq<KLine>) -> Seq<KLineV> {
    ks.map_values(|k: KLine| k@)
}

spec fn series_in(ss: Seq<IntervalSeries>, iv: u64) -> Seq<KLineV>
    decreases ss.len(),
{
    if ss.len() == 0 {
        Seq::empty()
    } else if ss[0].interval == iv {
        views_of(ss[0].klines@)
    } else {
        series_in(ss.drop_first(), iv)
    }
}

spec fn series_at(st: Seq<SymbolSeries>, sym: Seq<char>, iv: u64) -> Seq<KLineV>
    decreases st.len(),
{
    if st.len() == 0 {
        Seq::empty()
    } else if st[0].symbol@ == sym {
        series_in(st[0].series@, iv)
    } else {
        series_at(st.drop_first(), sym, iv)
    }
}

spec fn sym_views(st: Seq<SymbolSeries>) -> Seq<Seq<char>> {
    st.map_values(|e: SymbolSeries| e.symbol@)
}

spec fn one_series_wf(sym: Seq<char>, s: IntervalSeries) -> bool {
    &&& s.interval >= 1
    &&& sorted_by_bucket(views_of(s.klines@))
    &&& forall|i: int|
        0 <= i < s.klines@.len() ==> {
            &&& kline_wf(#[trigger] s.klines@[i]@)
            &&& s.klines@[i]@.symbol == sym
            &&& s.klines@[i]@.interval == s.interval
        }
}

spec fn entry_wf(e: SymbolSeries) -> bool {
    &&& forall|i: int| 0 <= i < e.series@.len() ==> one_series_wf(e.symbol@, #[trigger] e.series@[i])
    &&& forall|i: int, j: int|
        0 <= i < j < e.series@.len() ==> e.series@[i].interval != e.series@[j].interval
}

impl KLineBuilder {
    /// The configured intervals, in configuration order.
    pub closed spec fn configured_intervals(&self) -> Seq<u64> {
        self.intervals@
    }

    /// The instruments seen so far, in order of first appearance.
    pub closed spec fn symbols(&self) -> Seq<Seq<char>> {
        sym_views(self.store@)
    }

    /// The candle series held for one (instrument, interval) key, in
    /// ascending bucket order; empty when the key has never been touched.
    pub closed spec fn klines_at(&self, sym: Seq<char>, iv: u64) -> Seq<KLineV> {
        series_at(self.store@, sym, iv)
    }

    /// Intervals are nonzero and distinct; symbols are unique; every series
    /// is sorted, and every stored candle is well formed and carries its
    /// own key.
    pub closed spec fn wf(&self) -> bool {
        &&& forall|i: int| 0 <= i < self.intervals@.len() ==> #[trigger] self.intervals@[i] >= 1
        &&& forall|i: int, j: int|
            0 <= i < j < self.intervals@.len() ==> self.intervals@[i] != self.intervals@[j]
        &&& forall|i: int| 0 <= i < self.store@.len() ==> entry_wf(#[trigger] self.store@[i])
        &&& forall|i: int, j: int|
            0 <= i < j < self.store@.len() ==> self.store@[i].symbol@ != self.store@[j].symbol@
    }

    /// Whether folding tick `t` into the current store stays within machine
    /// bounds for every configured interval.
    pub open spec fn can_accept(&self, t: TickV) -> bool {
        forall|j: int|
            0 <= j < self.configured_intervals().len() ==> tick_fits(
                self.klines_at(t.symbol, #[trigger] self.configured_intervals()[j]),
                t,
                self.configured_intervals()[j],
            )
    }

    /// Create a builder for the given interval set. Intervals are bucket
    /// lengths in seconds: each must be nonzero, and as a set they must not
    /// repeat.
    pub fn new(intervals: Vec<u64>) -> (r: KLineBuilder)
        requires
            forall|i: int| 0 <= i < intervals@.len() ==> #[trigger] intervals@[i] >= 1,
            forall|i: int, j: int|
                0 <= i < j < intervals@.len() ==> intervals@[i] != intervals@[j],
        ensures
            r.wf(),
            r.configured_intervals() == intervals@,
            r.symbols() == Seq::<Seq<char>>::empty(),
            forall|sym: Seq<char>, iv: u64| r.klines_at(sym, iv) == Seq::<KLineV>::empty(),
            r.total_candles() == 0,
    {
        let r = KLineBuilder { intervals, store: Vec::new() };
        proof {
            assert(r.symbols() =~= Seq::<Seq<char>>::empty());
        }
        r
    }

    /// The standard interval set: 1m, 5m, 15m, 1h, 4h, 1d.
    pub fn standard() -> (r: KLineBuilder)
        ensures
            r.wf(),
            r.configured_intervals() == seq![60u64, 300u64, 900u64, 3600u64, 14400u64, 86400u64],
            r.symbols() == Seq::<Seq<char>>::empty(),
            forall|sym: Seq<char>, iv: u64| r.klines_at(sym, iv) == Seq::<KLineV>::empty(),
            r.total_candles() == 0,
    {
        let intervals: Vec<u64> = vec![60, 300, 900, 3600, 14400, 86400];
        proof {
            assert(intervals@ =~= seq![60u64, 300u64, 900u64, 3600u64, 14400u64, 86400u64]);
        }
        KLineBuilder::new(intervals)
    }

    /// Drop every stored candle; the interval configuration stays.
    pub fn clear(&mut self)
        requires
            old(self).wf(),
        ensures
            final(self).wf(),
            final(self).configured_intervals() == old(self).configured_intervals(),
            final(self).symbols() == Seq::<Seq<char>>::empty(),
            forall|sym: Seq<char>, iv: u64| final(self).klines_at(sym, iv) == Seq::<
                KLineV,
            >::empty(),
            final(self).total_candles() == 0,
    {
        self.store.clear();
        proof {
            assert(self.symbols() =~= Seq::<Seq<char>>::empty());
        }
    }
}

proof fn lemma_upsert_pos_char(s: Seq<KLineV>, ts: u64, p: int)
    requires
        0 <= p <= s.len(),
        forall|i: int| 0 <= i < p ==> s[i].timestamp < ts,
        p < s.len() ==> s[p].timestamp >= ts,
    ensures
        p == upsert_pos(s, ts),
    decreases s.len(),
{
    if s.len() == 0 {
    } else if s[0].timestamp >= ts {
        assert(p == 0);
    } else {
        assert(p >= 1);
        lemma_upsert_pos_char(s.drop_first(), ts, p - 1);
    }
}

proof fn lemma_find_bucket_at(s: Seq<KLineV>, ts: u64, p: int)
    requires
        0 <= p < s.len(),
        forall|i: int| 0 <= i < p ==> s[i].timestamp < ts,
        s[p].timestamp == ts,
    ensures
        find_bucket(s, ts) == Some(s[p]),
    decreases s.len(),
{
    if p == 0 {
    } else {
        lemma_find_bucket_at(s.drop_first(), ts, p - 1);
    }
}

proof fn lemma_find_bucket_none(s: Seq<KLineV>, ts: u64, p: int)
    requires
        sorted_by_bucket(s),
        0 <= p <= s.len(),
        forall|i: int| 0 <= i < p ==> s[i].timestamp < ts,
        p == s.len() || s[p].timestamp > ts,
    ensures
        find_bucket(s, ts) is None,
    decreases s.len(),
{
    if s.len() == 0 {
    } else if p == 0 {
        assert(s[0].timestamp > ts);
        lemma_find_bucket_none(s.drop_first(), ts, 0);
    } else {
        lemma_find_bucket_none(s.drop_first(), ts, p - 1);
    }
}

/// Fold one tick into one interval's candle series: update the candle of
/// the tick's bucket in place, creating it from the tick's price first when
/// the bucket is new. Returns the updated candle.
fn upsert_kline(klines: &mut Vec<KLine>, tick: &Tick, iv: u64, ts: u64) -> (out: KLine)
    requires
        iv >= 1,
        ts == bucket_of(tick@, iv),
        tick_fits(views_of(old(klines)@), tick@, iv),
        sorted_by_bucket(views_of(old(klines)@)),
        forall|i: int|
            0 <= i < old(klines)@.len() ==> {
                &&& kline_wf(#[trigger] old(klines)@[i]@)
                &&& old(klines)@[i]@.symbol == tick@.symbol
                &&& old(klines)@[i]@.interval == iv
            },
    ensures
        out@ == candle_for(views_of(old(klines)@), tick@, iv),
        out@.symbol == tick@.symbol,
        out@.interval == iv,
        views_of(final(klines)@) == series_upsert(views_of(old(klines)@), out@),
        sorted_by_bucket(views_of(final(klines)@)),
        final(klines)@.len() == old(klines)@.len() + (if find_bucket(
            views_of(old(klines)@),
            ts,
        ) is None {
            1int
        } else {
            0int
        }),
        forall|i: int|
            0 <= i < final(klines)@.len() ==> {
                &&& kline_wf(#[trigger] final(klines)@[i]@)
                &&& final(klines)@[i]@.symbol == tick@.symbol
                &&& final(klines)@[i]@.interval == iv
            },
{
    let ghost v0 = views_of(klines@);
    let mut p: usize = 0;
    while p < klines.len() && klines[p].timestamp < ts
        invariant
            klines == old(klines),
            0 <= p <= klines@.len(),
            forall|i: int| 0 <= i < p ==> views_of(klines@)[i].timestamp < ts,
        decreases klines@.len() - p,
    {
        p = p + 1;
    }
    proof {
        lemma_upsert_pos_char(v0, ts, p as int);
    }
    if p < klines.len() && klines[p].timestamp == ts {
        proof {
            lemma_find_bucket_at(v0, ts, p as int);
        }
        let mut k = klines.remove(p);
        k.update(tick);
        let out = k.duplicate();
        klines.insert(p, k);
        proof {
            lemma_kline_apply_preserves_wf(v0[p as int], tick@);
            assert(klines@ =~= old(klines)@.update(p as int, klines@[p as int]));
            assert(views_of(klines@) =~= v0.update(p as int, out@));
            assert(views_of(klines@) =~= series_upsert(v0, out@));
        }
        out
    } else {
        proof {
            lemma_find_bucket_none(v0, ts, p as int);
            assert(tick@.price * tick@.quantity <= u64::MAX * u64::MAX) by (nonlinear_arith)
                requires
                    tick@.price <= u64::MAX,
                    tick@.quantity <= u64::MAX,
            ;
            lemma_fresh_kline_wf(tick@.symbol, ts, iv, tick@.price);
        }
        let mut k = KLine::new(tick.symbol.clone(), ts, iv, tick.price);
        k.update(tick);
        proof {
            lemma_kline_apply_preserves_wf(fresh_kline(tick@.symbol, ts, iv, tick@.price), tick@);
        }
        let out = k.duplicate();
        klines.insert(p, k);
        proof {
            assert(views_of(klines@) =~= v0.insert(p as int, out@));
            assert(views_of(klines@) =~= series_upsert(v0, out@));
            assert forall|i: int, j: int|
                0 <= i < j < views_of(klines@).len() implies views_of(klines@)[i].timestamp
                < views_of(klines@)[j].timestamp by {
                if i < p && j < p {
                } else if i < p && j == p {
                } else if i < p && j > p {
                } else if i == p {
                    assert(views_of(klines@)[j] == v0[j - 1]);
                    assert(v0[j - 1].timestamp >= ts);
                    assert(v0[j - 1].timestamp != ts) by {
                        if v0[j - 1].timestamp == ts {
                            lemma_find_bucket_at(v0, ts, j - 1);
                        }
                    }
                } else {
                }
            }
        }
        out
    }
}

proof fn lemma_series_in_found(ss: Seq<IntervalSeries>, i: int, iv: u64)
    requires
        0 <= i < ss.len(),
        ss[i].interval == iv,
        forall|j: int| 0 <= j < i ==> ss[j].interval != iv,
    ensures
        series_in(ss, iv) == views_of(ss[i].klines@),
    decreases ss.len(),
{
    if i == 0 {
    } else {
        lemma_series_in_found(ss.drop_first(), i - 1, iv);
    }
}

proof fn lemma_series_in_absent(ss: Seq<IntervalSeries>, iv: u64)
    requires
        forall|j: int| 0 <= j < ss.len() ==> ss[j].interval != iv,
    ensures
        series_in(ss, iv) == Seq::<KLineV>::empty(),
    decreases ss.len(),
{
    if ss.len() > 0 {
        lemma_series_in_absent(ss.drop_first(), iv);
    }
}

proof fn lemma_series_in_update(ss: Seq<IntervalSeries>, i: int, s2: IntervalSeries, v: u64)
    requires
        0 <= i < ss.len(),
        s2.interval == ss[i].interval,
        forall|j: int| 0 <= j < ss.len() && j != i ==> ss[j].interval != s2.interval,
    ensures
        series_in(ss.update(i, s2), v) == if v == s2.interval {
            views_of(s2.klines@)
        } else {
            series_in(ss, v)
        },
    decreases ss.len(),
{
    if i == 0 {
        assert(ss.update(0, s2).drop_first() =~= ss.drop_first());
    } else {
        lemma_series_in_update(ss.drop_first(), i - 1, s2, v);
        assert(ss.update(i, s2).drop_first() =~= ss.drop_first().update(i - 1, s2));
        assert(ss.update(i, s2)[0] == ss[0]);
    }
}

proof fn lemma_series_in_push(ss: Seq<IntervalSeries>, s2: IntervalSeries, v: u64)
    requires
        forall|j: int| 0 <= j < ss.len() ==> ss[j].interval != s2.interval,
    ensures
        series_in(ss.push(s2), v) == if v == s2.interval {
            views_of(s2.klines@)
        } else {
            series_in(ss, v)
        },
    decreases ss.len(),
{
    if ss.len() == 0 {
        assert(ss.push(s2)[0] == s2);
        assert(ss.push(s2).drop_first() =~= Seq::<IntervalSeries>::empty());
        if v == s2.interval {
            assert(series_in(ss.push(s2), v) == views_of(s2.klines@));
        } else {
            assert(series_in(ss.push(s2), v) == series_in(Seq::<IntervalSeries>::empty(), v));
            assert(series_in(ss, v) == Seq::<KLineV>::empty());
        }
    } else {
        lemma_series_in_push(ss.drop_first(), s2, v);
        assert(ss.push(s2).drop_first() =~= ss.drop_first().push(s2));
        assert(ss.push(s2)[0] == ss[0]);
        if v == ss[0].interval {
            assert(series_in(ss.push(s2), v) == views_of(ss.push(s2)[0].klines@));
            assert(series_in(ss, v) == views_of(ss[0].klines@));
        } else {
            assert(series_in(ss.push(s2), v) == series_in(ss.drop_first().push(s2), v));
            assert(series_in(ss, v) == series_in(ss.drop_first(), v));
        }
    }
}

/// Fold one tick into one symbol's store for one interval, creating the
/// interval's series on first use. Returns the updated candle.
fn apply_to_entry(e: &mut SymbolSeries, tick: &Tick, iv: u64, ts: u64) -> (out: KLine)
    requires
        iv >= 1,
        ts == bucket_of(tick@, iv),
        old(e).symbol@ == tick@.symbol,
        entry_wf(*old(e)),
        tick_fits(series_in(old(e).series@, iv), tick@, iv),
    ensures
        final(e).symbol == old(e).symbol,
        entry_wf(*final(e)),
        out@ == candle_for(series_in(old(e).series@, iv), tick@, iv),
        out@.symbol == tick@.symbol,
        out@.interval == iv,
        series_in(final(e).series@, iv) == series_upsert(series_in(old(e).series@, iv), out@),
        forall|v: u64| v != iv ==> series_in(final(e).series@, v) == series_in(old(e).series@, v),
        count_series_list(final(e).series@) == count_series_list(old(e).series@) + (
        if find_bucket(series_in(old(e).series@, iv), bucket_of(tick@, iv)) is None {
            1int
        } else {
            0int
        }),
{
    let ghost ss0 = e.series@;
    let mut i: usize = 0;
    while i < e.series.len() && e.series[i].interval != iv
        invariant
            e == old(e),
            0 <= i <= e.series@.len(),
            forall|j: int| 0 <= j < i ==> e.series@[j].interval != iv,
        decreases e.series@.len() - i,
    {
        i = i + 1;
    }
    if i == e.series.len() {
        let fresh_series = IntervalSeries { interval: iv, klines: Vec::new() };
        e.series.push(fresh_series);
        proof {
            lemma_count_series_push(ss0, e.series@[i as int]);
            assert forall|v: u64| true implies series_in(e.series@, v) == (if v == iv {
                views_of(e.series@[i as int].klines@)
            } else {
                series_in(ss0, v)
            }) by {
                lemma_series_in_push(ss0, e.series@[i as int], v);
            }
            lemma_series_in_absent(ss0, iv);
            assert(views_of(e.series@[i as int].klines@) =~= Seq::<KLineV>::empty());
        }
    }
    let ghost ss1 = e.series@;
    // In either case the series at index i is the one for `iv`, it holds
    // exactly `series_in(ss0, iv)`, and no other series is for `iv`.
    proof {
        assert(series_in(ss1, iv) == series_in(ss0, iv));
        assert(views_of(ss1[i as int].klines@) == series_in(ss0, iv)) by {
            if i < ss0.len() {
                lemma_series_in_found(ss0, i as int, iv);
            }
        }
        assert(forall|v: u64| v != iv ==> series_in(ss1, v) == series_in(ss0, v));
    }
    let mut s_i = e.series.remove(i);
    let out = upsert_kline(&mut s_i.klines, tick, iv, ts);
    e.series.insert(i, s_i);
    proof {
        assert(e.series@ =~= ss1.update(i as int, e.series@[i as int]));
        assert forall|v: u64| true implies series_in(e.series@, v) == (if v == iv {
            views_of(e.series@[i as int].klines@)
        } else {
            series_in(ss1, v)
        }) by {
            lemma_series_in_update(ss1, i as int, e.series@[i as int], v);
        }
        lemma_count_series_update(ss1, i as int, e.series@[i as int]);
        assert(count_series_list(ss1) == count_series_list(ss0));
    }
    out
}

proof fn lemma_series_at_found(st: Seq<SymbolSeries>, i: int, sym: Seq<char>, iv: u64)
    requires
        0 <= i < st.len(),
        st[i].symbol@ == sym,
        forall|j: int| 0 <= j < i ==> st[j].symbol@ != sym,
    ensures
        series_at(st, sym, iv) == series_in(st[i].series@, iv),
    decreases st.len(),
{
    if i > 0 {
        lemma_series_at_found(st.drop_first(), i - 1, sym, iv);
    }
}

proof fn lemma_series_at_absent(st: Seq<SymbolSeries>, sym: Seq<char>, iv: u64)
    requires
        forall|j: int| 0 <= j < st.len() ==> st[j].symbol@ != sym,
    ensures
        series_at(st, sym, iv) == Seq::<KLineV>::empty(),
    decreases st.len(),
{
    if st.len() > 0 {
        lemma_series_at_absent(st.drop_first(), sym, iv);
    }
}

proof fn lemma_series_at_update(st: Seq<SymbolSeries>, i: int, e2: SymbolSeries, sym: Seq<char>, iv: u64)
    requires
        0 <= i < st.len(),
        e2.symbol@ == st[i].symbol@,
        forall|j: int| 0 <= j < i ==> st[j].symbol@ != st[i].symbol@,
    ensures
        series_at(st.update(i, e2), sym, iv) == if sym == st[i].symbol@ {
            series_in(e2.series@, iv)
        } else {
            series_at(st, sym, iv)
        },
    decreases st.len(),
{
    if i == 0 {
        assert(st.update(0, e2).drop_first() =~= st.drop_first());
    } else {
        lemma_series_at_update(st.drop_first(), i - 1, e2, sym, iv);
        assert(st.update(i, e2).drop_first() =~= st.drop_first().update(i - 1, e2));
        assert(st.update(i, e2)[0] == st[0]);
        if sym == st[0].symbol@ {
            assert(series_at(st.update(i, e2), sym, iv) == series_in(st[0].series@, iv));
            assert(series_at(st, sym, iv) == series_in(st[0].series@, iv));
        } else {
            assert(series_at(st.update(i, e2), sym, iv) == series_at(
                st.drop_first().update(i - 1, e2),
                sym,
                iv,
            ));
            assert(series_at(st, sym, iv) == series_at(st.drop_first(), sym, iv));
        }
    }
}

proof fn lemma_series_at_push(st: Seq<SymbolSeries>, e2: SymbolSeries, sym: Seq<char>, iv: u64)
    requires
        forall|j: int| 0 <= j < st.len() ==> st[j].symbol@ != e2.symbol@,
    ensures
        series_at(st.push(e2), sym, iv) == if sym == e2.symbol@ {
            series_in(e2.series@, iv)
        } else {
            series_at(st, sym, iv)
        },
    decreases st.len(),
{
    if st.len() == 0 {
        assert(st.push(e2)[0] == e2);
        assert(st.push(e2).drop_first() =~= Seq::<SymbolSeries>::empty());
        if sym == e2.symbol@ {
        } else {
            assert(series_at(st.push(e2), sym, iv) == series_at(
                Seq::<SymbolSeries>::empty(),
                sym,
                iv,
            ));
        }
    } else {
        lemma_series_at_push(st.drop_first(), e2, sym, iv);
        assert(st.push(e2).drop_first() =~= st.drop_first().push(e2));
        assert(st.push(e2)[0] == st[0]);
        if sym == st[0].symbol@ {
            assert(series_at(st.push(e2), sym, iv) == series_in(st[0].series@, iv));
            assert(series_at(st, sym, iv) == series_in(st[0].series@, iv));
        } else {
            assert(series_at(st.push(e2), sym, iv) == series_at(
                st.drop_first().push(e2),
                sym,
                iv,
            ));
            assert(series_at(st, sym, iv) == series_at(st.drop_first(), sym, iv));
        }
    }
}

proof fn lemma_find_bucket_timestamp(s: Seq<KLineV>, ts: u64)
    ensures
        find_bucket(s, ts) matches Some(k) ==> k.timestamp == ts,
    decreases s.len(),
{
    if s.len() > 0 {
        lemma_find_bucket_timestamp(s.drop_first(), ts);
    }
}

/// The index of the entry for `sym`, or the store's length when absent.
fn find_symbol_index(store: &Vec<SymbolSeries>, sym: &String) -> (i: usize)
    ensures
        0 <= i <= store@.len(),
        forall|j: int| 0 <= j < i ==> store@[j].symbol@ != sym@,
        i < store@.len() ==> store@[i as int].symbol@ == sym@,
{
    let mut si: usize = 0;
    while si < store.len() && !(store[si].symbol == *sym)
        invariant
            0 <= si <= store@.len(),
            forall|j: int| 0 <= j < si ==> store@[j].symbol@ != sym@,
        decreases store@.len() - si,
    {
        si = si + 1;
    }
    si
}

impl KLineBuilder {
    /// Fold one tick into the store: for every configured interval, in
    /// configuration order, update (or create) the candle of the bucket the
    /// tick falls into, and return the updated candle. Every other
    /// (instrument, interval) key is left untouched.
    #[verifier::rlimit(60)]
    #[verifier::loop_isolation(false)]
    pub fn process_tick(&mut self, tick: &Tick) -> (updated: Vec<KLine>)
        requires
            old(self).wf(),
            old(self).can_accept(tick@),
        ensures
            final(self).wf(),
            final(self).configured_intervals() == old(self).configured_intervals(),
            updated@.len() == old(self).configured_intervals().len(),
            forall|j: int|
                0 <= j < updated@.len() ==> updated@[j]@ == candle_for(
                    old(self).klines_at(tick@.symbol, old(self).configured_intervals()[j]),
                    tick@,
                    old(self).configured_intervals()[j],
                ),
            forall|j: int|
                0 <= j < updated@.len() ==> updated@[j]@.timestamp == bucket_of(
                    tick@,
                    old(self).configured_intervals()[j],
                ),
            forall|j: int|
                0 <= j < updated@.len() ==> final(self).klines_at(
                    tick@.symbol,
                    old(self).configured_intervals()[j],
                ) == series_upsert(
                    old(self).klines_at(tick@.symbol, old(self).configured_intervals()[j]),
                    updated@[j]@,
                ),
            forall|j: int|
                0 <= j < updated@.len() ==> (updated@[j]@.symbol == tick@.symbol && updated@[j]@.interval
                    == old(self).configured_intervals()[j]),
            forall|sym: Seq<char>, v: u64|
                !(sym == tick@.symbol && old(self).configured_intervals().contains(v))
                    ==> final(self).klines_at(sym, v) == old(self).klines_at(sym, v),
            final(self).total_candles() == old(self).total_candles() + created_count(
                *old(self),
                tick@,
                old(self).configured_intervals(),
            ),
            old(self).symbols().contains(tick@.symbol) || old(self).configured_intervals().len()
                == 0 ==> final(self).symbols() == old(self).symbols(),
            !old(self).symbols().contains(tick@.symbol) && old(
                self,
            ).configured_intervals().len() > 0 ==> final(self).symbols() == old(
                self,
            ).symbols().push(tick@.symbol),
    {
        let ghost cfg = self.intervals@;
        let ghost tsym = tick@.symbol;
        let ghost st_old = self.store@;

        if self.intervals.len() == 0 {
            // No interval, no work: the symbol is not even registered.
            return Vec::new();
        }
        let si: usize = find_symbol_index(&self.store, &tick.symbol);
        if si == self.store.len() {
            proof {
                assert(!sym_views(st_old).contains(tsym)) by {
                    if sym_views(st_old).contains(tsym) {
                        let j = choose|j: int|
                            0 <= j < sym_views(st_old).len() && sym_views(st_old)[j] == tsym;
                        assert(st_old[j].symbol@ == tsym);
                    }
                }
            }
            let entry = SymbolSeries { symbol: tick.symbol.clone(), series: Vec::new() };
            self.store.push(entry);
            proof {
                assert(sym_views(self.store@) =~= sym_views(st_old).push(tsym));
                assert forall|sym: Seq<char>, v: u64| true implies series_at(self.store@, sym, v)
                    == (if sym == tsym {
                    series_in(self.store@[si as int].series@, v)
                } else {
                    series_at(st_old, sym, v)
                }) by {
                    lemma_series_at_push(st_old, self.store@[si as int], sym, v);
                }
                assert forall|v: u64| true implies series_at(self.store@, tsym, v) == series_at(
                    st_old,
                    tsym,
                    v,
                ) by {
                    lemma_series_at_absent(st_old, tsym, v);
                }
            }
        } else {
            proof {
                assert(sym_views(st_old).contains(tsym)) by {
                    assert(sym_views(st_old)[si as int] == tsym);
                }
                assert(sym_views(self.store@) =~= sym_views(st_old));
            }
        }
        let ghost base = self.store@;
        proof {
            assert forall|sym: Seq<char>, v: u64| true implies series_at(base, sym, v)
                == series_at(st_old, sym, v) by {
                if si == st_old.len() {
                    lemma_series_at_push(st_old, base[si as int], sym, v);
                    lemma_series_at_absent(st_old, tsym, v);
                }
            }
            assert(self.symbols() == if sym_views(st_old).contains(tsym) {
                sym_views(st_old)
            } else {
                sym_views(st_old).push(tsym)
            });
            assert(count_store(base) == count_store(st_old)) by {
                if si == st_old.len() {
                    lemma_count_store_push(st_old, base[si as int]);
                }
            }
            assert(cfg.take(0).len() == 0);
        }

        let mut updated: Vec<KLine> = Vec::new();
        let mut j: usize = 0;
        while j < self.intervals.len()
            invariant
                self.wf(),
                self.intervals@ == cfg,
                si < self.store@.len(),
                self.store@.len() == base.len(),
                self.store@[si as int].symbol@ == tsym,
                forall|i: int| 0 <= i < si ==> self.store@[i].symbol@ != tsym,
                sym_views(self.store@) == sym_views(base),
                0 <= j <= cfg.len(),
                updated@.len() == j,
                forall|sym: Seq<char>, v: u64|
                    sym != tsym ==> series_at(self.store@, sym, v) == series_at(base, sym, v),
                forall|v: u64|
                    !cfg.take(j as int).contains(v) ==> series_at(self.store@, tsym, v)
                        == series_at(base, tsym, v),
                forall|m: int|
                    0 <= m < j ==> updated@[m]@ == candle_for(
                        series_at(base, tsym, cfg[m]),
                        tick@,
                        cfg[m],
                    ),
                forall|m: int|
                    0 <= m < j ==> series_at(self.store@, tsym, cfg[m]) == series_upsert(
                        series_at(base, tsym, cfg[m]),
                        updated@[m]@,
                    ),
                forall|m: int| #![trigger updated@[m]]
                    0 <= m < j ==> (updated@[m]@.symbol == tsym && updated@[m]@.interval == cfg[m]),
                count_store(self.store@) == count_store(base) + created_count(
                    *old(self),
                    tick@,
                    cfg.take(j as int),
                ),
                forall|v: u64|
                    series_at(base, tsym, v) == series_at(st_old, tsym, v),
                forall|sym: Seq<char>, v: u64|
                    sym != tsym ==> series_at(base, sym, v) == series_at(st_old, sym, v),
            decreases cfg.len() - j,
        {
            let iv = self.intervals[j];
            let ts = tick.kline_key_for_period(iv);
            proof {
                // This interval has not been touched yet, so its series is
                // still the one captured at entry, and the tick still fits it.
                assert(!cfg.take(j as int).contains(iv)) by {
                    if cfg.take(j as int).contains(iv) {
                        let m = choose|m: int|
                            0 <= m < j && cfg.take(j as int)[m] == iv;
                        assert(cfg[m] == cfg[j as int]);
                    }
                }
                assert(series_at(self.store@, tsym, iv) == series_at(st_old, tsym, iv));
                assert(tick_fits(series_at(st_old, tsym, iv), tick@, iv)) by {
                    assert(old(self).configured_intervals()[j as int] == iv);
                    assert(tick_fits(
                        old(self).klines_at(tsym, old(self).configured_intervals()[j as int]),
                        tick@,
                        old(self).configured_intervals()[j as int],
                    ));
                    assert(old(self).klines_at(tsym, iv) == series_at(st_old, tsym, iv));
                }
                lemma_series_at_found(self.store@, si as int, tsym, iv);
            }
            let ghost prev = self.store@;
            let mut e = self.store.remove(si);
            let out = apply_to_entry(&mut e, tick, iv, ts);
            self.store.insert(si, e);
            let ghost upd_prev = updated@;
            updated.push(out);
            proof {
                assert(out@.symbol == tsym && out@.interval == cfg[j as int]);
                assert forall|m: int| 0 <= m < j + 1 implies (updated@[m]@.symbol == tsym
                    && updated@[m]@.interval == cfg[m]) by {
                    if m < j {
                        assert(updated@[m] == upd_prev[m]);
                        assert(upd_prev[m]@.symbol == tsym && upd_prev[m]@.interval == cfg[m]);
                    } else {
                        assert(updated@[m] == out);
                    }
                }
                assert(self.store@ =~= prev.update(si as int, self.store@[si as int]));
                assert(sym_views(self.store@) =~= sym_views(prev));
                assert forall|sym: Seq<char>, v: u64| true implies series_at(self.store@, sym, v)
                    == (if sym == tsym {
                    series_in(self.store@[si as int].series@, v)
                } else {
                    series_at(prev, sym, v)
                }) by {
                    lemma_series_at_update(prev, si as int, self.store@[si as int], sym, v);
                }
                assert forall|v: u64| v != iv implies series_at(self.store@, tsym, v)
                    == series_at(prev, tsym, v) by {
                    lemma_series_at_found(prev, si as int, tsym, v);
                }
                assert(series_at(self.store@, tsym, iv) == series_in(
                    self.store@[si as int].series@,
                    iv,
                ));
                lemma_find_bucket_timestamp(series_at(st_old, tsym, iv), bucket_of(tick@, iv));
                assert forall|v: u64| !cfg.take(j as int + 1).contains(v) implies series_at(
                    self.store@,
                    tsym,
                    v,
                ) == series_at(base, tsym, v) by {
                    assert(!cfg.take(j as int).contains(v)) by {
                        if cfg.take(j as int).contains(v) {
                            let m = choose|m: int|
                                0 <= m < j && cfg.take(j as int)[m] == v;
                            assert(cfg.take(j as int + 1)[m] == v);
                        }
                    }
                    assert(v != iv) by {
                        assert(cfg.take(j as int + 1)[j as int] == iv);
                    }
                }
                assert forall|m: int| 0 <= m < j + 1 implies series_at(self.store@, tsym, cfg[m])
                    == series_upsert(series_at(base, tsym, cfg[m]), updated@[m]@) by {
                    if m < j {
                        assert(cfg[m] != iv);
                    }
                }
                lemma_count_store_update(prev, si as int, self.store@[si as int]);
                assert(cfg.take(j as int + 1).drop_last() =~= cfg.take(j as int));
                assert(cfg.take(j as int + 1).last() == cfg[j as int]);
                assert(count_store(self.store@) == count_store(base) + created_count(
                    *old(self),
                    tick@,
                    cfg.take(j as int + 1),
                ));
            }
            j = j + 1;
        }
        proof {
            assert(cfg.take(cfg.len() as int) =~= cfg);
            assert forall|sym: Seq<char>, v: u64|
                !(sym == tsym && cfg.contains(v)) implies series_at(self.store@, sym, v)
                == series_at(st_old, sym, v) by {
                if sym == tsym {
                    assert(!cfg.take(cfg.len() as int).contains(v));
                }
            }
            assert forall|m: int| 0 <= m < updated@.len() implies updated@[m]@.timestamp
                == bucket_of(tick@, cfg[m]) by {
                lemma_find_bucket_timestamp(series_at(st_old, tsym, cfg[m]), bucket_of(
                    tick@,
                    cfg[m],
                ));
            }
        }
        updated
    }
}


/// `n` capped at the largest `usize` value.
pub open spec fn capped_at_usize(n: nat) -> int {
    if n <= usize::MAX {
        n as int
    } else {
        usize::MAX as int
    }
}

spec fn count_series_list(ss: Seq<IntervalSeries>) -> nat
    decreases ss.len(),
{
    if ss.len() == 0 {
        0
    } else {
        count_series_list(ss.drop_last()) + ss.last().klines@.len()
    }
}

spec fn count_store(st: Seq<SymbolSeries>) -> nat
    decreases st.len(),
{
    if st.len() == 0 {
        0
    } else {
        count_store(st.drop_last()) + count_series_list(st.last().series@)
    }
}

proof fn lemma_count_series_push(ss: Seq<IntervalSeries>, s2: IntervalSeries)
    ensures
        count_series_list(ss.push(s2)) == count_series_list(ss) + s2.klines@.len(),
{
    assert(ss.push(s2).drop_last() =~= ss);
    assert(ss.push(s2).last() == s2);
}

proof fn lemma_count_series_update(ss: Seq<IntervalSeries>, i: int, s2: IntervalSeries)
    requires
        0 <= i < ss.len(),
    ensures
        count_series_list(ss.update(i, s2)) + ss[i].klines@.len() == count_series_list(ss)
            + s2.klines@.len(),
    decreases ss.len(),
{
    if i == ss.len() - 1 {
        assert(ss.update(i, s2).drop_last() =~= ss.drop_last());
        assert(ss.update(i, s2).last() == s2);
    } else {
        lemma_count_series_update(ss.drop_last(), i, s2);
        assert(ss.update(i, s2).drop_last() =~= ss.drop_last().update(i, s2));
        assert(ss.update(i, s2).last() == ss.last());
    }
}

proof fn lemma_count_store_push(st: Seq<SymbolSeries>, e: SymbolSeries)
    ensures
        count_store(st.push(e)) == count_store(st) + count_series_list(e.series@),
{
    assert(st.push(e).drop_last() =~= st);
    assert(st.push(e).last() == e);
}

proof fn lemma_count_store_update(st: Seq<SymbolSeries>, i: int, e2: SymbolSeries)
    requires
        0 <= i < st.len(),
    ensures
        count_store(st.update(i, e2)) + count_series_list(st[i].series@) == count_store(st)
            + count_series_list(e2.series@),
    decreases st.len(),
{
    if i == st.len() - 1 {
        assert(st.update(i, e2).drop_last() =~= st.drop_last());
        assert(st.update(i, e2).last() == e2);
    } else {
        lemma_count_store_update(st.drop_last(), i, e2);
        assert(st.update(i, e2).drop_last() =~= st.drop_last().update(i, e2));
        assert(st.update(i, e2).last() == st.last());
    }
}

fn sat_add(a: usize, b: usize) -> (r: usize)
    ensures
        r == if a + b <= usize::MAX {
            a + b
        } else {
            usize::MAX as int
        },
{
    if a <= usize::MAX - b {
        a + b
    } else {
        usize::MAX
    }
}

impl KLineBuilder {
    /// The total number of candles currently stored, over all instruments,
    /// intervals and buckets.
    pub closed spec fn total_candles(&self) -> nat {
        count_store(self.store@)
    }

    /// The candle with the greatest bucket start held for the key, or
    /// `None` when the key holds no candle.
    #[verifier::loop_isolation(false)]
    pub fn get_latest_kline(&self, symbol: &str, interval: u64) -> (r: Option<KLine>)
        requires
            self.wf(),
        ensures
            (r is Some) <==> self.klines_at(symbol@, interval).len() > 0,
            r matches Some(k) ==> {
                &&& k@ == self.klines_at(symbol@, interval).last()
                &&& forall|i: int|
                    0 <= i < self.klines_at(symbol@, interval).len() ==> self.klines_at(
                        symbol@,
                        interval,
                    )[i].timestamp <= k@.timestamp
            },
    {
        let key = symbol.to_owned();
        let si = find_symbol_index(&self.store, &key);
        if si == self.store.len() {
            proof {
                lemma_series_at_absent(self.store@, symbol@, interval);
            }
            return None;
        }
        proof {
            lemma_series_at_found(self.store@, si as int, symbol@, interval);
        }
        let entry = &self.store[si];
        let mut x: usize = 0;
        while x < entry.series.len() && entry.series[x].interval != interval
            invariant
                0 <= x <= entry.series@.len(),
                forall|j: int| 0 <= j < x ==> entry.series@[j].interval != interval,
            decreases entry.series@.len() - x,
        {
            x = x + 1;
        }
        if x == entry.series.len() {
            proof {
                lemma_series_in_absent(entry.series@, interval);
            }
            return None;
        }
        proof {
            lemma_series_in_found(entry.series@, x as int, interval);
        }
        let klines = &entry.series[x].klines;
        if klines.len() == 0 {
            None
        } else {
            let k = klines[klines.len() - 1].duplicate();
            proof {
                let ghost s = self.klines_at(symbol@, interval);
                assert(s == views_of(klines@));
                assert(k@ == s.last());
                assert forall|m: int| 0 <= m < s.len() implies s[m].timestamp <= k@.timestamp by {
                    assert(sorted_by_bucket(s));
                    if m < s.len() - 1 {
                        assert(s[m].timestamp < s[s.len() - 1].timestamp);
                    }
                }
            }
            Some(k)
        }
    }

    /// All candles held for the key, in ascending bucket order; empty when
    /// the key holds none.
    #[verifier::loop_isolation(false)]
    pub fn get_klines(&self, symbol: &str, interval: u64) -> (r: Vec<KLine>)
        requires
            self.wf(),
        ensures
            r@.map_values(|k: KLine| k@) == self.klines_at(symbol@, interval),
            sorted_by_bucket(r@.map_values(|k: KLine| k@)),
    {
        let mut out: Vec<KLine> = Vec::new();
        let key = symbol.to_owned();
        let si = find_symbol_index(&self.store, &key);
        if si == self.store.len() {
            proof {
                lemma_series_at_absent(self.store@, symbol@, interval);
                assert(views_of(out@) =~= self.klines_at(symbol@, interval));
            }
            return out;
        }
        proof {
            lemma_series_at_found(self.store@, si as int, symbol@, interval);
        }
        let entry = &self.store[si];
        let mut x: usize = 0;
        while x < entry.series.len() && entry.series[x].interval != interval
            invariant
                0 <= x <= entry.series@.len(),
                forall|j: int| 0 <= j < x ==> entry.series@[j].interval != interval,
            decreases entry.series@.len() - x,
        {
            x = x + 1;
        }
        if x == entry.series.len() {
            proof {
                lemma_series_in_absent(entry.series@, interval);
                assert(views_of(out@) =~= self.klines_at(symbol@, interval));
            }
            return out;
        }
        proof {
            lemma_series_in_found(entry.series@, x as int, interval);
        }
        let klines = &entry.series[x].klines;
        let mut i: usize = 0;
        while i < klines.len()
            invariant
                0 <= i <= klines@.len(),
                out@.len() == i,
                forall|m: int| 0 <= m < i ==> out@[m]@ == klines@[m]@,
            decreases klines@.len() - i,
        {
            out.push(klines[i].duplicate());
            i = i + 1;
        }
        proof {
            assert(views_of(out@) =~= views_of(klines@));
        }
        out
    }

    /// Aggregate counts: how many instruments are tracked, how many candles
    /// are stored in total (capped at `usize::MAX`), and the configured
    /// intervals.
    #[verifier::loop_isolation(false)]
    pub fn get_stats(&self) -> (r: KLineStats)
        ensures
            r.total_symbols == self.symbols().len(),
            r.total_klines == capped_at_usize(self.total_candles()),
            r.intervals@ == self.configured_intervals(),
    {
        let mut total: usize = 0;
        let mut i: usize = 0;
        while i < self.store.len()
            invariant
                0 <= i <= self.store@.len(),
                total == capped_at_usize(count_store(self.store@.take(i as int))),
            decreases self.store@.len() - i,
        {
            let series_list = &self.store[i].series;
            let ghost base_count = count_store(self.store@.take(i as int));
            let mut x: usize = 0;
            while x < series_list.len()
                invariant
                    0 <= x <= series_list@.len(),
                    total == capped_at_usize(
                        base_count + count_series_list(series_list@.take(x as int)),
                    ),
                decreases series_list@.len() - x,
            {
                total = sat_add(total, series_list[x].klines.len());
                proof {
                    assert(series_list@.take(x as int + 1).drop_last() =~= series_list@.take(
                        x as int,
                    ));
                    assert(series_list@.take(x as int + 1).last() == series_list@[x as int]);
                }
                x = x + 1;
            }
            proof {
                assert(series_list@.take(series_list@.len() as int) =~= series_list@);
                assert(self.store@.take(i as int + 1).drop_last() =~= self.store@.take(i as int));
                assert(self.store@.take(i as int + 1).last() == self.store@[i as int]);
            }
            i = i + 1;
        }
        proof {
            assert(self.store@.take(self.store@.len() as int) =~= self.store@);
        }
        let mut intervals: Vec<u64> = Vec::new();
        let mut j: usize = 0;
        while j < self.intervals.len()
            invariant
                0 <= j <= self.intervals@.len(),
                intervals@ == self.intervals@.take(j as int),
            decreases self.intervals@.len() - j,
        {
            intervals.push(self.intervals[j]);
            proof {
                assert(intervals@ =~= self.intervals@.take(j as int + 1));
            }
            j = j + 1;
        }
        proof {
            assert(intervals@ =~= self.intervals@);
        }
        KLineStats { total_symbols: self.store.len(), total_klines: total, intervals }
    }
}

proof fn lemma_find_bucket_scan(s: Seq<KLineV>, ts: u64, p: int)
    requires
        0 <= p <= s.len(),
        forall|i: int| 0 <= i < p ==> s[i].timestamp != ts,
        p < s.len() ==> s[p].timestamp == ts,
    ensures
        find_bucket(s, ts) == if p < s.len() {
            Some(s[p])
        } else {
            None::<KLineV>
        },
    decreases s.len(),
{
    if s.len() == 0 {
    } else if p == 0 {
    } else {
        lemma_find_bucket_scan(s.drop_first(), ts, p - 1);
    }
}

fn series_fits(klines: &Vec<KLine>, tick: &Tick, iv: u64, ts: u64) -> (r: bool)
    requires
        iv >= 1,
        ts == bucket_of(tick@, iv),
        ts + iv <= u64::MAX,
    ensures
        r == tick_fits(views_of(klines@), tick@, iv),
{
    let mut p: usize = 0;
    while p < klines.len() && klines[p].timestamp != ts
        invariant
            0 <= p <= klines@.len(),
            forall|i: int| 0 <= i < p ==> views_of(klines@)[i].timestamp != ts,
        decreases klines@.len() - p,
    {
        p = p + 1;
    }
    proof {
        lemma_find_bucket_scan(views_of(klines@), ts, p as int);
    }
    if p == klines.len() {
        return true;
    }
    let k = &klines[p];
    proof {
        assert(tick@.price * tick@.quantity <= u64::MAX * u64::MAX) by (nonlinear_arith)
            requires
                tick@.price <= u64::MAX,
                tick@.quantity <= u64::MAX,
        ;
    }
    let prod = (tick.price as u128) * (tick.quantity as u128);
    k.volume <= u64::MAX - tick.quantity && k.quote_asset_volume <= u128::MAX - prod
        && k.number_of_trades < u64::MAX
}

impl KLineBuilder {
    /// Whether `process_tick` can take this tick now: true exactly when no
    /// candle counter would leave its range. With fixed-point units this
    /// takes an astronomical accumulated volume in one bucket, but a caller
    /// that cannot rule it out checks here first and treats a refusal like
    /// any other shed event.
    #[verifier::loop_isolation(false)]
    pub fn can_process(&self, tick: &Tick) -> (r: bool)
        requires
            self.wf(),
        ensures
            r == self.can_accept(tick@),
    {
        let ghost cfg = self.intervals@;
        let ghost tsym = tick@.symbol;
        let mut j: usize = 0;
        while j < self.intervals.len()
            invariant
                0 <= j <= cfg.len(),
                forall|m: int|
                    0 <= m < j ==> tick_fits(
                        self.klines_at(tsym, #[trigger] cfg[m]),
                        tick@,
                        cfg[m],
                    ),
            decreases cfg.len() - j,
        {
            let iv = self.intervals[j];
            let ts = tick.kline_key_for_period(iv);
            if ts > u64::MAX - iv {
                proof {
                    assert(!tick_fits(self.klines_at(tsym, cfg[j as int]), tick@, cfg[j as int]));
                    assert(self.configured_intervals()[j as int] == iv);
                }
                return false;
            }
            let si = find_symbol_index(&self.store, &tick.symbol);
            if si == self.store.len() {
                proof {
                    lemma_series_at_absent(self.store@, tsym, iv);
                    assert(find_bucket(Seq::<KLineV>::empty(), ts) is None);
                }
            } else {
                proof {
                    lemma_series_at_found(self.store@, si as int, tsym, iv);
                }
                let entry = &self.store[si];
                let mut x: usize = 0;
                while x < entry.series.len() && entry.series[x].interval != iv
                    invariant
                        0 <= x <= entry.series@.len(),
                        forall|m: int| 0 <= m < x ==> entry.series@[m].interval != iv,
                    decreases entry.series@.len() - x,
                {
                    x = x + 1;
                }
                if x == entry.series.len() {
                    proof {
                        lemma_series_in_absent(entry.series@, iv);
                        assert(find_bucket(Seq::<KLineV>::empty(), ts) is None);
                    }
                } else {
                    proof {
                        lemma_series_in_found(entry.series@, x as int, iv);
                    }
                    if !series_fits(&entry.series[x].klines, tick, iv, ts) {
                        proof {
                            assert(!tick_fits(
                                self.klines_at(tsym, cfg[j as int]),
                                tick@,
                                cfg[j as int],
                            ));
                            assert(self.configured_intervals()[j as int] == iv);
                        }
                        return false;
                    }
                }
            }
            j = j + 1;
        }
        proof {
            assert(self.can_accept(tick@));
        }
        true
    }
}

/// For a fixed interval, two ticks whose timestamps map to the same bucket
/// combine into one candle: starting from an empty series, folding in the
/// first tick and then the second yields a candle whose open is the first
/// tick's price, whose close is the second's, whose high and low are the
/// running extrema, and whose volume, quote volume and trade count are the
/// exact sums.
pub proof fn lemma_same_bucket_ticks_combine(t1: TickV, t2: TickV, iv: u64)
    requires
        iv >= 1,
        t1.symbol == t2.symbol,
        bucket_of(t1, iv) == bucket_of(t2, iv),
        bucket_of(t1, iv) + iv <= u64::MAX,
        t1.quantity + t2.quantity <= u64::MAX,
        t1.price * t1.quantity + t2.price * t2.quantity <= u128::MAX,
    ensures
        ({
            let k1 = candle_for(Seq::<KLineV>::empty(), t1, iv);
            let k2 = candle_for(series_upsert(Seq::<KLineV>::empty(), k1), t2, iv);
            &&& k2.open == t1.price
            &&& k2.close == t2.price
            &&& k2.high == if t1.price > t2.price {
                t1.price
            } else {
                t2.price
            }
            &&& k2.low == if t1.price < t2.price {
                t1.price
            } else {
                t2.price
            }
            &&& k2.volume == t1.quantity + t2.quantity
            &&& k2.quote_asset_volume == t1.price * t1.quantity + t2.price * t2.quantity
            &&& k2.number_of_trades == 2
            &&& k2.timestamp == bucket_of(t1, iv)
        }),
{
    let k1 = candle_for(Seq::<KLineV>::empty(), t1, iv);
    let s1 = series_upsert(Seq::<KLineV>::empty(), k1);
    assert(s1 =~= seq![k1]);
    assert(find_bucket(s1, bucket_of(t2, iv)) == Some(k1));
}

} // verus!
