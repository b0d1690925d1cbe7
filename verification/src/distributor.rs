//! Publish/subscribe fan-out of candle updates, keyed by
//! (instrument, interval).
//!
//! Each key owns one tokio broadcast channel with a bounded backlog: every
//! subscriber tracks its own read position, a slow subscriber skips missed
//! updates instead of stalling the publisher, and publishing never blocks.
//! A channel is created on first subscribe; publishing to a key that has no
//! channel is a no-op that reports zero subscribers.

use vstd::prelude::*;
use vstd::string::StringExecFns;

use crate::keys::channel_key;
use crate::models::{KLine, KLineV};

verus! {

#[verifier::external_type_specification]
#[verifier::external_body]
#[verifier::reject_recursive_types(T)]
pub struct ExBroadcastSender<T>(tokio::sync::broadcast::Sender<T>);

#[verifier::external_type_specification]
#[verifier::external_body]
#[verifier::reject_recursive_types(T)]
pub struct ExBroadcastReceiver<T>(tokio::sync::broadcast::Receiver<T>);

/// A published candle update: the candle and whether its bucket is known
/// to be final. This layer never decides finality itself; the flag is
/// supplied by the caller of `broadcast_kline`.
#[derive(Debug, Clone)]
pub struct KLineEvent {
    pub kline: KLine,
    pub is_closed: bool,
}

/// The events ever sent on a broadcast channel, oldest first, each with
/// its closed flag.
pub uninterp spec fn chan_events(tx: tokio::sync::broadcast::Sender<KLineEvent>) -> Seq<
    (KLineV, bool),
>;

/// Relies on `tokio::sync::broadcast::Sender::new`: creates the sending
/// half of a broadcast channel with the given backlog capacity; nothing
/// has been sent on it yet. The call panics when the capacity is 0 or
/// above `usize::MAX / 2`, so those capacities are excluded here.
#[verifier::external_body]
fn broadcast_sender_new(capacity: usize) -> (tx: tokio::sync::broadcast::Sender<KLineEvent>)
    requires
        1 <= capacity <= usize::MAX / 2,
    ensures
        chan_events(tx) == Seq::<(KLineV, bool)>::empty(),
{
    tokio::sync::broadcast::Sender::new(capacity)
}

/// Relies on `tokio::sync::broadcast::Sender::subscribe`: returns a new
/// receiver on the sender's channel that sees every value sent after this
/// call.
#[verifier::external_body]
fn broadcast_subscribe(tx: &tokio::sync::broadcast::Sender<KLineEvent>) -> (rx:
    tokio::sync::broadcast::Receiver<KLineEvent>)
{
    tx.subscribe()
}

/// Relies on `tokio::sync::broadcast::Sender::send`: queues the value for
/// all receivers subscribed at the time of the call — the channel's log of
/// sent events grows by exactly this event. An error only reports that
/// there were no receivers; either way the publisher is never blocked, so
/// the outcome is dropped, as nothing can be promised about which
/// receivers will see the value.
#[verifier::external_body]
fn broadcast_send(tx: &mut tokio::sync::broadcast::Sender<KLineEvent>, event: KLineEvent)
    ensures
        chan_events(*final(tx)) == chan_events(*old(tx)).push((event.kline@, event.is_closed)),
{
    let _ = tx.send(event);
}

/// Relies on `tokio::sync::broadcast::Sender::receiver_count`: the number
/// of receivers currently subscribed to the channel. Receivers on other
/// threads come and go at any time, so nothing can be promised of the
/// value.
#[verifier::external_body]
fn broadcast_receiver_count(tx: &tokio::sync::broadcast::Sender<KLineEvent>) -> (n: usize) {
    tx.receiver_count()
}

/// Whether `s` is the `{symbol}:{interval}` rendering of one of the first
/// `n` of `keys`.
spec fn rendered_key_before(keys: Seq<(Seq<char>, u64)>, n: int, s: Seq<char>) -> bool {
    exists|j: int|
        0 <= j < n <= keys.len() && s == crate::keys::channel_key_chars(
            (#[trigger] keys[j]).0,
            keys[j].1,
        )
}

/// Whether `s` is the `{symbol}:{interval}` rendering of one of `keys`.
pub open spec fn rendered_registry_key(keys: Seq<(Seq<char>, u64)>, s: Seq<char>) -> bool {
    exists|j: int|
        0 <= j < keys.len() && s == crate::keys::channel_key_chars(
            (#[trigger] keys[j]).0,
            keys[j].1,
        )
}

struct ChannelSlot {
    symbol: String,
    interval: u64,
    sender: tokio::sync::broadcast::Sender<KLineEvent>,
}

/// Fan-out registry: one broadcast channel per (instrument, interval) key.
pub struct Distributor {
    channels: Vec<ChannelSlot>,
    channel_capacity: usize,
}

spec fn log_at(cs: Seq<ChannelSlot>, sym: Seq<char>, iv: u64) -> Seq<(KLineV, bool)>
    decreases cs.len(),
{
    if cs.len() == 0 {
        Seq::empty()
    } else if cs[0].symbol@ == sym && cs[0].interval == iv {
        chan_events(cs[0].sender)
    } else {
        log_at(cs.drop_first(), sym, iv)
    }
}

proof fn lemma_log_at_found(cs: Seq<ChannelSlot>, i: int, sym: Seq<char>, iv: u64)
    requires
        0 <= i < cs.len(),
        cs[i].symbol@ == sym && cs[i].interval == iv,
        forall|j: int| 0 <= j < i ==> !(cs[j].symbol@ == sym && cs[j].interval == iv),
    ensures
        log_at(cs, sym, iv) == chan_events(cs[i].sender),
    decreases cs.len(),
{
    if i > 0 {
        lemma_log_at_found(cs.drop_first(), i - 1, sym, iv);
    }
}

proof fn lemma_log_at_absent(cs: Seq<ChannelSlot>, sym: Seq<char>, iv: u64)
    requires
        forall|j: int| 0 <= j < cs.len() ==> !(cs[j].symbol@ == sym && cs[j].interval == iv),
    ensures
        log_at(cs, sym, iv) == Seq::<(KLineV, bool)>::empty(),
    decreases cs.len(),
{
    if cs.len() > 0 {
        lemma_log_at_absent(cs.drop_first(), sym, iv);
    }
}

proof fn lemma_log_at_update(cs: Seq<ChannelSlot>, i: int, c2: ChannelSlot, sym: Seq<char>, iv: u64)
    requires
        0 <= i < cs.len(),
        c2.symbol@ == cs[i].symbol@ && c2.interval == cs[i].interval,
        forall|j: int|
            0 <= j < i ==> !(cs[j].symbol@ == cs[i].symbol@ && cs[j].interval == cs[i].interval),
    ensures
        log_at(cs.update(i, c2), sym, iv) == if sym == cs[i].symbol@ && iv == cs[i].interval {
            chan_events(c2.sender)
        } else {
            log_at(cs, sym, iv)
        },
    decreases cs.len(),
{
    if i == 0 {
        assert(cs.update(0, c2).drop_first() =~= cs.drop_first());
    } else {
        lemma_log_at_update(cs.drop_first(), i - 1, c2, sym, iv);
        assert(cs.update(i, c2).drop_first() =~= cs.drop_first().update(i - 1, c2));
        assert(cs.update(i, c2)[0] == cs[0]);
    }
}

proof fn lemma_log_at_push(cs: Seq<ChannelSlot>, c2: ChannelSlot, sym: Seq<char>, iv: u64)
    requires
        forall|j: int|
            0 <= j < cs.len() ==> !(cs[j].symbol@ == c2.symbol@ && cs[j].interval == c2.interval),
    ensures
        log_at(cs.push(c2), sym, iv) == if sym == c2.symbol@ && iv == c2.interval {
            chan_events(c2.sender)
        } else {
            log_at(cs, sym, iv)
        },
    decreases cs.len(),
{
    if cs.len() == 0 {
        assert(cs.push(c2)[0] == c2);
        assert(cs.push(c2).drop_first() =~= Seq::<ChannelSlot>::empty());
        if !(sym == c2.symbol@ && iv == c2.interval) {
            assert(log_at(cs.push(c2), sym, iv) == log_at(Seq::<ChannelSlot>::empty(), sym, iv));
        }
    } else {
        lemma_log_at_push(cs.drop_first(), c2, sym, iv);
        assert(cs.push(c2).drop_first() =~= cs.drop_first().push(c2));
        assert(cs.push(c2)[0] == cs[0]);
    }
}

impl Distributor {
    /// The keys that own a channel, in order of creation.
    pub closed spec fn keys(&self) -> Seq<(Seq<char>, u64)> {
        self.channels@.map_values(|c: ChannelSlot| (c.symbol@, c.interval))
    }

    /// The backlog capacity every channel is created with.
    pub closed spec fn cap(&self) -> usize {
        self.channel_capacity
    }

    /// The events published to the key's channel so far, oldest first;
    /// empty when the key has no channel.
    pub closed spec fn channel_log(&self, sym: Seq<char>, iv: u64) -> Seq<(KLineV, bool)> {
        log_at(self.channels@, sym, iv)
    }

    /// The capacity is one a channel can be created with, and no two
    /// channels share a key.
    pub closed spec fn wf(&self) -> bool {
        &&& 1 <= self.channel_capacity <= usize::MAX / 2
        &&& forall|i: int, j: int|
            0 <= i < j < self.keys().len() ==> self.keys()[i] != self.keys()[j]
    }

    /// Create a registry whose channels will each hold a backlog of
    /// `channel_capacity` updates. A zero capacity cannot make a channel,
    /// and is a construction-time misconfiguration, so it is excluded.
    pub fn new(channel_capacity: usize) -> (r: Distributor)
        requires
            1 <= channel_capacity <= usize::MAX / 2,
        ensures
            r.wf(),
            r.cap() == channel_capacity,
            r.keys() == Seq::<(Seq<char>, u64)>::empty(),
            forall|s: Seq<char>, v: u64| r.channel_log(s, v) == Seq::<(KLineV, bool)>::empty(),
    {
        let r = Distributor { channels: Vec::new(), channel_capacity };
        proof {
            assert(r.keys() =~= Seq::<(Seq<char>, u64)>::empty());
        }
        r
    }

    /// Register a subscriber for a key, creating the key's channel on
    /// first use. The handle receives every update published to the key
    /// from this moment on; earlier updates are not replayed.
    #[verifier::loop_isolation(false)]
    pub fn subscribe(&mut self, symbol: &str, interval: u64) -> (rx:
        tokio::sync::broadcast::Receiver<KLineEvent>)
        requires
            old(self).wf(),
        ensures
            final(self).wf(),
            final(self).cap() == old(self).cap(),
            final(self).keys() == if old(self).keys().contains((symbol@, interval)) {
                old(self).keys()
            } else {
                old(self).keys().push((symbol@, interval))
            },
            forall|s: Seq<char>, v: u64|
                !(s == symbol@ && v == interval) ==> final(self).channel_log(s, v) == old(
                    self,
                ).channel_log(s, v),
            final(self).channel_log(symbol@, interval) == old(self).channel_log(symbol@, interval),
    {
        let key = symbol.to_owned();
        let mut i: usize = 0;
        while i < self.channels.len() && !(self.channels[i].symbol == key
            && self.channels[i].interval == interval)
            invariant
                0 <= i <= self.channels@.len(),
                forall|j: int| 0 <= j < i ==> self.keys()[j] != (symbol@, interval),
            decreases self.channels@.len() - i,
        {
            i = i + 1;
        }
        if i == self.channels.len() {
            proof {
                assert(!self.keys().contains((symbol@, interval))) by {
                    if self.keys().contains((symbol@, interval)) {
                        let j = choose|j: int|
                            0 <= j < self.keys().len() && self.keys()[j] == (symbol@, interval);
                    }
                }
            }
            let ghost cs0 = self.channels@;
            proof {
                assert forall|j: int|
                    0 <= j < cs0.len() implies !(cs0[j].symbol@ == symbol@ && cs0[j].interval
                    == interval) by {
                    assert(self.keys()[j] == (cs0[j].symbol@, cs0[j].interval));
                    assert(self.keys()[j] != (symbol@, interval));
                }
            }
            let slot = ChannelSlot {
                symbol: key,
                interval,
                sender: broadcast_sender_new(self.channel_capacity),
            };
            self.channels.push(slot);
            proof {
                assert(self.keys() =~= old(self).keys().push((symbol@, interval)));
                assert forall|s: Seq<char>, v: u64| true implies log_at(self.channels@, s, v) == (
                if s == symbol@ && v == interval {
                    chan_events(self.channels@.last().sender)
                } else {
                    log_at(cs0, s, v)
                }) by {
                    lemma_log_at_push(cs0, self.channels@.last(), s, v);
                }
                lemma_log_at_absent(cs0, symbol@, interval);
            }
        } else {
            proof {
                assert(self.keys().contains((symbol@, interval))) by {
                    assert(self.keys()[i as int] == (symbol@, interval));
                }
            }
        }
        broadcast_subscribe(&self.channels[i].sender)
    }

    /// Publish a candle update to the channel of the candle's own
    /// (instrument, interval) key, and report how many subscribers the
    /// channel had at that moment. Exactly the matching key's channel log
    /// gains this one event; every other channel is untouched. When no
    /// channel exists for the key the publish is a no-op and reports 0:
    /// publishing never creates a channel and never fails.
    #[verifier::loop_isolation(false)]
    pub fn broadcast_kline(&mut self, kline: KLine, is_closed: bool) -> (n: usize)
        requires
            old(self).wf(),
        ensures
            final(self).wf(),
            final(self).cap() == old(self).cap(),
            final(self).keys() == old(self).keys(),
            !old(self).keys().contains((kline.symbol@, kline.interval)) ==> (n == 0 && forall|
                s: Seq<char>,
                v: u64,
            |
                final(self).channel_log(s, v) == old(self).channel_log(s, v)),
            old(self).keys().contains((kline.symbol@, kline.interval))
                ==> final(self).channel_log(kline.symbol@, kline.interval)
                == old(self).channel_log(kline.symbol@, kline.interval).push((kline@, is_closed)),
            forall|s: Seq<char>, v: u64|
                !(s == kline.symbol@ && v == kline.interval) ==> final(self).channel_log(s, v)
                    == old(self).channel_log(s, v),
    {
        let mut i: usize = 0;
        while i < self.channels.len() && !(self.channels[i].symbol == kline.symbol
            && self.channels[i].interval == kline.interval)
            invariant
                self == old(self),
                0 <= i <= self.channels@.len(),
                forall|j: int| 0 <= j < i ==> self.keys()[j] != (kline.symbol@, kline.interval),
            decreases self.channels@.len() - i,
        {
            i = i + 1;
        }
        if i == self.channels.len() {
            proof {
                assert(!self.keys().contains((kline.symbol@, kline.interval))) by {
                    if self.keys().contains((kline.symbol@, kline.interval)) {
                        let j = choose|j: int|
                            0 <= j < self.keys().len() && self.keys()[j] == (
                                kline.symbol@,
                                kline.interval,
                            );
                    }
                }
            }
            return 0;
        }
        proof {
            assert(self.keys().contains((kline.symbol@, kline.interval))) by {
                assert(self.keys()[i as int] == (kline.symbol@, kline.interval));
            }
            assert forall|j: int|
                0 <= j < i implies !(self.channels@[j].symbol@ == self.channels@[i as int].symbol@
                && self.channels@[j].interval == self.channels@[i as int].interval) by {
                assert(self.keys()[j] != self.keys()[i as int]);
            }
            lemma_log_at_found(self.channels@, i as int, kline.symbol@, kline.interval);
        }
        let ghost cs0 = self.channels@;
        let mut slot = self.channels.remove(i);
        let event = KLineEvent { kline, is_closed };
        broadcast_send(&mut slot.sender, event);
        let n = broadcast_receiver_count(&slot.sender);
        self.channels.insert(i, slot);
        proof {
            assert(self.channels@ =~= cs0.update(i as int, self.channels@[i as int]));
            assert(self.keys() =~= old(self).keys());
            assert forall|s: Seq<char>, v: u64| true implies log_at(self.channels@, s, v) == (
            if s == kline.symbol@ && v == kline.interval {
                chan_events(self.channels@[i as int].sender)
            } else {
                log_at(cs0, s, v)
            }) by {
                lemma_log_at_update(cs0, i as int, self.channels@[i as int], s, v);
            }
        }
        n
    }

    /// How many subscribers the key's channel has right now; 0 when the
    /// key has no channel.
    #[verifier::loop_isolation(false)]
    pub fn subscriber_count(&self, symbol: &str, interval: u64) -> (n: usize)
        requires
            self.wf(),
        ensures
            !self.keys().contains((symbol@, interval)) ==> n == 0,
    {
        let key = symbol.to_owned();
        let mut i: usize = 0;
        while i < self.channels.len() && !(self.channels[i].symbol == key
            && self.channels[i].interval == interval)
            invariant
                0 <= i <= self.channels@.len(),
                forall|j: int| 0 <= j < i ==> self.keys()[j] != (symbol@, interval),
            decreases self.channels@.len() - i,
        {
            i = i + 1;
        }
        if i == self.channels.len() {
            return 0;
        }
        proof {
            assert(self.keys().contains((symbol@, interval))) by {
                assert(self.keys()[i as int] == (symbol@, interval));
            }
        }
        broadcast_receiver_count(&self.channels[i].sender)
    }

    /// The keys whose channels have at least one live subscriber, each
    /// rendered as `{symbol}:{interval}`. Which keys qualify depends on
    /// subscribers coming and going, so the membership test is not pinned
    /// down; what always holds is that every entry is the rendering of
    /// some registered key, no entry repeats (each key contributes at most
    /// one entry), and so the list is never longer than the key set.
    #[verifier::loop_isolation(false)]
    pub fn active_channels(&self) -> (r: Vec<String>)
        requires
            self.wf(),
        ensures
            forall|m: int| 0 <= m < r@.len() ==> rendered_registry_key(self.keys(), #[trigger] r@[m]@),
            forall|m1: int, m2: int| 0 <= m1 < m2 < r@.len() ==> r@[m1]@ != r@[m2]@,
            r@.len() <= self.keys().len(),
    {
        let mut out: Vec<String> = Vec::new();
        let mut i: usize = 0;
        while i < self.channels.len()
            invariant
                0 <= i <= self.channels@.len(),
                out@.len() <= i,
                forall|m: int|
                    0 <= m < out@.len() ==> rendered_key_before(self.keys(), i as int, #[trigger] out@[m]@),
                forall|m1: int, m2: int| 0 <= m1 < m2 < out@.len() ==> out@[m1]@ != out@[m2]@,
            decreases self.channels@.len() - i,
        {
            if broadcast_receiver_count(&self.channels[i].sender) > 0 {
                let rendered = channel_key(self.channels[i].symbol.as_str(), self.channels[i].interval);
                proof {
                    assert(self.keys()[i as int] == (
                        self.channels@[i as int].symbol@,
                        self.channels@[i as int].interval,
                    ));
                    // A repeat would mean two distinct registered keys
                    // render to the same text, which the rendering's
                    // injectivity rules out.
                    assert forall|m: int| 0 <= m < out@.len() implies out@[m]@ != rendered@ by {
                        let j = choose|j: int|
                            0 <= j < i && out@[m]@ == crate::keys::channel_key_chars(
                                (#[trigger] self.keys()[j]).0,
                                self.keys()[j].1,
                            );
                        if out@[m]@ == rendered@ {
                            crate::keys::lemma_channel_key_injective(
                                self.keys()[j].0,
                                self.keys()[j].1,
                                self.keys()[i as int].0,
                                self.keys()[i as int].1,
                            );
                            assert(self.keys()[j] == self.keys()[i as int]);
                        }
                    }
                }
                let ghost out_prev = out@;
                out.push(rendered);
                proof {
                    assert forall|m: int| 0 <= m < out@.len() implies rendered_key_before(
                        self.keys(),
                        i as int + 1,
                        #[trigger] out@[m]@,
                    ) by {
                        if m < out_prev.len() {
                            assert(out@[m] == out_prev[m]);
                            assert(rendered_key_before(self.keys(), i as int, out_prev[m]@));
                        } else {
                            assert(out@[m]@ == crate::keys::channel_key_chars(
                                self.keys()[i as int].0,
                                self.keys()[i as int].1,
                            ));
                        }
                    }
                }
            }
            i = i + 1;
        }
        proof {
            assert forall|m: int| 0 <= m < out@.len() implies rendered_registry_key(
                self.keys(),
                #[trigger] out@[m]@,
            ) by {
                let j = choose|j: int|
                    0 <= j < i && out@[m]@ == crate::keys::channel_key_chars(
                        (#[trigger] self.keys()[j]).0,
                        self.keys()[j].1,
                    );
                assert(0 <= j < self.keys().len() && out@[m]@ == crate::keys::channel_key_chars(
                    self.keys()[j].0,
                    self.keys()[j].1,
                ));
            }
        }
        out
    }

    /// Drop every channel. Existing subscriber handles keep draining what
    /// was already queued, but no future publish will reach them.
    pub fn clear(&mut self)
        requires
            old(self).wf(),
        ensures
            final(self).wf(),
            final(self).cap() == old(self).cap(),
            final(self).keys() == Seq::<(Seq<char>, u64)>::empty(),
            forall|s: Seq<char>, v: u64| final(self).channel_log(s, v) == Seq::<
                (KLineV, bool),
            >::empty(),
    {
        self.channels.clear();
        proof {
            assert(self.keys() =~= Seq::<(Seq<char>, u64)>::empty());
        }
    }
}

} // verus!
