//! Text keys used across the pipeline: decimal rendering of integers, the
//! persisted key layout for trade and candle records, and the channel key
//! used by the fan-out registry.
//!
//! Trade records are keyed `tick:{symbol}:{trade_id}` and candle records
//! `kline:{symbol}:{interval}:{bucket_timestamp}`; fan-out channels are keyed
//! `{symbol}:{interval}`.

use vstd::prelude::*;
use vstd::string::StringExecFns;

verus! {

/// The decimal digit character for `d` (0 to 9).
pub open spec fn dec_digit(d: int) -> char
    recommends
        0 <= d < 10,
{
    if d == 0 {
        '0'
    } else if d == 1 {
        '1'
    } else if d == 2 {
        '2'
    } else if d == 3 {
        '3'
    } else if d == 4 {
        '4'
    } else if d == 5 {
        '5'
    } else if d == 6 {
        '6'
    } else if d == 7 {
        '7'
    } else if d == 8 {
        '8'
    } else {
        '9'
    }
}

/// The decimal rendering of `n` without leading zeroes (except for `n == 0`).
pub open spec fn dec_str(n: int) -> Seq<char>
    recommends
        n >= 0,
    decreases n,
{
    if n < 10 {
        seq![dec_digit(n)]
    } else {
        dec_str(n / 10).push(dec_digit(n % 10))
    }
}

fn digit_literal(d: u64) -> (s: &'static str)
    requires
        d < 10,
    ensures
        s@ == seq![dec_digit(d as int)],
{
    match d {
        0 => {
            proof {
                reveal_strlit("0");
                assert("0"@ =~= seq![dec_digit(0)]);
            }
            "0"
        },
        1 => {
            proof {
                reveal_strlit("1");
                assert("1"@ =~= seq![dec_digit(1)]);
            }
            "1"
        },
        2 => {
            proof {
                reveal_strlit("2");
                assert("2"@ =~= seq![dec_digit(2)]);
            }
            "2"
        },
        3 => {
            proof {
                reveal_strlit("3");
                assert("3"@ =~= seq![dec_digit(3)]);
            }
            "3"
        },
        4 => {
            proof {
                reveal_strlit("4");
                assert("4"@ =~= seq![dec_digit(4)]);
            }
            "4"
        },
        5 => {
            proof {
                reveal_strlit("5");
                assert("5"@ =~= seq![dec_digit(5)]);
            }
            "5"
        },
        6 => {
            proof {
                reveal_strlit("6");
                assert("6"@ =~= seq![dec_digit(6)]);
            }
            "6"
        },
        7 => {
            proof {
                reveal_strlit("7");
                assert("7"@ =~= seq![dec_digit(7)]);
            }
            "7"
        },
        8 => {
            proof {
                reveal_strlit("8");
                assert("8"@ =~= seq![dec_digit(8)]);
            }
            "8"
        },
        _ => {
            proof {
                reveal_strlit("9");
                assert("9"@ =~= seq![dec_digit(9)]);
            }
            "9"
        },
    }
}

/// Render `n` in decimal.
pub fn u64_to_string(n: u64) -> (s: String)
    ensures
        s@ == dec_str(n as int),
    decreases n,
{
    if n < 10 {
        String::from_str(digit_literal(n))
    } else {
        let mut s = u64_to_string(n / 10);
        s.append(digit_literal(n % 10));
        proof {
            assert(s@ =~= dec_str(n as int));
        }
        s
    }
}

/// Key of a persisted trade record.
pub open spec fn tick_key_chars(symbol: Seq<char>, trade_id: u64) -> Seq<char> {
    "tick:"@ + symbol + ":"@ + dec_str(trade_id as int)
}

/// Key of a persisted candle record.
pub open spec fn kline_key_chars(symbol: Seq<char>, interval: u64, timestamp: u64) -> Seq<char> {
    "kline:"@ + symbol + ":"@ + dec_str(interval as int) + ":"@ + dec_str(timestamp as int)
}

/// Key of a fan-out channel.
pub open spec fn channel_key_chars(symbol: Seq<char>, interval: u64) -> Seq<char> {
    symbol + ":"@ + dec_str(interval as int)
}

proof fn lemma_dec_str_nonempty(n: int)
    ensures
        dec_str(n).len() >= 1,
{
}

proof fn lemma_dec_str_no_colon(n: int)
    requires
        n >= 0,
    ensures
        forall|i: int| 0 <= i < dec_str(n).len() ==> dec_str(n)[i] != ':',
    decreases n,
{
    if n >= 10 {
        lemma_dec_str_no_colon(n / 10);
    }
    assert forall|i: int| 0 <= i < dec_str(n).len() implies dec_str(n)[i] != ':' by {
        if n < 10 {
            assert(dec_str(n)[i] == dec_digit(n));
        } else if i < dec_str(n).len() - 1 {
            assert(dec_str(n)[i] == dec_str(n / 10)[i]);
        } else {
            assert(dec_str(n)[i] == dec_digit(n % 10));
        }
    }
}

proof fn lemma_dec_str_injective(a: int, b: int)
    requires
        a >= 0,
        b >= 0,
        dec_str(a) == dec_str(b),
    ensures
        a == b,
    decreases a,
{
    if a < 10 && b < 10 {
        assert(dec_str(a)[0] == dec_digit(a));
        assert(dec_str(b)[0] == dec_digit(b));
    } else if a < 10 {
        lemma_dec_str_nonempty(b / 10);
        assert(dec_str(b).len() >= 2);
    } else if b < 10 {
        lemma_dec_str_nonempty(a / 10);
        assert(dec_str(a).len() >= 2);
    } else {
        assert(dec_str(a).last() == dec_digit(a % 10));
        assert(dec_str(b).last() == dec_digit(b % 10));
        assert(a % 10 == b % 10);
        assert(dec_str(a).drop_last() =~= dec_str(a / 10));
        assert(dec_str(b).drop_last() =~= dec_str(b / 10));
        lemma_dec_str_injective(a / 10, b / 10);
    }
}

/// Two distinct (symbol, interval) keys never render to the same
/// `{symbol}:{interval}` text: the interval's digits hold no colon, so the
/// last colon splits the rendering unambiguously.
pub proof fn lemma_channel_key_injective(s1: Seq<char>, i1: u64, s2: Seq<char>, i2: u64)
    requires
        channel_key_chars(s1, i1) == channel_key_chars(s2, i2),
    ensures
        s1 == s2,
        i1 == i2,
{
    reveal_strlit(":");
    let d1 = dec_str(i1 as int);
    let d2 = dec_str(i2 as int);
    let f1 = channel_key_chars(s1, i1);
    let f2 = channel_key_chars(s2, i2);
    assert(f1.len() == s1.len() + 1 + d1.len());
    assert(f2.len() == s2.len() + 1 + d2.len());
    if s1.len() == s2.len() {
        assert(d1.len() == d2.len());
        assert(s1 =~= s2) by {
            assert forall|i: int| 0 <= i < s1.len() implies s1[i] == s2[i] by {
                assert(f1[i] == s1[i]);
                assert(f2[i] == s2[i]);
            }
        }
        assert(d1 =~= d2) by {
            assert forall|i: int| 0 <= i < d1.len() implies d1[i] == d2[i] by {
                assert(f1[s1.len() + 1 + i] == d1[i]);
                assert(f2[s2.len() + 1 + i] == d2[i]);
            }
        }
        lemma_dec_str_injective(i1 as int, i2 as int);
    } else if s1.len() < s2.len() {
        let q = s2.len() as int;
        assert(f2[q] == ':');
        assert(f1[q] == d1[q - s1.len() - 1]);
        lemma_dec_str_no_colon(i1 as int);
        assert(false);
    } else {
        let q = s1.len() as int;
        assert(f1[q] == ':');
        assert(f2[q] == d2[q - s2.len() - 1]);
        lemma_dec_str_no_colon(i2 as int);
        assert(false);
    }
}

/// Build the storage key for a trade record: `tick:{symbol}:{trade_id}`.
pub fn tick_key(symbol: &str, trade_id: u64) -> (key: String)
    ensures
        key@ == tick_key_chars(symbol@, trade_id),
{
    let mut s = String::from_str("tick:");
    s.append(symbol);
    s.append(":");
    let num = u64_to_string(trade_id);
    s.append(num.as_str());
    proof {
        assert(s@ =~= tick_key_chars(symbol@, trade_id));
    }
    s
}

/// Build the storage key for a candle record:
/// `kline:{symbol}:{interval}:{bucket_timestamp}`.
pub fn kline_key(symbol: &str, interval: u64, timestamp: u64) -> (key: String)
    ensures
        key@ == kline_key_chars(symbol@, interval, timestamp),
{
    let mut s = String::from_str("kline:");
    s.append(symbol);
    s.append(":");
    let iv = u64_to_string(interval);
    s.append(iv.as_str());
    s.append(":");
    let ts = u64_to_string(timestamp);
    s.append(ts.as_str());
    proof {
        assert(s@ =~= kline_key_chars(symbol@, interval, timestamp));
    }
    s
}

/// Build the fan-out channel key: `{symbol}:{interval}`.
pub fn channel_key(symbol: &str, interval: u64) -> (key: String)
    ensures
        key@ == channel_key_chars(symbol@, interval),
{
    let mut s = String::from_str(symbol);
    s.append(":");
    let iv = u64_to_string(interval);
    s.append(iv.as_str());
    proof {
        assert(s@ =~= channel_key_chars(symbol@, interval));
    }
    s
}

} // verus!
