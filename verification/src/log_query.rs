//! What a request for the canister's logs asks for: entries from a given
//! time on (`time`, in nanoseconds, default 0), of one priority or of all
//! (`priority`), sorted oldest or newest first (`sort`; by default oldest
//! first when no time is given, else newest first).
use vstd::prelude::*;
use crate::text::str_chars;

verus! {

/// The priority of a log entry.
#[derive(Debug, Clone, Copy, PartialEq, Eq, Structural)]
pub enum LogPriority {
    Info,
    Debug,
}

/// The order in which log entries are listed.
#[derive(Debug, Clone, Copy, PartialEq, Eq, Structural)]
pub enum LogSort {
    Ascending,
    Descending,
}

/// The entries a log request selects, and their order.
#[derive(Debug, Clone, Copy, PartialEq, Eq, Structural)]
pub struct LogQuery {
    /// Entries older than this (in nanoseconds) are left out.
    pub min_timestamp: u64,
    /// The one priority shown; `None` for all of them.
    pub priority: Option<LogPriority>,
    pub sort: LogSort,
}

/// The `time` parameter is not a decimal `u64`.
#[derive(Debug, Clone, Copy, PartialEq, Eq, Structural)]
pub struct InvalidTimeParameter;

/// Whether `c` is an ASCII decimal digit.
pub open spec fn is_dec_digit(c: char) -> bool {
    '0' <= c && c <= '9'
}

/// Every character is a decimal digit.
pub open spec fn all_dec(cs: Seq<char>) -> bool {
    forall|i: int| 0 <= i < cs.len() ==> is_dec_digit(#[trigger] cs[i])
}

/// The value of a run of decimal digits, most significant first.
pub open spec fn dec_value(cs: Seq<char>) -> nat
    decreases cs.len(),
{
    if cs.len() == 0 {
        0
    } else {
        dec_value(cs.drop_last()) * 10 + (cs.last() as nat - '0' as nat) as nat
    }
}

/// A `u64` written in decimal as `u64::from_str` reads it: an optional
/// leading `+`, then at least one decimal digit and nothing else, with a
/// value that fits.
pub open spec fn dec_u64(cs: Seq<char>) -> Option<u64> {
    let digits = if cs.len() > 0 && cs[0] == '+' { cs.drop_first() } else { cs };
    if digits.len() == 0 || !all_dec(digits) || dec_value(digits) > u64::MAX {
        None
    } else {
        Some(dec_value(digits) as u64)
    }
}

/// Read a decimal `u64` the way `u64::from_str` does.
pub fn parse_dec_u64(s: &str) -> (r: Option<u64>)
    ensures
        r == dec_u64(s@),
{
    let cs = str_chars(s);
    let n = cs.len();
    let start: usize = if n > 0 && cs[0] == '+' { 1 } else { 0 };
    let ghost digits = if s@.len() > 0 && s@[0] == '+' { s@.drop_first() } else { s@ };
    proof {
        assert(digits =~= cs@.subrange(start as int, n as int));
    }
    if start == n {
        return None;
    }
    let mut acc: u64 = 0;
    let mut i: usize = start;
    proof {
        assert(cs@.subrange(start as int, start as int) =~= Seq::<char>::empty());
    }
    while i < n
        invariant
            start <= i <= n,
            n == cs@.len(),
            cs@ == s@,
            digits =~= cs@.subrange(start as int, n as int),
            digits == (if s@.len() > 0 && s@[0] == '+' { s@.drop_first() } else { s@ }),
            forall|j: int| start <= j < i ==> is_dec_digit(#[trigger] cs@[j]),
            acc == dec_value(cs@.subrange(start as int, i as int)),
        decreases n - i,
    {
        let c = cs[i];
        if !('0' <= c && c <= '9') {
            proof {
                assert(digits[i - start] == c);
                assert(!is_dec_digit(digits[i - start]));
                assert(!all_dec(digits));
            }
            return None;
        }
        let d: u64 = (c as u64) - ('0' as u64);
        proof {
            let pre = cs@.subrange(start as int, i as int);
            assert(cs@.subrange(start as int, i + 1) =~= pre.push(c));
            assert(pre.push(c).drop_last() =~= pre);
        }
        if acc > (u64::MAX - d) / 10 {
            proof {
                assert(dec_value(cs@.subrange(start as int, i + 1)) == acc * 10 + d);
                assert(acc * 10 + d > u64::MAX) by (nonlinear_arith)
                    requires
                        acc > (u64::MAX - d) / 10,
                        d <= 9;
                assert(digits.take((i + 1 - start) as int) =~= cs@.subrange(start as int, i + 1));
                if all_dec(digits) {
                    lemma_dec_value_prefix(digits, (i + 1 - start) as nat);
                    assert(dec_value(digits.take((i + 1 - start) as int)) > u64::MAX);
                    assert(dec_value(digits) > u64::MAX);
                }
            }
            return None;
        }
        proof {
            assert(acc * 10 + d <= u64::MAX) by (nonlinear_arith)
                requires
                    acc <= (u64::MAX - d) / 10,
                    d <= 9;
        }
        acc = acc * 10 + d;
        i = i + 1;
    }
    proof {
        assert(cs@.subrange(start as int, n as int) =~= digits);
    }
    Some(acc)
}

/// Of digits only, a longer run is worth at least as much as its prefix.
proof fn lemma_dec_value_prefix(cs: Seq<char>, k: nat)
    requires
        k <= cs.len(),
        all_dec(cs),
    ensures
        dec_value(cs.take(k as int)) <= dec_value(cs),
    decreases cs.len(),
{
    if k < cs.len() {
        let d = cs.drop_last();
        assert forall|i: int| 0 <= i < d.len() implies is_dec_digit(#[trigger] d[i]) by {
            assert(d[i] == cs[i]);
        }
        assert(all_dec(d));
        lemma_dec_value_prefix(d, k);
        assert(d.take(k as int) =~= cs.take(k as int));
        assert(dec_value(d) <= dec_value(cs)) by (nonlinear_arith)
            requires
                dec_value(cs) == dec_value(d) * 10 + (cs.last() as nat - '0' as nat) as nat;
    } else {
        assert(cs.take(k as int) =~= cs);
    }
}

/// What a log request with these parameters asks for. `time` must be a
/// decimal `u64` when given; `priority` and `sort` are what their
/// parameters named, `Some(None)` where a parameter named nothing known.
pub fn log_query(
    time: Option<&str>,
    priority: Option<Option<LogPriority>>,
    sort: Option<Option<LogSort>>,
) -> (r: Result<LogQuery, InvalidTimeParameter>)
    ensures
        match time {
            Some(t) if dec_u64(t@) is None => r == Err::<LogQuery, InvalidTimeParameter>(InvalidTimeParameter),
            _ => r matches Ok(q) && {
                &&& q.min_timestamp == match time {
                    Some(t) => dec_u64(t@)->0,
                    None => 0,
                }
                &&& q.priority == match priority {
                    Some(Some(p)) => Some(p),
                    _ => None,
                }
                &&& q.sort == match sort {
                    Some(Some(s)) => s,
                    _ => if q.min_timestamp == 0 { LogSort::Ascending } else { LogSort::Descending },
                }
            },
        },
{
    let min_timestamp = match time {
        Some(t) => match parse_dec_u64(t) {
            Some(v) => v,
            None => return Err(InvalidTimeParameter),
        },
        None => 0,
    };
    let priority = match priority {
        Some(Some(p)) => Some(p),
        _ => None,
    };
    let sort = match sort {
        Some(Some(s)) => s,
        _ => if min_timestamp == 0 { LogSort::Ascending } else { LogSort::Descending },
    };
    Ok(LogQuery { min_timestamp, priority, sort })
}

impl LogQuery {
    /// Whether an entry of this time and priority is shown: it is not older
    /// than the query's time, and of the query's priority if it names one.
    pub fn shows(&self, timestamp: u64, priority: LogPriority) -> (r: bool)
        ensures
            r <==> (timestamp >= self.min_timestamp && match self.priority {
                Some(p) => p == priority,
                None => true,
            }),
    {
        timestamp >= self.min_timestamp && match self.priority {
            Some(p) => p == priority,
            None => true,
        }
    }
}

} // verus!
