//! Statistics: settings normalisation, the bounded result history and the
//! probe counters of one target.
use vstd::prelude::*;

use crate::model::{PingSettings, Status};
use crate::text::{lemma_trim_bounds, trim, trim_str};

verus! {

/* ----------------------------- settings ----------------------------- */

/// `x` limited to `[lo, hi]`.
pub open spec fn clamp(x: int, lo: int, hi: int) -> int {
    if x < lo {
        lo
    } else if x > hi {
        hi
    } else {
        x
    }
}

/// Whether every setting lies in its accepted range.
pub open spec fn settings_in_range(s: PingSettings) -> bool {
    &&& 100 <= s.interval_ms <= 600_000
    &&& 100 <= s.timeout_ms <= 60_000
    &&& s.payload_size <= 65_500
    &&& 1 <= s.ttl <= 255
    &&& 1 <= s.max_threads <= 1024
    &&& 10 <= s.history_len <= 600
    &&& keep_choice(s.events_keep)
    &&& match s.events_dir {
        Some(d) => d@.len() > 0 && trim(d@) == d@,
        None => true,
    }
}

/// Whether `k` is one of the offered numbers of events kept per target.
pub open spec fn keep_choice(k: usize) -> bool {
    k == 50 || k == 200 || k == 1000
}

/// The number of events kept per target after normalisation: an offered
/// choice stays, anything else becomes 200.
pub open spec fn normalized_keep(k: usize) -> usize {
    if keep_choice(k) {
        k
    } else {
        200
    }
}

/// The view of an optional directory.
pub open spec fn dir_view(d: Option<String>) -> Option<Seq<char>> {
    match d {
        Some(x) => Some(x@),
        None => None,
    }
}

/// The event directory after normalisation: trimmed, and none when that
/// leaves it empty.
pub open spec fn normalized_dir(d: Option<Seq<char>>) -> Option<Seq<char>> {
    match d {
        Some(x) => if trim(x).len() > 0 {
            Some(trim(x))
        } else {
            None
        },
        None => None,
    }
}

/// What `normalize_settings` makes of `a`: `b`.
pub open spec fn normalized(a: PingSettings, b: PingSettings) -> bool {
    &&& b.interval_ms == clamp(a.interval_ms as int, 100, 600_000)
    &&& b.timeout_ms == clamp(a.timeout_ms as int, 100, 60_000)
    &&& b.payload_size == clamp(a.payload_size as int, 0, 65_500)
    &&& b.ttl == clamp(a.ttl as int, 1, 255)
    &&& b.max_threads == clamp(a.max_threads as int, 1, 1024)
    &&& b.history_len == clamp(a.history_len as int, 10, 600)
    &&& b.limit_max_threads == a.limit_max_threads
    &&& b.beep_on_fail == a.beep_on_fail
    &&& b.auto_start == a.auto_start
    &&& b.events_on == a.events_on
    &&& b.events_level == a.events_level
    &&& b.events_persist == a.events_persist
    &&& dir_view(b.events_dir) == normalized_dir(dir_view(a.events_dir))
    &&& b.events_keep == normalized_keep(a.events_keep)
}

/// Two settings that agree field by field (the directory by its text).
pub open spec fn same_settings(a: PingSettings, b: PingSettings) -> bool {
    &&& b.interval_ms == a.interval_ms
    &&& b.timeout_ms == a.timeout_ms
    &&& b.payload_size == a.payload_size
    &&& b.ttl == a.ttl
    &&& b.max_threads == a.max_threads
    &&& b.history_len == a.history_len
    &&& b.limit_max_threads == a.limit_max_threads
    &&& b.beep_on_fail == a.beep_on_fail
    &&& b.auto_start == a.auto_start
    &&& b.events_on == a.events_on
    &&& b.events_level == a.events_level
    &&& b.events_persist == a.events_persist
    &&& dir_view(b.events_dir) == dir_view(a.events_dir)
    &&& b.events_keep == a.events_keep
}

fn clamp_u64(x: u64, lo: u64, hi: u64) -> (r: u64)
    requires
        lo <= hi,
    ensures
        r == clamp(x as int, lo as int, hi as int),
{
    if x < lo {
        lo
    } else if x > hi {
        hi
    } else {
        x
    }
}

fn clamp_usize(x: usize, lo: usize, hi: usize) -> (r: usize)
    requires
        lo <= hi,
    ensures
        r == clamp(x as int, lo as int, hi as int),
{
    if x < lo {
        lo
    } else if x > hi {
        hi
    } else {
        x
    }
}

/// Brings every setting into its accepted range: numbers are clamped, the
/// number of events kept per target becomes 200 unless it is 50, 200 or
/// 1000, and the event directory is trimmed (none when empty); the other
/// fields are kept.
pub fn normalize_settings(s: &mut PingSettings)
    ensures
        normalized(*old(s), *final(s)),
        settings_in_range(*final(s)),
{
    s.interval_ms = clamp_u64(s.interval_ms, 100, 600_000);
    s.timeout_ms = clamp_u64(s.timeout_ms, 100, 60_000);
    s.payload_size = if s.payload_size > 65_500 { 65_500 } else { s.payload_size };
    s.ttl = if s.ttl < 1 { 1 } else { s.ttl };
    s.max_threads = clamp_usize(s.max_threads, 1, 1024);
    s.history_len = clamp_usize(s.history_len, 10, 600);
    if !(s.events_keep == 50 || s.events_keep == 200 || s.events_keep == 1000) {
        s.events_keep = 200;
    }
    let dir = match &s.events_dir {
        Some(d) => {
            let t = trim_str(d.as_str());
            proof {
                lemma_trim_bounds(d@);
            }
            if t.as_str().is_empty() {
                None
            } else {
                Some(t)
            }
        },
        None => None,
    };
    s.events_dir = dir;
}

/// Normalising settings that are already in range changes nothing, so
/// normalising twice is the same as normalising once.
pub proof fn lemma_normalize_idempotent(a: PingSettings, b: PingSettings, c: PingSettings)
    requires
        normalized(a, b),
        normalized(b, c),
    ensures
        same_settings(b, c),
{
    if let Some(d) = a.events_dir {
        lemma_trim_bounds(d@);
    }
}

/// Settings in range are left as they are.
pub proof fn lemma_normalize_keeps_valid(a: PingSettings, b: PingSettings)
    requires
        settings_in_range(a),
        normalized(a, b),
    ensures
        same_settings(a, b),
{
}

/// The default settings (those of `PingSettings::default` and of the
/// default configuration) are already normal: normalising them changes
/// nothing.
pub proof fn lemma_default_settings_are_normal(a: PingSettings, b: PingSettings)
    requires
        a.interval_ms == 1000,
        a.timeout_ms == 2000,
        a.payload_size == 32,
        a.ttl == 128,
        a.max_threads == 256,
        a.history_len == 60,
        a.events_keep == 200,
        a.events_dir is None,
        normalized(a, b),
    ensures
        settings_in_range(a),
        same_settings(a, b),
{
}

/* ----------------------------- history ----------------------------- */

/// `h` with `v` appended, keeping only the last `len` items (`len == 0`
/// keeps everything).
pub open spec fn pushed_history<T>(h: Seq<T>, v: T, len: nat) -> Seq<T> {
    let p = h.push(v);
    if len > 0 && p.len() > len {
        p.skip(p.len() - len)
    } else {
        p
    }
}

/// Appends a result and drops the oldest ones beyond `len`.
pub fn push_history<T>(history: &mut Vec<T>, value: T, len: usize)
    ensures
        final(history)@ == pushed_history(old(history)@, value, len as nat),
{
    history.push(value);
    if len > 0 && history.len() > len {
        let drop_n = history.len() - len;
        let ghost p = history@;
        let mut i: usize = 0;
        while i < drop_n
            invariant
                i <= drop_n,
                drop_n == p.len() - len,
                history@ == p.skip(i as int),
            decreases drop_n - i,
        {
            history.remove(0);
            i = i + 1;
            assert(history@ =~= p.skip(i as int));
        }
    }
}

/* ----------------------------- counters ----------------------------- */

/// The integer statistics of one target.
#[derive(Debug, Clone)]
pub struct ProbeCounters {
    /// Probes sent.
    pub sent: u64,
    /// Probes answered.
    pub received: u64,
    /// Probes failed or timed out.
    pub failed: u64,
    /// Failures since the last answer.
    pub consecutive_fail: u32,
    /// TTL of the last answer that carried one.
    pub ttl: Option<u32>,
    /// Time of the last answer, epoch milliseconds.
    pub last_success_ts: Option<u64>,
    /// Current status.
    pub status: Status,
}

impl ProbeCounters {
    /// Counters of a target that has not been probed.
    pub fn new() -> (r: Self)
        ensures
            r.sent == 0 && r.received == 0 && r.failed == 0,
            r.consecutive_fail == 0,
            r.ttl is None && r.last_success_ts is None,
            r.status == Status::Idle,
    {
        ProbeCounters {
            sent: 0,
            received: 0,
            failed: 0,
            consecutive_fail: 0,
            ttl: None,
            last_success_ts: None,
            status: Status::Idle,
        }
    }

    /// Records an answered probe: one more sent and received, the failure
    /// streak ends, a positive TTL is kept, the status becomes reachable.
    pub fn record_success(&mut self, ttl: Option<u32>, now: u64)
        requires
            old(self).sent < u64::MAX,
            old(self).received < u64::MAX,
        ensures
            final(self).sent == old(self).sent + 1,
            final(self).received == old(self).received + 1,
            final(self).failed == old(self).failed,
            final(self).consecutive_fail == 0,
            final(self).ttl == (match ttl {
                Some(t) => if t > 0 { Some(t) } else { old(self).ttl },
                None => old(self).ttl,
            }),
            final(self).last_success_ts == Some(now),
            final(self).status == Status::Reachable,
            old(self).sent == old(self).received + old(self).failed ==> final(self).sent
                == final(self).received + final(self).failed,
    {
        self.sent = self.sent + 1;
        self.received = self.received + 1;
        if let Some(t) = ttl {
            if t > 0 {
                self.ttl = Some(t);
            }
        }
        self.last_success_ts = Some(now);
        self.consecutive_fail = 0;
        self.status = Status::Reachable;
    }

    /// Records a failed or timed-out probe with the resulting status.
    pub fn record_failure(&mut self, status: Status)
        requires
            old(self).sent < u64::MAX,
            old(self).failed < u64::MAX,
            old(self).consecutive_fail < u32::MAX,
        ensures
            final(self).sent == old(self).sent + 1,
            final(self).received == old(self).received,
            final(self).failed == old(self).failed + 1,
            final(self).consecutive_fail == old(self).consecutive_fail + 1,
            final(self).ttl == old(self).ttl,
            final(self).last_success_ts == old(self).last_success_ts,
            final(self).status == status,
            old(self).sent == old(self).received + old(self).failed ==> final(self).sent
                == final(self).received + final(self).failed,
    {
        self.sent = self.sent + 1;
        self.failed = self.failed + 1;
        self.consecutive_fail = self.consecutive_fail + 1;
        self.status = status;
    }

    /// Clears the statistics (the status becomes idle).
    pub fn reset(&mut self)
        ensures
            final(self).sent == 0 && final(self).received == 0 && final(self).failed == 0,
            final(self).consecutive_fail == 0,
            final(self).ttl is None && final(self).last_success_ts is None,
            final(self).status == Status::Idle,
    {
        self.sent = 0;
        self.received = 0;
        self.failed = 0;
        self.consecutive_fail = 0;
        self.ttl = None;
        self.last_success_ts = None;
        self.status = Status::Idle;
    }
}

} // verus!
