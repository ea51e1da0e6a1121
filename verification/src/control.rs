//! Monitoring control: the decisions behind adding, editing, starting and
//! stopping targets and behind each probe round, taken on plain values.
use vstd::prelude::*;

use crate::events::{
    classify_transition, failure_text, failure_text_of, host_key, normalize_host, sorted_by_seq,
    transition_event, EventKind, EventStore, FailSource, LogEvent,
};
use crate::model::{AppConfig, Status, TargetConfig, TargetEntry};
use crate::stats::{normalize_settings, normalized, settings_in_range};
use crate::stats::ProbeCounters;
use crate::text::{dec, push_decimal_str, trim, trim_str};

verus! {

/// The current time in epoch milliseconds (0 when the clock is before the
/// epoch). Reads `SystemTime::now`; nothing is stated of the value, which
/// depends on the machine's clock.
#[verifier::external_body]
pub fn now_ms() -> u64 {
    std::time::SystemTime::now()
        .duration_since(std::time::UNIX_EPOCH)
        .map(|d| d.as_millis() as u64)
        .unwrap_or(0)
}

/// Upper limit on concurrent probe workers that holds even when the
/// `max_threads` setting is not enforced.
pub const HARD_MAX_THREADS: usize = 4096;

/* ----------------------------- adding targets ----------------------------- */

/// The targets that a list of entries adds: entries whose trimmed host is
/// empty are skipped; the name is the trimmed name, or the host when that
/// is empty.
pub open spec fn planned_targets(entries: Seq<TargetEntry>) -> Seq<(Seq<char>, Seq<char>)>
    decreases entries.len(),
{
    if entries.len() == 0 {
        Seq::empty()
    } else {
        let prev = planned_targets(entries.drop_last());
        let e = entries.last();
        let host = trim(e.host@);
        let name = trim(e.name@);
        if host.len() == 0 {
            prev
        } else {
            prev.push((if name.len() == 0 { host } else { name }, host))
        }
    }
}

/// The entries to add, cleaned (see `planned_targets`), or the message
/// that rejects a list with no valid entry.
#[verifier::spinoff_prover]
pub fn plan_new_targets(entries: &[TargetEntry]) -> (r: Result<Vec<TargetEntry>, String>)
    ensures
        match r {
            Ok(v) => v@.len() == planned_targets(entries@).len() && v@.len() > 0 && forall|k: int|
                0 <= k < v@.len() ==> (#[trigger] v@[k].name@, v@[k].host@) == planned_targets(entries@)[k],
            Err(msg) => planned_targets(entries@).len() == 0 && msg@ == "没有可添加的有效目标"@,
        },
{
    let mut out: Vec<TargetEntry> = Vec::new();
    let mut i: usize = 0;
    while i < entries.len()
        invariant
            i <= entries@.len(),
            out@.len() == planned_targets(entries@.take(i as int)).len(),
            forall|k: int| 0 <= k < out@.len() ==> (#[trigger] out@[k].name@, out@[k].host@) == planned_targets(entries@.take(i as int))[k],
        decreases entries.len() - i,
    {
        let e = &entries[i];
        let host = trim_str(e.host.as_str());
        let name = trim_str(e.name.as_str());
        let ghost before = planned_targets(entries@.take(i as int));
        assert(entries@.take(i + 1).drop_last() =~= entries@.take(i as int));
        assert(entries@.take(i + 1).last() == entries@[i as int]);
        if host.as_str().is_empty() {
            assert(planned_targets(entries@.take(i + 1)) == before);
        } else {
            let name = if name.as_str().is_empty() { host.clone() } else { name };
            let ghost pair = (name@, host@);
            let ghost out0 = out@;
            assert(planned_targets(entries@.take(i + 1)) == before.push(pair));
            out.push(TargetEntry { name, host });
            assert forall|k: int| 0 <= k < out@.len() implies (#[trigger] out@[k].name@, out@[k].host@)
                == before.push(pair)[k] by {
                if k < out0.len() {
                    assert(out@[k] == out0[k]);
                    assert((out0[k].name@, out0[k].host@) == before[k]);
                } else {
                    assert(k == out0.len());
                    assert(out@[k].name@ == pair.0 && out@[k].host@ == pair.1);
                }
            }
        }
        i = i + 1;
    }
    assert(entries@.take(i as int) =~= entries@);
    assert(planned_targets(entries@) == planned_targets(entries@.take(i as int)));
    if out.len() == 0 {
        Err("没有可添加的有效目标".to_owned())
    } else {
        Ok(out)
    }
}

/// The saved targets that are restored: those whose trimmed host is not
/// empty, unchanged and in order.
pub open spec fn restored_targets(targets: Seq<TargetConfig>) -> Seq<TargetConfig>
    decreases targets.len(),
{
    if targets.len() == 0 {
        Seq::empty()
    } else {
        let prev = restored_targets(targets.drop_last());
        if trim(targets.last().host@).len() == 0 {
            prev
        } else {
            prev.push(targets.last())
        }
    }
}

/// The saved targets to restore (see `restored_targets`).
pub fn targets_to_restore(targets: &[TargetConfig]) -> (r: Vec<TargetConfig>)
    ensures
        r@ == restored_targets(targets@),
{
    let mut out: Vec<TargetConfig> = Vec::new();
    let mut i: usize = 0;
    while i < targets.len()
        invariant
            i <= targets@.len(),
            out@ == restored_targets(targets@.take(i as int)),
        decreases targets.len() - i,
    {
        let t = &targets[i];
        let host = trim_str(t.host.as_str());
        assert(targets@.take(i + 1).drop_last() =~= targets@.take(i as int));
        if !host.as_str().is_empty() {
            out.push(
                TargetConfig {
                    name: t.name.clone(),
                    host: t.host.clone(),
                    enabled: t.enabled,
                    events_on: t.events_on,
                },
            );
        }
        i = i + 1;
    }
    assert(targets@.take(i as int) =~= targets@);
    out
}

/* ----------------------------- editing a target ----------------------------- */

/// What follows an edit of a target.
#[derive(Debug, Clone, Copy, PartialEq, Eq, Structural)]
pub enum FollowUp {
    /// The target was disabled: its worker is stopped (no stop event).
    Stop,
    /// The target is enabled while probing runs: its worker is started.
    Start,
    /// Nothing to do.
    Nothing,
}

/// The result of editing a target.
#[derive(Debug)]
pub struct TargetEdit {
    /// New display name.
    pub name: String,
    /// New host.
    pub host: String,
    /// Whether the host changed (the resolved address, status and last
    /// error are then reset).
    pub host_changed: bool,
    /// New enabled flag.
    pub enabled: bool,
    /// Texts of the configuration-change events to record, in order.
    pub events: Vec<String>,
    /// What follows.
    pub follow_up: FollowUp,
}

/// The texts of the configuration-change events of an edit: one per field
/// that changed (name, host, enabled flag), when events are recorded.
pub open spec fn change_texts(
    old_name: Seq<char>,
    old_host: Seq<char>,
    old_enabled: bool,
    name: Seq<char>,
    host: Seq<char>,
    enabled: bool,
    record: bool,
) -> Seq<Seq<char>> {
    if !record {
        Seq::empty()
    } else {
        let a = if old_name != name {
            seq!["配置变更：备注名 -> "@ + name]
        } else {
            Seq::empty()
        };
        let b = if old_host != host {
            seq!["配置变更：主机名 -> "@ + host]
        } else {
            Seq::empty()
        };
        let c = if old_enabled != enabled {
            seq!["配置变更：启用状态 -> "@ + if enabled {
                "开启"@
            } else {
                "关闭"@
            }]
        } else {
            Seq::empty()
        };
        a + b + c
    }
}

/// Plans an edit of a target from its current name, host and enabled
/// flag: the host is trimmed and must not be empty; the name is trimmed,
/// or the host when that is empty; events are recorded when both the
/// global and the target's switch are on; a disabled target is stopped
/// and an enabled one started while probing runs.
#[verifier::spinoff_prover]
pub fn plan_target_edit(
    old_name: &str,
    old_host: &str,
    old_enabled: bool,
    name: &str,
    host: &str,
    enabled: bool,
    events_on: bool,
    target_events_on: bool,
    running: bool,
) -> (r: Result<TargetEdit, String>)
    ensures
        match r {
            Ok(e) => {
                let h = trim(host@);
                let n = if trim(name@).len() == 0 { h } else { trim(name@) };
                &&& h.len() > 0
                &&& e.host@ == h
                &&& e.name@ == n
                &&& e.host_changed == (old_host@ != h)
                &&& e.enabled == enabled
                &&& e.events@.len() == change_texts(old_name@, old_host@, old_enabled, n, h, enabled, events_on && target_events_on).len()
                &&& forall|k: int| 0 <= k < e.events@.len() ==> (#[trigger] e.events@[k])@ == change_texts(old_name@, old_host@, old_enabled, n, h, enabled, events_on && target_events_on)[k]
                &&& e.follow_up == if !enabled {
                    FollowUp::Stop
                } else if running {
                    FollowUp::Start
                } else {
                    FollowUp::Nothing
                }
            },
            Err(msg) => trim(host@).len() == 0 && msg@ == "主机名不能为空"@,
        },
{
    let new_host = trim_str(host);
    if new_host.as_str().is_empty() {
        return Err("主机名不能为空".to_owned());
    }
    let name_trim = trim_str(name);
    let new_name = if name_trim.as_str().is_empty() { new_host.clone() } else { name_trim };
    let old_name_s = old_name.to_owned();
    let old_host_s = old_host.to_owned();
    let name_changed = old_name_s != new_name;
    let host_changed = old_host_s != new_host;
    let mut texts: Vec<String> = Vec::new();
    let ghost want = change_texts(old_name@, old_host@, old_enabled, new_name@, new_host@, enabled, events_on && target_events_on);
    if events_on && target_events_on {
        if name_changed {
            let mut t = String::new();
            t.append("配置变更：备注名 -> ");
            t.append(new_name.as_str());
            texts.push(t);
        }
        if host_changed {
            let mut t = String::new();
            t.append("配置变更：主机名 -> ");
            t.append(new_host.as_str());
            texts.push(t);
        }
        if old_enabled != enabled {
            let mut t = String::new();
            t.append("配置变更：启用状态 -> ");
            t.append(if enabled { "开启" } else { "关闭" });
            texts.push(t);
        }
    }
    proof {
        let views = Seq::new(texts@.len(), |k: int| texts@[k]@);
        assert(views =~= want);
        assert forall|k: int| 0 <= k < texts@.len() implies (#[trigger] texts@[k])@ == want[k] by {
            assert(views[k] == texts@[k]@);
        }
    }
    let follow_up = if !enabled {
        FollowUp::Stop
    } else if running {
        FollowUp::Start
    } else {
        FollowUp::Nothing
    };
    Ok(TargetEdit { name: new_name, host: new_host, host_changed, enabled, events: texts, follow_up })
}

/// The message for an id that names no target.
pub fn missing_target_message(id: u64) -> (r: String)
    ensures
        r@ == "目标 "@ + dec(id as nat) + " 不存在"@,
{
    let mut m = String::new();
    m.append("目标 ");
    push_decimal_str(&mut m, id);
    m.append(" 不存在");
    m
}

/* ----------------------------- starting and stopping ----------------------------- */

/// The targets that a start request starts: with a list of ids, the
/// targets with those ids; without, the enabled targets; in both cases
/// minus those whose worker already runs. `targets` holds each target's id
/// and enabled flag, in display order.
pub open spec fn start_selection(targets: Seq<(u64, bool)>, ids: Option<Seq<u64>>, active: Seq<u64>) -> Seq<u64>
    decreases targets.len(),
{
    if targets.len() == 0 {
        Seq::empty()
    } else {
        let prev = start_selection(targets.drop_last(), ids, active);
        let (id, enabled) = targets.last();
        let wanted = match ids {
            Some(w) => w.contains(id),
            None => enabled,
        };
        if wanted && !active.contains(id) {
            prev.push(id)
        } else {
            prev
        }
    }
}

/// Whether a start request asks for target `t` (id and enabled flag): by
/// its id when ids are given, else when it is enabled.
pub open spec fn start_wanted(t: (u64, bool), ids: Option<Seq<u64>>) -> bool {
    match ids {
        Some(w) => w.contains(t.0),
        None => t.1,
    }
}

/// What a start request starts: no target whose worker already runs, only
/// targets that were asked for, and every target asked for whose worker
/// does not run, each in display order.
pub proof fn lemma_start_selection_members(targets: Seq<(u64, bool)>, ids: Option<Seq<u64>>, active: Seq<u64>)
    ensures
        forall|k: int| 0 <= k < start_selection(targets, ids, active).len()
            ==> !active.contains(#[trigger] start_selection(targets, ids, active)[k]),
        forall|k: int| 0 <= k < start_selection(targets, ids, active).len()
            ==> exists|i: int| 0 <= i < targets.len() && targets[i].0 == #[trigger] start_selection(targets, ids, active)[k]
                && start_wanted(targets[i], ids),
        forall|i: int| 0 <= i < targets.len() && start_wanted(#[trigger] targets[i], ids) && !active.contains(targets[i].0)
            ==> start_selection(targets, ids, active).contains(targets[i].0),
    decreases targets.len(),
{
    if targets.len() > 0 {
        let front = targets.drop_last();
        lemma_start_selection_members(front, ids, active);
        let prev = start_selection(front, ids, active);
        let r = start_selection(targets, ids, active);
        let t = targets.last();
        assert(t == targets[targets.len() - 1]);
        assert forall|k: int| 0 <= k < r.len() implies exists|i: int| 0 <= i < targets.len() && targets[i].0
            == #[trigger] r[k] && start_wanted(targets[i], ids) by {
            if k < prev.len() {
                assert(r[k] == prev[k]);
                let i = choose|i: int| 0 <= i < front.len() && front[i].0 == #[trigger] prev[k] && start_wanted(front[i], ids);
                assert(targets[i] == front[i]);
            } else {
                assert(r[k] == t.0);
            }
        }
        assert forall|i: int| 0 <= i < targets.len() && start_wanted(#[trigger] targets[i], ids) && !active.contains(targets[i].0)
            implies r.contains(targets[i].0) by {
            if i < front.len() {
                assert(targets[i] == front[i]);
                let j = choose|j: int| 0 <= j < prev.len() && prev[j] == targets[i].0;
                assert(r[j] == prev[j]);
            } else {
                assert(r[prev.len() as int] == t.0);
            }
        }
        assert forall|k: int| 0 <= k < r.len() implies !active.contains(#[trigger] r[k]) by {
            if k < prev.len() {
                assert(r[k] == prev[k]);
            }
        }
    }
}

fn contains_id(v: &[u64], id: u64) -> (r: bool)
    ensures
        r == v@.contains(id),
{
    let mut i: usize = 0;
    while i < v.len()
        invariant
            i <= v@.len(),
            forall|k: int| 0 <= k < i ==> v@[k] != id,
        decreases v.len() - i,
    {
        if v[i] == id {
            return true;
        }
        i = i + 1;
    }
    false
}

/// The ids of the targets to start (see `start_selection`).
pub fn select_to_start(targets: &[(u64, bool)], ids: Option<&[u64]>, active: &[u64]) -> (r: Vec<u64>)
    ensures
        r@ == start_selection(
            targets@,
            match ids {
                Some(w) => Some(w@),
                None => None,
            },
            active@,
        ),
        forall|k: int| 0 <= k < r@.len() ==> !active@.contains(#[trigger] r@[k]),
{
    let ghost idv = match ids {
        Some(w) => Some(w@),
        None => None,
    };
    let mut out: Vec<u64> = Vec::new();
    let mut i: usize = 0;
    while i < targets.len()
        invariant
            i <= targets@.len(),
            out@ == start_selection(targets@.take(i as int), idv, active@),
            idv == match ids {
                Some(w) => Some(w@),
                None => None::<Seq<u64>>,
            },
        decreases targets.len() - i,
    {
        let (id, enabled) = targets[i];
        let wanted = match ids {
            Some(w) => contains_id(w, id),
            None => enabled,
        };
        assert(targets@.take(i + 1).drop_last() =~= targets@.take(i as int));
        if wanted && !contains_id(active, id) {
            out.push(id);
        }
        i = i + 1;
    }
    assert(targets@.take(i as int) =~= targets@);
    proof {
        lemma_start_selection_members(targets@, idv, active@);
    }
    out
}

/// The message when starting would exceed `max_threads`.
pub open spec fn over_limit_message(max_threads: nat, active: nat, to_start: nat) -> Seq<char> {
    "线程数将超过上限 "@ + dec(max_threads) + "（当前运行 "@ + dec(active) + "，待启动 "@ + dec(to_start)
        + "），请减少目标或提高「最大线程数」设置"@
}

/// The message when starting would exceed the hard limit.
pub open spec fn over_hard_limit_message(active: nat, to_start: nat) -> Seq<char> {
    "并发线程数超过硬上限 "@ + dec(HARD_MAX_THREADS as nat) + "（当前运行 "@ + dec(active) + "，待启动 "@
        + dec(to_start) + "），请减少目标数量"@
}

/// Whether `to_start` more workers may run beside `active` ones: at most
/// `max_threads` in all when that limit is enforced, at most
/// `HARD_MAX_THREADS` otherwise; the message names the limit that refuses.
pub fn check_thread_budget(active: usize, to_start: usize, max_threads: usize, limit_max_threads: bool) -> (r: Result<(), String>)
    requires
        active + to_start <= usize::MAX,
    ensures
        match r {
            Ok(()) => if limit_max_threads {
                active + to_start <= max_threads
            } else {
                active + to_start <= HARD_MAX_THREADS
            },
            Err(msg) => if limit_max_threads {
                active + to_start > max_threads && msg@ == over_limit_message(max_threads as nat, active as nat, to_start as nat)
            } else {
                active + to_start > HARD_MAX_THREADS && msg@ == over_hard_limit_message(active as nat, to_start as nat)
            },
        },
{
    let planned = active + to_start;
    if limit_max_threads {
        if planned > max_threads {
            let mut m = String::new();
            m.append("线程数将超过上限 ");
            push_decimal_str(&mut m, max_threads as u64);
            m.append("（当前运行 ");
            push_decimal_str(&mut m, active as u64);
            m.append("，待启动 ");
            push_decimal_str(&mut m, to_start as u64);
            m.append("），请减少目标或提高「最大线程数」设置");
            return Err(m);
        }
    } else {
        if planned > HARD_MAX_THREADS {
            let mut m = String::new();
            m.append("并发线程数超过硬上限 ");
            push_decimal_str(&mut m, HARD_MAX_THREADS as u64);
            m.append("（当前运行 ");
            push_decimal_str(&mut m, active as u64);
            m.append("，待启动 ");
            push_decimal_str(&mut m, to_start as u64);
            m.append("），请减少目标数量");
            return Err(m);
        }
    }
    Ok(())
}

/// Why workers are stopped.
#[derive(Debug, Clone, Copy, PartialEq, Eq, Structural)]
pub enum StopReason {
    /// The user stopped them.
    User,
    /// Removal, disabling or a switch turned off.
    Internal,
}

/// Whether stopping a target's worker records a stop event: only when the
/// user stopped it and both the global and the target's switch are on.
pub fn stop_records_event(reason: StopReason, events_on: bool, target_events_on: bool) -> (r: bool)
    ensures
        r == (reason == StopReason::User && events_on && target_events_on),
{
    match reason {
        StopReason::User => events_on && target_events_on,
        StopReason::Internal => false,
    }
}

/// Whether probing as a whole still runs after a stop: not after stopping
/// everything, nor when no worker is left.
pub fn running_after_stop(stopped_all: bool, workers_left: usize, was_running: bool) -> (r: bool)
    ensures
        r == (was_running && !stopped_all && workers_left > 0),
{
    was_running && !stopped_all && workers_left > 0
}

/* ----------------------------- probe rounds ----------------------------- */

/// How one probe round of a target ended.
#[derive(Debug, Clone)]
pub enum RoundResult {
    /// Host name resolution failed, with the error text.
    ResolveFailed(String),
    /// The probe was answered, with the reply's TTL, at time `now`.
    Answered {
        /// TTL of the reply.
        ttl: Option<u32>,
        /// Epoch milliseconds.
        now: u64,
    },
    /// The probe timed out.
    TimedOut,
    /// The probe failed, with the error text when there is one.
    ProbeFailed(Option<String>),
}

/// The event a round records.
#[derive(Debug, Clone)]
pub enum RoundEvent {
    /// A first answer or a recovery; its text shows the round-trip time and
    /// is written by the caller.
    Success(EventKind),
    /// A failure event with its text.
    Failure(EventKind, String),
}

/// The status a round leaves, and where its failure came from.
pub open spec fn round_status(r: RoundResult) -> (Status, FailSource) {
    match r {
        RoundResult::ResolveFailed(_) => (Status::Failed, FailSource::Resolve),
        RoundResult::Answered { .. } => (Status::Reachable, FailSource::Probe),
        RoundResult::TimedOut => (Status::Timeout, FailSource::Probe),
        RoundResult::ProbeFailed(_) => (Status::Failed, FailSource::Probe),
    }
}

/// The last error after a round, from the one before it.
pub open spec fn round_error(r: RoundResult, before: Option<String>) -> Option<Seq<char>> {
    match r {
        RoundResult::ResolveFailed(e) => Some(e@),
        RoundResult::Answered { .. } => None,
        RoundResult::TimedOut => opt_string(before),
        RoundResult::ProbeFailed(e) => match e {
            Some(x) => Some(x@),
            None => opt_string(before),
        },
    }
}

/// The view of an optional `String`.
pub open spec fn opt_string(s: Option<String>) -> Option<Seq<char>> {
    match s {
        Some(x) => Some(x@),
        None => None,
    }
}

/// Records the end of one probe round of a target whose status before the
/// round was `prev`: the counters take the result, the last error is
/// updated, and, when events are recorded, the status transition decides
/// the event. A timeout's text never shows an error detail; the other
/// failures show the last error.
#[verifier::spinoff_prover]
pub fn finish_round(
    counters: &mut ProbeCounters,
    last_error: &mut Option<String>,
    prev: Status,
    result: RoundResult,
    record: bool,
) -> (ev: Option<RoundEvent>)
    requires
        old(counters).sent < u64::MAX,
        result is Answered ==> old(counters).received < u64::MAX,
        !(result is Answered) ==> old(counters).failed < u64::MAX && old(counters).consecutive_fail < u32::MAX,
    ensures
        opt_string(*final(last_error)) == round_error(result, *old(last_error)),
        final(counters).status == round_status(result).0,
        final(counters).sent == old(counters).sent + 1,
        result is Answered ==> {
            &&& final(counters).received == old(counters).received + 1
            &&& final(counters).failed == old(counters).failed
            &&& final(counters).consecutive_fail == 0
            &&& final(counters).last_success_ts == Some(result->now)
            &&& final(counters).ttl == match result->ttl {
                Some(t) => if t > 0 { Some(t) } else { old(counters).ttl },
                None => old(counters).ttl,
            }
        },
        !(result is Answered) ==> {
            &&& final(counters).received == old(counters).received
            &&& final(counters).failed == old(counters).failed + 1
            &&& final(counters).consecutive_fail == old(counters).consecutive_fail + 1
            &&& final(counters).last_success_ts == old(counters).last_success_ts
            &&& final(counters).ttl == old(counters).ttl
        },
        ({
            let (next, src) = round_status(result);
            let kind = transition_event(prev, next, src);
            match ev {
                None => !record || kind is None,
                Some(RoundEvent::Success(k)) => record && kind == Some(k) && next == Status::Reachable,
                Some(RoundEvent::Failure(k, text)) => record && kind == Some(k) && next != Status::Reachable
                    && text@ == failure_text_of(
                    k,
                    final(counters).consecutive_fail as nat,
                    if result is TimedOut { None } else { opt_string(*final(last_error)) },
                ),
            }
        }),
{
    match result {
        RoundResult::ResolveFailed(e) => {
            *last_error = Some(e);
            counters.record_failure(Status::Failed);
            if !record {
                return None;
            }
            match classify_transition(prev, Status::Failed, FailSource::Resolve) {
                Some(kind) => {
                    let detail = match last_error {
                        Some(x) => Some(x.as_str()),
                        None => None,
                    };
                    let text = failure_text(kind, counters.consecutive_fail, detail);
                    Some(RoundEvent::Failure(kind, text))
                },
                None => None,
            }
        },
        RoundResult::Answered { ttl, now } => {
            counters.record_success(ttl, now);
            *last_error = None;
            if !record {
                return None;
            }
            match classify_transition(prev, Status::Reachable, FailSource::Probe) {
                Some(kind) => Some(RoundEvent::Success(kind)),
                None => None,
            }
        },
        RoundResult::TimedOut => {
            counters.record_failure(Status::Timeout);
            if !record {
                return None;
            }
            match classify_transition(prev, Status::Timeout, FailSource::Probe) {
                Some(kind) => {
                    let text = failure_text(kind, counters.consecutive_fail, None);
                    Some(RoundEvent::Failure(kind, text))
                },
                None => None,
            }
        },
        RoundResult::ProbeFailed(err) => {
            if err.is_some() {
                *last_error = err;
            }
            counters.record_failure(Status::Failed);
            if !record {
                return None;
            }
            match classify_transition(prev, Status::Failed, FailSource::Probe) {
                Some(kind) => {
                    let detail = match last_error {
                        Some(x) => Some(x.as_str()),
                        None => None,
                    };
                    let text = failure_text(kind, counters.consecutive_fail, detail);
                    Some(RoundEvent::Failure(kind, text))
                },
                None => None,
            }
        },
    }
}

/// Failing rounds are recorded once: the status each round is compared
/// with is the one the target had when the round began, so a round that
/// fails after a failed round produces no event, while the first failing
/// round of a target that never answered produces one (a resolution
/// failure when the name lookup failed).
pub proof fn lemma_failing_rounds_recorded_once(first: RoundResult, second: RoundResult)
    requires
        !(first is Answered),
        !(second is Answered),
    ensures
        transition_event(Status::Idle, round_status(first).0, round_status(first).1) is Some,
        first is ResolveFailed ==> transition_event(Status::Idle, round_status(first).0, round_status(first).1)
            == Some(EventKind::DnsFail),
        transition_event(round_status(first).0, round_status(second).0, round_status(second).1) is None,
{
}

/// What a worker does at the start of a round.
#[derive(Debug, Clone, Copy, PartialEq, Eq, Structural)]
pub enum RoundAction {
    /// Stop: the worker was told to stop, or the target has no host.
    Finish,
    /// Resolve the host name first: no usable address is cached.
    Resolve,
    /// Probe the cached address.
    Probe,
}

/// The start of a round of a target.
#[derive(Debug, Clone, Copy)]
pub struct RoundBegin {
    /// What the worker does next.
    pub action: RoundAction,
    /// The status the round's result is compared with: the target's status
    /// when the round began, before it shows as resolving.
    pub prev: Status,
    /// The target's status while the round runs.
    pub status: Status,
}

/// Begins a round of a target whose status is `status`: a stopped worker
/// or a target without a host finishes; a target with a usable cached
/// address is probed; any other is resolved first and shows as resolving
/// meanwhile. The round's result is compared with the status before that
/// change, so a name that keeps failing to resolve is recorded once.
pub fn begin_round(stopped: bool, host_empty: bool, status: Status, has_address: bool) -> (r: RoundBegin)
    ensures
        r.prev == status,
        (stopped || host_empty) ==> r.action == RoundAction::Finish && r.status == status,
        !(stopped || host_empty) && has_address ==> r.action == RoundAction::Probe && r.status == status,
        !(stopped || host_empty) && !has_address ==> r.action == RoundAction::Resolve && r.status
            == Status::Resolving,
{
    if stopped || host_empty {
        RoundBegin { action: RoundAction::Finish, prev: status, status }
    } else if has_address {
        RoundBegin { action: RoundAction::Probe, prev: status, status }
    } else {
        RoundBegin { action: RoundAction::Resolve, prev: status, status: Status::Resolving }
    }
}

/// The status of a target that began with `start` after the rounds
/// `results` (`finish_round` leaves the status of the last round).
pub open spec fn status_after_rounds(start: Status, results: Seq<RoundResult>) -> Status {
    if results.len() == 0 {
        start
    } else {
        round_status(results.last()).0
    }
}

/// The event each of the rounds `results` of a target that began with
/// `start` records (events on): each round's result is compared with the
/// status the target had when that round began (`begin_round`).
pub open spec fn round_events(start: Status, results: Seq<RoundResult>) -> Seq<Option<EventKind>>
    decreases results.len(),
{
    if results.len() == 0 {
        Seq::empty()
    } else {
        let before = results.drop_last();
        let (next, src) = round_status(results.last());
        round_events(start, before).push(transition_event(status_after_rounds(start, before), next, src))
    }
}

/// A host name that never resolves is recorded once: over any number of
/// rounds of a target that had not answered yet, the first round records a
/// resolution failure and no later round records anything.
pub proof fn lemma_persistent_dns_failure_recorded_once(start: Status, results: Seq<RoundResult>)
    requires
        start == Status::Idle || start == Status::Resolving,
        results.len() >= 1,
        forall|i: int| 0 <= i < results.len() ==> #[trigger] results[i] is ResolveFailed,
    ensures
        round_events(start, results).len() == results.len(),
        round_events(start, results)[0] == Some(EventKind::DnsFail),
        forall|i: int| 1 <= i < results.len() ==> #[trigger] round_events(start, results)[i] is None,
    decreases results.len(),
{
    let before = results.drop_last();
    assert(results.last() == results[results.len() - 1]);
    if results.len() == 1 {
        assert(before.len() == 0);
    } else {
        assert forall|i: int| 0 <= i < before.len() implies #[trigger] before[i] is ResolveFailed by {
            assert(before[i] == results[i]);
        }
        lemma_persistent_dns_failure_recorded_once(start, before);
        assert(before.last() == results[results.len() - 2]);
        assert(status_after_rounds(start, before) == Status::Failed);
    }
}

/* ----------------------------- event log plumbing ----------------------------- */

/// The directory of the event file: the configured one, else the default.
pub fn events_dir(configured: Option<String>, default_dir: Option<String>) -> (r: Option<String>)
    ensures
        r == (match configured {
            Some(d) => Some(d),
            None => default_dir,
        }),
{
    match configured {
        Some(d) => Some(d),
        None => default_dir,
    }
}

/// The directory to read past events from at start-up: none when events
/// are not written to a file, else the event file's directory.
pub fn history_dir(persist: bool, configured: Option<String>, default_dir: Option<String>) -> (r: Option<String>)
    ensures
        r == (if !persist {
            None
        } else {
            match configured {
                Some(d) => Some(d),
                None => default_dir,
            }
        }),
{
    if !persist {
        None
    } else {
        events_dir(configured, default_dir)
    }
}

/// The pairs (host key, id) by which past events find their targets, one
/// per target in order; `targets` holds each target's id and host.
pub fn host_index(targets: &[(u64, String)]) -> (r: Vec<(String, u64)>)
    ensures
        r@.len() == targets@.len(),
        forall|k: int| 0 <= k < r@.len() ==> (#[trigger] r@[k]).0@ == host_key(targets@[k].1@) && r@[k].1 == targets@[k].0,
{
    let mut out: Vec<(String, u64)> = Vec::new();
    let mut i: usize = 0;
    while i < targets.len()
        invariant
            i <= targets@.len(),
            out@.len() == i,
            forall|k: int| 0 <= k < i ==> (#[trigger] out@[k]).0@ == host_key(targets@[k].1@) && out@[k].1 == targets@[k].0,
        decreases targets.len() - i,
    {
        let key = normalize_host(targets[i].1.as_str());
        out.push((key, targets[i].0));
        i = i + 1;
    }
    out
}

/// The events to export: those of one target, oldest first, or all kept
/// events in ascending order of sequence number.
pub fn collect_events(store: &EventStore, target_id: Option<u64>) -> (r: Vec<LogEvent>)
    requires
        store.wf(),
    ensures
        match target_id {
            Some(id) => r@ == store.ring(id),
            None => sorted_by_seq(r@) && forall|e: LogEvent| #[trigger] r@.to_multiset().count(e) == store.ring(e.target_id).to_multiset().count(e),
        },
{
    match target_id {
        Some(id) => {
            proof {
                store.lemma_wf();
            }
            let newest = store.list_host(id, usize::MAX);
            let n = newest.len();
            let mut out: Vec<LogEvent> = Vec::new();
            let mut k: usize = 0;
            while k < n
                invariant
                    k <= n,
                    n == newest@.len(),
                    newest@.len() == store.ring(id).len(),
                    forall|x: int| 0 <= x < n ==> #[trigger] newest@[x] == store.ring(id)[n - 1 - x],
                    out@ == store.ring(id).take(k as int),
                decreases n - k,
            {
                out.push(newest[n - 1 - k].duplicate());
                k = k + 1;
                assert(out@ =~= store.ring(id).take(k as int));
            }
            assert(store.ring(id).take(n as int) =~= store.ring(id));
            out
        },
        None => store.all_events(),
    }
}

/* ----------------------------- configuration ----------------------------- */

/// Completes a configuration read from disk: settings are normalised and
/// version 0 becomes 1.
pub fn finish_loaded_config(cfg: &mut AppConfig)
    ensures
        normalized(old(cfg).settings, final(cfg).settings),
        settings_in_range(final(cfg).settings),
        final(cfg).version == if old(cfg).version == 0 { 1 } else { old(cfg).version },
        final(cfg).targets@ == old(cfg).targets@,
{
    normalize_settings(&mut cfg.settings);
    if cfg.version == 0 {
        cfg.version = 1;
    }
}

/* ----------------------------- totals ----------------------------- */

/// Sum of `f` over `s`.
pub open spec fn sum_of(s: Seq<ProbeCounters>, f: spec_fn(ProbeCounters) -> u64) -> nat
    decreases s.len(),
{
    if s.len() == 0 {
        0
    } else {
        sum_of(s.drop_last(), f) + f(s.last()) as nat
    }
}

/// Probes sent, answered and failed over all targets.
pub fn totals(targets: &[ProbeCounters]) -> (r: (u64, u64, u64))
    requires
        sum_of(targets@, |c: ProbeCounters| c.sent) <= u64::MAX,
        sum_of(targets@, |c: ProbeCounters| c.received) <= u64::MAX,
        sum_of(targets@, |c: ProbeCounters| c.failed) <= u64::MAX,
    ensures
        r.0 == sum_of(targets@, |c: ProbeCounters| c.sent),
        r.1 == sum_of(targets@, |c: ProbeCounters| c.received),
        r.2 == sum_of(targets@, |c: ProbeCounters| c.failed),
{
    let mut sent: u64 = 0;
    let mut received: u64 = 0;
    let mut failed: u64 = 0;
    let mut i: usize = 0;
    while i < targets.len()
        invariant
            i <= targets@.len(),
            sent == sum_of(targets@.take(i as int), |c: ProbeCounters| c.sent),
            received == sum_of(targets@.take(i as int), |c: ProbeCounters| c.received),
            failed == sum_of(targets@.take(i as int), |c: ProbeCounters| c.failed),
            sum_of(targets@, |c: ProbeCounters| c.sent) <= u64::MAX,
            sum_of(targets@, |c: ProbeCounters| c.received) <= u64::MAX,
            sum_of(targets@, |c: ProbeCounters| c.failed) <= u64::MAX,
        decreases targets.len() - i,
    {
        assert(targets@.take(i + 1).drop_last() =~= targets@.take(i as int));
        proof {
            lemma_sum_prefix(targets@, i + 1, |c: ProbeCounters| c.sent);
            lemma_sum_prefix(targets@, i + 1, |c: ProbeCounters| c.received);
            lemma_sum_prefix(targets@, i + 1, |c: ProbeCounters| c.failed);
        }
        sent = sent + targets[i].sent;
        received = received + targets[i].received;
        failed = failed + targets[i].failed;
        i = i + 1;
    }
    assert(targets@.take(i as int) =~= targets@);
    (sent, received, failed)
}

proof fn lemma_sum_prefix(s: Seq<ProbeCounters>, j: int, f: spec_fn(ProbeCounters) -> u64)
    requires
        0 <= j <= s.len(),
    ensures
        sum_of(s.take(j), f) <= sum_of(s, f),
    decreases s.len() - j,
{
    if j < s.len() {
        lemma_sum_prefix(s, j + 1, f);
        assert(s.take(j + 1).drop_last() =~= s.take(j));
    } else {
        assert(s.take(j) =~= s);
    }
}

/* ----------------------------- name resolution ----------------------------- */

/// The address chosen among the resolved addresses of `host` (each with
/// whether it is IPv4): the first IPv4 one, else the first; the message
/// naming the host when there is none.
pub open spec fn chosen_address(host: Seq<char>, addrs: Seq<(bool, String)>) -> Result<Seq<char>, Seq<char>> {
    if exists|k: int| 0 <= k < addrs.len() && (#[trigger] addrs[k]).0 {
        let k = choose|k: int| 0 <= k < addrs.len() && (#[trigger] addrs[k]).0 && forall|j: int| 0 <= j < k ==> !(#[trigger] addrs[j]).0;
        Ok(addrs[k].1@)
    } else if addrs.len() > 0 {
        Ok(addrs[0].1@)
    } else {
        Err("无法解析主机名："@ + host)
    }
}

/// Chooses the address to probe among the resolved addresses of `host`
/// (see `chosen_address`).
pub fn choose_address(host: &str, addrs: &[(bool, String)]) -> (r: Result<String, String>)
    ensures
        match r {
            Ok(a) => chosen_address(host@, addrs@) == Ok::<Seq<char>, Seq<char>>(a@),
            Err(m) => chosen_address(host@, addrs@) == Err::<Seq<char>, Seq<char>>(m@),
        },
{
    let mut i: usize = 0;
    while i < addrs.len()
        invariant
            i <= addrs@.len(),
            forall|j: int| 0 <= j < i ==> !(#[trigger] addrs@[j]).0,
        decreases addrs.len() - i,
    {
        if addrs[i].0 {
            proof {
                let k = choose|k: int| 0 <= k < addrs@.len() && (#[trigger] addrs@[k]).0 && forall|j: int| 0 <= j < k ==> !(#[trigger] addrs@[j]).0;
                assert(k == i) by {
                    if k < i {
                        assert(!addrs@[k].0);
                    } else if k > i {
                        assert(!addrs@[i as int].0);
                    }
                }
            }
            return Ok(addrs[i].1.clone());
        }
        i = i + 1;
    }
    if addrs.len() > 0 {
        Ok(addrs[0].1.clone())
    } else {
        let mut m = String::new();
        m.append("无法解析主机名：");
        m.append(host);
        Err(m)
    }
}

/// The message of a failed name lookup.
pub fn resolve_error_message(err: &str) -> (r: String)
    ensures
        r@ == "解析失败："@ + err@,
{
    let mut m = String::new();
    m.append("解析失败：");
    m.append(err);
    m
}

} // verus!
