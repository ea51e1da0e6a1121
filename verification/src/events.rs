//! Event log model: event kinds and levels, the status-transition rule that
//! decides which event a probe result produces, event texts, and the event
//! store (incremental buffer, per-host rings and a monotone sequence number).
use vstd::prelude::*;

use crate::model::Status;
use crate::text::{
    from_chars, trim_chars, chars_eq, dec, has_prefix, lowercase_of, push_char, push_chars, push_decimal_str, starts_with,
    to_chars, to_lowercase, trim, trim_str,
};

verus! {

/* ----------------------------- event model ----------------------------- */

/// Kind of an event.
#[derive(Debug, Clone, Copy, PartialEq, Eq, Structural)]
pub enum EventKind {
    /// A target that answered stops answering.
    Fault,
    /// A target that never answered fails.
    Unreachable,
    /// Host name resolution fails.
    DnsFail,
    /// A failing target answers again.
    Recover,
    /// A target answers for the first time.
    FirstOk,
    /// Probing starts.
    Start,
    /// The user stops probing.
    Stop,
    /// Name, host or enabled flag of a target changed.
    ConfigChange,
}

/// Label of each event kind (the "event type" column of the events CSV).
pub open spec fn kind_label(k: EventKind) -> Seq<char> {
    match k {
        EventKind::Fault => "故障"@,
        EventKind::Unreachable => "无法连通"@,
        EventKind::DnsFail => "解析失败"@,
        EventKind::Recover => "已恢复"@,
        EventKind::FirstOk => "首次连通"@,
        EventKind::Start => "开始探测"@,
        EventKind::Stop => "已停止"@,
        EventKind::ConfigChange => "配置变更"@,
    }
}

impl EventKind {
    /// The label of this kind.
    pub fn label(self) -> (r: &'static str)
        ensures
            r@ == kind_label(self),
    {
        match self {
            EventKind::Fault => "故障",
            EventKind::Unreachable => "无法连通",
            EventKind::DnsFail => "解析失败",
            EventKind::Recover => "已恢复",
            EventKind::FirstOk => "首次连通",
            EventKind::Start => "开始探测",
            EventKind::Stop => "已停止",
            EventKind::ConfigChange => "配置变更",
        }
    }
}

/// Display level of an event.
#[derive(Debug, Clone, Copy, PartialEq, Eq, Structural)]
pub enum EventLevel {
    /// Faults only.
    Fault,
    /// Standard (the default).
    Standard,
    /// Detailed.
    Detail,
}

/// Rank of a level; an event is shown at setting `s` when
/// `level_rank(event.level) <= level_rank(s)`.
pub open spec fn level_rank(l: EventLevel) -> nat {
    match l {
        EventLevel::Fault => 0,
        EventLevel::Standard => 1,
        EventLevel::Detail => 2,
    }
}

/// The level each kind belongs to.
pub open spec fn level_of_kind(k: EventKind) -> EventLevel {
    match k {
        EventKind::Fault | EventKind::Unreachable | EventKind::DnsFail | EventKind::Recover => EventLevel::Fault,
        EventKind::FirstOk | EventKind::Start | EventKind::Stop => EventLevel::Standard,
        EventKind::ConfigChange => EventLevel::Detail,
    }
}

/// Label of each level (the "level" column of the events CSV).
pub open spec fn level_label(l: EventLevel) -> Seq<char> {
    match l {
        EventLevel::Fault => "仅故障"@,
        EventLevel::Standard => "标准"@,
        EventLevel::Detail => "详细"@,
    }
}

impl EventLevel {
    /// Rank of this level (smaller is more severe).
    pub fn rank(self) -> (r: u8)
        ensures
            r as nat == level_rank(self),
    {
        match self {
            EventLevel::Fault => 0,
            EventLevel::Standard => 1,
            EventLevel::Detail => 2,
        }
    }

    /// The level an event of kind `kind` belongs to.
    pub fn for_kind(kind: EventKind) -> (r: EventLevel)
        ensures
            r == level_of_kind(kind),
    {
        match kind {
            EventKind::Fault | EventKind::Unreachable | EventKind::DnsFail | EventKind::Recover => {
                EventLevel::Fault
            },
            EventKind::FirstOk | EventKind::Start | EventKind::Stop => EventLevel::Standard,
            EventKind::ConfigChange => EventLevel::Detail,
        }
    }

    /// The label of this level.
    pub fn label(self) -> (r: &'static str)
        ensures
            r@ == level_label(self),
    {
        match self {
            EventLevel::Fault => "仅故障",
            EventLevel::Standard => "标准",
            EventLevel::Detail => "详细",
        }
    }
}

impl Default for EventLevel {
    fn default() -> (r: Self)
        ensures
            r == EventLevel::Standard,
    {
        EventLevel::Standard
    }
}

/// Default of the `events_level` setting.
pub fn default_event_level() -> (r: EventLevel)
    ensures
        r == EventLevel::Standard,
{
    EventLevel::Standard
}

/// Default of the `events_keep` setting.
pub const DEFAULT_EVENTS_KEEP: usize = 200;

/// Default of the `events_keep` setting.
pub fn default_log_keep() -> (r: usize)
    ensures
        r == 200,
{
    DEFAULT_EVENTS_KEEP
}

/// The level named by a stored `events_level` value: `"fault"`, `"standard"`
/// and `"detail"` name their level; anything else, a missing value or a value
/// that is not a string gives `Standard`, so that one unknown value never
/// makes a whole configuration unreadable.
pub open spec fn level_from_name(name: Option<Seq<char>>) -> EventLevel {
    match name {
        Some(n) => if n == "fault"@ {
            EventLevel::Fault
        } else if n == "detail"@ {
            EventLevel::Detail
        } else {
            EventLevel::Standard
        },
        None => EventLevel::Standard,
    }
}

/// Reads a stored `events_level` value (`None` when the stored value is
/// missing or not a string).
pub fn event_level_from_name(name: Option<&str>) -> (r: EventLevel)
    ensures
        r == level_from_name(match name { Some(n) => Some(n@), None => None }),
{
    match name {
        Some(n) => {
            let v = to_chars(n);
            let fault = to_chars("fault");
            let detail = to_chars("detail");
            proof {
                reveal_strlit("fault");
                reveal_strlit("detail");
            }
            if chars_eq(v.as_slice(), fault.as_slice()) {
                EventLevel::Fault
            } else if chars_eq(v.as_slice(), detail.as_slice()) {
                EventLevel::Detail
            } else {
                EventLevel::Standard
            }
        },
        None => EventLevel::Standard,
    }
}

/// Where a failure came from.
#[derive(Debug, Clone, Copy, PartialEq, Eq, Structural)]
pub enum FailSource {
    /// Host name resolution.
    Resolve,
    /// The echo probe.
    Probe,
}

/* ----------------------------- transitions ----------------------------- */

/// Whether a status is a failure status.
pub open spec fn is_failure(s: Status) -> bool {
    s == Status::Timeout || s == Status::Failed
}

/// Whether a status is one of the "not yet answered" statuses.
pub open spec fn is_fresh(s: Status) -> bool {
    s == Status::Idle || s == Status::Resolving
}

/// The event produced when a target's status goes from `prev` to `next`.
pub open spec fn transition_event(prev: Status, next: Status, src: FailSource) -> Option<EventKind> {
    if next == Status::Reachable {
        if is_failure(prev) {
            Some(EventKind::Recover)
        } else if is_fresh(prev) {
            Some(EventKind::FirstOk)
        } else {
            None
        }
    } else if is_failure(next) {
        if prev == Status::Reachable {
            Some(EventKind::Fault)
        } else if is_fresh(prev) {
            if src == FailSource::Resolve {
                Some(EventKind::DnsFail)
            } else {
                Some(EventKind::Unreachable)
            }
        } else {
            None
        }
    } else {
        None
    }
}

/// Decides which event (if any) a status transition produces. Failure to
/// failure produces nothing, so a target that keeps failing is recorded once.
pub fn classify_transition(prev: Status, next: Status, src: FailSource) -> (r: Option<EventKind>)
    ensures
        r == transition_event(prev, next, src),
{
    match next {
        Status::Reachable => match prev {
            Status::Timeout | Status::Failed => Some(EventKind::Recover),
            Status::Idle | Status::Resolving => Some(EventKind::FirstOk),
            Status::Reachable => None,
        },
        Status::Timeout | Status::Failed => match prev {
            Status::Reachable => Some(EventKind::Fault),
            Status::Idle | Status::Resolving => {
                if matches!(src, FailSource::Resolve) {
                    Some(EventKind::DnsFail)
                } else {
                    Some(EventKind::Unreachable)
                }
            },
            Status::Timeout | Status::Failed => None,
        },
        Status::Idle | Status::Resolving => None,
    }
}

/* ----------------------------- event texts ----------------------------- */

/// `e` without the prefix `p` when it has it.
pub open spec fn strip_prefix(e: Seq<char>, p: Seq<char>) -> Seq<char> {
    if has_prefix(e, p) {
        e.skip(p.len() as int)
    } else {
        e
    }
}

/// Whether an optional error text is present and non-empty.
pub open spec fn has_detail(err: Option<Seq<char>>) -> bool {
    err is Some && err->0.len() > 0
}

/// Text of a failure event.
pub open spec fn failure_text_of(kind: EventKind, consecutive: nat, err: Option<Seq<char>>) -> Seq<char> {
    match kind {
        EventKind::Fault => if has_detail(err) {
            "探测失败："@ + err->0
        } else {
            "探测超时（连续 "@ + dec(consecutive) + " 次）"@
        },
        EventKind::Unreachable => if has_detail(err) {
            "无法连通："@ + err->0
        } else {
            "无法连通"@
        },
        EventKind::DnsFail => if has_detail(err) {
            "解析失败："@ + strip_prefix(err->0, "解析失败："@)
        } else {
            "解析失败"@
        },
        _ => "未知事件"@,
    }
}

/// The view of an optional string.
pub open spec fn opt_view(s: Option<&str>) -> Option<Seq<char>> {
    match s {
        Some(x) => Some(x@),
        None => None,
    }
}

/// Text of a failure event: the error detail when there is one, and the
/// resolution error is not prefixed twice.
pub fn failure_text(kind: EventKind, consecutive: u32, err: Option<&str>) -> (r: String)
    ensures
        r@ == failure_text_of(kind, consecutive as nat, opt_view(err)),
{
    let detail: Option<Vec<char>> = match err {
        Some(e) => {
            let v = to_chars(e);
            if v.len() > 0 {
                Some(v)
            } else {
                None
            }
        },
        None => None,
    };
    let mut out = String::new();
    match kind {
        EventKind::Fault => {
            match detail {
                Some(v) => {
                    out.append("探测失败：");
                    push_chars(&mut out, v.as_slice());
                },
                None => {
                    out.append("探测超时（连续 ");
                    push_decimal_str(&mut out, consecutive as u64);
                    out.append(" 次）");
                },
            }
        },
        EventKind::Unreachable => {
            match detail {
                Some(v) => {
                    out.append("无法连通：");
                    push_chars(&mut out, v.as_slice());
                },
                None => {
                    out.append("无法连通");
                },
            }
        },
        EventKind::DnsFail => {
            match detail {
                Some(v) => {
                    out.append("解析失败：");
                    let p = to_chars("解析失败：");
                    if starts_with(v.as_slice(), p.as_slice()) {
                        let mut i = p.len();
                        while i < v.len()
                            invariant
                                p@.len() <= i <= v@.len(),
                                out@ == "解析失败："@ + v@.subrange(p@.len() as int, i as int),
                            decreases v.len() - i,
                        {
                            push_char(&mut out, v[i]);
                            i = i + 1;
                            assert(out@ =~= "解析失败："@ + v@.subrange(p@.len() as int, i as int));
                        }
                        assert(v@.subrange(p@.len() as int, v@.len() as int) =~= v@.skip(
                            p@.len() as int,
                        ));
                    } else {
                        push_chars(&mut out, v.as_slice());
                    }
                },
                None => {
                    out.append("解析失败");
                },
            }
        },
        _ => {
            out.append("未知事件");
        },
    }
    proof {
        assert(Seq::<char>::empty() + "探测失败："@ =~= "探测失败："@);
    }
    out
}

/* ----------------------------- events ----------------------------- */

/// One recorded event (one line of the event file).
#[derive(Debug, Clone, PartialEq, Eq)]
pub struct LogEvent {
    /// Sequence number, increasing within a session.
    pub seq: u64,
    /// Time, epoch milliseconds.
    pub ts: u64,
    /// Runtime id of the target.
    pub target_id: u64,
    /// Display name of the target when the event was recorded.
    pub target_name: String,
    /// Host of the target when the event was recorded.
    pub target_host: String,
    /// Kind.
    pub kind: EventKind,
    /// Level (stored with the event).
    pub level: EventLevel,
    /// Text shown to the user.
    pub text: String,
}

/// `e` attributed to target `id`.
pub open spec fn with_target_id(e: LogEvent, id: u64) -> LogEvent {
    LogEvent { target_id: id, ..e }
}

impl LogEvent {
    /// A copy of this event.
    pub fn duplicate(&self) -> (r: LogEvent)
        ensures
            r == *self,
    {
        LogEvent {
            seq: self.seq,
            ts: self.ts,
            target_id: self.target_id,
            target_name: self.target_name.clone(),
            target_host: self.target_host.clone(),
            kind: self.kind,
            level: self.level,
            text: self.text.clone(),
        }
    }

    /// A copy of this event attributed to target `id`.
    pub fn with_target(&self, id: u64) -> (r: LogEvent)
        ensures
            r == with_target_id(*self, id),
    {
        LogEvent {
            seq: self.seq,
            ts: self.ts,
            target_id: id,
            target_name: self.target_name.clone(),
            target_host: self.target_host.clone(),
            kind: self.kind,
            level: self.level,
            text: self.text.clone(),
        }
    }

    /// An event read back from the event file. Older lines may lack the
    /// level: it is then the level of the kind.
    pub fn from_stored(
        seq: u64,
        ts: u64,
        target_id: u64,
        target_name: String,
        target_host: String,
        kind: EventKind,
        level: Option<EventLevel>,
        text: String,
    ) -> (r: LogEvent)
        ensures
            r.seq == seq && r.ts == ts && r.target_id == target_id,
            r.target_name == target_name && r.target_host == target_host,
            r.kind == kind && r.text == text,
            r.level == (match level {
                Some(l) => l,
                None => level_of_kind(kind),
            }),
    {
        let level = match level {
            Some(l) => l,
            None => EventLevel::for_kind(kind),
        };
        LogEvent { seq, ts, target_id, target_name, target_host, kind, level, text }
    }
}

/// The last `k` items of `s` (all of `s` when it is shorter).
pub open spec fn keep_last<T>(s: Seq<T>, k: nat) -> Seq<T> {
    if s.len() > k {
        s.skip(s.len() - k)
    } else {
        s
    }
}

/// The newest `limit` items of `s`, newest first.
pub open spec fn newest_first<T>(s: Seq<T>, limit: nat) -> Seq<T> {
    let n = if limit < s.len() { limit } else { s.len() };
    Seq::new(n, |i: int| s[s.len() - 1 - i])
}

/// Whether `s` is in ascending order of sequence numbers.
pub open spec fn sorted_by_seq(s: Seq<LogEvent>) -> bool {
    forall|a: int, b: int| 0 <= a < b < s.len() ==> s[a].seq <= s[b].seq
}

/// The key by which events are matched to targets across restarts: the
/// host, trimmed and lower-cased.
pub open spec fn host_key(host: Seq<char>) -> Seq<char> {
    lowercase_of(trim(host))
}

/// Trims and lower-cases a host name (the key of `host_key`).
pub fn normalize_host(host: &str) -> (r: String)
    ensures
        r@ == host_key(host@),
{
    let t = trim_str(host);
    to_lowercase(t.as_str())
}

/// The id that `pairs` gives to `key` (the last pair with that key wins, as
/// when the pairs are inserted into a map in order).
pub open spec fn lookup_key(pairs: Seq<(String, u64)>, key: Seq<char>) -> Option<u64>
    decreases pairs.len(),
{
    if pairs.len() == 0 {
        None
    } else if pairs.last().0@ == key {
        Some(pairs.last().1)
    } else {
        lookup_key(pairs.drop_last(), key)
    }
}

/// Executable `lookup_key`.
pub fn find_host_id(pairs: &[(String, u64)], key: &String) -> (r: Option<u64>)
    ensures
        r == lookup_key(pairs@, key@),
{
    let mut i = pairs.len();
    assert(pairs@.take(i as int) =~= pairs@);
    while i > 0
        invariant
            i <= pairs@.len(),
            lookup_key(pairs@, key@) == lookup_key(pairs@.take(i as int), key@),
        decreases i,
    {
        let ghost t = pairs@.take(i as int);
        assert(t.drop_last() =~= pairs@.take(i - 1));
        if pairs[i - 1].0 == *key {
            return Some(pairs[i - 1].1);
        }
        i = i - 1;
    }
    None
}

/// The events of `events` that `pairs` routes to target `j`, in order, each
/// attributed to `j`.
pub open spec fn routed(events: Seq<LogEvent>, pairs: Seq<(String, u64)>, j: u64) -> Seq<LogEvent>
    decreases events.len(),
{
    if events.len() == 0 {
        Seq::empty()
    } else {
        let prev = routed(events.drop_last(), pairs, j);
        let e = events.last();
        if lookup_key(pairs, host_key(e.target_host@)) == Some(j) {
            prev.push(with_target_id(e, j))
        } else {
            prev
        }
    }
}

/// Largest sequence number in `events` (0 for none).
pub open spec fn max_seq(events: Seq<LogEvent>) -> u64
    decreases events.len(),
{
    if events.len() == 0 {
        0
    } else {
        let m = max_seq(events.drop_last());
        if events.last().seq > m {
            events.last().seq
        } else {
            m
        }
    }
}

/* ----------------------------- event store ----------------------------- */

/// The events kept for one target.
struct HostRing {
    id: u64,
    events: Vec<LogEvent>,
}

/// Whether no two rings belong to the same target.
spec fn unique_ids(rings: Seq<HostRing>) -> bool {
    forall|a: int, b: int| 0 <= a < b < rings.len() ==> rings[a].id != rings[b].id
}

/// Whether `rings` holds a ring for target `id`.
spec fn has_ring(rings: Seq<HostRing>, id: u64) -> bool {
    exists|i: int| 0 <= i < rings.len() && rings[i].id == id
}

/// The events of target `id` in `rings` (none when it has no ring).
spec fn ring_in(rings: Seq<HostRing>, id: u64) -> Seq<LogEvent> {
    if has_ring(rings, id) {
        rings[choose|i: int| 0 <= i < rings.len() && rings[i].id == id].events@
    } else {
        Seq::empty()
    }
}

proof fn lemma_ring_at(rings: Seq<HostRing>, i: int)
    requires
        unique_ids(rings),
        0 <= i < rings.len(),
    ensures
        ring_in(rings, rings[i].id) == rings[i].events@,
{
    let id = rings[i].id;
    assert(has_ring(rings, id));
    let c = choose|k: int| 0 <= k < rings.len() && rings[k].id == id;
    if c != i {
        if c < i {
            assert(rings[c].id != rings[i].id);
        } else {
            assert(rings[i].id != rings[c].id);
        }
    }
}

/// Replacing ring `i` by a ring of the same target changes that target's
/// events only.
proof fn lemma_ring_update(a: Seq<HostRing>, i: int, h: HostRing)
    requires
        unique_ids(a),
        0 <= i < a.len(),
        h.id == a[i].id,
    ensures
        unique_ids(a.update(i, h)),
        ring_in(a.update(i, h), h.id) == h.events@,
        forall|j: u64| j != h.id ==> ring_in(a.update(i, h), j) == ring_in(a, j),
{
    let b = a.update(i, h);
    assert forall|x: int, y: int| 0 <= x < y < b.len() implies b[x].id != b[y].id by {
        assert(b[x].id == a[x].id);
        assert(b[y].id == a[y].id);
    }
    lemma_ring_at(b, i);
    assert forall|j: u64| j != h.id implies ring_in(b, j) == ring_in(a, j) by {
        if has_ring(a, j) {
            let k = choose|k: int| 0 <= k < a.len() && a[k].id == j;
            lemma_ring_at(a, k);
            lemma_ring_at(b, k);
        } else {
            assert(!has_ring(b, j)) by {
                if has_ring(b, j) {
                    let k = choose|k: int| 0 <= k < b.len() && b[k].id == j;
                    assert(a[k].id == j);
                }
            }
        }
    }
}

/// Adding a ring for a target that has none.
proof fn lemma_ring_push(a: Seq<HostRing>, h: HostRing)
    requires
        unique_ids(a),
        !has_ring(a, h.id),
    ensures
        unique_ids(a.push(h)),
        ring_in(a.push(h), h.id) == h.events@,
        forall|j: u64| j != h.id ==> ring_in(a.push(h), j) == ring_in(a, j),
{
    let b = a.push(h);
    assert forall|x: int, y: int| 0 <= x < y < b.len() implies b[x].id != b[y].id by {
        if y == a.len() {
            assert(b[x] == a[x]);
        }
    }
    lemma_ring_at(b, a.len() as int);
    assert forall|j: u64| j != h.id implies ring_in(b, j) == ring_in(a, j) by {
        if has_ring(a, j) {
            let k = choose|k: int| 0 <= k < a.len() && a[k].id == j;
            lemma_ring_at(a, k);
            lemma_ring_at(b, k);
        } else {
            assert(!has_ring(b, j)) by {
                if has_ring(b, j) {
                    let k = choose|k: int| 0 <= k < b.len() && b[k].id == j;
                    assert(k < a.len());
                    assert(a[k].id == j);
                }
            }
        }
    }
}

/// Removing the ring at `i`.
proof fn lemma_ring_remove(a: Seq<HostRing>, i: int)
    requires
        unique_ids(a),
        0 <= i < a.len(),
    ensures
        unique_ids(a.remove(i)),
        ring_in(a.remove(i), a[i].id) == Seq::<LogEvent>::empty(),
        forall|j: u64| j != a[i].id ==> ring_in(a.remove(i), j) == ring_in(a, j),
{
    let b = a.remove(i);
    let id = a[i].id;
    assert forall|x: int, y: int| 0 <= x < y < b.len() implies b[x].id != b[y].id by {
        let xa = if x < i { x } else { x + 1 };
        let ya = if y < i { y } else { y + 1 };
        assert(b[x] == a[xa]);
        assert(b[y] == a[ya]);
    }
    assert(!has_ring(b, id)) by {
        if has_ring(b, id) {
            let k = choose|k: int| 0 <= k < b.len() && b[k].id == id;
            let ka = if k < i { k } else { k + 1 };
            assert(b[k] == a[ka]);
        }
    }
    assert forall|j: u64| j != id implies ring_in(b, j) == ring_in(a, j) by {
        if has_ring(a, j) {
            let k = choose|k: int| 0 <= k < a.len() && a[k].id == j;
            lemma_ring_at(a, k);
            assert(k != i);
            let kb = if k < i { k } else { k - 1 };
            assert(b[kb] == a[k]);
            lemma_ring_at(b, kb);
        } else {
            assert(!has_ring(b, j)) by {
                if has_ring(b, j) {
                    let k = choose|k: int| 0 <= k < b.len() && b[k].id == j;
                    let ka = if k < i { k } else { k + 1 };
                    assert(b[k] == a[ka]);
                }
            }
        }
    }
}

/// Whether every event of `rings` belongs to its ring's target and has a
/// sequence number of at most `bound`.
spec fn rings_ok(rings: Seq<HostRing>, bound: u64) -> bool {
    forall|i: int, k: int|
        0 <= i < rings.len() && 0 <= k < rings[i].events@.len() ==> {
            let e = #[trigger] rings[i].events@[k];
            e.target_id == rings[i].id && e.seq <= bound
        }
}

/// All events of `rings`, ring after ring.
spec fn flat(rings: Seq<HostRing>) -> Seq<LogEvent>
    decreases rings.len(),
{
    if rings.len() == 0 {
        Seq::empty()
    } else {
        flat(rings.drop_last()) + rings.last().events@
    }
}

/// Each event occurs in `flat(rings)` as often as in the ring of its target.
#[verifier::spinoff_prover]
proof fn lemma_flat_count(rings: Seq<HostRing>, bound: u64)
    requires
        unique_ids(rings),
        rings_ok(rings, bound),
    ensures
        forall|e: LogEvent| #[trigger] flat(rings).to_multiset().count(e) == ring_in(rings, e.target_id).to_multiset().count(e),
    decreases rings.len(),
{
    broadcast use vstd::seq_lib::group_to_multiset_ensures;
    if rings.len() > 0 {
        let a = rings.drop_last();
        let h = rings.last();
        assert(rings =~= a.push(h));
        assert(unique_ids(a));
        assert forall|i: int, k: int| 0 <= i < a.len() && 0 <= k < a[i].events@.len() implies {
            let e = #[trigger] a[i].events@[k];
            e.target_id == a[i].id && e.seq <= bound
        } by {
            assert(a[i] == rings[i]);
        }
        lemma_flat_count(a, bound);
        assert(!has_ring(a, h.id)) by {
            if has_ring(a, h.id) {
                let c = choose|c: int| 0 <= c < a.len() && a[c].id == h.id;
                assert(rings[c].id != rings[rings.len() - 1].id);
            }
        }
        lemma_ring_push(a, h);
        lemma_ring_at(rings, rings.len() - 1);
        assert forall|e: LogEvent| #[trigger] flat(rings).to_multiset().count(e) == ring_in(rings, e.target_id).to_multiset().count(e) by {
            vstd::seq_lib::lemma_multiset_commutative(flat(a), h.events@);
            if e.target_id == h.id {
                assert(ring_in(a, h.id) =~= Seq::<LogEvent>::empty());
                assert(flat(a).to_multiset().count(e) == Seq::<LogEvent>::empty().to_multiset().count(e));
            } else {
                assert(!h.events@.contains(e)) by {
                    if h.events@.contains(e) {
                        let k = choose|k: int| 0 <= k < h.events@.len() && h.events@[k] == e;
                        assert(rings[rings.len() - 1].events@[k] == e);
                    }
                }
            }
        }
    }
}

/// Inserts `e` after the events whose sequence number is at most its own.
fn insert_by_seq(out: &mut Vec<LogEvent>, e: LogEvent)
    requires
        sorted_by_seq(old(out)@),
    ensures
        sorted_by_seq(final(out)@),
        final(out)@.to_multiset() == old(out)@.to_multiset().insert(e),
{
    let mut i = out.len();
    while i > 0 && out[i - 1].seq > e.seq
        invariant
            i <= out@.len(),
            out@ == old(out)@,
            sorted_by_seq(out@),
            forall|k: int| i <= k < out@.len() ==> #[trigger] out@[k].seq > e.seq,
        decreases i,
    {
        i = i - 1;
    }
    let ghost before = out@;
    out.insert(i, e);
    proof {
        vstd::seq_lib::to_multiset_insert(before, i as int, e);
        assert forall|a: int, b: int| 0 <= a < b < out@.len() implies out@[a].seq <= out@[b].seq by {
            if b < i {
                assert(out@[a] == before[a] && out@[b] == before[b]);
            } else if b == i {
                assert(out@[a] == before[a]);
                assert(before[a].seq <= before[i - 1].seq);
            } else if a < i {
                assert(out@[a] == before[a] && out@[b] == before[b - 1]);
            } else if a == i {
                assert(out@[b] == before[b - 1]);
            } else {
                assert(out@[a] == before[a - 1] && out@[b] == before[b - 1]);
            }
        }
    }
}

/// Drops the oldest items of `v` beyond `cap`.
fn drop_oldest<T>(v: &mut Vec<T>, cap: usize)
    ensures
        final(v)@ == keep_last(old(v)@, cap as nat),
{
    if v.len() > cap {
        let n = v.len() - cap;
        let ghost p = v@;
        let mut i: usize = 0;
        while i < n
            invariant
                i <= n,
                n == p.len() - cap,
                v@ == p.skip(i as int),
            decreases n - i,
        {
            v.remove(0);
            i = i + 1;
            assert(v@ =~= p.skip(i as int));
        }
    }
}

/// The index of the ring of target `id`.
fn find_ring_index(rings: &Vec<HostRing>, id: u64) -> (r: Option<usize>)
    ensures
        match r {
            Some(i) => i < rings@.len() && rings@[i as int].id == id,
            None => !has_ring(rings@, id),
        },
{
    let mut i: usize = 0;
    while i < rings.len()
        invariant
            i <= rings@.len(),
            forall|k: int| 0 <= k < i ==> rings@[k].id != id,
        decreases rings.len() - i,
    {
        if rings[i].id == id {
            return Some(i);
        }
        i = i + 1;
    }
    None
}

/// Appends `e` to the ring of target `id`, creating the ring if needed.
#[verifier::spinoff_prover]
fn append_to_ring(rings: &mut Vec<HostRing>, id: u64, e: LogEvent, Ghost(bound): Ghost<u64>)
    requires
        unique_ids(old(rings)@),
        rings_ok(old(rings)@, bound),
        e.target_id == id,
        e.seq <= bound,
    ensures
        unique_ids(final(rings)@),
        rings_ok(final(rings)@, bound),
        ring_in(final(rings)@, id) == ring_in(old(rings)@, id).push(e),
        forall|j: u64| j != id ==> ring_in(final(rings)@, j) == ring_in(old(rings)@, j),
{
    let ghost a = rings@;
    match find_ring_index(rings, id) {
        Some(i) => {
            proof {
                lemma_ring_at(a, i as int);
            }
            let mut ring = rings.remove(i);
            ring.events.push(e);
            rings.insert(i, ring);
            proof {
                assert(rings@ =~= a.update(i as int, ring));
                lemma_ring_update(a, i as int, ring);
                assert forall|x: int, k: int| 0 <= x < rings@.len() && 0 <= k < rings@[x].events@.len() implies {
                    let f = #[trigger] rings@[x].events@[k];
                    f.target_id == rings@[x].id && f.seq <= bound
                } by {
                    if x != i {
                        assert(rings@[x] == a[x]);
                    } else if k < a[x].events@.len() {
                        assert(rings@[x].events@[k] == a[x].events@[k]);
                    }
                }
            }
        },
        None => {
            assert(!has_ring(a, id));
            let mut v: Vec<LogEvent> = Vec::new();
            v.push(e);
            let ring = HostRing { id, events: v };
            rings.push(ring);
            proof {
                lemma_ring_push(a, ring);
                assert forall|x: int, k: int| 0 <= x < rings@.len() && 0 <= k < rings@[x].events@.len() implies {
                    let f = #[trigger] rings@[x].events@[k];
                    f.target_id == rings@[x].id && f.seq <= bound
                } by {
                    if x < a.len() {
                        assert(rings@[x] == a[x]);
                    }
                }
            }
        },
    }
}

/// Trims every ring to its last `cap` events.
#[verifier::spinoff_prover]
fn trim_all_rings(rings: &mut Vec<HostRing>, cap: usize, Ghost(bound): Ghost<u64>)
    requires
        unique_ids(old(rings)@),
        rings_ok(old(rings)@, bound),
    ensures
        unique_ids(final(rings)@),
        rings_ok(final(rings)@, bound),
        forall|j: u64| #![trigger ring_in(final(rings)@, j)] ring_in(final(rings)@, j) == keep_last(ring_in(old(rings)@, j), cap as nat),
{
    let ghost mid = rings@;
    let mut x: usize = 0;
    while x < rings.len()
        invariant
            x <= rings@.len(),
            rings@.len() == mid.len(),
            forall|y: int| 0 <= y < mid.len() ==> #[trigger] rings@[y].id == mid[y].id,
            forall|y: int| 0 <= y < x ==> #[trigger] rings@[y].events@ == keep_last(mid[y].events@, cap as nat),
            forall|y: int| x <= y < mid.len() ==> #[trigger] rings@[y] == mid[y],
        decreases rings.len() - x,
    {
        let ghost pre = rings@;
        let mut ring = rings.remove(x);
        drop_oldest(&mut ring.events, cap);
        rings.insert(x, ring);
        proof {
            assert(rings@ =~= pre.update(x as int, ring));
            assert forall|y: int| 0 <= y < x + 1 implies #[trigger] rings@[y].events@ == keep_last(mid[y].events@, cap as nat) by {
                if y < x {
                    assert(rings@[y] == pre[y]);
                    assert(pre[y].events@ == keep_last(mid[y].events@, cap as nat));
                } else {
                    assert(pre[y] == mid[y]);
                }
            }
            assert forall|y: int| 0 <= y < mid.len() implies #[trigger] rings@[y].id == mid[y].id by {
                if y != x {
                    assert(rings@[y] == pre[y]);
                }
            }
            assert forall|y: int| x + 1 <= y < mid.len() implies #[trigger] rings@[y] == mid[y] by {
                assert(rings@[y] == pre[y]);
            }
        }
        x = x + 1;
    }
    let ghost fin = rings@;
    assert(x == mid.len());
    assert(forall|y: int| 0 <= y < mid.len() ==> #[trigger] fin[y].events@ == keep_last(mid[y].events@, cap as nat));
    proof {
        assert(unique_ids(fin)) by {
            assert forall|a: int, b: int| 0 <= a < b < fin.len() implies fin[a].id != fin[b].id by {
                assert(fin[a].id == mid[a].id);
                assert(fin[b].id == mid[b].id);
            }
        }
        assert forall|a: int, k: int| 0 <= a < fin.len() && 0 <= k < fin[a].events@.len() implies {
            let f = #[trigger] fin[a].events@[k];
            f.target_id == fin[a].id && f.seq <= bound
        } by {
            let m = mid[a].events@;
            assert(fin[a].events@ == keep_last(m, cap as nat));
            let off = if m.len() > cap { m.len() - cap } else { 0 };
            assert(fin[a].events@[k] == m[k + off]);
            assert(mid[a].events@[k + off] == m[k + off]);
        }
        assert forall|j: u64| #![trigger ring_in(fin, j)] ring_in(fin, j) == keep_last(ring_in(mid, j), cap as nat) by {
            if has_ring(mid, j) {
                let c = choose|c: int| 0 <= c < mid.len() && mid[c].id == j;
                lemma_ring_at(mid, c);
                lemma_ring_at(fin, c);
            } else {
                assert(!has_ring(fin, j)) by {
                    if has_ring(fin, j) {
                        let c = choose|c: int| 0 <= c < fin.len() && fin[c].id == j;
                        assert(mid[c].id == j);
                    }
                }
            }
        }
    }
}

/// Event store: the events not yet handed to the display, one ring of
/// recent events per target, and the sequence number of the last event.
pub struct EventStore {
    seq: u64,
    keep: usize,
    persist_enabled: bool,
    persist_error: bool,
    pending: Vec<LogEvent>,
    rings: Vec<HostRing>,
}

impl EventStore {
    /// Sequence number of the last event.
    pub closed spec fn last_seq_view(&self) -> u64 {
        self.seq
    }

    /// Number of events kept per target.
    pub closed spec fn keep_view(&self) -> usize {
        self.keep
    }

    /// Whether events are written to the event file.
    pub closed spec fn persist_view(&self) -> bool {
        self.persist_enabled
    }

    /// Whether writing to the event file has failed since it was configured.
    pub closed spec fn error_view(&self) -> bool {
        self.persist_error
    }

    /// Events recorded since the last `drain_pending`, oldest first.
    pub closed spec fn pending_view(&self) -> Seq<LogEvent> {
        self.pending@
    }

    /// The recent events of target `id`, oldest first.
    pub closed spec fn ring(&self, id: u64) -> Seq<LogEvent> {
        ring_in(self.rings@, id)
    }

    /// The store's invariant.
    pub closed spec fn wf(&self) -> bool {
        &&& self.keep >= 1
        &&& unique_ids(self.rings@)
        &&& rings_ok(self.rings@, self.seq)
        &&& forall|k: int| 0 <= k < self.pending@.len() ==> #[trigger] self.pending@[k].seq <= self.seq
    }

    /// What the invariant says of the model: at least one event is kept per
    /// target, every kept event belongs to its target, and no kept or pending
    /// event has a sequence number above the last one issued.
    pub proof fn lemma_wf(&self)
        requires
            self.wf(),
        ensures
            self.keep_view() >= 1,
            forall|id: u64, k: int| 0 <= k < self.ring(id).len() ==> (#[trigger] self.ring(id)[k]).target_id == id,
            forall|id: u64, k: int| 0 <= k < self.ring(id).len() ==> (#[trigger] self.ring(id)[k]).seq <= self.last_seq_view(),
            forall|k: int| 0 <= k < self.pending_view().len() ==> (#[trigger] self.pending_view()[k]).seq <= self.last_seq_view(),
            forall|id: u64| #[trigger] self.ring(id).len() <= usize::MAX,
    {
        assert forall|id: u64| #[trigger] self.ring(id).len() <= usize::MAX by {
            if has_ring(self.rings@, id) {
                let c = choose|i: int| 0 <= i < self.rings@.len() && self.rings@[i].id == id;
                assert(self.rings@[c].events.len() == self.rings@[c].events@.len());
            }
        }
        assert forall|id: u64, k: int| 0 <= k < self.ring(id).len() implies (#[trigger] self.ring(id)[k]).target_id == id && self.ring(id)[k].seq <= self.last_seq_view() by {
            if has_ring(self.rings@, id) {
                let i = choose|i: int| 0 <= i < self.rings@.len() && self.rings@[i].id == id;
                let e = self.rings@[i].events@[k];
            }
        }
    }

    /// An empty store: nothing pending, no events, 200 kept per target,
    /// no file.
    pub fn new() -> (r: Self)
        ensures
            r.wf(),
            r.last_seq_view() == 0,
            r.keep_view() == 200,
            !r.persist_view(),
            !r.error_view(),
            r.pending_view() == Seq::<LogEvent>::empty(),
            forall|id: u64| r.ring(id) == Seq::<LogEvent>::empty(),
    {
        EventStore {
            seq: 0,
            keep: DEFAULT_EVENTS_KEEP,
            persist_enabled: false,
            persist_error: false,
            pending: Vec::new(),
            rings: Vec::new(),
        }
    }

    /// Sets the number of events kept per target (at least 1). Rings
    /// already longer are trimmed by their next event.
    pub fn set_keep(&mut self, keep: usize)
        requires
            old(self).wf(),
        ensures
            final(self).wf(),
            final(self).keep_view() == if keep >= 1 { keep } else { 1 },
            final(self).last_seq_view() == old(self).last_seq_view(),
            final(self).persist_view() == old(self).persist_view(),
            final(self).error_view() == old(self).error_view(),
            final(self).pending_view() == old(self).pending_view(),
            forall|id: u64| final(self).ring(id) == old(self).ring(id),
    {
        self.keep = if keep >= 1 { keep } else { 1 };
    }

    /// Applies the persistence settings: events are written only when
    /// enabled and a directory is known. Clears the error flag. Returns
    /// whether writing is now on (the writer is reconfigured with it).
    pub fn apply_persist(&mut self, enabled: bool, dir: Option<String>) -> (effective: bool)
        requires
            old(self).wf(),
        ensures
            final(self).wf(),
            effective == (enabled && dir is Some),
            final(self).persist_view() == effective,
            !final(self).error_view(),
            final(self).keep_view() == old(self).keep_view(),
            final(self).last_seq_view() == old(self).last_seq_view(),
            final(self).pending_view() == old(self).pending_view(),
            forall|id: u64| final(self).ring(id) == old(self).ring(id),
    {
        let effective = enabled && dir.is_some();
        self.persist_enabled = effective;
        self.persist_error = false;
        effective
    }

    /// Whether events are written to the event file.
    pub fn persist_enabled(&self) -> (r: bool)
        ensures
            r == self.persist_view(),
    {
        self.persist_enabled
    }

    /// Whether writing to the event file has failed since it was configured.
    pub fn persist_error(&self) -> (r: bool)
        ensures
            r == self.error_view(),
    {
        self.persist_error
    }

    /// Notes that an event could not be handed to the file writer.
    pub fn record_persist_failure(&mut self)
        requires
            old(self).wf(),
        ensures
            final(self).wf(),
            final(self).error_view(),
            final(self).persist_view() == old(self).persist_view(),
            final(self).keep_view() == old(self).keep_view(),
            final(self).last_seq_view() == old(self).last_seq_view(),
            final(self).pending_view() == old(self).pending_view(),
            forall|id: u64| final(self).ring(id) == old(self).ring(id),
    {
        self.persist_error = true;
    }

    /// Sequence number of the last event issued.
    pub fn last_seq(&self) -> (r: u64)
        ensures
            r == self.last_seq_view(),
    {
        self.seq
    }

    /// Records an event at time `ts`: it gets the next sequence number and
    /// the level of its kind, joins the pending events and the ring of
    /// target `id`, which then keeps its last `keep` events.
    #[verifier::spinoff_prover]
    pub fn emit_at(&mut self, kind: EventKind, text: String, id: u64, name: &str, host: &str, ts: u64) -> (r: LogEvent)
        requires
            old(self).wf(),
            old(self).last_seq_view() < u64::MAX,
        ensures
            final(self).wf(),
            r.seq == old(self).last_seq_view() + 1,
            r.ts == ts,
            r.target_id == id,
            r.target_name@ == name@,
            r.target_host@ == host@,
            r.kind == kind,
            r.level == level_of_kind(kind),
            r.text == text,
            final(self).last_seq_view() == r.seq,
            final(self).pending_view() == old(self).pending_view().push(r),
            final(self).ring(id) == keep_last(old(self).ring(id).push(r), old(self).keep_view() as nat),
            forall|j: u64| j != id ==> final(self).ring(j) == old(self).ring(j),
            final(self).keep_view() == old(self).keep_view(),
            final(self).persist_view() == old(self).persist_view(),
            final(self).error_view() == old(self).error_view(),
    {
        let seq = self.seq + 1;
        let event = LogEvent {
            seq,
            ts,
            target_id: id,
            target_name: name.to_owned(),
            target_host: host.to_owned(),
            kind,
            level: EventLevel::for_kind(kind),
            text,
        };
        let ghost old_rings = self.rings@;
        self.seq = seq;
        self.pending.push(event.duplicate());
        let keep = self.keep;
        match self.find_ring(id) {
            Some(i) => {
                let mut ring = self.rings.remove(i);
                proof {
                    lemma_ring_at(old_rings, i as int);
                }
                crate::stats::push_history(&mut ring.events, event.duplicate(), keep);
                self.rings.insert(i, ring);
                proof {
                    assert(self.rings@ =~= old_rings.update(i as int, ring));
                    lemma_ring_update(old_rings, i as int, ring);
                }
            },
            None => {
                let mut v: Vec<LogEvent> = Vec::new();
                v.push(event.duplicate());
                let ring = HostRing { id, events: v };
                self.rings.push(ring);
                proof {
                    lemma_ring_push(old_rings, ring);
                }
            },
        }
        proof {
            assert forall|i: int, k: int|
                0 <= i < self.rings@.len() && 0 <= k < self.rings@[i].events@.len() implies {
                    let e = #[trigger] self.rings@[i].events@[k];
                    e.target_id == self.rings@[i].id && e.seq <= self.seq
                } by {
                let h = self.rings@[i];
                if h.id == id {
                    lemma_ring_at(self.rings@, i);
                    let rr = old(self).ring(id).push(event);
                    if has_ring(old_rings, id) {
                        let c = choose|c: int| 0 <= c < old_rings.len() && old_rings[c].id == id;
                        lemma_ring_at(old_rings, c);
                        let m = if rr.len() > keep { rr.len() - keep } else { 0 };
                        assert(h.events@[k] == rr[k + m]);
                        if k + m < rr.len() - 1 {
                            assert(rr[k + m] == old_rings[c].events@[k + m]);
                        }
                    }
                } else {
                    lemma_ring_at(self.rings@, i);
                    if has_ring(old_rings, h.id) {
                        let c = choose|c: int| 0 <= c < old_rings.len() && old_rings[c].id == h.id;
                        lemma_ring_at(old_rings, c);
                        assert(h.events@[k] == old_rings[c].events@[k]);
                    }
                }
            }
        }
        event
    }

    /// Records an event at the current time (see `emit_at`; the time stamp
    /// is whatever the clock gives).
    pub fn emit(&mut self, kind: EventKind, text: String, id: u64, name: &str, host: &str) -> (r: LogEvent)
        requires
            old(self).wf(),
            old(self).last_seq_view() < u64::MAX,
        ensures
            final(self).wf(),
            r.seq == old(self).last_seq_view() + 1,
            r.target_id == id,
            r.target_name@ == name@,
            r.target_host@ == host@,
            r.kind == kind,
            r.level == level_of_kind(kind),
            r.text == text,
            final(self).last_seq_view() == r.seq,
            final(self).pending_view() == old(self).pending_view().push(r),
            final(self).ring(id) == keep_last(old(self).ring(id).push(r), old(self).keep_view() as nat),
            forall|j: u64| j != id ==> final(self).ring(j) == old(self).ring(j),
            final(self).keep_view() == old(self).keep_view(),
            final(self).persist_view() == old(self).persist_view(),
            final(self).error_view() == old(self).error_view(),
    {
        let ts = crate::control::now_ms();
        self.emit_at(kind, text, id, name, host, ts)
    }

    /// Takes the events recorded since the last call, oldest first.
    pub fn drain_pending(&mut self) -> (r: Vec<LogEvent>)
        requires
            old(self).wf(),
        ensures
            final(self).wf(),
            r@ == old(self).pending_view(),
            final(self).pending_view() == Seq::<LogEvent>::empty(),
            final(self).last_seq_view() == old(self).last_seq_view(),
            final(self).keep_view() == old(self).keep_view(),
            final(self).persist_view() == old(self).persist_view(),
            final(self).error_view() == old(self).error_view(),
            forall|id: u64| final(self).ring(id) == old(self).ring(id),
    {
        let mut out: Vec<LogEvent> = Vec::new();
        std::mem::swap(&mut out, &mut self.pending);
        out
    }

    /// The newest `limit` events of target `id`, newest first.
    pub fn list_host(&self, id: u64, limit: usize) -> (r: Vec<LogEvent>)
        requires
            self.wf(),
        ensures
            r@ == newest_first(self.ring(id), limit as nat),
    {
        let mut out: Vec<LogEvent> = Vec::new();
        match self.find_ring(id) {
            Some(i) => {
                proof {
                    lemma_ring_at(self.rings@, i as int);
                }
                let ring = &self.rings[i].events;
                let n = ring.len();
                let m = if limit < n { limit } else { n };
                let mut k: usize = 0;
                while k < m
                    invariant
                        k <= m,
                        m <= n,
                        n == ring@.len(),
                        ring@ == self.ring(id),
                        m == (if limit < n { limit as int } else { n as int }),
                        out@ == Seq::new(k as nat, |x: int| ring@[n - 1 - x]),
                    decreases m - k,
                {
                    out.push(ring[n - 1 - k].duplicate());
                    k = k + 1;
                    assert(out@ =~= Seq::new(k as nat, |x: int| ring@[n - 1 - x]));
                }
            },
            None => {},
        }
        assert(out@ =~= newest_first(self.ring(id), limit as nat));
        out
    }

    /// Forgets the events of target `id`. Returns whether the event file
    /// must be rewritten without that target's lines (writing is on).
    pub fn clear_host(&mut self, id: u64) -> (rewrite: bool)
        requires
            old(self).wf(),
        ensures
            final(self).wf(),
            rewrite == old(self).persist_view(),
            final(self).ring(id) == Seq::<LogEvent>::empty(),
            forall|j: u64| j != id ==> final(self).ring(j) == old(self).ring(j),
            final(self).last_seq_view() == old(self).last_seq_view(),
            final(self).keep_view() == old(self).keep_view(),
            final(self).persist_view() == old(self).persist_view(),
            final(self).error_view() == old(self).error_view(),
            final(self).pending_view() == old(self).pending_view(),
    {
        let ghost old_rings = self.rings@;
        match self.find_ring(id) {
            Some(i) => {
                self.rings.remove(i);
                proof {
                    lemma_ring_remove(old_rings, i as int);
                    assert forall|x: int, k: int|
                        0 <= x < self.rings@.len() && 0 <= k < self.rings@[x].events@.len() implies {
                            let e = #[trigger] self.rings@[x].events@[k];
                            e.target_id == self.rings@[x].id && e.seq <= self.seq
                        } by {
                        let xa = if x < i { x } else { x + 1 };
                        assert(self.rings@[x] == old_rings[xa]);
                    }
                }
            },
            None => {},
        }
        self.persist_enabled
    }

    /// All kept events, in ascending order of sequence number: each event
    /// occurs as often as in the ring of its target.
    #[verifier::spinoff_prover]
    pub fn all_events(&self) -> (r: Vec<LogEvent>)
        requires
            self.wf(),
        ensures
            sorted_by_seq(r@),
            forall|e: LogEvent| #[trigger] r@.to_multiset().count(e) == self.ring(e.target_id).to_multiset().count(e),
    {
        broadcast use vstd::seq_lib::group_to_multiset_ensures;
        let mut out: Vec<LogEvent> = Vec::new();
        let ghost rings = self.rings@;
        let mut i: usize = 0;
        while i < self.rings.len()
            invariant
                rings == self.rings@,
                i <= rings.len(),
                sorted_by_seq(out@),
                out@.to_multiset() == flat(rings.take(i as int)).to_multiset(),
            decreases self.rings.len() - i,
        {
            let ev = &self.rings[i].events;
            let ghost base = flat(rings.take(i as int));
            let mut k: usize = 0;
            while k < ev.len()
                invariant
                    k <= ev@.len(),
                    i < rings.len(),
                    ev@ == rings[i as int].events@,
                    sorted_by_seq(out@),
                    out@.to_multiset() == (base + ev@.take(k as int)).to_multiset(),
                decreases ev.len() - k,
            {
                let d = ev[k].duplicate();
                insert_by_seq(&mut out, d);
                assert(base + ev@.take(k + 1) =~= (base + ev@.take(k as int)).push(ev@[k as int]));
                proof {
                    vstd::seq_lib::to_multiset_build(base + ev@.take(k as int), ev@[k as int]);
                }
                k = k + 1;
            }
            assert(ev@.take(k as int) =~= ev@);
            assert(rings.take(i + 1).drop_last() =~= rings.take(i as int));
            i = i + 1;
        }
        assert(rings.take(i as int) =~= rings);
        proof {
            lemma_flat_count(rings, self.seq);
        }
        out
    }

    /// Takes back events read from the event file: each event whose host
    /// key `host_to_id` maps to a target joins that target's ring under the
    /// target's current id; the others are dropped. Every ring then keeps
    /// its last `keep` events (at least 1), nothing becomes pending, and the
    /// next sequence number exceeds every loaded one.
    #[verifier::spinoff_prover]
    pub fn load_hosts(&mut self, events: Vec<LogEvent>, host_to_id: &[(String, u64)], keep: usize)
        requires
            old(self).wf(),
        ensures
            final(self).wf(),
            forall|j: u64|
                #![trigger final(self).ring(j)]
                final(self).ring(j) == keep_last(
                    old(self).ring(j) + routed(events@, host_to_id@, j),
                    if keep >= 1 { keep as nat } else { 1 },
                ),
            final(self).last_seq_view() == (if max_seq(events@) > old(self).last_seq_view() {
                max_seq(events@)
            } else {
                old(self).last_seq_view()
            }),
            final(self).pending_view() == old(self).pending_view(),
            final(self).keep_view() == old(self).keep_view(),
            final(self).persist_view() == old(self).persist_view(),
            final(self).error_view() == old(self).error_view(),
    {
        let cap = if keep >= 1 { keep } else { 1 };
        let ghost start = self.rings@;
        let ghost pairs = host_to_id@;
        let mut mx: u64 = 0;
        let mut t: usize = 0;
        while t < events.len()
            invariant
                t <= events@.len(),
                pairs == host_to_id@,
                unique_ids(self.rings@),
                mx == max_seq(events@.take(t as int)),
                rings_ok(self.rings@, if old(self).seq > mx { old(self).seq } else { mx }),
                forall|j: u64|
                    #![trigger ring_in(self.rings@, j)]
                    ring_in(self.rings@, j) == ring_in(start, j) + routed(events@.take(t as int), pairs, j),
                start == old(self).rings@,
                self.seq == old(self).seq,
                self.keep == old(self).keep,
                self.pending@ == old(self).pending@,
                self.persist_enabled == old(self).persist_enabled,
                self.persist_error == old(self).persist_error,
            decreases events.len() - t,
        {
            let e = &events[t];
            let ghost pre = events@.take(t as int);
            let ghost post = events@.take(t + 1);
            assert(post.drop_last() =~= pre);
            assert(post.last() == *e);
            let ghost old_bound = if old(self).seq > mx { old(self).seq } else { mx };
            if e.seq > mx {
                mx = e.seq;
            }
            let ghost bound = if old(self).seq > mx { old(self).seq } else { mx };
            assert(rings_ok(self.rings@, bound)) by {
                assert forall|x: int, k: int| 0 <= x < self.rings@.len() && 0 <= k < self.rings@[x].events@.len() implies {
                    let f = #[trigger] self.rings@[x].events@[k];
                    f.target_id == self.rings@[x].id && f.seq <= bound
                } by {
                    let f = self.rings@[x].events@[k];
                    assert(f.seq <= old_bound);
                }
            }
            let key = normalize_host(e.target_host.as_str());
            let found = find_host_id(host_to_id, &key);
            let ghost before = self.rings@;
            match found {
                Some(id) => {
                    let moved = e.with_target(id);
                    append_to_ring(&mut self.rings, id, moved, Ghost(bound));
                },
                None => {},
            }
            proof {
                assert forall|j: u64| #![trigger ring_in(self.rings@, j)] ring_in(self.rings@, j) == ring_in(start, j) + routed(post, pairs, j) by {
                    assert(ring_in(before, j) == ring_in(start, j) + routed(pre, pairs, j));
                    if found == Some(j) {
                        assert((ring_in(start, j) + routed(pre, pairs, j)).push(with_target_id(*e, j)) =~= ring_in(start, j) + routed(pre, pairs, j).push(with_target_id(*e, j)));
                    }
                }
            }
            t = t + 1;
        }
        assert(events@.take(t as int) =~= events@);
        let ghost bound = if old(self).seq > mx { old(self).seq } else { mx };
        let ghost mid = self.rings@;
        trim_all_rings(&mut self.rings, cap, Ghost(bound));
        if mx > self.seq {
            self.seq = mx;
        }
        proof {
            assert forall|j: u64| #![trigger ring_in(self.rings@, j)] ring_in(self.rings@, j) == keep_last(
                ring_in(mid, j),
                cap as nat,
            ) by {}
            assert(mx == max_seq(events@));
        }
    }

    fn find_ring(&self, id: u64) -> (r: Option<usize>)
        ensures
            match r {
                Some(i) => i < self.rings@.len() && self.rings@[i as int].id == id,
                None => !has_ring(self.rings@, id),
            },
    {
        find_ring_index(&self.rings, id)
    }
}

impl Default for EventStore {
    /// The same as `EventStore::new`.
    fn default() -> (r: Self)
        ensures
            r.wf(),
            r.last_seq_view() == 0,
            r.keep_view() == 200,
            !r.persist_view(),
            !r.error_view(),
            r.pending_view() == Seq::<LogEvent>::empty(),
            forall|id: u64| r.ring(id) == Seq::<LogEvent>::empty(),
    {
        EventStore::new()
    }
}

/* ----------------------------- event file ----------------------------- */

/// The trimmed non-blank lines of `s` from index `i` on.
pub open spec fn nonblank_lines_from(s: Seq<char>, i: int) -> Seq<Seq<char>>
    decreases s.len() - i,
{
    if i < 0 || i >= s.len() {
        Seq::empty()
    } else {
        let e = crate::ping::line_end(s, i);
        let l = trim(s.subrange(i, e));
        proof {
            crate::ping::lemma_line_end(s, i);
        }
        let rest = if e + 1 >= s.len() {
            Seq::empty()
        } else {
            nonblank_lines_from(s, e + 1)
        };
        if l.len() > 0 {
            seq![l] + rest
        } else {
            rest
        }
    }
}

/// The text of the event file's tail: the last `max_tail` bytes (all of
/// them when the file is not longer), decoded as lossy UTF-8.
pub open spec fn tail_source(b: Seq<u8>, max_tail: nat) -> Seq<char> {
    if b.len() > max_tail {
        crate::import::utf8_lossy_of(b.skip(b.len() - max_tail))
    } else {
        crate::import::utf8_lossy_of(b)
    }
}

/// Where reading starts in `tail_source`: when the file was cut, after the
/// first line break (the first line may be partial; nothing is read when
/// there is no line break).
pub open spec fn tail_start(b: Seq<u8>, max_tail: nat) -> int {
    if b.len() > max_tail {
        let t = tail_source(b, max_tail);
        let e = crate::ping::line_end(t, 0);
        if e < t.len() {
            e + 1
        } else {
            t.len() as int
        }
    } else {
        0
    }
}

/// The lines of the event file's tail that may hold events.
pub open spec fn tail_lines(b: Seq<u8>, max_tail: nat) -> Seq<Seq<char>> {
    nonblank_lines_from(tail_source(b, max_tail), tail_start(b, max_tail))
}

/// The lines of the event file's tail that may hold events (see
/// `tail_lines`): trimmed and not blank; each is then parsed, and lines
/// that do not parse are skipped.
#[verifier::spinoff_prover]
pub fn jsonl_tail_lines(bytes: &[u8], max_tail: usize) -> (r: Vec<String>)
    ensures
        r@.len() == tail_lines(bytes@, max_tail as nat).len(),
        forall|k: int| 0 <= k < r@.len() ==> (#[trigger] r@[k])@ == tail_lines(bytes@, max_tail as nat)[k],
{
    let truncated = bytes.len() > max_tail;
    let text = if truncated {
        let tail = vstd::slice::slice_subrange(bytes, bytes.len() - max_tail, bytes.len());
        assert(tail@ =~= bytes@.skip(bytes@.len() - max_tail));
        crate::import::utf8_lossy(tail)
    } else {
        crate::import::utf8_lossy(bytes)
    };
    let v = to_chars(text.as_str());
    let mut start: usize = 0;
    if truncated {
        let mut e: usize = 0;
        while e < v.len() && v[e] != '\n'
            invariant
                e <= v@.len(),
                crate::ping::line_end(v@, e as int) == crate::ping::line_end(v@, 0),
            decreases v.len() - e,
        {
            e = e + 1;
        }
        assert(crate::ping::line_end(v@, e as int) == e);
        if e < v.len() {
            start = e + 1;
        } else {
            start = v.len();
        }
    }
    assert(v@ == tail_source(bytes@, max_tail as nat));
    assert(start == tail_start(bytes@, max_tail as nat));
    let ghost want = nonblank_lines_from(v@, start as int);
    let mut out: Vec<String> = Vec::new();
    let mut i: usize = start;
    while i < v.len()
        invariant
            start <= i <= v@.len(),
            want == nonblank_lines_from(v@, start as int),
            ({
                let rest = nonblank_lines_from(v@, i as int);
                &&& out@.len() + rest.len() == want.len()
                &&& forall|k: int| 0 <= k < out@.len() ==> (#[trigger] out@[k])@ == want[k]
                &&& forall|k: int| 0 <= k < rest.len() ==> want[out@.len() + k] == #[trigger] rest[k]
            }),
        decreases v.len() - i,
    {
        proof {
            crate::ping::lemma_line_end(v@, i as int);
        }
        let mut e = i;
        while e < v.len() && v[e] != '\n'
            invariant
                i <= e <= v@.len(),
                crate::ping::line_end(v@, e as int) == crate::ping::line_end(v@, i as int),
            decreases v.len() - e,
        {
            e = e + 1;
        }
        assert(crate::ping::line_end(v@, e as int) == e);
        let mut line: Vec<char> = Vec::new();
        let mut k = i;
        while k < e
            invariant
                i <= k <= e,
                e <= v@.len(),
                line@ == v@.subrange(i as int, k as int),
            decreases e - k,
        {
            line.push(v[k]);
            k = k + 1;
            assert(line@ =~= v@.subrange(i as int, k as int));
        }
        let t = trim_chars(line.as_slice());
        let ghost before = out@;
        let ghost rest0 = nonblank_lines_from(v@, i as int);
        let ghost i0 = i;
        if t.len() > 0 {
            out.push(from_chars(t.as_slice()));
        }
        if e >= v.len() - 1 {
            i = v.len();
        } else {
            i = e + 1;
        }
        proof {
            let rest = nonblank_lines_from(v@, i as int);
            if t@.len() > 0 {
                assert(rest0 =~= seq![t@] + rest);
            } else {
                assert(rest0 =~= rest);
            }
            assert forall|x: int| 0 <= x < out@.len() implies (#[trigger] out@[x])@ == want[x] by {
                if x < before.len() {
                    assert(out@[x] == before[x]);
                } else {
                    assert(want[before.len() as int] == rest0[0]);
                }
            }
            assert forall|x: int| 0 <= x < rest.len() implies want[out@.len() + x] == #[trigger] rest[x] by {
                if t@.len() > 0 {
                    assert(rest0[x + 1] == rest[x]);
                    assert(want[before.len() as int + (x + 1)] == rest0[x + 1]);
                } else {
                    assert(rest0[x] == rest[x]);
                }
            }
        }
    }
    out
}

/// The lines of `s` from index `i` on, as `str::lines` yields them: split
/// at `'\n'`, a `'\r'` before the `'\n'` removed, no empty line after a
/// final line break.
pub open spec fn std_lines_from(s: Seq<char>, i: int) -> Seq<Seq<char>>
    decreases s.len() - i,
{
    if i < 0 || i >= s.len() {
        Seq::empty()
    } else {
        let e = crate::ping::line_end(s, i);
        let seg = s.subrange(i, e);
        let line = if e < s.len() && seg.len() > 0 && seg.last() == '\r' {
            seg.drop_last()
        } else {
            seg
        };
        proof {
            crate::ping::lemma_line_end(s, i);
        }
        seq![line] + if e + 1 >= s.len() {
            Seq::empty()
        } else {
            std_lines_from(s, e + 1)
        }
    }
}

/// The lines of a text (see `std_lines_from`).
#[verifier::spinoff_prover]
pub fn file_lines(content: &str) -> (r: Vec<String>)
    ensures
        r@.len() == std_lines_from(content@, 0).len(),
        forall|k: int| 0 <= k < r@.len() ==> (#[trigger] r@[k])@ == std_lines_from(content@, 0)[k],
{
    let v = to_chars(content);
    let ghost want = std_lines_from(v@, 0);
    let mut out: Vec<String> = Vec::new();
    let mut i: usize = 0;
    while i < v.len()
        invariant
            i <= v@.len(),
            v@ == content@,
            want == std_lines_from(v@, 0),
            ({
                let rest = std_lines_from(v@, i as int);
                &&& out@.len() + rest.len() == want.len()
                &&& forall|k: int| 0 <= k < out@.len() ==> (#[trigger] out@[k])@ == want[k]
                &&& forall|k: int| 0 <= k < rest.len() ==> want[out@.len() + k] == #[trigger] rest[k]
            }),
        decreases v.len() - i,
    {
        proof {
            crate::ping::lemma_line_end(v@, i as int);
        }
        let mut e = i;
        while e < v.len() && v[e] != '\n'
            invariant
                i <= e <= v@.len(),
                crate::ping::line_end(v@, e as int) == crate::ping::line_end(v@, i as int),
            decreases v.len() - e,
        {
            e = e + 1;
        }
        assert(crate::ping::line_end(v@, e as int) == e);
        let stop = if e < v.len() && e > i && v[e - 1] == '\r' { e - 1 } else { e };
        let mut line: Vec<char> = Vec::new();
        let mut k = i;
        while k < stop
            invariant
                i <= k <= stop,
                stop <= v@.len(),
                line@ == v@.subrange(i as int, k as int),
            decreases stop - k,
        {
            line.push(v[k]);
            k = k + 1;
            assert(line@ =~= v@.subrange(i as int, k as int));
        }
        let ghost before = out@;
        let ghost rest0 = std_lines_from(v@, i as int);
        let ghost seg = v@.subrange(i as int, e as int);
        assert(line@ =~= (if e < v@.len() && seg.len() > 0 && seg.last() == '\r' { seg.drop_last() } else { seg }));
        out.push(from_chars(line.as_slice()));
        if e >= v.len() - 1 {
            i = v.len();
        } else {
            i = e + 1;
        }
        proof {
            let rest = std_lines_from(v@, i as int);
            assert(rest0 =~= seq![line@] + rest);
            assert forall|x: int| 0 <= x < out@.len() implies (#[trigger] out@[x])@ == want[x] by {
                if x < before.len() {
                    assert(out@[x] == before[x]);
                } else {
                    assert(want[before.len() as int] == rest0[0]);
                }
            }
            assert forall|x: int| 0 <= x < rest.len() implies want[out@.len() + x] == #[trigger] rest[x] by {
                assert(rest0[x + 1] == rest[x]);
                assert(want[before.len() as int + (x + 1)] == rest0[x + 1]);
            }
        }
    }
    out
}

/// The event file without the lines of host key `key`: a line is kept
/// unless it parsed to an event whose host has that key; kept lines end
/// with a line break.
pub open spec fn kept_lines_text(lines: Seq<String>, hosts: Seq<Option<String>>, key: Seq<char>) -> Seq<char>
    decreases lines.len(),
{
    if lines.len() == 0 {
        Seq::empty()
    } else {
        let prev = kept_lines_text(lines.drop_last(), hosts.drop_last(), key);
        let k = lines.len() - 1;
        let drop = 0 <= k < hosts.len() && hosts[k] is Some && host_key(hosts[k]->0@) == key;
        if drop {
            prev
        } else {
            prev + lines.last()@ + "\n"@
        }
    }
}

/// Rewrites the event file without the events of `host`: `lines` are the
/// file's lines and `hosts` the host of the event each parsed to (`None`
/// for a line that does not parse, which is kept).
pub fn kept_event_lines(lines: &[String], hosts: &[Option<String>], host: &str) -> (r: String)
    requires
        lines@.len() == hosts@.len(),
    ensures
        r@ == kept_lines_text(lines@, hosts@, host_key(host@)),
{
    let key = normalize_host(host);
    let mut out = String::new();
    let mut i: usize = 0;
    while i < lines.len()
        invariant
            i <= lines@.len(),
            lines@.len() == hosts@.len(),
            key@ == host_key(host@),
            out@ == kept_lines_text(lines@.take(i as int), hosts@.take(i as int), key@),
        decreases lines.len() - i,
    {
        let drop = match &hosts[i] {
            Some(h) => {
                let k = normalize_host(h.as_str());
                k == key
            },
            None => false,
        };
        assert(lines@.take(i + 1).drop_last() =~= lines@.take(i as int));
        assert(hosts@.take(i + 1).drop_last() =~= hosts@.take(i as int));
        if !drop {
            out.append(lines[i].as_str());
            out.append("\n");
        }
        i = i + 1;
        assert(out@ =~= kept_lines_text(lines@.take(i as int), hosts@.take(i as int), key@));
    }
    assert(lines@.take(i as int) =~= lines@);
    assert(hosts@.take(i as int) =~= hosts@);
    out
}


/* ----------------------------- history read-back ----------------------------- */

/// Whether `s` is in ascending order of time.
pub open spec fn sorted_by_time(s: Seq<LogEvent>) -> bool {
    forall|x: int, y: int| 0 <= x < y < s.len() ==> s[x].ts <= s[y].ts
}

/// The events of the archive file `older` and of the current file `newer`
/// merged by time: the earlier head first, the archive's on a tie.
pub open spec fn merged_by_time(older: Seq<LogEvent>, newer: Seq<LogEvent>) -> Seq<LogEvent>
    decreases older.len() + newer.len(),
{
    if older.len() == 0 {
        newer
    } else if newer.len() == 0 {
        older
    } else if older[0].ts <= newer[0].ts {
        seq![older[0]] + merged_by_time(older.drop_first(), newer)
    } else {
        seq![newer[0]] + merged_by_time(older, newer.drop_first())
    }
}

/// Merges the events read back from the archive file and from the current
/// file by time (see `merged_by_time`).
pub fn merge_by_time(older: &[LogEvent], newer: &[LogEvent]) -> (r: Vec<LogEvent>)
    ensures
        r@ == merged_by_time(older@, newer@),
{
    let mut out: Vec<LogEvent> = Vec::new();
    let mut i: usize = 0;
    let mut j: usize = 0;
    proof {
        assert(older@.skip(0) =~= older@);
        assert(newer@.skip(0) =~= newer@);
        assert(out@ + merged_by_time(older@, newer@) =~= merged_by_time(older@, newer@));
    }
    while i < older.len() || j < newer.len()
        invariant
            i <= older@.len(),
            j <= newer@.len(),
            out@ + merged_by_time(older@.skip(i as int), newer@.skip(j as int)) == merged_by_time(older@, newer@),
        decreases older@.len() + newer@.len() - i - j,
    {
        let ghost a = older@.skip(i as int);
        let ghost b = newer@.skip(j as int);
        let take_older = if i >= older.len() {
            false
        } else if j >= newer.len() {
            true
        } else {
            older[i].ts <= newer[j].ts
        };
        if take_older {
            let e = older[i].duplicate();
            proof {
                assert(a.drop_first() =~= older@.skip(i + 1));
                if b.len() == 0 {
                    assert(merged_by_time(a, b) == a);
                    assert(merged_by_time(a.drop_first(), b) == a.drop_first());
                    assert(a =~= seq![a[0]] + a.drop_first());
                }
            }
            out.push(e);
            i = i + 1;
            proof {
                assert(out@ + merged_by_time(older@.skip(i as int), newer@.skip(j as int))
                    =~= out@.drop_last() + merged_by_time(a, b));
            }
        } else {
            let e = newer[j].duplicate();
            proof {
                assert(b.drop_first() =~= newer@.skip(j + 1));
                if a.len() == 0 {
                    assert(merged_by_time(a, b) == b);
                    assert(merged_by_time(a, b.drop_first()) == b.drop_first());
                    assert(b =~= seq![b[0]] + b.drop_first());
                }
            }
            out.push(e);
            j = j + 1;
            proof {
                assert(out@ + merged_by_time(older@.skip(i as int), newer@.skip(j as int))
                    =~= out@.drop_last() + merged_by_time(a, b));
            }
        }
    }
    proof {
        assert(older@.skip(i as int) =~= Seq::<LogEvent>::empty());
        assert(newer@.skip(j as int) =~= Seq::<LogEvent>::empty());
        assert(out@ + Seq::<LogEvent>::empty() =~= out@);
    }
    out
}

/// Merging the two files' events loses and adds nothing: the merge holds
/// every event of both, as often as they do.
pub proof fn lemma_merge_keeps_every_event(older: Seq<LogEvent>, newer: Seq<LogEvent>)
    ensures
        merged_by_time(older, newer).len() == older.len() + newer.len(),
        merged_by_time(older, newer).to_multiset() =~= older.to_multiset().add(newer.to_multiset()),
    decreases older.len() + newer.len(),
{
    broadcast use vstd::multiset::group_multiset_axioms;
    if older.len() == 0 {
        vstd::seq_lib::lemma_multiset_commutative(older, newer);
        assert(older + newer =~= newer);
    } else if newer.len() == 0 {
        vstd::seq_lib::lemma_multiset_commutative(older, newer);
        assert(older + newer =~= older);
    } else if older[0].ts <= newer[0].ts {
        lemma_merge_keeps_every_event(older.drop_first(), newer);
        vstd::seq_lib::lemma_multiset_commutative(seq![older[0]], merged_by_time(older.drop_first(), newer));
        vstd::seq_lib::lemma_multiset_commutative(seq![older[0]], older.drop_first());
        assert(seq![older[0]] + older.drop_first() =~= older);
    } else {
        lemma_merge_keeps_every_event(older, newer.drop_first());
        vstd::seq_lib::lemma_multiset_commutative(seq![newer[0]], merged_by_time(older, newer.drop_first()));
        vstd::seq_lib::lemma_multiset_commutative(seq![newer[0]], newer.drop_first());
        assert(seq![newer[0]] + newer.drop_first() =~= newer);
    }
}

proof fn lemma_merged_head(older: Seq<LogEvent>, newer: Seq<LogEvent>)
    requires
        older.len() + newer.len() > 0,
    ensures
        (older.len() > 0 && merged_by_time(older, newer)[0] == older[0])
            || (newer.len() > 0 && merged_by_time(older, newer)[0] == newer[0]),
{
}

/// Two files each in time order merge into one in time order.
pub proof fn lemma_merge_in_time_order(older: Seq<LogEvent>, newer: Seq<LogEvent>)
    requires
        sorted_by_time(older),
        sorted_by_time(newer),
    ensures
        sorted_by_time(merged_by_time(older, newer)),
    decreases older.len() + newer.len(),
{
    if older.len() == 0 || newer.len() == 0 {
    } else if older[0].ts <= newer[0].ts {
        let rest = older.drop_first();
        lemma_merge_in_time_order(rest, newer);
        let m = merged_by_time(rest, newer);
        lemma_merge_keeps_every_event(rest, newer);
        if m.len() > 0 {
            lemma_merged_head(rest, newer);
            assert(older[0].ts <= m[0].ts) by {
                if rest.len() > 0 && m[0] == rest[0] {
                    assert(rest[0] == older[1]);
                }
            }
        }
        let r = seq![older[0]] + m;
        assert forall|x: int, y: int| 0 <= x < y < r.len() implies r[x].ts <= r[y].ts by {
            if x == 0 {
                assert(r[y] == m[y - 1]);
                assert(m[0].ts <= m[y - 1].ts);
            } else {
                assert(r[x] == m[x - 1] && r[y] == m[y - 1]);
            }
        }
    } else {
        let rest = newer.drop_first();
        lemma_merge_in_time_order(older, rest);
        let m = merged_by_time(older, rest);
        lemma_merge_keeps_every_event(older, rest);
        if m.len() > 0 {
            lemma_merged_head(older, rest);
            assert(newer[0].ts <= m[0].ts) by {
                if rest.len() > 0 && m[0] == rest[0] {
                    assert(rest[0] == newer[1]);
                }
            }
        }
        let r = seq![newer[0]] + m;
        assert forall|x: int, y: int| 0 <= x < y < r.len() implies r[x].ts <= r[y].ts by {
            if x == 0 {
                assert(r[y] == m[y - 1]);
                assert(m[0].ts <= m[y - 1].ts);
            } else {
                assert(r[x] == m[x - 1] && r[y] == m[y - 1]);
            }
        }
    }
}

/* ----------------------------- laws ----------------------------- */

/// A target that keeps failing is recorded once: a transition from a
/// failure status to a failure status produces no event, whatever the
/// source of the failure.
pub proof fn lemma_failures_not_repeated(prev: Status, next: Status, src: FailSource)
    requires
        is_failure(prev),
        is_failure(next),
    ensures
        transition_event(prev, next, src) is None,
{
}

/// The transition rules: recovery is a failure followed by an answer, a
/// first answer follows a status that never answered, a fault is an answer
/// followed by a failure, a failure before any answer is a resolution
/// failure or an unreachable target by its source, and a status that does
/// not change produces nothing.
pub proof fn lemma_transition_rules(prev: Status, next: Status, src: FailSource)
    ensures
        transition_event(prev, next, src) == Some(EventKind::Recover) <==> (is_failure(prev) && next == Status::Reachable),
        transition_event(prev, next, src) == Some(EventKind::FirstOk) <==> (is_fresh(prev) && next == Status::Reachable),
        transition_event(prev, next, src) == Some(EventKind::Fault) <==> (prev == Status::Reachable && is_failure(next)),
        transition_event(prev, next, src) == Some(EventKind::DnsFail) <==> (is_fresh(prev) && is_failure(next) && src == FailSource::Resolve),
        transition_event(prev, next, src) == Some(EventKind::Unreachable) <==> (is_fresh(prev) && is_failure(next) && src == FailSource::Probe),
        prev == next ==> transition_event(prev, next, src) is None,
{
}

/// Whether an event of kind `kind` is shown at display level `setting`.
pub open spec fn shown_at(kind: EventKind, setting: EventLevel) -> bool {
    level_rank(level_of_kind(kind)) <= level_rank(setting)
}

/// The display levels are nested: what is shown at a level is shown at
/// every more detailed level; "faults only" shows the fault, unreachable,
/// resolution-failure and recovery events, "standard" adds first answers,
/// starts and stops, and "detailed" adds configuration changes.
pub proof fn lemma_levels_nested(kind: EventKind, a: EventLevel, b: EventLevel)
    ensures
        level_rank(a) <= level_rank(b) && shown_at(kind, a) ==> shown_at(kind, b),
        shown_at(kind, EventLevel::Fault) <==> (kind == EventKind::Fault || kind == EventKind::Unreachable
            || kind == EventKind::DnsFail || kind == EventKind::Recover),
        shown_at(kind, EventLevel::Standard) <==> (shown_at(kind, EventLevel::Fault) || kind == EventKind::FirstOk
            || kind == EventKind::Start || kind == EventKind::Stop),
        shown_at(kind, EventLevel::Detail),
{
}

/// A ring never holds more than `k` events after trimming to `k`, and the
/// newest event stays.
pub proof fn lemma_keep_last_bound<T>(s: Seq<T>, k: nat)
    requires
        k >= 1,
    ensures
        keep_last(s, k).len() <= k,
        keep_last(s, k).len() == if s.len() < k { s.len() } else { k },
        s.len() > 0 ==> keep_last(s, k).last() == s.last(),
{
}

/// Every event's sequence number is at most `max_seq` of its list.
pub proof fn lemma_max_seq_bound(events: Seq<LogEvent>)
    ensures
        forall|k: int| 0 <= k < events.len() ==> (#[trigger] events[k]).seq <= max_seq(events),
    decreases events.len(),
{
    if events.len() > 0 {
        lemma_max_seq_bound(events.drop_last());
        assert forall|k: int| 0 <= k < events.len() implies (#[trigger] events[k]).seq <= max_seq(events) by {
            if k < events.len() - 1 {
                assert(events[k] == events.drop_last()[k]);
            }
        }
    }
}

/// Events recorded after loading past events get larger sequence numbers
/// than every loaded event, orphans included: after `load_hosts`, the next
/// sequence number exceeds them all.
pub proof fn lemma_seq_after_load(events: Seq<LogEvent>, last_seq: u64)
    requires
        last_seq >= max_seq(events),
    ensures
        forall|k: int| 0 <= k < events.len() ==> (#[trigger] events[k]).seq < last_seq + 1,
{
    lemma_max_seq_bound(events);
}

/// Live events follow the history read back: when a store whose last
/// sequence number was that of `before` becomes `loaded` by `load_hosts` of
/// `events`, the counter never goes down, and the next event recorded
/// (`e`, see `emit_at`) gets the larger of the old counter and the largest
/// sequence number read (orphans included), plus one: above every event
/// read and every event recorded before.
pub proof fn lemma_live_events_follow_history(before: EventStore, loaded: EventStore, events: Seq<LogEvent>, e: LogEvent)
    requires
        loaded.last_seq_view() == (if max_seq(events) > before.last_seq_view() {
            max_seq(events)
        } else {
            before.last_seq_view()
        }),
        e.seq == loaded.last_seq_view() + 1,
    ensures
        loaded.last_seq_view() >= before.last_seq_view(),
        e.seq == (if max_seq(events) > before.last_seq_view() {
            max_seq(events)
        } else {
            before.last_seq_view()
        }) + 1,
        e.seq > before.last_seq_view(),
        forall|k: int| 0 <= k < events.len() ==> (#[trigger] events[k]).seq < e.seq,
{
    lemma_max_seq_bound(events);
}

/// What is read back of a write: after an event joins a ring trimmed to
/// `keep >= 1`, the newest event listed for that target is that event.
pub proof fn lemma_newest_is_last_emitted(ring: Seq<LogEvent>, e: LogEvent, keep: nat, limit: nat)
    requires
        keep >= 1,
        limit >= 1,
    ensures
        newest_first(keep_last(ring.push(e), keep), limit)[0] == e,
        newest_first(keep_last(ring.push(e), keep), limit).len() >= 1,
{
}

} // verus!
