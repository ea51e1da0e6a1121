use pingboard::model::{PingSettings, Status};
use pingboard::stats::{normalize_settings, push_history, ProbeCounters};

#[test]
fn normalize_clamps_out_of_range() {
    let mut s = PingSettings {
        interval_ms: 1,
        timeout_ms: 10,
        payload_size: 65_535,
        ttl: 0,
        max_threads: 0,
        beep_on_fail: false,
        auto_start: false,
        history_len: 1,
        ..PingSettings::default()
    };
    normalize_settings(&mut s);
    assert_eq!(s.interval_ms, 100);
    assert_eq!(s.timeout_ms, 100);
    assert_eq!(s.payload_size, 65_500);
    assert_eq!(s.ttl, 1);
    assert_eq!(s.max_threads, 1);
    assert_eq!(s.history_len, 10);
}

#[test]
fn qa_normalize_clamps_upper_and_lower() {
    let mut s = PingSettings {
        interval_ms: u64::MAX,
        timeout_ms: u64::MAX,
        payload_size: u16::MAX,
        ttl: 200,
        max_threads: usize::MAX,
        beep_on_fail: true,
        auto_start: true,
        history_len: usize::MAX,
        ..PingSettings::default()
    };
    normalize_settings(&mut s);
    assert_eq!(s.interval_ms, 600_000);
    assert_eq!(s.timeout_ms, 60_000);
    assert_eq!(s.payload_size, 65_500, "payload_size 上界应为 65500");
    assert_eq!(s.ttl, 200, "合法 TTL 不应被改动");
    assert_eq!(s.max_threads, 1024);
    assert_eq!(s.history_len, 600);

    let mut ok = PingSettings::default();
    normalize_settings(&mut ok);
    assert_eq!(ok.interval_ms, 1000);
    assert_eq!(ok.timeout_ms, 2000);
    assert_eq!(ok.payload_size, 32);
    assert_eq!(ok.ttl, 128);
    assert_eq!(ok.max_threads, 256);
    assert_eq!(ok.history_len, 60);
}

#[test]
fn normalize_twice_is_normalize_once() {
    let mut a = PingSettings { interval_ms: 5, history_len: 9999, ..PingSettings::default() };
    normalize_settings(&mut a);
    let (i, h) = (a.interval_ms, a.history_len);
    normalize_settings(&mut a);
    assert_eq!((a.interval_ms, a.history_len), (i, h));
}

#[test]
fn history_trims_to_len() {
    let mut hist: Vec<Option<f64>> = Vec::new();
    for i in 0..100 {
        push_history(&mut hist, Some(i as f64), 60);
    }
    assert_eq!(hist.len(), 60);
    assert_eq!(hist[0], Some(40.0));
    assert_eq!(hist[59], Some(99.0));
}

#[test]
fn qa_history_ring_buffer_exact_len() {
    let mut hist: Vec<Option<f64>> = Vec::new();
    for i in 0..100u32 {
        let v = if i % 10 == 9 { None } else { Some(i as f64) };
        push_history(&mut hist, v, 60);
    }
    assert_eq!(hist.len(), 60, "长度必须恰为 history_len");
    assert_eq!(hist[0], Some(40.0), "应保留最近 60 条（从第 40 次开始）");
    assert_eq!(hist[59], None, "最后一次（i=99）为失败 → None");
}

#[test]
fn qa_push_history_len_zero_no_panic() {
    let mut h: Vec<Option<f64>> = Vec::new();
    push_history(&mut h, Some(1.0), 0);
    push_history(&mut h, None, 0);
    assert_eq!(h.len(), 2);
}

#[test]
fn counters_track_success_and_failure() {
    let mut c = ProbeCounters::new();
    c.record_failure(Status::Timeout);
    c.record_failure(Status::Timeout);
    c.record_failure(Status::Timeout);
    assert_eq!(c.consecutive_fail, 3);
    c.record_success(Some(64), 100);
    assert_eq!(c.consecutive_fail, 0, "成功一次后连续失败计数必须归零");
    assert_eq!(c.status, Status::Reachable);
    assert_eq!(c.failed, 3);
    assert_eq!(c.received, 1);
    assert_eq!(c.sent, 4);
    assert_eq!(c.ttl, Some(64));
    assert_eq!(c.last_success_ts, Some(100));
    c.record_success(Some(0), 200);
    assert_eq!(c.ttl, Some(64), "TTL 为 0 时保留原值");
    c.reset();
    assert_eq!((c.sent, c.received, c.failed, c.status), (0, 0, 0, Status::Idle));
}

/// A target's integer counters and its result history, as one probe round
/// leaves them.
struct Sample {
    c: ProbeCounters,
    history: Vec<Option<f64>>,
}

fn sample() -> Sample {
    Sample { c: ProbeCounters::new(), history: Vec::new() }
}

fn success(s: &mut Sample, rtt: f64, ttl: Option<u32>, now: u64, len: usize) {
    s.c.record_success(ttl, now);
    push_history(&mut s.history, Some(rtt), len);
}

fn failure(s: &mut Sample, len: usize, status: Status) {
    s.c.record_failure(status);
    push_history(&mut s.history, None, len);
}

#[test]
fn apply_success_updates_all_fields() {
    let mut s = sample();
    success(&mut s, 10.0, Some(117), 111, 60);
    success(&mut s, 30.0, Some(118), 222, 60);
    assert_eq!(s.c.sent, 2);
    assert_eq!(s.c.received, 2);
    assert_eq!(s.c.failed, 0);
    assert_eq!(s.c.ttl, Some(118));
    assert_eq!(s.c.last_success_ts, Some(222));
    assert_eq!(s.c.consecutive_fail, 0);
    assert_eq!(s.c.status, Status::Reachable);
    assert_eq!(s.history, vec![Some(10.0), Some(30.0)]);
}

#[test]
fn apply_failure_increments_and_nulls_last() {
    let mut s = sample();
    success(&mut s, 10.0, Some(117), 1, 60);
    failure(&mut s, 60, Status::Timeout);
    assert_eq!(s.c.sent, 2);
    assert_eq!(s.c.received, 1);
    assert_eq!(s.c.failed, 1);
    assert_eq!(s.c.consecutive_fail, 1);
    assert_eq!(s.c.status, Status::Timeout);
    assert_eq!(s.history, vec![Some(10.0), None]);
}

#[test]
fn qa_consecutive_fail_reset_on_success() {
    let mut s = sample();
    failure(&mut s, 60, Status::Timeout);
    failure(&mut s, 60, Status::Timeout);
    failure(&mut s, 60, Status::Timeout);
    assert_eq!(s.c.consecutive_fail, 3);
    success(&mut s, 12.0, Some(64), 100, 60);
    assert_eq!(s.c.consecutive_fail, 0, "成功一次后连续失败计数必须归零");
    assert_eq!(s.c.status, Status::Reachable);
    assert_eq!(s.c.failed, 3);
    assert_eq!(s.c.received, 1);
    assert_eq!(s.c.sent, 4);
}

#[test]
fn qa_history_keeps_recent_and_none_for_failures() {
    let mut s = sample();
    for i in 0..5 {
        success(&mut s, i as f64, Some(64), i as u64, 60);
    }
    for _ in 0..3 {
        failure(&mut s, 60, Status::Timeout);
    }
    assert_eq!(s.history.len(), 8);
    assert_eq!(&s.history[0..5], &[Some(0.0), Some(1.0), Some(2.0), Some(3.0), Some(4.0)]);
    assert_eq!(&s.history[5..8], &[None, None, None], "失败/超时应写入 None");
}

#[test]
fn normalize_keeps_offered_event_counts_only() {
    for (given, want) in [(50, 50), (200, 200), (1000, 1000), (7, 200), (0, 200), (100, 200), (usize::MAX, 200)] {
        let mut s = PingSettings { events_keep: given, ..PingSettings::default() };
        normalize_settings(&mut s);
        assert_eq!(s.events_keep, want, "events_keep {}", given);
    }
}

#[test]
fn normalize_trims_the_event_directory() {
    let mut s = PingSettings { events_dir: Some("  D:\\pb-events \t".to_string()), ..PingSettings::default() };
    normalize_settings(&mut s);
    assert_eq!(s.events_dir.as_deref(), Some("D:\\pb-events"));
    let mut blank = PingSettings { events_dir: Some("   ".to_string()), ..PingSettings::default() };
    normalize_settings(&mut blank);
    assert_eq!(blank.events_dir, None);
    let mut empty = PingSettings { events_dir: Some(String::new()), ..PingSettings::default() };
    normalize_settings(&mut empty);
    assert_eq!(empty.events_dir, None);
    let mut none = PingSettings::default();
    normalize_settings(&mut none);
    assert_eq!(none.events_dir, None);
    normalize_settings(&mut s);
    assert_eq!(s.events_dir.as_deref(), Some("D:\\pb-events"));
}
