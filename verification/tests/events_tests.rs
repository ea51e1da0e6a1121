use pingboard::events::FailSource::{Probe, Resolve};
use pingboard::events::{
    classify_transition, event_level_from_name, failure_text, jsonl_tail_lines, merge_by_time, normalize_host,
    EventKind, EventLevel, EventStore, LogEvent,
};
use pingboard::model::Status::{Failed, Idle, Reachable, Resolving, Timeout};

fn sample_event(seq: u64, id: u64, host: &str, kind: EventKind) -> LogEvent {
    LogEvent {
        seq,
        ts: 1_700_000_000_000 + seq,
        target_id: id,
        target_name: format!("主机{}", id),
        target_host: host.to_string(),
        kind,
        level: EventLevel::for_kind(kind),
        text: kind.label().to_string(),
    }
}

#[test]
fn classify_transition_full_matrix() {
    let all = [Idle, Resolving, Reachable, Timeout, Failed];
    for &prev in &all {
        for &next in &all {
            let probe = classify_transition(prev, next, Probe);
            let resolve = classify_transition(prev, next, Resolve);
            let failed_prev = prev == Timeout || prev == Failed;
            let fresh_prev = prev == Idle || prev == Resolving;
            let failed_next = next == Timeout || next == Failed;
            let expect_probe = if next == Reachable && failed_prev {
                Some(EventKind::Recover)
            } else if next == Reachable && fresh_prev {
                Some(EventKind::FirstOk)
            } else if prev == Reachable && failed_next {
                Some(EventKind::Fault)
            } else if fresh_prev && failed_next {
                Some(EventKind::Unreachable)
            } else {
                None
            };
            let expect_resolve = if next == Reachable && failed_prev {
                Some(EventKind::Recover)
            } else if next == Reachable && fresh_prev {
                Some(EventKind::FirstOk)
            } else if prev == Reachable && failed_next {
                Some(EventKind::Fault)
            } else if fresh_prev && failed_next {
                Some(EventKind::DnsFail)
            } else {
                None
            };
            assert_eq!(probe, expect_probe, "Probe {:?}->{:?}", prev, next);
            assert_eq!(resolve, expect_resolve, "Resolve {:?}->{:?}", prev, next);
        }
    }
}

#[test]
fn classify_transition_dedup_no_repeat() {
    for &prev in &[Timeout, Failed] {
        for &next in &[Timeout, Failed] {
            assert_eq!(classify_transition(prev, next, Probe), None);
            assert_eq!(classify_transition(prev, next, Resolve), None);
        }
    }
}

#[test]
fn classify_transition_key_cases() {
    assert_eq!(classify_transition(Idle, Reachable, Probe), Some(EventKind::FirstOk));
    assert_eq!(classify_transition(Resolving, Reachable, Probe), Some(EventKind::FirstOk));
    assert_eq!(classify_transition(Timeout, Reachable, Probe), Some(EventKind::Recover));
    assert_eq!(classify_transition(Failed, Reachable, Probe), Some(EventKind::Recover));
    assert_eq!(classify_transition(Reachable, Timeout, Probe), Some(EventKind::Fault));
    assert_eq!(classify_transition(Reachable, Failed, Probe), Some(EventKind::Fault));
    assert_eq!(classify_transition(Idle, Timeout, Probe), Some(EventKind::Unreachable));
    assert_eq!(classify_transition(Resolving, Failed, Probe), Some(EventKind::Unreachable));
    assert_eq!(classify_transition(Idle, Failed, Resolve), Some(EventKind::DnsFail));
    assert_eq!(classify_transition(Resolving, Failed, Resolve), Some(EventKind::DnsFail));
    assert_eq!(classify_transition(Reachable, Reachable, Probe), None);
}

#[test]
fn level_for_kind_and_rank() {
    assert_eq!(EventLevel::for_kind(EventKind::Fault), EventLevel::Fault);
    assert_eq!(EventLevel::for_kind(EventKind::Unreachable), EventLevel::Fault);
    assert_eq!(EventLevel::for_kind(EventKind::DnsFail), EventLevel::Fault);
    assert_eq!(EventLevel::for_kind(EventKind::Recover), EventLevel::Fault);
    assert_eq!(EventLevel::for_kind(EventKind::FirstOk), EventLevel::Standard);
    assert_eq!(EventLevel::for_kind(EventKind::Start), EventLevel::Standard);
    assert_eq!(EventLevel::for_kind(EventKind::Stop), EventLevel::Standard);
    assert_eq!(EventLevel::for_kind(EventKind::ConfigChange), EventLevel::Detail);
    assert!(EventLevel::Fault.rank() < EventLevel::Standard.rank());
    assert!(EventLevel::Standard.rank() < EventLevel::Detail.rank());
}

#[test]
fn emit_buffers_seq_and_respects_keep() {
    let mut store = EventStore::new();
    store.set_keep(3);
    for i in 1..=5u64 {
        store.emit(EventKind::Fault, format!("e{}", i), if i <= 3 { 1 } else { 2 }, "n", "h");
    }
    let pending = store.drain_pending();
    assert_eq!(pending.len(), 5, "pending 应累计 5 条");
    assert_eq!(pending[0].seq, 1);
    assert_eq!(pending[4].seq, 5);
    let h1 = store.list_host(1, 100);
    assert_eq!(h1.len(), 3, "主机 1 环应被截断到 3 条");
    assert!(h1[0].seq > h1[2].seq, "list_host 应新→旧返回");
    let h2 = store.list_host(2, 100);
    assert_eq!(h2.len(), 2, "主机 2 仅 2 条");
    assert!(store.drain_pending().is_empty());
}

#[test]
fn emit_sets_level_redundantly() {
    let mut store = EventStore::new();
    store.emit(EventKind::ConfigChange, "x".into(), 7, "n", "h");
    let ev = &store.list_host(7, 1)[0];
    assert_eq!(ev.level, EventLevel::Detail, "level 应冗余随事件存储");
}

#[test]
fn load_hosts_maps_by_host_and_drops_orphans() {
    let mut store = EventStore::new();
    store.set_keep(2);
    let host_to_id = vec![("1.1.1.1".to_string(), 10u64)];
    let events = vec![
        sample_event(1, 1, "1.1.1.1", EventKind::FirstOk),
        sample_event(2, 1, "1.1.1.1", EventKind::Fault),
        sample_event(3, 1, "1.1.1.1", EventKind::Recover),
        sample_event(4, 9, "9.9.9.9", EventKind::FirstOk),
    ];
    store.load_hosts(events, &host_to_id, 2);
    let loaded = store.list_host(10, 100);
    assert_eq!(loaded.len(), 2, "每主机只保留最近 keep=2 条");
    assert_eq!(loaded[0].seq, 3, "应保留最新两条（seq 3、2）");
    assert_eq!(loaded[0].target_id, 10, "重启后 id 应回填为当前 id");
    assert!(store.list_host(9, 100).is_empty(), "孤儿事件应被丢弃");
    assert!(store.drain_pending().is_empty(), "读回历史不应产生未读增量");
    store.emit(EventKind::Start, "开始探测".into(), 10, "n", "1.1.1.1");
    let fresh = store.drain_pending();
    assert_eq!(fresh.len(), 1);
    assert_eq!(fresh[0].seq, 5, "实时事件 seq 应接续历史最大 seq(4)");
}

#[test]
fn qa_dns_fail_text_has_no_duplicated_prefix() {
    assert_eq!(
        failure_text(EventKind::DnsFail, 1, Some("解析失败：不知道这样的主机。(os error 11001)")),
        "解析失败：不知道这样的主机。(os error 11001)"
    );
    assert_eq!(
        failure_text(EventKind::DnsFail, 1, Some("不知道这样的主机。")),
        "解析失败：不知道这样的主机。"
    );
    assert_eq!(failure_text(EventKind::DnsFail, 1, None), "解析失败");
    assert_eq!(failure_text(EventKind::DnsFail, 1, Some("")), "解析失败");
}

#[test]
fn qa_other_failure_texts_still_prefixed() {
    assert_eq!(
        failure_text(EventKind::Fault, 1, Some("IOP 状态码 11013")),
        "探测失败：IOP 状态码 11013"
    );
    assert_eq!(failure_text(EventKind::Fault, 3, None), "探测超时（连续 3 次）");
    assert_eq!(failure_text(EventKind::Unreachable, 1, Some("请求超时")), "无法连通：请求超时");
    assert_eq!(failure_text(EventKind::Unreachable, 1, None), "无法连通");
}

#[test]
fn jsonl_tail_skips_partial_first_line() {
    let l1 = r#"{"seq":1,"kind":"start"}"#;
    let l2 = r#"{"seq":2,"kind":"stop"}"#;
    let mut content = String::new();
    content.push_str("PARTIAL-GARBAGE-HEAD\n");
    content.push_str(l1);
    content.push('\n');
    content.push_str(l2);
    content.push('\n');
    let lines = jsonl_tail_lines(content.as_bytes(), content.len() - 5);
    assert_eq!(lines.len(), 2, "截断后应只留下 2 条完整行");
    assert_eq!(lines[0], l1);
    assert_eq!(lines[1], l2);
}

#[test]
fn jsonl_tail_keeps_all_lines_when_not_cut() {
    let content = "  a  \n\n\r\nb\r\n   \nc";
    let lines = jsonl_tail_lines(content.as_bytes(), 1000);
    assert_eq!(lines, vec!["a".to_string(), "b".to_string(), "c".to_string()]);
    assert!(jsonl_tail_lines(b"no newline at all", 5).is_empty());
}

#[test]
fn normalize_host_trims_and_lowercases() {
    assert_eq!(normalize_host("  WWW.Example.COM \t"), "www.example.com");
    assert_eq!(normalize_host(""), "");
}

#[test]
fn all_events_sorted_across_hosts() {
    let mut store = EventStore::new();
    store.emit(EventKind::Start, "a".into(), 2, "n2", "h2");
    store.emit(EventKind::Start, "b".into(), 1, "n1", "h1");
    store.emit(EventKind::Stop, "c".into(), 2, "n2", "h2");
    let all = store.all_events();
    let seqs: Vec<u64> = all.iter().map(|e| e.seq).collect();
    assert_eq!(seqs, vec![1, 2, 3]);
    assert!(store.clear_host(2) == store.persist_enabled());
    let after: Vec<u64> = store.all_events().iter().map(|e| e.seq).collect();
    assert_eq!(after, vec![2]);
}

#[test]
fn persist_flags_follow_settings() {
    let mut store = EventStore::new();
    assert!(!store.persist_enabled());
    assert!(!store.apply_persist(true, None));
    assert!(store.apply_persist(true, Some("d".into())));
    assert!(store.persist_enabled());
    store.record_persist_failure();
    assert!(store.persist_error());
    assert!(!store.apply_persist(false, Some("d".into())));
    assert!(!store.persist_error());
}

#[test]
fn stored_line_without_level_takes_kind_level() {
    let e = LogEvent::from_stored(9, 0, 1, "a".into(), "h".into(), EventKind::FirstOk, None, String::new());
    assert_eq!(e.level, EventLevel::Standard);
    let e = LogEvent::from_stored(9, 0, 1, "a".into(), "h".into(), EventKind::FirstOk, Some(EventLevel::Detail), String::new());
    assert_eq!(e.level, EventLevel::Detail);
}

#[test]
fn event_level_names_fall_back_to_standard() {
    assert_eq!(event_level_from_name(Some("fault")), EventLevel::Fault);
    assert_eq!(event_level_from_name(Some("detail")), EventLevel::Detail);
    assert_eq!(event_level_from_name(Some("standard")), EventLevel::Standard);
    assert_eq!(event_level_from_name(Some("verbose")), EventLevel::Standard);
    assert_eq!(event_level_from_name(None), EventLevel::Standard);
}

#[test]
fn default_store_is_empty() {
    let mut store = EventStore::default();
    assert_eq!(store.last_seq(), 0);
    assert!(!store.persist_enabled());
    assert!(!store.persist_error());
    assert!(store.drain_pending().is_empty());
    assert!(store.all_events().is_empty());
}

fn at(seq: u64, ts: u64) -> LogEvent {
    let mut e = sample_event(seq, 1, "1.1.1.1", EventKind::Fault);
    e.ts = ts;
    e
}

#[test]
fn archive_and_current_file_merge_by_time() {
    let older = vec![at(1, 10), at(2, 30), at(3, 50)];
    let newer = vec![at(4, 20), at(5, 30), at(6, 60)];
    let merged = merge_by_time(&older, &newer);
    let seqs: Vec<u64> = merged.iter().map(|e| e.seq).collect();
    assert_eq!(seqs, vec![1, 4, 2, 5, 3, 6]);
    assert!(merge_by_time(&[], &[]).is_empty());
    let only: Vec<u64> = merge_by_time(&older, &[]).iter().map(|e| e.seq).collect();
    assert_eq!(only, vec![1, 2, 3]);
    let only: Vec<u64> = merge_by_time(&[], &newer).iter().map(|e| e.seq).collect();
    assert_eq!(only, vec![4, 5, 6]);
}

#[test]
fn jsonl_missing_level_is_derived_from_kind() {
    let line = r#"{"seq":9,"target_id":1,"target_name":"a","target_host":"h","kind":"first_ok"}"#;
    let v: serde_json::Value = serde_json::from_str(line).unwrap();
    assert_eq!(v["kind"], "first_ok");
    assert!(v.get("level").is_none());
    let ev = LogEvent::from_stored(
        v["seq"].as_u64().unwrap(),
        v.get("ts").and_then(|x| x.as_u64()).unwrap_or(0),
        v["target_id"].as_u64().unwrap(),
        v["target_name"].as_str().unwrap().to_string(),
        v["target_host"].as_str().unwrap().to_string(),
        EventKind::FirstOk,
        None,
        v.get("text").and_then(|x| x.as_str()).unwrap_or("").to_string(),
    );
    assert_eq!(ev.level, EventLevel::Standard, "first_ok 缺 level 应推导为标准");
    assert_eq!(ev.kind, EventKind::FirstOk);
    assert_eq!(ev.ts, 0);
    assert_eq!(ev.text, "");
    let kept = LogEvent::from_stored(1, 2, 3, "n".into(), "h".into(), EventKind::FirstOk, Some(EventLevel::Detail), "t".into());
    assert_eq!(kept.level, EventLevel::Detail);
}

#[test]
fn jsonl_append_and_tail_readback() {
    let lines = [
        r#"{"seq":1,"ts":1,"target_id":1,"target_name":"a","target_host":"1.1.1.1","kind":"first_ok","level":"standard","text":"首次连通"}"#,
        r#"{"seq":2,"ts":2,"target_id":1,"target_name":"a","target_host":"1.1.1.1","kind":"fault","level":"fault","text":"探测超时"}"#,
        r#"{"seq":3,"ts":3,"target_id":2,"target_name":"b","target_host":"2.2.2.2","kind":"start","level":"standard","text":"开始探测"}"#,
    ];
    let mut content = String::new();
    for l in lines {
        content.push_str(l);
        content.push('\n');
    }
    content.push_str("{ this is a corrupt line\n");
    let tail = jsonl_tail_lines(content.as_bytes(), 4 * 1024 * 1024);
    assert_eq!(tail.len(), 4);
    let back: Vec<serde_json::Value> = tail.iter().filter_map(|l| serde_json::from_str(l).ok()).collect();
    assert_eq!(back.len(), 3, "坏行应被跳过，保留 3 条有效事件");
    assert_eq!(back[0]["seq"], 1);
    assert_eq!(back[2]["target_host"], "2.2.2.2");
}

#[test]
fn live_sequence_never_goes_below_the_counter_after_load() {
    let mut store = EventStore::new();
    for _ in 0..6 {
        store.emit_at(EventKind::Start, "开始探测".into(), 1, "n", "h", 0);
    }
    // History older than the live counter does not lower it.
    store.load_hosts(vec![sample_event(3, 1, "h", EventKind::Stop)], &[("h".to_string(), 1)], 200);
    assert_eq!(store.last_seq(), 6);
    assert_eq!(store.emit_at(EventKind::Stop, "已停止".into(), 1, "n", "h", 0).seq, 7);
    // History newer than it raises it.
    store.load_hosts(vec![sample_event(40, 2, "x", EventKind::Stop)], &[], 200);
    assert_eq!(store.emit_at(EventKind::Stop, "已停止".into(), 1, "n", "h", 0).seq, 41);
}
