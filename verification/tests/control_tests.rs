use pingboard::control::{
    begin_round, check_thread_budget, finish_round, missing_target_message, plan_new_targets, plan_target_edit,
    running_after_stop, select_to_start, stop_records_event, targets_to_restore, FollowUp,
    RoundAction, RoundEvent, RoundResult, StopReason, HARD_MAX_THREADS,
};
use pingboard::events::EventKind;
use pingboard::model::{Status, TargetConfig, TargetEntry};
use pingboard::stats::ProbeCounters;

#[test]
fn qa_hard_max_threads_constant_is_4096() {
    assert_eq!(HARD_MAX_THREADS, 4096);
}

#[test]
fn qa_max_threads_limit_returns_readable_error() {
    let err = check_thread_budget(0, 3, 2, true).expect_err("超过线程上限应返回错误");
    assert!(err.contains("上限"), "错误信息应包含「上限」：{}", err);
    assert_eq!(
        err,
        "线程数将超过上限 2（当前运行 0，待启动 3），请减少目标或提高「最大线程数」设置"
    );
}

#[test]
fn qa_limit_disabled_allows_exceeding_max_threads() {
    assert!(check_thread_budget(0, 3, 2, false).is_ok());
}

#[test]
fn qa_v11_hard_4096_rejects_4097_without_spawning() {
    let err = check_thread_budget(0, 4097, 256, false).unwrap_err();
    assert!(err.contains("4096"), "错误信息应含硬上限 4096：{}", err);
    assert!(check_thread_budget(0, 4096, 256, false).is_ok());
}

#[test]
fn new_targets_are_cleaned_and_empty_lists_rejected() {
    let entries = vec![
        TargetEntry { name: "  ".into(), host: " 1.1.1.1 ".into() },
        TargetEntry { name: " DNS ".into(), host: "8.8.8.8".into() },
        TargetEntry { name: "x".into(), host: "   ".into() },
    ];
    let planned = plan_new_targets(&entries).unwrap();
    assert_eq!(planned.len(), 2);
    assert_eq!((planned[0].name.as_str(), planned[0].host.as_str()), ("1.1.1.1", "1.1.1.1"));
    assert_eq!((planned[1].name.as_str(), planned[1].host.as_str()), ("DNS", "8.8.8.8"));
    let err = plan_new_targets(&[TargetEntry { name: "a".into(), host: "".into() }]).unwrap_err();
    assert_eq!(err, "没有可添加的有效目标");
}

#[test]
fn qa_events_config_change_recorded() {
    let e = plan_target_edit("orig", "127.0.0.1", true, "新备注", "127.0.0.1", true, true, true, false)
        .unwrap();
    assert_eq!(e.events.len(), 1);
    assert!(e.events[0].contains("新备注"));
    let same = plan_target_edit("新备注", "127.0.0.1", true, "新备注", "127.0.0.1", true, true, true, false)
        .unwrap();
    assert!(same.events.is_empty(), "无变化不应产生 config_change");
}

#[test]
fn target_edit_texts_and_follow_up() {
    let e = plan_target_edit("a", "h1", true, "", " h2 ", false, true, true, true).unwrap();
    assert_eq!(e.name, "h2");
    assert_eq!(e.host, "h2");
    assert!(e.host_changed);
    assert_eq!(
        e.events,
        vec![
            "配置变更：备注名 -> h2".to_string(),
            "配置变更：主机名 -> h2".to_string(),
            "配置变更：启用状态 -> 关闭".to_string()
        ]
    );
    assert_eq!(e.follow_up, FollowUp::Stop);
    let quiet = plan_target_edit("a", "h1", false, "b", "h1", true, true, false, true).unwrap();
    assert!(quiet.events.is_empty(), "单主机开关关闭时不记录");
    assert_eq!(quiet.follow_up, FollowUp::Start);
    assert_eq!(plan_target_edit("a", "h", true, "a", "  ", true, true, true, false).err().unwrap(), "主机名不能为空");
    assert_eq!(missing_target_message(9999), "目标 9999 不存在");
}

#[test]
fn start_selection_skips_running_and_disabled() {
    let targets = vec![(1u64, true), (2, false), (3, true)];
    assert_eq!(select_to_start(&targets, None, &[3]), vec![1]);
    assert_eq!(select_to_start(&targets, Some(&[2, 3]), &[]), vec![2, 3]);
}

#[test]
fn only_user_stops_are_recorded() {
    assert!(stop_records_event(StopReason::User, true, true));
    assert!(!stop_records_event(StopReason::Internal, true, true));
    assert!(!stop_records_event(StopReason::User, false, true));
    assert!(!stop_records_event(StopReason::User, true, false));
    assert!(!running_after_stop(true, 5, true));
    assert!(!running_after_stop(false, 0, true));
    assert!(running_after_stop(false, 2, true));
}

#[test]
fn restored_targets_skip_blank_hosts() {
    let t = vec![
        TargetConfig { name: "a".into(), host: " ".into(), enabled: true, events_on: true },
        TargetConfig { name: "b".into(), host: " 1.1.1.1".into(), enabled: false, events_on: false },
    ];
    let r = targets_to_restore(&t);
    assert_eq!(r.len(), 1);
    assert_eq!(r[0].host, " 1.1.1.1");
    assert!(!r[0].enabled && !r[0].events_on);
}

#[test]
fn qa_events_dns_fail_dedup() {
    let mut c = ProbeCounters::new();
    let mut err: Option<String> = None;
    let ev = finish_round(&mut c, &mut err, Status::Idle, RoundResult::ResolveFailed("解析失败：x".into()), true);
    match ev {
        Some(RoundEvent::Failure(k, t)) => {
            assert_eq!(k, EventKind::DnsFail);
            assert_eq!(t, "解析失败：x");
        }
        _ => panic!("应记录 dns_fail"),
    }
    let st = c.status;
    let again = finish_round(&mut c, &mut err, st, RoundResult::ResolveFailed("解析失败：x".into()), true);
    assert!(again.is_none(), "连续 DNS 失败不应重复记录");
    assert_eq!(c.consecutive_fail, 2);
    let st = c.status;
    let ok = finish_round(&mut c, &mut err, st, RoundResult::Answered { ttl: Some(50), now: 7 }, true);
    assert!(matches!(ok, Some(RoundEvent::Success(EventKind::Recover))));
    assert_eq!(err, None);
    let st = c.status;
    let t = finish_round(&mut c, &mut err, st, RoundResult::TimedOut, true);
    match t {
        Some(RoundEvent::Failure(k, text)) => {
            assert_eq!(k, EventKind::Fault);
            assert_eq!(text, "探测超时（连续 1 次）");
        }
        _ => panic!("应记录 fault"),
    }
    assert_eq!((c.sent, c.received, c.failed), (4, 1, 3));
}

#[test]
fn qa_limit_enabled_still_blocks_before_start() {
    // Three enabled targets, none running, a limit of two threads that is on.
    let to_start = select_to_start(&[(1, true), (2, true), (3, true)], None, &[]);
    let err = check_thread_budget(0, to_start.len(), 2, true).expect_err("开启上限时应报错");
    assert!(err.contains("上限"), "错误信息应含「上限」：{}", err);
}

#[test]
fn qa_limit_disabled_still_enforces_hard_4096() {
    let targets: Vec<(u64, bool)> = (1..=4097u64).map(|id| (id, true)).collect();
    let to_start = select_to_start(&targets, None, &[]);
    assert_eq!(to_start.len(), 4097);
    let err = check_thread_budget(0, to_start.len(), 8, false).expect_err("超过 4096 硬上限应报错");
    assert!(err.contains("4096"), "错误信息应包含硬上限 4096：{}", err);
}

#[test]
fn round_begins_by_resolving_or_probing() {
    let b = begin_round(false, false, Status::Failed, false);
    assert_eq!(b.action, RoundAction::Resolve);
    assert_eq!(b.prev, Status::Failed);
    assert_eq!(b.status, Status::Resolving);
    let b = begin_round(false, false, Status::Reachable, true);
    assert_eq!(b.action, RoundAction::Probe);
    assert_eq!((b.prev, b.status), (Status::Reachable, Status::Reachable));
    assert_eq!(begin_round(true, false, Status::Idle, true).action, RoundAction::Finish);
    assert_eq!(begin_round(false, true, Status::Idle, false).action, RoundAction::Finish);
}

#[test]
fn dns_failures_over_many_rounds_are_recorded_once() {
    let mut c = ProbeCounters::new();
    let mut err: Option<String> = None;
    let mut recorded = Vec::new();
    for _ in 0..5 {
        let b = begin_round(false, false, c.status, false);
        c.status = b.status;
        if let Some(ev) = finish_round(&mut c, &mut err, b.prev, RoundResult::ResolveFailed("解析失败：x".into()), true) {
            recorded.push(ev);
        }
    }
    assert_eq!(recorded.len(), 1);
    assert!(matches!(recorded[0], RoundEvent::Failure(EventKind::DnsFail, _)));
    assert_eq!(c.consecutive_fail, 5);
}

#[test]
fn answered_round_needs_no_room_in_the_failure_count() {
    let mut c = ProbeCounters::new();
    c.failed = u64::MAX;
    c.sent = 3;
    let mut err: Option<String> = None;
    let ev = finish_round(&mut c, &mut err, Status::Idle, RoundResult::Answered { ttl: Some(64), now: 1 }, true);
    assert!(matches!(ev, Some(RoundEvent::Success(EventKind::FirstOk))));
    assert_eq!((c.sent, c.received, c.failed), (4, 1, u64::MAX));
}
