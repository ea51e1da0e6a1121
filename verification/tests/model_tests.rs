use pingboard::events::EventLevel;
use pingboard::model::{default_enabled, default_true, AppConfig, PingSettings, Status};

#[test]
fn defaults_match_documented_values() {
    let s = PingSettings::default();
    assert_eq!(s.interval_ms, 1000);
    assert_eq!(s.timeout_ms, 2000);
    assert_eq!(s.payload_size, 32);
    assert_eq!(s.ttl, 128);
    assert_eq!(s.max_threads, 256);
    assert!(s.limit_max_threads);
    assert_eq!(s.history_len, 60);
    assert!(s.events_on && s.events_persist);
    assert_eq!(s.events_level, EventLevel::Standard);
    assert_eq!(s.events_keep, 200);
    assert!(s.events_dir.is_none());
    let c = AppConfig::default();
    assert_eq!(c.version, 1);
    assert!(c.targets.is_empty());
    assert!(default_true() && default_enabled());
    assert_eq!(Status::default(), Status::Idle);
}
