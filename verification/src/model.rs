//! Data model: probe status, settings, target entries and the configuration.
use vstd::prelude::*;

use crate::events::{default_event_level, default_log_keep, EventLevel};

verus! {

/// Probe status of a target.
#[derive(Debug, Clone, Copy, PartialEq, Eq, Structural)]
pub enum Status {
    /// Not started.
    Idle,
    /// Resolving the host name.
    Resolving,
    /// The last probe was answered.
    Reachable,
    /// The last probe timed out.
    Timeout,
    /// Resolution or the probe failed.
    Failed,
}

impl Default for Status {
    fn default() -> (r: Self)
        ensures
            r == Status::Idle,
    {
        Status::Idle
    }
}

/// A target submitted for adding: a display name and a host.
#[derive(Debug, Clone)]
pub struct TargetEntry {
    /// Display name (may be empty: the host is used then).
    pub name: String,
    /// Host name or address.
    pub host: String,
}

/// Probe settings.
#[derive(Debug, Clone)]
pub struct PingSettings {
    /// Interval between two probes of one target, in milliseconds.
    pub interval_ms: u64,
    /// Probe timeout, in milliseconds.
    pub timeout_ms: u64,
    /// Echo payload size, in bytes.
    pub payload_size: u16,
    /// Time to live of the echo request.
    pub ttl: u8,
    /// Limit on the number of concurrent probe workers.
    pub max_threads: usize,
    /// Whether `max_threads` is enforced (the hard limit always is).
    pub limit_max_threads: bool,
    /// Beep when a probe fails.
    pub beep_on_fail: bool,
    /// Start probing when the application starts.
    pub auto_start: bool,
    /// Number of recent results kept per target.
    pub history_len: usize,
    /// Whether events are recorded at all.
    pub events_on: bool,
    /// Level of the events shown.
    pub events_level: EventLevel,
    /// Whether events are written to a file.
    pub events_persist: bool,
    /// Directory of the event file (`None`: the configuration directory).
    pub events_dir: Option<String>,
    /// Number of events kept per host.
    pub events_keep: usize,
}

impl Default for PingSettings {
    fn default() -> (r: Self)
        ensures
            r.interval_ms == 1000,
            r.timeout_ms == 2000,
            r.payload_size == 32,
            r.ttl == 128,
            r.max_threads == 256,
            r.limit_max_threads,
            !r.beep_on_fail,
            !r.auto_start,
            r.history_len == 60,
            r.events_on,
            r.events_level == EventLevel::Standard,
            r.events_persist,
            r.events_dir is None,
            r.events_keep == 200,
    {
        PingSettings {
            interval_ms: 1000,
            timeout_ms: 2000,
            payload_size: 32,
            ttl: 128,
            max_threads: 256,
            limit_max_threads: true,
            beep_on_fail: false,
            auto_start: false,
            history_len: 60,
            events_on: true,
            events_level: default_event_level(),
            events_persist: true,
            events_dir: None,
            events_keep: default_log_keep(),
        }
    }
}

/// Default of the boolean settings that older configurations lack: `true`,
/// so that loading an older configuration keeps the earlier behaviour.
pub fn default_true() -> (r: bool)
    ensures
        r,
{
    true
}

/// Default of `TargetConfig::enabled`: `true`.
pub fn default_enabled() -> (r: bool)
    ensures
        r,
{
    true
}

/// A saved target (no runtime statistics, no id).
#[derive(Debug, Clone)]
pub struct TargetConfig {
    /// Display name.
    pub name: String,
    /// Host name or address.
    pub host: String,
    /// Whether the target is probed.
    pub enabled: bool,
    /// Whether events are recorded for this target.
    pub events_on: bool,
}

/// The saved application configuration.
#[derive(Debug, Clone)]
pub struct AppConfig {
    /// Format version.
    pub version: u32,
    /// Settings.
    pub settings: PingSettings,
    /// Targets, in display order.
    pub targets: Vec<TargetConfig>,
}

impl Default for AppConfig {
    fn default() -> (r: Self)
        ensures
            r.version == 1,
            r.targets@.len() == 0,
            r.settings.interval_ms == 1000,
            r.settings.timeout_ms == 2000,
            r.settings.payload_size == 32,
            r.settings.ttl == 128,
            r.settings.max_threads == 256,
            r.settings.limit_max_threads,
            !r.settings.beep_on_fail,
            !r.settings.auto_start,
            r.settings.history_len == 60,
            r.settings.events_on,
            r.settings.events_level == EventLevel::Standard,
            r.settings.events_persist,
            r.settings.events_keep == 200,
            r.settings.events_dir is None,
    {
        AppConfig { version: 1, settings: PingSettings::default(), targets: Vec::new() }
    }
}

} // verus!
