//! The sinks that receive the events of the tracing library: the process
//! description sent at startup, the log filter, and a sink that drops
//! everything.

use vstd::prelude::*;

verus! {

/// Description of the running process.
#[derive(Clone, Debug)]
pub struct ProcessInfo {
    pub process_id: String,
    pub exe: String,
    pub username: String,
    pub realname: String,
    pub computer: String,
    pub distro: String,
    pub cpu_brand: String,
    pub tsc_frequency: u64,
    /// RFC 3339
    pub start_time: String,
    pub start_ticks: i64,
    pub parent_process_id: String,
}

/// Severity of a log entry.
#[derive(Clone, Copy, Debug, PartialEq, Eq, Structural)]
pub enum Level {
    Error,
    Warn,
    Info,
    Debug,
    Trace,
}

/// A receiver of tracing events.
pub trait EventSink {
    fn on_startup(&self, process_info: ProcessInfo);

    fn on_shutdown(&self);

    /// Whether log entries of `level` from `target` are wanted.
    fn on_log_enabled(&self, level: Level, target: &str) -> bool;

    fn on_log(&self, level: Level, target: &str, time: i64, message: &str);
}

/// A sink that wants no log entry and ignores every event.
pub struct NullEventSink {}

impl EventSink for NullEventSink {
    fn on_startup(&self, process_info: ProcessInfo) {
    }

    fn on_shutdown(&self) {
    }

    fn on_log_enabled(&self, level: Level, target: &str) -> (r: bool)
        ensures
            !r,
    {
        false
    }

    fn on_log(&self, level: Level, target: &str, time: i64, message: &str) {
    }
}

} // verus!
