//! Tiny in-game event log shown in the UI, used for diagnosing job failures.

use std::collections::VecDeque;
use vstd::prelude::*;

verus! {

#[derive(Clone, Copy, PartialEq, Eq, Structural, Debug)]
pub enum LogKind {
    Info,
    Job,
    Fail,
}

pub struct LogEntry {
    /// Sim time of the event, in sim microseconds.
    pub time: i64,
    pub kind: LogKind,
    pub text: String,
}

/// Most entries the log keeps; the oldest ones drop out first.
pub const LOG_CAPACITY: usize = 64;

/// Entries the HUD shows.
pub const VISIBLE: usize = 7;

/// Cooldown before retrying an unreachable target: 15 real seconds at 1×,
/// i.e. 15 ship minutes (sim microseconds).
pub const UNREACHABLE_COOLDOWN_US: i64 = 900_000_000;

pub struct EventLog {
    pub entries: VecDeque<LogEntry>,
}

impl EventLog {
    pub fn new() -> (r: Self)
        ensures
            r.entries@.len() == 0,
    {
        EventLog { entries: VecDeque::new() }
    }

    /// Append an entry, dropping the oldest when the log is full.
    pub fn push(&mut self, time: i64, kind: LogKind, text: String)
        ensures
            final(self).entries@.len() == (if old(self).entries@.len() >= LOG_CAPACITY {
                old(self).entries@.len()
            } else {
                old(self).entries@.len() + 1
            }),
            final(self).entries@.last().time == time,
            final(self).entries@.last().kind == kind,
            final(self).entries@.last().text@ == text@,
            old(self).entries@.len() >= LOG_CAPACITY ==> final(self).entries@.drop_last() =~= old(
                self,
            ).entries@.drop_first(),
            old(self).entries@.len() < LOG_CAPACITY ==> final(self).entries@.drop_last()
                =~= old(self).entries@,
    {
        if self.entries.len() >= LOG_CAPACITY {
            self.entries.pop_front();
        }
        self.entries.push_back(LogEntry { time, kind, text });
    }
}

/// The log never grows past its capacity: a log within capacity stays within
/// it after any push.
pub proof fn lemma_push_keeps_capacity(len_before: int)
    requires
        0 <= len_before <= LOG_CAPACITY,
    ensures
        (if len_before >= LOG_CAPACITY { len_before } else { len_before + 1 }) <= LOG_CAPACITY,
{
}

} // verus!
