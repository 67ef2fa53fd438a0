//! The proxy's shared state: configuration, rules, sequence counters, the
//! recent-event log and runtime flags.
use vstd::prelude::*;
use std::collections::VecDeque;
use crate::models::{opt_view, ProxyEvent, ProxyStatus, RewriteRule};
use crate::rules::SequenceCounters;

verus! {

/// Version of the control protocol spoken with the extension.
pub const PROTOCOL_VERSION: u16 = 1;

/// How many events the log keeps; older ones are dropped first.
pub const MAX_EVENTS: usize = 400;

/// Where the proxy listens.
#[derive(Debug, Clone, Copy)]
pub struct ProxyConfig {
    pub proxy_port: u16,
    pub control_port: u16,
}

/// Switches and status that change while the proxy runs.
#[derive(Debug)]
pub struct RuntimeFlags {
    pub interception_enabled: bool,
    pub cert_ready: bool,
    pub mitm_ready: bool,
    pub last_error: Option<String>,
}

/// The proxy's state.
#[derive(Debug)]
pub struct AppState {
    pub config: ProxyConfig,
    pub rules: Vec<RewriteRule>,
    pub sequence_counters: SequenceCounters,
    pub events: VecDeque<ProxyEvent>,
    pub flags: RuntimeFlags,
}

/// The status that a state reports.
pub open spec fn status_of(s: &AppState) -> ProxyStatus {
    ProxyStatus {
        interception_enabled: s.flags.interception_enabled,
        proxy_port: s.config.proxy_port,
        control_port: s.config.control_port,
        cert_ready: s.flags.cert_ready,
        mitm_ready: s.flags.mitm_ready,
        rule_count: s.rules.len(),
        recent_event_count: s.events@.len() as usize,
        last_error: s.flags.last_error,
    }
}

/// The log after recording `e`: the oldest entry goes when the log is full.
pub open spec fn log_after<T>(log: Seq<T>, e: T) -> Seq<T> {
    if log.len() >= MAX_EVENTS {
        log.subrange(1, log.len() as int).push(e)
    } else {
        log.push(e)
    }
}

impl AppState {
    /// A fresh state: no rules, counts or events; interception on, no
    /// certificate, no error.
    pub fn new(config: ProxyConfig) -> (r: AppState)
        ensures
            r.config == config,
            r.rules@.len() == 0,
            r.sequence_counters@ == Map::<Seq<char>, usize>::empty(),
            r.events@.len() == 0,
            r.flags.interception_enabled,
            !r.flags.cert_ready,
            !r.flags.mitm_ready,
            r.flags.last_error is None,
    {
        AppState {
            config,
            rules: Vec::new(),
            sequence_counters: SequenceCounters::new(),
            events: VecDeque::new(),
            flags: RuntimeFlags { interception_enabled: true, cert_ready: false, mitm_ready: false, last_error: None },
        }
    }

    /// Appends `event` to the log, dropping the oldest event when the log
    /// already holds `MAX_EVENTS`.
    pub fn record_event(&mut self, event: ProxyEvent)
        ensures
            final(self).events@ == log_after(old(self).events@, event),
            final(self).rules == old(self).rules,
            final(self).sequence_counters == old(self).sequence_counters,
            final(self).flags == old(self).flags,
            final(self).config == old(self).config,
    {
        if self.events.len() >= MAX_EVENTS {
            self.events.pop_front();
        }
        self.events.push_back(event);
    }

    /// Empties the log.
    pub fn clear_events(&mut self)
        ensures
            final(self).events@.len() == 0,
            final(self).rules == old(self).rules,
            final(self).sequence_counters == old(self).sequence_counters,
            final(self).flags == old(self).flags,
            final(self).config == old(self).config,
    {
        self.events.clear();
    }

    /// The current status.
    pub fn status_snapshot(&self) -> (r: ProxyStatus)
        ensures
            r.interception_enabled == self.flags.interception_enabled,
            r.proxy_port == self.config.proxy_port,
            r.control_port == self.config.control_port,
            r.cert_ready == self.flags.cert_ready,
            r.mitm_ready == self.flags.mitm_ready,
            r.rule_count == self.rules.len(),
            r.recent_event_count == self.events@.len(),
            opt_view(r.last_error) == opt_view(self.flags.last_error),
    {
        ProxyStatus {
            interception_enabled: self.flags.interception_enabled,
            proxy_port: self.config.proxy_port,
            control_port: self.config.control_port,
            cert_ready: self.flags.cert_ready,
            mitm_ready: self.flags.mitm_ready,
            rule_count: self.rules.len(),
            recent_event_count: self.events.len(),
            last_error: crate::models::copy_opt_string(&self.flags.last_error),
        }
    }

    /// Records `message` as the last error.
    pub fn set_last_error(&mut self, message: String)
        ensures
            final(self).flags.last_error == Some(message),
            final(self).flags.interception_enabled == old(self).flags.interception_enabled,
            final(self).flags.cert_ready == old(self).flags.cert_ready,
            final(self).flags.mitm_ready == old(self).flags.mitm_ready,
            final(self).rules == old(self).rules,
            final(self).sequence_counters == old(self).sequence_counters,
            final(self).events == old(self).events,
            final(self).config == old(self).config,
    {
        self.flags.last_error = Some(message);
    }
}

/// The event log never holds more than `MAX_EVENTS` events: recording keeps
/// a log within the bound within it, and keeps the newest event last.
pub proof fn lemma_log_bounded<T>(log: Seq<T>, e: T)
    requires
        log.len() <= MAX_EVENTS,
    ensures
        log_after(log, e).len() <= MAX_EVENTS,
        log_after(log, e).last() == e,
        log.len() < MAX_EVENTS ==> log_after(log, e) == log.push(e),
{
}

} // verus!
