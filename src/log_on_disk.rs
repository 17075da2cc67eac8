use vstd::prelude::*;

use crate::log_config::SpanEvents;

verus! {

/// Settings of the logger that writes to a file.
#[derive(Clone, Debug, PartialEq, Eq)]
pub struct Config {
    pub enabled: bool,
    pub log_file: String,
    pub log_level: Option<String>,
    pub span_events: SpanEvents,
}

/// Changes to a `Config`. For `log_level`, `None` leaves it alone and
/// `Some(None)` clears it.
#[derive(Clone, Debug, PartialEq, Eq)]
pub struct ConfigDiff {
    pub enabled: Option<bool>,
    pub log_file: Option<String>,
    pub log_level: Option<Option<String>>,
    pub span_events: Option<SpanEvents>,
}

pub open spec fn is_default_config(c: Config) -> bool {
    &&& !c.enabled
    &&& c.log_file@ == "./qdrant.log"@
    &&& c.log_level is None
    &&& c.span_events == SpanEvents { new: false, enter: false, exit: false, close: false }
}

pub open spec fn is_empty_diff(d: ConfigDiff) -> bool {
    d.enabled is None && d.log_file is None && d.log_level is None && d.span_events is None
}

/// `c` with each setting that `d` gives replaced.
pub open spec fn updated(c: Config, d: ConfigDiff) -> Config {
    Config {
        enabled: match d.enabled {
            Some(e) => e,
            None => c.enabled,
        },
        log_file: match d.log_file {
            Some(f) => f,
            None => c.log_file,
        },
        log_level: match d.log_level {
            Some(l) => l,
            None => c.log_level,
        },
        span_events: match d.span_events {
            Some(s) => s,
            None => c.span_events,
        },
    }
}

impl Default for Config {
    fn default() -> (r: Config)
        ensures
            is_default_config(r),
    {
        let log_file = "./qdrant.log".to_owned();
        proof {
            reveal_strlit("./qdrant.log");
        }
        Config { enabled: false, log_file, log_level: None, span_events: SpanEvents::none() }
    }
}

impl Default for ConfigDiff {
    fn default() -> (r: ConfigDiff)
        ensures
            is_empty_diff(r),
    {
        ConfigDiff { enabled: None, log_file: None, log_level: None, span_events: None }
    }
}

impl Config {
    /// Replaces each setting that `diff` gives.
    pub fn update(&mut self, diff: ConfigDiff)
        ensures
            *final(self) == updated(*old(self), diff),
    {
        if let Some(enabled) = diff.enabled {
            self.enabled = enabled;
        }
        if let Some(log_file) = diff.log_file {
            self.log_file = log_file;
        }
        if let Some(log_level) = diff.log_level {
            self.log_level = log_level;
        }
        if let Some(span_events) = diff.span_events {
            self.span_events = span_events;
        }
    }
}

} // verus!
