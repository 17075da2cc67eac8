use vstd::prelude::*;

use crate::log_config::{Color, SpanEvents};

verus! {

/// Settings of the default (terminal) logger.
#[derive(Clone, Debug, PartialEq, Eq)]
pub struct Config {
    pub log_level: Option<String>,
    pub span_events: SpanEvents,
    pub color: Color,
}

/// Changes to a `Config`. For `log_level`, `None` leaves it alone and
/// `Some(None)` clears it.
#[derive(Clone, Debug, PartialEq, Eq)]
pub struct ConfigDiff {
    pub log_level: Option<Option<String>>,
    pub span_events: Option<SpanEvents>,
    pub color: Option<Color>,
}

pub open spec fn is_default_config(c: Config) -> bool {
    &&& c.log_level is None
    &&& c.span_events == SpanEvents { new: false, enter: false, exit: false, close: false }
    &&& c.color == Color::Auto
}

pub open spec fn is_empty_diff(d: ConfigDiff) -> bool {
    d.log_level is None && d.span_events is None && d.color is None
}

/// `c` with each setting that `d` gives replaced.
pub open spec fn updated(c: Config, d: ConfigDiff) -> Config {
    Config {
        log_level: match d.log_level {
            Some(l) => l,
            None => c.log_level,
        },
        span_events: match d.span_events {
            Some(s) => s,
            None => c.span_events,
        },
        color: match d.color {
            Some(x) => x,
            None => c.color,
        },
    }
}

impl Default for Config {
    fn default() -> (r: Config)
        ensures
            is_default_config(r),
    {
        Config { log_level: None, span_events: SpanEvents::none(), color: Color::Auto }
    }
}

impl Default for ConfigDiff {
    fn default() -> (r: ConfigDiff)
        ensures
            is_empty_diff(r),
    {
        ConfigDiff { log_level: None, span_events: None, color: None }
    }
}

impl Config {
    /// Replaces each setting that `diff` gives.
    pub fn update(&mut self, diff: ConfigDiff)
        ensures
            *final(self) == updated(*old(self), diff),
    {
        if let Some(log_level) = diff.log_level {
            self.log_level = log_level;
        }
        if let Some(span_events) = diff.span_events {
            self.span_events = span_events;
        }
        if let Some(color) = diff.color {
            self.color = color;
        }
    }
}

} // verus!
