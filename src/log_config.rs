use vstd::prelude::*;

use crate::{log_default, log_on_disk};

verus! {

/// Which span events a logger reports: creation, entry, exit and closing.
#[derive(PartialEq, Eq, Structural, Debug, Clone, Copy)]
pub struct SpanEvents {
    pub new: bool,
    pub enter: bool,
    pub exit: bool,
    pub close: bool,
}

impl SpanEvents {
    /// No span events.
    pub fn none() -> (r: SpanEvents)
        ensures
            r == (SpanEvents { new: false, enter: false, exit: false, close: false }),
    {
        SpanEvents { new: false, enter: false, exit: false, close: false }
    }

    /// The events of either set.
    pub fn union(self, other: SpanEvents) -> (r: SpanEvents)
        ensures
            r == (SpanEvents {
                new: self.new || other.new,
                enter: self.enter || other.enter,
                exit: self.exit || other.exit,
                close: self.close || other.close,
            }),
    {
        SpanEvents {
            new: self.new || other.new,
            enter: self.enter || other.enter,
            exit: self.exit || other.exit,
            close: self.close || other.close,
        }
    }
}

impl Default for SpanEvents {
    fn default() -> (r: SpanEvents)
        ensures
            r == (SpanEvents { new: false, enter: false, exit: false, close: false }),
    {
        SpanEvents::none()
    }
}

/// Whether log output is colored: decided from the terminal, or forced on or off.
#[derive(PartialEq, Eq, Structural, Debug, Clone, Copy)]
pub enum Color {
    Auto,
    Enable,
    Disable,
}

impl Default for Color {
    fn default() -> (r: Color)
        ensures
            r == Color::Auto,
    {
        Color::Auto
    }
}

impl Color {
    /// Whether to color the output, given whether the terminal would show colors.
    pub fn to_bool(self, terminal_colors: bool) -> (r: bool)
        ensures
            r == match self {
                Color::Auto => terminal_colors,
                Color::Enable => true,
                Color::Disable => false,
            },
    {
        match self {
            Color::Auto => terminal_colors,
            Color::Enable => true,
            Color::Disable => false,
        }
    }
}

/// The settings of the default logger and of the on-disk logger.
#[derive(Clone, Debug, PartialEq, Eq)]
pub struct LoggerConfig {
    pub default: log_default::Config,
    pub on_disk: log_on_disk::Config,
}

/// Changes to a `LoggerConfig`; an absent entry leaves its setting alone.
#[derive(Clone, Debug, PartialEq, Eq)]
pub struct LoggerConfigDiff {
    pub default: log_default::ConfigDiff,
    pub on_disk: log_on_disk::ConfigDiff,
}

impl Default for LoggerConfig {
    fn default() -> (r: LoggerConfig)
        ensures
            log_default::is_default_config(r.default),
            log_on_disk::is_default_config(r.on_disk),
    {
        LoggerConfig { default: log_default::Config::default(), on_disk: log_on_disk::Config::default() }
    }
}

impl Default for LoggerConfigDiff {
    fn default() -> (r: LoggerConfigDiff)
        ensures
            log_default::is_empty_diff(r.default),
            log_on_disk::is_empty_diff(r.on_disk),
    {
        LoggerConfigDiff {
            default: log_default::ConfigDiff::default(),
            on_disk: log_on_disk::ConfigDiff::default(),
        }
    }
}

impl LoggerConfig {
    /// Takes the top-level `log_level` directive unless the logger's own level is
    /// set, which has priority. Returns whether both were set, so that the top-level
    /// one was ignored.
    pub fn with_top_level_directive(&mut self, log_level: Option<String>) -> (r: bool)
        ensures
            r == (old(self).default.log_level is Some && log_level is Some),
            final(self).default.log_level == (if old(self).default.log_level is Some {
                old(self).default.log_level
            } else {
                log_level
            }),
            final(self).default.span_events == old(self).default.span_events,
            final(self).default.color == old(self).default.color,
            final(self).on_disk == old(self).on_disk,
    {
        let both = self.default.log_level.is_some() && log_level.is_some();
        if self.default.log_level.is_none() {
            self.default.log_level = log_level;
        }
        both
    }

    /// Applies `diff` to both loggers' settings.
    pub fn update(&mut self, diff: LoggerConfigDiff)
        ensures
            final(self).default == log_default::updated(old(self).default, diff.default),
            final(self).on_disk == log_on_disk::updated(old(self).on_disk, diff.on_disk),
    {
        self.default.update(diff.default);
        self.on_disk.update(diff.on_disk);
    }
}

} // verus!
