use qdrant_grouping::log_config::{Color, LoggerConfig, LoggerConfigDiff, SpanEvents};
use qdrant_grouping::log_helpers::{self, AutoTag, NoneTag, SpanEvent};
use qdrant_grouping::{log_default, log_on_disk};

fn new_and_close() -> SpanEvents {
    SpanEvents { new: true, enter: false, exit: false, close: true }
}

#[test]
fn default_logger_config() {
    let config = LoggerConfig::default();
    assert_eq!(config.default.log_level, None);
    assert_eq!(config.default.span_events, SpanEvents::none());
    assert_eq!(config.default.color, Color::Auto);
    assert!(!config.on_disk.enabled);
    assert_eq!(config.on_disk.log_file, "./qdrant.log");
    assert_eq!(config.on_disk.log_level, None);
}

#[test]
fn full_diff_replaces_every_setting() {
    let mut config = LoggerConfig::default();
    let diff = LoggerConfigDiff {
        default: log_default::ConfigDiff {
            log_level: Some(Some("debug".to_string())),
            span_events: Some(new_and_close()),
            color: Some(Color::Enable),
        },
        on_disk: log_on_disk::ConfigDiff {
            enabled: Some(true),
            log_file: Some("/logs/qdrant".to_string()),
            log_level: Some(Some("tracing".to_string())),
            span_events: Some(new_and_close()),
        },
    };
    config.update(diff);
    let expected = LoggerConfig {
        default: log_default::Config {
            log_level: Some("debug".to_string()),
            span_events: new_and_close(),
            color: Color::Enable,
        },
        on_disk: log_on_disk::Config {
            enabled: true,
            log_file: "/logs/qdrant".to_string(),
            log_level: Some("tracing".to_string()),
            span_events: new_and_close(),
        },
    };
    assert_eq!(config, expected);
}

#[test]
fn empty_diff_changes_nothing_and_explicit_null_clears() {
    let mut config = LoggerConfig::default();
    config.default.log_level = Some("warn".to_string());
    config.on_disk.log_level = Some("info".to_string());
    let before = config.clone();
    config.update(LoggerConfigDiff::default());
    assert_eq!(config, before);

    let mut diff = LoggerConfigDiff::default();
    diff.default.log_level = Some(None);
    diff.on_disk.log_level = Some(None);
    config.update(diff);
    assert_eq!(config.default.log_level, None);
    assert_eq!(config.on_disk.log_level, None);
    assert_eq!(config.on_disk.log_file, "./qdrant.log");
}

#[test]
fn logger_level_beats_top_level_directive() {
    let mut config = LoggerConfig::default();
    assert!(!config.with_top_level_directive(Some("info".to_string())));
    assert_eq!(config.default.log_level, Some("info".to_string()));
    assert!(config.with_top_level_directive(Some("trace".to_string())));
    assert_eq!(config.default.log_level, Some("info".to_string()));
    assert!(!config.with_top_level_directive(None));
    assert_eq!(config.default.log_level, Some("info".to_string()));
}

#[test]
fn color_choice() {
    assert!(Color::Enable.to_bool(false));
    assert!(!Color::Disable.to_bool(true));
    assert!(Color::Auto.to_bool(true));
    assert!(!Color::Auto.to_bool(false));
    assert_eq!(log_helpers::Color::from(Color::Auto), log_helpers::Color::Auto(AutoTag::Auto));
    assert_eq!(log_helpers::Color::from(Color::Disable), log_helpers::Color::Bool(false));
    assert_eq!(Color::from(log_helpers::Color::Bool(true)), Color::Enable);
    assert_eq!(Color::from(log_helpers::Color::Auto(AutoTag::Auto)), Color::Auto);
}

#[test]
fn span_events_as_a_list() {
    assert_eq!(SpanEvent::from_fmt_span(new_and_close()), vec![SpanEvent::New, SpanEvent::Close]);
    assert_eq!(SpanEvent::Exit.to_fmt_span(), SpanEvents { new: false, enter: false, exit: true, close: false });
    match log_helpers::SpanEvents::from_fmt_span(new_and_close()) {
        log_helpers::SpanEvents::List(v) => assert_eq!(v, vec![SpanEvent::New, SpanEvent::Close]),
        other => panic!("expected a list, got {other:?}"),
    }
    assert!(matches!(
        log_helpers::SpanEvents::from_fmt_span(SpanEvents::none()),
        log_helpers::SpanEvents::Empty(NoneTag::NoEvents)
    ));
    let listed = log_helpers::SpanEvents::List(vec![SpanEvent::Close, SpanEvent::Enter, SpanEvent::Close]);
    assert_eq!(listed.to_fmt_span(), SpanEvents { new: false, enter: true, exit: false, close: true });
    assert_eq!(log_helpers::SpanEvents::Null.to_fmt_span(), SpanEvents::none());
    let all = SpanEvents { new: true, enter: true, exit: true, close: true };
    assert_eq!(log_helpers::SpanEvents::from_fmt_span(all).to_fmt_span(), all);
}
