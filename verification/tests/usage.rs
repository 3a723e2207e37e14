//! The usage log line and its cap.

use zellij_overview::{append_usage_log, Key, Usage, UsageEnd};

#[test]
fn records_flags_without_titles() {
    let mut usage = Usage::default();
    usage.note(Key::StartHint);
    usage.note(Key::Input('g'));
    usage.note_hjkl();
    usage.note(Key::Down);
    usage.note(Key::PreviousTab);
    usage.note_drill();
    let line = usage.encode(UsageEnd::Switch, true);
    assert_eq!(
        line,
        r#"{"keys":4,"flash":true,"hjkl":true,"dash":true,"drill":true,"cross":true,"end":"switch"}"#
    );
    assert!(!line.contains("lp"));
    assert!(!line.contains("ww"));
    assert!(!line.contains("name"));
    assert!(!line.contains("title"));
}

#[test]
fn append_drops_the_oldest_lines_when_capped() {
    let existing = "{\"keys\":1}\n{\"keys\":2}\n";
    let out = append_usage_log(existing, "{\"keys\":3}", 2);
    assert_eq!(out, "{\"keys\":2}\n{\"keys\":3}\n");
}

#[test]
fn a_quiet_opening_encodes_all_flags_off() {
    let usage = Usage::default();
    assert_eq!(
        usage.encode(UsageEnd::Dismiss, false),
        r#"{"keys":0,"flash":false,"hjkl":false,"dash":false,"drill":false,"cross":false,"end":"dismiss"}"#
    );
    assert!(usage.encode(UsageEnd::Toggle, false).ends_with(r#""end":"toggle"}"#));
    assert!(usage.encode(UsageEnd::Tab, false).ends_with(r#""end":"tab"}"#));
    assert!(usage.encode(UsageEnd::Prev, false).ends_with(r#""end":"prev"}"#));
}

#[test]
fn append_trims_lines_and_skips_blank_ones() {
    assert_eq!(append_usage_log("  a  \n\n b\n", " c ", 10), "a\nb\nc\n");
    assert_eq!(append_usage_log("a\n", "   ", 10), "a\n");
    assert_eq!(append_usage_log("", "x", 0), "");
}

#[test]
fn the_log_never_holds_more_than_the_cap() {
    let mut log = String::new();
    for n in 0..10 {
        log = append_usage_log(&log, &format!("{{\"keys\":{n}}}"), 4);
        assert!(log.lines().count() <= 4);
        assert_eq!(log.lines().last(), Some(format!("{{\"keys\":{n}}}").as_str()));
    }
}
