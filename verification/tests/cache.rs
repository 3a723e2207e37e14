use zellij_overview::cache::{
    landing_tab, parse_previous_jump, parse_session_last_tabs, session_last_tabs_text, write_previous_jump_text,
    PreviousJump,
};

#[test]
fn previous_jump_reads_session_and_tab() {
    let jump = parse_previous_jump("  ww  \n 3 \n").unwrap();
    assert_eq!(jump.session, "ww");
    assert_eq!(jump.tab_position, Some(3));
}

#[test]
fn previous_jump_without_a_tab_line() {
    let jump = parse_previous_jump("lp").unwrap();
    assert_eq!(jump.session, "lp");
    assert_eq!(jump.tab_position, None);
}

#[test]
fn previous_jump_with_a_bad_tab_keeps_the_session() {
    let jump = parse_previous_jump("lp\nthree").unwrap();
    assert_eq!(jump.session, "lp");
    assert_eq!(jump.tab_position, None);
}

#[test]
fn blank_previous_jump_is_no_jump() {
    assert!(parse_previous_jump("").is_none());
    assert!(parse_previous_jump("   \n2").is_none());
}

#[test]
fn previous_jump_text_round_trips() {
    let jump = PreviousJump {
        session: "ww".to_string(),
        tab_position: Some(12),
    };
    let text = write_previous_jump_text(&jump);
    assert_eq!(text, "ww\n12");
    assert_eq!(parse_previous_jump(&text), Some(jump));
    let bare = PreviousJump {
        session: "lp".to_string(),
        tab_position: None,
    };
    assert_eq!(write_previous_jump_text(&bare), "lp");
    assert_eq!(parse_previous_jump("lp"), Some(bare));
}

#[test]
fn session_last_tabs_read_pairs_and_stop_at_a_bad_number() {
    let entries = parse_session_last_tabs("ww\n2\n  \n4\nlp\n0\nops\nx\ndev\n1");
    assert_eq!(
        entries,
        vec![("ww".to_string(), 2), ("lp".to_string(), 0)]
    );
}

#[test]
fn session_last_tabs_read_nothing_from_an_empty_file() {
    assert!(parse_session_last_tabs("").is_empty());
}

#[test]
fn session_last_tabs_text_updates_in_place() {
    let entries = vec![("ww".to_string(), 2), ("lp".to_string(), 0)];
    assert_eq!(session_last_tabs_text(entries, "lp", 5), "ww\n2\nlp\n5");
}

#[test]
fn session_last_tabs_text_appends_a_new_session() {
    let entries = vec![("ww".to_string(), 2)];
    let text = session_last_tabs_text(entries, "ops", 7);
    assert_eq!(text, "ww\n2\nops\n7");
    assert_eq!(
        parse_session_last_tabs(&text),
        vec![("ww".to_string(), 2), ("ops".to_string(), 7)]
    );
}

#[test]
fn a_switch_lands_on_the_chosen_tab_first() {
    let jump = || Some(PreviousJump { session: "lp".to_string(), tab_position: Some(4) });
    assert_eq!(landing_tab(Some(1), "lp", jump()), Some(1));
    assert_eq!(landing_tab(None, "lp", jump()), Some(4));
    assert_eq!(landing_tab(None, "ops", jump()), None);
    assert_eq!(landing_tab(None, "lp", None), None);
}
