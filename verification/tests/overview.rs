//! The board's behaviour, key by key.

use zellij_overview::{display_name, Action, Key, Overview, Pin, SessionFact, TabFact};

fn tab(id: usize, position: usize, name: &str, active: bool) -> TabFact {
    TabFact {
        id,
        position,
        name: name.to_owned(),
        active,
    }
}

fn session(name: &str, current: bool, tab_count: usize) -> SessionFact {
    SessionFact {
        name: name.to_owned(),
        current,
        tab_count,
        tabs: (0..tab_count)
            .map(|position| tab(100 + position, position, &format!("{name}-{position}"), false))
            .collect(),
    }
}

fn numbered_tabs(count: usize) -> Vec<TabFact> {
    (0..count)
        .map(|position| tab(position, position, &format!("tab-{position}"), position == 0))
        .collect()
}

fn pin(session: &str, tab_name: &str) -> Pin {
    Pin {
        session: session.to_owned(),
        tab_name: tab_name.to_owned(),
    }
}


#[test]
fn board_puts_sessions_before_tabs() {
    let mut overview = Overview::new();
    overview.apply_tabs(vec![tab(1, 0, "notes", true), tab(2, 1, "logs", false)]);
    overview.apply_sessions(vec![session("lp", false, 3), session("ww", true, 2)]);
    assert_eq!(overview.item_count(), 4);
    assert_eq!(overview.item_title(0), Some("ww"));
    assert_eq!(overview.item_title(1), Some("lp"));
    assert_eq!(overview.item_title(2), Some("notes"));
    assert_eq!(overview.item_title(3), Some("logs"));
    assert!(overview.item_is_session(0));
    assert!(!overview.item_is_session(2));
    overview.reset_cursor_to_active();
    assert_eq!(overview.cursor(), 2);
    assert_eq!(
        overview.decide(Key::Confirm),
        Action::Commit { tab_index: 0 }
    );
}

#[test]
fn confirm_on_a_session_card_opens_its_tabs() {
    let mut overview = Overview::new();
    overview.apply_tabs(vec![tab(1, 0, "notes", true)]);
    overview.apply_sessions(vec![session("lp", false, 3), session("ww", true, 1)]);
    overview.reset_cursor_to_active();
    overview.decide(Key::Left);
    assert_eq!(overview.decide(Key::Confirm), Action::Noop);
    assert_eq!(overview.viewing_session(), Some("lp"));
    assert_eq!(overview.item_count(), 3);
    assert_eq!(overview.item_title(0), Some("lp-0"));
    assert!(!overview.item_is_session(0));
    assert_eq!(
        overview.decide(Key::Confirm),
        Action::SwitchSession {
            name: "lp".into(),
            tab_position: Some(overview.cursor()),
        }
    );
}

#[test]
fn pin_moves_a_tab_to_the_front_and_does_not_pin_sessions() {
    let mut overview = Overview::new();
    overview.apply_sessions(vec![session("lp", false, 3), session("ww", true, 2)]);
    overview.apply_tabs(vec![tab(1, 0, "notes", true), tab(2, 1, "logs", false)]);
    overview.reset_cursor_to_active();
    assert_eq!(overview.item_title(overview.cursor()), Some("notes"));
    assert_eq!(overview.decide(Key::Pin), Action::PersistPins);
    assert_eq!(overview.item_title(0), Some("notes"));
    assert!(overview.item_is_pinned(0));
    assert_eq!(overview.item_title(1), Some("ww"));
    assert_eq!(overview.item_title(3), Some("logs"));
    assert_eq!(overview.item_count(), 4);
    overview.decide(Key::Down);
    assert_eq!(overview.decide(Key::Pin), Action::Noop);
    assert_eq!(overview.pins().len(), 1);
    overview.decide(Key::Up);
    assert_eq!(overview.decide(Key::Pin), Action::PersistPins);
    assert!(!overview.item_is_pinned(0));
    assert_eq!(overview.item_title(2), Some("notes"));
}

#[test]
fn pinned_foreign_tab_sits_first_and_jumps() {
    let mut overview = Overview::new();
    overview.apply_sessions(vec![session("lp", false, 3), session("ww", true, 1)]);
    overview.apply_tabs(vec![tab(1, 0, "notes", true)]);
    overview.apply_pins(vec![pin("lp", "lp-1")]);
    assert_eq!(overview.item_title(0), Some("lp-1"));
    assert!(overview.item_is_pinned(0));
    assert_eq!(overview.pin_count(), 1);
    assert_eq!(overview.item_pin_session(0), Some("lp"));
    assert_eq!(overview.item_title(1), Some("ww"));
    overview.decide(Key::GoPrefix);
    overview.decide(Key::GoPrefix);
    assert_eq!(
        overview.decide(Key::Confirm),
        Action::SwitchSession {
            name: "lp".into(),
            tab_position: Some(1),
        }
    );
}

#[test]
fn session_board_only_shows_its_own_pins() {
    let mut overview = Overview::new();
    overview.apply_sessions(vec![session("lp", false, 3), session("ww", true, 1)]);
    overview.apply_tabs(vec![tab(1, 0, "notes", true)]);
    overview.apply_pins(vec![pin("ww", "notes"), pin("lp", "lp-2")]);
    assert_eq!(overview.item_title(0), Some("notes"));
    overview.decide(Key::Last);
    overview.decide(Key::Confirm);
    assert_eq!(overview.viewing_session(), Some("lp"));
    assert_eq!(overview.item_title(0), Some("lp-2"));
    assert!(overview.item_is_pinned(0));
    assert_eq!(overview.item_title(1), Some("lp-0"));
    assert_ne!(overview.item_title(0), Some("notes"));
}

#[test]
fn current_session_pin_survives_a_partial_session_snapshot() {
    let mut overview = Overview::new();
    overview.apply_sessions(vec![SessionFact {
        name: "ww".into(),
        current: true,
        tab_count: 2,
        tabs: vec![tab(1, 0, "notes", true)],
    }]);
    overview.apply_pins(vec![pin("ww", "logs")]);
    assert_eq!(overview.pins().len(), 1);
    assert!(!overview.take_stale_cache().pins);
    overview.apply_tabs(vec![tab(1, 0, "notes", true), tab(2, 1, "logs", false)]);
    assert_eq!(overview.pins().len(), 1);
    assert!(overview.item_is_pinned(0));
}

#[test]
fn unmatched_pins_are_dropped() {
    let mut overview = Overview::new();
    overview.apply_sessions(vec![session("ww", true, 1)]);
    overview.apply_tabs(vec![tab(1, 0, "notes", true)]);
    overview.apply_pins(vec![pin("gone", "old")]);
    assert_eq!(overview.item_title(0), Some("ww"));
    assert!(!overview.item_is_pinned(0));
    assert!(overview.pins().is_empty());
    assert!(overview.take_stale_cache().pins);
}

#[test]
fn deleted_tab_drops_its_pin() {
    let mut overview = Overview::new();
    overview.apply_sessions(vec![session("ww", true, 2)]);
    overview.apply_tabs(vec![tab(1, 0, "notes", true), tab(2, 1, "logs", false)]);
    overview.apply_pins(vec![pin("ww", "logs")]);
    assert_eq!(overview.pins().len(), 1);
    overview.take_stale_cache();
    overview.apply_tabs(vec![tab(1, 0, "notes", true)]);
    assert!(overview.pins().is_empty());
    assert!(overview.take_stale_cache().pins);
}

#[test]
fn foreign_pin_stays_until_that_session_tabs_are_known() {
    let mut overview = Overview::new();
    overview.apply_sessions(vec![SessionFact {
        name: "lp".into(),
        current: false,
        tab_count: 3,
        tabs: vec![],
    }]);
    overview.apply_pins(vec![pin("lp", "lp-2")]);
    assert_eq!(overview.pins().len(), 1);
    overview.apply_sessions(vec![session("lp", false, 3)]);
    assert_eq!(overview.pins().len(), 1);
    overview.apply_sessions(vec![session("lp", false, 2)]);
    assert!(overview.pins().is_empty());
}

#[test]
fn foreign_pin_survives_a_short_tab_list_when_count_says_more() {
    let mut overview = Overview::new();
    overview.apply_sessions(vec![SessionFact {
        name: "lp".into(),
        current: false,
        tab_count: 3,
        tabs: vec![tab(100, 0, "lp-0", false)],
    }]);
    overview.apply_pins(vec![pin("lp", "lp-2")]);
    assert_eq!(overview.pins().len(), 1);
    assert!(!overview.take_stale_cache().pins);
}

#[test]
fn stale_previous_and_session_last_are_dropped() {
    let mut overview = Overview::new();
    overview.apply_sessions(vec![session("lp", false, 3), session("ww", true, 1)]);
    overview.apply_tabs(vec![tab(1, 0, "notes", true)]);
    overview.set_previous_session_name(Some("lp".into()));
    overview.set_session_last_tab("lp".into(), 2);
    overview.set_session_last_tab("gone".into(), 0);
    overview.prune_stale_cache();
    assert_eq!(overview.session_last_tabs().get("lp"), Some(&2));
    assert!(!overview.session_last_tabs().contains_key("gone"));
    overview.apply_sessions(vec![session("ww", true, 1)]);
    assert!(overview.take_stale_cache().previous);
    assert!(!overview.session_last_tabs().contains_key("lp"));
}

#[test]
fn apply_sessions_replaces_with_the_live_snapshot() {
    let mut overview = Overview::new();
    overview.apply_sessions(vec![session("t", false, 2), session("ww", true, 4)]);
    overview.apply_sessions(vec![session("ww", true, 5)]);
    assert_eq!(
        overview
            .sessions()
            .iter()
            .map(|session| session.name.as_str())
            .collect::<Vec<_>>(),
        vec!["ww"]
    );
    assert_eq!(overview.sessions()[0].tab_count, 5);
}

#[test]
fn touch_current_session_keeps_other_live_sessions() {
    let mut overview = Overview::new();
    overview.apply_sessions(vec![session("lp", false, 3), session("ww", true, 2)]);
    overview.touch_current_session(session("ww", true, 5));
    assert_eq!(
        overview
            .sessions()
            .iter()
            .map(|session| (session.name.as_str(), session.tab_count, session.current))
            .collect::<Vec<_>>(),
        vec![("ww", 5, true), ("lp", 3, false)]
    );
}

#[test]
fn current_session_board_uses_zellij_previous_tab() {
    let mut overview = Overview::new();
    overview.apply_sessions(vec![session("ww", true, 2)]);
    overview.apply_tabs(vec![tab(1, 0, "notes", true), tab(2, 1, "logs", false)]);
    overview.set_session_last_tab("ww".into(), 0);
    overview.set_previous_tab_id(Some(2));
    assert_eq!(overview.decide(Key::Confirm), Action::Noop);
    assert_eq!(overview.viewing_session(), Some("ww"));
    assert!(!overview.is_previous_item(0));
    assert!(overview.is_previous_item(1));
}

#[test]
fn dash_uses_the_previous_tab_after_a_same_session_jump() {
    let mut overview = Overview::new();
    overview.apply_sessions(vec![session("lp", false, 3), session("ww", true, 2)]);
    overview.apply_tabs(vec![tab(1, 0, "notes", true), tab(2, 1, "logs", false)]);
    overview.set_previous_session_name(Some("lp".into()));
    overview.set_previous_tab_id(Some(2));
    overview.set_previous_session_name(None);
    assert!(!overview.is_previous_item(1));
    assert!(overview.is_previous_item(3));
    assert_eq!(overview.decide(Key::PreviousTab), Action::PreviousTab);
}

#[test]
fn dash_always_goes_to_the_previous_tab() {
    let mut overview = Overview::new();
    overview.apply_sessions(vec![session("ww", true, 1)]);
    overview.apply_tabs(vec![tab(1, 0, "notes", true)]);
    overview.set_previous_tab_id(Some(1));
    assert!(!overview.is_previous_item(0));
    assert!(overview.is_previous_item(1));
    assert_eq!(overview.decide(Key::PreviousTab), Action::PreviousTab);
}

#[test]
fn pinned_previous_tab_keeps_the_dash_mark() {
    let mut overview = Overview::new();
    overview.apply_sessions(vec![session("ww", true, 2)]);
    overview.apply_tabs(vec![tab(1, 0, "notes", true), tab(2, 1, "logs", false)]);
    overview.apply_pins(vec![pin("ww", "logs")]);
    overview.set_previous_tab_id(Some(2));
    assert!(overview.item_is_pinned(0));
    assert!(overview.is_previous_item(0));
    assert!(!overview.is_previous_item(1));
    assert_eq!(overview.item_pin_session(0), None);
}

#[test]
fn dash_jumps_a_pinned_previous_session_tab() {
    let mut overview = Overview::new();
    overview.apply_sessions(vec![session("lp", false, 3), session("ww", true, 1)]);
    overview.apply_tabs(vec![tab(1, 0, "notes", true)]);
    overview.apply_pins(vec![pin("lp", "lp-2")]);
    overview.set_previous_session_name(Some("lp".into()));
    overview.set_session_last_tab("lp".into(), 2);
    assert_eq!(overview.item_title(0), Some("lp-2"));
    assert_eq!(overview.item_title(1), Some("ww"));
    assert_eq!(overview.item_title(2), Some("notes"));
    assert_eq!(overview.item_count(), 3);
    assert!(overview.is_previous_item(0));
    assert!(!overview.is_previous_item(1));
    assert_eq!(overview.item_pin_session(0), None);
    assert_eq!(
        overview.decide(Key::PreviousTab),
        Action::SwitchSession {
            name: "lp".into(),
            tab_position: Some(2),
        }
    );
}

#[test]
fn dash_returns_to_the_previous_session_after_a_jump() {
    let mut overview = Overview::new();
    overview.apply_sessions(vec![session("lp", false, 3), session("ww", true, 2)]);
    overview.apply_tabs(vec![tab(1, 0, "notes", true)]);
    overview.set_previous_session_name(Some("lp".into()));
    overview.set_previous_tab_id(Some(1));
    assert!(overview.is_previous_item(1));
    assert!(!overview.is_previous_item(0));
    assert!(!overview.is_previous_item(2));
    assert_eq!(overview.decide(Key::PreviousTab), Action::Noop);
    assert_eq!(overview.viewing_session(), Some("lp"));
    assert_eq!(overview.item_title(0), Some("lp-0"));
    overview.set_session_last_tab("lp".into(), 2);
    assert_eq!(
        overview.decide(Key::PreviousTab),
        Action::SwitchSession {
            name: "lp".into(),
            tab_position: Some(2),
        }
    );
}

#[test]
fn dash_on_a_session_board_jumps_that_session_last_tab() {
    let mut overview = Overview::new();
    overview.apply_sessions(vec![session("lp", false, 3), session("ww", true, 1)]);
    overview.apply_tabs(vec![tab(1, 0, "notes", true)]);
    overview.set_session_last_tab("lp".into(), 2);
    overview.reset_cursor_to_active();
    overview.decide(Key::Left);
    assert_eq!(overview.decide(Key::Confirm), Action::Noop);
    assert_eq!(overview.viewing_session(), Some("lp"));
    assert!(overview.is_previous_item(2));
    assert!(!overview.is_previous_item(0));
    assert_eq!(
        overview.decide(Key::PreviousTab),
        Action::SwitchSession {
            name: "lp".into(),
            tab_position: Some(2),
        }
    );
}

#[test]
fn dismiss_from_a_session_board_returns_home() {
    let mut overview = Overview::new();
    overview.apply_tabs(vec![tab(1, 0, "notes", true)]);
    overview.apply_sessions(vec![session("lp", false, 3), session("ww", true, 1)]);
    overview.reset_cursor_to_active();
    overview.decide(Key::Left);
    overview.decide(Key::Confirm);
    assert_eq!(overview.decide(Key::Dismiss), Action::Noop);
    assert_eq!(overview.viewing_session(), None);
    assert_eq!(overview.item_title(0), Some("ww"));
    assert_eq!(overview.decide(Key::Dismiss), Action::Dismiss);
}

#[test]
fn dismiss_closes_from_the_fused_board() {
    let mut overview = Overview::new();
    overview.apply_tabs(vec![tab(1, 0, "notes", true)]);
    overview.apply_sessions(vec![session("ww", true, 1)]);
    assert_eq!(overview.decide(Key::Dismiss), Action::Dismiss);
}


#[test]
fn flash_reveals_an_offscreen_match_without_moving_cursor() {
    let mut overview = Overview::new();
    overview.apply_tabs(
        (0..20)
            .map(|position| {
                let name = if position == 19 {
                    "zebra".to_owned()
                } else {
                    format!("tab-{position}")
                };
                tab(position, position, &name, position == 0)
            })
            .collect(),
    );
    overview.set_viewport(6, 12);
    overview.decide(Key::StartHint);
    // "t" matches tab-* and keeps flash open; unique "z" would jump.
    overview.decide(Key::Input('t'));
    let plan = overview.current_layout_plan();
    assert_eq!(overview.cursor(), 0);
    assert!(overview.is_hinting());
    assert!(plan.first_visible <= 19);
    assert!(overview.hint_label(0).is_some() || overview.hint_label(1).is_some());
}

#[test]
fn search_then_tip_commits_without_confirmation() {
    let mut overview = Overview::new();
    overview.apply_tabs(vec![
        tab(10, 0, "notes", true),
        tab(11, 1, "Feature/Geo-DB", false),
        tab(12, 2, "logs", false),
    ]);
    overview.decide(Key::StartHint);
    assert_eq!(overview.hint_label(0), None);
    // "o" matches notes and logs — tip still required.
    assert_eq!(overview.decide(Key::Input('o')), Action::Noop);
    assert_eq!(overview.hint_query(), "o");
    assert!(overview.hint_label(0).is_some());
    assert!(overview.hint_label(2).is_some());
    let label = overview.hint_label(0).unwrap().to_owned();
    assert_eq!(
        overview.decide(Key::Input(label.chars().next().unwrap())),
        Action::Commit { tab_index: 0 }
    );
}

#[test]
fn sole_search_match_commits_immediately() {
    let mut overview = Overview::new();
    overview.apply_tabs(vec![
        tab(10, 0, "notes", true),
        tab(11, 1, "Feature/Geo-DB", false),
    ]);
    overview.decide(Key::StartHint);
    assert_eq!(
        overview.decide(Key::Input('g')),
        Action::Commit { tab_index: 1 }
    );
}

#[test]
fn two_character_tips_narrow_then_commit() {
    let mut overview = Overview::new();
    overview.apply_tabs(numbered_tabs(52));
    overview.decide(Key::StartHint);
    assert_eq!(overview.decide(Key::Input('t')), Action::Noop);
    let label = overview.hint_label(27).unwrap().to_owned();
    assert_eq!(label.len(), 2);
    let mut chars = label.chars();
    assert_eq!(
        overview.decide(Key::Input(chars.next().unwrap())),
        Action::Noop
    );
    assert_eq!(
        overview.decide(Key::Input(chars.next().unwrap())),
        Action::Commit { tab_index: 27 }
    );
}

#[test]
fn invalid_search_key_keeps_current_query() {
    let mut overview = Overview::new();
    overview.apply_tabs((0..52).map(|i| tab(i, i, "tab", i == 0)).collect());
    overview.decide(Key::StartHint);
    overview.decide(Key::Input('t'));
    assert_eq!(overview.decide(Key::Input('!')), Action::Noop);
    assert_eq!(overview.hint_query(), "t");
}

#[test]
fn first_hint_character_builds_query_when_ambiguous() {
    let mut overview = Overview::new();
    overview.apply_tabs(vec![
        tab(0, 0, "shell", true),
        tab(1, 1, "share", false),
        tab(2, 2, "notes", false),
    ]);
    overview.decide(Key::StartHint);
    assert_eq!(overview.decide(Key::Input('h')), Action::Noop);
    assert_eq!(overview.hint_query(), "h");
    assert_eq!(overview.hint_match_range(0), Some((1, 1)));
    assert_eq!(overview.hint_match_range(1), Some((1, 1)));
}

#[test]
fn escape_cancels_hint_before_dismissing() {
    let mut overview = Overview::new();
    overview.apply_tabs(vec![tab(10, 0, "notes", true)]);
    overview.decide(Key::StartHint);
    assert_eq!(overview.decide(Key::Dismiss), Action::Noop);
    assert!(!overview.is_hinting());
    assert_eq!(overview.decide(Key::Dismiss), Action::Dismiss);
}

#[test]
fn flash_sole_session_match_opens_its_tabs() {
    let mut overview = Overview::new();
    overview.apply_tabs(vec![tab(1, 0, "notes", true)]);
    overview.apply_sessions(vec![session("geo", false, 3), session("notes", true, 1)]);
    overview.decide(Key::StartHint);
    assert_eq!(overview.decide(Key::Input('g')), Action::Noop);
    assert_eq!(overview.viewing_session(), Some("geo"));
    assert!(!overview.is_hinting());
    assert_eq!(overview.item_title(0), Some("geo-0"));
}

#[test]
fn flash_tip_on_ambiguous_session_opens_its_tabs() {
    let mut overview = Overview::new();
    overview.apply_tabs(vec![tab(1, 0, "notes", true)]);
    overview.apply_sessions(vec![
        session("geo", false, 3),
        session("gitea", false, 2),
        session("notes", true, 1),
    ]);
    overview.decide(Key::StartHint);
    assert_eq!(overview.decide(Key::Input('g')), Action::Noop);
    let label = overview.hint_label(1).unwrap().to_owned();
    assert_eq!(
        overview.decide(Key::Input(label.chars().next().unwrap())),
        Action::Noop
    );
    assert_eq!(overview.viewing_session(), Some("geo"));
    assert!(!overview.is_hinting());
    assert_eq!(overview.item_title(0), Some("geo-0"));
}


#[test]
fn enter_commits_cursor_tab() {
    let mut overview = Overview::new();
    overview.apply_tabs(vec![
        tab(10, 0, "ww", false),
        tab(11, 1, "feat/geo-db", true),
        tab(12, 2, "notes", false),
    ]);
    overview.reset_cursor_to_active();
    assert_eq!(overview.cursor(), 1);
    assert_eq!(
        overview.decide(Key::Confirm),
        Action::Commit { tab_index: 1 }
    );
}

#[test]
fn previous_tab_delegates_to_host_history() {
    let mut overview = Overview::new();
    overview.apply_tabs(vec![tab(10, 0, "ww", true)]);
    assert_eq!(overview.decide(Key::PreviousTab), Action::PreviousTab);
}

#[test]
fn previous_tab_is_identified_by_stable_tab_id() {
    let mut overview = Overview::new();
    overview.apply_tabs(vec![
        tab(10, 0, "current", true),
        tab(11, 1, "previous", false),
    ]);
    overview.set_previous_tab_id(Some(11));
    assert!(!overview.is_previous_tab(0));
    assert!(overview.is_previous_tab(1));
}

#[test]
fn help_overlay_is_closed_before_the_overview() {
    let mut overview = Overview::new();
    overview.apply_tabs(vec![tab(1, 0, "ww", true)]);
    assert_eq!(overview.decide(Key::ToggleHelp), Action::Noop);
    assert!(overview.is_help_visible());
    assert_eq!(overview.decide(Key::Dismiss), Action::Noop);
    assert!(!overview.is_help_visible());
    assert_eq!(overview.decide(Key::Dismiss), Action::Dismiss);
}

#[test]
fn esc_dismisses_without_commit() {
    let mut overview = Overview::new();
    overview.apply_tabs(vec![tab(1, 0, "ww", true)]);
    overview.decide(Key::Right);
    assert_eq!(overview.decide(Key::Dismiss), Action::Dismiss);
}

#[test]
fn cursor_follows_tab_id_after_reorder() {
    let mut overview = Overview::new();
    overview.apply_tabs(vec![tab(10, 0, "a", true), tab(11, 1, "b", false)]);
    overview.decide(Key::Right);
    assert_eq!(overview.tabs()[overview.cursor()].id, 11);
    overview.apply_tabs(vec![tab(11, 0, "b", false), tab(10, 1, "a", true)]);
    assert_eq!(overview.tabs()[overview.cursor()].id, 11);
    assert_eq!(overview.cursor(), 0);
}

#[test]
fn missing_cursor_tab_snaps_to_active() {
    let mut overview = Overview::new();
    overview.apply_tabs(vec![tab(10, 0, "a", false), tab(11, 1, "b", true)]);
    overview.decide(Key::Right);
    overview.apply_tabs(vec![tab(10, 0, "a", false)]);
    assert_eq!(overview.cursor(), 0);
}

#[test]
fn default_tab_name_is_preserved() {
    let tab = tab(1, 2, "Tab #3", true);
    assert_eq!(display_name(&tab), "Tab #3");
}


#[test]
fn opening_holds_compact_until_the_viewport_can_frame() {
    let mut overview = Overview::new();
    overview.apply_tabs(numbered_tabs(12));
    overview.set_viewport(7, 50);
    assert!(overview.should_hold_opening_paint(true));
    overview.set_viewport(12, 80);
    assert!(!overview.should_hold_opening_paint(true));
    overview.set_viewport(7, 50);
    assert!(!overview.should_hold_opening_paint(false));
}

#[test]
fn navigation_uses_the_rendered_responsive_grid() {
    let mut overview = Overview::new();
    overview.apply_tabs(numbered_tabs(8));
    overview.set_viewport(7, 96);
    overview.decide(Key::Down);
    assert_eq!(overview.cursor(), 1);
}

#[test]
fn scrolling_stops_at_both_ends_and_keeps_the_camera_on_the_cursor() {
    let mut overview = Overview::new();
    overview.apply_tabs(numbered_tabs(20));
    overview.set_viewport(6, 12);

    overview.decide(Key::Left);
    overview.decide(Key::Up);
    overview.decide(Key::HalfPageUp);
    assert_eq!(overview.cursor(), 0);
    assert_eq!(overview.current_layout_plan().first_visible, 0);

    overview.decide(Key::Last);
    overview.decide(Key::Right);
    overview.decide(Key::Down);
    overview.decide(Key::HalfPageDown);
    assert_eq!(overview.cursor(), 19);
    let plan = overview.current_layout_plan();
    assert!(overview.cursor() >= plan.first_visible);
    assert!(overview.cursor() < plan.visible_end());
}

#[test]
fn scrolling_keeps_the_moved_cursor_visible() {
    let mut overview = Overview::new();
    overview.apply_tabs(numbered_tabs(20));
    overview.set_viewport(6, 12);
    for _ in 0..5 {
        overview.decide(Key::Down);
    }
    let plan = overview.current_layout_plan();
    assert_eq!(overview.cursor(), 5);
    assert_eq!(plan.first_visible, 1);
    assert!(overview.cursor() < plan.visible_end());
}

#[test]
fn vim_page_keys_scroll_by_half_and_full_viewports() {
    let mut overview = Overview::new();
    overview.apply_tabs(numbered_tabs(20));
    overview.set_viewport(6, 12);
    overview.decide(Key::HalfPageDown);
    assert_eq!(overview.cursor(), 2);
    overview.decide(Key::PageDown);
    assert_eq!(overview.cursor(), 7);
    overview.decide(Key::HalfPageUp);
    assert_eq!(overview.cursor(), 5);
    overview.decide(Key::PageUp);
    assert_eq!(overview.cursor(), 0);
}

#[test]
fn vim_gg_and_uppercase_g_jump_to_the_ends() {
    let mut overview = Overview::new();
    overview.apply_tabs(numbered_tabs(20));
    overview.decide(Key::Last);
    assert_eq!(overview.cursor(), 19);
    overview.decide(Key::GoPrefix);
    overview.decide(Key::GoPrefix);
    assert_eq!(overview.cursor(), 0);
}

#[test]
fn vim_z_commands_align_the_cursor_in_the_scroll_viewport() {
    let mut overview = Overview::new();
    overview.apply_tabs(numbered_tabs(20));
    overview.set_viewport(6, 12);
    overview.decide(Key::PageDown);
    overview.decide(Key::PageDown);
    assert_eq!(overview.cursor(), 10);

    overview.decide(Key::ZPrefix);
    overview.decide(Key::AlignTop);
    assert_eq!(overview.current_layout_plan().first_visible, 10);

    overview.decide(Key::ZPrefix);
    overview.decide(Key::ZPrefix);
    assert_eq!(overview.current_layout_plan().first_visible, 8);

    overview.decide(Key::ZPrefix);
    overview.decide(Key::AlignBottom);
    assert_eq!(overview.current_layout_plan().first_visible, 6);
}
