//! The board's laws, each on one concrete board.

use zellij_overview::grid::{LayoutPlan, Rect};
use zellij_overview::{Action, CachePrune, Key, Overview, Pin, SessionFact, TabFact};

fn tab(id: usize, position: usize, name: &str, active: bool) -> TabFact {
    TabFact { id, position, name: name.to_string(), active }
}

fn board(names: &[&str]) -> Overview {
    let mut overview = Overview::new();
    let tabs: Vec<TabFact> = names
        .iter()
        .enumerate()
        .map(|(position, name)| tab(position + 1, position, name, position == 0))
        .collect();
    overview.apply_tabs(tabs);
    overview.set_viewport(12, 80);
    overview
}

fn session(name: &str, current: bool, tabs: Vec<TabFact>) -> SessionFact {
    SessionFact { name: name.to_string(), current, tab_count: tabs.len(), tabs }
}

#[test]
fn help_swallows_other_keys() {
    let mut overview = board(&["a", "b", "c"]);
    overview.decide(Key::ToggleHelp);
    assert!(overview.is_help_visible());
    assert_eq!(overview.decide(Key::Right), Action::Noop);
    assert_eq!(overview.cursor(), 0);
    assert!(overview.is_help_visible());
    assert_eq!(overview.decide(Key::Dismiss), Action::Noop);
    assert!(!overview.is_help_visible());
}

#[test]
fn escape_steps_back_one_level() {
    let mut overview = board(&["alpha", "beta"]);
    overview.decide(Key::StartHint);
    assert!(overview.is_hinting());
    assert_eq!(overview.decide(Key::Dismiss), Action::Noop);
    assert!(!overview.is_hinting());
    assert_eq!(overview.decide(Key::Dismiss), Action::Dismiss);
}

#[test]
fn gg_and_g_reach_both_ends() {
    let mut overview = board(&["a", "b", "c", "d"]);
    overview.decide(Key::Last);
    assert_eq!(overview.cursor(), 3);
    overview.decide(Key::GoPrefix);
    overview.decide(Key::GoPrefix);
    assert_eq!(overview.cursor(), 0);
}

#[test]
fn steps_stop_at_both_ends() {
    let mut overview = board(&["a", "b", "c"]);
    overview.decide(Key::Left);
    assert_eq!(overview.cursor(), 0);
    overview.decide(Key::Last);
    overview.decide(Key::Right);
    assert_eq!(overview.cursor(), 2);
    let plan: LayoutPlan = overview.current_layout_plan();
    assert_eq!(plan.horizontal_neighbor(0, -1), 0);
    assert_eq!(plan.horizontal_neighbor(2, 1), 2);
}

#[test]
fn the_plan_lays_out_every_card() {
    let overview = board(&["a", "b", "c", "d", "e"]);
    let plan = overview.layout_plan(Rect::new(0, 0, 80, 11));
    assert_eq!(plan.tab_count, 5);
    assert_eq!(overview.item_count(), 5);
}

#[test]
fn page_keys_stay_on_the_board() {
    let mut overview = board(&["a", "b", "c"]);
    overview.decide(Key::PageDown);
    assert!(overview.cursor() < 3);
    overview.decide(Key::PageUp);
    assert!(overview.cursor() < 3);
    overview.decide(Key::HalfPageDown);
    assert!(overview.cursor() < 3);
}

#[test]
fn pruning_drops_dead_pins_and_is_idempotent() {
    let mut overview = Overview::new();
    overview.apply_sessions(vec![session("ww", true, vec![tab(1, 0, "notes", true)])]);
    overview.apply_tabs(vec![tab(1, 0, "notes", true)]);
    overview.apply_pins(vec![
        Pin { session: "ww".to_string(), tab_name: "notes".to_string() },
        Pin { session: "gone".to_string(), tab_name: "x".to_string() },
    ]);
    let first = overview.take_stale_cache();
    assert!(first.pins);
    assert_eq!(overview.pins().len(), 1);
    assert_eq!(overview.pins()[0].session, "ww");
    let second = overview.take_stale_cache();
    assert_eq!(second, CachePrune { pins: false, previous: false, session_last: false });
    assert_eq!(overview.pins().len(), 1);
}

#[test]
fn settling_keeps_the_cursor_on_a_card() {
    let mut overview = board(&["a", "b", "c", "d"]);
    overview.decide(Key::Last);
    overview.apply_tabs(vec![tab(1, 0, "a", true), tab(2, 1, "b", false)]);
    assert!(overview.cursor() < overview.item_count());
}

#[test]
fn dash_enters_the_left_session_then_jumps() {
    let mut overview = Overview::new();
    overview.apply_sessions(vec![
        session("ww", true, vec![tab(1, 0, "notes", true)]),
        session("lp", false, vec![tab(100, 0, "git", false), tab(101, 1, "feat", false)]),
    ]);
    overview.apply_tabs(vec![tab(1, 0, "notes", true)]);
    overview.set_previous_session_name(Some("lp".to_string()));
    overview.set_session_last_tab("lp".to_string(), 1);
    assert_eq!(overview.decide(Key::PreviousTab), Action::Noop);
    assert_eq!(overview.viewing_session(), Some("lp"));
    assert_eq!(
        overview.decide(Key::PreviousTab),
        Action::SwitchSession { name: "lp".to_string(), tab_position: Some(1) }
    );
}

#[test]
fn flash_ignores_a_character_that_matches_nothing() {
    let mut overview = board(&["notes", "logs"]);
    overview.decide(Key::StartHint);
    overview.decide(Key::Input('o'));
    assert_eq!(overview.hint_query(), "o");
    overview.decide(Key::Input('z'));
    assert_eq!(overview.hint_query(), "o");
}

#[test]
fn tabs_come_out_by_position() {
    let mut overview = Overview::new();
    overview.apply_tabs(vec![tab(3, 2, "c", false), tab(1, 0, "a", true), tab(2, 1, "b", false)]);
    let names: Vec<&str> = overview.tabs().iter().map(|t| t.name.as_str()).collect();
    assert_eq!(names, vec!["a", "b", "c"]);
}

#[test]
fn the_current_session_comes_first() {
    let mut overview = Overview::new();
    overview.apply_sessions(vec![
        session("lp", false, vec![]),
        session("ww", true, vec![]),
        session("ops", false, vec![]),
    ]);
    let names: Vec<&str> = overview.sessions().iter().map(|s| s.name.as_str()).collect();
    assert_eq!(names[0], "ww");
    assert_eq!(names.len(), 3);
}

#[test]
fn cards_in_a_row_share_one_height() {
    let overview = board(&["a", "a much longer title", "bb", "ccc", "dddd", "e", "ffff ffff", "g"]);
    let plan = overview.layout_plan(Rect::new(0, 0, 40, 11));
    assert!(!plan.cards.is_empty());
    let height = plan.cards[0].area.height;
    assert!(plan.cards.iter().all(|card| card.area.height == height));
}

#[test]
fn matching_cards_get_distinct_tips() {
    let mut overview = board(&["alpha", "alpine", "altitude", "beta"]);
    overview.decide(Key::StartHint);
    overview.decide(Key::Input('a'));
    overview.decide(Key::Input('l'));
    let tips: Vec<String> = (0..overview.item_count())
        .filter_map(|index| overview.hint_label(index).map(str::to_string))
        .collect();
    assert_eq!(tips.len(), 3);
    assert!(tips[0] != tips[1] && tips[1] != tips[2] && tips[0] != tips[2]);
    assert!(tips.iter().all(|tip| tip.len() == tips[0].len()));
}

#[test]
fn touching_the_current_session_keeps_the_others() {
    let mut overview = Overview::new();
    overview.apply_sessions(vec![
        session("ww", true, vec![]),
        session("lp", false, vec![tab(100, 0, "git", false)]),
    ]);
    overview.touch_current_session(session("ops", true, vec![tab(1, 0, "x", true)]));
    let sessions = overview.sessions();
    assert_eq!(sessions.len(), 3);
    assert_eq!(sessions[0].name, "ops");
    assert!(sessions[0].current);
    assert!(sessions.iter().any(|s| s.name == "lp" && !s.current && s.tabs.len() == 1));
    assert!(sessions.iter().any(|s| s.name == "ww" && !s.current));
}

#[test]
fn pins_come_before_sessions_and_tabs() {
    let mut overview = Overview::new();
    overview.apply_sessions(vec![session("ww", true, vec![tab(1, 0, "notes", true), tab(2, 1, "logs", false)])]);
    overview.apply_tabs(vec![tab(1, 0, "notes", true), tab(2, 1, "logs", false)]);
    overview.apply_pins(vec![Pin { session: "ww".to_string(), tab_name: "logs".to_string() }]);
    assert!(overview.item_is_pinned(0));
    assert!(overview.item_is_session(1));
    assert!(!overview.item_is_pinned(2) && !overview.item_is_session(2));
    assert_eq!(overview.item_title(2), Some("notes"));
}

#[test]
fn a_lone_current_session_update_only_refreshes_it() {
    let mut overview = Overview::new();
    overview.apply_sessions(vec![session("ww", true, vec![]), session("lp", false, vec![])]);
    assert!(overview.session_update(vec![session("ww", true, vec![tab(1, 0, "notes", true)])]));
    assert_eq!(overview.sessions().len(), 2);
    assert_eq!(overview.sessions()[0].tabs.len(), 1);
    assert!(!overview.session_update(vec![session("zz", false, vec![])]));
    assert_eq!(overview.sessions().len(), 2);
    assert!(overview.session_update(vec![session("a", true, vec![]), session("b", false, vec![])]));
    let names: Vec<&str> = overview.sessions().iter().map(|s| s.name.as_str()).collect();
    assert_eq!(names, vec!["a", "b"]);
}

#[test]
fn the_pin_file_keeps_up_with_the_board() {
    let mut host = zellij_overview::Host::new();
    host.apply_sessions(vec![session("ww", true, vec![tab(1, 0, "notes", true), tab(2, 1, "logs", false)])]);
    host.apply_tabs(vec![tab(1, 0, "notes", true), tab(2, 1, "logs", false)]);
    assert_eq!(host.pin("logs"), Ok(Action::PersistPins));
    assert_eq!(host.persisted_pins(), host.overview().pins());
    host.key(Key::Right);
    assert_eq!(host.persisted_pins(), host.overview().pins());
    host.apply_tabs(vec![tab(1, 0, "notes", true)]);
    assert!(host.persisted_pins().is_empty());
    assert_eq!(host.persisted_pins(), host.overview().pins());
}

#[test]
fn confirm_on_a_session_card_opens_its_board() {
    let mut overview = Overview::new();
    overview.apply_sessions(vec![session("ww", true, vec![]), session("lp", false, vec![tab(100, 0, "git", false)])]);
    overview.apply_tabs(vec![tab(1, 0, "notes", true)]);
    overview.set_cursor(1);
    assert_eq!(overview.item_title(1), Some("lp"));
    assert_eq!(overview.decide(Key::Confirm), Action::Noop);
    assert_eq!(overview.viewing_session(), Some("lp"));
    assert_eq!(overview.decide(Key::Confirm), Action::SwitchSession { name: "lp".to_string(), tab_position: Some(0) });
}

#[test]
fn p_twice_leaves_the_pins_as_they_were() {
    let mut overview = Overview::new();
    overview.apply_sessions(vec![session("ww", true, vec![tab(1, 0, "notes", true), tab(2, 1, "logs", false)])]);
    overview.apply_tabs(vec![tab(1, 0, "notes", true), tab(2, 1, "logs", false)]);
    overview.apply_pins(vec![Pin { session: "ww".to_string(), tab_name: "notes".to_string() }]);
    let before = overview.pins_copy();
    let logs = (0..overview.item_count()).find(|&i| overview.item_title(i) == Some("logs") && !overview.item_is_pinned(i)).unwrap();
    overview.set_cursor(logs);
    assert_eq!(overview.decide(Key::Pin), Action::PersistPins);
    assert_eq!(overview.pins().len(), 2);
    assert!(overview.item_is_pinned(overview.cursor()));
    assert_eq!(overview.item_title(overview.cursor()), Some("logs"));
    assert_eq!(overview.decide(Key::Pin), Action::PersistPins);
    assert_eq!(overview.pins_copy(), before);
}

#[test]
fn typing_a_whole_tip_opens_its_card() {
    let mut overview = board(&["notes", "feature/geo-db", "geo-logs"]);
    overview.decide(Key::StartHint);
    overview.decide(Key::Input('g'));
    let tip = overview.hint_label(2).expect("a tip").to_string();
    let mut action = Action::Noop;
    for ch in tip.chars() {
        action = overview.decide(Key::Input(ch));
    }
    assert_eq!(action, Action::Commit { tab_index: 2 });
}

#[test]
fn a_session_board_shows_only_that_session() {
    let mut overview = Overview::new();
    overview.apply_sessions(vec![
        session("ww", true, vec![tab(1, 0, "notes", true)]),
        session("lp", false, vec![tab(100, 0, "git", false), tab(101, 1, "feat", false)]),
    ]);
    overview.apply_tabs(vec![tab(1, 0, "notes", true)]);
    overview.apply_pins(vec![
        Pin { session: "ww".to_string(), tab_name: "notes".to_string() },
        Pin { session: "lp".to_string(), tab_name: "feat".to_string() },
    ]);
    let lp = (0..overview.item_count()).find(|&i| overview.item_is_session(i) && overview.item_title(i) == Some("lp")).unwrap();
    overview.set_cursor(lp);
    overview.decide(Key::Confirm);
    assert_eq!(overview.viewing_session(), Some("lp"));
    for index in 0..overview.item_count() {
        assert!(!overview.item_is_session(index));
        assert_eq!(overview.item_session_name(index), Some("lp"));
    }
    assert!(overview.item_is_pinned(0));
    assert_eq!(overview.item_title(0), Some("feat"));
}

#[test]
fn the_pin_count_counts_the_pin_cards() {
    let mut overview = Overview::new();
    overview.apply_sessions(vec![
        session("ww", true, vec![tab(1, 0, "notes", true), tab(2, 1, "logs", false)]),
        session("lp", false, vec![tab(100, 0, "lp-1", false)]),
    ]);
    overview.apply_tabs(vec![tab(1, 0, "notes", true), tab(2, 1, "logs", false)]);
    overview.apply_pins(vec![
        Pin { session: "lp".to_string(), tab_name: "lp-1".to_string() },
        Pin { session: "ww".to_string(), tab_name: "logs".to_string() },
    ]);
    assert_eq!(overview.pin_count(), 2);
    assert!(overview.pin_count() <= overview.pins().len());
    for index in 0..overview.item_count() {
        assert_eq!(overview.item_is_pinned(index), index < overview.pin_count());
    }
}

#[test]
fn pruning_keeps_the_live_pins_in_order() {
    let mut overview = Overview::new();
    overview.apply_sessions(vec![session("ww", true, vec![tab(1, 0, "notes", true), tab(2, 1, "logs", false)])]);
    overview.apply_tabs(vec![tab(1, 0, "notes", true), tab(2, 1, "logs", false)]);
    overview.set_previous_session_name(Some("gone".to_string()));
    overview.apply_pins(vec![
        Pin { session: "ww".to_string(), tab_name: "logs".to_string() },
        Pin { session: "gone".to_string(), tab_name: "x".to_string() },
        Pin { session: "ww".to_string(), tab_name: "notes".to_string() },
    ]);
    overview.prune_stale_cache();
    let kept: Vec<&str> = overview.pins().iter().map(|pin| pin.tab_name.as_str()).collect();
    assert_eq!(kept, vec!["logs", "notes"]);
    let taken = overview.take_stale_cache();
    assert!(taken.pins);
    assert!(taken.previous);
}

#[test]
fn tips_go_to_the_matches_and_avoid_letters_that_extend_the_query() {
    let mut overview = board(&["alpha", "alpine", "beta"]);
    overview.decide(Key::StartHint);
    overview.decide(Key::Input('a'));
    overview.decide(Key::Input('l'));
    assert!(overview.hint_label(0).is_some());
    assert!(overview.hint_label(1).is_some());
    assert!(overview.hint_label(2).is_none());
    for index in 0..2 {
        assert!(!overview.hint_label(index).unwrap().contains('p'));
    }
}

#[test]
fn the_home_board_lists_pins_then_sessions_then_tabs() {
    let mut overview = Overview::new();
    overview.apply_sessions(vec![
        session("ww", true, vec![tab(1, 0, "notes", true), tab(2, 1, "logs", false)]),
        session("lp", false, vec![tab(100, 0, "git", false)]),
    ]);
    overview.apply_tabs(vec![tab(1, 0, "notes", true), tab(2, 1, "logs", false)]);
    overview.apply_pins(vec![Pin { session: "ww".to_string(), tab_name: "logs".to_string() }]);
    let titles: Vec<&str> = (0..overview.item_count()).map(|index| overview.item_title(index).unwrap()).collect();
    assert_eq!(titles, vec!["logs", "ww", "lp", "notes"]);
}

#[test]
fn j_and_k_stay_on_the_board_and_do_not_wrap() {
    let mut overview = board(&["alpha", "beta", "gamma", "delta", "epsilon", "zeta", "eta", "theta"]);
    overview.set_viewport(20, 24);
    let count = overview.item_count();
    overview.decide(Key::Up);
    assert_eq!(overview.cursor(), 0);
    for _ in 0..(count + 2) {
        overview.decide(Key::Down);
        assert!(overview.cursor() < count);
    }
    overview.set_cursor(count - 1);
    overview.decide(Key::Down);
    assert_eq!(overview.cursor(), count - 1);
    for _ in 0..(count + 2) {
        overview.decide(Key::Up);
        assert!(overview.cursor() < count);
    }
    overview.decide(Key::GoPrefix);
    overview.decide(Key::GoPrefix);
    assert_eq!(overview.cursor(), 0);
}

#[test]
fn page_keys_and_g_do_not_wrap() {
    let mut overview = board(&["a", "b", "c", "d"]);
    overview.decide(Key::PageUp);
    assert_eq!(overview.cursor(), 0);
    overview.decide(Key::HalfPageUp);
    assert_eq!(overview.cursor(), 0);
    overview.set_cursor(3);
    overview.decide(Key::PageDown);
    assert_eq!(overview.cursor(), 3);
    overview.decide(Key::HalfPageDown);
    assert_eq!(overview.cursor(), 3);
    overview.decide(Key::Last);
    assert_eq!(overview.cursor(), 3);
    overview.decide(Key::Right);
    assert_eq!(overview.cursor(), 3);
}

#[test]
fn the_view_follows_the_cursor_down_the_column() {
    let names: Vec<String> = (0..12).map(|i| format!("tab-number-{i}")).collect();
    let refs: Vec<&str> = names.iter().map(String::as_str).collect();
    let mut overview = board(&refs);
    overview.set_viewport(5, 12);
    let count = overview.item_count();
    for _ in 0..count {
        overview.decide(Key::Down);
        let plan = overview.current_layout_plan();
        assert!(plan.first_visible <= overview.cursor());
        assert!(overview.cursor() < plan.first_visible + plan.visible_count);
    }
    for _ in 0..count {
        overview.decide(Key::Up);
        let plan = overview.current_layout_plan();
        assert!(plan.first_visible <= overview.cursor());
        assert!(overview.cursor() < plan.first_visible + plan.visible_count);
    }
    overview.set_viewport(4, 12);
    let plan = overview.current_layout_plan();
    assert!(plan.first_visible <= overview.cursor());
    assert!(overview.cursor() < plan.first_visible + plan.visible_count);
}

#[test]
fn tips_follow_the_tabs_while_flash_search_is_open() {
    let mut overview = board(&["alpha", "beta"]);
    overview.lengths_fit();
    overview.decide(Key::StartHint);
    overview.decide(Key::Input('l'));
    assert!(overview.hint_label(0).is_some());
    assert!(overview.hint_label(1).is_none());
    overview.apply_tabs(vec![tab(1, 0, "alpha", true), tab(2, 1, "beta", false), tab(3, 2, "lemon", false)]);
    let lemon = (0..overview.item_count()).find(|&i| overview.item_title(i) == Some("lemon")).unwrap();
    assert!(overview.hint_label(lemon).is_some());
    assert!(overview.hint_label(1).is_none());
}
