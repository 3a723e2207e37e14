//! The launch key's toggle between instances.

use zellij_overview::toggle::{
    closes_the_board, duplicate_close_ids, panes_to_close, PaneEntry, TOGGLE_DEBOUNCE_MS,
};

#[test]
fn one_instance_closes_nothing() {
    assert!(duplicate_close_ids(3, &[3], 1_000, 1_100).is_empty());
}

#[test]
fn key_repeat_keeps_the_oldest() {
    let opened = 1_000;
    let now = opened + 80;
    assert!(now - opened < TOGGLE_DEBOUNCE_MS);
    assert_eq!(duplicate_close_ids(3, &[3, 9], opened, now), vec![9]);
    assert_eq!(duplicate_close_ids(9, &[3, 9], opened, now), vec![9]);
}

#[test]
fn later_press_closes_everyone() {
    let opened = 1_000;
    let now = opened + TOGGLE_DEBOUNCE_MS;
    assert_eq!(duplicate_close_ids(3, &[3, 9], opened, now), vec![3, 9]);
    assert_eq!(duplicate_close_ids(9, &[3, 9], opened, now), vec![9]);
}

#[test]
fn missing_clock_still_toggles() {
    assert_eq!(duplicate_close_ids(3, &[3, 9], 0, 0), vec![3, 9]);
}

#[test]
fn only_a_full_close_hides_the_float() {
    assert!(!closes_the_board(&[9], &[3, 9]));
    assert!(closes_the_board(&[3, 9], &[3, 9]));
}

fn plugin(id: u32, url: &str) -> PaneEntry {
    PaneEntry { is_plugin: true, id, plugin_url: Some(url.to_string()) }
}

fn terminal(id: u32) -> PaneEntry {
    PaneEntry { is_plugin: false, id, plugin_url: None }
}

#[test]
fn the_oldest_overview_closes_every_overview_pane() {
    let panes = vec![terminal(1), plugin(9, "file:overview"), plugin(4, "file:overview"), plugin(2, "file:other")];
    assert_eq!(panes_to_close(4, &panes), vec![1, 2]);
}

#[test]
fn a_newer_overview_closes_nothing() {
    let panes = vec![plugin(9, "file:overview"), plugin(4, "file:overview")];
    assert!(panes_to_close(9, &panes).is_empty());
}

#[test]
fn a_lone_overview_closes_nothing() {
    let panes = vec![terminal(4), plugin(4, "file:overview")];
    assert!(panes_to_close(4, &panes).is_empty());
}

#[test]
fn an_unlisted_overview_closes_nothing() {
    let panes = vec![plugin(9, "file:overview"), plugin(5, "file:overview")];
    assert!(panes_to_close(4, &panes).is_empty());
}

#[test]
fn the_clock_reads_after_the_epoch() {
    use_clock();
}

fn use_clock() {
    let first = zellij_overview::toggle::now_ms();
    assert!(first > 0);
    assert!(zellij_overview::toggle::now_ms() >= first);
}
