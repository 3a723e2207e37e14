//! The card layout: framed, compact or scrolling, with separator bands.

use zellij_overview::grid::{LayoutMode, LayoutPlan, Rect, FRAMED_CARD_HEIGHT};
use zellij_overview::{Overview, TabFact};

fn rect(width: u16, height: u16) -> Rect {
    Rect::new(0, 0, width, height)
}

#[test]
fn pins_wrap_above_a_separator_band() {
    let plan = LayoutPlan::calculate_with_pins(&[8, 8, 8, 8], rect(40, 10), 0, 2);
    assert_eq!(plan.mode, LayoutMode::Framed);
    let last_pin = plan.cards.iter().find(|card| card.index == 1).unwrap();
    let first_rest = plan.cards.iter().find(|card| card.index == 2).unwrap();
    assert!(last_pin.area.y + last_pin.area.height < first_rest.area.y);
    assert_eq!(
        plan.separators,
        vec![last_pin.area.y + last_pin.area.height]
    );
}

#[test]
fn sessions_and_tabs_get_a_second_separator_band() {
    let plan = LayoutPlan::calculate_with_bands(&[8, 8, 8, 8], rect(50, 14), 0, &[1, 3]);
    assert_eq!(plan.mode, LayoutMode::Framed);
    assert_eq!(plan.separators.len(), 2);
    let pin = plan.cards.iter().find(|card| card.index == 0).unwrap();
    let session = plan.cards.iter().find(|card| card.index == 1).unwrap();
    let tab = plan.cards.iter().find(|card| card.index == 3).unwrap();
    assert!(pin.area.y + pin.area.height < session.area.y);
    assert!(session.area.y + session.area.height < tab.area.y);
    assert_eq!(plan.separators[0], pin.area.y + pin.area.height);
    assert_eq!(plan.separators[1], session.area.y + session.area.height);
}

#[test]
fn framed_cards_follow_title_widths() {
    let plan = LayoutPlan::calculate(&[4, 18, 7], rect(50, 6), 0);
    assert_eq!(plan.mode, LayoutMode::Framed);
    assert!(plan.cards[0].area.width < plan.cards[1].area.width);
    assert!(plan.cards[2].area.width < plan.cards[1].area.width);
    assert!(plan
        .cards
        .iter()
        .all(|card| card.area.height == FRAMED_CARD_HEIGHT as u16));
}

#[test]
fn flow_wraps_in_tab_order() {
    let plan = LayoutPlan::calculate(&[8, 14, 8, 14], rect(30, 7), 0);
    assert_eq!(plan.mode, LayoutMode::Framed);
    assert_eq!(plan.total_rows, 2);
    assert_eq!(plan.cards[0].row, 0);
    assert_eq!(plan.cards[1].row, 0);
    assert_eq!(plan.cards[2].row, 1);
}

#[test]
fn medium_viewport_drops_frames() {
    let plan = LayoutPlan::calculate(&[8; 12], rect(30, 4), 0);
    assert_eq!(plan.mode, LayoutMode::Compact);
    assert_eq!(plan.visible_count, 12);
}

#[test]
fn tiny_viewport_scrolls_a_readable_single_column() {
    let plan = LayoutPlan::calculate(&[12; 20], rect(12, 4), 7);
    assert_eq!(plan.mode, LayoutMode::Scroll);
    assert_eq!(plan.first_visible, 7);
    assert_eq!(plan.visible_count, 4);
    assert_eq!(plan.cards[0].index, 7);
    assert_eq!(plan.cards[3].index, 10);
    assert_eq!(plan.cards[0].area.width, 11);
}

#[test]
fn title_wider_than_viewport_uses_scroll_without_clipping_a_frame() {
    let plan = LayoutPlan::calculate(&[30], rect(12, 20), 0);
    assert_eq!(plan.mode, LayoutMode::Scroll);
    assert_eq!(plan.cards[0].area.width, 12);
}

#[test]
fn vertical_navigation_uses_nearest_horizontal_center() {
    let plan = LayoutPlan::calculate(&[6, 18, 6, 12], rect(36, 7), 0);
    assert_eq!(plan.total_rows, 2);
    assert_eq!(plan.vertical_neighbor(1, 1), 3);
    assert_eq!(plan.vertical_neighbor(2, -1), 0);
}

#[test]
fn neighbors_stop_at_both_ends() {
    let plan = LayoutPlan::calculate(&[12; 20], rect(12, 4), 0);
    assert_eq!(plan.mode, LayoutMode::Scroll);
    assert_eq!(plan.horizontal_neighbor(0, -1), 0);
    assert_eq!(plan.vertical_neighbor(0, -1), 0);
    assert_eq!(plan.horizontal_neighbor(19, 1), 19);
    assert_eq!(plan.vertical_neighbor(19, 1), 19);

    let flow = LayoutPlan::calculate(&[6, 18, 6, 12], rect(30, 7), 0);
    assert_eq!(flow.total_rows, 2);
    assert_eq!(flow.vertical_neighbor(1, -1), 1);
    assert_eq!(flow.vertical_neighbor(3, 1), 3);
    assert_eq!(flow.horizontal_neighbor(0, -1), 0);
    assert_eq!(flow.horizontal_neighbor(3, 1), 3);
}

#[test]
fn card_rows_have_identical_dimensions() {
    let mut overview = Overview::new();
    overview.apply_tabs(
        (0..20)
            .map(|position| TabFact {
                id: position,
                position,
                name: format!("tab-{position}"),
                active: position == 0,
            })
            .collect(),
    );
    let plan = overview.layout_plan(Rect::new(0, 0, 81, 19));
    assert_eq!(plan.cards.len(), 20);
    assert!(plan
        .cards
        .iter()
        .all(|card| card.area.height == plan.cards[0].area.height));
    assert!(plan
        .cards
        .iter()
        .any(|card| card.area.width != plan.cards[0].area.width));
}
