use zellij_overview::face::{card_border, card_face, footer, Border, Piece, Tone};
use zellij_overview::floating_state::{previous_pane_was_floating, PaneRef};
use zellij_overview::grid::LayoutMode;
use zellij_overview::{Key, Overview, SessionFact, TabFact};

fn tab(id: usize, position: usize, name: &str, active: bool) -> TabFact {
    TabFact { id, position, name: name.to_string(), active }
}

fn board() -> Overview {
    let mut overview = Overview::new();
    overview.apply_tabs(vec![tab(1, 0, "ww", true), tab(2, 1, "feat/geo-db", false)]);
    overview
}

fn piece(text: &str, tone: Tone) -> Piece {
    Piece { text: text.to_string(), tone }
}

#[test]
fn framed_cards_show_marks_then_the_title() {
    let overview = board();
    assert_eq!(
        card_face(&overview, 0, LayoutMode::Framed),
        vec![piece("● ", Tone::Active), piece("ww", Tone::Text)]
    );
    assert_eq!(card_face(&overview, 1, LayoutMode::Framed), vec![piece("feat/geo-db", Tone::Text)]);
}

#[test]
fn unframed_cards_mark_the_cursor() {
    let overview = board();
    assert_eq!(
        card_face(&overview, 0, LayoutMode::Compact),
        vec![piece("› ", Tone::Cursor), piece("● ", Tone::Active), piece("ww", Tone::Text)]
    );
    assert_eq!(
        card_face(&overview, 1, LayoutMode::Scroll),
        vec![piece("  ", Tone::Text), piece("feat/geo-db", Tone::Text)]
    );
}

#[test]
fn flash_search_splits_the_title_around_the_match() {
    let mut overview = board();
    overview.decide(Key::StartHint);
    overview.decide(Key::Input('g'));
    let label = overview.hint_label(1).expect("a tip on the match").to_string();
    let mut expected = vec![piece("feat/", Tone::Text), piece(&label, Tone::Tip)];
    expected.push(piece("g", Tone::Match));
    expected.push(piece("eo-db", Tone::Text));
    assert_eq!(card_face(&overview, 1, LayoutMode::Framed), expected);
    assert_eq!(card_border(&overview, 1), Border::Match);
}

#[test]
fn borders_follow_selection() {
    let overview = board();
    assert_eq!(card_border(&overview, 0), Border::Cursor);
    assert_eq!(card_border(&overview, 1), Border::Plain);
}

#[test]
fn session_cards_show_their_tab_count() {
    let mut overview = Overview::new();
    overview.apply_sessions(vec![
        SessionFact { name: "ww".to_string(), current: true, tab_count: 4, tabs: vec![] },
        SessionFact { name: "lp".to_string(), current: false, tab_count: 12, tabs: vec![] },
    ]);
    let face = card_face(&overview, 1, LayoutMode::Framed);
    assert_eq!(face.first(), Some(&piece("◆ ", Tone::SessionMark)));
    assert!(face.contains(&piece("lp", Tone::Text)));
    assert_eq!(face.last(), Some(&piece("  12", Tone::Count)));
    assert_eq!(card_border(&overview, 1), Border::Session);
}

#[test]
fn footer_names_the_current_session_and_the_keys() {
    let mut overview = Overview::new();
    assert_eq!(
        footer(&overview),
        vec![piece("hjkl move   s search   e go   p pin   - prev   q close   ? help", Tone::Text)]
    );
    overview.apply_sessions(vec![SessionFact { name: "ww".to_string(), current: true, tab_count: 1, tabs: vec![] }]);
    let line = footer(&overview);
    assert_eq!(line[0], piece(" ww ", Tone::SessionBadge));
    assert_eq!(line[1], piece("  ", Tone::Text));
}

#[test]
fn footer_in_flash_search_shows_the_query() {
    let mut overview = board();
    overview.decide(Key::StartHint);
    overview.decide(Key::Input('g'));
    let line = footer(&overview);
    assert_eq!(line.len(), 5);
    assert_eq!(line[0], piece(" FLASH ", Tone::FlashBadge));
    assert_eq!(line[2], piece("  /g█", Tone::Query));
    assert_eq!(line[3], piece("  tip:", Tone::TipPrefix));
}

#[test]
fn footer_with_help_open_shows_how_to_close_it() {
    let mut overview = board();
    overview.decide(Key::ToggleHelp);
    assert_eq!(footer(&overview), vec![piece("? / q / Esc close help", Tone::Text)]);
}

#[test]
fn the_previous_pane_skips_the_overview_itself() {
    let own = PaneRef { is_plugin: true, id: 7 };
    let shell = PaneRef { is_plugin: false, id: 3 };
    let float = PaneRef { is_plugin: false, id: 5 };
    let panes = vec![(shell, false), (float, true), (own, true)];
    assert_eq!(previous_pane_was_floating(7, &vec![shell, float, own], &panes), Some(true));
    assert_eq!(previous_pane_was_floating(7, &vec![float, shell, own, own], &panes), Some(false));
    assert_eq!(previous_pane_was_floating(7, &vec![own], &panes), None);
    let gone = PaneRef { is_plugin: false, id: 9 };
    assert_eq!(previous_pane_was_floating(7, &vec![gone], &panes), None);
}

fn joined_text(pieces: &[Piece]) -> String {
    pieces.iter().map(|piece| piece.text.as_str()).collect()
}

#[test]
fn truncated_unicode_titles_end_with_an_ellipsis() {
    let pieces = zellij_overview::face::truncate_pieces(vec![piece("你好世界", Tone::Text)], 5);
    assert_eq!(joined_text(&pieces), "你好…");
}

#[test]
fn truncation_keeps_emoji_graphemes_intact() {
    let pieces = zellij_overview::face::truncate_pieces(vec![piece("👩\u{200d}💻xy", Tone::Text)], 3);
    assert_eq!(joined_text(&pieces), "👩\u{200d}💻…");
}

#[test]
fn fitting_pieces_stay_whole() {
    let pieces = vec![piece("› ", Tone::Cursor), piece("notes", Tone::Text)];
    assert_eq!(zellij_overview::face::truncate_pieces(pieces.clone(), 7), pieces);
    assert!(zellij_overview::face::truncate_pieces(pieces, 0).is_empty());
}

#[test]
fn the_ellipsis_takes_the_tone_of_the_cut_piece() {
    let pieces = vec![piece("› ", Tone::Cursor), piece("notebook", Tone::Match)];
    let cut = zellij_overview::face::truncate_pieces(pieces, 6);
    assert_eq!(cut, vec![piece("› ", Tone::Cursor), piece("not", Tone::Match), piece("…", Tone::Match)]);
}

#[test]
fn the_scrolling_column_marks_hidden_cards() {
    use_marks();
}

fn use_marks() {
    let mut overview = Overview::new();
    let tabs: Vec<TabFact> = (0..20).map(|p| tab(p + 1, p, &format!("tab-{p}"), p == 0)).collect();
    overview.apply_tabs(tabs);
    overview.set_viewport(6, 12);
    let plan = overview.current_layout_plan();
    assert_eq!(plan.mode, LayoutMode::Scroll);
    assert_eq!(zellij_overview::face::scroll_marks(&plan, overview.item_count()), (false, true));
    overview.decide(Key::Last);
    let plan = overview.current_layout_plan();
    assert_eq!(zellij_overview::face::scroll_marks(&plan, overview.item_count()), (true, false));
}

#[test]
fn the_previous_tab_card_is_marked() {
    let mut overview = board();
    overview.set_previous_tab_id(Some(2));
    assert_eq!(
        card_face(&overview, 1, LayoutMode::Framed),
        vec![piece("[-] ", Tone::Previous), piece("feat/geo-db", Tone::Text)]
    );
    assert!(!card_face(&overview, 0, LayoutMode::Framed).contains(&piece("[-] ", Tone::Previous)));
}

#[test]
fn session_cards_show_marks_and_counts_in_every_mode() {
    let mut overview = board();
    overview.apply_sessions(vec![
        SessionFact { name: "ww".to_string(), current: true, tab_count: 4, tabs: vec![] },
        SessionFact { name: "lp".to_string(), current: false, tab_count: 2, tabs: vec![] },
    ]);
    assert_eq!(
        card_face(&overview, 0, LayoutMode::Framed),
        vec![piece("◆ ", Tone::SessionMark), piece("● ", Tone::Active), piece("ww", Tone::Text), piece("  4", Tone::Count)]
    );
    assert_eq!(
        card_face(&overview, 1, LayoutMode::Compact),
        vec![piece("◆ ", Tone::SessionMark), piece("lp", Tone::Text), piece("  2", Tone::Count)]
    );
}

#[test]
fn the_scrolling_column_indents_tabs_but_not_sessions() {
    let mut overview = Overview::new();
    overview.apply_sessions(vec![SessionFact { name: "ww".to_string(), current: true, tab_count: 2, tabs: vec![] }]);
    overview.apply_tabs(vec![tab(1, 0, "tab-0", true), tab(2, 1, "tab-1", false)]);
    assert_eq!(card_face(&overview, 0, LayoutMode::Scroll)[0], piece("› ", Tone::Cursor));
    assert_eq!(
        card_face(&overview, 2, LayoutMode::Scroll),
        vec![piece("  ", Tone::Text), piece("tab-1", Tone::Text)]
    );
}

#[test]
fn a_pinned_previous_tab_shows_the_dash_without_its_session() {
    let mut overview = Overview::new();
    overview.apply_sessions(vec![SessionFact { name: "ww".to_string(), current: true, tab_count: 2, tabs: vec![] }]);
    overview.apply_tabs(vec![tab(1, 0, "notes", true), tab(2, 1, "logs", false)]);
    overview.apply_pins(vec![zellij_overview::Pin { session: "ww".to_string(), tab_name: "logs".to_string() }]);
    overview.set_previous_tab_id(Some(2));
    assert_eq!(overview.item_title(0), Some("logs"));
    assert_eq!(
        card_face(&overview, 0, LayoutMode::Framed),
        vec![piece("* ", Tone::PinMark), piece("[-] ", Tone::Previous), piece("logs", Tone::Text)]
    );
    assert_eq!(overview.item_pin_session(0), None);
}

#[test]
fn a_pin_of_another_session_names_its_session() {
    let mut overview = Overview::new();
    overview.apply_sessions(vec![
        SessionFact { name: "lp".to_string(), current: false, tab_count: 1, tabs: vec![tab(100, 0, "git", false)] },
        SessionFact { name: "ww".to_string(), current: true, tab_count: 1, tabs: vec![] },
    ]);
    overview.apply_tabs(vec![tab(1, 0, "notes", true)]);
    overview.apply_pins(vec![zellij_overview::Pin { session: "lp".to_string(), tab_name: "git".to_string() }]);
    assert_eq!(
        card_face(&overview, 0, LayoutMode::Framed),
        vec![piece("* ", Tone::PinMark), piece("git", Tone::Text), piece("  lp", Tone::PinSession)]
    );
    assert_eq!(card_border(&overview, 0), Border::Pin);
}

#[test]
fn no_matches_need_no_tip_letters() {
    assert!(zellij_overview::hints::labels_for(0, &vec![]).is_empty());
    assert_eq!(zellij_overview::hints::labels_for(3, &vec!['a', 's']), vec!["aa", "as", "sa"]);
}

#[test]
fn the_footer_takes_the_bottom_row_from_three_rows_on() {
    let (content, footer_row) = zellij_overview::face::screen_split(12, 80);
    assert_eq!(content, zellij_overview::grid::Rect::new(0, 0, 80, 11));
    assert_eq!(footer_row, Some(zellij_overview::grid::Rect::new(0, 11, 80, 1)));
    let (small, none) = zellij_overview::face::screen_split(2, 10);
    assert_eq!(small, zellij_overview::grid::Rect::new(0, 0, 10, 2));
    assert_eq!(none, None);
}

#[test]
fn a_card_face_sits_on_its_middle_row() {
    let framed = zellij_overview::grid::Rect::new(2, 3, 10, 3);
    assert_eq!(
        zellij_overview::face::card_text_area(framed, LayoutMode::Framed),
        zellij_overview::grid::Rect::new(3, 4, 8, 1)
    );
    let compact = zellij_overview::grid::Rect::new(2, 3, 10, 1);
    assert_eq!(
        zellij_overview::face::card_text_area(compact, LayoutMode::Compact),
        zellij_overview::grid::Rect::new(2, 3, 10, 1)
    );
    assert_eq!(zellij_overview::face::card_text_area(compact, LayoutMode::Scroll), compact);
}
