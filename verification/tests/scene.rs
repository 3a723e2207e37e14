use zellij_overview::{Action, Host, SceneError, SceneRunner, SceneStep};

/// Runs every line; screen lines hand back the text to look for.
fn run(source: &str) -> Result<(Host, Vec<String>), SceneError> {
    let mut runner = SceneRunner::new();
    let mut needles = Vec::new();
    for (index, raw) in source.lines().enumerate() {
        match runner.step(raw, index + 1)? {
            SceneStep::Next => {}
            SceneStep::Screen { rows, cols, needle } => {
                assert!(rows > 0 && cols > 0);
                needles.push(needle);
            }
        }
    }
    Ok((runner.finish()?, needles))
}

fn failure(source: &str) -> SceneError {
    match run(source) {
        Ok(_) => panic!("scene passed"),
        Err(err) => err,
    }
}

#[test]
fn scene_pins_a_tab_and_checks_the_pin_file() {
    let source = "\
# open on ww with a second session
session ww current notes logs
session lp git feat
tabs notes* logs
pin logs
expect
pins ww/logs
action persist-pins
";
    let (host, _) = run(source).unwrap();
    assert_eq!(host.persisted_pins().len(), 1);
    assert_eq!(host.persisted_pins()[0].session, "ww");
    assert_eq!(host.persisted_pins()[0].tab_name, "logs");
    assert_eq!(host.last_action(), &Action::PersistPins);
}

#[test]
fn scene_focus_then_jump_commits_the_tab() {
    let source = "\
tabs notes* logs build
focus build
focused build
jump
action commit 2
";
    let (host, _) = run(source).unwrap();
    assert_eq!(host.focused_title(), Some("build"));
    assert_eq!(host.last_action(), &Action::Commit { tab_index: 2 });
}

#[test]
fn scene_screen_lines_hand_back_the_words() {
    let source = "\
size 10 40
tabs notes* logs
screen notes  logs
";
    let (_, needles) = run(source).unwrap();
    assert_eq!(needles, vec!["notes logs".to_string()]);
}

#[test]
fn scene_titles_follow_tab_positions() {
    let source = "\
tabs alpha* beta gamma
titles alpha,beta,gamma
";
    assert!(run(source).is_ok());
}

#[test]
fn scene_reports_an_unknown_verb_with_its_line() {
    let err = failure("tabs a*\n\nfrobnicate now\n");
    assert_eq!(err.line, 3);
    assert_eq!(err.message, "unknown frobnicate");
}

#[test]
fn scene_reports_a_wrong_title_list() {
    let err = failure("tabs a* b\ntitles b,a\n");
    assert_eq!(err.line, 2);
    assert!(err.message.starts_with("titles "));
}

#[test]
fn scene_reports_a_missing_tab_to_pin() {
    let err = failure("tabs a* b\npin zzz\n");
    assert_eq!(err.line, 2);
    assert_eq!(err.message, "no tab zzz");
}

#[test]
fn scene_reports_a_missing_card_to_focus() {
    let err = failure("tabs a* b\nfocus nope\n");
    assert_eq!(err.message, "no card nope");
}

#[test]
fn scene_needs_a_number_for_size() {
    let err = failure("size twelve 40\n");
    assert_eq!(err.line, 1);
    assert_eq!(err.message, "need rows");
}

#[test]
fn scene_needs_names_for_tabs() {
    let err = failure("tabs\n");
    assert_eq!(err.message, "tabs needs at least one name");
}

#[test]
fn scene_rejects_an_unknown_key() {
    let err = failure("tabs a*\nkey warp\n");
    assert_eq!(err.message, "unknown key warp");
}

#[test]
fn scene_key_input_needs_a_character() {
    let err = failure("tabs a*\nkey s\nkey input\n");
    assert_eq!(err.line, 3);
    assert_eq!(err.message, "key input needs a character");
}

#[test]
fn scene_previous_session_needs_a_name() {
    let err = failure("previous-session\n");
    assert_eq!(err.message, "previous-session needs a name");
}

#[test]
fn scene_action_checks_the_last_action() {
    assert!(run("tabs a* b\nkey q\naction dismiss\n").is_ok());
    let err = failure("tabs a* b\nkey q\naction none\n");
    assert_eq!(err.line, 3);
    assert!(err.message.starts_with("action "));
}

#[test]
fn scene_viewing_defaults_to_home() {
    assert!(run("tabs a*\nviewing none\n").is_ok());
    let err = failure("tabs a*\nviewing ops\n");
    assert!(err.message.starts_with("viewing "));
}

#[test]
fn scene_session_tokens_set_ids_and_counts() {
    let source = "\
session ww current count=5 id=7:notes* logs
session lp
";
    let (host, _) = run(source).unwrap();
    let sessions = host.overview().sessions();
    assert_eq!(sessions.len(), 2);
    assert_eq!(sessions[0].name, "ww");
    assert!(sessions[0].current);
    assert_eq!(sessions[0].tab_count, 5);
    assert_eq!(sessions[0].tabs[0].id, 7);
    assert_eq!(sessions[0].tabs[0].name, "notes");
    assert!(sessions[0].tabs[0].active);
    assert_eq!(sessions[0].tabs[1].id, 101);
}

#[test]
fn scene_pin_messages_show_pins_as_debug_text() {
    let err = failure("session ww current notes logs\ntabs notes* logs\npin logs\npins none\n");
    assert_eq!(err.line, 4);
    assert_eq!(err.message, "pins [Pin { session: \"ww\", tab_name: \"logs\" }] != []");
}

#[test]
fn scene_action_messages_name_the_empty_action_none() {
    let err = failure("tabs a* b\naction dismiss\n");
    assert_eq!(err.message, "action None != Dismiss");
}

#[test]
fn scene_titles_are_escaped_like_debug_text() {
    let err = failure("tabs a\"b*\ntitles x\n");
    assert_eq!(err.message, "titles [\"a\\\"b\"] != [\"x\"]");
}

#[test]
fn pinning_with_no_current_session_does_nothing() {
    let mut host = Host::new();
    host.apply_tabs(vec![zellij_overview::TabFact { id: 1, position: 0, name: "logs".to_string(), active: true }]);
    assert_eq!(host.pin("logs"), Err("pin logs did nothing".to_string()));
    assert!(host.persisted_pins().is_empty());
}
