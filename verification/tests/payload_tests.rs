use zellij_tab_status::pipe_handler::{handle_status, PaneTabMap, PipeEffect};

fn map_one() -> PaneTabMap {
    [(1u32, (0usize, "Work".to_string()))].into()
}

fn run(payload: &str) -> Vec<PipeEffect> {
    let mut map = map_one();
    handle_status(&mut map, &Some(payload.to_string()), "tab-status")
}

#[test]
fn payload_accepts_whitespace_between_tokens() {
    let effects = run(" { \"pane_id\" : \"1\" , \"action\" : \"get_name\" } ");
    assert_eq!(
        effects,
        vec![PipeEffect::PipeOutput {
            pipe_name: "tab-status".into(),
            output: "Work".into()
        }]
    );
}

#[test]
fn payload_accepts_escape_sequences() {
    let mut map: PaneTabMap = [(1u32, (0usize, "Work".to_string()))].into();
    let effects = handle_status(
        &mut map,
        &Some(r#"{"pane_id":"1","action":"set_status","emoji":"\u{0021}"}"#.to_string()),
        "tab-status",
    );
    // unicode escapes are not part of the payload grammar
    assert_eq!(effects, vec![]);
    let effects = handle_status(
        &mut map,
        &Some("{\"pane_id\":\"1\",\"action\":\"set_status\",\"emoji\":\"\\\\\"}".to_string()),
        "tab-status",
    );
    assert_eq!(
        effects,
        vec![PipeEffect::RenameTab {
            tab_id: 1,
            name: "\\ Work".into()
        }]
    );
}

#[test]
fn payload_rejects_duplicate_known_field() {
    let effects = run(r#"{"pane_id":"1","pane_id":"2","action":"get_name"}"#);
    assert_eq!(effects, vec![]);
}

#[test]
fn payload_ignores_unknown_fields() {
    let effects = run(r#"{"pane_id":"1","action":"get_name","extra":"x"}"#);
    assert_eq!(
        effects,
        vec![PipeEffect::PipeOutput {
            pipe_name: "tab-status".into(),
            output: "Work".into()
        }]
    );
}

#[test]
fn payload_rejects_missing_required_field() {
    assert_eq!(run(r#"{"action":"get_name"}"#), vec![]);
    assert_eq!(run(r#"{"pane_id":"1"}"#), vec![]);
}

#[test]
fn payload_rejects_trailing_garbage() {
    assert_eq!(run(r#"{"pane_id":"1","action":"get_name"} x"#), vec![]);
    assert_eq!(run(r#"{"pane_id":"1","action":"get_name"}}"#), vec![]);
}

#[test]
fn payload_rejects_non_object() {
    assert_eq!(run("[]"), vec![]);
    assert_eq!(run("\"pane_id\""), vec![]);
    assert_eq!(run("{"), vec![]);
    assert_eq!(run(""), vec![]);
}

#[test]
fn payload_rejects_trailing_comma() {
    assert_eq!(run(r#"{"pane_id":"1","action":"get_name",}"#), vec![]);
}

#[test]
fn empty_object_is_well_formed_but_incomplete() {
    assert_eq!(run("{}"), vec![]);
}
