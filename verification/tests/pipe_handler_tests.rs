use zellij_tab_status::pipe_handler::{handle_rename, handle_status, PaneTabMap, PipeEffect};

fn make_map(entries: &[(u32, usize, &str)]) -> PaneTabMap {
    entries
        .iter()
        .map(|&(pane_id, tab_pos, name)| (pane_id, (tab_pos, name.to_string())))
        .collect()
}

fn payload(json: &str) -> Option<String> {
    Some(json.to_string())
}

// ==================== handle_status: set_status ====================

#[test]
fn set_status_renames_tab_with_emoji_prefix() {
    let mut map = make_map(&[(1, 0, "Work")]);
    let effects = handle_status(
        &mut map,
        &payload(r#"{"pane_id":"1","action":"set_status","emoji":"🤖"}"#),
        "tab-status",
    );
    assert_eq!(
        effects,
        vec![PipeEffect::RenameTab {
            tab_id: 1,
            name: "🤖 Work".into()
        }]
    );
}

#[test]
fn set_status_updates_cache() {
    let mut map = make_map(&[(1, 0, "Work")]);
    handle_status(
        &mut map,
        &payload(r#"{"pane_id":"1","action":"set_status","emoji":"✅"}"#),
        "tab-status",
    );
    assert_eq!(map.get(&1).unwrap().1, "✅ Work");
}

#[test]
fn set_status_replaces_existing_status() {
    let mut map = make_map(&[(1, 0, "🤖 Work")]);
    let effects = handle_status(
        &mut map,
        &payload(r#"{"pane_id":"1","action":"set_status","emoji":"✅"}"#),
        "tab-status",
    );
    assert_eq!(
        effects,
        vec![PipeEffect::RenameTab {
            tab_id: 1,
            name: "✅ Work".into()
        }]
    );
}

#[test]
fn set_status_empty_emoji_returns_no_effects() {
    let mut map = make_map(&[(1, 0, "Work")]);
    let effects = handle_status(
        &mut map,
        &payload(r#"{"pane_id":"1","action":"set_status","emoji":""}"#),
        "tab-status",
    );
    assert_eq!(effects, vec![]);
}

// ==================== handle_status: clear_status ====================

#[test]
fn clear_status_removes_emoji_prefix() {
    let mut map = make_map(&[(1, 0, "🤖 Work")]);
    let effects = handle_status(
        &mut map,
        &payload(r#"{"pane_id":"1","action":"clear_status"}"#),
        "tab-status",
    );
    assert_eq!(
        effects,
        vec![PipeEffect::RenameTab {
            tab_id: 1,
            name: "Work".into()
        }]
    );
}

#[test]
fn clear_status_updates_cache() {
    let mut map = make_map(&[(1, 0, "🤖 Work")]);
    handle_status(
        &mut map,
        &payload(r#"{"pane_id":"1","action":"clear_status"}"#),
        "tab-status",
    );
    assert_eq!(map.get(&1).unwrap().1, "Work");
}

#[test]
fn clear_status_on_plain_name_still_renames() {
    let mut map = make_map(&[(1, 0, "Work")]);
    let effects = handle_status(
        &mut map,
        &payload(r#"{"pane_id":"1","action":"clear_status"}"#),
        "tab-status",
    );
    assert_eq!(
        effects,
        vec![PipeEffect::RenameTab {
            tab_id: 1,
            name: "Work".into()
        }]
    );
}

// ==================== handle_status: get_status ====================

#[test]
fn get_status_returns_pipe_output_with_emoji() {
    let mut map = make_map(&[(1, 0, "🤖 Work")]);
    let effects = handle_status(
        &mut map,
        &payload(r#"{"pane_id":"1","action":"get_status"}"#),
        "tab-status",
    );
    assert_eq!(
        effects,
        vec![PipeEffect::PipeOutput {
            pipe_name: "tab-status".into(),
            output: "🤖".into()
        }]
    );
}

#[test]
fn get_status_returns_empty_when_no_status() {
    let mut map = make_map(&[(1, 0, "Work")]);
    let effects = handle_status(
        &mut map,
        &payload(r#"{"pane_id":"1","action":"get_status"}"#),
        "tab-status",
    );
    assert_eq!(
        effects,
        vec![PipeEffect::PipeOutput {
            pipe_name: "tab-status".into(),
            output: "".into()
        }]
    );
}

// ==================== handle_status: get_name ====================

#[test]
fn get_name_returns_base_name() {
    let mut map = make_map(&[(1, 0, "🤖 Work")]);
    let effects = handle_status(
        &mut map,
        &payload(r#"{"pane_id":"1","action":"get_name"}"#),
        "tab-status",
    );
    assert_eq!(
        effects,
        vec![PipeEffect::PipeOutput {
            pipe_name: "tab-status".into(),
            output: "Work".into()
        }]
    );
}

// ==================== handle_status: error paths ====================

#[test]
fn missing_payload_returns_no_effects() {
    let mut map = make_map(&[(1, 0, "Work")]);
    let effects = handle_status(&mut map, &None, "tab-status");
    assert_eq!(effects, vec![]);
}

#[test]
fn invalid_json_returns_no_effects() {
    let mut map = make_map(&[(1, 0, "Work")]);
    let effects = handle_status(&mut map, &payload("not json"), "tab-status");
    assert_eq!(effects, vec![]);
}

#[test]
fn unknown_pane_returns_no_effects() {
    let mut map = make_map(&[(1, 0, "Work")]);
    let effects = handle_status(
        &mut map,
        &payload(r#"{"pane_id":"999","action":"set_status","emoji":"🤖"}"#),
        "tab-status",
    );
    assert_eq!(effects, vec![]);
}

#[test]
fn invalid_pane_id_returns_no_effects() {
    let mut map = make_map(&[(1, 0, "Work")]);
    let effects = handle_status(
        &mut map,
        &payload(r#"{"pane_id":"abc","action":"set_status","emoji":"🤖"}"#),
        "tab-status",
    );
    assert_eq!(effects, vec![]);
}

#[test]
fn unknown_action_returns_no_effects() {
    let mut map = make_map(&[(1, 0, "Work")]);
    let effects = handle_status(
        &mut map,
        &payload(r#"{"pane_id":"1","action":"destroy"}"#),
        "tab-status",
    );
    assert_eq!(effects, vec![]);
}

// ==================== handle_rename ====================

#[test]
fn rename_returns_rename_effect() {
    let mut map = make_map(&[(1, 0, "Work")]);
    let effects = handle_rename(&mut map, &payload(r#"{"pane_id":"1","name":"New Name"}"#));
    assert_eq!(
        effects,
        vec![PipeEffect::RenameTab {
            tab_id: 1,
            name: "New Name".into()
        }]
    );
}

#[test]
fn rename_updates_cache() {
    let mut map = make_map(&[(1, 0, "Work")]);
    handle_rename(&mut map, &payload(r#"{"pane_id":"1","name":"New Name"}"#));
    assert_eq!(map.get(&1).unwrap().1, "New Name");
}

#[test]
fn rename_missing_payload_returns_no_effects() {
    let mut map = make_map(&[(1, 0, "Work")]);
    let effects = handle_rename(&mut map, &None);
    assert_eq!(effects, vec![]);
}

#[test]
fn rename_invalid_json_returns_no_effects() {
    let mut map = make_map(&[(1, 0, "Work")]);
    let effects = handle_rename(&mut map, &payload("{bad}"));
    assert_eq!(effects, vec![]);
}

#[test]
fn rename_unknown_pane_returns_no_effects() {
    let mut map = make_map(&[(1, 0, "Work")]);
    let effects = handle_rename(&mut map, &payload(r#"{"pane_id":"999","name":"New"}"#));
    assert_eq!(effects, vec![]);
}

#[test]
fn rename_invalid_pane_id_returns_no_effects() {
    let mut map = make_map(&[(1, 0, "Work")]);
    let effects = handle_rename(&mut map, &payload(r#"{"pane_id":"abc","name":"New"}"#));
    assert_eq!(effects, vec![]);
}

// ==================== tab_id calculation ====================

#[test]
fn tab_id_is_one_indexed() {
    let mut map = make_map(&[(5, 2, "Tab3")]);
    let effects = handle_status(
        &mut map,
        &payload(r#"{"pane_id":"5","action":"set_status","emoji":"🔥"}"#),
        "tab-status",
    );
    assert_eq!(
        effects,
        vec![PipeEffect::RenameTab {
            tab_id: 3, // position 2 + 1
            name: "🔥 Tab3".into()
        }]
    );
}

#[test]
fn rename_tab_id_is_one_indexed() {
    let mut map = make_map(&[(5, 3, "Tab4")]);
    let effects = handle_rename(&mut map, &payload(r#"{"pane_id":"5","name":"Renamed"}"#));
    assert_eq!(
        effects,
        vec![PipeEffect::RenameTab {
            tab_id: 4, // position 3 + 1
            name: "Renamed".into()
        }]
    );
}

// ==================== pipe_name passthrough ====================

#[test]
fn pipe_output_uses_provided_pipe_name() {
    let mut map = make_map(&[(1, 0, "🤖 Work")]);
    let effects = handle_status(
        &mut map,
        &payload(r#"{"pane_id":"1","action":"get_status"}"#),
        "custom-pipe-name",
    );
    assert_eq!(
        effects,
        vec![PipeEffect::PipeOutput {
            pipe_name: "custom-pipe-name".into(),
            output: "🤖".into()
        }]
    );
}

// ==================== cache immutability ====================

#[test]
fn get_status_does_not_mutate_cache() {
    let mut map = make_map(&[(1, 0, "🤖 Work")]);
    handle_status(
        &mut map,
        &payload(r#"{"pane_id":"1","action":"get_status"}"#),
        "tab-status",
    );
    assert_eq!(map.get(&1).unwrap().1, "🤖 Work");
}

#[test]
fn get_name_does_not_mutate_cache() {
    let mut map = make_map(&[(1, 0, "🤖 Work")]);
    handle_status(
        &mut map,
        &payload(r#"{"pane_id":"1","action":"get_name"}"#),
        "tab-status",
    );
    assert_eq!(map.get(&1).unwrap().1, "🤖 Work");
}

#[test]
fn error_paths_do_not_mutate_cache() {
    let mut map = make_map(&[(1, 0, "Work")]);
    let original = map.clone();

    handle_status(
        &mut map,
        &payload(r#"{"pane_id":"abc","action":"set_status","emoji":"🤖"}"#),
        "tab-status",
    );
    assert_eq!(map, original, "cache must not change on invalid pane_id");

    handle_status(
        &mut map,
        &payload(r#"{"pane_id":"1","action":"destroy"}"#),
        "tab-status",
    );
    assert_eq!(map, original, "cache must not change on unknown action");
}

// ==================== additional edge cases ====================

#[test]
fn set_status_missing_emoji_field_returns_no_effects() {
    let mut map = make_map(&[(1, 0, "Work")]);
    let effects = handle_status(
        &mut map,
        &payload(r#"{"pane_id":"1","action":"set_status"}"#),
        "tab-status",
    );
    assert_eq!(effects, vec![]);
}

#[test]
fn get_name_returns_full_name_when_no_status() {
    let mut map = make_map(&[(1, 0, "Work")]);
    let effects = handle_status(
        &mut map,
        &payload(r#"{"pane_id":"1","action":"get_name"}"#),
        "tab-status",
    );
    assert_eq!(
        effects,
        vec![PipeEffect::PipeOutput {
            pipe_name: "tab-status".into(),
            output: "Work".into()
        }]
    );
}
