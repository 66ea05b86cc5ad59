use zellij_tab_status::digits::{parse_u32_dec, u32_to_dec};
use zellij_tab_status::dispatcher::{
    parse_probe_marker, probe_marker, Dispatcher, HostCommand, PaneRef, Phase, NOT_READY_OUTPUT,
};

fn rename(tab_index: u32, name: &str) -> HostCommand {
    HostCommand::RenameTab {
        tab_index,
        name: name.to_string(),
    }
}

fn output(pipe_name: &str, text: &str) -> HostCommand {
    HostCommand::PipeOutput {
        pipe_name: pipe_name.to_string(),
        output: text.to_string(),
    }
}

fn names(list: &[&str]) -> Vec<String> {
    list.iter().map(|s| s.to_string()).collect()
}

fn pane(id: u32) -> PaneRef {
    PaneRef {
        id,
        is_plugin: false,
    }
}

/// Drive a fresh coordinator through a full probe over the given tabs,
/// confirming candidate k at position k-1.
fn ready_dispatcher(tabs: &[&str]) -> Dispatcher {
    let mut d = Dispatcher::new();
    let mut cmds = d.on_tab_update(names(tabs));
    for k in 1..=tabs.len() as u32 {
        assert_eq!(
            cmds[0],
            rename(k, &format!("\u{235F}{}", k)),
            "probe {} should be issued",
            k
        );
        assert_eq!(cmds[1], HostCommand::SetTimeout);
        // the marker appears at position k-1
        let mut snapshot = names(tabs);
        snapshot[(k - 1) as usize] = format!("\u{235F}{}", k);
        let restore = d.on_tab_update(snapshot);
        assert_eq!(restore, vec![rename(k, tabs[(k - 1) as usize])]);
        // the restore is confirmed by a clean snapshot
        cmds = d.on_tab_update(names(tabs));
    }
    assert!(matches!(d.phase, Phase::Ready));
    d
}

// ==================== probing scenarios ====================

#[test]
fn cold_start_probe_discovers_identity_table() {
    let d = ready_dispatcher(&["Work", "Deploy"]);
    assert_eq!(d.tab_indices, vec![1, 2]);
    assert_eq!(d.next_tab_index, 3);
}

#[test]
fn first_snapshot_seeds_temporary_identity_table() {
    let mut d = Dispatcher::new();
    let cmds = d.on_tab_update(names(&["Work", "Deploy"]));
    assert_eq!(d.tab_indices, vec![1, 2]);
    assert!(matches!(d.phase, Phase::Probing(_)));
    assert_eq!(cmds, vec![rename(1, "\u{235F}1"), HostCommand::SetTimeout]);
}

#[test]
fn probe_discovers_offset_indices() {
    // Candidates 1 and 2 are gaps; tabs actually sit at indices 3 and 4.
    let mut d = Dispatcher::new();
    let _ = d.on_tab_update(names(&["A", "B"]));
    // timeout on candidate 1 -> probe 2; timeout on 2 -> probe 3
    assert_eq!(d.on_timer(), vec![rename(2, "\u{235F}2"), HostCommand::SetTimeout]);
    assert_eq!(d.on_timer(), vec![rename(3, "\u{235F}3"), HostCommand::SetTimeout]);
    // marker 3 appears at position 0
    let cmds = d.on_tab_update(names(&["\u{235F}3", "B"]));
    assert_eq!(cmds, vec![rename(3, "A")]);
    // restore confirmed -> probe 4
    let cmds = d.on_tab_update(names(&["A", "B"]));
    assert_eq!(cmds, vec![rename(4, "\u{235F}4"), HostCommand::SetTimeout]);
    // marker 4 at position 1
    let cmds = d.on_tab_update(names(&["A", "\u{235F}4"]));
    assert_eq!(cmds, vec![rename(4, "B")]);
    // restore confirmed, everything found -> table installed
    let _ = d.on_tab_update(names(&["A", "B"]));
    assert!(matches!(d.phase, Phase::Ready));
    assert_eq!(d.tab_indices, vec![3, 4]);
    assert_eq!(d.next_tab_index, 5);
}

#[test]
fn timeout_advances_candidate() {
    let mut d = Dispatcher::new();
    let _ = d.on_tab_update(names(&["Work"]));
    let cmds = d.on_timer();
    assert_eq!(cmds, vec![rename(2, "\u{235F}2"), HostCommand::SetTimeout]);
}

#[test]
fn probing_exhaustion_falls_back_to_identity() {
    let mut d = Dispatcher::new();
    let _ = d.on_tab_update(names(&["Work"]));
    // one tab: the candidate range is 1..=3; the fourth timeout gives up
    let _ = d.on_timer();
    let _ = d.on_timer();
    let cmds = d.on_timer();
    assert!(cmds.is_empty());
    assert!(matches!(d.phase, Phase::Ready));
    assert_eq!(d.tab_indices, vec![1]);
    assert_eq!(d.next_tab_index, 2);
}

#[test]
fn race_markers_for_two_candidates_in_one_snapshot() {
    let mut d = Dispatcher::new();
    let _ = d.on_tab_update(names(&["A", "B", "C"]));
    // candidate 1 confirmed at position 0 and restored
    let _ = d.on_tab_update(names(&["\u{235F}1", "B", "C"]));
    let cmds = d.on_tab_update(names(&["A", "B", "C"]));
    assert_eq!(cmds, vec![rename(2, "\u{235F}2"), HostCommand::SetTimeout]);
    // markers for candidates 2 and 3 arrive in a single snapshot
    let cmds = d.on_tab_update(names(&["A", "\u{235F}2", "\u{235F}3"]));
    assert_eq!(cmds, vec![rename(2, "B"), rename(3, "C")]);
    match &d.phase {
        Phase::Probing(st) => {
            assert_eq!(st.found, vec![(0, 1), (1, 2), (2, 3)]);
            assert_eq!(st.remaining, 0);
        }
        Phase::Ready => panic!("probe should still be in flight"),
    }
    // a duplicate snapshot with the same markers is not double-counted,
    // though the restores are reissued
    let cmds = d.on_tab_update(names(&["A", "\u{235F}2", "\u{235F}3"]));
    assert_eq!(cmds, vec![rename(3, "C")]);
    match &d.phase {
        Phase::Probing(st) => {
            assert_eq!(st.found, vec![(0, 1), (1, 2), (2, 3)]);
            assert_eq!(st.remaining, 0);
        }
        Phase::Ready => panic!("probe should still be in flight"),
    }
    // once no marker is visible the table is finalized
    let _ = d.on_tab_update(names(&["A", "B", "C"]));
    assert!(matches!(d.phase, Phase::Ready));
    assert_eq!(d.tab_indices, vec![1, 2, 3]);
}

#[test]
fn structural_change_keeps_anchored_index() {
    let mut d = Dispatcher::new();
    d.tabs = names(&["A", "B", "C"]);
    d.tab_indices = vec![1, 2, 3];
    d.next_tab_index = 4;
    d.panes = vec![vec![], vec![pane(10)], vec![]];
    d.pane_tab_index.insert(10, 2);
    // the tab at position 0 closes: two positions remain, and the pane
    // that sat at position 1 now sits at position 0
    d.panes = vec![vec![pane(10)], vec![]];
    let _ = d.on_tab_update(names(&["B", "C"]));
    assert_eq!(d.tab_indices, vec![2, 4]);
    assert_eq!(d.next_tab_index, 5);
}

#[test]
fn fresh_index_is_never_a_live_one() {
    let mut d = Dispatcher::new();
    d.tabs = names(&["A", "B"]);
    d.tab_indices = vec![5, 9];
    d.next_tab_index = 10;
    d.panes = vec![vec![pane(1)], vec![pane(2)]];
    d.pane_tab_index.insert(1, 5);
    d.pane_tab_index.insert(2, 9);
    // a third tab opens at the end
    d.panes = vec![vec![pane(1)], vec![pane(2)], vec![pane(3)]];
    let _ = d.on_tab_update(names(&["A", "B", "New"]));
    assert_eq!(d.tab_indices, vec![5, 9, 10]);
    assert_eq!(d.next_tab_index, 11);
}

#[test]
fn leaked_marker_is_restored_after_ready() {
    let mut d = ready_dispatcher(&["Work"]);
    // a delayed marker echo arrives after probing completed
    let cmds = d.on_tab_update(names(&["\u{235F}1"]));
    assert_eq!(cmds, vec![rename(1, "Work")]);
}

// ==================== mutation queue ====================

#[test]
fn unknown_pane_mutation_is_queued_and_flushed() {
    let mut d = ready_dispatcher(&["Work"]);
    let cmds = d.on_pipe(
        &Some(r#"{"pane_id":"7","action":"set_status","emoji":"🔥"}"#.to_string()),
        "tab-status",
    );
    assert_eq!(cmds, vec![output("tab-status", NOT_READY_OUTPUT)]);
    assert_eq!(d.queued_mutations.len(), 1);
    // the pane appears; the rebuild executes the deferred mutation
    let cmds = d.on_pane_update(vec![vec![pane(7)]]);
    assert_eq!(cmds, vec![rename(1, "🔥 Work")]);
    assert_eq!(d.queued_mutations.len(), 0);
}

#[test]
fn queued_mutation_is_superseded_by_a_later_one() {
    let mut d = ready_dispatcher(&["Work"]);
    let _ = d.on_pipe(
        &Some(r#"{"pane_id":"7","action":"set_status","emoji":"🔥"}"#.to_string()),
        "tab-status",
    );
    let _ = d.on_pipe(
        &Some(r#"{"pane_id":"7","action":"set_status","emoji":"✅"}"#.to_string()),
        "tab-status",
    );
    assert_eq!(d.queued_mutations.len(), 1);
    let cmds = d.on_pane_update(vec![vec![pane(7)]]);
    assert_eq!(cmds, vec![rename(1, "✅ Work")]);
}

#[test]
fn mutation_while_probing_is_queued() {
    let mut d = Dispatcher::new();
    let _ = d.on_tab_update(names(&["Work"]));
    assert!(matches!(d.phase, Phase::Probing(_)));
    let cmds = d.on_pipe(
        &Some(r#"{"pane_id":"7","action":"set_status","emoji":"🔥"}"#.to_string()),
        "tab-status",
    );
    assert_eq!(cmds, vec![output("tab-status", NOT_READY_OUTPUT)]);
    assert_eq!(d.queued_mutations.len(), 1);
}

#[test]
fn query_while_probing_is_refused() {
    let mut d = Dispatcher::new();
    let _ = d.on_tab_update(names(&["Work"]));
    let cmds = d.on_pipe(
        &Some(r#"{"pane_id":"7","action":"get_status"}"#.to_string()),
        "tab-status",
    );
    assert_eq!(cmds, vec![output("tab-status", NOT_READY_OUTPUT)]);
}

#[test]
fn get_debug_is_served_while_probing() {
    let mut d = Dispatcher::new();
    let _ = d.on_tab_update(names(&["Work"]));
    let cmds = d.on_pipe(
        &Some(r#"{"pane_id":"0","action":"get_debug"}"#.to_string()),
        "tab-status",
    );
    assert_eq!(cmds, vec![output("tab-status", "phase=probing tabs=1 next=2")]);
}

#[test]
fn probe_indices_restarts_probing() {
    let mut d = ready_dispatcher(&["Work"]);
    let cmds = d.on_pipe(
        &Some(r#"{"pane_id":"0","action":"probe_indices"}"#.to_string()),
        "tab-status",
    );
    assert_eq!(
        cmds,
        vec![
            rename(1, "\u{235F}1"),
            HostCommand::SetTimeout,
            output("tab-status", "probing started"),
        ]
    );
    assert!(matches!(d.phase, Phase::Probing(_)));
}

#[test]
fn probe_indices_with_no_tabs_reports_it() {
    let mut d = Dispatcher::new();
    let cmds = d.on_pipe(
        &Some(r#"{"pane_id":"0","action":"probe_indices"}"#.to_string()),
        "tab-status",
    );
    assert_eq!(cmds, vec![output("tab-status", "no tabs")]);
    assert!(matches!(d.phase, Phase::Ready));
}

#[test]
fn ready_pipe_rename_goes_through_index_table() {
    let mut d = ready_dispatcher(&["Work"]);
    let _ = d.on_pane_update(vec![vec![pane(4)]]);
    let cmds = d.on_pipe(
        &Some(r#"{"pane_id":"4","name":"Renamed"}"#.to_string()),
        "tab-status",
    );
    assert_eq!(cmds, vec![rename(1, "Renamed")]);
}

#[test]
fn plugin_panes_are_not_mapped() {
    let mut d = ready_dispatcher(&["Work"]);
    let plugin = PaneRef {
        id: 9,
        is_plugin: true,
    };
    let _ = d.on_pane_update(vec![vec![plugin, pane(4)]]);
    // the plugin pane is unknown to the mapping
    let cmds = d.on_pipe(
        &Some(r#"{"pane_id":"9","action":"get_name"}"#.to_string()),
        "tab-status",
    );
    assert_eq!(cmds, vec![]);
    // the user pane in the same tab is known
    let cmds = d.on_pipe(
        &Some(r#"{"pane_id":"4","action":"get_name"}"#.to_string()),
        "tab-status",
    );
    assert_eq!(cmds, vec![output("tab-status", "Work")]);
}

// ==================== markers and numbers ====================

#[test]
fn probe_marker_round_trip() {
    assert_eq!(probe_marker(1), "\u{235F}1");
    assert_eq!(probe_marker(42), "\u{235F}42");
    assert_eq!(parse_probe_marker("\u{235F}42"), Some(42));
    assert_eq!(parse_probe_marker("Work"), None);
    assert_eq!(parse_probe_marker("\u{235F}x"), None);
    assert_eq!(parse_probe_marker(""), None);
}

#[test]
fn decimal_round_trip() {
    assert_eq!(u32_to_dec(0), "0");
    assert_eq!(u32_to_dec(4294967295), "4294967295");
    assert_eq!(parse_u32_dec("0"), Some(0));
    assert_eq!(parse_u32_dec("4294967295"), Some(4294967295));
    assert_eq!(parse_u32_dec("4294967296"), None);
    assert_eq!(parse_u32_dec("+17"), Some(17));
    assert_eq!(parse_u32_dec(""), None);
    assert_eq!(parse_u32_dec("+"), None);
    assert_eq!(parse_u32_dec("12a"), None);
}

// ==================== edge cases ====================

#[test]
fn empty_snapshot_probe_settles_into_empty_table() {
    let mut d = Dispatcher::new();
    let cmds = d.on_tab_update(Vec::new());
    assert_eq!(cmds, vec![rename(1, "\u{235F}1"), HostCommand::SetTimeout]);
    let _ = d.on_tab_update(Vec::new());
    assert!(matches!(d.phase, Phase::Ready));
    assert_eq!(d.tab_indices, Vec::<u32>::new());
    assert_eq!(d.next_tab_index, 1);
}

#[test]
fn timer_while_ready_does_nothing() {
    let mut d = ready_dispatcher(&["Work"]);
    assert!(d.on_timer().is_empty());
    assert!(matches!(d.phase, Phase::Ready));
}

#[test]
fn get_version_is_not_blocked_while_probing() {
    let mut d = Dispatcher::new();
    let _ = d.on_tab_update(names(&["Work"]));
    let cmds = d.on_pipe(
        &Some(r#"{"pane_id":"1","action":"get_version"}"#.to_string()),
        "tab-status",
    );
    // the action passes the probing gate but no handler answers it
    assert_eq!(cmds, vec![]);
}

#[test]
fn tab_names_reflects_current_snapshot() {
    let d = ready_dispatcher(&["Work", "Deploy"]);
    assert_eq!(d.tab_names(), vec!["Work".to_string(), "Deploy".to_string()]);
}
