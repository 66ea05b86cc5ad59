use std::collections::HashMap;

use zellij_tab_status::blink_runtime::{normalize_delay_ms, BlinkCommand, BlinkRuntime, DEFAULT_BLINK_DELAY_MS};

fn positions(entries: &[(u32, usize)]) -> HashMap<u32, usize> {
    entries.iter().copied().collect()
}

#[test]
fn normalize_delay_defaults_to_500ms() {
    assert_eq!(normalize_delay_ms(None), DEFAULT_BLINK_DELAY_MS);
    assert_eq!(normalize_delay_ms(Some(0)), DEFAULT_BLINK_DELAY_MS);
}

#[test]
fn tick_rotates_frames_over_time() {
    let mut runtime = BlinkRuntime::default();
    runtime.start(
        7,
        "Build".to_string(),
        vec!["🔴".to_string(), "🟡".to_string(), "🟢".to_string()],
        500,
        0,
    );

    let no_updates = runtime.tick(499, &positions(&[(7, 0)]));
    assert!(no_updates.is_empty());

    let first = runtime.tick(500, &positions(&[(7, 0)]));
    assert_eq!(
        first,
        vec![BlinkCommand {
            tab_index: 7,
            tab_position: 0,
            name: "🟡 Build".to_string(),
        }]
    );

    let second = runtime.tick(1000, &positions(&[(7, 0)]));
    assert_eq!(
        second,
        vec![BlinkCommand {
            tab_index: 7,
            tab_position: 0,
            name: "🟢 Build".to_string(),
        }]
    );
}

#[test]
fn delay_override_is_respected() {
    let mut runtime = BlinkRuntime::default();
    runtime.start(
        4,
        "Deploy".to_string(),
        vec!["🔴".to_string(), "🟡".to_string()],
        350,
        0,
    );

    assert!(runtime.tick(349, &positions(&[(4, 1)])).is_empty());
    let updates = runtime.tick(350, &positions(&[(4, 1)]));
    assert_eq!(
        updates,
        vec![BlinkCommand {
            tab_index: 4,
            tab_position: 1,
            name: "🟡 Deploy".to_string(),
        }]
    );
}

#[test]
fn stop_clears_blinking_state() {
    let mut runtime = BlinkRuntime::default();
    runtime.start(
        3,
        "Tests".to_string(),
        vec!["🟥".to_string(), "🟩".to_string()],
        200,
        0,
    );
    runtime.stop(3);

    assert!(!runtime.contains_tab(3));
    assert!(runtime.tick(1000, &positions(&[(3, 0)])).is_empty());
}

#[test]
fn retain_active_tab_indices_drops_deleted_tabs() {
    let mut runtime = BlinkRuntime::default();
    runtime.start(
        1,
        "One".to_string(),
        vec!["🔴".to_string(), "🟡".to_string()],
        500,
        0,
    );
    runtime.start(
        2,
        "Two".to_string(),
        vec!["🟥".to_string(), "🟨".to_string()],
        500,
        0,
    );

    runtime.retain_active_tab_indices(&[2]);

    assert!(!runtime.contains_tab(1));
    assert!(runtime.contains_tab(2));
}

#[test]
fn pause_resume_delays_existing_state_without_losing_frame_order() {
    let mut runtime = BlinkRuntime::default();
    runtime.start(
        9,
        "Pause".to_string(),
        vec!["🔴".to_string(), "🟡".to_string()],
        500,
        0,
    );

    runtime.pause(100);
    runtime.resume(1_000);

    assert!(runtime.tick(1_399, &positions(&[(9, 0)])).is_empty());
    let updates = runtime.tick(1_400, &positions(&[(9, 0)]));
    assert_eq!(
        updates,
        vec![BlinkCommand {
            tab_index: 9,
            tab_position: 0,
            name: "🟡 Pause".to_string(),
        }]
    );
}

#[test]
fn state_started_during_pause_resumes_with_single_delay() {
    let mut runtime = BlinkRuntime::default();
    runtime.pause(1_000);

    runtime.start(
        11,
        "Queued".to_string(),
        vec!["🟥".to_string(), "🟨".to_string()],
        500,
        1_500,
    );

    assert!(runtime.tick(10_000, &positions(&[(11, 0)])).is_empty());

    runtime.resume(2_000);
    assert!(runtime.tick(2_499, &positions(&[(11, 0)])).is_empty());
    let updates = runtime.tick(2_500, &positions(&[(11, 0)]));
    assert_eq!(
        updates,
        vec![BlinkCommand {
            tab_index: 11,
            tab_position: 0,
            name: "🟨 Queued".to_string(),
        }]
    );
}

// ==================== further coverage ====================

#[test]
fn start_with_one_frame_stops_animation() {
    let mut runtime = BlinkRuntime::default();
    runtime.start(
        2,
        "One".to_string(),
        vec!["🔴".to_string(), "🟡".to_string()],
        500,
        0,
    );
    runtime.start(2, "One".to_string(), vec!["🔴".to_string()], 500, 0);
    assert!(!runtime.contains_tab(2));
}

#[test]
fn tick_drops_tabs_without_position() {
    let mut runtime = BlinkRuntime::default();
    runtime.start(
        5,
        "Gone".to_string(),
        vec!["🔴".to_string(), "🟡".to_string()],
        500,
        0,
    );
    let updates = runtime.tick(600, &positions(&[]));
    assert!(updates.is_empty());
    assert!(!runtime.contains_tab(5));
}

#[test]
fn tick_emits_commands_in_tab_index_order() {
    let mut runtime = BlinkRuntime::default();
    runtime.start(
        9,
        "B".to_string(),
        vec!["0".to_string(), "1".to_string()],
        100,
        0,
    );
    runtime.start(
        2,
        "A".to_string(),
        vec!["0".to_string(), "1".to_string()],
        100,
        0,
    );
    let updates = runtime.tick(100, &positions(&[(9, 1), (2, 0)]));
    assert_eq!(updates.len(), 2);
    assert_eq!(updates[0].tab_index, 2);
    assert_eq!(updates[1].tab_index, 9);
}

#[test]
fn next_delay_reports_shortest_wait() {
    let mut runtime = BlinkRuntime::default();
    assert_eq!(runtime.next_delay_ms(0), None);
    runtime.start(
        1,
        "A".to_string(),
        vec!["0".to_string(), "1".to_string()],
        500,
        0,
    );
    runtime.start(
        2,
        "B".to_string(),
        vec!["0".to_string(), "1".to_string()],
        300,
        0,
    );
    assert_eq!(runtime.next_delay_ms(0), Some(300));
    assert_eq!(runtime.next_delay_ms(299), Some(1));
    runtime.pause(10);
    assert_eq!(runtime.next_delay_ms(400), None);
}

#[test]
fn update_base_name_changes_rendered_name() {
    let mut runtime = BlinkRuntime::default();
    runtime.start(
        1,
        "Old".to_string(),
        vec!["0".to_string(), "1".to_string()],
        100,
        0,
    );
    runtime.update_base_name(1, "New".to_string());
    let updates = runtime.tick(100, &positions(&[(1, 0)]));
    assert_eq!(updates[0].name, "1 New");
}

#[test]
fn tick_catches_up_over_multiple_delays() {
    let mut runtime = BlinkRuntime::default();
    runtime.start(
        1,
        "Fast".to_string(),
        vec!["a".to_string(), "b".to_string(), "c".to_string()],
        100,
        0,
    );
    // 100 + 350 elapsed: (350 - 0)/100 + 1 = 4 steps from frame 0 -> frame 1
    let updates = runtime.tick(450, &positions(&[(1, 0)]));
    assert_eq!(updates[0].name, "b Fast");
}
