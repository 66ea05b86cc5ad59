use std::collections::BTreeMap;

use zellij_tab_status::probing::{handle_probe_timer, ProbingState, TimerResult};

fn make_state(
    restoring: bool,
    restore_retries: u32,
    candidate: u32,
    remaining: usize,
    num_tabs: usize,
) -> ProbingState {
    let original_names: BTreeMap<usize, String> = (0..num_tabs)
        .map(|i| (i, format!("Tab {}", i + 1)))
        .collect();
    ProbingState {
        original_names,
        candidate,
        found: Vec::new(),
        remaining,
        restoring,
        restore_retries,
    }
}

#[test]
fn gap_detection_normal() {
    let mut state = make_state(false, 0, 3, 2, 3);
    let result = handle_probe_timer(&mut state);
    assert_eq!(result, TimerResult::AdvanceProbe(4));
    assert_eq!(state.candidate, 4);
}

#[test]
fn restore_retry_first() {
    let mut state = make_state(true, 0, 5, 1, 3);
    let result = handle_probe_timer(&mut state);
    assert_eq!(result, TimerResult::Retry);
    assert_eq!(state.restore_retries, 1);
    assert!(state.restoring);
}

#[test]
fn restore_retry_mid() {
    let mut state = make_state(true, 3, 5, 1, 3);
    let result = handle_probe_timer(&mut state);
    assert_eq!(result, TimerResult::Retry);
    assert_eq!(state.restore_retries, 4);
    assert!(state.restoring);
}

#[test]
fn restore_stuck_force_advance() {
    let mut state = make_state(true, 4, 5, 1, 3);
    let result = handle_probe_timer(&mut state);
    assert_eq!(result, TimerResult::AdvanceProbe(6));
    assert!(!state.restoring);
    assert_eq!(state.restore_retries, 0);
    assert_eq!(state.candidate, 6);
}

#[test]
fn gap_max_candidate_fallback() {
    // 3 tabs, max candidate 9, candidate starts at 9 -> advances to 10 > 9
    let mut state = make_state(false, 0, 9, 1, 3);
    let result = handle_probe_timer(&mut state);
    assert_eq!(result, TimerResult::Fallback);
}

#[test]
fn stuck_restore_max_candidate_fallback() {
    // restoring stuck at retries=4, candidate=9, 3 tabs -> max 9
    // force advance -> candidate=10 > 9 -> Fallback
    let mut state = make_state(true, 4, 9, 1, 3);
    let result = handle_probe_timer(&mut state);
    assert_eq!(result, TimerResult::Fallback);
}

#[test]
fn ignore_when_remaining_zero() {
    let mut state = make_state(false, 0, 5, 0, 3);
    let result = handle_probe_timer(&mut state);
    assert_eq!(result, TimerResult::Ignore);
}

#[test]
fn init_state_retries_zero() {
    let names: BTreeMap<usize, String> = [(0, "Tab 1".into())].into();
    let state = ProbingState::new(names);
    assert_eq!(state.restore_retries, 0);
    assert!(!state.restoring);
    assert_eq!(state.candidate, 1);
    assert_eq!(state.remaining, 1);
}
