//! Timer handling for the index-probing state machine.
//!
//! While a probe is in flight, a timer firing means either that the probed
//! candidate index does not exist (a gap: the host silently ignored the
//! rename, so no snapshot echoed the marker), or that a restore rename may
//! have been dropped and should be retried.

use std::collections::BTreeMap;
use vstd::prelude::*;

verus! {

broadcast use vstd::std_specs::btree::group_btree_axioms, vstd::laws_cmp::group_laws_cmp;

/// Maximum number of timer retries while waiting for restore confirmation.
/// At this many retries, force advance to the next candidate.
pub const MAX_RESTORE_RETRIES: u32 = 5;

/// State of an in-flight probe.
pub struct ProbingState {
    /// Tab names saved before probing started, by position.
    pub original_names: BTreeMap<usize, String>,
    /// Current candidate index being probed.
    pub candidate: u32,
    /// Found mappings: `(tab_position, persistent_index)`, sorted by position.
    pub found: Vec<(usize, u32)>,
    /// How many tabs still need to be found.
    pub remaining: usize,
    /// True while waiting for a marker to disappear after a match.
    pub restoring: bool,
    /// Consecutive timer firings while restoring (reset on success).
    pub restore_retries: u32,
}

impl ProbingState {
    /// The number of positions the probe set out to identify.
    pub open spec fn tab_count(self) -> nat {
        self.original_names@.len()
    }

    /// Well-formedness of an in-flight probe. The machine-size bound keeps
    /// the candidate counter within `u32`.
    pub open spec fn wf(self) -> bool {
        &&& self.tab_count() <= 0x1000_0000
        &&& self.found@.len() + self.remaining == self.tab_count()
        &&& 1 <= self.candidate
        &&& self.restore_retries < MAX_RESTORE_RETRIES
        &&& sorted_found(self.found@)
        &&& distinct_found_candidates(self.found@)
        &&& (forall|i: int|
            0 <= i < self.found@.len() ==> (#[trigger] self.found@[i]).0 < self.tab_count()
                && 1 <= self.found@[i].1)
    }

    /// A fresh probe over the given names: candidate 1, nothing found yet.
    pub fn new(original_names: BTreeMap<usize, String>) -> (st: ProbingState)
        requires
            original_names@.len() <= 0x1000_0000,
        ensures
            st.original_names@ == original_names@,
            st.candidate == 1,
            st.found@ =~= Seq::<(usize, u32)>::empty(),
            st.remaining == original_names@.len(),
            !st.restoring,
            st.restore_retries == 0,
            st.wf(),
    {
        let remaining = original_names.len();
        let st = ProbingState {
            original_names,
            candidate: 1,
            found: Vec::new(),
            remaining,
            restoring: false,
            restore_retries: 0,
        };
        st
    }
}

/// Positions in `found` are strictly increasing.
pub open spec fn sorted_found(found: Seq<(usize, u32)>) -> bool {
    forall|i: int, j: int| 0 <= i < j < found.len() ==> found[i].0 < found[j].0
}

/// No persistent index is recorded twice in `found`.
pub open spec fn distinct_found_candidates(found: Seq<(usize, u32)>) -> bool {
    forall|i: int, j: int|
        0 <= i < j < found.len() ==> (#[trigger] found[i]).1 != (#[trigger] found[j]).1
}

/// The candidate counter after one advance; saturates at the top of `u32`
/// rather than wrapping.
pub open spec fn bump(c: u32) -> u32 {
    if c == u32::MAX {
        c
    } else {
        (c + 1) as u32
    }
}

/// Result of handling a timer event during probing.
#[derive(Debug, PartialEq, Eq, Structural)]
pub enum TimerResult {
    /// Set another timeout and wait (restore retry).
    Retry,
    /// Advance to next candidate: send probe at given index.
    AdvanceProbe(u32),
    /// Exceeded max candidates, fall back to the identity table.
    Fallback,
    /// Not in a state that needs timer handling (nothing remaining, not
    /// restoring).
    Ignore,
}

/// Decide what to do when a timer fires during probing.
///
/// While restoring, the timer is retried up to the bounded threshold, then
/// the machine force-advances without confirmation. Otherwise a timer means
/// the probed candidate is a gap: advance, or fall back once the candidate
/// range exceeds three times the original tab count.
pub fn handle_probe_timer(state: &mut ProbingState) -> (result: TimerResult)
    requires
        old(state).wf(),
    ensures
        final(state).original_names@ == old(state).original_names@,
        final(state).found@ == old(state).found@,
        final(state).remaining == old(state).remaining,
        ({
            let n = old(state).tab_count();
            if old(state).restoring {
                if old(state).restore_retries + 1 < MAX_RESTORE_RETRIES {
                    &&& result == TimerResult::Retry
                    &&& final(state).restoring
                    &&& final(state).restore_retries == old(state).restore_retries + 1
                    &&& final(state).candidate == old(state).candidate
                } else {
                    &&& !final(state).restoring
                    &&& final(state).restore_retries == 0
                    &&& final(state).candidate == bump(old(state).candidate)
                    &&& result == (if final(state).candidate as nat > 3 * n && old(
                        state,
                    ).remaining > 0 {
                        TimerResult::Fallback
                    } else {
                        TimerResult::AdvanceProbe(final(state).candidate)
                    })
                }
            } else if old(state).remaining == 0 {
                &&& result == TimerResult::Ignore
                &&& final(state).candidate == old(state).candidate
                &&& final(state).restoring == old(state).restoring
                &&& final(state).restore_retries == old(state).restore_retries
            } else {
                &&& !final(state).restoring
                &&& final(state).restore_retries == old(state).restore_retries
                &&& final(state).candidate == bump(old(state).candidate)
                &&& result == (if final(state).candidate as nat > 3 * n {
                    TimerResult::Fallback
                } else {
                    TimerResult::AdvanceProbe(final(state).candidate)
                })
            }
        }),
        result is Fallback ==> old(state).remaining > 0 && final(state).candidate as nat > 3 * old(
            state,
        ).tab_count(),
        result matches TimerResult::AdvanceProbe(c) ==> (final(state).remaining > 0 ==> c as nat
            <= 3 * old(state).tab_count()),
        !(result is Fallback) ==> final(state).wf(),
{
    let n_tabs = state.original_names.len();
    if state.restoring {
        state.restore_retries = state.restore_retries + 1;
        if state.restore_retries >= MAX_RESTORE_RETRIES {
            state.restoring = false;
            state.restore_retries = 0;
            if state.candidate < u32::MAX {
                state.candidate = state.candidate + 1;
            }
            let max_candidate = (n_tabs as u32) * 3;
            if state.candidate > max_candidate && state.remaining > 0 {
                return TimerResult::Fallback;
            }
            return TimerResult::AdvanceProbe(state.candidate);
        }
        return TimerResult::Retry;
    }
    if state.remaining == 0 {
        return TimerResult::Ignore;
    }
    if state.candidate < u32::MAX {
        state.candidate = state.candidate + 1;
    }
    let max_candidate = (n_tabs as u32) * 3;
    if state.candidate > max_candidate && state.remaining > 0 {
        return TimerResult::Fallback;
    }
    TimerResult::AdvanceProbe(state.candidate)
}

} // verus!
