//! The event-driven core: it owns the index table, the pane anchors, the
//! probing state machine and the mutation queue, and turns each host event
//! (tab snapshot, pane snapshot, timer, inbound command) into the host
//! commands to issue.
//!
//! The host's rename operation takes a persistent tab index that snapshots
//! never expose, so the table mapping position to persistent index is
//! discovered by probing: candidate indices are renamed to tagged markers,
//! and identity is inferred from where the markers reappear, or from their
//! absence after a timeout.

use std::collections::BTreeMap;
use vstd::prelude::*;
use vstd::string::StrSliceExecFns;
use vstd::string::StringExecFns;

use crate::digits::{
    dec_body, dec_digits, dec_val, lemma_dec_digits_val, parse_u32_dec, u32_to_dec, valid_u32_dec,
};
use crate::pipe_handler::{
    effect_view, effect_views, handle_rename, handle_status, map_view, opt_view, pane_tab_wf,
    parse_status_payload, spec_handle_rename, spec_handle_status, spec_status_payload, EffectView,
    PaneTabMap, PipeEffect, StatusPayload,
};
use crate::probing::{bump, handle_probe_timer, ProbingState, TimerResult};
use crate::text::str_eq;

verus! {

broadcast use vstd::std_specs::btree::group_btree_axioms, vstd::laws_cmp::group_laws_cmp;

/// The marker glyph written during probing, reserved by convention.
pub const PROBE_MARKER_PREFIX: char = '\u{235F}';

/// What a pane snapshot says about one pane: its stable identifier, and
/// whether it belongs to a plugin rather than to the user session.
#[derive(Debug, Clone, Copy, PartialEq, Eq, Structural)]
pub struct PaneRef {
    pub id: u32,
    pub is_plugin: bool,
}

/// A side effect for the caller to perform on the host.
#[derive(Debug, PartialEq)]
pub enum HostCommand {
    /// Rename the tab with this persistent index.
    RenameTab { tab_index: u32, name: String },
    /// Arm the single-shot probe timeout.
    SetTimeout,
    /// Answer the inbound command channel.
    PipeOutput { pipe_name: String, output: String },
}

/// Whether a probe is in flight.
pub enum Phase {
    Probing(ProbingState),
    Ready,
}

/// Outcome of one probing step over a tab snapshot.
pub enum ProbingResult {
    Continue,
    Complete(Vec<u32>),
}

/// The name of a candidate's probe marker: the marker glyph, then the
/// candidate in decimal.
pub open spec fn marker_of(candidate: u32) -> Seq<char> {
    seq![PROBE_MARKER_PREFIX] + dec_digits(candidate as nat)
}

/// The candidate a marker name stands for, if the name is a marker.
pub open spec fn spec_parse_marker(s: Seq<char>) -> Option<u32> {
    if s.len() >= 1 && s[0] == PROBE_MARKER_PREFIX && valid_u32_dec(s.skip(1)) {
        Some(dec_val(dec_body(s.skip(1))) as u32)
    } else {
        None
    }
}

/// Build a candidate's probe marker.
pub fn probe_marker(candidate: u32) -> (r: String)
    ensures
        r@ == marker_of(candidate),
{
    proof {
        reveal_strlit("\u{235F}");
    }
    let mut r = String::from_str("\u{235F}");
    r.append(u32_to_dec(candidate).as_str());
    proof {
        assert(r@ =~= marker_of(candidate));
    }
    r
}

/// Recognize a probe marker.
pub fn parse_probe_marker(name: &str) -> (r: Option<u32>)
    ensures
        r == spec_parse_marker(name@),
{
    let n = name.unicode_len();
    if n == 0 {
        return None;
    }
    if name.get_char(0) != PROBE_MARKER_PREFIX {
        return None;
    }
    let rest = name.substring_char(1, n);
    proof {
        assert(rest@ =~= name@.skip(1));
    }
    parse_u32_dec(rest)
}

/// A marker names exactly the candidate it was built for.
pub proof fn lemma_marker_roundtrip(candidate: u32)
    ensures
        spec_parse_marker(marker_of(candidate)) == Some(candidate),
{
    lemma_dec_digits_val(candidate as nat);
    let s = marker_of(candidate);
    assert(s.skip(1) =~= dec_digits(candidate as nat));
    assert(s[0] == PROBE_MARKER_PREFIX);
    let t = dec_digits(candidate as nat);
    assert(crate::digits::is_dec_digit(t[0]));
    assert(t[0] != '+');
    assert(dec_body(t) == t);
    assert(valid_u32_dec(t));
}

/// The marker hits in a snapshot, in position order.
pub open spec fn spec_hits(tabs: Seq<Seq<char>>) -> Seq<(usize, u32)>
    decreases tabs.len(),
{
    if tabs.len() == 0 {
        Seq::empty()
    } else {
        let r = spec_hits(tabs.drop_last());
        match spec_parse_marker(tabs.last()) {
            Some(c) => r.push(((tabs.len() - 1) as usize, c)),
            None => r,
        }
    }
}

/// The views of a list of tab names.
pub open spec fn names_view(tabs: Seq<String>) -> Seq<Seq<char>> {
    tabs.map_values(|s: String| s@)
}

/// The views of a pane snapshot.
pub open spec fn panes_view(panes: Seq<Vec<PaneRef>>) -> Seq<Seq<PaneRef>> {
    panes.map_values(|v: Vec<PaneRef>| v@)
}

/// Scan a snapshot for probe markers.
pub fn probe_marker_hits(tabs: &Vec<String>) -> (r: Vec<(usize, u32)>)
    ensures
        r@ == spec_hits(names_view(tabs@)),
{
    let n = tabs.len();
    let mut r: Vec<(usize, u32)> = Vec::new();
    let mut i: usize = 0;
    proof {
        assert(names_view(tabs@).take(0) =~= Seq::<Seq<char>>::empty());
        assert(r@ =~= spec_hits(names_view(tabs@).take(0)));
    }
    while i < n
        invariant
            0 <= i <= n,
            n == tabs@.len(),
            r@ == spec_hits(names_view(tabs@).take(i as int)),
        decreases n - i,
    {
        proof {
            assert(names_view(tabs@).take(i + 1).drop_last() =~= names_view(tabs@).take(i as int));
            assert(names_view(tabs@).take(i + 1).last() == tabs@[i as int]@);
        }
        match parse_probe_marker(tabs[i].as_str()) {
            Some(c) => {
                r.push((i, c));
            },
            None => {},
        }
        i = i + 1;
    }
    proof {
        assert(names_view(tabs@).take(n as int) =~= names_view(tabs@));
    }
    r
}

/// Whether some non-plugin pane in the list has this identifier.
pub open spec fn pane_in_list(panes: Seq<PaneRef>, pane_id: u32) -> bool {
    exists|k: int| 0 <= k < panes.len() && !(#[trigger] panes[k]).is_plugin && panes[k].id == pane_id
}

/// The position a pane maps to, considering positions below `n`: the
/// highest position whose pane list holds it (a later insert of the same
/// pane wins).
pub open spec fn spec_pane_position(panes: Seq<Seq<PaneRef>>, n: int, pane_id: u32) -> Option<int>
    decreases n,
{
    if n <= 0 {
        None
    } else if n - 1 < panes.len() && pane_in_list(panes[n - 1], pane_id) {
        Some(n - 1)
    } else {
        spec_pane_position(panes, n - 1, pane_id)
    }
}

/// A pane found in a prefix is found in any longer prefix.
proof fn lemma_pane_in_prefix(l: Seq<PaneRef>, a: int, b: int, pane_id: u32)
    requires
        0 <= a <= b <= l.len(),
        pane_in_list(l.take(a), pane_id),
    ensures
        pane_in_list(l.take(b), pane_id),
{
    let la = l.take(a);
    let lb = l.take(b);
    let w = choose|w: int|
        0 <= w < la.len() && !(#[trigger] la[w]).is_plugin && la[w].id == pane_id;
    assert(lb[w] == la[w]);
    assert(!lb[w].is_plugin && lb[w].id == pane_id);
}

/// A pane found in a prefix one longer is found in the shorter prefix or
/// is the last element considered.
proof fn lemma_pane_prefix_step(l: Seq<PaneRef>, k: int, pane_id: u32)
    requires
        0 <= k < l.len(),
        pane_in_list(l.take(k + 1), pane_id),
    ensures
        pane_in_list(l.take(k), pane_id) || (!l[k].is_plugin && l[k].id == pane_id),
{
    let lb = l.take(k + 1);
    let w = choose|w: int|
        0 <= w < lb.len() && !(#[trigger] lb[w]).is_plugin && lb[w].id == pane_id;
    if w < k {
        assert(l.take(k)[w] == lb[w]);
        assert(!l.take(k)[w].is_plugin && l.take(k)[w].id == pane_id);
    } else {
        assert(lb[w] == l[k]);
    }
}

/// A resolved pane position lies below the bound it was resolved under.
proof fn lemma_pane_position_bound(panes: Seq<Seq<PaneRef>>, n: int, pane_id: u32)
    ensures
        spec_pane_position(panes, n, pane_id) matches Some(q) ==> 0 <= q < n,
    decreases
            (if n >= 0 {
                n
            } else {
                0
            }),
{
    if n > 0 {
        lemma_pane_position_bound(panes, n - 1, pane_id);
    }
}

/// The plain-value content of a host command.
pub enum CommandView {
    Rename { tab_index: u32, name: Seq<char> },
    Timeout,
    Output { pipe_name: Seq<char>, output: Seq<char> },
}

/// The plain-value content of one host command.
pub open spec fn command_view(c: HostCommand) -> CommandView {
    match c {
        HostCommand::RenameTab { tab_index, name } => CommandView::Rename {
            tab_index,
            name: name@,
        },
        HostCommand::SetTimeout => CommandView::Timeout,
        HostCommand::PipeOutput { pipe_name, output } => CommandView::Output {
            pipe_name: pipe_name@,
            output: output@,
        },
    }
}

/// The plain-value content of a command list.
pub open spec fn command_views(cs: Seq<HostCommand>) -> Seq<CommandView> {
    cs.map_values(|c: HostCommand| command_view(c))
}

/// The two commands that launch a probe of this candidate.
pub open spec fn probe_cmds(candidate: u32) -> Seq<CommandView> {
    seq![
        CommandView::Rename { tab_index: candidate, name: marker_of(candidate) },
        CommandView::Timeout,
    ]
}

/// The saved original names as plain values.
pub open spec fn onames_view(m: Map<usize, String>) -> Map<usize, Seq<char>> {
    Map::new(|p: usize| m.contains_key(p), |p: usize| m[p]@)
}

/// Whether some recorded pair carries this persistent index.
pub open spec fn found_has_candidate(found: Seq<(usize, u32)>, candidate: u32) -> bool {
    exists|i: int| 0 <= i < found.len() && (#[trigger] found[i]).1 == candidate
}

/// Whether some recorded pair carries this position.
pub open spec fn found_has_position(found: Seq<(usize, u32)>, position: usize) -> bool {
    exists|i: int| 0 <= i < found.len() && (#[trigger] found[i]).0 == position
}

/// Whether any marker hit carries this candidate.
pub open spec fn hits_have_candidate(hits: Seq<(usize, u32)>, candidate: u32) -> bool {
    exists|i: int| 0 <= i < hits.len() && (#[trigger] hits[i]).1 == candidate
}

/// A strictly position-sorted record grows at least as fast as its index.
proof fn lemma_sorted_found_lower(found: Seq<(usize, u32)>, i: int)
    requires
        crate::probing::sorted_found(found),
        0 <= i < found.len(),
    ensures
        found[i].0 >= i,
    decreases i,
{
    if i > 0 {
        lemma_sorted_found_lower(found, i - 1);
        assert(found[i - 1].0 < found[i].0);
    }
}

/// A strictly position-sorted record bounded by `n` leaves room above each
/// index.
proof fn lemma_sorted_found_upper(found: Seq<(usize, u32)>, i: int, n: nat)
    requires
        crate::probing::sorted_found(found),
        forall|j: int| 0 <= j < found.len() ==> (#[trigger] found[j]).0 < n,
        0 <= i < found.len(),
    ensures
        found[i].0 + (found.len() - 1 - i) < n,
    decreases found.len() - i,
{
    if i < found.len() - 1 {
        lemma_sorted_found_upper(found, i + 1, n);
        assert(found[i].0 < found[i + 1].0);
    }
}

/// When a probe has recorded one pair per position, the pairs stand at
/// exactly the positions 0 to N-1, in order.
pub proof fn lemma_found_covers(found: Seq<(usize, u32)>, n: nat)
    requires
        crate::probing::sorted_found(found),
        forall|j: int| 0 <= j < found.len() ==> (#[trigger] found[j]).0 < n,
        found.len() == n,
    ensures
        forall|i: int| 0 <= i < found.len() ==> (#[trigger] found[i]).0 == i,
{
    assert forall|i: int| 0 <= i < found.len() implies (#[trigger] found[i]).0 == i by {
        lemma_sorted_found_lower(found, i);
        lemma_sorted_found_upper(found, i, n);
    }
}

/// `found` with one pair added at its position-sorted place.
pub open spec fn spec_insert_found(
    found: Seq<(usize, u32)>,
    position: usize,
    candidate: u32,
) -> Seq<(usize, u32)>
    decreases found.len(),
{
    if found.len() == 0 {
        seq![(position, candidate)]
    } else if found[0].0 < position {
        seq![found[0]] + spec_insert_found(found.drop_first(), position, candidate)
    } else {
        seq![(position, candidate)] + found
    }
}

/// Where the first at-least-as-large position sits, the insertion splits
/// the record there.
proof fn lemma_insert_found_split(found: Seq<(usize, u32)>, position: usize, candidate: u32, i: int)
    requires
        0 <= i <= found.len(),
        forall|j: int| 0 <= j < i ==> (#[trigger] found[j]).0 < position,
        i < found.len() ==> found[i].0 > position,
    ensures
        spec_insert_found(found, position, candidate) == found.take(i) + seq![
            (position, candidate),
        ] + found.skip(i),
    decreases i,
{
    if i == 0 {
        if found.len() == 0 {
            assert(spec_insert_found(found, position, candidate) =~= found.take(0) + seq![
                (position, candidate),
            ] + found.skip(0));
        } else {
            assert(found[0].0 > position);
            assert(spec_insert_found(found, position, candidate) =~= found.take(0) + seq![
                (position, candidate),
            ] + found.skip(0));
        }
    } else {
        assert(found[0].0 < position);
        let d = found.drop_first();
        assert(forall|j: int| 0 <= j < d.len() ==> d[j] == (#[trigger] found[j + 1]));
        lemma_insert_found_split(d, position, candidate, i - 1);
        assert(spec_insert_found(found, position, candidate) =~= found.take(i) + seq![
            (position, candidate),
        ] + found.skip(i)) by {
            assert(spec_insert_found(found, position, candidate) == seq![found[0]] + (d.take(i - 1)
                + seq![(position, candidate)] + d.skip(i - 1)));
        }
    }
}

/// Record a confirmed `(position, index)` pair, keeping the record sorted
/// by position. A hit is recorded only once: repeats of a candidate or of
/// a position, hits outside the probed positions, and index 0 (never a
/// real tab index) are all ignored.
pub fn record_found_candidate(state: &mut ProbingState, position: usize, candidate: u32) -> (is_new:
    bool)
    requires
        old(state).wf(),
    ensures
        final(state).wf(),
        final(state).original_names@ == old(state).original_names@,
        final(state).candidate == old(state).candidate,
        final(state).restoring == old(state).restoring,
        final(state).restore_retries == old(state).restore_retries,
        is_new == (position < old(state).tab_count() && candidate >= 1 && !found_has_candidate(
            old(state).found@,
            candidate,
        ) && !found_has_position(old(state).found@, position)),
        !is_new ==> *final(state) == *old(state),
        is_new ==> {
            &&& final(state).found@ == spec_insert_found(old(state).found@, position, candidate)
            &&& final(state).found@.len() == old(state).found@.len() + 1
            &&& final(state).remaining == old(state).remaining - 1
            &&& found_has_candidate(final(state).found@, candidate)
            &&& found_has_position(final(state).found@, position)
            &&& (forall|x: (usize, u32)|
                old(state).found@.contains(x) ==> final(state).found@.contains(x))
        },
{
    let n = state.original_names.len();
    if candidate < 1 || position >= n {
        return false;
    }
    let len = state.found.len();
    let mut i: usize = 0;
    while i < len
        invariant
            0 <= i <= len,
            len == state.found@.len(),
            old(state).wf(),
            *state == *old(state),
            forall|j: int|
                0 <= j < i ==> (#[trigger] state.found@[j]).1 != candidate && state.found@[j].0
                    != position,
        decreases len - i,
    {
        if state.found[i].1 == candidate || state.found[i].0 == position {
            return false;
        }
        i = i + 1;
    }
    if state.remaining == 0 {
        proof {
            lemma_found_covers(state.found@, state.tab_count());
            assert(state.found@[position as int].0 == position);
        }
        return false;
    }
    let mut ins: usize = 0;
    while ins < len && state.found[ins].0 < position
        invariant
            0 <= ins <= len,
            len == state.found@.len(),
            old(state).wf(),
            *state == *old(state),
            forall|j: int| 0 <= j < ins ==> (#[trigger] state.found@[j]).0 < position,
        decreases len - ins,
    {
        ins = ins + 1;
    }
    let ghost f0 = state.found@;
    state.found.insert(ins, (position, candidate));
    state.remaining = state.remaining - 1;
    proof {
        assert(state.found@ == f0.insert(ins as int, (position, candidate)));
        lemma_insert_found_split(f0, position, candidate, ins as int);
        assert(state.found@ =~= f0.take(ins as int) + seq![(position, candidate)] + f0.skip(
            ins as int,
        ));
        assert forall|a: int, b: int|
            0 <= a < b < state.found@.len() implies (#[trigger] state.found@[a]).0 < (
        #[trigger] state.found@[b]).0 by {
            let fa = state.found@[a];
            let fb = state.found@[b];
            if a < ins && b == ins {
                assert(fa == f0[a]);
            } else if a == ins && b > ins {
                assert(fb == f0[b - 1]);
                assert(ins < f0.len() ==> f0[ins as int].0 > position || f0[ins as int].0
                    == position);
                assert(f0[b - 1].0 != position);
                if b - 1 > ins {
                    assert(f0[ins as int].0 <= f0[b - 1].0 || f0[ins as int].0 > f0[b - 1].0);
                    assert(f0[ins as int].0 < f0[b - 1].0);
                }
                assert(f0[ins as int].0 >= position);
            } else if b < ins {
                assert(fa == f0[a] && fb == f0[b]);
            } else if a > ins {
                assert(fa == f0[a - 1] && fb == f0[b - 1]);
            } else {
                assert(a < ins && b > ins);
                assert(fa == f0[a] && fb == f0[b - 1]);
                assert(f0[a].0 < position);
                assert(f0[b - 1].0 >= position && f0[b - 1].0 != position);
            }
        }
        assert forall|a: int, b: int|
            0 <= a < b < state.found@.len() implies (#[trigger] state.found@[a]).1 != (
        #[trigger] state.found@[b]).1 by {
            if a != ins && b != ins {
                let a0: int = if a < ins {
                    a
                } else {
                    a - 1
                };
                let b0: int = if b < ins {
                    b
                } else {
                    b - 1
                };
                assert(state.found@[a] == f0[a0] && state.found@[b] == f0[b0]);
            } else if a == ins {
                assert(state.found@[b] == f0[b - 1]);
                assert(!found_has_candidate(f0, candidate));
            } else {
                assert(state.found@[a] == f0[a]);
                assert(!found_has_candidate(f0, candidate));
            }
        }
        assert(found_has_candidate(state.found@, candidate)) by {
            assert(state.found@[ins as int].1 == candidate);
        }
        assert(found_has_position(state.found@, position)) by {
            assert(state.found@[ins as int].0 == position);
        }
        assert forall|x: (usize, u32)| f0.contains(x) implies state.found@.contains(x) by {
            let w = choose|w: int| 0 <= w < f0.len() && f0[w] == x;
            if w < ins {
                assert(state.found@[w] == f0[w]);
            } else {
                assert(state.found@[w + 1] == f0[w]);
            }
        }
        assert forall|j: int| 0 <= j < state.found@.len() implies (
        #[trigger] state.found@[j]).0 < state.tab_count() && 1 <= state.found@[j].1 by {
            if j != ins {
                let j0: int = if j < ins {
                    j
                } else {
                    j - 1
                };
                assert(state.found@[j] == f0[j0]);
            }
        }
    }
    true
}

/// The restore rename for a found candidate: put the original name of the
/// position back on the tab the candidate index addresses.
pub fn restore_probe_marker(state: &ProbingState, position: usize, candidate: u32) -> (r: Option<
    HostCommand,
>)
    ensures
        r is Some <==> state.original_names@.contains_key(position),
        r matches Some(cmd) ==> cmd matches HostCommand::RenameTab {
            tab_index,
            name,
        } && tab_index == candidate && name@ == state.original_names@[position]@,
{
    match state.original_names.get(&position) {
        Some(name) => Some(
            HostCommand::RenameTab { tab_index: candidate, name: name.clone() },
        ),
        None => None,
    }
}

/// The discovered index table: the recorded indices, already in position
/// order.
pub fn finalize_probe(state: &ProbingState) -> (r: Vec<u32>)
    ensures
        r@ == state.found@.map_values(|p: (usize, u32)| p.1),
{
    let len = state.found.len();
    let mut r: Vec<u32> = Vec::new();
    let mut i: usize = 0;
    while i < len
        invariant
            0 <= i <= len,
            len == state.found@.len(),
            r@ == state.found@.map_values(|p: (usize, u32)| p.1).take(i as int),
        decreases len - i,
    {
        let ghost before = r@;
        r.push(state.found[i].1);
        proof {
            assert(r@ =~= state.found@.map_values(|p: (usize, u32)| p.1).take(i + 1));
        }
        i = i + 1;
    }
    proof {
        let m = state.found@.map_values(|p: (usize, u32)| p.1);
        assert(m.take(len as int) =~= m);
    }
    r
}

/// The commands that launch one probe: rename the candidate's tab to its
/// marker, and arm the timeout that detects a gap.
pub fn send_probe(candidate: u32) -> (cmds: Vec<HostCommand>)
    ensures
        cmds@.len() == 2,
        cmds@[0] matches HostCommand::RenameTab {
            tab_index,
            name,
        } && tab_index == candidate && name@ == marker_of(candidate),
        cmds@[1] is SetTimeout,
{
    let mut cmds: Vec<HostCommand> = Vec::new();
    cmds.push(HostCommand::RenameTab { tab_index: candidate, name: probe_marker(candidate) });
    cmds.push(HostCommand::SetTimeout);
    cmds
}

/// What absorbing one snapshot's marker hits does, processed in order: a
/// hit tagged with the skipped (current) candidate is left to the restore
/// logic; every other hit is recorded once when it is fresh and in range
/// (its count then drops by one), and answered with a restore rename when
/// the position's original name is known.
pub open spec fn spec_absorb_hits(
    found: Seq<(usize, u32)>,
    remaining: int,
    n: nat,
    names: Map<usize, Seq<char>>,
    hits: Seq<(usize, u32)>,
    skip_candidate: Option<u32>,
) -> (Seq<(usize, u32)>, int, Seq<CommandView>)
    decreases hits.len(),
{
    if hits.len() == 0 {
        (found, remaining, Seq::empty())
    } else {
        let position = hits[0].0;
        let candidate = hits[0].1;
        if skip_candidate matches Some(cc) && candidate == cc {
            spec_absorb_hits(found, remaining, n, names, hits.drop_first(), skip_candidate)
        } else {
            let fresh = position < n && candidate >= 1 && !found_has_candidate(found, candidate)
                && !found_has_position(found, position);
            let found2 = if fresh {
                spec_insert_found(found, position, candidate)
            } else {
                found
            };
            let remaining2: int = if fresh {
                remaining - 1
            } else {
                remaining
            };
            let restore: Seq<CommandView> = if names.contains_key(position) {
                seq![CommandView::Rename { tab_index: candidate, name: names[position] }]
            } else {
                Seq::empty()
            };
            let rest = spec_absorb_hits(
                found2,
                remaining2,
                n,
                names,
                hits.drop_first(),
                skip_candidate,
            );
            (rest.0, rest.1, restore + rest.2)
        }
    }
}

/// Insertion keeps every recorded pair and adds exactly one.
proof fn lemma_insert_found_contains(found: Seq<(usize, u32)>, position: usize, candidate: u32)
    ensures
        spec_insert_found(found, position, candidate).len() == found.len() + 1,
        forall|x: (usize, u32)|
            found.contains(x) ==> #[trigger] spec_insert_found(
                found,
                position,
                candidate,
            ).contains(x),
    decreases found.len(),
{
    let r = spec_insert_found(found, position, candidate);
    if found.len() == 0 {
    } else if found[0].0 < position {
        let d = found.drop_first();
        lemma_insert_found_contains(d, position, candidate);
        let sub = spec_insert_found(d, position, candidate);
        assert forall|x: (usize, u32)| found.contains(x) implies #[trigger] r.contains(x) by {
            let w = choose|w: int| 0 <= w < found.len() && found[w] == x;
            if w == 0 {
                assert(r[0] == x);
            } else {
                assert(d[w - 1] == x);
                assert(d.contains(x));
                assert(sub.contains(x));
                let v = choose|v: int| 0 <= v < sub.len() && sub[v] == x;
                assert(r[v + 1] == x);
            }
        }
    } else {
        assert forall|x: (usize, u32)| found.contains(x) implies #[trigger] r.contains(x) by {
            let w = choose|w: int| 0 <= w < found.len() && found[w] == x;
            assert(r[w + 1] == x);
        }
    }
}

/// Absorbing marker hits never forgets a recorded pair, and keeps the
/// count relation: pairs recorded plus work remaining is conserved.
pub proof fn lemma_absorb_monotone(
    found: Seq<(usize, u32)>,
    remaining: int,
    n: nat,
    names: Map<usize, Seq<char>>,
    hits: Seq<(usize, u32)>,
    skip_candidate: Option<u32>,
)
    ensures
        forall|x: (usize, u32)|
            found.contains(x) ==> #[trigger] spec_absorb_hits(
                found,
                remaining,
                n,
                names,
                hits,
                skip_candidate,
            ).0.contains(x),
        spec_absorb_hits(found, remaining, n, names, hits, skip_candidate).0.len()
            + spec_absorb_hits(found, remaining, n, names, hits, skip_candidate).1 == found.len()
            + remaining,
    decreases hits.len(),
{
    if hits.len() > 0 {
        let position = hits[0].0;
        let candidate = hits[0].1;
        if skip_candidate matches Some(cc) && candidate == cc {
            lemma_absorb_monotone(found, remaining, n, names, hits.drop_first(), skip_candidate);
        } else {
            let fresh = position < n && candidate >= 1 && !found_has_candidate(found, candidate)
                && !found_has_position(found, position);
            if fresh {
                lemma_insert_found_contains(found, position, candidate);
                lemma_absorb_monotone(
                    spec_insert_found(found, position, candidate),
                    remaining - 1,
                    n,
                    names,
                    hits.drop_first(),
                    skip_candidate,
                );
            } else {
                lemma_absorb_monotone(
                    found,
                    remaining,
                    n,
                    names,
                    hits.drop_first(),
                    skip_candidate,
                );
            }
        }
    }
}

/// One probing step over a freshly delivered tab snapshot.
///
/// Every marker hit is recorded once and answered with a restore rename,
/// whatever candidate it is tagged with: delayed echoes of earlier
/// candidates are absorbed without advancing the machine (the absorption is
/// exactly `spec_absorb_hits`). A hit for the current candidate turns the
/// machine to restoring; a confirmed restore advances it and probes the
/// next candidate; and once every position is identified and no marker is
/// in sight, the discovered table is emitted.
pub fn handle_probing(tabs: &Vec<String>, state: &mut ProbingState) -> (r: (
    ProbingResult,
    Vec<HostCommand>,
))
    requires
        old(state).wf(),
    ensures
        final(state).wf(),
        final(state).original_names@ == old(state).original_names@,
        ({
            let hits = spec_hits(names_view(tabs@));
            let skip_candidate: Option<u32> = if old(state).restoring {
                Some(old(state).candidate)
            } else {
                None
            };
            let ab = spec_absorb_hits(
                old(state).found@,
                old(state).remaining as int,
                old(state).tab_count(),
                onames_view(old(state).original_names@),
                hits,
                skip_candidate,
            );
            &&& final(state).found@ == ab.0
            &&& final(state).remaining as int == ab.1
            &&& (if old(state).restoring {
                if hits_have_candidate(hits, old(state).candidate) {
                    &&& r.0 is Continue
                    &&& final(state).restoring
                    &&& final(state).candidate == old(state).candidate
                    &&& final(state).restore_retries == old(state).restore_retries
                    &&& command_views(r.1@) == ab.2
                } else {
                    &&& !final(state).restoring
                    &&& final(state).restore_retries == 0
                    &&& (final(state).remaining == 0 ==> r.0 is Complete && command_views(r.1@)
                        == ab.2)
                    &&& (final(state).remaining > 0 ==> {
                        &&& r.0 is Continue
                        &&& final(state).candidate == bump(old(state).candidate)
                        &&& command_views(r.1@) == ab.2 + probe_cmds(bump(old(state).candidate))
                    })
                }
            } else {
                &&& final(state).candidate == old(state).candidate
                &&& final(state).restore_retries == old(state).restore_retries
                &&& command_views(r.1@) == ab.2
                &&& (if hits_have_candidate(hits, old(state).candidate) {
                    r.0 is Continue && final(state).restoring
                } else {
                    &&& !final(state).restoring
                    &&& (final(state).remaining == 0 && hits.len() == 0 ==> r.0 is Complete)
                    &&& (!(final(state).remaining == 0 && hits.len() == 0) ==> r.0 is Continue)
                })
            })
        }),
        r.0 matches ProbingResult::Complete(v) ==> {
            &&& final(state).remaining == 0
            &&& v@.len() == final(state).tab_count()
            &&& v@ == final(state).found@.map_values(|p: (usize, u32)| p.1)
            &&& (forall|i: int|
                0 <= i < final(state).found@.len() ==> (#[trigger] final(state).found@[i]).0 == i)
            &&& distinct_indices(v@)
            &&& (forall|i: int| 0 <= i < v@.len() ==> 1 <= #[trigger] v@[i])
        },
{
    let hits = probe_marker_hits(tabs);
    let current_candidate = state.candidate;
    let mut cmds: Vec<HostCommand> = Vec::new();
    let hit_len = hits.len();
    let ghost hv = spec_hits(names_view(tabs@));
    let ghost f0 = state.found@;
    let ghost r0 = state.remaining as int;
    let ghost nn = state.tab_count();
    let ghost nm = onames_view(state.original_names@);
    if state.restoring {
        let ghost sk: Option<u32> = Some(current_candidate);
        let mut current_marker_present = false;
        let mut i: usize = 0;
        proof {
            assert(hv.skip(0) =~= hv);
            assert(command_views(cmds@) =~= Seq::<CommandView>::empty());
            assert(spec_absorb_hits(f0, r0, nn, nm, hv, sk).2 =~= command_views(cmds@)
                + spec_absorb_hits(f0, r0, nn, nm, hv.skip(0), sk).2);
        }
        while i < hit_len
            invariant
                0 <= i <= hit_len,
                hit_len == hv.len(),
                hits@ == hv,
                state.wf(),
                state.original_names@ == old(state).original_names@,
                state.restoring == old(state).restoring,
                old(state).restoring,
                state.restore_retries == old(state).restore_retries,
                state.candidate == old(state).candidate,
                current_candidate == old(state).candidate,
                sk == Some(current_candidate),
                nn == old(state).tab_count(),
                nm == onames_view(old(state).original_names@),
                f0 == old(state).found@,
                r0 == old(state).remaining as int,
                current_marker_present == hits_have_candidate(hv.take(i as int), current_candidate),
                spec_absorb_hits(f0, r0, nn, nm, hv, sk).0 == spec_absorb_hits(
                    state.found@,
                    state.remaining as int,
                    nn,
                    nm,
                    hv.skip(i as int),
                    sk,
                ).0,
                spec_absorb_hits(f0, r0, nn, nm, hv, sk).1 == spec_absorb_hits(
                    state.found@,
                    state.remaining as int,
                    nn,
                    nm,
                    hv.skip(i as int),
                    sk,
                ).1,
                spec_absorb_hits(f0, r0, nn, nm, hv, sk).2 == command_views(cmds@)
                    + spec_absorb_hits(
                    state.found@,
                    state.remaining as int,
                    nn,
                    nm,
                    hv.skip(i as int),
                    sk,
                ).2,
            decreases hit_len - i,
        {
            let ghost i0 = i as int;
            let ghost fprev = state.found@;
            let ghost rprev = state.remaining as int;
            let position = hits[i].0;
            let candidate = hits[i].1;
            proof {
                assert(hv.take(i0 + 1).drop_last() =~= hv.take(i0));
                assert(hv.take(i0 + 1).last() == hv[i0]);
                assert forall|c: u32|
                    hits_have_candidate(hv.take(i0), c) implies hits_have_candidate(
                    hv.take(i0 + 1),
                    c,
                ) by {
                    let w = choose|w: int|
                        0 <= w < hv.take(i0).len() && (#[trigger] hv.take(i0)[w]).1 == c;
                    assert(hv.take(i0 + 1)[w] == hv.take(i0)[w]);
                    assert((hv.take(i0 + 1)[w]).1 == c);
                }
                assert(hv.skip(i0)[0] == hv[i0]);
                assert(hv.skip(i0).drop_first() =~= hv.skip(i0 + 1));
            }
            if candidate == current_candidate {
                current_marker_present = true;
                proof {
                    assert((hv.take(i0 + 1)[i0]).1 == current_candidate);
                }
            } else {
                let _is_new = record_found_candidate(state, position, candidate);
                let ghost cprev = cmds@;
                match restore_probe_marker(state, position, candidate) {
                    Some(cmd) => {
                        cmds.push(cmd);
                    },
                    None => {},
                }
                proof {
                    assert forall|c: u32|
                        hits_have_candidate(hv.take(i0 + 1), c) && c != candidate
                            implies hits_have_candidate(hv.take(i0), c) by {
                        let w = choose|w: int|
                            0 <= w < hv.take(i0 + 1).len() && (#[trigger] hv.take(i0 + 1)[w]).1
                                == c;
                        assert(hv.take(i0)[w] == hv.take(i0 + 1)[w]);
                    }
                    assert(nm.contains_key(position) == old(
                        state,
                    ).original_names@.contains_key(position));
                    let rst: Seq<CommandView> = if nm.contains_key(position) {
                        seq![CommandView::Rename { tab_index: candidate, name: nm[position] }]
                    } else {
                        Seq::empty()
                    };
                    assert(command_views(cmds@) =~= command_views(cprev) + rst);
                    assert(spec_absorb_hits(fprev, rprev, nn, nm, hv.skip(i0), sk).0
                        == spec_absorb_hits(
                        state.found@,
                        state.remaining as int,
                        nn,
                        nm,
                        hv.skip(i0 + 1),
                        sk,
                    ).0);
                    assert(spec_absorb_hits(fprev, rprev, nn, nm, hv.skip(i0), sk).2 == rst
                        + spec_absorb_hits(
                        state.found@,
                        state.remaining as int,
                        nn,
                        nm,
                        hv.skip(i0 + 1),
                        sk,
                    ).2);
                    assert(command_views(cprev) + (rst + spec_absorb_hits(
                        state.found@,
                        state.remaining as int,
                        nn,
                        nm,
                        hv.skip(i0 + 1),
                        sk,
                    ).2) =~= command_views(cmds@) + spec_absorb_hits(
                        state.found@,
                        state.remaining as int,
                        nn,
                        nm,
                        hv.skip(i0 + 1),
                        sk,
                    ).2);
                }
            }
            i = i + 1;
            proof {
                assert(i as int == i0 + 1);
            }
        }
        proof {
            assert(hv.skip(hit_len as int) =~= Seq::<(usize, u32)>::empty());
            assert(hv.take(hit_len as int) =~= hv);
            assert(spec_absorb_hits(f0, r0, nn, nm, hv, sk).2 =~= command_views(cmds@));
        }
        if current_marker_present {
            return (ProbingResult::Continue, cmds);
        }
        state.restoring = false;
        state.restore_retries = 0;
        if state.remaining == 0 {
            proof {
                lemma_found_covers(state.found@, state.tab_count());
            }
            let table = finalize_probe(state);
            proof {
                let v = state.found@.map_values(|p: (usize, u32)| p.1);
                assert forall|a: int, b: int| 0 <= a < b < v.len() implies v[a] != v[b] by {
                    assert(state.found@[a].1 == v[a] && state.found@[b].1 == v[b]);
                }
                assert(forall|i: int| 0 <= i < v.len() ==> #[trigger] v[i] == state.found@[i].1);
            }
            return (ProbingResult::Complete(table), cmds);
        }
        if state.candidate < u32::MAX {
            state.candidate = state.candidate + 1;
        }
        let ghost cprev = cmds@;
        let mut probe = send_probe(state.candidate);
        proof {
            assert(command_views(probe@) =~= probe_cmds(state.candidate));
        }
        cmds.append(&mut probe);
        proof {
            assert(command_views(cmds@) =~= command_views(cprev) + probe_cmds(state.candidate));
        }
        return (ProbingResult::Continue, cmds);
    }
    let ghost sk: Option<u32> = None;
    let mut found_current = false;
    let mut i: usize = 0;
    proof {
        assert(hv.skip(0) =~= hv);
        assert(command_views(cmds@) =~= Seq::<CommandView>::empty());
        assert(spec_absorb_hits(f0, r0, nn, nm, hv, sk).2 =~= command_views(cmds@)
            + spec_absorb_hits(f0, r0, nn, nm, hv.skip(0), sk).2);
    }
    while i < hit_len
        invariant
            0 <= i <= hit_len,
            hit_len == hv.len(),
            hits@ == hv,
            state.wf(),
            state.original_names@ == old(state).original_names@,
            state.restoring == old(state).restoring,
            !old(state).restoring,
            state.restore_retries == old(state).restore_retries,
            state.candidate == old(state).candidate,
            current_candidate == old(state).candidate,
            sk is None,
            nn == old(state).tab_count(),
            nm == onames_view(old(state).original_names@),
            f0 == old(state).found@,
            r0 == old(state).remaining as int,
            found_current == hits_have_candidate(hv.take(i as int), current_candidate),
            spec_absorb_hits(f0, r0, nn, nm, hv, sk).0 == spec_absorb_hits(
                state.found@,
                state.remaining as int,
                nn,
                nm,
                hv.skip(i as int),
                sk,
            ).0,
            spec_absorb_hits(f0, r0, nn, nm, hv, sk).1 == spec_absorb_hits(
                state.found@,
                state.remaining as int,
                nn,
                nm,
                hv.skip(i as int),
                sk,
            ).1,
            spec_absorb_hits(f0, r0, nn, nm, hv, sk).2 == command_views(cmds@) + spec_absorb_hits(
                state.found@,
                state.remaining as int,
                nn,
                nm,
                hv.skip(i as int),
                sk,
            ).2,
        decreases hit_len - i,
    {
        let ghost i0 = i as int;
        let ghost fprev = state.found@;
        let ghost rprev = state.remaining as int;
        let position = hits[i].0;
        let candidate = hits[i].1;
        proof {
            assert(hv.take(i0 + 1).drop_last() =~= hv.take(i0));
            assert(hv.take(i0 + 1).last() == hv[i0]);
            assert forall|c: u32|
                hits_have_candidate(hv.take(i0), c) implies hits_have_candidate(
                hv.take(i0 + 1),
                c,
            ) by {
                let w = choose|w: int|
                    0 <= w < hv.take(i0).len() && (#[trigger] hv.take(i0)[w]).1 == c;
                assert(hv.take(i0 + 1)[w] == hv.take(i0)[w]);
                assert((hv.take(i0 + 1)[w]).1 == c);
            }
            assert forall|c: u32|
                hits_have_candidate(hv.take(i0 + 1), c) && c != candidate
                    implies hits_have_candidate(hv.take(i0), c) by {
                let w = choose|w: int|
                    0 <= w < hv.take(i0 + 1).len() && (#[trigger] hv.take(i0 + 1)[w]).1 == c;
                assert(hv.take(i0)[w] == hv.take(i0 + 1)[w]);
            }
            assert(hv.skip(i0)[0] == hv[i0]);
            assert(hv.skip(i0).drop_first() =~= hv.skip(i0 + 1));
        }
        let _is_new = record_found_candidate(state, position, candidate);
        let ghost cprev = cmds@;
        match restore_probe_marker(state, position, candidate) {
            Some(cmd) => {
                cmds.push(cmd);
            },
            None => {},
        }
        proof {
            assert(nm.contains_key(position) == old(state).original_names@.contains_key(position));
            let rst: Seq<CommandView> = if nm.contains_key(position) {
                seq![CommandView::Rename { tab_index: candidate, name: nm[position] }]
            } else {
                Seq::empty()
            };
            assert(command_views(cmds@) =~= command_views(cprev) + rst);
            assert(spec_absorb_hits(fprev, rprev, nn, nm, hv.skip(i0), sk).0 == spec_absorb_hits(
                state.found@,
                state.remaining as int,
                nn,
                nm,
                hv.skip(i0 + 1),
                sk,
            ).0);
            assert(spec_absorb_hits(fprev, rprev, nn, nm, hv.skip(i0), sk).2 == rst
                + spec_absorb_hits(
                state.found@,
                state.remaining as int,
                nn,
                nm,
                hv.skip(i0 + 1),
                sk,
            ).2);
            assert(command_views(cprev) + (rst + spec_absorb_hits(
                state.found@,
                state.remaining as int,
                nn,
                nm,
                hv.skip(i0 + 1),
                sk,
            ).2) =~= command_views(cmds@) + spec_absorb_hits(
                state.found@,
                state.remaining as int,
                nn,
                nm,
                hv.skip(i0 + 1),
                sk,
            ).2);
        }
        if candidate == current_candidate {
            found_current = true;
            proof {
                assert((hv.take(i0 + 1)[i0]).1 == current_candidate);
            }
        }
        i = i + 1;
        proof {
            assert(i as int == i0 + 1);
        }
    }
    proof {
        assert(hv.skip(hit_len as int) =~= Seq::<(usize, u32)>::empty());
        assert(hv.take(hit_len as int) =~= hv);
        assert(spec_absorb_hits(f0, r0, nn, nm, hv, sk).2 =~= command_views(cmds@));
    }
    if found_current {
        state.restoring = true;
        return (ProbingResult::Continue, cmds);
    }
    if state.remaining == 0 && hit_len == 0 {
        proof {
            lemma_found_covers(state.found@, state.tab_count());
        }
        let table = finalize_probe(state);
        proof {
            let v = state.found@.map_values(|p: (usize, u32)| p.1);
            assert forall|a: int, b: int| 0 <= a < b < v.len() implies v[a] != v[b] by {
                assert(state.found@[a].1 == v[a] && state.found@[b].1 == v[b]);
            }
            assert(forall|i: int| 0 <= i < v.len() ==> #[trigger] v[i] == state.found@[i].1);
        }
        return (ProbingResult::Complete(table), cmds);
    }
    (ProbingResult::Continue, cmds)
}



fn contains_u32_vec(xs: &Vec<u32>, x: u32) -> (r: bool)
    ensures
        r == xs@.contains(x),
{
    let n = xs.len();
    let mut i: usize = 0;
    while i < n
        invariant
            0 <= i <= n,
            n == xs@.len(),
            forall|j: int| 0 <= j < i ==> xs@[j] != x,
        decreases n - i,
    {
        if xs[i] == x {
            return true;
        }
        i = i + 1;
    }
    false
}

/// Search a pane list for a recoverable anchor.
fn find_anchor_choice(
    list: &Vec<PaneRef>,
    anchor_map: &BTreeMap<u32, u32>,
    valid: &Vec<u32>,
    used: &Vec<u32>,
) -> (r: Option<u32>)
    ensures
        r == anchor_choice(list@, anchor_map@, valid@, used@),
{
    let n = list.len();
    let mut k: usize = 0;
    proof {
        assert(list@.skip(0) =~= list@);
    }
    while k < n
        invariant
            0 <= k <= n,
            n == list@.len(),
            anchor_choice(list@, anchor_map@, valid@, used@) == anchor_choice(
                list@.skip(k as int),
                anchor_map@,
                valid@,
                used@,
            ),
        decreases n - k,
    {
        let pane = list[k];
        proof {
            assert(list@.skip(k as int)[0] == list@[k as int]);
            assert(list@.skip(k as int).drop_first() =~= list@.skip(k + 1));
        }
        if !pane.is_plugin {
            match anchor_map.get(&pane.id) {
                Some(idx_ref) => {
                    let idx = *idx_ref;
                    if contains_u32_vec(valid, idx) && !contains_u32_vec(used, idx) {
                        return Some(idx);
                    }
                },
                None => {},
            }
        }
        k = k + 1;
    }
    proof {
        assert(list@.skip(n as int) =~= Seq::<PaneRef>::empty());
    }
    None
}

/// The largest index in the table, 0 for an empty table.
pub open spec fn spec_max_u32(s: Seq<u32>) -> u32
    decreases s.len(),
{
    if s.len() == 0 {
        0u32
    } else {
        let m = spec_max_u32(s.drop_last());
        if s.last() > m {
            s.last()
        } else {
            m
        }
    }
}

/// Every entry is at most the maximum.
proof fn lemma_max_u32(s: Seq<u32>)
    ensures
        forall|i: int| 0 <= i < s.len() ==> (#[trigger] s[i]) <= spec_max_u32(s),
    decreases s.len(),
{
    if s.len() > 0 {
        lemma_max_u32(s.drop_last());
        assert(forall|i: int| 0 <= i < s.len() - 1 ==> s.drop_last()[i] == (#[trigger] s[i]));
    }
}

/// The persistent index recovered for a position from its pane list: the
/// first non-plugin pane whose anchor names an index that is still in use
/// and not already claimed by an earlier position.
pub open spec fn anchor_choice(
    list: Seq<PaneRef>,
    anchor: Map<u32, u32>,
    valid: Seq<u32>,
    used: Seq<u32>,
) -> Option<u32>
    decreases list.len(),
{
    if list.len() == 0 {
        None
    } else if !list[0].is_plugin && anchor.contains_key(list[0].id) && valid.contains(
        anchor[list[0].id],
    ) && !used.contains(anchor[list[0].id]) {
        Some(anchor[list[0].id])
    } else {
        anchor_choice(list.drop_first(), anchor, valid, used)
    }
}

/// A recovered index is a live one and not a repeat.
proof fn lemma_anchor_choice(list: Seq<PaneRef>, anchor: Map<u32, u32>, valid: Seq<u32>, used: Seq<u32>)
    ensures
        anchor_choice(list, anchor, valid, used) matches Some(v) ==> valid.contains(v)
            && !used.contains(v),
    decreases list.len(),
{
    if list.len() > 0 {
        lemma_anchor_choice(list.drop_first(), anchor, valid, used);
    }
}

/// The rebuilt index table for `n` positions: positions with a recovered
/// anchor keep their index, the rest get fresh ones from the counter.
pub open spec fn spec_reindex(
    n: int,
    panes: Seq<Seq<PaneRef>>,
    anchor: Map<u32, u32>,
    valid: Seq<u32>,
    next0: u32,
) -> (Seq<u32>, u32)
    decreases n,
{
    if n <= 0 {
        (Seq::empty(), next0)
    } else {
        let r = spec_reindex(n - 1, panes, anchor, valid, next0);
        let choice = if n - 1 < panes.len() {
            anchor_choice(panes[n - 1], anchor, valid, r.0)
        } else {
            None
        };
        match choice {
            Some(idx) => (r.0.push(idx), r.1),
            None => (r.0.push(r.1), crate::probing::bump(r.1)),
        }
    }
}

/// The rebuilt table has one index per position; as long as the counter
/// has not saturated, its entries are pairwise distinct, below the final
/// counter, and each either kept from the old table or freshly allocated
/// at or above the old counter.
proof fn lemma_reindex_ok(
    n: int,
    panes: Seq<Seq<PaneRef>>,
    anchor: Map<u32, u32>,
    valid: Seq<u32>,
    next0: u32,
)
    requires
        n >= 0,
    ensures
        spec_reindex(n, panes, anchor, valid, next0).0.len() == n,
        spec_reindex(n, panes, anchor, valid, next0).1 >= next0,
        ((forall|i: int| 0 <= i < valid.len() ==> (#[trigger] valid[i]) < next0) && spec_reindex(
            n,
            panes,
            anchor,
            valid,
            next0,
        ).1 != u32::MAX) ==> {
            let (t, nx) = spec_reindex(n, panes, anchor, valid, next0);
            &&& distinct_indices(t)
            &&& (forall|i: int| 0 <= i < t.len() ==> (#[trigger] t[i]) < nx)
            &&& (forall|i: int|
                0 <= i < t.len() ==> valid.contains(#[trigger] t[i]) || next0 <= t[i])
        },
    decreases n,
{
    if n > 0 {
        lemma_reindex_ok(n - 1, panes, anchor, valid, next0);
        let r = spec_reindex(n - 1, panes, anchor, valid, next0);
        let (t, nx) = spec_reindex(n, panes, anchor, valid, next0);
        if n - 1 < panes.len() {
            lemma_anchor_choice(panes[n - 1], anchor, valid, r.0);
        }
        if (forall|i: int| 0 <= i < valid.len() ==> (#[trigger] valid[i]) < next0) && nx
            != u32::MAX {
            assert(r.1 != u32::MAX);
            assert(forall|i: int| 0 <= i < r.0.len() ==> t[i] == (#[trigger] r.0[i]));
            let last = t[t.len() - 1];
            assert forall|a: int, b: int|
                0 <= a < b < t.len() implies (#[trigger] t[a]) != (#[trigger] t[b]) by {
                if b < t.len() - 1 {
                    assert(t[a] == r.0[a] && t[b] == r.0[b]);
                } else {
                    assert(t[a] == r.0[a]);
                    let choice = if n - 1 < panes.len() {
                        anchor_choice(panes[n - 1], anchor, valid, r.0)
                    } else {
                        Option::<u32>::None
                    };
                    match choice {
                        Some(idx) => {
                            assert(!r.0.contains(idx));
                            assert(r.0.contains(r.0[a]));
                        },
                        None => {
                            assert(t[b] == r.1);
                            assert(r.0[a] < r.1);
                        },
                    }
                }
            }
        }
    }
}

/// An identity index table: position i gets index i + 1.
pub open spec fn spec_identity_indices(n: int) -> Seq<u32> {
    Seq::new(n as nat, |i: int| (i + 1) as u32)
}

/// Build the identity index table for `n` positions.
pub fn identity_indices(n: usize) -> (r: Vec<u32>)
    requires
        n <= 0x1000_0000,
    ensures
        r@ == spec_identity_indices(n as int),
{
    let mut r: Vec<u32> = Vec::new();
    let mut i: usize = 0;
    while i < n
        invariant
            0 <= i <= n,
            n <= 0x1000_0000,
            r@ == spec_identity_indices(i as int),
        decreases n - i,
    {
        r.push((i + 1) as u32);
        proof {
            assert(r@ =~= spec_identity_indices(i + 1));
        }
        i = i + 1;
    }
    r
}

/// Partial mapping soundness while positions below `n` have been merged.
pub open spec fn mapping_upto(
    m: Map<u32, (usize, String)>,
    panes: Seq<Seq<PaneRef>>,
    tabs: Seq<Seq<char>>,
    n: int,
) -> bool {
    &&& (forall|p: u32|
        #[trigger] m.contains_key(p) <==> spec_pane_position(panes, n, p) is Some)
    &&& (forall|p: u32|
        #[trigger] m.contains_key(p) ==> {
            let pos = spec_pane_position(panes, n, p)->0;
            &&& m[p].0 == pos
            &&& m[p].1@ == tabs[pos]
        })
}

/// Mapping soundness while one position's pane list is half merged: panes
/// in the merged prefix carry this position, everything else is as it was
/// when the position's merge began.
spec fn rebuild_inner_ok(
    m: Map<u32, (usize, String)>,
    m_outer: Map<u32, (usize, String)>,
    l: Seq<PaneRef>,
    k: int,
    pos: usize,
    name: Seq<char>,
) -> bool {
    &&& (forall|p: u32|
        pane_in_list(l.take(k), p) ==> {
            &&& #[trigger] m.contains_key(p)
            &&& m[p].0 == pos
            &&& m[p].1@ == name
        })
    &&& (forall|p: u32|
        !pane_in_list(l.take(k), p) ==> (#[trigger] m.contains_key(p) == m_outer.contains_key(p)
            && (m_outer.contains_key(p) ==> m[p] == m_outer[p])))
}

/// The pane-to-tab map is exactly what the snapshots say: a pane is known
/// iff some position's list holds it (the highest such position wins), and
/// it carries that position and the tab name there.
pub open spec fn mapping_ok(
    m: Map<u32, (usize, String)>,
    panes: Seq<Seq<PaneRef>>,
    tabs: Seq<Seq<char>>,
) -> bool {
    mapping_upto(m, panes, tabs, tabs.len() as int)
}

/// The anchor map is exactly what the snapshots and the index table say: a
/// pane is anchored iff some position below the table length holds it, and
/// it carries that position's persistent index.
pub open spec fn anchor_ok(m: Map<u32, u32>, panes: Seq<Seq<PaneRef>>, indices: Seq<u32>) -> bool {
    &&& (forall|p: u32|
        #[trigger] m.contains_key(p) <==> spec_pane_position(panes, indices.len() as int, p)
            is Some)
    &&& (forall|p: u32|
        #[trigger] m.contains_key(p) ==> m[p] == indices[spec_pane_position(
            panes,
            indices.len() as int,
            p,
        )->0])
}

/// No persistent index stands at two positions.
pub open spec fn distinct_indices(s: Seq<u32>) -> bool {
    forall|i: int, j: int| 0 <= i < j < s.len() ==> s[i] != s[j]
}

/// Queue keys are pairwise distinct.
pub open spec fn distinct_queue_keys(q: Seq<(u32, String)>) -> bool {
    forall|i: int, j: int| 0 <= i < j < q.len() ==> (#[trigger] q[i]).0 != (#[trigger] q[j]).0
}

/// The position a candidate was found at, if it was.
fn find_found_position(found: &Vec<(usize, u32)>, candidate: u32) -> (r: Option<usize>)
    ensures
        r matches Some(p) ==> exists|i: int|
            0 <= i < found@.len() && (#[trigger] found@[i]) == (p, candidate),
        r is None ==> !found_has_candidate(found@, candidate),
{
    let len = found.len();
    let mut i: usize = 0;
    while i < len
        invariant
            0 <= i <= len,
            len == found@.len(),
            forall|j: int| 0 <= j < i ==> (#[trigger] found@[j]).1 != candidate,
        decreases len - i,
    {
        if found[i].1 == candidate {
            let p = found[i].0;
            proof {
                assert(found@[i as int] == (p, candidate));
            }
            return Some(p);
        }
        i = i + 1;
    }
    None
}

/// The restore-retry commands for a stuck restore: re-issue the restore of
/// the current candidate's recorded position and re-arm the timeout, when
/// that position and its original name are known.
pub open spec fn spec_retry_cmds(st: ProbingState) -> Seq<CommandView> {
    if found_has_candidate(st.found@, st.candidate) {
        let i = choose|i: int|
            0 <= i < st.found@.len() && (#[trigger] st.found@[i]).1 == st.candidate;
        let p = st.found@[i].0;
        if st.original_names@.contains_key(p) {
            seq![
                CommandView::Rename { tab_index: st.candidate, name: st.original_names@[p]@ },
                CommandView::Timeout,
            ]
        } else {
            Seq::empty()
        }
    } else {
        Seq::empty()
    }
}

pub const NOT_READY_OUTPUT: &'static str = "not ready";

/// Whether the action may change state.
pub open spec fn is_mutating_action_spec(action: Seq<char>) -> bool {
    action == "set_status"@ || action == "clear_status"@ || action == "set_name"@
}

/// Recognize a mutating action.
pub fn is_mutating_action(action: &str) -> (r: bool)
    ensures
        r == is_mutating_action_spec(action@),
{
    str_eq(action, "set_status") || str_eq(action, "clear_status") || str_eq(action, "set_name")
}

/// Queries that are answered even while a probe is in flight.
pub fn is_probing_query(action: &str) -> (r: bool)
    ensures
        r == (action@ == "get_version"@ || action@ == "get_debug"@ || action@
            == "probe_indices"@),
{
    str_eq(action, "get_version") || str_eq(action, "get_debug") || str_eq(
        action,
        "probe_indices",
    )
}

/// The position-to-name map a probe snapshots at start.
pub fn names_map_of(tabs: &Vec<String>) -> (r: BTreeMap<usize, String>)
    ensures
        r@.len() == tabs@.len(),
        forall|p: usize| #[trigger] r@.contains_key(p) <==> p < tabs@.len(),
        forall|p: usize| #[trigger] r@.contains_key(p) ==> r@[p]@ == tabs@[p as int]@,
{
    let n = tabs.len();
    let mut r: BTreeMap<usize, String> = BTreeMap::new();
    let mut i: usize = 0;
    while i < n
        invariant
            0 <= i <= n,
            n == tabs@.len(),
            r@.len() == i,
            forall|p: usize| #[trigger] r@.contains_key(p) <==> p < i,
            forall|p: usize| #[trigger] r@.contains_key(p) ==> r@[p]@ == tabs@[p as int]@,
        decreases n - i,
    {
        let ghost before = r@;
        r.insert(i, tabs[i].clone());
        proof {
            assert(r@ == before.insert(i, r@[i]));
            assert(r@.dom() =~= before.dom().insert(i));
            assert(!before.contains_key(i));
            vstd::set::axiom_set_insert_len(before.dom(), i);
        }
        i = i + 1;
    }
    r
}

/// The persistent index a position resolves to under a given table: the
/// table entry, or the one-based position before tracking covers it.
pub open spec fn spec_index_for(indices: Seq<u32>, position: usize) -> u32 {
    if (position as int) < indices.len() {
        indices[position as int]
    } else {
        (position + 1) as u32
    }
}

/// How handler effects translate to host commands under a given index
/// table: a rename addressed by one-based position is re-addressed by the
/// position's persistent index; pipe answers pass through, or are dropped
/// when no channel is waiting.
pub open spec fn spec_effect_cmds(
    evs: Seq<EffectView>,
    indices: Seq<u32>,
    emit_outputs: bool,
) -> Seq<CommandView>
    decreases evs.len(),
{
    if evs.len() == 0 {
        Seq::empty()
    } else {
        let r = spec_effect_cmds(evs.drop_last(), indices, emit_outputs);
        match evs.last() {
            EffectView::Rename { tab_id, name } => {
                if tab_id >= 1 {
                    r.push(
                        CommandView::Rename {
                            tab_index: spec_index_for(indices, (tab_id - 1) as usize),
                            name,
                        },
                    )
                } else {
                    r
                }
            },
            EffectView::Output { pipe_name, output } => {
                if emit_outputs {
                    r.push(CommandView::Output { pipe_name, output })
                } else {
                    r
                }
            },
        }
    }
}

/// The pane-to-tab map the snapshots determine, as plain values.
pub open spec fn spec_mapping(panes: Seq<Seq<PaneRef>>, tabs: Seq<Seq<char>>) -> Map<
    u32,
    (usize, Seq<char>),
> {
    Map::new(
        |p: u32| spec_pane_position(panes, tabs.len() as int, p) is Some,
        |p: u32|
            {
                let pos = spec_pane_position(panes, tabs.len() as int, p)->0;
                (pos as usize, tabs[pos])
            },
    )
}

/// A map that satisfies `mapping_ok` is, as plain values, exactly the map
/// the snapshots determine.
proof fn lemma_mapping_fn(m: Map<u32, (usize, String)>, panes: Seq<Seq<PaneRef>>, tabs: Seq<Seq<char>>)
    requires
        mapping_ok(m, panes, tabs),
    ensures
        map_view(m) == spec_mapping(panes, tabs),
{
    assert forall|p: u32| #[trigger]
        map_view(m).contains_key(p) == spec_mapping(panes, tabs).contains_key(p) by {
        assert(map_view(m).contains_key(p) == m.contains_key(p));
    }
    assert forall|p: u32|
        map_view(m).contains_key(p) implies #[trigger] map_view(m)[p] == spec_mapping(
        panes,
        tabs,
    )[p] by {
        assert(m.contains_key(p));
        lemma_pane_position_bound(panes, tabs.len() as int, p);
    }
    assert(map_view(m) =~= spec_mapping(panes, tabs));
}

/// The next index to hand out over a given table: the highest index in
/// use plus one, saturating at the top of `u32`.
pub open spec fn spec_next_for(t: Seq<u32>) -> u32 {
    if spec_max_u32(t) == u32::MAX {
        u32::MAX
    } else {
        (spec_max_u32(t) + 1) as u32
    }
}

/// The restores a snapshot of leaked probe markers deserves: for every
/// position whose new name is a marker while the previously known name is
/// not, rename the position's tab back to that previous name.
pub open spec fn spec_leaked_cmds(
    new_tabs: Seq<Seq<char>>,
    old_tabs: Seq<Seq<char>>,
    indices: Seq<u32>,
) -> Seq<CommandView>
    decreases new_tabs.len(),
{
    if new_tabs.len() == 0 {
        Seq::empty()
    } else {
        let r = spec_leaked_cmds(new_tabs.drop_last(), old_tabs, indices);
        let i = new_tabs.len() - 1;
        if spec_parse_marker(new_tabs[i]) is Some && i < old_tabs.len() && spec_parse_marker(
            old_tabs[i],
        ) is None {
            r.push(
                CommandView::Rename {
                    tab_index: spec_index_for(indices, i as usize),
                    name: old_tabs[i],
                },
            )
        } else {
            r
        }
    }
}

/// The queued payloads as plain values.
pub open spec fn queue_view(q: Seq<(u32, String)>) -> Seq<(u32, Seq<char>)> {
    q.map_values(|e: (u32, String)| (e.0, e.1@))
}

/// What one flush pass does, entry by entry in order: an entry whose pane
/// the map does not know stays queued verbatim; any other entry is served
/// through the status handler (or, when it does not parse as a status
/// command, the rename handler), its renames re-addressed by persistent
/// index and its pipe answers dropped, and is removed from the queue.
pub open spec fn spec_flush(
    mv: Map<u32, (usize, Seq<char>)>,
    entries: Seq<(u32, Seq<char>)>,
    indices: Seq<u32>,
) -> (Map<u32, (usize, Seq<char>)>, Seq<(u32, Seq<char>)>, Seq<CommandView>)
    decreases entries.len(),
{
    if entries.len() == 0 {
        (mv, Seq::empty(), Seq::empty())
    } else {
        let pane_id = entries[0].0;
        let payload = entries[0].1;
        if !mv.contains_key(pane_id) {
            let rest = spec_flush(mv, entries.drop_first(), indices);
            (rest.0, seq![entries[0]] + rest.1, rest.2)
        } else {
            let served = if spec_status_payload(payload) is Some {
                spec_handle_status(mv, Some(payload), ""@)
            } else {
                spec_handle_rename(mv, Some(payload))
            };
            let cmds = spec_effect_cmds(served.1, indices, false);
            let rest = spec_flush(served.0, entries.drop_first(), indices);
            (rest.0, rest.1, cmds + rest.2)
        }
    }
}

/// A flush over a map that knows no pane keeps everything queued.
proof fn lemma_flush_all_unknown(
    mv: Map<u32, (usize, Seq<char>)>,
    entries: Seq<(u32, Seq<char>)>,
    indices: Seq<u32>,
)
    requires
        forall|k: u32| !mv.contains_key(k),
    ensures
        spec_flush(mv, entries, indices).0 == mv,
        spec_flush(mv, entries, indices).1 == entries,
        spec_flush(mv, entries, indices).2 == Seq::<CommandView>::empty(),
    decreases entries.len(),
{
    if entries.len() > 0 {
        lemma_flush_all_unknown(mv, entries.drop_first(), indices);
        assert(seq![entries[0]] + entries.drop_first() =~= entries);
    }
}

/// The event-driven coordinator.
pub struct Dispatcher {
    /// Current tab names, by position.
    pub tabs: Vec<String>,
    /// Current pane lists, by position.
    pub panes: Vec<Vec<PaneRef>>,
    /// Persistent index for each position.
    pub tab_indices: Vec<u32>,
    /// The next persistent index to hand out.
    pub next_tab_index: u32,
    /// Anchors: pane id -> persistent index of its tab.
    pub pane_tab_index: BTreeMap<u32, u32>,
    /// Whether a probe is in flight.
    pub phase: Phase,
    /// pane id -> (position, cached tab name).
    pub pane_to_tab: PaneTabMap,
    /// Deferred mutating payloads, keyed by pane id, latest wins.
    pub queued_mutations: Vec<(u32, String)>,
}

impl Dispatcher {
    /// The index table is sound: entries pairwise distinct and below the
    /// next index to hand out. Only an index counter saturated at the top
    /// of `u32` (never reached in practice) excuses either.
    pub open spec fn table_ok(self) -> bool {
        &&& self.tab_indices@.len() <= 0x1000_0000
        &&& self.next_tab_index >= 1
        &&& (forall|i: int|
            0 <= i < self.tab_indices@.len() ==> (#[trigger] self.tab_indices@[i])
                < self.next_tab_index || self.next_tab_index == u32::MAX)
        &&& (distinct_indices(self.tab_indices@) || self.next_tab_index == u32::MAX)
    }

    /// Everything `inv` says except that the table length matches the tab
    /// snapshot; holds midway through a snapshot update.
    pub open spec fn inv_except_snapshot(self) -> bool {
        &&& self.tabs@.len() <= 0x1000_0000
        &&& self.table_ok()
        &&& (match self.phase {
            Phase::Probing(st) => st.wf(),
            Phase::Ready => true,
        })
        &&& pane_tab_wf(self.pane_to_tab@)
        &&& distinct_queue_keys(self.queued_mutations@)
    }

    /// State soundness: the index table matches the snapshot length while
    /// no probe is in flight, its entries are pairwise distinct and below
    /// the next index to hand out, an in-flight probe is well-formed, the
    /// queue holds one entry per pane, and sizes leave room for the index
    /// arithmetic.
    pub open spec fn inv(self) -> bool {
        &&& self.inv_except_snapshot()
        &&& (self.phase is Ready ==> self.tab_indices@.len() == self.tabs@.len())
    }

    /// A fresh coordinator with nothing known.
    pub fn new() -> (r: Dispatcher)
        ensures
            r.inv(),
            r.tabs@.len() == 0,
            r.panes@.len() == 0,
            r.tab_indices@.len() == 0,
            r.next_tab_index == 1,
            r.pane_tab_index@ == Map::<u32, u32>::empty(),
            r.phase is Ready,
            r.pane_to_tab@ == Map::<u32, (usize, String)>::empty(),
            r.queued_mutations@.len() == 0,
    {
        Dispatcher {
            tabs: Vec::new(),
            panes: Vec::new(),
            tab_indices: Vec::new(),
            next_tab_index: 1,
            pane_tab_index: BTreeMap::new(),
            phase: Phase::Ready,
            pane_to_tab: BTreeMap::new(),
            queued_mutations: Vec::new(),
        }
    }

    /// Rebuild the pane-to-tab map from the current snapshots.
    fn rebuild_mapping(&mut self)
        requires
            old(self).tabs@.len() < 0xffff_ffff,
        ensures
            mapping_ok(
                final(self).pane_to_tab@,
                panes_view(old(self).panes@),
                names_view(old(self).tabs@),
            ),
            pane_tab_wf(final(self).pane_to_tab@),
            final(self).tabs == old(self).tabs,
            final(self).panes == old(self).panes,
            final(self).tab_indices == old(self).tab_indices,
            final(self).next_tab_index == old(self).next_tab_index,
            final(self).pane_tab_index == old(self).pane_tab_index,
            final(self).phase == old(self).phase,
            final(self).queued_mutations == old(self).queued_mutations,
    {
        let ghost pv = panes_view(self.panes@);
        let ghost tv = names_view(self.tabs@);
        self.pane_to_tab = BTreeMap::new();
        let n = self.tabs.len();
        let mut pos: usize = 0;
        proof {
            assert(mapping_upto(self.pane_to_tab@, pv, tv, 0));
        }
        while pos < n
            invariant
                0 <= pos <= n,
                n == self.tabs@.len(),
                n < 0xffff_ffff,
                pv == panes_view(self.panes@),
                tv == names_view(self.tabs@),
                self.tabs == old(self).tabs,
                self.panes == old(self).panes,
                self.tab_indices == old(self).tab_indices,
                self.next_tab_index == old(self).next_tab_index,
                self.pane_tab_index == old(self).pane_tab_index,
                self.phase == old(self).phase,
                self.queued_mutations == old(self).queued_mutations,
                mapping_upto(self.pane_to_tab@, pv, tv, pos as int),
            decreases n - pos,
        {
            let ghost m_outer = self.pane_to_tab@;
            let ghost pos0 = pos as int;
            if pos < self.panes.len() {
                let list_len = self.panes[pos].len();
                let mut k: usize = 0;
                proof {
                    assert(pv[pos as int].take(0) =~= Seq::<PaneRef>::empty());
                    assert(rebuild_inner_ok(self.pane_to_tab@, m_outer, pv[pos as int], 0, pos, tv[pos as int]));
                }
                while k < list_len
                    invariant
                        0 <= k <= list_len,
                        0 <= pos < n,
                        n == self.tabs@.len(),
                        n < 0xffff_ffff,
                        pos < self.panes@.len(),
                        pos0 == pos as int,
                        list_len == self.panes@[pos as int]@.len(),
                        pv == panes_view(self.panes@),
                        tv == names_view(self.tabs@),
                        self.tabs == old(self).tabs,
                        self.panes == old(self).panes,
                        self.tab_indices == old(self).tab_indices,
                        self.next_tab_index == old(self).next_tab_index,
                        self.pane_tab_index == old(self).pane_tab_index,
                        self.phase == old(self).phase,
                        self.queued_mutations == old(self).queued_mutations,
                        rebuild_inner_ok(
                            self.pane_to_tab@,
                            m_outer,
                            pv[pos as int],
                            k as int,
                            pos,
                            tv[pos as int],
                        ),
                    decreases list_len - k,
                {
                    let pane = self.panes[pos][k];
                    let ghost mprev = self.pane_to_tab@;
                    let ghost k0 = k as int;
                    proof {
                        assert(pv[pos as int][k as int] == pane);
                    }
                    if !pane.is_plugin {
                        let name = self.tabs[pos].clone();
                        self.pane_to_tab.insert(pane.id, (pos, name));
                        proof {
                            assert(self.pane_to_tab@ == mprev.insert(
                                pane.id,
                                self.pane_to_tab@[pane.id],
                            ));
                            assert(self.pane_to_tab@[pane.id].0 == pos
                                && self.pane_to_tab@[pane.id].1@ == tv[pos as int]);
                        }
                    }
                    k = k + 1;
                    proof {
                        assert(pv[pos0] == panes_view(self.panes@)[pos0]);
                        assert(pv[pos0] == self.panes@[pos0]@);
                        assert(pv[pos0].len() == list_len);
                        assert(tv[pos0] == names_view(self.tabs@)[pos0]);
                        assert(0 <= k0 < list_len);
                        assert(rebuild_inner_ok(mprev, m_outer, pv[pos0], k0, pos, tv[pos0]));
                        assert forall|p: u32|
                            pane_in_list(pv[pos0].take(k0 + 1), p) implies {
                            &&& #[trigger] self.pane_to_tab@.contains_key(p)
                            &&& self.pane_to_tab@[p].0 == pos
                            &&& self.pane_to_tab@[p].1@ == tv[pos0]
                        } by {
                            lemma_pane_prefix_step(pv[pos0], k0, p);
                            if !pane.is_plugin && pane.id == p {
                                assert(self.pane_to_tab@.contains_key(p));
                            } else {
                                assert(pane_in_list(pv[pos0].take(k0), p));
                                assert(mprev.contains_key(p));
                                assert(mprev[p].0 == pos);
                                assert(mprev[p].1@ == tv[pos0]);
                                assert(self.pane_to_tab@.contains_key(p) && self.pane_to_tab@[p]
                                    == mprev[p]);
                            }
                        }
                        assert forall|p: u32|
                            !pane_in_list(pv[pos0].take(k0 + 1), p) implies (
                        #[trigger] self.pane_to_tab@.contains_key(p) == m_outer.contains_key(p) && (
                        m_outer.contains_key(p) ==> self.pane_to_tab@[p] == m_outer[p])) by {
                            assert(!pane_in_list(pv[pos0].take(k0), p)) by {
                                if pane_in_list(pv[pos0].take(k0), p) {
                                    lemma_pane_in_prefix(pv[pos0], k0, k0 + 1, p);
                                }
                            }
                            assert(mprev.contains_key(p) == m_outer.contains_key(p));
                            if !pane.is_plugin {
                                assert(p != pane.id) by {
                                    assert(!(pv[pos0].take(k0 + 1)[k0]).is_plugin);
                                }
                            }
                            assert(self.pane_to_tab@.contains_key(p) == mprev.contains_key(p));
                        }
                        assert(rebuild_inner_ok(
                            self.pane_to_tab@,
                            m_outer,
                            pv[pos0],
                            k0 + 1,
                            pos,
                            tv[pos0],
                        ));
                        assert(k as int == k0 + 1);
                    }
                }
                proof {
                    assert(pv[pos as int].take(list_len as int) =~= pv[pos as int]);
                }
            }
            pos = pos + 1;
            proof {
                assert forall|p: u32| #[trigger]
                    self.pane_to_tab@.contains_key(p) <==> spec_pane_position(
                        pv,
                        pos0 + 1,
                        p,
                    ) is Some by {
                    if pos0 < pv.len() && pane_in_list(pv[pos0], p) {
                        assert(self.pane_to_tab@.contains_key(p));
                    } else {
                        assert(m_outer.contains_key(p) <==> spec_pane_position(
                            pv,
                            pos0,
                            p,
                        ) is Some);
                        if pos0 < pv.len() {
                            assert(!pane_in_list(pv[pos0].take(pv[pos0].len() as int), p)) by {
                                if pane_in_list(pv[pos0].take(pv[pos0].len() as int), p) {
                                    assert(pv[pos0].take(pv[pos0].len() as int) =~= pv[pos0]);
                                }
                            }
                        }
                    }
                }
                assert forall|p: u32| #[trigger]
                    self.pane_to_tab@.contains_key(p) implies {
                    let q = spec_pane_position(pv, pos0 + 1, p)->0;
                    &&& self.pane_to_tab@[p].0 == q
                    &&& self.pane_to_tab@[p].1@ == tv[q]
                } by {
                    if pos0 < pv.len() && pane_in_list(pv[pos0], p) {
                        assert(pane_in_list(pv[pos0].take(pv[pos0].len() as int), p)) by {
                            assert(pv[pos0].take(pv[pos0].len() as int) =~= pv[pos0]);
                        }
                        assert(self.pane_to_tab@[p].0 == pos0 && self.pane_to_tab@[p].1@
                            == tv[pos0]);
                    } else {
                        if pos0 < pv.len() {
                            assert(!pane_in_list(pv[pos0].take(pv[pos0].len() as int), p)) by {
                                if pane_in_list(pv[pos0].take(pv[pos0].len() as int), p) {
                                    assert(pv[pos0].take(pv[pos0].len() as int) =~= pv[pos0]);
                                }
                            }
                        }
                        assert(m_outer.contains_key(p) && self.pane_to_tab@[p] == m_outer[p]);
                    }
                }
                assert(mapping_upto(self.pane_to_tab@, pv, tv, pos0 + 1));
                assert(pos as int == pos0 + 1);
            }
        }
        proof {
            assert(mapping_upto(self.pane_to_tab@, pv, tv, n as int));
            assert forall|p: u32| #[trigger]
                self.pane_to_tab@.contains_key(p) implies self.pane_to_tab@[p].0 < 0xffff_ffff by {
                lemma_pane_position_bound(pv, n as int, p);
            }
        }
    }

    /// Rebuild the anchors: every non-plugin pane at a position covered by
    /// the index table anchors to that position's persistent index; stale
    /// anchors are dropped wholesale.
    fn sync_pane_tab_index(&mut self)
        ensures
            anchor_ok(
                final(self).pane_tab_index@,
                panes_view(old(self).panes@),
                old(self).tab_indices@,
            ),
            final(self).tabs == old(self).tabs,
            final(self).panes == old(self).panes,
            final(self).tab_indices == old(self).tab_indices,
            final(self).next_tab_index == old(self).next_tab_index,
            final(self).pane_to_tab == old(self).pane_to_tab,
            final(self).phase == old(self).phase,
            final(self).queued_mutations == old(self).queued_mutations,
    {
        let ghost pv = panes_view(self.panes@);
        let ghost idx = self.tab_indices@;
        self.pane_tab_index = BTreeMap::new();
        let n = self.tab_indices.len();
        let mut pos: usize = 0;
        while pos < n
            invariant
                0 <= pos <= n,
                n == self.tab_indices@.len(),
                pv == panes_view(self.panes@),
                idx == self.tab_indices@,
                self.tabs == old(self).tabs,
                self.panes == old(self).panes,
                self.tab_indices == old(self).tab_indices,
                self.next_tab_index == old(self).next_tab_index,
                self.pane_to_tab == old(self).pane_to_tab,
                self.phase == old(self).phase,
                self.queued_mutations == old(self).queued_mutations,
                forall|p: u32|
                    #[trigger] self.pane_tab_index@.contains_key(p) <==> spec_pane_position(
                        pv,
                        pos as int,
                        p,
                    ) is Some,
                forall|p: u32|
                    #[trigger] self.pane_tab_index@.contains_key(p) ==> self.pane_tab_index@[p]
                        == idx[spec_pane_position(pv, pos as int, p)->0],
            decreases n - pos,
        {
            let ghost m_outer = self.pane_tab_index@;
            if pos < self.panes.len() {
                let list_len = self.panes[pos].len();
                let tab_idx = self.tab_indices[pos];
                let mut k: usize = 0;
                proof {
                    assert(pv[pos as int].take(0) =~= Seq::<PaneRef>::empty());
                }
                while k < list_len
                    invariant
                        0 <= k <= list_len,
                        0 <= pos < n,
                        n == self.tab_indices@.len(),
                        pos < self.panes@.len(),
                        list_len == self.panes@[pos as int]@.len(),
                        pv == panes_view(self.panes@),
                        idx == self.tab_indices@,
                        tab_idx == idx[pos as int],
                        self.tabs == old(self).tabs,
                        self.panes == old(self).panes,
                        self.tab_indices == old(self).tab_indices,
                        self.next_tab_index == old(self).next_tab_index,
                        self.pane_to_tab == old(self).pane_to_tab,
                        self.phase == old(self).phase,
                        self.queued_mutations == old(self).queued_mutations,
                        forall|p: u32|
                            pane_in_list(pv[pos as int].take(k as int), p) ==> {
                                &&& #[trigger] self.pane_tab_index@.contains_key(p)
                                &&& self.pane_tab_index@[p] == tab_idx
                            },
                        forall|p: u32|
                            !pane_in_list(pv[pos as int].take(k as int), p) ==> (
                            #[trigger] self.pane_tab_index@.contains_key(p) == m_outer.contains_key(
                                p,
                            ) && (m_outer.contains_key(p) ==> self.pane_tab_index@[p]
                                == m_outer[p])),
                    decreases list_len - k,
                {
                    let pane = self.panes[pos][k];
                    let ghost mprev = self.pane_tab_index@;
                    proof {
                        assert(pv[pos as int][k as int] == pane);
                    }
                    if !pane.is_plugin {
                        self.pane_tab_index.insert(pane.id, tab_idx);
                        proof {
                            assert(self.pane_tab_index@ == mprev.insert(pane.id, tab_idx));
                        }
                    }
                    proof {
                        let l = pv[pos as int];
                        assert forall|p: u32| pane_in_list(l.take(k + 1), p) implies {
                            &&& #[trigger] self.pane_tab_index@.contains_key(p)
                            &&& self.pane_tab_index@[p] == tab_idx
                        } by {
                            lemma_pane_prefix_step(l, k as int, p);
                            if !pane.is_plugin && pane.id == p {
                                assert(self.pane_tab_index@.contains_key(p));
                            } else {
                                assert(pane_in_list(l.take(k as int), p));
                                assert(mprev.contains_key(p));
                                assert(self.pane_tab_index@.contains_key(p)
                                    && self.pane_tab_index@[p] == mprev[p]);
                            }
                        }
                        assert forall|p: u32| !pane_in_list(l.take(k + 1), p) implies (
                        #[trigger] self.pane_tab_index@.contains_key(p) == m_outer.contains_key(p)
                            && (m_outer.contains_key(p) ==> self.pane_tab_index@[p]
                            == m_outer[p])) by {
                            assert(!pane_in_list(l.take(k as int), p)) by {
                                if pane_in_list(l.take(k as int), p) {
                                    lemma_pane_in_prefix(l, k as int, k + 1, p);
                                }
                            }
                            assert(mprev.contains_key(p) == m_outer.contains_key(p));
                            if !pane.is_plugin {
                                assert(p != pane.id) by {
                                    assert(!(l.take(k + 1)[k as int]).is_plugin);
                                }
                            }
                            assert(self.pane_tab_index@.contains_key(p) == mprev.contains_key(p));
                        }
                    }
                    k = k + 1;
                }
                proof {
                    assert(pv[pos as int].take(list_len as int) =~= pv[pos as int]);
                }
            }
            pos = pos + 1;
        }
    }

    /// The persistent index for a position: from the table, or the
    /// one-based position as a best-effort guess before tracking begins.
    pub open spec fn spec_tab_index(self, position: usize) -> u32 {
        spec_index_for(self.tab_indices@, position)
    }

    /// Look up the persistent index for a position.
    pub fn get_tab_index(&self, position: usize) -> (r: u32)
        requires
            position < 0xffff_ffff,
        ensures
            r == self.spec_tab_index(position),
    {
        if position < self.tab_indices.len() {
            self.tab_indices[position]
        } else {
            (position + 1) as u32
        }
    }

    /// Rebuild the index table for `n` positions after a structural change,
    /// recovering indices through pane anchors and allocating fresh ones
    /// elsewhere; the counter is then re-derived as the highest index in
    /// use plus one, mirroring the host's allocation rule.
    fn reindex_structural(&mut self, n: usize)
        requires
            n <= 0x1000_0000,
            old(self).table_ok(),
        ensures
            final(self).table_ok(),
            final(self).tab_indices@ == spec_reindex(
                n as int,
                panes_view(old(self).panes@),
                old(self).pane_tab_index@,
                old(self).tab_indices@,
                old(self).next_tab_index,
            ).0,
            final(self).tab_indices@.len() == n,
            final(self).next_tab_index == (if spec_reindex(
                n as int,
                panes_view(old(self).panes@),
                old(self).pane_tab_index@,
                old(self).tab_indices@,
                old(self).next_tab_index,
            ).1 == u32::MAX || spec_max_u32(final(self).tab_indices@) == u32::MAX {
                u32::MAX
            } else {
                (spec_max_u32(final(self).tab_indices@) + 1) as u32
            }),
            (forall|i: int|
                0 <= i < old(self).tab_indices@.len() ==> (#[trigger] old(self).tab_indices@[i])
                    < old(self).next_tab_index) ==> {
                let nx = spec_reindex(
                    n as int,
                    panes_view(old(self).panes@),
                    old(self).pane_tab_index@,
                    old(self).tab_indices@,
                    old(self).next_tab_index,
                ).1;
                nx != u32::MAX ==> {
                    &&& distinct_indices(final(self).tab_indices@)
                    &&& (forall|i: int|
                        0 <= i < final(self).tab_indices@.len() ==> old(
                            self,
                        ).tab_indices@.contains(#[trigger] final(self).tab_indices@[i]) || old(
                            self,
                        ).next_tab_index <= final(self).tab_indices@[i])
                }
            },
            final(self).tabs == old(self).tabs,
            final(self).panes == old(self).panes,
            final(self).pane_tab_index == old(self).pane_tab_index,
            final(self).pane_to_tab == old(self).pane_to_tab,
            final(self).phase == old(self).phase,
            final(self).queued_mutations == old(self).queued_mutations,
    {
        let ghost pv = panes_view(self.panes@);
        let ghost anchor = self.pane_tab_index@;
        let ghost valid0 = self.tab_indices@;
        let ghost next0 = self.next_tab_index;
        let mut new_indices: Vec<u32> = Vec::new();
        let mut next = self.next_tab_index;
        let mut pos: usize = 0;
        proof {
            assert(spec_reindex(0, pv, anchor, valid0, next0).0 =~= Seq::<u32>::empty());
        }
        while pos < n
            invariant
                0 <= pos <= n,
                n <= 0x1000_0000,
                pv == panes_view(self.panes@),
                anchor == self.pane_tab_index@,
                valid0 == self.tab_indices@,
                next0 == old(self).next_tab_index,
                *self == *old(self),
                new_indices@.len() == pos,
                new_indices@ == spec_reindex(pos as int, pv, anchor, valid0, next0).0,
                next == spec_reindex(pos as int, pv, anchor, valid0, next0).1,
            decreases n - pos,
        {
            let ghost pos0 = pos as int;
            let choice: Option<u32> = if pos < self.panes.len() {
                let c = find_anchor_choice(
                    &self.panes[pos],
                    &self.pane_tab_index,
                    &self.tab_indices,
                    &new_indices,
                );
                proof {
                    assert(pv[pos0] == self.panes@[pos0]@);
                }
                c
            } else {
                None
            };
            proof {
                assert(choice == (if pos0 < pv.len() {
                    anchor_choice(pv[pos0], anchor, valid0, new_indices@)
                } else {
                    Option::<u32>::None
                }));
            }
            match choice {
                Some(idx) => {
                    new_indices.push(idx);
                },
                None => {
                    new_indices.push(next);
                    if next < u32::MAX {
                        next = next + 1;
                    }
                },
            }
            pos = pos + 1;
            proof {
                assert(pos as int == pos0 + 1);
                assert(spec_reindex(pos0 + 1, pv, anchor, valid0, next0).0.drop_last()
                    =~= spec_reindex(pos0, pv, anchor, valid0, next0).0);
                assert(new_indices@ =~= spec_reindex(pos0 + 1, pv, anchor, valid0, next0).0);
                assert(next == spec_reindex(pos0 + 1, pv, anchor, valid0, next0).1);
            }
        }
        self.tab_indices = new_indices;
        let mut mx: u32 = 0;
        let len = self.tab_indices.len();
        let mut i: usize = 0;
        proof {
            assert(self.tab_indices@.take(0) =~= Seq::<u32>::empty());
        }
        while i < len
            invariant
                0 <= i <= len,
                len == self.tab_indices@.len(),
                mx == spec_max_u32(self.tab_indices@.take(i as int)),
            decreases len - i,
        {
            proof {
                assert(self.tab_indices@.take(i + 1).drop_last() =~= self.tab_indices@.take(
                    i as int,
                ));
            }
            if self.tab_indices[i] > mx {
                mx = self.tab_indices[i];
            }
            i = i + 1;
        }
        proof {
            assert(self.tab_indices@.take(len as int) =~= self.tab_indices@);
        }
        self.next_tab_index = if next == u32::MAX || mx == u32::MAX {
            u32::MAX
        } else {
            mx + 1
        };
        proof {
            lemma_reindex_ok(n as int, pv, anchor, valid0, next0);
            lemma_max_u32(self.tab_indices@);
            if self.next_tab_index != u32::MAX {
                assert(next != u32::MAX);
                assert(next0 != u32::MAX);
                assert(forall|i: int|
                    0 <= i < valid0.len() ==> (#[trigger] valid0[i]) < next0);
                assert(distinct_indices(self.tab_indices@));
            }
        }
    }

    /// The current tab names, one per position.
    pub fn tab_names(&self) -> (r: Vec<String>)
        ensures
            names_view(r@) == names_view(self.tabs@),
            r@.len() == self.tabs@.len(),
    {
        let n = self.tabs.len();
        let mut r: Vec<String> = Vec::new();
        let mut i: usize = 0;
        while i < n
            invariant
                0 <= i <= n,
                n == self.tabs@.len(),
                r@.len() == i,
                forall|j: int| 0 <= j < i ==> (#[trigger] r@[j])@ == self.tabs@[j]@,
            decreases n - i,
        {
            r.push(self.tabs[i].clone());
            i = i + 1;
        }
        proof {
            assert(names_view(r@) =~= names_view(self.tabs@));
        }
        r
    }

    /// Whether a probe is in flight.
    pub fn is_probing(&self) -> (r: bool)
        ensures
            r == (self.phase is Probing),
    {
        match &self.phase {
            Phase::Probing(_) => true,
            Phase::Ready => false,
        }
    }

    /// Re-derive the next index to hand out as the highest index in use
    /// plus one, mirroring the host's allocation rule.
    fn recompute_next_index(&mut self)
        ensures
            final(self).next_tab_index == (if spec_max_u32(final(self).tab_indices@) == u32::MAX {
                u32::MAX
            } else {
                (spec_max_u32(final(self).tab_indices@) + 1) as u32
            }),
            final(self).tabs == old(self).tabs,
            final(self).panes == old(self).panes,
            final(self).tab_indices == old(self).tab_indices,
            final(self).pane_tab_index == old(self).pane_tab_index,
            final(self).pane_to_tab == old(self).pane_to_tab,
            final(self).phase == old(self).phase,
            final(self).queued_mutations == old(self).queued_mutations,
    {
        let mut mx: u32 = 0;
        let len = self.tab_indices.len();
        let mut i: usize = 0;
        proof {
            assert(self.tab_indices@.take(0) =~= Seq::<u32>::empty());
        }
        while i < len
            invariant
                0 <= i <= len,
                len == self.tab_indices@.len(),
                *self == *old(self),
                mx == spec_max_u32(self.tab_indices@.take(i as int)),
            decreases len - i,
        {
            proof {
                assert(self.tab_indices@.take(i + 1).drop_last() =~= self.tab_indices@.take(
                    i as int,
                ));
            }
            if self.tab_indices[i] > mx {
                mx = self.tab_indices[i];
            }
            i = i + 1;
        }
        proof {
            assert(self.tab_indices@.take(len as int) =~= self.tab_indices@);
        }
        self.next_tab_index = if mx == u32::MAX {
            u32::MAX
        } else {
            mx + 1
        };
    }

    /// Track persistent tab indices across snapshot updates. The first
    /// snapshot seeds a temporary identity table and launches probing; an
    /// unchanged position count only refreshes the anchors; a structural
    /// change recovers indices through pane anchors.
    pub fn update_tab_indices(&mut self, new_tabs: &Vec<String>) -> (cmds: Vec<HostCommand>)
        requires
            old(self).inv(),
            old(self).phase is Ready,
            new_tabs@.len() <= 0x1000_0000,
        ensures
            final(self).tab_indices@.len() == new_tabs@.len(),
            final(self).table_ok(),
            anchor_ok(
                final(self).pane_tab_index@,
                panes_view(final(self).panes@),
                final(self).tab_indices@,
            ),
            (match final(self).phase {
                Phase::Probing(st) => st.wf(),
                Phase::Ready => true,
            }),
            old(self).tab_indices@.len() > 0 ==> final(self).phase is Ready && cmds@.len() == 0,
            old(self).tab_indices@.len() > 0 && old(self).tab_indices@.len() == new_tabs@.len()
                ==> final(self).tab_indices == old(self).tab_indices && final(self).next_tab_index
                == old(self).next_tab_index,
            old(self).tab_indices@.len() > 0 && old(self).tab_indices@.len() != new_tabs@.len()
                ==> ({
                let r = spec_reindex(
                    new_tabs@.len() as int,
                    panes_view(old(self).panes@),
                    old(self).pane_tab_index@,
                    old(self).tab_indices@,
                    old(self).next_tab_index,
                );
                &&& final(self).tab_indices@ == r.0
                &&& final(self).next_tab_index == (if r.1 == u32::MAX || spec_max_u32(r.0)
                    == u32::MAX {
                    u32::MAX
                } else {
                    (spec_max_u32(r.0) + 1) as u32
                })
                &&& (r.1 != u32::MAX && (forall|i: int|
                    0 <= i < old(self).tab_indices@.len() ==> (#[trigger] old(
                        self,
                    ).tab_indices@[i]) < old(self).next_tab_index) ==> forall|i: int|
                    0 <= i < r.0.len() ==> old(self).tab_indices@.contains(#[trigger] r.0[i])
                        || old(self).next_tab_index <= r.0[i])
            }),
            old(self).tab_indices@.len() == 0 ==> {
                &&& final(self).phase is Probing
                &&& final(self).tab_indices@ == spec_identity_indices(new_tabs@.len() as int)
                &&& final(self).next_tab_index == new_tabs@.len() + 1
                &&& (match final(self).phase {
                    Phase::Probing(st) => {
                        &&& st.candidate == 1
                        &&& st.remaining == new_tabs@.len()
                        &&& !st.restoring
                        &&& st.restore_retries == 0
                        &&& st.found@.len() == 0
                        &&& st.original_names@.len() == new_tabs@.len()
                        &&& (forall|p: usize|
                            #[trigger] st.original_names@.contains_key(p) <==> p
                                < new_tabs@.len())
                        &&& (forall|p: usize|
                            #[trigger] st.original_names@.contains_key(p)
                                ==> st.original_names@[p]@ == new_tabs@[p as int]@)
                    },
                    Phase::Ready => false,
                })
                &&& cmds@.len() == 2
                &&& cmds@[0] matches HostCommand::RenameTab {
                    tab_index,
                    name,
                } && tab_index == 1 && name@ == marker_of(1)
                &&& cmds@[1] is SetTimeout
            },
            final(self).tabs == old(self).tabs,
            final(self).panes == old(self).panes,
            final(self).pane_to_tab == old(self).pane_to_tab,
            final(self).queued_mutations == old(self).queued_mutations,
    {
        let new_count = new_tabs.len();
        if self.tab_indices.len() == 0 {
            self.tab_indices = identity_indices(new_count);
            self.next_tab_index = (new_count as u32) + 1;
            self.sync_pane_tab_index();
            let names = names_map_of(new_tabs);
            let st = ProbingState::new(names);
            self.phase = Phase::Probing(st);
            proof {
                assert forall|a: int, b: int|
                    0 <= a < b < self.tab_indices@.len() implies (#[trigger] self.tab_indices@[a])
                        != (#[trigger] self.tab_indices@[b]) by {
                    assert(self.tab_indices@[a] == a + 1 && self.tab_indices@[b] == b + 1);
                }
                assert forall|i: int|
                    0 <= i < self.tab_indices@.len() implies (#[trigger] self.tab_indices@[i])
                        < self.next_tab_index by {
                    assert(self.tab_indices@[i] == i + 1);
                }
            }
            return send_probe(1);
        }
        if new_count == self.tab_indices.len() {
            self.sync_pane_tab_index();
            return Vec::new();
        }
        self.reindex_structural(new_count);
        self.sync_pane_tab_index();
        proof {
            lemma_max_u32(self.tab_indices@);
        }
        Vec::new()
    }

    /// Serve one tab snapshot: feed an in-flight probe, or refresh the
    /// index table, restore any leaked probe marker, rebuild the mapping
    /// and flush what became servable.
    pub fn on_tab_update(&mut self, tabs: Vec<String>) -> (cmds: Vec<HostCommand>)
        requires
            old(self).inv(),
            tabs@.len() <= 0x1000_0000,
        ensures
            final(self).inv(),
            final(self).tabs@ == tabs@,
            final(self).panes == old(self).panes,
            (match old(self).phase {
                Phase::Probing(st0) => ({
                    let hits = spec_hits(names_view(tabs@));
                    let skip_candidate: Option<u32> = if st0.restoring {
                        Some(st0.candidate)
                    } else {
                        None
                    };
                    let ab = spec_absorb_hits(
                        st0.found@,
                        st0.remaining as int,
                        st0.tab_count(),
                        onames_view(st0.original_names@),
                        hits,
                        skip_candidate,
                    );
                    let completes = if st0.restoring {
                        !hits_have_candidate(hits, st0.candidate) && ab.1 == 0
                    } else {
                        !hits_have_candidate(hits, st0.candidate) && ab.1 == 0 && hits.len() == 0
                    };
                    if !completes {
                        &&& final(self).phase is Probing
                        &&& final(self).tab_indices == old(self).tab_indices
                        &&& final(self).next_tab_index == old(self).next_tab_index
                        &&& final(self).pane_tab_index == old(self).pane_tab_index
                        &&& final(self).queued_mutations == old(self).queued_mutations
                        &&& map_view(final(self).pane_to_tab@) == spec_mapping(
                            panes_view(old(self).panes@),
                            names_view(tabs@),
                        )
                        &&& (match final(self).phase {
                            Phase::Probing(st1) => st1.found@ == ab.0 && st1.remaining as int
                                == ab.1,
                            Phase::Ready => false,
                        })
                        &&& command_views(cmds@) == (if st0.restoring {
                            if hits_have_candidate(hits, st0.candidate) {
                                ab.2
                            } else {
                                ab.2 + probe_cmds(bump(st0.candidate))
                            }
                        } else {
                            ab.2
                        })
                    } else {
                        let table0 = ab.0.map_values(|p: (usize, u32)| p.1);
                        let next0 = spec_next_for(table0);
                        &&& final(self).phase is Ready
                        &&& (if table0.len() == tabs@.len() {
                            final(self).tab_indices@ == table0 && final(self).next_tab_index
                                == next0
                        } else {
                            ({
                                let r = spec_reindex(
                                    tabs@.len() as int,
                                    panes_view(old(self).panes@),
                                    old(self).pane_tab_index@,
                                    table0,
                                    next0,
                                );
                                final(self).tab_indices@ == r.0 && final(self).next_tab_index == (
                                if r.1 == u32::MAX || spec_max_u32(r.0) == u32::MAX {
                                    u32::MAX
                                } else {
                                    (spec_max_u32(r.0) + 1) as u32
                                })
                            })
                        })
                        &&& anchor_ok(
                            final(self).pane_tab_index@,
                            panes_view(old(self).panes@),
                            final(self).tab_indices@,
                        )
                        &&& ({
                            let fl = spec_flush(
                                spec_mapping(panes_view(old(self).panes@), names_view(tabs@)),
                                queue_view(old(self).queued_mutations@),
                                final(self).tab_indices@,
                            );
                            &&& map_view(final(self).pane_to_tab@) == fl.0
                            &&& queue_view(final(self).queued_mutations@) == fl.1
                            &&& command_views(cmds@) == ab.2 + fl.2
                        })
                    }
                }),
                Phase::Ready => ({
                    let leaked = spec_leaked_cmds(
                        names_view(tabs@),
                        names_view(old(self).tabs@),
                        final(self).tab_indices@,
                    );
                    if old(self).tab_indices@.len() == 0 {
                        &&& final(self).phase is Probing
                        &&& final(self).tab_indices@ == spec_identity_indices(tabs@.len() as int)
                        &&& final(self).next_tab_index == tabs@.len() + 1
                        &&& final(self).queued_mutations == old(self).queued_mutations
                        &&& map_view(final(self).pane_to_tab@) == spec_mapping(
                            panes_view(old(self).panes@),
                            names_view(tabs@),
                        )
                        &&& command_views(cmds@) == probe_cmds(1) + leaked
                        &&& (match final(self).phase {
                            Phase::Probing(st) => {
                                &&& st.candidate == 1
                                &&& st.remaining == tabs@.len()
                                &&& !st.restoring
                                &&& st.found@.len() == 0
                                &&& st.original_names@.len() == tabs@.len()
                                &&& (forall|p: usize|
                                    #[trigger] st.original_names@.contains_key(p) <==> p
                                        < tabs@.len())
                                &&& (forall|p: usize|
                                    #[trigger] st.original_names@.contains_key(p)
                                        ==> st.original_names@[p]@ == tabs@[p as int]@)
                            },
                            Phase::Ready => false,
                        })
                    } else {
                        &&& final(self).phase is Ready
                        &&& (old(self).tab_indices@.len() == tabs@.len()
                            ==> final(self).tab_indices == old(self).tab_indices
                            && final(self).next_tab_index == old(self).next_tab_index)
                        &&& (old(self).tab_indices@.len() != tabs@.len() ==> ({
                            let r = spec_reindex(
                                tabs@.len() as int,
                                panes_view(old(self).panes@),
                                old(self).pane_tab_index@,
                                old(self).tab_indices@,
                                old(self).next_tab_index,
                            );
                            final(self).tab_indices@ == r.0 && final(self).next_tab_index == (
                            if r.1 == u32::MAX || spec_max_u32(r.0) == u32::MAX {
                                u32::MAX
                            } else {
                                (spec_max_u32(r.0) + 1) as u32
                            })
                        }))
                        &&& anchor_ok(
                            final(self).pane_tab_index@,
                            panes_view(old(self).panes@),
                            final(self).tab_indices@,
                        )
                        &&& ({
                            let fl = spec_flush(
                                spec_mapping(panes_view(old(self).panes@), names_view(tabs@)),
                                queue_view(old(self).queued_mutations@),
                                final(self).tab_indices@,
                            );
                            &&& map_view(final(self).pane_to_tab@) == fl.0
                            &&& queue_view(final(self).queued_mutations@) == fl.1
                            &&& command_views(cmds@) == leaked + fl.2
                        })
                    }
                }),
            }),
    {
        let mut ph = Phase::Ready;
        core::mem::swap(&mut self.phase, &mut ph);
        match ph {
            Phase::Probing(st) => {
                let mut st = st;
                let (result, cmds) = handle_probing(&tabs, &mut st);
                let mut cmds = cmds;
                match result {
                    ProbingResult::Continue => {
                        self.phase = Phase::Probing(st);
                        self.tabs = tabs;
                        self.rebuild_mapping();
                        proof {
                            lemma_mapping_fn(
                                self.pane_to_tab@,
                                panes_view(self.panes@),
                                names_view(self.tabs@),
                            );
                        }
                        cmds
                    },
                    ProbingResult::Complete(table) => {
                        self.phase = Phase::Ready;
                        self.tab_indices = table;
                        self.recompute_next_index();
                        self.tabs = tabs;
                        proof {
                            lemma_max_u32(self.tab_indices@);
                        }
                        if self.tab_indices.len() != self.tabs.len() {
                            let n = self.tabs.len();
                            self.reindex_structural(n);
                            proof {
                                lemma_max_u32(self.tab_indices@);
                            }
                        }
                        self.sync_pane_tab_index();
                        self.rebuild_mapping();
                        proof {
                            lemma_mapping_fn(
                                self.pane_to_tab@,
                                panes_view(self.panes@),
                                names_view(self.tabs@),
                            );
                        }
                        let mut more = self.flush_queued_mutations();
                        let ghost cprev = cmds@;
                        let ghost mviews = command_views(more@);
                        cmds.append(&mut more);
                        proof {
                            assert(command_views(cmds@) =~= command_views(cprev) + mviews);
                        }
                        cmds
                    },
                }
            },
            Phase::Ready => {
                self.phase = Phase::Ready;
                let ghost empty0 = old(self).tab_indices@.len() == 0;
                let mut cmds = self.update_tab_indices(&tabs);
                let ghost utc_views = command_views(cmds@);
                proof {
                    if empty0 {
                        assert(utc_views =~= probe_cmds(1));
                    } else {
                        assert(utc_views =~= Seq::<CommandView>::empty());
                    }
                }
                let ghost new_tv = names_view(tabs@);
                let ghost old_tv = names_view(self.tabs@);
                let ghost idx1 = self.tab_indices@;
                let n = tabs.len();
                let mut i: usize = 0;
                proof {
                    assert(new_tv.take(0) =~= Seq::<Seq<char>>::empty());
                    assert(command_views(cmds@) =~= utc_views + spec_leaked_cmds(
                        new_tv.take(0),
                        old_tv,
                        idx1,
                    ));
                }
                while i < n
                    invariant
                        0 <= i <= n,
                        n == tabs@.len(),
                        n <= 0x1000_0000,
                        self.inv_except_snapshot(),
                        self.phase is Probing || self.tab_indices@.len() == tabs@.len(),
                        new_tv == names_view(tabs@),
                        old_tv == names_view(self.tabs@),
                        idx1 == self.tab_indices@,
                        command_views(cmds@) == utc_views + spec_leaked_cmds(
                            new_tv.take(i as int),
                            old_tv,
                            idx1,
                        ),
                    decreases n - i,
                {
                    let ghost i0 = i as int;
                    proof {
                        assert(new_tv.take(i0 + 1).drop_last() =~= new_tv.take(i0));
                        assert(new_tv.take(i0 + 1).last() == new_tv[i0]);
                        assert(new_tv[i0] == tabs@[i0]@);
                    }
                    match parse_probe_marker(tabs[i].as_str()) {
                        Some(_candidate) => {
                            if i < self.tabs.len() {
                                let prev_name = self.tabs[i].clone();
                                proof {
                                    assert(old_tv[i0] == self.tabs@[i0]@);
                                }
                                if parse_probe_marker(prev_name.as_str()).is_none() {
                                    let actual = self.get_tab_index(i);
                                    let ghost cprev = cmds@;
                                    cmds.push(
                                        HostCommand::RenameTab {
                                            tab_index: actual,
                                            name: prev_name,
                                        },
                                    );
                                    proof {
                                        assert(command_views(cmds@) =~= command_views(cprev).push(
                                            CommandView::Rename {
                                                tab_index: spec_index_for(idx1, i),
                                                name: old_tv[i0],
                                            },
                                        ));
                                    }
                                }
                            }
                        },
                        None => {},
                    }
                    i = i + 1;
                    proof {
                        assert(i as int == i0 + 1);
                        assert(command_views(cmds@) =~= utc_views + spec_leaked_cmds(
                            new_tv.take(i0 + 1),
                            old_tv,
                            idx1,
                        ));
                    }
                }
                proof {
                    assert(new_tv.take(n as int) =~= new_tv);
                }
                self.tabs = tabs;
                self.rebuild_mapping();
                proof {
                    lemma_mapping_fn(
                        self.pane_to_tab@,
                        panes_view(self.panes@),
                        names_view(self.tabs@),
                    );
                }
                let mut more = self.flush_queued_mutations();
                let ghost cprev = cmds@;
                let ghost mviews = command_views(more@);
                cmds.append(&mut more);
                proof {
                    assert(command_views(cmds@) =~= command_views(cprev) + mviews);
                }
                cmds
            },
        }
    }

    /// Serve one pane snapshot: remember it, rebuild the mapping, and
    /// flush what became servable.
    pub fn on_pane_update(&mut self, panes: Vec<Vec<PaneRef>>) -> (cmds: Vec<HostCommand>)
        requires
            old(self).inv(),
        ensures
            final(self).inv(),
            final(self).panes@ == panes@,
            final(self).tabs == old(self).tabs,
            final(self).tab_indices == old(self).tab_indices,
            final(self).next_tab_index == old(self).next_tab_index,
            final(self).pane_tab_index == old(self).pane_tab_index,
            final(self).phase == old(self).phase,
            old(self).phase is Ready ==> ({
                let fl = spec_flush(
                    spec_mapping(panes_view(panes@), names_view(old(self).tabs@)),
                    queue_view(old(self).queued_mutations@),
                    old(self).tab_indices@,
                );
                &&& map_view(final(self).pane_to_tab@) == fl.0
                &&& queue_view(final(self).queued_mutations@) == fl.1
                &&& command_views(cmds@) == fl.2
            }),
            old(self).phase is Probing ==> cmds@.len() == 0 && final(self).queued_mutations == old(
                self,
            ).queued_mutations && mapping_ok(
                final(self).pane_to_tab@,
                panes_view(panes@),
                names_view(old(self).tabs@),
            ),
    {
        self.panes = panes;
        self.rebuild_mapping();
        proof {
            lemma_mapping_fn(
                self.pane_to_tab@,
                panes_view(self.panes@),
                names_view(self.tabs@),
            );
        }
        self.flush_queued_mutations()
    }

    /// Serve the probe timeout: a gap was detected or a restore may have
    /// been dropped; retry the restore, advance the probe, ignore a stale
    /// fire, or give up into the identity table and flush.
    pub fn on_timer(&mut self) -> (cmds: Vec<HostCommand>)
        requires
            old(self).inv(),
        ensures
            final(self).inv(),
            final(self).tabs == old(self).tabs,
            final(self).panes == old(self).panes,
            (match old(self).phase {
                Phase::Ready => *final(self) == *old(self) && cmds@.len() == 0,
                Phase::Probing(st0) => {
                    let n = st0.tab_count();
                    let c1 = bump(st0.candidate);
                    if st0.restoring && st0.restore_retries + 1
                        < crate::probing::MAX_RESTORE_RETRIES {
                        &&& command_views(cmds@) == spec_retry_cmds(st0)
                        &&& (match final(self).phase {
                            Phase::Probing(st1) => {
                                &&& st1.original_names@ == st0.original_names@
                                &&& st1.found@ == st0.found@
                                &&& st1.remaining == st0.remaining
                                &&& st1.candidate == st0.candidate
                                &&& st1.restoring
                                &&& st1.restore_retries == st0.restore_retries + 1
                            },
                            Phase::Ready => false,
                        })
                        &&& final(self).tab_indices == old(self).tab_indices
                        &&& final(self).next_tab_index == old(self).next_tab_index
                        &&& final(self).pane_tab_index == old(self).pane_tab_index
                        &&& final(self).pane_to_tab == old(self).pane_to_tab
                        &&& final(self).queued_mutations == old(self).queued_mutations
                    } else if !st0.restoring && st0.remaining == 0 {
                        &&& cmds@.len() == 0
                        &&& (match final(self).phase {
                            Phase::Probing(st1) => {
                                &&& st1.original_names@ == st0.original_names@
                                &&& st1.found@ == st0.found@
                                &&& st1.remaining == st0.remaining
                                &&& st1.candidate == st0.candidate
                                &&& st1.restoring == st0.restoring
                                &&& st1.restore_retries == st0.restore_retries
                            },
                            Phase::Ready => false,
                        })
                        &&& final(self).tab_indices == old(self).tab_indices
                        &&& final(self).next_tab_index == old(self).next_tab_index
                        &&& final(self).pane_tab_index == old(self).pane_tab_index
                        &&& final(self).pane_to_tab == old(self).pane_to_tab
                        &&& final(self).queued_mutations == old(self).queued_mutations
                    } else if c1 as nat > 3 * n && st0.remaining > 0 {
                        &&& final(self).phase is Ready
                        &&& final(self).tab_indices@ == spec_identity_indices(
                            old(self).tabs@.len() as int,
                        )
                        &&& final(self).next_tab_index == old(self).tabs@.len() + 1
                        &&& anchor_ok(
                            final(self).pane_tab_index@,
                            panes_view(old(self).panes@),
                            final(self).tab_indices@,
                        )
                        &&& ({
                            let fl = spec_flush(
                                spec_mapping(
                                    panes_view(old(self).panes@),
                                    names_view(old(self).tabs@),
                                ),
                                queue_view(old(self).queued_mutations@),
                                final(self).tab_indices@,
                            );
                            &&& map_view(final(self).pane_to_tab@) == fl.0
                            &&& queue_view(final(self).queued_mutations@) == fl.1
                            &&& command_views(cmds@) == fl.2
                        })
                    } else {
                        &&& command_views(cmds@) == probe_cmds(c1)
                        &&& (match final(self).phase {
                            Phase::Probing(st1) => {
                                &&& st1.original_names@ == st0.original_names@
                                &&& st1.found@ == st0.found@
                                &&& st1.remaining == st0.remaining
                                &&& st1.candidate == c1
                                &&& !st1.restoring
                                &&& st1.restore_retries == (if st0.restoring {
                                    0u32
                                } else {
                                    st0.restore_retries
                                })
                            },
                            Phase::Ready => false,
                        })
                        &&& final(self).tab_indices == old(self).tab_indices
                        &&& final(self).next_tab_index == old(self).next_tab_index
                        &&& final(self).pane_tab_index == old(self).pane_tab_index
                        &&& final(self).pane_to_tab == old(self).pane_to_tab
                        &&& final(self).queued_mutations == old(self).queued_mutations
                    }
                },
            }),
    {
        let mut ph = Phase::Ready;
        core::mem::swap(&mut self.phase, &mut ph);
        match ph {
            Phase::Ready => {
                self.phase = Phase::Ready;
                Vec::new()
            },
            Phase::Probing(st) => {
                let ghost st0 = st;
                let mut st = st;
                let result = handle_probe_timer(&mut st);
                match result {
                    TimerResult::Retry => {
                        let mut cmds: Vec<HostCommand> = Vec::new();
                        let position = find_found_position(&st.found, st.candidate);
                        match position {
                            Some(position) => {
                                proof {
                                    let j = choose|j: int|
                                        0 <= j < st.found@.len() && (#[trigger] st.found@[j]) == (
                                        position,
                                        st.candidate,
                                    );
                                    let i = choose|i: int|
                                        0 <= i < st0.found@.len() && (#[trigger] st0.found@[i]).1
                                            == st0.candidate;
                                    assert(st.found@[j].1 == st0.candidate);
                                    assert(i == j);
                                    assert(st0.found@[i].0 == position);
                                }
                                match restore_probe_marker(&st, position, st.candidate) {
                                    Some(cmd) => {
                                        cmds.push(cmd);
                                        cmds.push(HostCommand::SetTimeout);
                                        proof {
                                            assert(command_views(cmds@) =~= spec_retry_cmds(st0));
                                        }
                                    },
                                    None => {
                                        proof {
                                            assert(command_views(cmds@) =~= spec_retry_cmds(st0));
                                        }
                                    },
                                }
                            },
                            None => {
                                proof {
                                    assert(command_views(cmds@) =~= spec_retry_cmds(st0));
                                }
                            },
                        }
                        self.phase = Phase::Probing(st);
                        cmds
                    },
                    TimerResult::AdvanceProbe(c) => {
                        self.phase = Phase::Probing(st);
                        let cmds = send_probe(c);
                        proof {
                            assert(command_views(cmds@) =~= probe_cmds(c));
                        }
                        cmds
                    },
                    TimerResult::Fallback => {
                        let n = self.tabs.len();
                        self.tab_indices = identity_indices(n);
                        self.next_tab_index = (n as u32) + 1;
                        self.phase = Phase::Ready;
                        proof {
                            assert forall|a: int, b: int|
                                0 <= a < b < self.tab_indices@.len() implies (
                            #[trigger] self.tab_indices@[a]) != (#[trigger] self.tab_indices@[b]) by {
                                assert(self.tab_indices@[a] == a + 1 && self.tab_indices@[b] == b
                                    + 1);
                            }
                            assert forall|i: int|
                                0 <= i < self.tab_indices@.len() implies (
                            #[trigger] self.tab_indices@[i]) < self.next_tab_index by {
                                assert(self.tab_indices@[i] == i + 1);
                            }
                        }
                        self.sync_pane_tab_index();
                        self.rebuild_mapping();
                        proof {
                            lemma_mapping_fn(
                                self.pane_to_tab@,
                                panes_view(self.panes@),
                                names_view(self.tabs@),
                            );
                        }
                        self.flush_queued_mutations()
                    },
                    TimerResult::Ignore => {
                        self.phase = Phase::Probing(st);
                        Vec::new()
                    },
                }
            },
        }
    }

    /// Translate handler effects into host commands: a rename addressed by
    /// one-based position is re-addressed by persistent index; pipe answers
    /// pass through, or are dropped when no channel is waiting.
    fn apply_pipe_effects(&self, effects: Vec<PipeEffect>, emit_outputs: bool) -> (cmds: Vec<
        HostCommand,
    >)
        ensures
            command_views(cmds@) == spec_effect_cmds(
                effect_views(effects@),
                self.tab_indices@,
                emit_outputs,
            ),
    {
        let ghost orig = effects@;
        let mut effects = effects;
        let mut cmds: Vec<HostCommand> = Vec::new();
        let ghost mut done: int = 0;
        proof {
            assert(orig.skip(0) =~= orig);
            assert(effect_views(orig.take(0)) =~= Seq::<EffectView>::empty());
            assert(command_views(cmds@) =~= spec_effect_cmds(
                effect_views(orig.take(0)),
                self.tab_indices@,
                emit_outputs,
            ));
        }
        while effects.len() > 0
            invariant
                0 <= done <= orig.len(),
                effects@ == orig.skip(done),
                command_views(cmds@) == spec_effect_cmds(
                    effect_views(orig.take(done)),
                    self.tab_indices@,
                    emit_outputs,
                ),
            decreases effects@.len(),
        {
            let effect = effects.remove(0);
            let ghost cprev = cmds@;
            proof {
                assert(orig.skip(done)[0] == orig[done]);
                assert(orig.skip(done).drop_first() =~= orig.skip(done + 1));
                assert(effect_views(orig.take(done + 1)).drop_last() =~= effect_views(
                    orig.take(done),
                ));
                assert(effect_views(orig.take(done + 1)).last() == effect_view(orig[done]));
            }
            match effect {
                PipeEffect::RenameTab { tab_id, name } => {
                    if tab_id >= 1 {
                        let position = (tab_id - 1) as usize;
                        let actual = self.get_tab_index(position);
                        cmds.push(HostCommand::RenameTab { tab_index: actual, name });
                        proof {
                            assert(command_views(cmds@) =~= command_views(cprev).push(
                                command_view(cmds@[cmds@.len() - 1]),
                            ));
                        }
                    }
                },
                PipeEffect::PipeOutput { pipe_name, output } => {
                    if emit_outputs {
                        cmds.push(HostCommand::PipeOutput { pipe_name, output });
                        proof {
                            assert(command_views(cmds@) =~= command_views(cprev).push(
                                command_view(cmds@[cmds@.len() - 1]),
                            ));
                        }
                    }
                },
            }
            proof {
                done = done + 1;
            }
        }
        proof {
            assert(orig.take(orig.len() as int) =~= orig);
        }
        cmds
    }

    /// Whether a command may change state, and so must wait for a usable
    /// mapping.
    pub fn should_queue_mutation(&self, status: &StatusPayload) -> (r: bool)
        ensures
            r == (is_mutating_action_spec(status.action@) && (self.phase is Probing || (
            valid_u32_dec(status.pane_id@) && !self.pane_to_tab@.contains_key(
                dec_val(dec_body(status.pane_id@)) as u32,
            )))),
    {
        if !is_mutating_action(status.action.as_str()) {
            return false;
        }
        if self.is_probing() {
            return true;
        }
        match parse_u32_dec(status.pane_id.as_str()) {
            Some(pane_id) => !self.pane_to_tab.contains_key(&pane_id),
            None => false,
        }
    }

    /// Remember a deferred mutating payload, superseding any earlier one
    /// for the same pane. A pane identifier that is not a number is
    /// dropped.
    pub fn enqueue_mutation(&mut self, pane_id_str: &str, raw_payload: &String)
        requires
            distinct_queue_keys(old(self).queued_mutations@),
        ensures
            distinct_queue_keys(final(self).queued_mutations@),
            final(self).tabs == old(self).tabs,
            final(self).panes == old(self).panes,
            final(self).tab_indices == old(self).tab_indices,
            final(self).next_tab_index == old(self).next_tab_index,
            final(self).pane_tab_index == old(self).pane_tab_index,
            final(self).pane_to_tab == old(self).pane_to_tab,
            final(self).phase == old(self).phase,
            !valid_u32_dec(pane_id_str@) ==> final(self).queued_mutations@ == old(
                self,
            ).queued_mutations@,
            valid_u32_dec(pane_id_str@) ==> {
                let pane_id = dec_val(dec_body(pane_id_str@)) as u32;
                &&& (exists|i: int|
                    0 <= i < final(self).queued_mutations@.len() && (#[trigger] final(self).queued_mutations@[i]).0
                        == pane_id && final(self).queued_mutations@[i].1@ == raw_payload@)
                &&& (if exists|j: int|
                    0 <= j < old(self).queued_mutations@.len() && (#[trigger] old(self).queued_mutations@[j]).0
                        == pane_id {
                    &&& final(self).queued_mutations@.len() == old(self).queued_mutations@.len()
                    &&& (forall|j: int|
                        0 <= j < old(self).queued_mutations@.len() && (#[trigger] old(self).queued_mutations@[j]).0
                            != pane_id ==> final(self).queued_mutations@[j] == old(self).queued_mutations@[j])
                    &&& (forall|j: int|
                        0 <= j < old(self).queued_mutations@.len() && (#[trigger] old(self).queued_mutations@[j]).0
                            == pane_id ==> final(self).queued_mutations@[j].0 == pane_id
                            && final(self).queued_mutations@[j].1@ == raw_payload@)
                } else {
                    &&& final(self).queued_mutations@.len() == old(self).queued_mutations@.len()
                        + 1
                    &&& (forall|j: int|
                        0 <= j < old(self).queued_mutations@.len()
                            ==> #[trigger] final(self).queued_mutations@[j] == old(self).queued_mutations@[j])
                })
            },
    {
        let pane_id = match parse_u32_dec(pane_id_str) {
            Some(id) => id,
            None => {
                return ;
            },
        };
        let len = self.queued_mutations.len();
        let mut i: usize = 0;
        while i < len
            invariant
                0 <= i <= len,
                len == self.queued_mutations@.len(),
                distinct_queue_keys(self.queued_mutations@),
                *self == *old(self),
                valid_u32_dec(pane_id_str@),
                pane_id as nat == dec_val(dec_body(pane_id_str@)),
                forall|j: int| 0 <= j < i ==> (#[trigger] self.queued_mutations@[j]).0 != pane_id,
            decreases len - i,
        {
            if self.queued_mutations[i].0 == pane_id {
                let ghost before = self.queued_mutations@;
                let _old_entry = self.queued_mutations.remove(i);
                self.queued_mutations.insert(i, (pane_id, raw_payload.clone()));
                proof {
                    assert(self.queued_mutations@ =~= before.update(
                        i as int,
                        (pane_id, self.queued_mutations@[i as int].1),
                    ));
                    assert forall|a: int, b: int|
                        0 <= a < b < self.queued_mutations@.len() implies (
                    #[trigger] self.queued_mutations@[a]).0 != (
                    #[trigger] self.queued_mutations@[b]).0 by {
                        assert(self.queued_mutations@[a].0 == before[a].0);
                        assert(self.queued_mutations@[b].0 == before[b].0);
                        assert(before[a].0 != before[b].0);
                    }
                    assert(self.queued_mutations@[i as int].0 == pane_id
                        && self.queued_mutations@[i as int].1@ == raw_payload@);
                }
                return ;
            }
            i = i + 1;
        }
        self.queued_mutations.push((pane_id, raw_payload.clone()));
        proof {
            let q = self.queued_mutations@;
            assert(q[q.len() - 1].0 == pane_id && q[q.len() - 1].1@ == raw_payload@);
            assert forall|a: int, b: int|
                0 <= a < b < q.len() implies (#[trigger] q[a]).0 != (#[trigger] q[b]).0 by {
                if b == q.len() - 1 {
                    assert(q[a].0 != pane_id);
                } else {
                    assert(q[a] == old(self).queued_mutations@[a]);
                    assert(q[b] == old(self).queued_mutations@[b]);
                }
            }
        }
    }

    /// Re-attempt every queued mutation once: entries whose pane is now
    /// known are executed and removed, the rest stay queued verbatim; what
    /// one pass does is exactly `spec_flush`. Nothing is flushed while
    /// probing.
    pub fn flush_queued_mutations(&mut self) -> (cmds: Vec<HostCommand>)
        requires
            pane_tab_wf(old(self).pane_to_tab@),
            distinct_queue_keys(old(self).queued_mutations@),
        ensures
            pane_tab_wf(final(self).pane_to_tab@),
            distinct_queue_keys(final(self).queued_mutations@),
            final(self).pane_to_tab@.dom() == old(self).pane_to_tab@.dom(),
            forall|k: u32|
                #[trigger] old(self).pane_to_tab@.contains_key(k) ==> final(self).pane_to_tab@[k].0
                    == old(self).pane_to_tab@[k].0,
            old(self).phase is Ready ==> ({
                let fl = spec_flush(
                    map_view(old(self).pane_to_tab@),
                    queue_view(old(self).queued_mutations@),
                    old(self).tab_indices@,
                );
                &&& map_view(final(self).pane_to_tab@) == fl.0
                &&& queue_view(final(self).queued_mutations@) == fl.1
                &&& command_views(cmds@) == fl.2
            }),
            old(self).phase is Probing ==> final(self).pane_to_tab == old(self).pane_to_tab
                && final(self).queued_mutations == old(self).queued_mutations && cmds@.len() == 0,
            old(self).phase is Ready && !old(self).pane_to_tab@.is_empty() ==> forall|i: int|
                0 <= i < final(self).queued_mutations@.len()
                    ==> !final(self).pane_to_tab@.contains_key(
                    (#[trigger] final(self).queued_mutations@[i]).0,
                ),
            final(self).tabs == old(self).tabs,
            final(self).panes == old(self).panes,
            final(self).tab_indices == old(self).tab_indices,
            final(self).next_tab_index == old(self).next_tab_index,
            final(self).pane_tab_index == old(self).pane_tab_index,
            final(self).phase == old(self).phase,
    {
        let ghost mv0 = map_view(self.pane_to_tab@);
        let ghost qv0 = queue_view(self.queued_mutations@);
        let ghost idx0 = self.tab_indices@;
        if self.queued_mutations.is_empty() {
            proof {
                if self.phase is Ready {
                    assert(qv0 =~= Seq::<(u32, Seq<char>)>::empty());
                    assert(queue_view(self.queued_mutations@) =~= spec_flush(mv0, qv0, idx0).1);
                }
            }
            return Vec::new();
        }
        if self.is_probing() {
            return Vec::new();
        }
        if self.pane_to_tab.is_empty() {
            proof {
                assert forall|k: u32| !mv0.contains_key(k) by {
                    assert(mv0.contains_key(k) == self.pane_to_tab@.contains_key(k));
                }
                lemma_flush_all_unknown(mv0, qv0, idx0);
            }
            return Vec::new();
        }
        let mut queued: Vec<(u32, String)> = Vec::new();
        core::mem::swap(&mut self.queued_mutations, &mut queued);
        let ghost orig = queued@;
        let mut cmds: Vec<HostCommand> = Vec::new();
        let ghost mut done: int = 0;
        proof {
            assert(orig.skip(0) =~= orig);
            assert(queue_view(self.queued_mutations@) =~= Seq::<(u32, Seq<char>)>::empty());
            assert(command_views(cmds@) =~= Seq::<CommandView>::empty());
            assert(spec_flush(mv0, qv0, idx0).1 =~= queue_view(self.queued_mutations@)
                + spec_flush(map_view(self.pane_to_tab@), queue_view(orig.skip(0)), idx0).1);
            assert(spec_flush(mv0, qv0, idx0).2 =~= command_views(cmds@) + spec_flush(
                map_view(self.pane_to_tab@),
                queue_view(orig.skip(0)),
                idx0,
            ).2);
        }
        while queued.len() > 0
            invariant
                0 <= done <= orig.len(),
                queued@ == orig.skip(done),
                distinct_queue_keys(orig),
                pane_tab_wf(self.pane_to_tab@),
                distinct_queue_keys(self.queued_mutations@),
                self.pane_to_tab@.dom() == old(self).pane_to_tab@.dom(),
                forall|k: u32|
                    #[trigger] old(self).pane_to_tab@.contains_key(k)
                        ==> self.pane_to_tab@[k].0 == old(self).pane_to_tab@[k].0,
                forall|i: int|
                    0 <= i < self.queued_mutations@.len() ==> exists|j: int|
                        0 <= j < done && (#[trigger] self.queued_mutations@[i]).0 == orig[j].0,
                forall|i: int|
                    0 <= i < self.queued_mutations@.len() ==> !self.pane_to_tab@.contains_key(
                        (#[trigger] self.queued_mutations@[i]).0,
                    ),
                mv0 == map_view(old(self).pane_to_tab@),
                qv0 == queue_view(orig),
                idx0 == old(self).tab_indices@,
                spec_flush(mv0, qv0, idx0).0 == spec_flush(
                    map_view(self.pane_to_tab@),
                    queue_view(orig.skip(done)),
                    idx0,
                ).0,
                spec_flush(mv0, qv0, idx0).1 == queue_view(self.queued_mutations@) + spec_flush(
                    map_view(self.pane_to_tab@),
                    queue_view(orig.skip(done)),
                    idx0,
                ).1,
                spec_flush(mv0, qv0, idx0).2 == command_views(cmds@) + spec_flush(
                    map_view(self.pane_to_tab@),
                    queue_view(orig.skip(done)),
                    idx0,
                ).2,
                self.tabs == old(self).tabs,
                self.panes == old(self).panes,
                self.tab_indices == old(self).tab_indices,
                self.next_tab_index == old(self).next_tab_index,
                self.pane_tab_index == old(self).pane_tab_index,
                self.phase == old(self).phase,
                self.phase is Ready,
            decreases queued@.len(),
        {
            let ghost done0 = done;
            let ghost mprev = map_view(self.pane_to_tab@);
            let entry = queued.remove(0);
            let ghost pl = entry.1@;
            proof {
                assert(orig.skip(done0)[0] == orig[done0]);
                assert(orig.skip(done0).drop_first() =~= orig.skip(done0 + 1));
                assert(queue_view(orig.skip(done0))[0] == (orig[done0].0, orig[done0].1@));
                assert(queue_view(orig.skip(done0)).drop_first() =~= queue_view(
                    orig.skip(done0 + 1),
                ));
                assert(queue_view(orig.skip(done0)).len() > 0);
            }
            let pane_id = entry.0;
            if !self.pane_to_tab.contains_key(&pane_id) {
                let ghost q0 = self.queued_mutations@;
                self.queued_mutations.push(entry);
                proof {
                    let q = self.queued_mutations@;
                    assert(q[q.len() - 1].0 == orig[done0].0);
                    assert forall|a: int, b: int|
                        0 <= a < b < q.len() implies (#[trigger] q[a]).0 != (#[trigger] q[b]).0 by {
                        if b == q.len() - 1 {
                            assert(q[a] == q0[a]);
                            let w = choose|w: int|
                                0 <= w < done0 && (#[trigger] q0[a]).0 == orig[w].0;
                            assert(orig[w].0 != orig[done0].0);
                        } else {
                            assert(q[a] == q0[a] && q[b] == q0[b]);
                        }
                    }
                    assert forall|i: int|
                        0 <= i < q.len() implies exists|j: int|
                            0 <= j < done0 + 1 && (#[trigger] q[i]).0 == orig[j].0 by {
                        if i < q.len() - 1 {
                            assert(q[i] == q0[i]);
                            let w = choose|w: int|
                                0 <= w < done0 && (#[trigger] q0[i]).0 == orig[w].0;
                            assert(0 <= w < done0 + 1 && q[i].0 == orig[w].0);
                        } else {
                            assert(q[i].0 == orig[done0].0);
                        }
                    }
                    assert(mprev.contains_key(pane_id) == self.pane_to_tab@.contains_key(pane_id));
                    assert(queue_view(q) =~= queue_view(q0) + seq![(pane_id, pl)]);
                    assert(spec_flush(mprev, queue_view(orig.skip(done0)), idx0).1 == seq![
                        (pane_id, pl),
                    ] + spec_flush(mprev, queue_view(orig.skip(done0 + 1)), idx0).1);
                    assert(queue_view(q0) + (seq![(pane_id, pl)] + spec_flush(
                        mprev,
                        queue_view(orig.skip(done0 + 1)),
                        idx0,
                    ).1) =~= queue_view(q) + spec_flush(
                        mprev,
                        queue_view(orig.skip(done0 + 1)),
                        idx0,
                    ).1);
                }
            } else {
                proof {
                    assert(mprev.contains_key(pane_id) == self.pane_to_tab@.contains_key(pane_id));
                }
                let payload: Option<String> = Some(entry.1);
                let is_status = match &payload {
                    Some(p) => parse_status_payload(p.as_str()).is_some(),
                    None => false,
                };
                let ghost cprev = cmds@;
                let effects = if is_status {
                    handle_status(&mut self.pane_to_tab, &payload, "")
                } else {
                    handle_rename(&mut self.pane_to_tab, &payload)
                };
                let ghost served = if spec_status_payload(pl) is Some {
                    spec_handle_status(mprev, Some(pl), ""@)
                } else {
                    spec_handle_rename(mprev, Some(pl))
                };
                proof {
                    assert(map_view(self.pane_to_tab@) == served.0);
                    assert(effect_views(effects@) == served.1);
                }
                let mut more = self.apply_pipe_effects(effects, false);
                cmds.append(&mut more);
                proof {
                    assert(command_views(cmds@) =~= command_views(cprev) + spec_effect_cmds(
                        served.1,
                        idx0,
                        false,
                    ));
                    assert(spec_flush(mprev, queue_view(orig.skip(done0)), idx0).2
                        == spec_effect_cmds(served.1, idx0, false) + spec_flush(
                        served.0,
                        queue_view(orig.skip(done0 + 1)),
                        idx0,
                    ).2);
                    assert(command_views(cprev) + (spec_effect_cmds(served.1, idx0, false)
                        + spec_flush(served.0, queue_view(orig.skip(done0 + 1)), idx0).2)
                        =~= command_views(cmds@) + spec_flush(
                        served.0,
                        queue_view(orig.skip(done0 + 1)),
                        idx0,
                    ).2);
                }
            }
            proof {
                done = done + 1;
                assert(done == done0 + 1);
            }
        }
        proof {
            assert(orig.skip(orig.len() as int) =~= Seq::<(u32, String)>::empty());
            assert(queue_view(orig.skip(done)) =~= Seq::<(u32, Seq<char>)>::empty());
            assert(spec_flush(mv0, qv0, idx0).1 =~= queue_view(self.queued_mutations@));
            assert(spec_flush(mv0, qv0, idx0).2 =~= command_views(cmds@));
        }
        cmds
    }

    /// A compact diagnostic line: the phase, the table size, and the next
    /// index to hand out.
    pub fn debug_output(&self) -> (r: String)
        requires
            self.inv(),
        ensures
            r@ == "phase="@ + (if self.phase is Probing {
                "probing"@
            } else {
                "ready"@
            }) + " tabs="@ + dec_digits(self.tab_indices@.len() as nat) + " next="@ + dec_digits(
                self.next_tab_index as nat,
            ),
    {
        proof {
            reveal_strlit("phase=");
            reveal_strlit("probing");
            reveal_strlit("ready");
            reveal_strlit(" tabs=");
            reveal_strlit(" next=");
        }
        let mut r = String::from_str("phase=");
        if self.is_probing() {
            r.append("probing");
        } else {
            r.append("ready");
        }
        r.append(" tabs=");
        r.append(u32_to_dec(self.tab_indices.len() as u32).as_str());
        r.append(" next=");
        r.append(u32_to_dec(self.next_tab_index).as_str());
        r
    }

    /// Serve one inbound command. Mutations that cannot be served yet are
    /// queued and answered "not ready"; while probing, only diagnostics and
    /// a re-probe request pass; a re-probe request replaces any in-flight
    /// probe wholesale.
    pub fn on_pipe(&mut self, payload: &Option<String>, pipe_name: &str) -> (cmds: Vec<
        HostCommand,
    >)
        requires
            old(self).inv(),
        ensures
            final(self).inv(),
            final(self).tabs == old(self).tabs,
            final(self).panes == old(self).panes,
            ({
                let parsed = match *payload {
                    Some(s) => spec_status_payload(s@),
                    None => None,
                };
                let queueing = match parsed {
                    Some(f) => is_mutating_action_spec(f.1) && (old(self).phase is Probing || (
                    valid_u32_dec(f.0) && !old(self).pane_to_tab@.contains_key(
                        dec_val(dec_body(f.0)) as u32,
                    ))),
                    None => false,
                };
                let blocked = !queueing && old(self).phase is Probing && !(match parsed {
                    Some(f) => f.1 == "get_version"@ || f.1 == "get_debug"@ || f.1
                        == "probe_indices"@,
                    None => false,
                });
                let not_ready_answer = seq![
                    CommandView::Output { pipe_name: pipe_name@, output: NOT_READY_OUTPUT@ },
                ];
                if queueing {
                    &&& command_views(cmds@) == not_ready_answer
                    &&& (match parsed {
                        Some(f) => valid_u32_dec(f.0) ==> exists|i: int|
                            0 <= i < final(self).queued_mutations@.len() && (#[trigger] final(self).queued_mutations@[i]).0
                                == dec_val(dec_body(f.0)) as u32
                                && final(self).queued_mutations@[i].1@ == (*payload)->0@,
                        None => false,
                    })
                    &&& final(self).tab_indices == old(self).tab_indices
                    &&& final(self).next_tab_index == old(self).next_tab_index
                    &&& final(self).pane_tab_index == old(self).pane_tab_index
                    &&& final(self).phase == old(self).phase
                    &&& final(self).pane_to_tab == old(self).pane_to_tab
                } else if blocked {
                    &&& command_views(cmds@) == not_ready_answer
                    &&& *final(self) == *old(self)
                } else if (match parsed {
                    Some(f) => f.1 == "get_debug"@,
                    None => false,
                }) {
                    &&& command_views(cmds@) == seq![
                        CommandView::Output {
                            pipe_name: pipe_name@,
                            output: "phase="@ + (if old(self).phase is Probing {
                                "probing"@
                            } else {
                                "ready"@
                            }) + " tabs="@ + dec_digits(old(self).tab_indices@.len() as nat)
                                + " next="@ + dec_digits(old(self).next_tab_index as nat),
                        },
                    ]
                    &&& *final(self) == *old(self)
                } else if (match parsed {
                    Some(f) => f.1 == "probe_indices"@,
                    None => false,
                }) {
                    if old(self).tabs@.len() == 0 {
                        &&& command_views(cmds@) == seq![
                            CommandView::Output { pipe_name: pipe_name@, output: "no tabs"@ },
                        ]
                        &&& *final(self) == *old(self)
                    } else {
                        &&& command_views(cmds@) == probe_cmds(1) + seq![
                            CommandView::Output {
                                pipe_name: pipe_name@,
                                output: "probing started"@,
                            },
                        ]
                        &&& (match final(self).phase {
                            Phase::Probing(st) => {
                                &&& st.candidate == 1
                                &&& st.remaining == old(self).tabs@.len()
                                &&& !st.restoring
                                &&& st.restore_retries == 0
                                &&& st.found@.len() == 0
                                &&& st.original_names@.len() == old(self).tabs@.len()
                                &&& (forall|p: usize|
                                    #[trigger] st.original_names@.contains_key(p) <==> p < old(
                                        self,
                                    ).tabs@.len())
                                &&& (forall|p: usize|
                                    #[trigger] st.original_names@.contains_key(p)
                                        ==> st.original_names@[p]@ == old(self).tabs@[p as int]@)
                            },
                            Phase::Ready => false,
                        })
                        &&& final(self).tab_indices == old(self).tab_indices
                        &&& final(self).next_tab_index == old(self).next_tab_index
                        &&& final(self).pane_tab_index == old(self).pane_tab_index
                        &&& final(self).pane_to_tab == old(self).pane_to_tab
                        &&& final(self).queued_mutations == old(self).queued_mutations
                    }
                } else {
                    let served = if parsed is Some {
                        spec_handle_status(
                            map_view(old(self).pane_to_tab@),
                            opt_view(*payload),
                            pipe_name@,
                        )
                    } else {
                        spec_handle_rename(map_view(old(self).pane_to_tab@), opt_view(*payload))
                    };
                    &&& map_view(final(self).pane_to_tab@) == served.0
                    &&& command_views(cmds@) == spec_effect_cmds(
                        served.1,
                        old(self).tab_indices@,
                        true,
                    )
                    &&& final(self).tab_indices == old(self).tab_indices
                    &&& final(self).next_tab_index == old(self).next_tab_index
                    &&& final(self).pane_tab_index == old(self).pane_tab_index
                    &&& final(self).phase == old(self).phase
                    &&& final(self).queued_mutations == old(self).queued_mutations
                }
            }),
    {
        let parsed = match payload {
            Some(p) => parse_status_payload(p.as_str()),
            None => None,
        };
        match &parsed {
            Some(status) => {
                if self.should_queue_mutation(status) {
                    match payload {
                        Some(raw) => {
                            self.enqueue_mutation(status.pane_id.as_str(), raw);
                        },
                        None => {},
                    }
                    let mut cmds: Vec<HostCommand> = Vec::new();
                    cmds.push(
                        HostCommand::PipeOutput {
                            pipe_name: String::from_str(pipe_name),
                            output: String::from_str(NOT_READY_OUTPUT),
                        },
                    );
                    proof {
                        assert(command_views(cmds@) =~= seq![
                            CommandView::Output {
                                pipe_name: pipe_name@,
                                output: NOT_READY_OUTPUT@,
                            },
                        ]);
                    }
                    return cmds;
                }
            },
            None => {},
        }
        if self.is_probing() {
            let allowed = match &parsed {
                Some(s) => is_probing_query(s.action.as_str()),
                None => false,
            };
            if !allowed {
                let mut cmds: Vec<HostCommand> = Vec::new();
                cmds.push(
                    HostCommand::PipeOutput {
                        pipe_name: String::from_str(pipe_name),
                        output: String::from_str(NOT_READY_OUTPUT),
                    },
                );
                proof {
                    assert(command_views(cmds@) =~= seq![
                        CommandView::Output { pipe_name: pipe_name@, output: NOT_READY_OUTPUT@ },
                    ]);
                }
                return cmds;
            }
        }
        match &parsed {
            Some(status) => {
                if str_eq(status.action.as_str(), "get_debug") {
                    let mut cmds: Vec<HostCommand> = Vec::new();
                    let report = self.debug_output();
                    let ghost rview = report@;
                    cmds.push(
                        HostCommand::PipeOutput {
                            pipe_name: String::from_str(pipe_name),
                            output: report,
                        },
                    );
                    proof {
                        assert(command_views(cmds@) =~= seq![
                            CommandView::Output { pipe_name: pipe_name@, output: rview },
                        ]);
                    }
                    return cmds;
                }
                if str_eq(status.action.as_str(), "probe_indices") {
                    if self.tabs.len() == 0 {
                        let mut cmds: Vec<HostCommand> = Vec::new();
                        cmds.push(
                            HostCommand::PipeOutput {
                                pipe_name: String::from_str(pipe_name),
                                output: String::from_str("no tabs"),
                            },
                        );
                        proof {
                            assert(command_views(cmds@) =~= seq![
                                CommandView::Output { pipe_name: pipe_name@, output: "no tabs"@ },
                            ]);
                        }
                        return cmds;
                    }
                    let names = names_map_of(&self.tabs);
                    let st = ProbingState::new(names);
                    self.phase = Phase::Probing(st);
                    let mut cmds = send_probe(1);
                    proof {
                        assert(command_views(cmds@) =~= probe_cmds(1));
                    }
                    let ghost cprev = cmds@;
                    cmds.push(
                        HostCommand::PipeOutput {
                            pipe_name: String::from_str(pipe_name),
                            output: String::from_str("probing started"),
                        },
                    );
                    proof {
                        assert(command_views(cmds@) =~= command_views(cprev) + seq![
                            CommandView::Output {
                                pipe_name: pipe_name@,
                                output: "probing started"@,
                            },
                        ]);
                    }
                    return cmds;
                }
            },
            None => {},
        }
        let effects = match &parsed {
            Some(_) => handle_status(&mut self.pane_to_tab, payload, pipe_name),
            None => handle_rename(&mut self.pane_to_tab, payload),
        };
        self.apply_pipe_effects(effects, true)
    }
}
/// While no probe is in flight, the index table has exactly one entry per
/// snapshot position.
pub proof fn lemma_index_table_matches_snapshot(d: Dispatcher)
    requires
        d.inv(),
        d.phase is Ready,
    ensures
        d.tab_indices@.len() == d.tabs@.len(),
{
}

/// Index table entries are pairwise distinct and bounded by the next index
/// to hand out, short of a (practically unreachable) saturated counter.
pub proof fn lemma_index_table_sound(d: Dispatcher)
    requires
        d.inv(),
        d.next_tab_index != u32::MAX,
    ensures
        distinct_indices(d.tab_indices@),
        forall|i: int|
            0 <= i < d.tab_indices@.len() ==> (#[trigger] d.tab_indices@[i])
                < d.next_tab_index,
{
}

/// Rebuilding the mapping is idempotent: any two maps built from the same
/// snapshots agree on which panes are known, on their positions, and on
/// their cached names.
pub proof fn lemma_rebuild_mapping_idempotent(
    m1: Map<u32, (usize, String)>,
    m2: Map<u32, (usize, String)>,
    panes: Seq<Seq<PaneRef>>,
    tabs: Seq<Seq<char>>,
)
    requires
        mapping_ok(m1, panes, tabs),
        mapping_ok(m2, panes, tabs),
    ensures
        m1.dom() =~= m2.dom(),
        forall|p: u32|
            #[trigger] m1.contains_key(p) ==> m1[p].0 == m2[p].0 && m1[p].1@ == m2[p].1@,
{
    assert forall|p: u32| #[trigger] m1.contains_key(p) <==> m2.contains_key(p) by {}
}


} // verus!
