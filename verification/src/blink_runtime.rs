//! A scheduler that rotates a tab name through animation frames.
//!
//! Each animated tab carries its frame list, its base name and its own
//! cadence. `tick` advances every tab that is due at the given time and
//! returns the rename commands to issue; pausing delays every tab by the
//! paused span without losing frame order.

use std::collections::HashMap;
use vstd::prelude::*;

use crate::text::join_with_space;

verus! {

broadcast use vstd::std_specs::hash::group_hash_axioms;

pub const DEFAULT_BLINK_DELAY_MS: u64 = 500;

/// A rename the caller should issue: the persistent tab index, the current
/// tab position, and the frame-decorated name.
#[derive(Debug, Clone, PartialEq, Eq)]
pub struct BlinkCommand {
    pub tab_index: u32,
    pub tab_position: usize,
    pub name: String,
}

/// Animation state of one tab.
#[derive(Debug)]
pub struct BlinkTabState {
    pub frames: Vec<String>,
    pub base_name: String,
    pub current_frame: usize,
    pub delay_ms: u64,
    pub next_tick_ms: u64,
    pub paused_since_ms: Option<u64>,
}

/// The runtime: animation states keyed by persistent tab index, and the
/// moment the whole runtime was paused, if it is.
#[derive(Debug)]
pub struct BlinkRuntime {
    tabs: Vec<(u32, BlinkTabState)>,
    paused_at_ms: Option<u64>,
}

/// Sum saturating at the top of `u64`.
pub open spec fn sat_add64(a: int, b: int) -> int {
    if a + b > u64::MAX as int {
        u64::MAX as int
    } else {
        a + b
    }
}

/// Difference saturating at zero.
pub open spec fn sat_sub64(a: int, b: int) -> int {
    if a - b < 0 {
        0
    } else {
        a - b
    }
}

/// Product saturating at the top of `u64`.
pub open spec fn sat_mul64(a: int, b: int) -> int {
    if a * b > u64::MAX as int {
        u64::MAX as int
    } else {
        a * b
    }
}

/// A usable animation state: at least two frames, a frame cursor in range,
/// a positive delay, and a frame list small enough for index arithmetic.
pub open spec fn state_wf(st: BlinkTabState) -> bool {
    &&& 2 <= st.frames@.len() <= 0x1000_0000
    &&& st.current_frame < st.frames@.len()
    &&& st.delay_ms >= 1
}

/// Entries strictly ordered by tab index.
pub open spec fn sorted_entries(s: Seq<(u32, BlinkTabState)>) -> bool {
    forall|i: int, j: int| 0 <= i < j < s.len() ==> (#[trigger] s[i]).0 < (#[trigger] s[j]).0
}

/// Every entry's state is usable.
pub open spec fn all_wf(s: Seq<(u32, BlinkTabState)>) -> bool {
    forall|i: int| 0 <= i < s.len() ==> state_wf((#[trigger] s[i]).1)
}

impl BlinkRuntime {
    /// The animation entries, ordered by tab index.
    pub closed spec fn entries(self) -> Seq<(u32, BlinkTabState)> {
        self.tabs@
    }

    /// When the runtime was paused, if it is.
    pub closed spec fn paused(self) -> Option<u64> {
        self.paused_at_ms
    }

    /// Entries are strictly ordered by tab index and each state is usable.
    pub open spec fn wf(self) -> bool {
        &&& sorted_entries(self.entries())
        &&& all_wf(self.entries())
    }

    /// Whether a tab is animated.
    pub open spec fn has_tab(self, tab_index: u32) -> bool {
        exists|i: int| 0 <= i < self.entries().len() && (#[trigger] self.entries()[i]).0 == tab_index
    }
}

impl Default for BlinkRuntime {
    /// An empty, unpaused runtime.
    fn default() -> (r: BlinkRuntime)
        ensures
            r.entries() =~= Seq::<(u32, BlinkTabState)>::empty(),
            r.paused() is None,
            r.wf(),
    {
        BlinkRuntime { tabs: Vec::new(), paused_at_ms: None }
    }
}

/// The effective frame delay: absent or zero means the default cadence.
pub open spec fn spec_normalize_delay_ms(delay_ms: Option<u64>) -> u64 {
    match delay_ms {
        None => DEFAULT_BLINK_DELAY_MS,
        Some(v) => if v == 0 {
            DEFAULT_BLINK_DELAY_MS
        } else {
            v
        },
    }
}

pub fn normalize_delay_ms(delay_ms: Option<u64>) -> (r: u64)
    ensures
        r == spec_normalize_delay_ms(delay_ms),
{
    match delay_ms {
        None => DEFAULT_BLINK_DELAY_MS,
        Some(v) => {
            if v == 0 {
                DEFAULT_BLINK_DELAY_MS
            } else {
                v
            }
        },
    }
}

/// `tabs` with the entry for `tab_index` dropped, order kept.
pub open spec fn spec_remove_key(tabs: Seq<(u32, BlinkTabState)>, tab_index: u32) -> Seq<
    (u32, BlinkTabState),
>
    decreases tabs.len(),
{
    if tabs.len() == 0 {
        tabs
    } else {
        let r = spec_remove_key(tabs.drop_last(), tab_index);
        if tabs.last().0 == tab_index {
            r
        } else {
            r.push(tabs.last())
        }
    }
}

/// `tabs` restricted to the entries whose tab index is listed as active.
pub open spec fn spec_retain(tabs: Seq<(u32, BlinkTabState)>, active: Seq<u32>) -> Seq<
    (u32, BlinkTabState),
>
    decreases tabs.len(),
{
    if tabs.len() == 0 {
        tabs
    } else {
        let r = spec_retain(tabs.drop_last(), active);
        if active.contains(tabs.last().0) {
            r.push(tabs.last())
        } else {
            r
        }
    }
}

/// One state with the pause mark placed, if it has none yet.
pub open spec fn spec_pause_one(st: BlinkTabState, now_ms: u64) -> BlinkTabState {
    if st.paused_since_ms is None {
        BlinkTabState { paused_since_ms: Some(now_ms), ..st }
    } else {
        st
    }
}

/// One state resumed: its next tick is pushed out by the span it sat
/// paused, and the pause mark is cleared.
pub open spec fn spec_resume_one(st: BlinkTabState, now_ms: u64) -> BlinkTabState {
    match st.paused_since_ms {
        Some(p) => BlinkTabState {
            next_tick_ms: sat_add64(st.next_tick_ms as int, sat_sub64(now_ms as int, p as int))
                as u64,
            paused_since_ms: None,
            ..st
        },
        None => st,
    }
}

/// The shortest wait until some entry is due: 1 for anything overdue, the
/// remaining span otherwise.
pub open spec fn spec_next_delay(tabs: Seq<(u32, BlinkTabState)>, now_ms: u64) -> Option<u64>
    decreases tabs.len(),
{
    if tabs.len() == 0 {
        None
    } else {
        let rest = spec_next_delay(tabs.drop_last(), now_ms);
        let st = tabs.last().1;
        let d: u64 = if st.next_tick_ms <= now_ms {
            1u64
        } else {
            (st.next_tick_ms - now_ms) as u64
        };
        match rest {
            None => Some(d),
            Some(m) => Some(
                if d < m {
                    d
                } else {
                    m
                },
            ),
        }
    }
}

/// Dropping entries keeps order, well-formedness, and membership.
proof fn lemma_remove_key_wf(tabs: Seq<(u32, BlinkTabState)>, tab_index: u32)
    requires
        sorted_entries(tabs),
        all_wf(tabs),
    ensures
        sorted_entries(spec_remove_key(tabs, tab_index)),
        all_wf(spec_remove_key(tabs, tab_index)),
        forall|x: (u32, BlinkTabState)|
            #[trigger] spec_remove_key(tabs, tab_index).contains(x) ==> tabs.contains(x),
    decreases tabs.len(),
{
    if tabs.len() > 0 {
        let prefix = tabs.drop_last();
        assert(sorted_entries(prefix)) by {
            assert(forall|i: int|
                0 <= i < prefix.len() ==> prefix[i] == (#[trigger] tabs[i]));
        }
        assert(all_wf(prefix)) by {
            assert(forall|i: int|
                0 <= i < prefix.len() ==> prefix[i] == (#[trigger] tabs[i]));
        }
        lemma_remove_key_wf(prefix, tab_index);
        let r = spec_remove_key(prefix, tab_index);
        assert(forall|x: (u32, BlinkTabState)| #[trigger]
            prefix.contains(x) ==> tabs.contains(x)) by {
            assert(forall|i: int|
                0 <= i < prefix.len() ==> prefix[i] == (#[trigger] tabs[i]));
        }
        if tabs.last().0 != tab_index {
            let e = tabs.last();
            assert forall|i: int, j: int|
                0 <= i < j < r.push(e).len() implies (#[trigger] r.push(e)[i]).0 < (
            #[trigger] r.push(e)[j]).0 by {
                if j < r.len() {
                    assert(r.push(e)[i] == r[i] && r.push(e)[j] == r[j]);
                } else {
                    assert(r.push(e)[j] == e);
                    assert(r.push(e)[i] == r[i]);
                    assert(r.contains(r[i]));
                    assert(prefix.contains(r[i]));
                    let w = choose|w: int| 0 <= w < prefix.len() && prefix[w] == r[i];
                    assert(tabs[w] == r[i]);
                    assert(tabs[w].0 < tabs[tabs.len() - 1].0);
                }
            }
            assert(all_wf(r.push(e))) by {
                assert(state_wf(tabs[tabs.len() - 1].1));
                assert(forall|i: int|
                    0 <= i < r.len() ==> r.push(e)[i] == (#[trigger] r[i]));
                assert(r.push(e)[r.len() as int] == e);
            }
            assert(forall|x: (u32, BlinkTabState)| #[trigger]
                r.push(e).contains(x) ==> r.contains(x) || x == e);
            assert(tabs.contains(tabs[tabs.len() - 1]));
        }
    }
}

/// Retaining entries keeps order, well-formedness, and membership.
proof fn lemma_retain_wf(tabs: Seq<(u32, BlinkTabState)>, active: Seq<u32>)
    requires
        sorted_entries(tabs),
        all_wf(tabs),
    ensures
        sorted_entries(spec_retain(tabs, active)),
        all_wf(spec_retain(tabs, active)),
        forall|x: (u32, BlinkTabState)|
            #[trigger] spec_retain(tabs, active).contains(x) ==> tabs.contains(x),
    decreases tabs.len(),
{
    if tabs.len() > 0 {
        let prefix = tabs.drop_last();
        assert(forall|i: int| 0 <= i < prefix.len() ==> prefix[i] == (#[trigger] tabs[i]));
        lemma_retain_wf(prefix, active);
        let r = spec_retain(prefix, active);
        assert(forall|x: (u32, BlinkTabState)| #[trigger]
            prefix.contains(x) ==> tabs.contains(x));
        if active.contains(tabs.last().0) {
            let e = tabs.last();
            assert forall|i: int, j: int|
                0 <= i < j < r.push(e).len() implies (#[trigger] r.push(e)[i]).0 < (
            #[trigger] r.push(e)[j]).0 by {
                if j < r.len() {
                    assert(r.push(e)[i] == r[i] && r.push(e)[j] == r[j]);
                } else {
                    assert(r.push(e)[j] == e);
                    assert(r.push(e)[i] == r[i]);
                    assert(r.contains(r[i]));
                    assert(prefix.contains(r[i]));
                    let w = choose|w: int| 0 <= w < prefix.len() && prefix[w] == r[i];
                    assert(tabs[w] == r[i]);
                    assert(tabs[w].0 < tabs[tabs.len() - 1].0);
                }
            }
            assert(all_wf(r.push(e))) by {
                assert(state_wf(tabs[tabs.len() - 1].1));
                assert(forall|i: int|
                    0 <= i < r.len() ==> r.push(e)[i] == (#[trigger] r[i]));
                assert(r.push(e)[r.len() as int] == e);
            }
            assert(forall|x: (u32, BlinkTabState)| #[trigger]
                r.push(e).contains(x) ==> r.contains(x) || x == e);
            assert(tabs.contains(tabs[tabs.len() - 1]));
        }
    }
}

/// Whether an entry is due to advance at the given time.
pub open spec fn spec_due(st: BlinkTabState, now_ms: u64) -> bool {
    now_ms >= st.next_tick_ms
}

/// How many frame steps a due entry advances: one per full delay elapsed
/// since its scheduled tick, plus the tick itself.
pub open spec fn spec_steps(st: BlinkTabState, now_ms: u64) -> int {
    (now_ms - st.next_tick_ms) / (st.delay_ms as int) + 1
}

/// A due entry advanced to the time: the frame cursor moves by the step
/// count, and the next tick is rescheduled, saturating on overflow.
pub open spec fn spec_advance(st: BlinkTabState, now_ms: u64) -> BlinkTabState {
    BlinkTabState {
        current_frame: ((st.current_frame + spec_steps(st, now_ms)) % (st.frames@.len() as int))
            as usize,
        next_tick_ms: sat_add64(
            st.next_tick_ms as int,
            sat_mul64(st.delay_ms as int, spec_steps(st, now_ms)),
        ) as u64,
        ..st
    }
}

/// The name a state displays: its current frame, a space, the base name.
pub open spec fn spec_blink_name(st: BlinkTabState) -> Seq<char> {
    st.frames@[st.current_frame as int]@ + seq![' '] + st.base_name@
}

/// The plain-value content of a command list.
pub open spec fn cmd_views(cs: Seq<BlinkCommand>) -> Seq<(u32, usize, Seq<char>)> {
    cs.map_values(|c: BlinkCommand| (c.tab_index, c.tab_position, c.name@))
}

/// One unpaused tick over the entries, in order: entries whose tab is gone
/// are dropped, due entries advance and emit a rename, others are kept.
pub open spec fn spec_tick(
    tabs: Seq<(u32, BlinkTabState)>,
    positions: Map<u32, usize>,
    now_ms: u64,
) -> (Seq<(u32, BlinkTabState)>, Seq<(u32, usize, Seq<char>)>)
    decreases tabs.len(),
{
    if tabs.len() == 0 {
        (Seq::empty(), Seq::empty())
    } else {
        let r = spec_tick(tabs.drop_last(), positions, now_ms);
        let e = tabs.last();
        if !positions.contains_key(e.0) {
            r
        } else if now_ms < e.1.next_tick_ms {
            (r.0.push(e), r.1)
        } else {
            let st2 = spec_advance(e.1, now_ms);
            (r.0.push((e.0, st2)), r.1.push((e.0, positions[e.0], spec_blink_name(st2))))
        }
    }
}

/// The state a freshly started animation gets.
pub open spec fn spec_start_state(
    frames: Vec<String>,
    base_name: String,
    delay_ms: u64,
    now_ms: u64,
    paused_at: Option<u64>,
) -> BlinkTabState {
    let delay: u64 = if delay_ms < 1 {
        1u64
    } else {
        delay_ms
    };
    BlinkTabState {
        frames,
        base_name,
        current_frame: 0,
        delay_ms: delay,
        next_tick_ms: sat_add64(now_ms as int, delay as int) as u64,
        paused_since_ms: if paused_at is Some {
            Some(now_ms)
        } else {
            None
        },
    }
}

/// `tabs` with an entry for `tab_index` set to `st`: replacing the old
/// entry when it is there, and standing in index order when it is not.
pub open spec fn spec_upsert(
    tabs: Seq<(u32, BlinkTabState)>,
    tab_index: u32,
    st: BlinkTabState,
) -> Seq<(u32, BlinkTabState)>
    decreases tabs.len(),
{
    if tabs.len() == 0 {
        seq![(tab_index, st)]
    } else if tabs[0].0 < tab_index {
        seq![tabs[0]] + spec_upsert(tabs.drop_first(), tab_index, st)
    } else if tabs[0].0 == tab_index {
        seq![(tab_index, st)] + tabs.drop_first()
    } else {
        seq![(tab_index, st)] + tabs
    }
}

/// Where the first at-least-as-large key sits, the upsert splits the
/// sequence there.
proof fn lemma_upsert_split(tabs: Seq<(u32, BlinkTabState)>, tab_index: u32, st: BlinkTabState, i: int)
    requires
        0 <= i <= tabs.len(),
        forall|j: int| 0 <= j < i ==> (#[trigger] tabs[j]).0 < tab_index,
        i < tabs.len() ==> tabs[i].0 >= tab_index,
    ensures
        spec_upsert(tabs, tab_index, st) == tabs.take(i) + seq![(tab_index, st)] + (if i
            < tabs.len() && tabs[i].0 == tab_index {
            tabs.skip(i + 1)
        } else {
            tabs.skip(i)
        }),
    decreases i,
{
    if i == 0 {
        if tabs.len() == 0 {
            assert(spec_upsert(tabs, tab_index, st) =~= tabs.take(0) + seq![(tab_index, st)]
                + tabs.skip(0));
        } else if tabs[0].0 == tab_index {
            assert(tabs.drop_first() =~= tabs.skip(1));
            assert(spec_upsert(tabs, tab_index, st) =~= tabs.take(0) + seq![(tab_index, st)]
                + tabs.skip(1));
        } else {
            assert(tabs[0].0 > tab_index);
            assert(spec_upsert(tabs, tab_index, st) =~= tabs.take(0) + seq![(tab_index, st)]
                + tabs.skip(0));
        }
    } else {
        assert(tabs[0].0 < tab_index);
        let d = tabs.drop_first();
        assert(forall|j: int| 0 <= j < i - 1 ==> (#[trigger] d[j]).0 < tab_index) by {
            assert(forall|j: int| 0 <= j < d.len() ==> d[j] == (#[trigger] tabs[j + 1]));
        }
        assert(i - 1 < d.len() ==> d[i - 1].0 >= tab_index);
        lemma_upsert_split(d, tab_index, st, i - 1);
        if i < tabs.len() && tabs[i].0 == tab_index {
            assert(d[i - 1] == tabs[i]);
            assert(spec_upsert(tabs, tab_index, st) =~= tabs.take(i) + seq![(tab_index, st)]
                + tabs.skip(i + 1)) by {
                assert(spec_upsert(tabs, tab_index, st) == seq![tabs[0]] + (d.take(i - 1) + seq![
                    (tab_index, st),
                ] + d.skip(i)));
            }
        } else {
            assert(spec_upsert(tabs, tab_index, st) =~= tabs.take(i) + seq![(tab_index, st)]
                + tabs.skip(i)) by {
                assert(spec_upsert(tabs, tab_index, st) == seq![tabs[0]] + (d.take(i - 1) + seq![
                    (tab_index, st),
                ] + d.skip(i - 1)));
            }
        }
    }
}

/// Upserting keeps order and well-formedness.
proof fn lemma_upsert_wf(tabs: Seq<(u32, BlinkTabState)>, tab_index: u32, st: BlinkTabState)
    requires
        sorted_entries(tabs),
        all_wf(tabs),
        state_wf(st),
    ensures
        sorted_entries(spec_upsert(tabs, tab_index, st)),
        all_wf(spec_upsert(tabs, tab_index, st)),
        forall|x: (u32, BlinkTabState)|
            #[trigger] spec_upsert(tabs, tab_index, st).contains(x) ==> x == (tab_index, st)
                || tabs.contains(x),
    decreases tabs.len(),
{
    let r = spec_upsert(tabs, tab_index, st);
    if tabs.len() == 0 {
        assert(forall|i: int| 0 <= i < r.len() ==> r[i] == (tab_index, st));
    } else if tabs[0].0 < tab_index {
        let d = tabs.drop_first();
        assert(forall|j: int| 0 <= j < d.len() ==> d[j] == (#[trigger] tabs[j + 1]));
        assert(sorted_entries(d));
        assert(all_wf(d));
        lemma_upsert_wf(d, tab_index, st);
        let sub = spec_upsert(d, tab_index, st);
        assert(r == seq![tabs[0]] + sub);
        assert forall|i: int, j: int|
            0 <= i < j < r.len() implies (#[trigger] r[i]).0 < (#[trigger] r[j]).0 by {
            if i == 0 {
                assert(r[0] == tabs[0]);
                assert(r[j] == sub[j - 1]);
                assert(sub.contains(sub[j - 1]));
                if sub[j - 1] == (tab_index, st) {
                    assert(tabs[0].0 < tab_index);
                } else {
                    assert(d.contains(sub[j - 1]));
                    let w = choose|w: int| 0 <= w < d.len() && d[w] == sub[j - 1];
                    assert(tabs[w + 1] == sub[j - 1]);
                    assert(tabs[0].0 < tabs[w + 1].0);
                }
            } else {
                assert(r[i] == sub[i - 1] && r[j] == sub[j - 1]);
            }
        }
        assert(all_wf(r)) by {
            assert(forall|i: int| 1 <= i < r.len() ==> r[i] == (#[trigger] sub[i - 1]));
            assert(r[0] == tabs[0]);
            assert(state_wf(tabs[0].1));
        }
        assert forall|x: (u32, BlinkTabState)| #[trigger] r.contains(x) implies x == (
        tab_index,
        st,
        ) || tabs.contains(x) by {
            let k = choose|k: int| 0 <= k < r.len() && r[k] == x;
            if k == 0 {
                assert(tabs.contains(tabs[0]));
            } else {
                assert(sub[k - 1] == x);
                assert(sub.contains(x));
                if x != (tab_index, st) {
                    let w = choose|w: int| 0 <= w < d.len() && d[w] == x;
                    assert(tabs[w + 1] == x);
                    assert(tabs.contains(tabs[w + 1]));
                }
            }
        }
    } else if tabs[0].0 == tab_index {
        let d = tabs.drop_first();
        assert(forall|j: int| 0 <= j < d.len() ==> d[j] == (#[trigger] tabs[j + 1]));
        assert(r == seq![(tab_index, st)] + d);
        assert forall|i: int, j: int|
            0 <= i < j < r.len() implies (#[trigger] r[i]).0 < (#[trigger] r[j]).0 by {
            if i == 0 {
                assert(r[j] == tabs[j]);
                assert(tabs[0].0 < tabs[j].0);
            } else {
                assert(r[i] == tabs[i] && r[j] == tabs[j]);
            }
        }
        assert(all_wf(r)) by {
            assert(forall|i: int| 1 <= i < r.len() ==> r[i] == (#[trigger] tabs[i]));
            assert(forall|i: int| 1 <= i < r.len() ==> state_wf((#[trigger] tabs[i]).1));
        }
        assert forall|x: (u32, BlinkTabState)| #[trigger] r.contains(x) implies x == (
        tab_index,
        st,
        ) || tabs.contains(x) by {
            let k = choose|k: int| 0 <= k < r.len() && r[k] == x;
            if k > 0 {
                assert(tabs[k] == x);
                assert(tabs.contains(tabs[k]));
            }
        }
    } else {
        assert(r == seq![(tab_index, st)] + tabs);
        assert forall|i: int, j: int|
            0 <= i < j < r.len() implies (#[trigger] r[i]).0 < (#[trigger] r[j]).0 by {
            if i == 0 {
                assert(r[j] == tabs[j - 1]);
                if j > 1 {
                    assert(tabs[0].0 < tabs[j - 1].0);
                }
            } else {
                assert(r[i] == tabs[i - 1] && r[j] == tabs[j - 1]);
            }
        }
        assert(all_wf(r)) by {
            assert(forall|i: int| 1 <= i < r.len() ==> r[i] == (#[trigger] tabs[i - 1]));
            assert(forall|i: int| 0 <= i < tabs.len() ==> state_wf((#[trigger] tabs[i]).1));
        }
        assert forall|x: (u32, BlinkTabState)| #[trigger] r.contains(x) implies x == (
        tab_index,
        st,
        ) || tabs.contains(x) by {
            let k = choose|k: int| 0 <= k < r.len() && r[k] == x;
            if k > 0 {
                assert(tabs[k - 1] == x);
                assert(tabs.contains(tabs[k - 1]));
            }
        }
    }
}

/// Advancing keeps a state usable.
proof fn lemma_advance_wf(st: BlinkTabState, now_ms: u64)
    requires
        state_wf(st),
        spec_due(st, now_ms),
    ensures
        state_wf(spec_advance(st, now_ms)),
        spec_steps(st, now_ms) >= 1,
{
    let len = st.frames@.len() as int;
    vstd::arithmetic::div_mod::lemma_div_pos_is_pos(now_ms - st.next_tick_ms, st.delay_ms as int);
    vstd::arithmetic::div_mod::lemma_mod_bound(
        st.current_frame + spec_steps(st, now_ms),
        len,
    );
}

/// Ticking keeps order and well-formedness; every surviving entry's key
/// comes from the input.
proof fn lemma_tick_wf(tabs: Seq<(u32, BlinkTabState)>, positions: Map<u32, usize>, now_ms: u64)
    requires
        sorted_entries(tabs),
        all_wf(tabs),
    ensures
        sorted_entries(spec_tick(tabs, positions, now_ms).0),
        all_wf(spec_tick(tabs, positions, now_ms).0),
        forall|x: (u32, BlinkTabState)|
            #[trigger] spec_tick(tabs, positions, now_ms).0.contains(x) ==> exists|i: int|
                0 <= i < tabs.len() && (#[trigger] tabs[i]).0 == x.0,
    decreases tabs.len(),
{
    if tabs.len() > 0 {
        let prefix = tabs.drop_last();
        assert(forall|i: int| 0 <= i < prefix.len() ==> prefix[i] == (#[trigger] tabs[i]));
        lemma_tick_wf(prefix, positions, now_ms);
        let r = spec_tick(prefix, positions, now_ms);
        let e = tabs.last();
        assert(state_wf(tabs[tabs.len() - 1].1));
        if positions.contains_key(e.0) {
            let pushed: (u32, BlinkTabState) = if now_ms < e.1.next_tick_ms {
                e
            } else {
                (e.0, spec_advance(e.1, now_ms))
            };
            if now_ms >= e.1.next_tick_ms {
                lemma_advance_wf(e.1, now_ms);
            }
            let r0 = r.0.push(pushed);
            assert forall|i: int, j: int|
                0 <= i < j < r0.len() implies (#[trigger] r0[i]).0 < (#[trigger] r0[j]).0 by {
                if j < r.0.len() {
                    assert(r0[i] == r.0[i] && r0[j] == r.0[j]);
                } else {
                    assert(r0[j] == pushed);
                    assert(r0[i] == r.0[i]);
                    assert(r.0.contains(r.0[i]));
                    let w = choose|w: int|
                        0 <= w < prefix.len() && (#[trigger] prefix[w]).0 == r.0[i].0;
                    assert(prefix[w] == tabs[w]);
                    assert(tabs[w].0 < tabs[tabs.len() - 1].0);
                }
            }
            assert(all_wf(r0)) by {
                assert(forall|i: int| 0 <= i < r.0.len() ==> r0[i] == (#[trigger] r.0[i]));
                assert(r0[r.0.len() as int] == pushed);
                assert(state_wf(pushed.1));
            }
            assert forall|x: (u32, BlinkTabState)| #[trigger] r0.contains(x) implies exists|i: int|
                0 <= i < tabs.len() && (#[trigger] tabs[i]).0 == x.0 by {
                let k = choose|k: int| 0 <= k < r0.len() && r0[k] == x;
                if k == r.0.len() {
                    assert(x == pushed);
                    assert(tabs[tabs.len() - 1].0 == x.0);
                } else {
                    assert(r.0[k] == x);
                    assert(r.0.contains(x));
                    let w = choose|w: int|
                        0 <= w < prefix.len() && (#[trigger] prefix[w]).0 == x.0;
                    assert(prefix[w] == tabs[w]);
                    assert(tabs[w].0 == x.0);
                }
            }
        }
    }
}

fn contains_u32(xs: &[u32], x: u32) -> (r: bool)
    ensures
        r == xs@.contains(x),
{
    let n = xs.len();
    let mut i: usize = 0;
    while i < n
        invariant
            0 <= i <= n,
            n == xs@.len(),
            forall|j: int| 0 <= j < i ==> xs@[j] != x,
        decreases n - i,
    {
        if xs[i] == x {
            return true;
        }
        i = i + 1;
    }
    false
}

impl BlinkRuntime {
    /// Stop animating a tab.
    pub fn stop(&mut self, tab_index: u32)
        requires
            old(self).wf(),
        ensures
            final(self).wf(),
            final(self).paused() == old(self).paused(),
            final(self).entries() == spec_remove_key(old(self).entries(), tab_index),
    {
        let ghost orig = self.tabs@;
        let mut old_tabs: Vec<(u32, BlinkTabState)> = Vec::new();
        core::mem::swap(&mut self.tabs, &mut old_tabs);
        let ghost mut done: int = 0;
        proof {
            assert(orig == old(self).entries());
            assert(orig.skip(0) =~= orig);
            assert(spec_remove_key(orig.take(0), tab_index) =~= Seq::<
                (u32, BlinkTabState),
            >::empty());
        }
        while old_tabs.len() > 0
            invariant
                0 <= done <= orig.len(),
                old_tabs@ == orig.skip(done),
                self.tabs@ == spec_remove_key(orig.take(done), tab_index),
                self.paused_at_ms == old(self).paused_at_ms,
            decreases old_tabs@.len(),
        {
            let e = old_tabs.remove(0);
            proof {
                assert(orig.skip(done)[0] == orig[done]);
                assert(orig.take(done + 1).drop_last() =~= orig.take(done));
                assert(orig.take(done + 1).last() == orig[done]);
                assert(orig.skip(done).drop_first() =~= orig.skip(done + 1));
            }
            if e.0 != tab_index {
                self.tabs.push(e);
            }
            proof {
                done = done + 1;
            }
        }
        proof {
            assert(orig.take(orig.len() as int) =~= orig);
            lemma_remove_key_wf(orig, tab_index);
        }
    }

    /// Keep only the tabs that are still listed as active.
    pub fn retain_active_tab_indices(&mut self, active_tab_indices: &[u32])
        requires
            old(self).wf(),
        ensures
            final(self).wf(),
            final(self).paused() == old(self).paused(),
            final(self).entries() == spec_retain(old(self).entries(), active_tab_indices@),
    {
        let ghost orig = self.tabs@;
        let mut old_tabs: Vec<(u32, BlinkTabState)> = Vec::new();
        core::mem::swap(&mut self.tabs, &mut old_tabs);
        let ghost mut done: int = 0;
        proof {
            assert(orig == old(self).entries());
            assert(orig.skip(0) =~= orig);
            assert(spec_retain(orig.take(0), active_tab_indices@) =~= Seq::<
                (u32, BlinkTabState),
            >::empty());
        }
        while old_tabs.len() > 0
            invariant
                0 <= done <= orig.len(),
                old_tabs@ == orig.skip(done),
                self.tabs@ == spec_retain(orig.take(done), active_tab_indices@),
                self.paused_at_ms == old(self).paused_at_ms,
            decreases old_tabs@.len(),
        {
            let e = old_tabs.remove(0);
            proof {
                assert(orig.skip(done)[0] == orig[done]);
                assert(orig.take(done + 1).drop_last() =~= orig.take(done));
                assert(orig.take(done + 1).last() == orig[done]);
                assert(orig.skip(done).drop_first() =~= orig.skip(done + 1));
            }
            if contains_u32(active_tab_indices, e.0) {
                self.tabs.push(e);
            }
            proof {
                done = done + 1;
            }
        }
        proof {
            assert(orig.take(orig.len() as int) =~= orig);
            lemma_retain_wf(orig, active_tab_indices@);
        }
    }

    /// Pause the whole runtime: mark every state that is not already
    /// paused. A second pause changes nothing.
    pub fn pause(&mut self, now_ms: u64)
        requires
            old(self).wf(),
        ensures
            final(self).wf(),
            old(self).paused() is Some ==> *final(self) == *old(self),
            old(self).paused() is None ==> {
                &&& final(self).paused() == Some(now_ms)
                &&& final(self).entries().len() == old(self).entries().len()
                &&& (forall|i: int|
                    0 <= i < old(self).entries().len() ==> #[trigger] final(self).entries()[i] == (
                    old(self).entries()[i].0,
                    spec_pause_one(old(self).entries()[i].1, now_ms),
                    ))
            },
    {
        if self.paused_at_ms.is_some() {
            return ;
        }
        self.paused_at_ms = Some(now_ms);
        let ghost orig = self.tabs@;
        let mut old_tabs: Vec<(u32, BlinkTabState)> = Vec::new();
        core::mem::swap(&mut self.tabs, &mut old_tabs);
        let ghost mut done: int = 0;
        proof {
            assert(orig == old(self).entries());
            assert(orig.skip(0) =~= orig);
        }
        while old_tabs.len() > 0
            invariant
                0 <= done <= orig.len(),
                old_tabs@ == orig.skip(done),
                self.tabs@.len() == done,
                forall|i: int|
                    0 <= i < done ==> #[trigger] self.tabs@[i] == (
                    orig[i].0,
                    spec_pause_one(orig[i].1, now_ms),
                    ),
                self.paused_at_ms == Some(now_ms),
            decreases old_tabs@.len(),
        {
            let mut e = old_tabs.remove(0);
            proof {
                assert(orig.skip(done)[0] == orig[done]);
                assert(orig.skip(done).drop_first() =~= orig.skip(done + 1));
            }
            if e.1.paused_since_ms.is_none() {
                e.1.paused_since_ms = Some(now_ms);
            }
            self.tabs.push(e);
            proof {
                done = done + 1;
            }
        }
        proof {
            assert forall|i: int, j: int|
                0 <= i < j < self.tabs@.len() implies (#[trigger] self.tabs@[i]).0 < (
            #[trigger] self.tabs@[j]).0 by {
                assert(orig[i].0 < orig[j].0);
            }
            assert forall|i: int| 0 <= i < self.tabs@.len() implies state_wf(
                (#[trigger] self.tabs@[i]).1,
            ) by {
                assert(state_wf(orig[i].1));
            }
        }
    }

    /// Resume the runtime: push every paused state's next tick out by the
    /// span it sat paused. A resume while not paused changes nothing.
    pub fn resume(&mut self, now_ms: u64)
        requires
            old(self).wf(),
        ensures
            final(self).wf(),
            old(self).paused() is None ==> *final(self) == *old(self),
            old(self).paused() is Some ==> {
                &&& final(self).paused() is None
                &&& final(self).entries().len() == old(self).entries().len()
                &&& (forall|i: int|
                    0 <= i < old(self).entries().len() ==> #[trigger] final(self).entries()[i] == (
                    old(self).entries()[i].0,
                    spec_resume_one(old(self).entries()[i].1, now_ms),
                    ))
            },
    {
        if self.paused_at_ms.is_none() {
            return ;
        }
        self.paused_at_ms = None;
        let ghost orig = self.tabs@;
        let mut old_tabs: Vec<(u32, BlinkTabState)> = Vec::new();
        core::mem::swap(&mut self.tabs, &mut old_tabs);
        let ghost mut done: int = 0;
        proof {
            assert(orig == old(self).entries());
            assert(orig.skip(0) =~= orig);
        }
        while old_tabs.len() > 0
            invariant
                0 <= done <= orig.len(),
                old_tabs@ == orig.skip(done),
                self.tabs@.len() == done,
                forall|i: int|
                    0 <= i < done ==> #[trigger] self.tabs@[i] == (
                    orig[i].0,
                    spec_resume_one(orig[i].1, now_ms),
                    ),
                self.paused_at_ms is None,
            decreases old_tabs@.len(),
        {
            let mut e = old_tabs.remove(0);
            proof {
                assert(orig.skip(done)[0] == orig[done]);
                assert(orig.skip(done).drop_first() =~= orig.skip(done + 1));
            }
            match e.1.paused_since_ms {
                Some(paused_since) => {
                    e.1.next_tick_ms = e.1.next_tick_ms.saturating_add(
                        now_ms.saturating_sub(paused_since),
                    );
                    e.1.paused_since_ms = None;
                },
                None => {},
            }
            self.tabs.push(e);
            proof {
                done = done + 1;
            }
        }
        proof {
            assert forall|i: int, j: int|
                0 <= i < j < self.tabs@.len() implies (#[trigger] self.tabs@[i]).0 < (
            #[trigger] self.tabs@[j]).0 by {
                assert(orig[i].0 < orig[j].0);
            }
            assert forall|i: int| 0 <= i < self.tabs@.len() implies state_wf(
                (#[trigger] self.tabs@[i]).1,
            ) by {
                assert(state_wf(orig[i].1));
            }
        }
    }

    /// How long until the next tick is due: 1 for anything overdue, the
    /// shortest wait otherwise; nothing while paused or with no animation.
    pub fn next_delay_ms(&self, now_ms: u64) -> (r: Option<u64>)
        ensures
            self.paused() is Some ==> r is None,
            self.paused() is None ==> r == spec_next_delay(self.entries(), now_ms),
    {
        if self.paused_at_ms.is_some() {
            return None;
        }
        let n = self.tabs.len();
        let mut acc: Option<u64> = None;
        let mut i: usize = 0;
        proof {
            assert(self.entries() == self.tabs@);
            assert(self.tabs@.take(0) =~= Seq::<(u32, BlinkTabState)>::empty());
        }
        while i < n
            invariant
                0 <= i <= n,
                n == self.tabs@.len(),
                acc == spec_next_delay(self.tabs@.take(i as int), now_ms),
            decreases n - i,
        {
            proof {
                assert(self.tabs@.take(i + 1).drop_last() =~= self.tabs@.take(i as int));
                assert(self.tabs@.take(i + 1).last() == self.tabs@[i as int]);
            }
            let st_next = self.tabs[i].1.next_tick_ms;
            let d: u64 = if st_next <= now_ms {
                1
            } else {
                st_next - now_ms
            };
            acc = match acc {
                None => Some(d),
                Some(m) => Some(
                    if d < m {
                        d
                    } else {
                        m
                    },
                ),
            };
            i = i + 1;
        }
        proof {
            assert(self.tabs@.take(n as int) =~= self.tabs@);
        }
        acc
    }

    /// Change the base name a tab's frames decorate, when the tab is
    /// animated.
    pub fn update_base_name(&mut self, tab_index: u32, base_name: String)
        requires
            old(self).wf(),
        ensures
            final(self).wf(),
            final(self).paused() == old(self).paused(),
            final(self).entries().len() == old(self).entries().len(),
            forall|j: int|
                0 <= j < old(self).entries().len() && (#[trigger] old(self).entries()[j]).0
                    != tab_index ==> final(self).entries()[j] == old(self).entries()[j],
            forall|j: int|
                0 <= j < old(self).entries().len() && (#[trigger] old(self).entries()[j]).0
                    == tab_index ==> final(self).entries()[j] == (
                tab_index,
                BlinkTabState { base_name, ..old(self).entries()[j].1 },
                ),
    {
        let n = self.tabs.len();
        let mut i: usize = 0;
        proof {
            assert(self.entries() == self.tabs@);
        }
        while i < n
            invariant
                0 <= i <= n,
                n == self.tabs@.len(),
                old(self).wf(),
                self.tabs@ == old(self).entries(),
                self.paused_at_ms == old(self).paused_at_ms,
                forall|j: int| 0 <= j < i ==> (#[trigger] self.tabs@[j]).0 != tab_index,
            decreases n - i,
        {
            if self.tabs[i].0 == tab_index {
                let ghost before = self.tabs@;
                let mut e = self.tabs.remove(i);
                e.1.base_name = base_name;
                self.tabs.insert(i, e);
                proof {
                    assert(self.tabs@ =~= before.update(
                        i as int,
                        (tab_index, BlinkTabState { base_name, ..before[i as int].1 }),
                    ));
                    assert forall|a: int, b: int|
                        0 <= a < b < self.tabs@.len() implies (#[trigger] self.tabs@[a]).0 < (
                    #[trigger] self.tabs@[b]).0 by {
                        assert(self.tabs@[a].0 == old(self).entries()[a].0);
                        assert(self.tabs@[b].0 == old(self).entries()[b].0);
                        assert(old(self).entries()[a].0 < old(self).entries()[b].0);
                    }
                    assert forall|a: int| 0 <= a < self.tabs@.len() implies state_wf(
                        (#[trigger] self.tabs@[a]).1,
                    ) by {
                        assert(state_wf(old(self).entries()[a].1));
                        if a != i {
                            assert(self.tabs@[a] == old(self).entries()[a]);
                        }
                    }
                    assert forall|j: int|
                        0 <= j < old(self).entries().len() && (#[trigger] old(
                            self,
                        ).entries()[j]).0 != tab_index implies self.tabs@[j] == old(
                        self,
                    ).entries()[j] by {}
                }
                return ;
            }
            i = i + 1;
        }
    }

    /// Advance every due tab and collect the renames to issue, in tab-index
    /// order; tabs that are no longer listed are dropped. Nothing happens
    /// while paused.
    pub fn tick(&mut self, now_ms: u64, tab_positions: &HashMap<u32, usize>) -> (commands: Vec<
        BlinkCommand,
    >)
        requires
            old(self).wf(),
            now_ms < u64::MAX,
        ensures
            final(self).wf(),
            final(self).paused() == old(self).paused(),
            old(self).paused() is Some ==> commands@.len() == 0 && final(self).entries() == old(
                self,
            ).entries(),
            old(self).paused() is None ==> {
                &&& final(self).entries() == spec_tick(
                    old(self).entries(),
                    tab_positions@,
                    now_ms,
                ).0
                &&& cmd_views(commands@) == spec_tick(old(self).entries(), tab_positions@, now_ms).1
            },
    {
        if self.paused_at_ms.is_some() {
            return Vec::new();
        }
        let ghost orig = self.tabs@;
        let mut old_tabs: Vec<(u32, BlinkTabState)> = Vec::new();
        core::mem::swap(&mut self.tabs, &mut old_tabs);
        let mut commands: Vec<BlinkCommand> = Vec::new();
        let ghost mut done: int = 0;
        proof {
            assert(orig == old(self).entries());
            assert(orig.skip(0) =~= orig);
            assert(orig.take(0) =~= Seq::<(u32, BlinkTabState)>::empty());
            assert(cmd_views(commands@) =~= Seq::<(u32, usize, Seq<char>)>::empty());
        }
        while old_tabs.len() > 0
            invariant
                0 <= done <= orig.len(),
                old_tabs@ == orig.skip(done),
                old(self).wf(),
                orig == old(self).entries(),
                now_ms < u64::MAX,
                self.tabs@ == spec_tick(orig.take(done), tab_positions@, now_ms).0,
                cmd_views(commands@) == spec_tick(orig.take(done), tab_positions@, now_ms).1,
                self.paused_at_ms == old(self).paused_at_ms,
            decreases old_tabs@.len(),
        {
            let e = old_tabs.remove(0);
            proof {
                assert(orig.skip(done)[0] == orig[done]);
                assert(orig.take(done + 1).drop_last() =~= orig.take(done));
                assert(orig.take(done + 1).last() == orig[done]);
                assert(orig.skip(done).drop_first() =~= orig.skip(done + 1));
                assert(state_wf(old(self).entries()[done].1));
            }
            let tab_index = e.0;
            let mut st = e.1;
            let ghost st0 = st;
            match tab_positions.get(&tab_index) {
                None => {},
                Some(pos_ref) => {
                    let tab_position = *pos_ref;
                    if now_ms < st.next_tick_ms {
                        self.tabs.push((tab_index, st));
                    } else {
                        proof {
                            vstd::arithmetic::div_mod::lemma_div_nonincreasing(
                                now_ms - st.next_tick_ms,
                                st.delay_ms as int,
                            );
                            vstd::arithmetic::div_mod::lemma_div_pos_is_pos(
                                now_ms - st.next_tick_ms,
                                st.delay_ms as int,
                            );
                        }
                        let steps = (now_ms - st.next_tick_ms) / st.delay_ms + 1;
                        let len_u64 = st.frames.len() as u64;
                        proof {
                            vstd::arithmetic::div_mod::lemma_mod_bound(
                                steps as int,
                                st.frames@.len() as int,
                            );
                        }
                        let steps_mod = steps % len_u64;
                        proof {
                            vstd::arithmetic::div_mod::lemma_mod_bound(
                                st.current_frame + steps_mod,
                                st.frames@.len() as int,
                            );
                            vstd::arithmetic::div_mod::lemma_small_mod(
                                st.current_frame as nat,
                                st.frames@.len(),
                            );
                            vstd::arithmetic::div_mod::lemma_add_mod_noop(
                                st.current_frame as int,
                                steps as int,
                                st.frames@.len() as int,
                            );
                        }
                        let new_frame = ((st.current_frame as u64 + steps_mod) % len_u64) as usize;
                        st.current_frame = new_frame;
                        let add = match st.delay_ms.checked_mul(steps) {
                            Some(v) => v,
                            None => u64::MAX,
                        };
                        st.next_tick_ms = st.next_tick_ms.saturating_add(add);
                        proof {
                            assert(st == spec_advance(st0, now_ms));
                        }
                        let name = join_with_space(
                            st.frames[st.current_frame].as_str(),
                            st.base_name.as_str(),
                        );
                        proof {
                            assert(name@ == spec_blink_name(spec_advance(st0, now_ms)));
                        }
                        let ghost prev_cmds = commands@;
                        self.tabs.push((tab_index, st));
                        commands.push(BlinkCommand { tab_index, tab_position, name });
                        proof {
                            assert(cmd_views(commands@) =~= cmd_views(prev_cmds).push(
                                (
                                    tab_index,
                                    tab_position,
                                    spec_blink_name(spec_advance(st0, now_ms)),
                                ),
                            ));
                        }
                    }
                },
            }
            proof {
                done = done + 1;
            }
        }
        proof {
            assert(orig.take(orig.len() as int) =~= orig);
            lemma_tick_wf(orig, tab_positions@, now_ms);
        }
        commands
    }

    /// Begin (or restart) animating a tab. Fewer than two frames means
    /// nothing to rotate: the tab's animation is dropped instead. A zero
    /// delay is raised to one; a runtime-wide pause applies immediately.
    pub fn start(
        &mut self,
        tab_index: u32,
        base_name: String,
        frames: Vec<String>,
        delay_ms: u64,
        now_ms: u64,
    )
        requires
            old(self).wf(),
            frames@.len() <= 0x1000_0000,
        ensures
            final(self).wf(),
            final(self).paused() == old(self).paused(),
            frames@.len() < 2 ==> final(self).entries() == spec_remove_key(
                old(self).entries(),
                tab_index,
            ),
            frames@.len() >= 2 ==> final(self).entries() == spec_upsert(
                old(self).entries(),
                tab_index,
                spec_start_state(frames, base_name, delay_ms, now_ms, old(self).paused()),
            ),
    {
        if frames.len() < 2 {
            self.stop(tab_index);
            return ;
        }
        let delay = if delay_ms < 1 {
            1
        } else {
            delay_ms
        };
        let paused_since: Option<u64> = if self.paused_at_ms.is_some() {
            Some(now_ms)
        } else {
            None
        };
        let st = BlinkTabState {
            frames,
            base_name,
            current_frame: 0,
            delay_ms: delay,
            next_tick_ms: now_ms.saturating_add(delay),
            paused_since_ms: paused_since,
        };
        let ghost stv = st;
        let n = self.tabs.len();
        let mut i: usize = 0;
        proof {
            assert(self.entries() == self.tabs@);
        }
        while i < n && self.tabs[i].0 < tab_index
            invariant
                0 <= i <= n,
                n == self.tabs@.len(),
                self.tabs@ == old(self).entries(),
                forall|j: int| 0 <= j < i ==> (#[trigger] self.tabs@[j]).0 < tab_index,
            decreases n - i,
        {
            i = i + 1;
        }
        let ghost orig = self.tabs@;
        let mut tail = self.tabs.split_off(i);
        let replaced = tail.len() > 0 && tail[0].0 == tab_index;
        if replaced {
            let _removed = tail.remove(0);
        }
        self.tabs.push((tab_index, st));
        self.tabs.append(&mut tail);
        proof {
            lemma_upsert_split(orig, tab_index, stv, i as int);
            if replaced {
                assert(self.tabs@ =~= orig.take(i as int) + seq![(tab_index, stv)] + orig.skip(
                    i as int + 1,
                ));
            } else {
                assert(self.tabs@ =~= orig.take(i as int) + seq![(tab_index, stv)] + orig.skip(
                    i as int,
                ));
            }
            lemma_upsert_wf(orig, tab_index, stv);
        }
    }

    /// Whether a tab is currently animated.
    pub fn contains_tab(&self, tab_index: u32) -> (r: bool)
        ensures
            r == self.has_tab(tab_index),
    {
        let n = self.tabs.len();
        let mut i: usize = 0;
        proof {
            assert(self.entries() == self.tabs@);
        }
        while i < n
            invariant
                0 <= i <= n,
                n == self.entries().len(),
                self.entries() == self.tabs@,
                forall|j: int| 0 <= j < i ==> (#[trigger] self.entries()[j]).0 != tab_index,
            decreases n - i,
        {
            if self.tabs[i].0 == tab_index {
                proof {
                    assert(self.entries()[i as int].0 == tab_index);
                }
                return true;
            }
            i = i + 1;
        }
        false
    }
}

} // verus!
