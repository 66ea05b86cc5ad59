//! Serving rename and status commands addressed by pane identity.
//!
//! Handlers are pure with respect to the host: they take the current
//! pane-to-tab map and a raw payload, and return the side effects for the
//! caller to execute. A malformed payload, an unknown pane or an unknown
//! action yields no effects and leaves the map untouched.

use std::collections::BTreeMap;
use vstd::prelude::*;
use vstd::string::StrSliceExecFns;
use vstd::string::StringExecFns;

use crate::digits::{dec_body, dec_val, parse_u32_dec, valid_u32_dec};
use crate::json::{pairs_view, parse_pairs, spec_parse_pairs};
use crate::status_utils::{base_name_of, extract_base_name, extract_status, status_of};
use crate::text::{join_with_space, str_eq};

verus! {

broadcast use vstd::std_specs::btree::group_btree_axioms, vstd::laws_cmp::group_laws_cmp;

/// Side effects returned by the handlers, executed by the caller through
/// host calls.
#[derive(Debug, PartialEq)]
pub enum PipeEffect {
    RenameTab { tab_id: u32, name: String },
    PipeOutput { pipe_name: String, output: String },
}

/// The plain-value content of one effect.
pub enum EffectView {
    Rename { tab_id: u32, name: Seq<char> },
    Output { pipe_name: Seq<char>, output: Seq<char> },
}

/// The plain-value content of one effect.
pub open spec fn effect_view(e: PipeEffect) -> EffectView {
    match e {
        PipeEffect::RenameTab { tab_id, name } => EffectView::Rename { tab_id, name: name@ },
        PipeEffect::PipeOutput { pipe_name, output } => EffectView::Output {
            pipe_name: pipe_name@,
            output: output@,
        },
    }
}

/// The plain-value content of an effect list.
pub open spec fn effect_views(es: Seq<PipeEffect>) -> Seq<EffectView> {
    es.map_values(|e: PipeEffect| effect_view(e))
}

/// A parsed rename command.
#[derive(Debug)]
pub struct RenamePayload {
    pub pane_id: String,
    pub name: String,
}

/// A parsed status command; `emoji` defaults to empty when the field is
/// absent.
#[derive(Debug)]
pub struct StatusPayload {
    pub pane_id: String,
    pub action: String,
    pub emoji: String,
}

/// Maps pane_id -> (tab_position, tab_name).
pub type PaneTabMap = BTreeMap<u32, (usize, String)>;

/// How many pairs carry the given key.
pub open spec fn field_count(ps: Seq<(Seq<char>, Seq<char>)>, name: Seq<char>) -> nat
    decreases ps.len(),
{
    if ps.len() == 0 {
        0
    } else {
        field_count(ps.drop_last(), name) + if ps.last().0 == name {
            1nat
        } else {
            0nat
        }
    }
}

/// The value of the first pair with the given key, or empty when none has
/// it.
pub open spec fn field_value(ps: Seq<(Seq<char>, Seq<char>)>, name: Seq<char>) -> Seq<char>
    decreases ps.len(),
{
    if ps.len() == 0 {
        Seq::empty()
    } else if ps[0].0 == name {
        ps[0].1
    } else {
        field_value(ps.drop_first(), name)
    }
}

/// The fields of a status command: pane identifier, action, and emoji text.
/// The payload must be a payload object carrying `pane_id` and `action`
/// exactly once; `emoji` may be absent.
pub open spec fn spec_status_payload(s: Seq<char>) -> Option<(Seq<char>, Seq<char>, Seq<char>)> {
    match spec_parse_pairs(s) {
        None => None,
        Some(ps) => {
            if field_count(ps, "pane_id"@) == 1 && field_count(ps, "action"@) == 1 && field_count(
                ps,
                "emoji"@,
            ) <= 1 {
                Some(
                    (field_value(ps, "pane_id"@), field_value(ps, "action"@), field_value(
                        ps,
                        "emoji"@,
                    )),
                )
            } else {
                None
            }
        },
    }
}

/// The fields of a rename command: pane identifier and the new name, each
/// required exactly once.
pub open spec fn spec_rename_payload(s: Seq<char>) -> Option<(Seq<char>, Seq<char>)> {
    match spec_parse_pairs(s) {
        None => None,
        Some(ps) => {
            if field_count(ps, "pane_id"@) == 1 && field_count(ps, "name"@) == 1 {
                Some((field_value(ps, "pane_id"@), field_value(ps, "name"@)))
            } else {
                None
            }
        },
    }
}

/// Every position in the map leaves room for the one-based tab id in `u32`.
pub open spec fn pane_tab_wf(m: Map<u32, (usize, String)>) -> bool {
    forall|k: u32| m.contains_key(k) ==> (#[trigger] m[k]).0 < 0xffff_ffff
}

fn count_field(ps: &Vec<(String, String)>, name: &str) -> (n: usize)
    ensures
        n == field_count(pairs_view(ps@), name@),
{
    let len = ps.len();
    let mut n: usize = 0;
    let mut i: usize = 0;
    while i < len
        invariant
            0 <= i <= len,
            len == ps@.len(),
            n <= i,
            n == field_count(pairs_view(ps@).take(i as int), name@),
        decreases len - i,
    {
        proof {
            assert(pairs_view(ps@).take(i + 1).drop_last() =~= pairs_view(ps@).take(i as int));
            assert(pairs_view(ps@).take(i + 1).last() == (ps@[i as int].0@, ps@[i as int].1@));
        }
        if str_eq(ps[i].0.as_str(), name) {
            n = n + 1;
        }
        i = i + 1;
    }
    proof {
        assert(pairs_view(ps@).take(len as int) =~= pairs_view(ps@));
    }
    n
}

fn find_field(ps: &Vec<(String, String)>, name: &str) -> (r: Option<String>)
    ensures
        r matches Some(v) ==> v@ == field_value(pairs_view(ps@), name@),
        r is None ==> field_count(pairs_view(ps@), name@) == 0,
{
    let len = ps.len();
    let mut i: usize = 0;
    proof {
        assert(pairs_view(ps@).skip(0) =~= pairs_view(ps@));
    }
    while i < len
        invariant
            0 <= i <= len,
            len == ps@.len(),
            field_value(pairs_view(ps@), name@) == field_value(
                pairs_view(ps@).skip(i as int),
                name@,
            ),
            field_count(pairs_view(ps@).take(i as int), name@) == 0,
        decreases len - i,
    {
        let ghost pv = pairs_view(ps@);
        proof {
            assert(pv.skip(i as int)[0] == (ps@[i as int].0@, ps@[i as int].1@));
            assert(pv.take(i + 1).drop_last() =~= pv.take(i as int));
            assert(pv.take(i + 1).last() == (ps@[i as int].0@, ps@[i as int].1@));
        }
        if str_eq(ps[i].0.as_str(), name) {
            return Some(ps[i].1.clone());
        }
        proof {
            assert(pv.skip(i as int).drop_first() =~= pv.skip(i + 1));
        }
        i = i + 1;
    }
    proof {
        assert(pairs_view(ps@).take(len as int) =~= pairs_view(ps@));
    }
    None
}

/// Parse a status command payload.
pub fn parse_status_payload(s: &str) -> (r: Option<StatusPayload>)
    ensures
        r is Some <==> spec_status_payload(s@) is Some,
        r matches Some(p) ==> spec_status_payload(s@) matches Some(f) && p.pane_id@ == f.0
            && p.action@ == f.1 && p.emoji@ == f.2,
{
    let pairs = match parse_pairs(s) {
        Some(pairs) => pairs,
        None => {
            return None;
        },
    };
    if count_field(&pairs, "pane_id") != 1 || count_field(&pairs, "action") != 1 || count_field(
        &pairs,
        "emoji",
    ) > 1 {
        return None;
    }
    let pane_id = match find_field(&pairs, "pane_id") {
        Some(v) => v,
        None => {
            return None;
        },
    };
    let action = match find_field(&pairs, "action") {
        Some(v) => v,
        None => {
            return None;
        },
    };
    let emoji = match find_field(&pairs, "emoji") {
        Some(v) => v,
        None => {
            proof {
                lemma_no_field_empty_value(pairs_view(pairs@), "emoji"@);
            }
            String::new()
        },
    };
    Some(StatusPayload { pane_id, action, emoji })
}

/// Parse a rename command payload.
pub fn parse_rename_payload(s: &str) -> (r: Option<RenamePayload>)
    ensures
        r is Some <==> spec_rename_payload(s@) is Some,
        r matches Some(p) ==> spec_rename_payload(s@) matches Some(f) && p.pane_id@ == f.0
            && p.name@ == f.1,
{
    let pairs = match parse_pairs(s) {
        Some(pairs) => pairs,
        None => {
            return None;
        },
    };
    if count_field(&pairs, "pane_id") != 1 || count_field(&pairs, "name") != 1 {
        return None;
    }
    let pane_id = match find_field(&pairs, "pane_id") {
        Some(v) => v,
        None => {
            return None;
        },
    };
    let name = match find_field(&pairs, "name") {
        Some(v) => v,
        None => {
            return None;
        },
    };
    Some(RenamePayload { pane_id, name })
}

/// A key that is in no pair has the empty value.
proof fn lemma_no_field_empty_value(ps: Seq<(Seq<char>, Seq<char>)>, name: Seq<char>)
    requires
        field_count(ps, name) == 0,
    ensures
        field_value(ps, name) == Seq::<char>::empty(),
    decreases ps.len(),
{
    if ps.len() > 0 {
        assert(field_count(ps, name) == field_count(ps.drop_last(), name) + if ps.last().0
            == name {
            1nat
        } else {
            0nat
        });
        lemma_count_first(ps, name);
        lemma_no_field_empty_value(ps.drop_first(), name);
    }
}

/// Counting from either end agrees: if the whole count is zero, the first
/// pair does not match and the rest counts zero too.
proof fn lemma_count_first(ps: Seq<(Seq<char>, Seq<char>)>, name: Seq<char>)
    requires
        ps.len() > 0,
    ensures
        field_count(ps, name) == field_count(ps.drop_first(), name) + if ps[0].0 == name {
            1nat
        } else {
            0nat
        },
    decreases ps.len(),
{
    if ps.len() == 1 {
        assert(ps.drop_last() =~= Seq::<(Seq<char>, Seq<char>)>::empty());
        assert(ps.drop_first() =~= Seq::<(Seq<char>, Seq<char>)>::empty());
        assert(ps.last() == ps[0]);
    } else {
        lemma_count_first(ps.drop_last(), name);
        assert(ps.drop_last().drop_first() =~= ps.drop_first().drop_last());
        assert(ps.drop_last()[0] == ps[0]);
        assert(ps.drop_first().last() == ps.last());
    }
}

/// Parse a pane identifier written in decimal.
fn parse_pane_id(pane_id_str: &str) -> (r: Option<u32>)
    ensures
        r is Some <==> valid_u32_dec(pane_id_str@),
        r matches Some(v) ==> v as nat == dec_val(dec_body(pane_id_str@)),
{
    parse_u32_dec(pane_id_str)
}

/// Look up the tab position and the cached tab name of a pane.
fn get_tab_info(pane_to_tab: &PaneTabMap, pane_id: u32) -> (r: Option<(usize, String)>)
    ensures
        r is Some <==> pane_to_tab@.contains_key(pane_id),
        r matches Some(info) ==> info.0 == pane_to_tab@[pane_id].0 && info.1@
            == pane_to_tab@[pane_id].1@,
{
    match pane_to_tab.get(&pane_id) {
        Some(entry) => Some((entry.0, entry.1.clone())),
        None => None,
    }
}

/// Replace the cached name of a pane, when the pane is known.
pub fn update_cached_name(pane_to_tab: &mut PaneTabMap, pane_id: u32, new_name: String)
    ensures
        final(pane_to_tab)@.dom() == old(pane_to_tab)@.dom(),
        old(pane_to_tab)@.contains_key(pane_id) ==> {
            &&& final(pane_to_tab)@[pane_id].0 == old(pane_to_tab)@[pane_id].0
            &&& final(pane_to_tab)@[pane_id].1@ == new_name@
        },
        forall|k: u32|
            k != pane_id && old(pane_to_tab)@.contains_key(k) ==> final(pane_to_tab)@[k] == old(
                pane_to_tab,
            )@[k],
{
    let pos = match pane_to_tab.get(&pane_id) {
        Some(entry) => entry.0,
        None => {
            return ;
        },
    };
    pane_to_tab.insert(pane_id, (pos, new_name));
    proof {
        assert(pane_to_tab@.dom() =~= old(pane_to_tab)@.dom());
    }
}

/// The resolved rename request carried by a payload: pane id and new name.
/// `None` when the payload is absent, malformed, or its pane id is not a
/// `u32` in decimal.
pub open spec fn rename_request(p: Option<String>) -> Option<(u32, Seq<char>)> {
    match p {
        None => None,
        Some(s) => match spec_rename_payload(s@) {
            None => None,
            Some(f) => if valid_u32_dec(f.0) {
                Some((dec_val(dec_body(f.0)) as u32, f.1))
            } else {
                None
            },
        },
    }
}

/// The resolved status request carried by a payload: pane id, action, and
/// emoji text.
pub open spec fn status_request(p: Option<String>) -> Option<(u32, Seq<char>, Seq<char>)> {
    match p {
        None => None,
        Some(s) => match spec_status_payload(s@) {
            None => None,
            Some(f) => if valid_u32_dec(f.0) {
                Some((dec_val(dec_body(f.0)) as u32, f.1, f.2))
            } else {
                None
            },
        },
    }
}

/// The pane-to-tab map as plain values.
pub open spec fn map_view(m: Map<u32, (usize, String)>) -> Map<u32, (usize, Seq<char>)> {
    Map::new(|k: u32| m.contains_key(k), |k: u32| (m[k].0, m[k].1@))
}

/// The view of an optional payload.
pub open spec fn opt_view(p: Option<String>) -> Option<Seq<char>> {
    match p {
        Some(s) => Some(s@),
        None => None,
    }
}

/// What serving a status command does, as plain values: the map afterwards
/// and the effects, case by case over the request.
pub open spec fn spec_handle_status(
    mv: Map<u32, (usize, Seq<char>)>,
    payload: Option<Seq<char>>,
    pipe_name: Seq<char>,
) -> (Map<u32, (usize, Seq<char>)>, Seq<EffectView>) {
    match payload {
        None => (mv, Seq::empty()),
        Some(s) => match spec_status_payload(s) {
            None => (mv, Seq::empty()),
            Some(f) => {
                if !valid_u32_dec(f.0) {
                    (mv, Seq::empty())
                } else {
                    let pid = dec_val(dec_body(f.0)) as u32;
                    if !mv.contains_key(pid) {
                        (mv, Seq::empty())
                    } else {
                        let pos = mv[pid].0;
                        let cur = mv[pid].1;
                        let base = base_name_of(cur);
                        let tid = (pos + 1) as u32;
                        if f.1 == "set_status"@ && f.2.len() > 0 {
                            let newname = f.2 + seq![' '] + base;
                            (
                                mv.insert(pid, (pos, newname)),
                                seq![EffectView::Rename { tab_id: tid, name: newname }],
                            )
                        } else if f.1 == "clear_status"@ {
                            (
                                mv.insert(pid, (pos, base)),
                                seq![EffectView::Rename { tab_id: tid, name: base }],
                            )
                        } else if f.1 == "get_status"@ {
                            (mv, seq![EffectView::Output { pipe_name, output: status_of(cur) }])
                        } else if f.1 == "get_name"@ {
                            (mv, seq![EffectView::Output { pipe_name, output: base }])
                        } else {
                            (mv, Seq::empty())
                        }
                    }
                }
            },
        },
    }
}

/// What serving a rename command does, as plain values.
pub open spec fn spec_handle_rename(
    mv: Map<u32, (usize, Seq<char>)>,
    payload: Option<Seq<char>>,
) -> (Map<u32, (usize, Seq<char>)>, Seq<EffectView>) {
    match payload {
        None => (mv, Seq::empty()),
        Some(s) => match spec_rename_payload(s) {
            None => (mv, Seq::empty()),
            Some(f) => {
                if !valid_u32_dec(f.0) {
                    (mv, Seq::empty())
                } else {
                    let pid = dec_val(dec_body(f.0)) as u32;
                    if !mv.contains_key(pid) {
                        (mv, Seq::empty())
                    } else {
                        let pos = mv[pid].0;
                        let tid = (pos + 1) as u32;
                        (
                            mv.insert(pid, (pos, f.1)),
                            seq![EffectView::Rename { tab_id: tid, name: f.1 }],
                        )
                    }
                }
            },
        },
    }
}

/// Serve a rename command: rename the tab holding the addressed pane to the
/// requested name, and cache that name for the pane. The tab id handed to
/// the host is the one-based position. A malformed payload or an unknown
/// pane yields no effects and leaves the map unchanged.
pub fn handle_rename(pane_to_tab: &mut PaneTabMap, payload: &Option<String>) -> (effects: Vec<
    PipeEffect,
>)
    requires
        pane_tab_wf(old(pane_to_tab)@),
    ensures
        map_view(final(pane_to_tab)@) == spec_handle_rename(
            map_view(old(pane_to_tab)@),
            opt_view(*payload),
        ).0,
        effect_views(effects@) == spec_handle_rename(
            map_view(old(pane_to_tab)@),
            opt_view(*payload),
        ).1,
        match rename_request(*payload) {
            Some(f) => {
                if old(pane_to_tab)@.contains_key(f.0) {
                    &&& effects@.len() == 1
                    &&& effects@[0] matches PipeEffect::RenameTab { tab_id, name } && tab_id as int
                        == old(pane_to_tab)@[f.0].0 + 1 && name@ == f.1
                    &&& final(pane_to_tab)@.dom() == old(pane_to_tab)@.dom()
                    &&& final(pane_to_tab)@[f.0].0 == old(pane_to_tab)@[f.0].0
                    &&& final(pane_to_tab)@[f.0].1@ == f.1
                    &&& (forall|k: u32|
                        k != f.0 && old(pane_to_tab)@.contains_key(k) ==> final(pane_to_tab)@[k]
                            == old(pane_to_tab)@[k])
                } else {
                    &&& effects@.len() == 0
                    &&& final(pane_to_tab)@ == old(pane_to_tab)@
                }
            },
            None => {
                &&& effects@.len() == 0
                &&& final(pane_to_tab)@ == old(pane_to_tab)@
            },
        },
{
    let ghost mv0 = map_view(old(pane_to_tab)@);
    let payload_str = match payload {
        Some(p) => p,
        None => {
            let effects: Vec<PipeEffect> = Vec::new();
            proof {
                assert(effect_views(effects@) =~= Seq::<EffectView>::empty());
            }
            return effects;
        },
    };
    let rename = match parse_rename_payload(payload_str.as_str()) {
        Some(p) => p,
        None => {
            let effects: Vec<PipeEffect> = Vec::new();
            proof {
                assert(effect_views(effects@) =~= Seq::<EffectView>::empty());
            }
            return effects;
        },
    };
    let pane_id = match parse_pane_id(rename.pane_id.as_str()) {
        Some(id) => id,
        None => {
            let effects: Vec<PipeEffect> = Vec::new();
            proof {
                assert(effect_views(effects@) =~= Seq::<EffectView>::empty());
            }
            return effects;
        },
    };
    let info = match get_tab_info(pane_to_tab, pane_id) {
        Some(info) => info,
        None => {
            let effects: Vec<PipeEffect> = Vec::new();
            proof {
                assert(mv0.contains_key(pane_id) == old(pane_to_tab)@.contains_key(pane_id));
                assert(effect_views(effects@) =~= Seq::<EffectView>::empty());
            }
            return effects;
        },
    };
    let tab_id = (info.0 + 1) as u32;
    let mut effects: Vec<PipeEffect> = Vec::new();
    effects.push(PipeEffect::RenameTab { tab_id, name: rename.name.clone() });
    update_cached_name(pane_to_tab, pane_id, rename.name);
    proof {
        assert(mv0.contains_key(pane_id) == old(pane_to_tab)@.contains_key(pane_id));
        assert(mv0[pane_id] == (old(pane_to_tab)@[pane_id].0, old(pane_to_tab)@[pane_id].1@));
        assert(map_view(pane_to_tab@) =~= mv0.insert(pane_id, (info.0, rename.name@)));
        assert(effect_views(effects@) =~= seq![
            EffectView::Rename { tab_id, name: rename.name@ },
        ]);
    }
    effects
}

/// Serve a status command.
///
/// `set_status` renames the tab to the emoji followed by a space and the
/// base name (an empty emoji is rejected); `clear_status` renames it to the
/// bare base name; `get_status` and `get_name` answer over the pipe and
/// change nothing; anything else yields no effects. A malformed payload or
/// an unknown pane yields no effects and leaves the map unchanged.
pub fn handle_status(pane_to_tab: &mut PaneTabMap, payload: &Option<String>, pipe_name: &str) -> (effects: Vec<
    PipeEffect,
>)
    requires
        pane_tab_wf(old(pane_to_tab)@),
    ensures
        map_view(final(pane_to_tab)@) == spec_handle_status(
            map_view(old(pane_to_tab)@),
            opt_view(*payload),
            pipe_name@,
        ).0,
        effect_views(effects@) == spec_handle_status(
            map_view(old(pane_to_tab)@),
            opt_view(*payload),
            pipe_name@,
        ).1,
        match status_request(*payload) {
            Some(f) => {
                if old(pane_to_tab)@.contains_key(f.0) {
                    let pos = old(pane_to_tab)@[f.0].0;
                    let cur = old(pane_to_tab)@[f.0].1@;
                    if f.1 == "set_status"@ && f.2.len() > 0 {
                        &&& effects@.len() == 1
                        &&& effects@[0] matches PipeEffect::RenameTab { tab_id, name } && tab_id
                            as int == pos + 1 && name@ == f.2 + seq![' '] + base_name_of(cur)
                        &&& map_renamed(old(pane_to_tab)@, final(pane_to_tab)@, f.0, f.2
                            + seq![' '] + base_name_of(cur))
                    } else if f.1 == "clear_status"@ {
                        &&& effects@.len() == 1
                        &&& effects@[0] matches PipeEffect::RenameTab { tab_id, name } && tab_id
                            as int == pos + 1 && name@ == base_name_of(cur)
                        &&& map_renamed(old(pane_to_tab)@, final(pane_to_tab)@, f.0, base_name_of(
                            cur,
                        ))
                    } else if f.1 == "get_status"@ {
                        &&& effects@.len() == 1
                        &&& effects@[0] matches PipeEffect::PipeOutput {
                            pipe_name: pn,
                            output,
                        } && pn@ == pipe_name@ && output@ == status_of(cur)
                        &&& final(pane_to_tab)@ == old(pane_to_tab)@
                    } else if f.1 == "get_name"@ {
                        &&& effects@.len() == 1
                        &&& effects@[0] matches PipeEffect::PipeOutput {
                            pipe_name: pn,
                            output,
                        } && pn@ == pipe_name@ && output@ == base_name_of(cur)
                        &&& final(pane_to_tab)@ == old(pane_to_tab)@
                    } else {
                        &&& effects@.len() == 0
                        &&& final(pane_to_tab)@ == old(pane_to_tab)@
                    }
                } else {
                    &&& effects@.len() == 0
                    &&& final(pane_to_tab)@ == old(pane_to_tab)@
                }
            },
            None => {
                &&& effects@.len() == 0
                &&& final(pane_to_tab)@ == old(pane_to_tab)@
            },
        },
{
    let ghost mv0 = map_view(old(pane_to_tab)@);
    let payload_str = match payload {
        Some(p) => p,
        None => {
            let effects: Vec<PipeEffect> = Vec::new();
            proof {
                assert(effect_views(effects@) =~= Seq::<EffectView>::empty());
            }
            return effects;
        },
    };
    let status = match parse_status_payload(payload_str.as_str()) {
        Some(p) => p,
        None => {
            let effects: Vec<PipeEffect> = Vec::new();
            proof {
                assert(effect_views(effects@) =~= Seq::<EffectView>::empty());
            }
            return effects;
        },
    };
    let pane_id = match parse_pane_id(status.pane_id.as_str()) {
        Some(id) => id,
        None => {
            let effects: Vec<PipeEffect> = Vec::new();
            proof {
                assert(effect_views(effects@) =~= Seq::<EffectView>::empty());
            }
            return effects;
        },
    };
    let info = match get_tab_info(pane_to_tab, pane_id) {
        Some(info) => info,
        None => {
            let effects: Vec<PipeEffect> = Vec::new();
            proof {
                assert(mv0.contains_key(pane_id) == old(pane_to_tab)@.contains_key(pane_id));
                assert(effect_views(effects@) =~= Seq::<EffectView>::empty());
            }
            return effects;
        },
    };
    let tab_position = info.0;
    let current_name = info.1;
    let base_name = extract_base_name(current_name.as_str());
    let tab_id = (tab_position + 1) as u32;
    proof {
        assert(mv0.contains_key(pane_id) == old(pane_to_tab)@.contains_key(pane_id));
        assert(mv0[pane_id] == (old(pane_to_tab)@[pane_id].0, old(pane_to_tab)@[pane_id].1@));
    }
    let mut effects: Vec<PipeEffect> = Vec::new();
    if str_eq(status.action.as_str(), "set_status") {
        if status.emoji.as_str().is_empty() {
            proof {
                lemma_actions_distinct();
                assert(effect_views(effects@) =~= Seq::<EffectView>::empty());
            }
            return effects;
        }
        let new_name = join_with_space(status.emoji.as_str(), base_name.as_str());
        effects.push(PipeEffect::RenameTab { tab_id, name: new_name.clone() });
        update_cached_name(pane_to_tab, pane_id, new_name);
        proof {
            assert(map_view(pane_to_tab@) =~= mv0.insert(
                pane_id,
                (tab_position, status.emoji@ + seq![' '] + base_name@),
            ));
            assert(effect_views(effects@) =~= seq![
                EffectView::Rename {
                    tab_id,
                    name: status.emoji@ + seq![' '] + base_name@,
                },
            ]);
        }
        effects
    } else if str_eq(status.action.as_str(), "clear_status") {
        effects.push(PipeEffect::RenameTab { tab_id, name: base_name.clone() });
        update_cached_name(pane_to_tab, pane_id, base_name);
        proof {
            assert(map_view(pane_to_tab@) =~= mv0.insert(
                pane_id,
                (tab_position, base_name_of(current_name@)),
            ));
            assert(effect_views(effects@) =~= seq![
                EffectView::Rename { tab_id, name: base_name_of(current_name@) },
            ]);
        }
        effects
    } else if str_eq(status.action.as_str(), "get_status") {
        let emoji = extract_status(current_name.as_str());
        effects.push(
            PipeEffect::PipeOutput { pipe_name: String::from_str(pipe_name), output: emoji },
        );
        proof {
            assert(effect_views(effects@) =~= seq![
                EffectView::Output { pipe_name: pipe_name@, output: status_of(current_name@) },
            ]);
        }
        effects
    } else if str_eq(status.action.as_str(), "get_name") {
        effects.push(
            PipeEffect::PipeOutput { pipe_name: String::from_str(pipe_name), output: base_name },
        );
        proof {
            assert(effect_views(effects@) =~= seq![
                EffectView::Output { pipe_name: pipe_name@, output: base_name_of(current_name@) },
            ]);
        }
        effects
    } else {
        proof {
            assert(effect_views(effects@) =~= Seq::<EffectView>::empty());
        }
        effects
    }
}

/// The four action words are pairwise different.
proof fn lemma_actions_distinct()
    ensures
        "set_status"@ != "clear_status"@,
        "set_status"@ != "get_status"@,
        "set_status"@ != "get_name"@,
{
    reveal_strlit("set_status");
    reveal_strlit("clear_status");
    reveal_strlit("get_status");
    reveal_strlit("get_name");
    assert("set_status"@.len() == 10);
    assert("clear_status"@.len() == 12);
    assert("get_status"@.len() == 10);
    assert("get_name"@.len() == 8);
    assert("set_status"@[0] == 's');
    assert("get_status"@[0] == 'g');
}

/// Exactly one pane's cached name was replaced; positions and the set of
/// known panes are untouched.
pub open spec fn map_renamed(
    old_m: Map<u32, (usize, String)>,
    new_m: Map<u32, (usize, String)>,
    pane_id: u32,
    name: Seq<char>,
) -> bool {
    &&& new_m.dom() == old_m.dom()
    &&& new_m[pane_id].0 == old_m[pane_id].0
    &&& new_m[pane_id].1@ == name
    &&& (forall|k: u32| k != pane_id && old_m.contains_key(k) ==> new_m[k] == old_m[k])
}

} // verus!
