//! The launch key toggles: a second overview instance means "close", but a
//! held key repeating must not count as a second press.

use vstd::prelude::*;
use crate::search::first_where;

verus! {

/// Sibling launches this soon after opening are key repeat, not a press.
pub const TOGGLE_DEBOUNCE_MS: u64 = 500;

/// The least of the ids.
pub open spec fn oldest_of(ids: Seq<u32>) -> u32
    recommends
        ids.len() > 0,
    decreases ids.len(),
{
    if ids.len() <= 1 {
        ids[0]
    } else {
        let rest = oldest_of(ids.drop_last());
        if ids.last() < rest {
            ids.last()
        } else {
            rest
        }
    }
}

/// Every id but `own`.
pub open spec fn other_than(own: u32) -> spec_fn(u32) -> bool {
    |id: u32| id != own
}

/// Which overview pane ids `own_id` closes when several are open. The
/// oldest instance owns the toggle: soon after opening it closes only the
/// newcomers (a held key), later it closes every instance. A newcomer
/// closes only itself.
pub open spec fn close_ids_spec(own_id: u32, plugin_ids: Seq<u32>, opened_at_ms: u64, now_ms: u64) -> Seq<u32> {
    if plugin_ids.len() <= 1 || !plugin_ids.contains(own_id) {
        seq![]
    } else {
        let have_clock = opened_at_ms > 0 && now_ms > 0;
        let elapsed = if now_ms > opened_at_ms { now_ms - opened_at_ms } else { 0 };
        let young = have_clock && elapsed < TOGGLE_DEBOUNCE_MS;
        if own_id != oldest_of(plugin_ids) {
            seq![own_id]
        } else if young {
            plugin_ids.filter(other_than(own_id))
        } else {
            plugin_ids
        }
    }
}

fn oldest(ids: &[u32]) -> (m: u32)
    requires
        ids@.len() > 0,
    ensures
        m == oldest_of(ids@),
{
    let mut m = ids[0];
    let mut i: usize = 1;
    while i < ids.len()
        invariant
            1 <= i <= ids@.len(),
            m == oldest_of(ids@.take(i as int)),
        decreases ids@.len() - i,
    {
        assert(ids@.take(i + 1).drop_last() =~= ids@.take(i as int));
        if ids[i] < m {
            m = ids[i];
        }
        i += 1;
    }
    assert(ids@.take(i as int) =~= ids@);
    m
}

fn contains_id(ids: &[u32], id: u32) -> (found: bool)
    ensures
        found == ids@.contains(id),
{
    let mut i: usize = 0;
    while i < ids.len()
        invariant
            i <= ids@.len(),
            forall|j: int| 0 <= j < i ==> ids@[j] != id,
        decreases ids@.len() - i,
    {
        if ids[i] == id {
            return true;
        }
        i += 1;
    }
    false
}

/// Which plugin pane ids to close when more than one overview is visible.
pub fn duplicate_close_ids(own_id: u32, plugin_ids: &[u32], opened_at_ms: u64, now_ms: u64) -> (ids: Vec<u32>)
    ensures
        ids@ == close_ids_spec(own_id, plugin_ids@, opened_at_ms, now_ms),
{
    if plugin_ids.len() <= 1 || !contains_id(plugin_ids, own_id) {
        return Vec::new();
    }
    let first = oldest(plugin_ids);
    let have_clock = opened_at_ms > 0 && now_ms > 0;
    let young = have_clock && now_ms.saturating_sub(opened_at_ms) < TOGGLE_DEBOUNCE_MS;
    if own_id != first {
        return vec![own_id];
    }
    let mut out: Vec<u32> = Vec::new();
    let mut i: usize = 0;
    while i < plugin_ids.len()
        invariant
            i <= plugin_ids@.len(),
            out@ == if young {
                plugin_ids@.take(i as int).filter(other_than(own_id))
            } else {
                plugin_ids@.take(i as int)
            },
        decreases plugin_ids@.len() - i,
    {
        assert(plugin_ids@.take(i + 1).drop_last() =~= plugin_ids@.take(i as int));
        if !young || plugin_ids[i] != own_id {
            out.push(plugin_ids[i]);
        }
        proof {
            let taken = plugin_ids@.take(i + 1);
            assert(taken =~= plugin_ids@.take(i as int).push(plugin_ids@[i as int]));
            plugin_ids@.take(i as int).lemma_filter_push(plugin_ids@[i as int], other_than(own_id));
        }
        assert(out@ =~= if young {
            plugin_ids@.take(i + 1).filter(other_than(own_id))
        } else {
            plugin_ids@.take(i + 1)
        });
        i += 1;
    }
    assert(plugin_ids@.take(i as int) =~= plugin_ids@);
    out
}

/// Closing hides the floating layer only when the oldest overview, the
/// one that stays otherwise, is among those closed.
pub open spec fn closes_the_board_spec(close_ids: Seq<u32>, plugin_ids: Seq<u32>) -> bool {
    plugin_ids.len() > 0 && close_ids.contains(oldest_of(plugin_ids))
}

pub fn closes_the_board(close_ids: &[u32], plugin_ids: &[u32]) -> (closes: bool)
    ensures
        closes == closes_the_board_spec(close_ids@, plugin_ids@),
{
    if plugin_ids.len() == 0 {
        return false;
    }
    let first = oldest(plugin_ids);
    contains_id(close_ids, first)
}

/// Calls `std::time::SystemTime::now()` and gives the milliseconds since the
/// Unix epoch, or 0 when the clock reads before it. Nothing is stated of the
/// result: it is the time.
#[verifier::external_body]
pub fn now_ms() -> (ms: u64) {
    std::time::SystemTime::now().duration_since(std::time::UNIX_EPOCH).map(|d| d.as_millis() as u64).unwrap_or(0)
}

/// A pane as the plugin sees it in the pane manifest.
#[derive(Debug, Clone, PartialEq, Eq)]
pub struct PaneEntry {
    pub is_plugin: bool,
    pub id: u32,
    pub plugin_url: Option<String>,
}

pub struct PaneModel {
    pub is_plugin: bool,
    pub id: u32,
    pub plugin_url: Option<Seq<char>>,
}

impl View for PaneEntry {
    type V = PaneModel;

    open spec fn view(&self) -> PaneModel {
        PaneModel {
            is_plugin: self.is_plugin,
            id: self.id,
            plugin_url: match self.plugin_url {
                Some(u) => Some(u@),
                None => None,
            },
        }
    }
}

pub open spec fn panes_view(panes: Seq<PaneEntry>) -> Seq<PaneModel> {
    panes.map_values(|p: PaneEntry| p@)
}

pub open spec fn own_pane(own_id: u32) -> spec_fn(PaneModel) -> bool {
    |p: PaneModel| p.is_plugin && p.id == own_id
}

/// The positions of the panes that run the same plugin as `url`.
pub open spec fn sibling_positions(panes: Seq<PaneModel>, url: Seq<char>, n: int) -> Seq<int>
    decreases n,
{
    if n <= 0 {
        seq![]
    } else {
        sibling_positions(panes, url, n - 1) + if panes[n - 1].plugin_url == Some(url) {
            seq![n - 1]
        } else {
            seq![]
        }
    }
}

/// The least plugin id among the given panes.
pub open spec fn oldest_plugin(panes: Seq<PaneModel>, positions: Seq<int>, n: int) -> Option<u32>
    decreases n,
{
    if n <= 0 {
        None
    } else {
        let p = panes[positions[n - 1]];
        let rest = oldest_plugin(panes, positions, n - 1);
        if !p.is_plugin {
            rest
        } else {
            match rest {
                Some(m) => if p.id < m {
                    Some(p.id)
                } else {
                    Some(m)
                },
                None => Some(p.id),
            }
        }
    }
}

/// When several overview instances are open, the oldest closes them all;
/// the others close nothing. The positions of the panes to close.
pub open spec fn panes_to_close_spec(own_id: u32, panes: Seq<PaneModel>) -> Seq<int> {
    match first_where(panes, own_pane(own_id)) {
        None => seq![],
        Some(i) => match panes[i].plugin_url {
            None => seq![],
            Some(url) => {
                let siblings = sibling_positions(panes, url, panes.len() as int);
                if siblings.len() > 1 && oldest_plugin(panes, siblings, siblings.len() as int) == Some(own_id) {
                    siblings
                } else {
                    seq![]
                }
            },
        },
    }
}

/// Which panes to close: every overview pane, when this instance is the
/// oldest of several.
pub fn panes_to_close(own_id: u32, panes: &Vec<PaneEntry>) -> (close: Vec<usize>)
    ensures
        close@.map_values(|i: usize| i as int) == panes_to_close_spec(own_id, panes_view(panes@)),
{
    let ghost pv = panes_view(panes@);
    let mut k: usize = 0;
    while k < panes.len() && !(panes[k].is_plugin && panes[k].id == own_id)
        invariant
            k <= panes@.len(),
            pv == panes_view(panes@),
            forall|j: int| 0 <= j < k ==> !own_pane(own_id)(#[trigger] pv[j]),
        decreases panes@.len() - k,
    {
        assert(pv[k as int] == panes@[k as int]@);
        k += 1;
    }
    if k < panes.len() {
        assert(pv[k as int] == panes@[k as int]@);
    }
    proof {
        crate::search::lemma_first_where(pv, own_pane(own_id), k as int);
    }
    let none: Vec<usize> = Vec::new();
    assert(none@.map_values(|i: usize| i as int) =~= Seq::<int>::empty());
    if k == panes.len() {
        return none;
    }
    let url = match &panes[k].plugin_url {
        Some(u) => u.as_str(),
        None => {
            return none;
        },
    };
    let mut siblings: Vec<usize> = Vec::new();
    let mut oldest: Option<u32> = None;
    let mut i: usize = 0;
    while i < panes.len()
        invariant
            i <= panes@.len(),
            pv == panes_view(panes@),
            siblings@.map_values(|x: usize| x as int) =~= sibling_positions(pv, url@, i as int),
            forall|j: int| 0 <= j < siblings@.len() ==> (#[trigger] siblings@[j]) < i,
            oldest == oldest_plugin(pv, siblings@.map_values(|x: usize| x as int), siblings@.len() as int),
        decreases panes@.len() - i,
    {
        assert(pv[i as int] == panes@[i as int]@);
        let same = match &panes[i].plugin_url {
            Some(u) => crate::text::str_eq(u.as_str(), url),
            None => false,
        };
        let ghost before = siblings@.map_values(|x: usize| x as int);
        if same {
            siblings.push(i);
            if panes[i].is_plugin {
                oldest = match oldest {
                    Some(m) => if panes[i].id < m { Some(panes[i].id) } else { Some(m) },
                    None => Some(panes[i].id),
                };
            }
            proof {
                let after = siblings@.map_values(|x: usize| x as int);
                assert(after =~= before.push(i as int));
                assert(after.take(after.len() - 1) =~= before);
                lemma_oldest_plugin_prefix(pv, after, before);
            }
        }
        i += 1;
    }
    let ghost sv = siblings@.map_values(|x: usize| x as int);
    if siblings.len() > 1 && oldest == Some(own_id) {
        siblings
    } else {
        none
    }
}

proof fn lemma_oldest_plugin_prefix(panes: Seq<PaneModel>, longer: Seq<int>, shorter: Seq<int>)
    requires
        longer.len() == shorter.len() + 1,
        forall|j: int| 0 <= j < shorter.len() ==> longer[j] == shorter[j],
    ensures
        oldest_plugin(panes, longer, shorter.len() as int) == oldest_plugin(panes, shorter, shorter.len() as int),
{
    lemma_oldest_plugin_same(panes, longer, shorter, shorter.len() as int);
}

proof fn lemma_oldest_plugin_same(panes: Seq<PaneModel>, a: Seq<int>, b: Seq<int>, n: int)
    requires
        n <= a.len(),
        n <= b.len(),
        forall|j: int| 0 <= j < n ==> a[j] == b[j],
    ensures
        oldest_plugin(panes, a, n) == oldest_plugin(panes, b, n),
    decreases n,
{
    if n > 0 {
        lemma_oldest_plugin_same(panes, a, b, n - 1);
    }
}


/// The instance that owns the toggle is the one with the least id: the
/// oldest id is one of the ids, and no id is below it, whatever their order.
pub proof fn law_oldest_is_the_least_id(ids: Seq<u32>)
    requires
        ids.len() > 0,
    ensures
        ids.contains(oldest_of(ids)),
        forall|i: int| 0 <= i < ids.len() ==> oldest_of(ids) <= #[trigger] ids[i],
    decreases ids.len(),
{
    if ids.len() > 1 {
        let front = ids.drop_last();
        law_oldest_is_the_least_id(front);
        assert forall|i: int| 0 <= i < ids.len() implies oldest_of(ids) <= #[trigger] ids[i] by {
            if i < front.len() {
                assert(front[i] == ids[i]);
            }
        }
        if oldest_of(ids) == oldest_of(front) {
            let j = choose|j: int| 0 <= j < front.len() && front[j] == oldest_of(front);
            assert(ids[j] == front[j]);
        } else {
            assert(ids[ids.len() - 1] == oldest_of(ids));
        }
    } else {
        assert(ids[0] == oldest_of(ids));
    }
}

/// Pressed again after the debounce, the instance with the least id closes
/// every overview; any other instance closes only itself; within the
/// debounce the least one closes every other instance and stays open.
pub proof fn law_least_instance_owns_the_toggle(own_id: u32, plugin_ids: Seq<u32>, opened_at_ms: u64, now_ms: u64)
    requires
        plugin_ids.len() > 1,
        plugin_ids.contains(own_id),
    ensures
        (forall|i: int| 0 <= i < plugin_ids.len() ==> own_id <= #[trigger] plugin_ids[i]) && !(opened_at_ms > 0 && now_ms > 0 && now_ms
            - opened_at_ms < TOGGLE_DEBOUNCE_MS) ==> close_ids_spec(own_id, plugin_ids, opened_at_ms, now_ms) == plugin_ids,
        (forall|i: int| 0 <= i < plugin_ids.len() ==> own_id <= #[trigger] plugin_ids[i]) && (opened_at_ms > 0 && now_ms > 0 && now_ms
            - opened_at_ms < TOGGLE_DEBOUNCE_MS) ==> close_ids_spec(own_id, plugin_ids, opened_at_ms, now_ms) == plugin_ids.filter(
            |id: u32| id != own_id,
        ),
        (exists|i: int| 0 <= i < plugin_ids.len() && #[trigger] plugin_ids[i] < own_id) ==> close_ids_spec(
            own_id,
            plugin_ids,
            opened_at_ms,
            now_ms,
        ) == seq![own_id],
{
    law_oldest_is_the_least_id(plugin_ids);
    let m = oldest_of(plugin_ids);
    let j = choose|j: int| 0 <= j < plugin_ids.len() && plugin_ids[j] == m;
    let k = choose|k: int| 0 <= k < plugin_ids.len() && plugin_ids[k] == own_id;
    assert(m <= plugin_ids[k]);
    if forall|i: int| 0 <= i < plugin_ids.len() ==> own_id <= #[trigger] plugin_ids[i] {
        assert(own_id <= plugin_ids[j]);
        assert(m == own_id);
        assert(plugin_ids.filter(other_than(own_id)) == plugin_ids.filter(|id: u32| id != own_id)) by {
            assert(other_than(own_id) =~= (|id: u32| id != own_id));
        }
    }
    if exists|i: int| 0 <= i < plugin_ids.len() && #[trigger] plugin_ids[i] < own_id {
        let i = choose|i: int| 0 <= i < plugin_ids.len() && #[trigger] plugin_ids[i] < own_id;
        assert(m <= plugin_ids[i]);
    }
}


/// The board closes exactly when the ids to close include the least of the
/// instance ids: the instance that owns the toggle.
pub proof fn law_board_closes_with_its_owner(close_ids: Seq<u32>, plugin_ids: Seq<u32>)
    ensures
        closes_the_board_spec(close_ids, plugin_ids) <==> (plugin_ids.len() > 0 && exists|i: int|
            0 <= i < plugin_ids.len() && close_ids.contains(#[trigger] plugin_ids[i]) && forall|j: int|
                0 <= j < plugin_ids.len() ==> plugin_ids[i] <= #[trigger] plugin_ids[j]),
{
    if plugin_ids.len() > 0 {
        law_oldest_is_the_least_id(plugin_ids);
        let m = oldest_of(plugin_ids);
        let k = choose|k: int| 0 <= k < plugin_ids.len() && plugin_ids[k] == m;
        if close_ids.contains(m) {
            assert(close_ids.contains(plugin_ids[k]));
        }
        if exists|i: int|
            0 <= i < plugin_ids.len() && close_ids.contains(#[trigger] plugin_ids[i]) && forall|j: int|
                0 <= j < plugin_ids.len() ==> plugin_ids[i] <= #[trigger] plugin_ids[j] {
            let i = choose|i: int|
                0 <= i < plugin_ids.len() && close_ids.contains(#[trigger] plugin_ids[i]) && forall|j: int|
                    0 <= j < plugin_ids.len() ==> plugin_ids[i] <= #[trigger] plugin_ids[j];
            assert(plugin_ids[i] <= plugin_ids[k]);
            assert(m <= plugin_ids[i]);
        }
    }
}

} // verus!
