//! Whether closing the overview should hide the floating layer: only when
//! the layer was hidden before the overview opened.

use vstd::prelude::*;
use crate::search::{first_where, lemma_first_where};

verus! {

#[derive(Debug, Default)]
pub struct FloatingLayerState {
    captured: bool,
    previous_pane_was_floating: bool,
}

impl FloatingLayerState {
    /// Whether the layer's state from before opening was recorded.
    pub closed spec fn is_captured(&self) -> bool {
        self.captured
    }

    /// Whether the layer was visible before opening.
    pub closed spec fn was_floating(&self) -> bool {
        self.previous_pane_was_floating
    }

    /// Nothing recorded yet.
    pub fn new() -> (state: FloatingLayerState)
        ensures
            !state.is_captured(),
            !state.was_floating(),
    {
        FloatingLayerState { captured: false, previous_pane_was_floating: false }
    }

    /// Records the layer's state from before the overview opened; only the
    /// first report counts, and an unknown one counts as hidden.
    pub fn capture(&mut self, previous_pane_was_floating: Option<bool>)
        ensures
            final(self).is_captured(),
            final(self).was_floating() == if old(self).is_captured() {
                old(self).was_floating()
            } else {
                previous_pane_was_floating == Some(true)
            },
    {
        if self.captured {
            return;
        }
        self.captured = true;
        self.previous_pane_was_floating = match previous_pane_was_floating {
            Some(b) => b,
            None => false,
        };
    }

    /// Hide the layer on close unless it was visible before.
    pub fn should_hide_on_close(&self) -> (hide: bool)
        ensures
            hide == !self.was_floating(),
    {
        !self.previous_pane_was_floating
    }
}

/// A pane, by its kind and id.
#[derive(Debug, Clone, Copy, PartialEq, Eq, Structural)]
pub struct PaneRef {
    pub is_plugin: bool,
    pub id: u32,
}

/// The most recent pane in `history` other than `own`.
pub open spec fn last_other_pane(history: Seq<PaneRef>, own: PaneRef) -> Option<PaneRef>
    decreases history.len(),
{
    if history.len() == 0 {
        None
    } else if history.last() != own {
        Some(history.last())
    } else {
        last_other_pane(history.drop_last(), own)
    }
}

pub open spec fn pane_is(p: PaneRef) -> spec_fn((PaneRef, bool)) -> bool {
    |e: (PaneRef, bool)| e.0 == p
}

/// Whether the pane the user came from was floating: the most recent pane
/// in the focus history other than the overview, looked up among the
/// session's panes (each with whether it floats); unknown when there is
/// no such pane or it is not listed.
pub open spec fn previous_pane_floating_spec(own_plugin_id: u32, history: Seq<PaneRef>, panes: Seq<(PaneRef, bool)>) -> Option<bool> {
    match last_other_pane(history, PaneRef { is_plugin: true, id: own_plugin_id }) {
        None => None,
        Some(p) => match first_where(panes, pane_is(p)) {
            Some(i) => Some(panes[i].1),
            None => None,
        },
    }
}

/// Whether the pane the user came from was floating.
pub fn previous_pane_was_floating(own_plugin_id: u32, history: &Vec<PaneRef>, panes: &Vec<(PaneRef, bool)>) -> (floating: Option<bool>)
    ensures
        floating == previous_pane_floating_spec(own_plugin_id, history@, panes@),
{
    let own = PaneRef { is_plugin: true, id: own_plugin_id };
    let mut n: usize = history.len();
    assert(history@.take(n as int) =~= history@);
    while n > 0 && history[n - 1] == own
        invariant
            n <= history@.len(),
            last_other_pane(history@, own) == last_other_pane(history@.take(n as int), own),
        decreases n,
    {
        assert(history@.take(n as int).drop_last() =~= history@.take(n - 1));
        n -= 1;
    }
    if n == 0 {
        assert(history@.take(0) =~= Seq::<PaneRef>::empty());
        return None;
    }
    let previous = history[n - 1];
    assert(history@.take(n as int).last() == previous);
    let mut i: usize = 0;
    while i < panes.len() && panes[i].0 != previous
        invariant
            i <= panes@.len(),
            forall|j: int| 0 <= j < i ==> !pane_is(previous)(#[trigger] panes@[j]),
        decreases panes@.len() - i,
    {
        i += 1;
    }
    proof {
        lemma_first_where(panes@, pane_is(previous), i as int);
    }
    if i < panes.len() {
        Some(panes[i].1)
    } else {
        None
    }
}

} // verus!
