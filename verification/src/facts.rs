//! What the host reports (tabs and sessions), what the user presses, and
//! what the board asks the host to do.

use vstd::prelude::*;
use crate::text::{trim, trim_str};

verus! {

/// A tab of a session.
#[derive(Debug, Clone, PartialEq, Eq)]
pub struct TabFact {
    pub id: usize,
    pub position: usize,
    pub name: String,
    pub active: bool,
}

/// A live session and the tabs it reported, which may be fewer than
/// `tab_count` while a snapshot is partial.
#[derive(Debug, Clone, PartialEq, Eq)]
pub struct SessionFact {
    pub name: String,
    pub current: bool,
    pub tab_count: usize,
    pub tabs: Vec<TabFact>,
}

#[derive(Debug, Clone, Copy, PartialEq, Eq, Structural)]
pub enum Key {
    Left,
    Down,
    Up,
    Right,
    Confirm,
    PreviousTab,
    HalfPageDown,
    HalfPageUp,
    PageDown,
    PageUp,
    GoPrefix,
    Last,
    ZPrefix,
    AlignTop,
    AlignBottom,
    ToggleHelp,
    Dismiss,
    Toggle,
    StartHint,
    Pin,
    Input(char),
    Backspace,
}

/// What the board asks the host to do after a key.
#[derive(Debug, Clone, PartialEq, Eq)]
pub enum Action {
    Noop,
    Dismiss,
    /// Zero-based index expected by zellij-tile's `go_to_tab`.
    Commit { tab_index: u32 },
    PreviousTab,
    SwitchSession { name: String, tab_position: Option<usize> },
    PersistPins,
}

/// An action, its session name as characters.
pub enum ActionModel {
    Noop,
    Dismiss,
    Commit { tab_index: u32 },
    PreviousTab,
    SwitchSession { name: Seq<char>, tab_position: Option<usize> },
    PersistPins,
}

impl View for Action {
    type V = ActionModel;

    open spec fn view(&self) -> ActionModel {
        match self {
            Action::Noop => ActionModel::Noop,
            Action::Dismiss => ActionModel::Dismiss,
            Action::Commit { tab_index } => ActionModel::Commit { tab_index: *tab_index },
            Action::PreviousTab => ActionModel::PreviousTab,
            Action::SwitchSession { name, tab_position } => ActionModel::SwitchSession {
                name: name@,
                tab_position: *tab_position,
            },
            Action::PersistPins => ActionModel::PersistPins,
        }
    }
}

/// A pinned tab, named by its session and its title.
#[derive(Debug, Clone, PartialEq, Eq)]
pub struct Pin {
    pub session: String,
    pub tab_name: String,
}

/// A pin as characters.
pub struct PinModel {
    pub session: Seq<char>,
    pub tab_name: Seq<char>,
}

impl View for Pin {
    type V = PinModel;

    open spec fn view(&self) -> PinModel {
        PinModel { session: self.session@, tab_name: self.tab_name@ }
    }
}

pub open spec fn pins_view(pins: Seq<Pin>) -> Seq<PinModel> {
    pins.map_values(|p: Pin| p@)
}

/// Which cached files lost entries that no longer match a live tab or session.
#[derive(Debug, Clone, Copy, PartialEq, Eq, Structural)]
pub struct CachePrune {
    pub pins: bool,
    pub previous: bool,
    pub session_last: bool,
}

impl CachePrune {
    pub open spec fn clean() -> CachePrune {
        CachePrune { pins: false, previous: false, session_last: false }
    }
}

impl Default for CachePrune {
    fn default() -> (r: CachePrune)
        ensures
            r == CachePrune::clean(),
    {
        CachePrune { pins: false, previous: false, session_last: false }
    }
}

pub open spec fn untitled() -> Seq<char> {
    seq!['u', 'n', 't', 'i', 't', 'l', 'e', 'd']
}

/// The title a tab is shown and pinned under: its name without surrounding
/// white space, or `untitled` when nothing is left.
pub open spec fn display_name_spec(name: Seq<char>) -> Seq<char> {
    if trim(name).len() == 0 {
        untitled()
    } else {
        trim(name)
    }
}

/// The title a tab is shown and pinned under.
pub fn display_name(tab: &TabFact) -> (title: &str)
    ensures
        title@ == display_name_spec(tab.name@),
{
    let name = trim_str(tab.name.as_str());
    if name.is_empty() {
        proof {
            reveal_strlit("untitled");
        }
        assert("untitled"@ =~= untitled());
        return "untitled";
    }
    name
}

impl TabFact {
    /// A copy of the tab.
    pub fn duplicate(&self) -> (r: TabFact)
        ensures
            r == *self,
    {
        TabFact { id: self.id, position: self.position, name: self.name.clone(), active: self.active }
    }
}

/// A copy of every tab.
pub fn copy_tabs(tabs: &Vec<TabFact>) -> (r: Vec<TabFact>)
    ensures
        r@ == tabs@,
{
    let mut r: Vec<TabFact> = Vec::new();
    let mut i: usize = 0;
    while i < tabs.len()
        invariant
            i <= tabs@.len(),
            r@ =~= tabs@.take(i as int),
        decreases tabs@.len() - i,
    {
        r.push(tabs[i].duplicate());
        i += 1;
    }
    assert(r@ =~= tabs@);
    r
}

/// A session as mathematical values.
pub struct SessionModel {
    pub name: Seq<char>,
    pub current: bool,
    pub tab_count: usize,
    pub tabs: Seq<TabFact>,
}

impl View for SessionFact {
    type V = SessionModel;

    open spec fn view(&self) -> SessionModel {
        SessionModel { name: self.name@, current: self.current, tab_count: self.tab_count, tabs: self.tabs@ }
    }
}

pub open spec fn sessions_view(sessions: Seq<SessionFact>) -> Seq<SessionModel> {
    sessions.map_values(|s: SessionFact| s@)
}

impl SessionFact {
    pub fn duplicate(&self) -> (r: SessionFact)
        ensures
            r@ == self@,
    {
        SessionFact {
            name: self.name.clone(),
            current: self.current,
            tab_count: self.tab_count,
            tabs: copy_tabs(&self.tabs),
        }
    }
}

impl Pin {
    pub fn duplicate(&self) -> (r: Pin)
        ensures
            r == *self,
    {
        Pin { session: self.session.clone(), tab_name: self.tab_name.clone() }
    }
}

/// A copy of every pin.
pub fn copy_pins(pins: &Vec<Pin>) -> (r: Vec<Pin>)
    ensures
        r@ == pins@,
{
    let mut r: Vec<Pin> = Vec::new();
    let mut i: usize = 0;
    while i < pins.len()
        invariant
            i <= pins@.len(),
            r@ =~= pins@.take(i as int),
        decreases pins@.len() - i,
    {
        r.push(pins[i].duplicate());
        i += 1;
    }
    assert(r@ =~= pins@);
    r
}

impl Action {
    /// A copy of the action.
    pub fn duplicate(&self) -> (r: Action)
        ensures
            r@ == self@,
    {
        match self {
            Action::Noop => Action::Noop,
            Action::Dismiss => Action::Dismiss,
            Action::Commit { tab_index } => Action::Commit { tab_index: *tab_index },
            Action::PreviousTab => Action::PreviousTab,
            Action::SwitchSession { name, tab_position } => Action::SwitchSession {
                name: name.clone(),
                tab_position: *tab_position,
            },
            Action::PersistPins => Action::PersistPins,
        }
    }
}

/// Whether two actions are the same.
pub fn same_action(a: &Action, b: &Action) -> (same: bool)
    ensures
        same == (a@ == b@),
{
    match (a, b) {
        (Action::Noop, Action::Noop) => true,
        (Action::Dismiss, Action::Dismiss) => true,
        (Action::Commit { tab_index: x }, Action::Commit { tab_index: y }) => *x == *y,
        (Action::PreviousTab, Action::PreviousTab) => true,
        (Action::SwitchSession { name: n1, tab_position: p1 }, Action::SwitchSession { name: n2, tab_position: p2 }) => {
            let same_position = match (p1, p2) {
                (Some(x), Some(y)) => *x == *y,
                (None, None) => true,
                _ => false,
            };
            *n1 == *n2 && same_position
        },
        (Action::PersistPins, Action::PersistPins) => true,
        _ => false,
    }
}

} // verus!
