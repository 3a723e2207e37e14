//! The combined board: pinned tabs, then sessions, then the current
//! session's unpinned tabs; or, inside one session, its pins and tabs.

use vstd::prelude::*;
use vstd::utf8::encode_utf8;
use crate::facts::{display_name_spec, CachePrune, Key, PinModel, SessionModel, TabFact};
use crate::grid::{calculate_spec, PlanModel, Rect};
use crate::search::{first_index, first_where};
use crate::width::line_width;
use crate::hints::{hint_alphabet, tips, title_match_range_spec};
use crate::sorting::{sort_sessions_spec, sort_tabs_spec};
use crate::grid::{clamp_step, LayoutMode};
use crate::text::ascii_lower;
use crate::facts::ActionModel;

verus! {

/// What a card of the board shows.
#[derive(Debug, Clone, Copy, PartialEq, Eq, Structural)]
pub enum Slot {
    /// The pin at this index of the pin list.
    Pin(usize),
    /// The session at this index of the session list.
    Session(usize),
    /// The current session's tab at this index of the tab list.
    LiveTab(usize),
    /// A tab another session reported in its snapshot.
    SnapTab { session: usize, tab: usize },
}

/// Which card the cursor is on, by what it shows rather than where.
pub enum Identity {
    Session(Seq<char>),
    Tab(usize),
    Pinned { session: Seq<char>, name: Seq<char> },
}

/// Flash search: the query, the tip typed so far, and each card's tip.
#[verifier::ext_equal]
pub struct HintModel {
    pub labels: Seq<Option<Seq<char>>>,
    pub query: Seq<char>,
    pub jump_prefix: Seq<char>,
}

/// Everything the board holds, as mathematical values.
#[verifier::ext_equal]
pub struct BoardModel {
    pub tabs: Seq<TabFact>,
    pub sessions: Seq<SessionModel>,
    /// `None` is the home board.
    pub drilled: Option<Seq<char>>,
    pub last_tabs: Map<Seq<char>, usize>,
    pub pins: Seq<PinModel>,
    pub cursor: usize,
    pub previous_tab_id: Option<usize>,
    pub previous_session: Option<Seq<char>>,
    pub viewport: Option<(usize, usize)>,
    pub scroll_offset: usize,
    pub pending_g: bool,
    pub pending_z: bool,
    pub show_help: bool,
    pub hint: Option<HintModel>,
    pub stale: CachePrune,
}

/// Rows left for cards once the footer line is taken.
pub open spec fn content_rows_spec(rows: int) -> int {
    if rows >= 3 {
        rows - 1
    } else {
        rows
    }
}

pub open spec fn min_u16(v: int) -> u16 {
    (if v > u16::MAX {
        u16::MAX as int
    } else {
        v
    }) as u16
}

pub open spec fn sat(v: int) -> int {
    if v > usize::MAX {
        usize::MAX as int
    } else {
        v
    }
}

pub open spec fn flag(b: bool) -> int {
    if b {
        1
    } else {
        0
    }
}

/// Columns a session mark takes.
pub open spec fn session_mark_width() -> int {
    2
}

/// Columns a pin mark takes.
pub open spec fn pin_mark_width() -> int {
    2
}

/// Whether a session is the current one.
pub open spec fn is_current_session() -> spec_fn(SessionModel) -> bool {
    |s: SessionModel| s.current
}

/// Whether a tab is the active one.
pub open spec fn tab_is_active() -> spec_fn(TabFact) -> bool {
    |t: TabFact| t.active
}

/// Whether a session is called `name`.
pub open spec fn session_named(name: Seq<char>) -> spec_fn(SessionModel) -> bool {
    |s: SessionModel| s.name == name
}

/// Whether a tab is shown under `title`.
pub open spec fn tab_titled_as(title: Seq<char>) -> spec_fn(TabFact) -> bool {
    |t: TabFact| display_name_spec(t.name@) == title
}

/// Whether a card is something other than a pin.
pub open spec fn not_pin() -> spec_fn(Slot) -> bool {
    |s: Slot| !(s is Pin)
}

impl BoardModel {
    /// Whether card `i` is the pin of `session`'s tab at `position`.
    pub open spec fn pinned_at(self, session: Seq<char>, position: usize) -> spec_fn(int) -> bool {
        |i: int| self.item_is_pinned(i) && self.item_session_name(i) == Some(session) && (self.tab_at(i) matches Some(t) && t.position == position)
    }

    /// Whether card `i` is session `name`.
    pub open spec fn session_card(self, name: Seq<char>) -> spec_fn(int) -> bool {
        |i: int| self.session_at(i) matches Some(s) && s.name == name
    }

    /// Whether card `i` is a pin of `session` titled `name`.
    pub open spec fn pinned_titled(self, session: Seq<char>, name: Seq<char>) -> spec_fn(int) -> bool {
        |i: int| self.item_is_pinned(i) && self.item_session_name(i) == Some(session) && (self.tab_at(i) matches Some(t) && display_name_spec(t.name@) == name)
    }

    /// Whether card `i` is titled `title`, belongs to `session` when one is
    /// given, and is a tab when `tabs_only`.
    pub open spec fn titled_card(self, title: Seq<char>, session: Option<Seq<char>>, tabs_only: bool) -> spec_fn(int) -> bool {
        |i: int|
            self.item_title(i) == Some(title) && (match session {
                Some(s) => self.item_session_name(i) == Some(s),
                None => true,
            }) && (tabs_only ==> self.tab_at(i) is Some)
    }

    /// Whether card `i` is the tab with this id.
    pub open spec fn tab_with_id(self, id: usize) -> spec_fn(int) -> bool {
        |i: int| self.tab_at(i) matches Some(t) && t.id == id
    }

    /// Whether card `i` is a tab at this position.
    pub open spec fn tab_at_position(self, position: usize) -> spec_fn(int) -> bool {
        |i: int| self.tab_at(i) matches Some(t) && t.position == position
    }

    /// Whether card `i` is the active tab.
    pub open spec fn active_tab(self) -> spec_fn(int) -> bool {
        |i: int| self.tab_at(i) matches Some(t) && t.active
    }

    /// Whether card `i` is active and is (or is not) a session.
    pub open spec fn active_item(self, sessions: bool) -> spec_fn(int) -> bool {
        |i: int| self.item_is_session(i) == sessions && self.item_is_active(i)
    }

    pub open spec fn bounded(self) -> bool {
        &&& self.sessions.len() <= usize::MAX
        &&& self.tabs.len() <= usize::MAX
        &&& self.pins.len() <= usize::MAX
        &&& forall|i: int| 0 <= i < self.sessions.len() ==> (#[trigger] self.sessions[i]).tabs.len() <= usize::MAX
    }

    pub open spec fn current_session_name(self) -> Option<Seq<char>> {
        match first_where(self.sessions, is_current_session()) {
            Some(i) => Some(self.sessions[i].name),
            None => None,
        }
    }

    /// Position of the session called `name`.
    pub open spec fn session_index(self, name: Seq<char>) -> Option<int> {
        first_where(self.sessions, session_named(name))
    }

    /// The first of `tabs` shown under the title `title`.
    pub open spec fn tab_titled(tabs: Seq<TabFact>, title: Seq<char>) -> Option<TabFact> {
        match first_where(tabs, tab_titled_as(title)) {
            Some(i) => Some(tabs[i]),
            None => None,
        }
    }

    /// The tab a pin stands for: a current-session pin looks in the live tab
    /// list, another session's pin in that session's snapshot.
    pub open spec fn resolve_pin(self, pin: PinModel) -> Option<TabFact> {
        if self.current_session_name() == Some(pin.session) {
            BoardModel::tab_titled(self.tabs, pin.tab_name)
        } else {
            match self.session_index(pin.session) {
                None => None,
                Some(si) => BoardModel::tab_titled(self.sessions[si].tabs, pin.tab_name),
            }
        }
    }

    pub open spec fn is_pinned_name(self, session: Seq<char>, name: Seq<char>) -> bool {
        exists|i: int| 0 <= i < self.pins.len() && (#[trigger] self.pins[i]).session == session && self.pins[i].tab_name == name
    }

    pub open spec fn drilled_session_is_current(self) -> bool {
        self.drilled == self.current_session_name()
    }

    /// Whether pin `i` gets a card: it stands for a tab, and on a session's
    /// own board it belongs to that session.
    pub open spec fn pin_shown(self, only: Option<Seq<char>>, i: int) -> bool {
        &&& self.resolve_pin(self.pins[i]) is Some
        &&& match only {
            Some(name) => self.pins[i].session == name,
            None => true,
        }
    }

    pub open spec fn pin_slots(self, only: Option<Seq<char>>, n: int) -> Seq<Slot>
        decreases n,
    {
        if n <= 0 {
            seq![]
        } else {
            self.pin_slots(only, n - 1) + if self.pin_shown(only, n - 1) {
                seq![Slot::Pin((n - 1) as usize)]
            } else {
                seq![]
            }
        }
    }

    /// Whether `slot` is the pin of session `name`'s last tab.
    pub open spec fn is_last_tab_pin(self, name: Seq<char>, slot: Slot) -> bool {
        match slot {
            Slot::Pin(p) => p < self.pins.len() && self.pins[p as int].session == name && self.last_tabs.contains_key(name)
                && (self.resolve_pin(self.pins[p as int]) matches Some(t) && t.position == self.last_tabs[name]),
            _ => false,
        }
    }

    /// On the home board the left session's card gives way to the pin of
    /// its last tab, when that tab is pinned.
    pub open spec fn folded_session(self) -> Option<Seq<char>> {
        match self.other_previous_session() {
            Some(name) => {
                let pins = self.pin_slots(None, self.pins.len() as int);
                if exists|i: int| 0 <= i < pins.len() && #[trigger] self.is_last_tab_pin(name, pins[i]) {
                    Some(name)
                } else {
                    None
                }
            },
            None => None,
        }
    }

    /// The cards of the first `n` sessions, less the folded one.
    pub open spec fn session_slots_upto(self, n: int) -> Seq<Slot>
        decreases n,
    {
        if n <= 0 {
            seq![]
        } else {
            self.session_slots_upto(n - 1) + if self.folded_session() == Some(self.sessions[n - 1].name) {
                seq![]
            } else {
                seq![Slot::Session((n - 1) as usize)]
            }
        }
    }

    pub open spec fn session_slots(self) -> Seq<Slot> {
        self.session_slots_upto(self.sessions.len() as int)
    }

    /// The live tabs of the first `n` that are not pinned under `session`.
    pub open spec fn live_slots(self, session: Seq<char>, n: int) -> Seq<Slot>
        decreases n,
    {
        if n <= 0 {
            seq![]
        } else {
            self.live_slots(session, n - 1) + if !self.is_pinned_name(session, display_name_spec(self.tabs[n - 1].name@)) {
                seq![Slot::LiveTab((n - 1) as usize)]
            } else {
                seq![]
            }
        }
    }

    /// The first `n` snapshot tabs of session `si` that are not pinned under `session`.
    pub open spec fn snap_slots(self, si: int, session: Seq<char>, n: int) -> Seq<Slot>
        decreases n,
    {
        if n <= 0 {
            seq![]
        } else {
            self.snap_slots(si, session, n - 1) + if !self.is_pinned_name(
                session,
                display_name_spec(self.sessions[si].tabs[n - 1].name@),
            ) {
                seq![Slot::SnapTab { session: si as usize, tab: (n - 1) as usize }]
            } else {
                seq![]
            }
        }
    }

    pub open spec fn home_slots(self) -> Seq<Slot> {
        let current = match self.current_session_name() {
            Some(name) => name,
            None => Seq::<char>::empty(),
        };
        self.pin_slots(None, self.pins.len() as int) + self.session_slots() + self.live_slots(current, self.tabs.len() as int)
    }

    pub open spec fn drilled_slots(self, name: Seq<char>) -> Seq<Slot> {
        self.pin_slots(Some(name), self.pins.len() as int) + if self.drilled_session_is_current() {
            self.live_slots(name, self.tabs.len() as int)
        } else {
            match self.session_index(name) {
                None => seq![],
                Some(si) => self.snap_slots(si, name, self.sessions[si].tabs.len() as int),
            }
        }
    }

    /// The cards of the board, in order.
    pub open spec fn slots(self) -> Seq<Slot> {
        match self.drilled {
            Some(name) => self.drilled_slots(name),
            None => self.home_slots(),
        }
    }

    /// Every index a slot holds points into the list it names.
    pub open spec fn slot_valid(self, slot: Slot) -> bool {
        match slot {
            Slot::Pin(p) => p < self.pins.len(),
            Slot::Session(s) => s < self.sessions.len(),
            Slot::LiveTab(t) => t < self.tabs.len(),
            Slot::SnapTab { session, tab } => session < self.sessions.len() && tab < self.sessions[session as int].tabs.len(),
        }
    }

    pub proof fn lemma_slots_valid(self)
        requires
            self.bounded(),
        ensures
            forall|i: int| 0 <= i < self.slots().len() ==> self.slot_valid(#[trigger] self.slots()[i]),
    {
        self.lemma_pin_slots_valid(self.drilled, self.pins.len() as int);
        match self.drilled {
            Some(name) => {
                self.lemma_live_slots_valid(name, self.tabs.len() as int);
                match self.session_index(name) {
                    Some(si) => {
                        crate::search::lemma_first_where_found(self.sessions, session_named(name));
                        self.lemma_snap_slots_valid(si, name, self.sessions[si].tabs.len() as int);
                    },
                    None => {},
                }
                let a = self.pin_slots(Some(name), self.pins.len() as int);
                let b = if self.drilled_session_is_current() {
                    self.live_slots(name, self.tabs.len() as int)
                } else {
                    match self.session_index(name) {
                        None => seq![],
                        Some(si) => self.snap_slots(si, name, self.sessions[si].tabs.len() as int),
                    }
                };
                assert forall|i: int| 0 <= i < self.slots().len() implies self.slot_valid(#[trigger] self.slots()[i]) by {
                    assert(self.slots() == a + b);
                    if i < a.len() {
                        assert(self.slots()[i] == a[i]);
                    } else {
                        assert(self.slots()[i] == b[i - a.len()]);
                    }
                }
            },
            None => {
                let current = match self.current_session_name() {
                    Some(name) => name,
                    None => Seq::<char>::empty(),
                };
                self.lemma_pin_slots_valid(None, self.pins.len() as int);
                self.lemma_session_slots_valid(self.sessions.len() as int);
                self.lemma_live_slots_valid(current, self.tabs.len() as int);
                let a = self.pin_slots(None, self.pins.len() as int);
                let b = self.session_slots();
                let c = self.live_slots(current, self.tabs.len() as int);
                assert forall|i: int| 0 <= i < self.slots().len() implies self.slot_valid(#[trigger] self.slots()[i]) by {
                    assert(self.slots() == a + b + c);
                    if i < a.len() {
                        assert(self.slots()[i] == a[i]);
                    } else if i < a.len() + b.len() {
                        assert(self.slots()[i] == b[i - a.len()]);
                    } else {
                        assert(self.slots()[i] == c[i - a.len() - b.len()]);
                    }
                }
            },
        }
    }

    proof fn lemma_pin_slots_valid(self, only: Option<Seq<char>>, n: int)
        requires
            n <= self.pins.len(),
            self.bounded(),
        ensures
            forall|i: int| 0 <= i < self.pin_slots(only, n).len() ==> self.slot_valid(#[trigger] self.pin_slots(only, n)[i]),
            forall|i: int| 0 <= i < self.pin_slots(only, n).len() ==> (#[trigger] self.pin_slots(only, n)[i]) is Pin,
        decreases n,
    {
        if n > 0 {
            self.lemma_pin_slots_valid(only, n - 1);
            let a = self.pin_slots(only, n - 1);
            assert forall|i: int| 0 <= i < self.pin_slots(only, n).len() implies self.slot_valid(#[trigger] self.pin_slots(only, n)[i])
                && self.pin_slots(only, n)[i] is Pin by {
                if i < a.len() {
                    assert(self.pin_slots(only, n)[i] == a[i]);
                }
            }
        }
    }

    proof fn lemma_session_slots_valid(self, n: int)
        requires
            n <= self.sessions.len(),
            self.bounded(),
        ensures
            forall|i: int| 0 <= i < self.session_slots_upto(n).len() ==> self.slot_valid(#[trigger] self.session_slots_upto(n)[i]),
            forall|i: int| 0 <= i < self.session_slots_upto(n).len() ==> (#[trigger] self.session_slots_upto(n)[i]) is Session,
        decreases n,
    {
        if n > 0 {
            self.lemma_session_slots_valid(n - 1);
            let a = self.session_slots_upto(n - 1);
            assert forall|i: int| 0 <= i < self.session_slots_upto(n).len() implies self.slot_valid(#[trigger] self.session_slots_upto(n)[i])
                && self.session_slots_upto(n)[i] is Session by {
                if i < a.len() {
                    assert(self.session_slots_upto(n)[i] == a[i]);
                }
            }
        }
    }

    proof fn lemma_live_slots_valid(self, session: Seq<char>, n: int)
        requires
            n <= self.tabs.len(),
            self.bounded(),
        ensures
            forall|i: int| 0 <= i < self.live_slots(session, n).len() ==> self.slot_valid(#[trigger] self.live_slots(session, n)[i]),
            forall|i: int| 0 <= i < self.live_slots(session, n).len() ==> (#[trigger] self.live_slots(session, n)[i]) is LiveTab,
        decreases n,
    {
        if n > 0 {
            self.lemma_live_slots_valid(session, n - 1);
            let a = self.live_slots(session, n - 1);
            assert forall|i: int| 0 <= i < self.live_slots(session, n).len() implies self.slot_valid(#[trigger] self.live_slots(session, n)[i])
                && self.live_slots(session, n)[i] is LiveTab by {
                if i < a.len() {
                    assert(self.live_slots(session, n)[i] == a[i]);
                }
            }
        }
    }

    proof fn lemma_snap_slots_valid(self, si: int, session: Seq<char>, n: int)
        requires
            0 <= si < self.sessions.len(),
            self.bounded(),
            n <= self.sessions[si].tabs.len(),
        ensures
            forall|i: int| 0 <= i < self.snap_slots(si, session, n).len() ==> self.slot_valid(#[trigger] self.snap_slots(si, session, n)[i]),
            forall|i: int| 0 <= i < self.snap_slots(si, session, n).len() ==> (#[trigger] self.snap_slots(si, session, n)[i]) is SnapTab,
        decreases n,
    {
        if n > 0 {
            self.lemma_snap_slots_valid(si, session, n - 1);
            let a = self.snap_slots(si, session, n - 1);
            assert forall|i: int| 0 <= i < self.snap_slots(si, session, n).len() implies self.slot_valid(#[trigger] self.snap_slots(si, session, n)[i])
                && self.snap_slots(si, session, n)[i] is SnapTab by {
                if i < a.len() {
                    assert(self.snap_slots(si, session, n)[i] == a[i]);
                }
            }
        }
    }

    pub open spec fn item_count(self) -> int {
        self.slots().len() as int
    }

    pub open spec fn slot(self, index: int) -> Option<Slot> {
        if 0 <= index < self.slots().len() {
            Some(self.slots()[index])
        } else {
            None
        }
    }

    pub open spec fn session_at(self, index: int) -> Option<SessionModel> {
        match self.slot(index) {
            Some(Slot::Session(s)) => if s < self.sessions.len() {
                Some(self.sessions[s as int])
            } else {
                None
            },
            _ => None,
        }
    }

    pub open spec fn tab_at(self, index: int) -> Option<TabFact> {
        match self.slot(index) {
            Some(Slot::Pin(p)) => self.resolve_pin(self.pins[p as int]),
            Some(Slot::LiveTab(t)) => if t < self.tabs.len() {
                Some(self.tabs[t as int])
            } else {
                None
            },
            Some(Slot::SnapTab { session, tab }) => if session < self.sessions.len() && tab < self.sessions[session as int].tabs.len() {
                Some(self.sessions[session as int].tabs[tab as int])
            } else {
                None
            },
            _ => None,
        }
    }

    /// The session a card belongs to.
    pub open spec fn item_session_name(self, index: int) -> Option<Seq<char>> {
        match self.slot(index) {
            Some(Slot::Pin(p)) => Some(self.pins[p as int].session),
            Some(Slot::Session(s)) => Some(self.sessions[s as int].name),
            Some(Slot::LiveTab(_)) => self.current_session_name(),
            Some(Slot::SnapTab { session, .. }) => Some(self.sessions[session as int].name),
            None => None,
        }
    }

    pub open spec fn item_title(self, index: int) -> Option<Seq<char>> {
        match self.session_at(index) {
            Some(s) => Some(s.name),
            None => match self.tab_at(index) {
                Some(t) => Some(display_name_spec(t.name@)),
                None => None,
            },
        }
    }

    pub open spec fn item_is_active(self, index: int) -> bool {
        match self.session_at(index) {
            Some(s) => s.current,
            None => match self.tab_at(index) {
                Some(t) => t.active,
                None => false,
            },
        }
    }

    pub open spec fn item_is_pinned(self, index: int) -> bool {
        self.slot(index) matches Some(Slot::Pin(_))
    }

    pub open spec fn item_is_session(self, index: int) -> bool {
        self.slot(index) matches Some(Slot::Session(_))
    }

    /// How many cards, from the first, are pins.
    pub open spec fn pin_count(self) -> int {
        match first_where(self.slots(), not_pin()) {
            Some(i) => i,
            None => self.slots().len() as int,
        }
    }

    /// The left session, if it is still live and not the current one.
    pub open spec fn other_previous_session(self) -> Option<Seq<char>> {
        match self.previous_session {
            None => None,
            Some(name) => if exists|i: int| 0 <= i < self.sessions.len() && (#[trigger] self.sessions[i]).name == name && !self.sessions[i].current {
                Some(name)
            } else {
                None
            },
        }
    }

    /// The pinned card of `session`'s last tab, if that tab is pinned.
    pub open spec fn previous_session_pin_index(self, session: Seq<char>) -> Option<int> {
        if !self.last_tabs.contains_key(session) {
            None
        } else {
            let position = self.last_tabs[session];
            first_index(self.item_count(), self.pinned_at(session, position))
        }
    }

    /// Whether the card is where `-` goes: the previous tab, or the left
    /// session (its pinned last tab when there is one).
    pub open spec fn is_previous_item(self, index: int) -> bool {
        match self.drilled {
            Some(name) => if self.drilled_session_is_current() {
                self.tab_at(index) matches Some(t) && Some(t.id) == self.previous_tab_id
            } else {
                self.last_tabs.contains_key(name) && (self.tab_at(index) matches Some(t) && t.position == self.last_tabs[name])
            },
            None => match self.other_previous_session() {
                Some(name) => match self.previous_session_pin_index(name) {
                    Some(pin) => index == pin,
                    None => self.session_at(index) matches Some(s) && s.name == name,
                },
                None => self.tab_at(index) matches Some(t) && Some(t.id) == self.previous_tab_id,
            },
        }
    }

    /// The session name written after a pinned title: only for pins that are
    /// not the previous item.
    pub open spec fn item_pin_session(self, index: int) -> Option<Seq<char>> {
        if !self.item_is_pinned(index) || self.is_previous_item(index) {
            None
        } else {
            self.item_session_name(index)
        }
    }

    pub open spec fn index_of(self, identity: Identity) -> Option<int> {
        match identity {
            Identity::Session(name) => first_index(self.item_count(), self.session_card(name)),
            Identity::Pinned { session, name } => first_index(self.item_count(), self.pinned_titled(session, name)),
            Identity::Tab(id) => first_index(self.item_count(), self.tab_with_id(id)),
        }
    }

    /// What the cursor is on.
    pub open spec fn selected_identity(self) -> Option<Identity> {
        let c = self.cursor as int;
        match self.session_at(c) {
            Some(s) => Some(Identity::Session(s.name)),
            None => if self.item_is_pinned(c) {
                match (self.item_session_name(c), self.tab_at(c)) {
                    (Some(session), Some(t)) => Some(Identity::Pinned { session, name: display_name_spec(t.name@) }),
                    _ => None,
                }
            } else {
                match self.tab_at(c) {
                    Some(t) => Some(Identity::Tab(t.id)),
                    None => None,
                }
            },
        }
    }

    /// Where the cursor starts: the active tab (on a session's board, first
    /// the tab `-` would go to); on the home board, else the current session.
    pub open spec fn active_index(self) -> Option<int> {
        let n = self.item_count();
        match self.drilled {
            Some(name) => {
                let remembered = if self.drilled_session_is_current() {
                    match self.previous_tab_id {
                        Some(id) => self.index_of(Identity::Tab(id)),
                        None => None,
                    }
                } else if self.last_tabs.contains_key(name) {
                    first_index(n, self.tab_at_position(self.last_tabs[name]))
                } else {
                    None
                };
                match remembered {
                    Some(i) => Some(i),
                    None => match first_index(n, self.active_tab()) {
                        Some(i) => Some(i),
                        None => if n > 0 {
                            Some(0)
                        } else {
                            None
                        },
                    },
                }
            },
            None => match first_index(n, self.active_item(false)) {
                Some(i) => Some(i),
                None => first_index(n, self.active_item(true)),
            },
        }
    }

    /// Where separator lines go: after the pins, and on the home board after
    /// the sessions.
    pub open spec fn band_ends(self) -> Seq<usize> {
        let total = self.item_count();
        let pins = self.pin_count();
        let first = if pins > 0 && pins < total {
            seq![pins as usize]
        } else {
            seq![]
        };
        let shown = self.session_slots().len();
        let second = if self.drilled is None && shown > 0 && pins + shown < total {
            seq![(pins + shown) as usize]
        } else {
            seq![]
        };
        first + second
    }

    /// Columns card `index` needs: title, marks, and the pin's session name.
    pub open spec fn item_width(self, index: int) -> int {
        let title = match self.item_title(index) {
            Some(t) => t,
            None => Seq::<char>::empty(),
        };
        let pin_session = match self.item_pin_session(index) {
            Some(name) => sat(2 + encode_utf8(name).len() as int),
            None => 0,
        };
        sat(
            line_width(title) + flag(self.item_is_active(index)) * 2 + flag(self.is_previous_item(index)) * 4 + flag(
                self.item_is_session(index),
            ) * session_mark_width() + flag(self.item_is_pinned(index)) * pin_mark_width() + pin_session + 2,
        )
    }

    pub open spec fn item_widths(self) -> Seq<usize> {
        Seq::new(self.item_count() as nat, |i: int| self.item_width(i) as usize)
    }

    /// The area cards are laid out in: the viewport less its footer.
    pub open spec fn content_area(self) -> Rect {
        let (rows, cols) = match self.viewport {
            Some(v) => v,
            None => (1usize, 1usize),
        };
        Rect::spec_new(0, 0, min_u16(cols as int), min_u16(content_rows_spec(rows as int)))
    }

    pub open spec fn layout_plan(self, area: Rect) -> PlanModel {
        calculate_spec(self.item_widths(), area, self.scroll_offset as int, self.band_ends())
    }

    pub open spec fn current_layout_plan(self) -> PlanModel {
        self.layout_plan(self.content_area())
    }
}


/// Whether no tab in `tabs` is shown under `title`.
pub open spec fn no_tab_titled(tabs: Seq<TabFact>, title: Seq<char>) -> bool {
    forall|i: int| 0 <= i < tabs.len() ==> display_name_spec((#[trigger] tabs[i]).name@) != title
}

/// Where the cursor lands in the scrolling column.
pub enum ScrollAlignment {
    Top,
    Center,
    Bottom,
}

/// A fresh empty tip for each card.
pub open spec fn no_labels(n: int) -> Seq<Option<Seq<char>>> {
    Seq::new(n as nat, |i: int| None::<Seq<char>>)
}

/// `labels` with the tip of match `k` put on its card, for the first `k` matches.
pub open spec fn assign_labels(labels: Seq<Option<Seq<char>>>, matches: Seq<int>, tips: Seq<Seq<char>>, k: int) -> Seq<
    Option<Seq<char>>,
>
    decreases k,
{
    if k <= 0 {
        labels
    } else {
        assign_labels(labels, matches, tips, k - 1).update(matches[k - 1], Some(tips[k - 1]))
    }
}

/// Positions of the cards that carry a tip.
pub open spec fn labeled(labels: Seq<Option<Seq<char>>>, n: int) -> Seq<int>
    decreases n,
{
    if n <= 0 {
        seq![]
    } else {
        labeled(labels, n - 1) + if labels[n - 1] is Some {
            seq![n - 1]
        } else {
            seq![]
        }
    }
}

/// Positions of the cards whose tip begins with `prefix`.
pub open spec fn labels_starting(labels: Seq<Option<Seq<char>>>, prefix: Seq<char>, n: int) -> Seq<int>
    decreases n,
{
    if n <= 0 {
        seq![]
    } else {
        labels_starting(labels, prefix, n - 1) + if labels[n - 1] matches Some(l) && prefix.is_prefix_of(l) {
            seq![n - 1]
        } else {
            seq![]
        }
    }
}

/// Every position `labels_starting` lists is a card of the first `n`.
pub proof fn lemma_labels_starting_bounds(labels: Seq<Option<Seq<char>>>, prefix: Seq<char>, n: int)
    requires
        0 <= n,
    ensures
        forall|k: int| 0 <= k < labels_starting(labels, prefix, n).len() ==> 0 <= #[trigger] labels_starting(labels, prefix, n)[k] < n,
    decreases n,
{
    if n > 0 {
        lemma_labels_starting_bounds(labels, prefix, n - 1);
        let a = labels_starting(labels, prefix, n - 1);
        assert forall|k: int| 0 <= k < labels_starting(labels, prefix, n).len() implies 0 <= #[trigger] labels_starting(labels, prefix, n)[k] < n by {
            if k < a.len() {
                assert(labels_starting(labels, prefix, n)[k] == a[k]);
            }
        }
    }
}

/// Every position `labeled` lists is a card of the first `n`.
pub proof fn lemma_labeled_bounds(labels: Seq<Option<Seq<char>>>, n: int)
    requires
        0 <= n,
    ensures
        forall|k: int| 0 <= k < labeled(labels, n).len() ==> 0 <= #[trigger] labeled(labels, n)[k] < n,
    decreases n,
{
    if n > 0 {
        lemma_labeled_bounds(labels, n - 1);
        let a = labeled(labels, n - 1);
        assert forall|k: int| 0 <= k < labeled(labels, n).len() implies 0 <= #[trigger] labeled(labels, n)[k] < n by {
            if k < a.len() {
                assert(labeled(labels, n)[k] == a[k]);
            }
        }
    }
}

impl BoardModel {
    /// A fresh board: nothing known yet, nothing selected.
    pub open spec fn initial() -> BoardModel {
        BoardModel {
            tabs: seq![],
            sessions: seq![],
            drilled: None,
            last_tabs: Map::empty(),
            pins: seq![],
            cursor: 0,
            previous_tab_id: None,
            previous_session: None,
            viewport: None,
            scroll_offset: 0,
            pending_g: false,
            pending_z: false,
            show_help: false,
            hint: None,
            stale: CachePrune::clean(),
        }
    }

    // ------------------------------------------------------------ pruning

    /// A pin whose tab is known to be gone. The current session's tabs are
    /// complete only once a tab update has come; another session's only when
    /// its snapshot lists as many tabs as it counts.
    pub open spec fn pin_is_dead(self, pin: PinModel) -> bool {
        if self.current_session_name() == Some(pin.session) {
            self.tabs.len() != 0 && no_tab_titled(self.tabs, pin.tab_name)
        } else {
            match self.session_index(pin.session) {
                None => self.sessions.len() != 0,
                Some(si) => {
                    let s = self.sessions[si];
                    !(s.tabs.len() == 0 || s.tabs.len() < s.tab_count) && no_tab_titled(s.tabs, pin.tab_name)
                },
            }
        }
    }

    /// The first `n` pins, without the dead ones.
    pub open spec fn live_pins(self, n: int) -> Seq<PinModel>
        decreases n,
    {
        if n <= 0 {
            seq![]
        } else {
            self.live_pins(n - 1) + if !self.pin_is_dead(self.pins[n - 1]) {
                seq![self.pins[n - 1]]
            } else {
                seq![]
            }
        }
    }

    /// A remembered last tab whose session or position is known to be gone.
    pub open spec fn session_last_is_dead(self, name: Seq<char>, position: usize) -> bool {
        if self.sessions.len() == 0 {
            false
        } else {
            match self.session_index(name) {
                None => true,
                Some(si) => {
                    let s = self.sessions[si];
                    if s.current && self.tabs.len() != 0 {
                        position >= self.tabs.len()
                    } else if s.tabs.len() != 0 {
                        position >= s.tabs.len()
                    } else {
                        s.tab_count > 0 && position >= s.tab_count
                    }
                },
            }
        }
    }

    /// The left session is gone or became the current one.
    pub open spec fn previous_is_stale(self) -> bool {
        match self.previous_session {
            Some(name) => self.sessions.len() != 0 && !(exists|i: int|
                0 <= i < self.sessions.len() && (#[trigger] self.sessions[i]).name == name && !self.sessions[i].current),
            None => false,
        }
    }

    /// The board without dead pins, a stale left session, or dead last
    /// tabs; `stale` records which of the three lost something.
    pub open spec fn pruned(self) -> BoardModel {
        let dropped_pin = exists|i: int| 0 <= i < self.pins.len() && self.pin_is_dead(#[trigger] self.pins[i]);
        let dropped_last = exists|k: Seq<char>| #[trigger] self.last_tabs.contains_key(k) && self.session_last_is_dead(k, self.last_tabs[k]);
        let stale_previous = self.previous_is_stale();
        BoardModel {
            pins: self.live_pins(self.pins.len() as int),
            previous_session: if stale_previous {
                None
            } else {
                self.previous_session
            },
            last_tabs: Map::new(
                |k: Seq<char>| self.last_tabs.contains_key(k) && !self.session_last_is_dead(k, self.last_tabs[k]),
                |k: Seq<char>| self.last_tabs[k],
            ),
            stale: CachePrune {
                pins: self.stale.pins || dropped_pin,
                previous: self.stale.previous || stale_previous,
                session_last: self.stale.session_last || dropped_last,
            },
            ..self
        }
    }

    // ------------------------------------------------------------ cursor

    /// The cursor on the active item, or on the first card.
    pub open spec fn reset_cursor(self) -> BoardModel {
        BoardModel {
            cursor: match self.active_index() {
                Some(i) => i as usize,
                None => 0,
            },
            ..self
        }
    }

    /// The cursor back on what it was on, or on the active item.
    pub open spec fn reseated(self, selected: Option<Identity>) -> BoardModel {
        match selected {
            Some(identity) => match self.index_of(identity) {
                Some(i) => BoardModel { cursor: i as usize, ..self },
                None => self.reset_cursor(),
            },
            None => self.reset_cursor(),
        }
    }

    /// The scroll offset moved just enough to show card `index`.
    pub open spec fn ensure_visible(self, index: int) -> BoardModel {
        let plan = self.current_layout_plan();
        if plan.mode != LayoutMode::Scroll || plan.visible_count == 0 {
            BoardModel { scroll_offset: 0, ..self }
        } else if index < plan.first_visible {
            BoardModel { scroll_offset: index as usize, ..self }
        } else if index >= plan.visible_end() {
            BoardModel { scroll_offset: (index + 1 - plan.visible_count) as usize, ..self }
        } else {
            self
        }
    }

    // ------------------------------------------------------------ tips

    pub open spec fn title_matches(self, index: int, query: Seq<char>) -> bool {
        self.item_title(index) matches Some(t) && title_match_range_spec(t, query) is Some
    }

    /// Cards among the first `n` whose title holds a nonempty `query`.
    pub open spec fn hint_matches(self, query: Seq<char>, n: int) -> Seq<int>
        decreases n,
    {
        if n <= 0 {
            seq![]
        } else {
            self.hint_matches(query, n - 1) + if query.len() > 0 && self.title_matches(n - 1, query) {
                seq![n - 1]
            } else {
                seq![]
            }
        }
    }

    pub open spec fn any_title_matches(self, query: Seq<char>) -> bool {
        exists|i: int| 0 <= i < self.item_count() && self.title_matches(i, query)
    }

    pub proof fn lemma_hint_matches_bounds(self, query: Seq<char>, n: int)
        requires
            0 <= n,
        ensures
            self.hint_matches(query, n).len() <= n,
            forall|k: int| 0 <= k < self.hint_matches(query, n).len() ==> 0 <= #[trigger] self.hint_matches(query, n)[k] < n,
        decreases n,
    {
        if n > 0 {
            self.lemma_hint_matches_bounds(query, n - 1);
            let a = self.hint_matches(query, n - 1);
            assert forall|k: int| 0 <= k < self.hint_matches(query, n).len() implies 0 <= #[trigger] self.hint_matches(query, n)[k] < n by {
                if k < a.len() {
                    assert(self.hint_matches(query, n)[k] == a[k]);
                }
            }
        }
    }

    /// Letters among the first `n` of the alphabet that, typed after the
    /// query, would match no title, so a tip made of them cannot be mistaken
    /// for more query.
    pub open spec fn free_letters(self, query: Seq<char>, n: int) -> Seq<char>
        decreases n,
    {
        if n <= 0 {
            seq![]
        } else {
            self.free_letters(query, n - 1) + if !self.any_title_matches(query.push(hint_alphabet()[n - 1])) {
                seq![hint_alphabet()[n - 1]]
            } else {
                seq![]
            }
        }
    }

    /// The letters tips are made of: the free ones, or the whole alphabet
    /// when none is free.
    pub open spec fn tip_letters(self, query: Seq<char>) -> Seq<char> {
        let free = self.free_letters(query, hint_alphabet().len() as int);
        if free.len() == 0 {
            hint_alphabet()
        } else {
            free
        }
    }

    /// Sizing the tips ends: two letters to make them of, or at most one match.
    pub open spec fn labels_computable(self) -> bool {
        match self.hint {
            None => true,
            Some(h) => self.tip_letters(h.query).len() >= 2 || self.hint_matches(h.query, self.item_count()).len() <= 1,
        }
    }

    /// Every match of the query gets a tip, in board order.
    pub open spec fn relabeled(self) -> BoardModel {
        match self.hint {
            None => self,
            Some(h) => {
                let n = self.item_count();
                let matches = self.hint_matches(h.query, n);
                let tip_list = tips(matches.len() as int, self.tip_letters(h.query));
                BoardModel {
                    hint: Some(
                        HintModel { labels: assign_labels(no_labels(n), matches, tip_list, matches.len() as int), ..h },
                    ),
                    ..self
                }
            },
        }
    }

    // ------------------------------------------------------------ host updates

    /// After the lists change: drop what died, put the cursor back on what
    /// it was on, and retip.
    pub open spec fn settled(self, selected: Option<Identity>) -> BoardModel {
        self.pruned().reseated(selected).relabeled()
    }

    pub open spec fn settle_ready(self, selected: Option<Identity>) -> bool {
        self.pruned().reseated(selected).labels_computable()
    }

    pub open spec fn with_tabs(self, tabs: Seq<TabFact>) -> BoardModel {
        BoardModel { tabs: sort_tabs_spec(tabs), ..self }
    }

    pub open spec fn apply_tabs(self, tabs: Seq<TabFact>) -> BoardModel {
        self.with_tabs(tabs).settled(self.selected_identity())
    }

    /// The new session list, sorted; a drilled-into session that is gone
    /// sends the board home.
    pub open spec fn with_sessions(self, sessions: Seq<SessionModel>) -> BoardModel {
        let sorted = sort_sessions_spec(sessions);
        BoardModel {
            sessions: sorted,
            drilled: match self.drilled {
                Some(name) => if exists|i: int| 0 <= i < sorted.len() && (#[trigger] sorted[i]).name == name {
                    Some(name)
                } else {
                    None
                },
                None => None,
            },
            ..self
        }
    }

    pub open spec fn apply_sessions(self, sessions: Seq<SessionModel>) -> BoardModel {
        self.with_sessions(sessions).settled(self.selected_identity())
    }

    /// The sessions once `session` is the current one: its entry replaced
    /// (keeping the known tabs when it reports none) or added.
    pub open spec fn touched_sessions(self, session: SessionModel) -> Seq<SessionModel> {
        let cleared = Seq::new(self.sessions.len(), |i: int| SessionModel { current: false, ..self.sessions[i] });
        let updated = match first_where(cleared, session_named(session.name)) {
            Some(i) => cleared.update(
                i,
                SessionModel {
                    current: true,
                    tabs: if session.tabs.len() == 0 {
                        cleared[i].tabs
                    } else {
                        session.tabs
                    },
                    ..session
                },
            ),
            None => cleared.push(SessionModel { current: true, ..session }),
        };
        sort_sessions_spec(updated)
    }

    pub open spec fn with_current_session(self, session: SessionModel) -> BoardModel {
        BoardModel { sessions: self.touched_sessions(session), ..self }
    }

    pub open spec fn touch_current_session(self, session: SessionModel) -> BoardModel {
        self.with_current_session(session).settled(self.selected_identity())
    }

    pub open spec fn with_pins(self, pins: Seq<PinModel>) -> BoardModel {
        BoardModel { pins, ..self }
    }

    pub open spec fn apply_pins(self, pins: Seq<PinModel>) -> BoardModel {
        self.with_pins(pins).settled(self.selected_identity())
    }

    // ------------------------------------------------------------ jumps

    /// Going to tab `position` of session `name`: in the current session a
    /// tab commit (or the host's previous tab when no position is known),
    /// else a session switch.
    pub open spec fn jump_session_tab(self, name: Seq<char>, position: Option<usize>) -> ActionModel {
        if exists|i: int| 0 <= i < self.sessions.len() && (#[trigger] self.sessions[i]).name == name && self.sessions[i].current {
            match position {
                Some(p) => ActionModel::Commit { tab_index: p as u32 },
                None => ActionModel::PreviousTab,
            }
        } else {
            ActionModel::SwitchSession { name, tab_position: position }
        }
    }

    /// The board of one session's tabs, cursor on its remembered or active tab.
    pub open spec fn enter_session_board(self, name: Seq<char>) -> BoardModel {
        if !(exists|i: int| 0 <= i < self.sessions.len() && (#[trigger] self.sessions[i]).name == name) {
            self
        } else {
            let m = BoardModel {
                drilled: Some(name),
                hint: None,
                pending_g: false,
                pending_z: false,
                scroll_offset: 0,
                ..self
            }.reset_cursor();
            m.ensure_visible(m.cursor as int)
        }
    }

    pub open spec fn leave_session_board(self) -> BoardModel {
        let m = BoardModel { drilled: None, hint: None, pending_g: false, pending_z: false, scroll_offset: 0, ..self }.reset_cursor();
        m.ensure_visible(m.cursor as int)
    }

    /// Opening card `index`: a session opens its board, a tab is jumped to,
    /// no card closes the board.
    pub open spec fn commit_index(self, index: int) -> (BoardModel, ActionModel) {
        match self.session_at(index) {
            Some(s) => (self.enter_session_board(s.name), ActionModel::Noop),
            None => match self.tab_at(index) {
                None => (self, ActionModel::Dismiss),
                Some(t) => match self.item_session_name(index) {
                    Some(session) => (self, self.jump_session_tab(session, Some(t.position))),
                    None => (self, ActionModel::Commit { tab_index: t.position as u32 }),
                },
            },
        }
    }

    /// `-`: on a session's board its last tab; on the home board, the left
    /// session (directly to its last tab when that tab is pinned), else the
    /// host's previous tab.
    pub open spec fn commit_previous(self) -> (BoardModel, ActionModel) {
        match self.drilled {
            Some(name) => (
                self,
                self.jump_session_tab(
                    name,
                    if self.last_tabs.contains_key(name) {
                        Some(self.last_tabs[name])
                    } else {
                        None
                    },
                ),
            ),
            None => match self.other_previous_session() {
                Some(name) => if self.last_tabs.contains_key(name) && self.previous_session_pin_index(name) is Some {
                    (self, self.jump_session_tab(name, Some(self.last_tabs[name])))
                } else {
                    (self.enter_session_board(name), ActionModel::Noop)
                },
                None => (self, ActionModel::PreviousTab),
            },
        }
    }

    /// The board once the tab under the cursor is pinned, or unpinned, with
    /// the cursor kept on it; `None` when the cursor is not on a tab.
    pub open spec fn pin_toggled(self) -> Option<BoardModel> {
        let c = self.cursor as int;
        match (self.item_session_name(c), self.session_at(c), self.tab_at(c)) {
            (Some(session), None, Some(t)) => {
                let name = display_name_spec(t.name@);
                let pins = match first_where(self.pins, pin_of(session, name)) {
                    Some(i) => self.pins.remove(i),
                    None => self.pins.push(PinModel { session, tab_name: name }),
                };
                Some(BoardModel { pins, ..self }.reseated(Some(Identity::Pinned { session, name })))
            },
            _ => None,
        }
    }

    /// `p` on a tab pins it, or unpins it; the cursor stays on it.
    pub open spec fn toggle_pin(self) -> (BoardModel, bool) {
        match self.pin_toggled() {
            Some(m) => (m.relabeled(), true),
            None => (self, false),
        }
    }

    pub open spec fn toggle_pin_ready(self) -> bool {
        match self.pin_toggled() {
            Some(m) => m.labels_computable(),
            None => true,
        }
    }

    // ------------------------------------------------------------ keys

    pub open spec fn last_index(self) -> int {
        if self.item_count() > 0 {
            self.item_count() - 1
        } else {
            0
        }
    }

    /// The cursor moved by `delta`, held within the board.
    pub open spec fn move_cursor_by(self, delta: int) -> BoardModel {
        let target = self.cursor + delta;
        BoardModel {
            cursor: (if target < 0 {
                0
            } else if target > self.last_index() {
                self.last_index()
            } else {
                target
            }) as usize,
            ..self
        }
    }

    /// `zt`, `zz`, `zb`: in the scrolling column, the cursor's card moved to
    /// the top, middle or bottom of the view.
    pub open spec fn align_cursor(self, alignment: ScrollAlignment) -> BoardModel {
        if self.current_layout_plan().mode != LayoutMode::Scroll {
            self
        } else {
            let rows = match self.viewport {
                Some((r, _)) => content_rows_spec(r as int),
                None => 1,
            };
            let capacity = if rows < 1 {
                1
            } else {
                rows
            };
            let c = self.cursor as int;
            let offset = match alignment {
                ScrollAlignment::Top => c,
                ScrollAlignment::Center => if c > capacity / 2 {
                    c - capacity / 2
                } else {
                    0
                },
                ScrollAlignment::Bottom => if sat(c + 1) > capacity {
                    sat(c + 1) - capacity
                } else {
                    0
                },
            };
            BoardModel { scroll_offset: offset as usize, ..self }
        }
    }

    /// A character typed in Flash mode: first as a tip (committing when it
    /// completes one), else as more query (committing a sole match).
    pub open spec fn apply_hint_input(self, typed: char) -> (BoardModel, ActionModel) {
        let ch = ascii_lower(typed);
        match self.hint {
            None => (self, ActionModel::Noop),
            Some(h) => {
                let prefix = h.jump_prefix.push(ch);
                let tip_hits = labels_starting(h.labels, prefix, h.labels.len() as int);
                if h.query.len() > 0 && tip_hits.len() == 1 && h.labels[tip_hits[0]] == Some(prefix) {
                    self.commit_index(tip_hits[0])
                } else if h.query.len() > 0 && tip_hits.len() > 0 {
                    (BoardModel { hint: Some(HintModel { jump_prefix: prefix, ..h }), ..self }, ActionModel::Noop)
                } else {
                    let query = h.query.push(ch);
                    if !self.any_title_matches(query) {
                        (self, ActionModel::Noop)
                    } else {
                        let m = BoardModel {
                            hint: Some(HintModel { query, jump_prefix: seq![], ..h }),
                            ..self
                        }.relabeled();
                        let labels = m.hint->0.labels;
                        let hits = labeled(labels, labels.len() as int);
                        if hits.len() == 1 {
                            m.commit_index(hits[0])
                        } else if hits.len() > 0 {
                            (m.ensure_visible(hits[0]), ActionModel::Noop)
                        } else {
                            (m, ActionModel::Noop)
                        }
                    }
                }
            },
        }
    }

    /// Retipping after a typed character extends the query.
    pub open spec fn hint_input_ready(self, typed: char) -> bool {
        let ch = ascii_lower(typed);
        match self.hint {
            None => true,
            Some(h) => {
                let query = h.query.push(ch);
                BoardModel { hint: Some(HintModel { query, jump_prefix: seq![], ..h }), ..self }.labels_computable()
            },
        }
    }

    /// Backspace in Flash mode: the last tip letter, or else the last query
    /// character, is deleted; the first tipped card is brought into view.
    pub open spec fn hint_backspace(self) -> BoardModel {
        match self.hint {
            None => self,
            Some(h) => {
                let h1 = if h.jump_prefix.len() == 0 {
                    HintModel { query: if h.query.len() > 0 { h.query.drop_last() } else { h.query }, ..h }
                } else {
                    HintModel { jump_prefix: h.jump_prefix.drop_last(), ..h }
                };
                let m = BoardModel { hint: Some(h1), ..self }.relabeled();
                let labels = m.hint->0.labels;
                let hits = labeled(labels, labels.len() as int);
                m.ensure_visible(if hits.len() > 0 { hits[0] } else { m.cursor as int })
            },
        }
    }

    pub open spec fn hint_backspace_ready(self) -> bool {
        match self.hint {
            None => true,
            Some(h) => {
                let h1 = if h.jump_prefix.len() == 0 {
                    HintModel { query: if h.query.len() > 0 { h.query.drop_last() } else { h.query }, ..h }
                } else {
                    HintModel { jump_prefix: h.jump_prefix.drop_last(), ..h }
                };
                BoardModel { hint: Some(h1), ..self }.labels_computable()
            },
        }
    }

    /// The keys after which the view follows the cursor.
    pub open spec fn follows_cursor(key: Key) -> bool {
        match key {
            Key::Left | Key::Right | Key::Up | Key::Down | Key::HalfPageDown | Key::HalfPageUp | Key::PageDown | Key::PageUp
            | Key::GoPrefix | Key::Last | Key::ZPrefix | Key::AlignTop | Key::AlignBottom | Key::Dismiss => true,
            _ => false,
        }
    }

    /// What a key does, before the view follows the cursor.
    pub open spec fn key_step(self, key: Key, plan: PlanModel, completes_gg: bool, z_was_pending: bool) -> (BoardModel, ActionModel) {
        let c = self.cursor as int;
        let half = if plan.visible_count / 2 > 1 { plan.visible_count / 2 } else { 1 };
        let page = if plan.visible_count > 1 { plan.visible_count as int } else { 1 };
        match key {
            Key::Left => (BoardModel { cursor: plan.horizontal_neighbor(c, -1) as usize, ..self }, ActionModel::Noop),
            Key::Right => (BoardModel { cursor: plan.horizontal_neighbor(c, 1) as usize, ..self }, ActionModel::Noop),
            Key::Up => (BoardModel { cursor: plan.vertical_neighbor(c, -1) as usize, ..self }, ActionModel::Noop),
            Key::Down => (BoardModel { cursor: plan.vertical_neighbor(c, 1) as usize, ..self }, ActionModel::Noop),
            Key::HalfPageDown => (self.move_cursor_by(half as int), ActionModel::Noop),
            Key::HalfPageUp => (self.move_cursor_by(-(half as int)), ActionModel::Noop),
            Key::PageDown => (self.move_cursor_by(page), ActionModel::Noop),
            Key::PageUp => (self.move_cursor_by(-page), ActionModel::Noop),
            Key::GoPrefix => if completes_gg {
                (BoardModel { pending_g: false, cursor: 0, ..self }, ActionModel::Noop)
            } else {
                (BoardModel { pending_g: true, ..self }, ActionModel::Noop)
            },
            Key::Last => (BoardModel { cursor: self.last_index() as usize, ..self }, ActionModel::Noop),
            Key::ZPrefix => if z_was_pending {
                (BoardModel { pending_z: false, ..self }.align_cursor(ScrollAlignment::Center), ActionModel::Noop)
            } else {
                (BoardModel { pending_z: true, ..self }, ActionModel::Noop)
            },
            Key::AlignTop => if z_was_pending {
                (BoardModel { pending_z: false, ..self }.align_cursor(ScrollAlignment::Top), ActionModel::Noop)
            } else {
                (self, ActionModel::Noop)
            },
            Key::AlignBottom => if z_was_pending {
                (BoardModel { pending_z: false, ..self }.align_cursor(ScrollAlignment::Bottom), ActionModel::Noop)
            } else {
                (self, ActionModel::Noop)
            },
            Key::ToggleHelp => (BoardModel { show_help: true, ..self }, ActionModel::Noop),
            Key::Confirm => self.commit_index(c),
            Key::PreviousTab => self.commit_previous(),
            Key::Pin => {
                let (m, changed) = self.toggle_pin();
                (m, if changed { ActionModel::PersistPins } else { ActionModel::Noop })
            },
            Key::Dismiss => if self.hint is Some {
                (BoardModel { hint: None, ..self }.reset_cursor(), ActionModel::Noop)
            } else if self.drilled is Some {
                (self.leave_session_board(), ActionModel::Noop)
            } else {
                (self, ActionModel::Dismiss)
            },
            Key::Toggle => (self, ActionModel::Dismiss),
            Key::StartHint => (
                BoardModel {
                    hint: Some(HintModel { labels: no_labels(self.item_count()), query: seq![], jump_prefix: seq![] }),
                    ..self
                },
                ActionModel::Noop,
            ),
            Key::Input(ch) => if self.hint is Some {
                self.apply_hint_input(ch)
            } else {
                (self, ActionModel::Noop)
            },
            Key::Backspace => if self.hint is Some {
                (self.hint_backspace(), ActionModel::Noop)
            } else {
                (self, ActionModel::Noop)
            },
        }
    }

    /// The pending `g` and `z` prefixes, each kept only by a key that can complete it.
    pub open spec fn clear_prefixes(self, key: Key) -> BoardModel {
        BoardModel {
            pending_g: if key != Key::GoPrefix {
                false
            } else {
                self.pending_g
            },
            pending_z: if !(key is ZPrefix || key is AlignTop || key is AlignBottom) {
                false
            } else {
                self.pending_z
            },
            ..self
        }
    }

    /// A key on the board: the new board and what the host should do. With
    /// help open only `?` and `Esc` do anything: they close it.
    pub open spec fn decide(self, key: Key) -> (BoardModel, ActionModel) {
        if self.show_help {
            if key == Key::ToggleHelp || key == Key::Dismiss {
                (BoardModel { show_help: false, ..self }, ActionModel::Noop)
            } else {
                (self, ActionModel::Noop)
            }
        } else {
            let plan = self.current_layout_plan();
            let completes_gg = key == Key::GoPrefix && self.pending_g;
            let z_was_pending = self.pending_z;
            let (m, action) = self.clear_prefixes(key).key_step(key, plan, completes_gg, z_was_pending);
            if BoardModel::follows_cursor(key) {
                (m.ensure_visible(m.cursor as int), action)
            } else {
                (m, action)
            }
        }
    }

    /// Retipping, where a key retips, ends.
    pub open spec fn decide_ready(self, key: Key) -> bool {
        !self.show_help ==> {
            let m = self.clear_prefixes(key);
            match key {
                Key::Pin => m.toggle_pin_ready(),
                Key::Input(ch) => m.hint is Some ==> m.hint_input_ready(ch),
                Key::Backspace => m.hint is Some ==> m.hint_backspace_ready(),
                _ => true,
            }
        }
    }
}

/// Whether a pin is session `session`'s tab `name`.
pub open spec fn pin_of(session: Seq<char>, name: Seq<char>) -> spec_fn(PinModel) -> bool {
    |p: PinModel| p.session == session && p.tab_name == name
}

} // verus!
