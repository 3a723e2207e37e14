//! The board's state and the queries the renderer and host ask of it.

use vstd::prelude::*;
use crate::board::{is_current_session, not_pin, session_named, tab_titled_as, BoardModel, HintModel, Identity, Slot};
use crate::facts::display_name_spec;
use crate::facts::{display_name, pins_view, sessions_view, CachePrune, Pin, SessionFact, TabFact};
use crate::last_tabs::SessionLastTabs;
use crate::search::{first_index, first_where, lemma_first_index, lemma_first_where, lemma_first_where_found};
use crate::text::str_eq;
use crate::grid::{LayoutMode, LayoutPlan, Rect};
use crate::width::title_width;
use crate::hints::{hint_alphabet, hint_alphabet_exec, labels_for, range_view, tips, title_match_range, title_match_range_spec};
use crate::text::{chars_of, string_from};
use crate::board::{assign_labels, labeled, labels_starting, lemma_labeled_bounds, lemma_labels_starting_bounds, no_labels, pin_of, tab_is_active, ScrollAlignment};
use crate::facts::Key;
use crate::text::{ascii_lower, to_ascii_lower};
use crate::facts::{Action, PinModel};
use crate::sorting::{sort_sessions, sort_sessions_spec, sort_tabs};
use crate::facts::{copy_pins, copy_tabs, SessionModel};
use vstd::utf8::encode_utf8;

verus! {

#[derive(Debug)]
struct HintState {
    labels: Vec<Option<String>>,
    query: String,
    jump_prefix: String,
}

/// Which card the cursor is on, by what it shows.
#[derive(Debug)]
enum BoardIdentity {
    Session(String),
    Tab(usize),
    Pinned { session: String, name: String },
}

impl BoardIdentity {
    spec fn model(&self) -> Identity {
        match self {
            BoardIdentity::Session(name) => Identity::Session(name@),
            BoardIdentity::Tab(id) => Identity::Tab(*id),
            BoardIdentity::Pinned { session, name } => Identity::Pinned { session: session@, name: name@ },
        }
    }
}

#[derive(Debug)]
pub struct Overview {
    tabs: Vec<TabFact>,
    sessions: Vec<SessionFact>,
    /// `None` is the home board (sessions + current tabs).
    drilled_session: Option<String>,
    session_last_tabs: SessionLastTabs,
    pins: Vec<Pin>,
    /// Combined board: pins, then sessions, then unpinned current tabs.
    cursor: usize,
    previous_tab_id: Option<usize>,
    previous_session_name: Option<String>,
    viewport: Option<(usize, usize)>,
    scroll_offset: usize,
    pending_g: bool,
    pending_z: bool,
    show_help: bool,
    hint: Option<HintState>,
    stale_cache: CachePrune,
}

pub open spec fn opt_text(o: Option<&str>) -> Option<Seq<char>> {
    match o {
        Some(s) => Some(s@),
        None => None,
    }
}

pub open spec fn opt_string(o: Option<String>) -> Option<Seq<char>> {
    match o {
        Some(s) => Some(s@),
        None => None,
    }
}

pub open spec fn label_view(labels: Seq<Option<String>>) -> Seq<Option<Seq<char>>> {
    labels.map_values(|l: Option<String>| opt_string(l))
}

impl View for Overview {
    type V = BoardModel;

    closed spec fn view(&self) -> BoardModel {
        BoardModel {
            tabs: self.tabs@,
            sessions: sessions_view(self.sessions@),
            drilled: opt_string(self.drilled_session),
            last_tabs: self.session_last_tabs.view(),
            pins: pins_view(self.pins@),
            cursor: self.cursor,
            previous_tab_id: self.previous_tab_id,
            previous_session: opt_string(self.previous_session_name),
            viewport: self.viewport,
            scroll_offset: self.scroll_offset,
            pending_g: self.pending_g,
            pending_z: self.pending_z,
            show_help: self.show_help,
            hint: match self.hint {
                Some(h) => Some(HintModel { labels: label_view(h.labels@), query: h.query@, jump_prefix: h.jump_prefix@ }),
                None => None,
            },
            stale: self.stale_cache,
        }
    }
}

impl Overview {
    pub fn current_session_name(&self) -> (name: Option<&str>)
        ensures
            opt_text(name) == self@.current_session_name(),
    {
        let mut i: usize = 0;
        while i < self.sessions.len()
            invariant
                i <= self.sessions@.len(),
                forall|j: int| 0 <= j < i ==> !(#[trigger] self.sessions@[j]).current,
            decreases self.sessions@.len() - i,
        {
            if self.sessions[i].current {
                proof {
                    lemma_first_where(self@.sessions, is_current_session(), i as int);
                }
                return Some(self.sessions[i].name.as_str());
            }
            i += 1;
        }
        proof {
            lemma_first_where(self@.sessions, is_current_session(), i as int);
        }
        None
    }

    fn session_index(&self, name: &str) -> (index: Option<usize>)
        ensures
            match index {
                Some(i) => self@.session_index(name@) == Some(i as int) && i < self.sessions@.len(),
                None => self@.session_index(name@) is None,
            },
    {
        let mut i: usize = 0;
        while i < self.sessions.len()
            invariant
                i <= self.sessions@.len(),
                forall|j: int| 0 <= j < i ==> (#[trigger] self.sessions@[j]).name@ != name@,
            decreases self.sessions@.len() - i,
        {
            if str_eq(self.sessions[i].name.as_str(), name) {
                proof {
                    lemma_first_where(self@.sessions, session_named(name@), i as int);
                }
                return Some(i);
            }
            i += 1;
        }
        proof {
            lemma_first_where(self@.sessions, session_named(name@), i as int);
        }
        None
    }

    fn tab_titled<'a>(tabs: &'a Vec<TabFact>, title: &str) -> (tab: Option<&'a TabFact>)
        ensures
            match tab {
                Some(t) => BoardModel::tab_titled(tabs@, title@) == Some(*t),
                None => BoardModel::tab_titled(tabs@, title@) is None,
            },
    {
        let mut i: usize = 0;
        while i < tabs.len()
            invariant
                i <= tabs@.len(),
                forall|j: int| 0 <= j < i ==> crate::facts::display_name_spec((#[trigger] tabs@[j]).name@) != title@,
            decreases tabs@.len() - i,
        {
            if str_eq(display_name(&tabs[i]), title) {
                proof {
                    lemma_first_where(tabs@, tab_titled_as(title@), i as int);
                }
                return Some(&tabs[i]);
            }
            i += 1;
        }
        proof {
            lemma_first_where(tabs@, tab_titled_as(title@), i as int);
        }
        None
    }

    fn resolve_pin(&self, pin: &Pin) -> (tab: Option<&TabFact>)
        ensures
            match tab {
                Some(t) => self@.resolve_pin(pin@) == Some(*t),
                None => self@.resolve_pin(pin@) is None,
            },
    {
        let current = self.current_session_name();
        let is_current = match current {
            Some(name) => str_eq(name, pin.session.as_str()),
            None => false,
        };
        if is_current {
            return Overview::tab_titled(&self.tabs, pin.tab_name.as_str());
        }
        match self.session_index(pin.session.as_str()) {
            None => None,
            Some(si) => Overview::tab_titled(&self.sessions[si].tabs, pin.tab_name.as_str()),
        }
    }

    fn is_pinned_name(&self, session: &str, tab_name: &str) -> (pinned: bool)
        ensures
            pinned == self@.is_pinned_name(session@, tab_name@),
    {
        let mut i: usize = 0;
        while i < self.pins.len()
            invariant
                i <= self.pins@.len(),
                forall|j: int| 0 <= j < i ==> !((#[trigger] self.pins@[j]).session@ == session@ && self.pins@[j].tab_name@ == tab_name@),
            decreases self.pins@.len() - i,
        {
            if str_eq(self.pins[i].session.as_str(), session) && str_eq(self.pins[i].tab_name.as_str(), tab_name) {
                assert(self@.pins[i as int].session == session@);
                return true;
            }
            i += 1;
        }
        false
    }

    fn drilled_session_is_current(&self) -> (same: bool)
        ensures
            same == self@.drilled_session_is_current(),
    {
        let current = self.current_session_name();
        match (&self.drilled_session, current) {
            (Some(drilled), Some(name)) => str_eq(drilled.as_str(), name),
            (None, None) => true,
            _ => false,
        }
    }

    fn push_pin_slots(&self, only: Option<&str>, slots: &mut Vec<Slot>)
        ensures
            final(slots)@ == old(slots)@ + self@.pin_slots(opt_text(only), self.pins@.len() as int),
    {
        let ghost start = slots@;
        let mut i: usize = 0;
        while i < self.pins.len()
            invariant
                i <= self.pins@.len(),
                slots@ == start + self@.pin_slots(opt_text(only), i as int),
            decreases self.pins@.len() - i,
        {
            let belongs = match only {
                Some(name) => str_eq(self.pins[i].session.as_str(), name),
                None => true,
            };
            let ghost before = slots@;
            if belongs && self.resolve_pin(&self.pins[i]).is_some() {
                slots.push(Slot::Pin(i));
            }
            assert(slots@ =~= start + self@.pin_slots(opt_text(only), i + 1));
            i += 1;
        }
    }

    fn push_live_slots(&self, session: &str, slots: &mut Vec<Slot>)
        ensures
            final(slots)@ == old(slots)@ + self@.live_slots(session@, self.tabs@.len() as int),
    {
        let ghost start = slots@;
        let mut i: usize = 0;
        while i < self.tabs.len()
            invariant
                i <= self.tabs@.len(),
                slots@ == start + self@.live_slots(session@, i as int),
            decreases self.tabs@.len() - i,
        {
            if !self.is_pinned_name(session, display_name(&self.tabs[i])) {
                slots.push(Slot::LiveTab(i));
            }
            assert(slots@ =~= start + self@.live_slots(session@, i + 1));
            i += 1;
        }
    }

    fn push_snap_slots(&self, si: usize, session: &str, slots: &mut Vec<Slot>)
        requires
            si < self.sessions@.len(),
        ensures
            final(slots)@ == old(slots)@ + self@.snap_slots(si as int, session@, self.sessions@[si as int].tabs@.len() as int),
    {
        let ghost start = slots@;
        let tabs = &self.sessions[si].tabs;
        let mut i: usize = 0;
        while i < tabs.len()
            invariant
                i <= tabs@.len(),
                tabs@ == self@.sessions[si as int].tabs,
                slots@ == start + self@.snap_slots(si as int, session@, i as int),
            decreases tabs@.len() - i,
        {
            if !self.is_pinned_name(session, display_name(&tabs[i])) {
                slots.push(Slot::SnapTab { session: si, tab: i });
            }
            assert(slots@ =~= start + self@.snap_slots(si as int, session@, i + 1));
            i += 1;
        }
    }

    /// The left session, when its card gives way to the pin of its last tab.
    fn folded_session_in(&self, pin_slots: &Vec<Slot>) -> (name: Option<&str>)
        requires
            pin_slots@ == self@.pin_slots(None, self@.pins.len() as int),
        ensures
            opt_text(name) == self@.folded_session(),
    {
        let name = match self.other_previous_session() {
            Some(n) => n,
            None => {
                return None;
            },
        };
        let position = match self.session_last_tabs.get(name) {
            Some(p) => *p,
            None => {
                assert forall|i: int| 0 <= i < pin_slots@.len() implies !#[trigger] self@.is_last_tab_pin(name@, pin_slots@[i]) by {
                }
                return None;
            },
        };
        let mut i: usize = 0;
        while i < pin_slots.len()
            invariant
                i <= pin_slots@.len(),
                self@.pins.len() == self.pins@.len(),
                self@.last_tabs.contains_key(name@),
                self@.last_tabs[name@] == position,
                self@.other_previous_session() == Some(name@),
                pin_slots@ == self@.pin_slots(None, self@.pins.len() as int),
                forall|j: int| 0 <= j < i ==> !#[trigger] self@.is_last_tab_pin(name@, pin_slots@[j]),
            decreases pin_slots@.len() - i,
        {
            let hit = match pin_slots[i] {
                Slot::Pin(p) => {
                    if p < self.pins.len() && str_eq(self.pins[p].session.as_str(), name) {
                        assert(self@.pins[p as int] == self.pins@[p as int]@);
                        match self.resolve_pin(&self.pins[p]) {
                            Some(tab) => tab.position == position,
                            None => false,
                        }
                    } else {
                        false
                    }
                },
                _ => false,
            };
            if hit {
                assert(self@.is_last_tab_pin(name@, pin_slots@[i as int]));
                return Some(name);
            }
            i += 1;
        }
        None
    }

    /// How many session cards the home board shows.
    fn session_card_count(&self) -> (n: usize)
        ensures
            n == self@.session_slots().len(),
    {
        let mut pins: Vec<Slot> = Vec::new();
        self.push_pin_slots(None, &mut pins);
        assert(pins@ =~= self@.pin_slots(None, self@.pins.len() as int));
        let folded = self.folded_session_in(&pins);
        let mut n: usize = 0;
        let mut i: usize = 0;
        while i < self.sessions.len()
            invariant
                i <= self.sessions@.len(),
                n <= i,
                self@.sessions.len() == self.sessions@.len(),
                opt_text(folded) == self@.folded_session(),
                n == self@.session_slots_upto(i as int).len(),
            decreases self.sessions@.len() - i,
        {
            let skip = match folded {
                Some(f) => str_eq(self.sessions[i].name.as_str(), f),
                None => false,
            };
            assert(self@.sessions[i as int] == self.sessions@[i as int]@);
            if !skip {
                n += 1;
            }
            i += 1;
        }
        n
    }

    /// The cards of the board, in order.
    fn slots(&self) -> (slots: Vec<Slot>)
        ensures
            slots@ == self@.slots(),
    {
        let mut slots: Vec<Slot> = Vec::new();
        match &self.drilled_session {
            Some(name) => {
                self.push_pin_slots(Some(name.as_str()), &mut slots);
                if self.drilled_session_is_current() {
                    self.push_live_slots(name.as_str(), &mut slots);
                } else {
                    match self.session_index(name.as_str()) {
                        None => {},
                        Some(si) => {
                            self.push_snap_slots(si, name.as_str(), &mut slots);
                        },
                    }
                }
                assert(slots@ =~= self@.slots());
            },
            None => {
                self.push_pin_slots(None, &mut slots);
                let folded = self.folded_session_in(&slots);
                let ghost before = slots@;
                let mut i: usize = 0;
                while i < self.sessions.len()
                    invariant
                        i <= self.sessions@.len(),
                        self@.sessions.len() == self.sessions@.len(),
                        opt_text(folded) == self@.folded_session(),
                        slots@ =~= before + self@.session_slots_upto(i as int),
                    decreases self.sessions@.len() - i,
                {
                    let skip = match folded {
                        Some(f) => str_eq(self.sessions[i].name.as_str(), f),
                        None => false,
                    };
                    assert(self@.sessions[i as int] == self.sessions@[i as int]@);
                    if !skip {
                        slots.push(Slot::Session(i));
                    }
                    i += 1;
                }
                let current = match self.current_session_name() {
                    Some(name) => name,
                    None => {
                        proof {
                            reveal_strlit("");
                        }
                        assert(""@ =~= Seq::<char>::empty());
                        ""
                    },
                };
                self.push_live_slots(current, &mut slots);
                assert(slots@ =~= self@.slots());
            },
        }
        slots
    }

    fn session_at_in(&self, slots: &Vec<Slot>, index: usize) -> (session: Option<&SessionFact>)
        requires
            slots@ == self@.slots(),
        ensures
            match session {
                Some(s) => self@.session_at(index as int) == Some(s@),
                None => self@.session_at(index as int) is None,
            },
    {
        if index >= slots.len() {
            return None;
        }
        match slots[index] {
            Slot::Session(s) => if s < self.sessions.len() {
                Some(&self.sessions[s])
            } else {
                None
            },
            _ => None,
        }
    }

    fn tab_at_in(&self, slots: &Vec<Slot>, index: usize) -> (tab: Option<&TabFact>)
        requires
            slots@ == self@.slots(),
        ensures
            match tab {
                Some(t) => self@.tab_at(index as int) == Some(*t),
                None => self@.tab_at(index as int) is None,
            },
    {
        if index >= slots.len() {
            return None;
        }
        let _ = self.slot_valid_at(slots, index);
        match slots[index] {
            Slot::Pin(p) => self.resolve_pin(&self.pins[p]),
            Slot::LiveTab(t) => if t < self.tabs.len() {
                Some(&self.tabs[t])
            } else {
                None
            },
            Slot::SnapTab { session, tab } => if session < self.sessions.len() && tab < self.sessions[session].tabs.len() {
                Some(&self.sessions[session].tabs[tab])
            } else {
                None
            },
            Slot::Session(_) => None,
        }
    }

    /// Every slot points into its list.
    fn slot_valid_at(&self, slots: &Vec<Slot>, index: usize) -> (ok: bool)
        requires
            slots@ == self@.slots(),
            index < slots@.len(),
        ensures
            ok,
            self@.slot_valid(slots@[index as int]),
    {
        self.bounded();
        proof {
            self@.lemma_slots_valid();
        }
        true
    }

    /// The lists the board holds fit in memory.
    fn bounded(&self)
        ensures
            self@.bounded(),
    {
        assert(self.sessions.len() == self.sessions@.len());
        assert(self.tabs.len() == self.tabs@.len());
        assert(self.pins.len() == self.pins@.len());
        assert forall|i: int| 0 <= i < self@.sessions.len() implies (#[trigger] self@.sessions[i]).tabs.len() <= usize::MAX by {
            assert(self@.sessions[i].tabs == self.sessions@[i].tabs@);
            assert(self.sessions@[i].tabs.len() == self.sessions@[i].tabs@.len());
        }
    }

    fn item_session_name_in(&self, slots: &Vec<Slot>, index: usize) -> (name: Option<&str>)
        requires
            slots@ == self@.slots(),
        ensures
            opt_text(name) == self@.item_session_name(index as int),
    {
        if index >= slots.len() {
            return None;
        }
        let _ = self.slot_valid_at(slots, index);
        match slots[index] {
            Slot::Pin(p) => Some(self.pins[p].session.as_str()),
            Slot::Session(s) => Some(self.sessions[s].name.as_str()),
            Slot::LiveTab(_) => self.current_session_name(),
            Slot::SnapTab { session, .. } => Some(self.sessions[session].name.as_str()),
        }
    }

    fn item_title_in(&self, slots: &Vec<Slot>, index: usize) -> (title: Option<&str>)
        requires
            slots@ == self@.slots(),
        ensures
            opt_text(title) == self@.item_title(index as int),
    {
        if let Some(session) = self.session_at_in(slots, index) {
            return Some(session.name.as_str());
        }
        match self.tab_at_in(slots, index) {
            Some(tab) => Some(display_name(tab)),
            None => None,
        }
    }

    fn item_is_active_in(&self, slots: &Vec<Slot>, index: usize) -> (active: bool)
        requires
            slots@ == self@.slots(),
        ensures
            active == self@.item_is_active(index as int),
    {
        if let Some(session) = self.session_at_in(slots, index) {
            return session.current;
        }
        match self.tab_at_in(slots, index) {
            Some(tab) => tab.active,
            None => false,
        }
    }

    fn item_is_pinned_in(slots: &Vec<Slot>, index: usize) -> (pinned: bool)
        ensures
            pinned == (index < slots@.len() && slots@[index as int] is Pin),
    {
        index < slots.len() && matches!(slots[index], Slot::Pin(_))
    }

    fn item_is_session_in(slots: &Vec<Slot>, index: usize) -> (session: bool)
        ensures
            session == (index < slots@.len() && slots@[index as int] is Session),
    {
        index < slots.len() && matches!(slots[index], Slot::Session(_))
    }

    pub fn item_title(&self, index: usize) -> (title: Option<&str>)
        ensures
            opt_text(title) == self@.item_title(index as int),
    {
        let slots = self.slots();
        self.item_title_in(&slots, index)
    }

    pub fn item_is_active(&self, index: usize) -> (active: bool)
        ensures
            active == self@.item_is_active(index as int),
    {
        let slots = self.slots();
        self.item_is_active_in(&slots, index)
    }

    pub fn item_is_pinned(&self, index: usize) -> (pinned: bool)
        ensures
            pinned == self@.item_is_pinned(index as int),
    {
        let slots = self.slots();
        Overview::item_is_pinned_in(&slots, index)
    }

    pub fn item_is_session(&self, index: usize) -> (session: bool)
        ensures
            session == self@.item_is_session(index as int),
    {
        let slots = self.slots();
        Overview::item_is_session_in(&slots, index)
    }

    /// The tab count a session card shows.
    pub fn item_tab_count(&self, index: usize) -> (count: Option<usize>)
        ensures
            count == match self@.session_at(index as int) {
                Some(s) => Some(s.tab_count),
                None => None,
            },
    {
        let slots = self.slots();
        match self.session_at_in(&slots, index) {
            Some(session) => Some(session.tab_count),
            None => None,
        }
    }

    pub fn item_count(&self) -> (n: usize)
        ensures
            n == self@.item_count(),
    {
        self.slots().len()
    }

    /// Every list of the board, and its cards, can be counted in a `usize`:
    /// the bounds the laws on boards take as given hold of every overview.
    pub fn lengths_fit(&self)
        ensures
            self@.bounded(),
            self@.item_count() <= usize::MAX,
    {
        let _ = self.tabs.len();
        let _ = self.pins.len();
        let _ = self.item_count();
        let mut i: usize = 0;
        while i < self.sessions.len()
            invariant
                i <= self.sessions@.len(),
                forall|j: int| 0 <= j < i ==> (#[trigger] self@.sessions[j]).tabs.len() <= usize::MAX,
            decreases self.sessions@.len() - i,
        {
            let _ = self.sessions[i].tabs.len();
            i += 1;
        }
    }

    /// The session a card belongs to.
    pub fn item_session_name(&self, index: usize) -> (name: Option<&str>)
        ensures
            opt_text(name) == self@.item_session_name(index as int),
    {
        let slots = self.slots();
        self.item_session_name_in(&slots, index)
    }

    /// How many cards, from the first, are pins.
    pub fn pin_count(&self) -> (n: usize)
        ensures
            n == self@.pin_count(),
    {
        let slots = self.slots();
        let mut i: usize = 0;
        while i < slots.len() && matches!(slots[i], Slot::Pin(_))
            invariant
                i <= slots@.len(),
                slots@ == self@.slots(),
                forall|j: int| 0 <= j < i ==> (#[trigger] slots@[j]) is Pin,
            decreases slots@.len() - i,
        {
            i += 1;
        }
        proof {
            lemma_first_where(slots@, not_pin(), i as int);
        }
        i
    }

    fn other_previous_session(&self) -> (name: Option<&str>)
        ensures
            opt_text(name) == self@.other_previous_session(),
    {
        let name = match &self.previous_session_name {
            Some(name) => name,
            None => {
                return None;
            },
        };
        let mut i: usize = 0;
        while i < self.sessions.len()
            invariant
                i <= self.sessions@.len(),
                self@.previous_session == Some(name@),
                forall|j: int| 0 <= j < i ==> !((#[trigger] self.sessions@[j]).name@ == name@ && !self.sessions@[j].current),
            decreases self.sessions@.len() - i,
        {
            if str_eq(self.sessions[i].name.as_str(), name.as_str()) && !self.sessions[i].current {
                assert(self@.sessions[i as int].name == name@);
                return Some(self.sessions[i].name.as_str());
            }
            i += 1;
        }
        None
    }

    fn previous_session_pin_index_in(&self, slots: &Vec<Slot>, session: &str) -> (index: Option<usize>)
        requires
            slots@ == self@.slots(),
        ensures
            match index {
                Some(i) => self@.previous_session_pin_index(session@) == Some(i as int),
                None => self@.previous_session_pin_index(session@) is None,
            },
    {
        let position = match self.session_last_tabs.get(session) {
            Some(p) => *p,
            None => {
                return None;
            },
        };
        let ghost p = self@.pinned_at(session@, position);
        let mut index: usize = 0;
        while index < slots.len()
            invariant
                index <= slots@.len(),
                slots@ == self@.slots(),
                self@.last_tabs.contains_key(session@),
                self@.last_tabs[session@] == position,
                p == self@.pinned_at(session@, position),
                forall|j: int| 0 <= j < index ==> !#[trigger] p(j),
            decreases slots@.len() - index,
        {
            let pinned = Overview::item_is_pinned_in(slots, index);
            let belongs = match self.item_session_name_in(slots, index) {
                Some(name) => str_eq(name, session),
                None => false,
            };
            let at_position = match self.tab_at_in(slots, index) {
                Some(tab) => tab.position == position,
                None => false,
            };
            if pinned && belongs && at_position {
                proof {
                    lemma_first_index(self@.item_count(), p, index as int);
                }
                return Some(index);
            }
            index += 1;
        }
        proof {
            lemma_first_index(self@.item_count(), p, index as int);
        }
        None
    }

    fn is_previous_item_in(&self, slots: &Vec<Slot>, index: usize) -> (previous: bool)
        requires
            slots@ == self@.slots(),
        ensures
            previous == self@.is_previous_item(index as int),
    {
        if let Some(name) = &self.drilled_session {
            if self.drilled_session_is_current() {
                return match self.tab_at_in(slots, index) {
                    Some(tab) => match self.previous_tab_id {
                        Some(id) => tab.id == id,
                        None => false,
                    },
                    None => false,
                };
            }
            return match self.session_last_tabs.get(name.as_str()) {
                Some(position) => match self.tab_at_in(slots, index) {
                    Some(tab) => tab.position == *position,
                    None => false,
                },
                None => false,
            };
        }
        if let Some(name) = self.other_previous_session() {
            if let Some(pin) = self.previous_session_pin_index_in(slots, name) {
                return index == pin;
            }
            return match self.session_at_in(slots, index) {
                Some(session) => str_eq(session.name.as_str(), name),
                None => false,
            };
        }
        match self.tab_at_in(slots, index) {
            Some(tab) => match self.previous_tab_id {
                Some(id) => tab.id == id,
                None => false,
            },
            None => false,
        }
    }

    /// Whether the card is where `-` goes.
    pub fn is_previous_item(&self, index: usize) -> (previous: bool)
        ensures
            previous == self@.is_previous_item(index as int),
    {
        let slots = self.slots();
        self.is_previous_item_in(&slots, index)
    }

    pub fn is_previous_tab(&self, index: usize) -> (previous: bool)
        ensures
            previous == self@.is_previous_item(index as int),
    {
        self.is_previous_item(index)
    }

    fn item_pin_session_in(&self, slots: &Vec<Slot>, index: usize) -> (name: Option<&str>)
        requires
            slots@ == self@.slots(),
        ensures
            opt_text(name) == self@.item_pin_session(index as int),
    {
        if !Overview::item_is_pinned_in(slots, index) || self.is_previous_item_in(slots, index) {
            return None;
        }
        self.item_session_name_in(slots, index)
    }

    /// The session name shown after a pinned title, unless that pin is the
    /// previous item.
    pub fn item_pin_session(&self, index: usize) -> (name: Option<&str>)
        ensures
            opt_text(name) == self@.item_pin_session(index as int),
    {
        let slots = self.slots();
        self.item_pin_session_in(&slots, index)
    }

    fn index_of_in(&self, slots: &Vec<Slot>, identity: &BoardIdentity) -> (index: Option<usize>)
        requires
            slots@ == self@.slots(),
        ensures
            match index {
                Some(i) => self@.index_of(identity.model()) == Some(i as int),
                None => self@.index_of(identity.model()) is None,
            },
    {
        let n = slots.len();
        match identity {
            BoardIdentity::Session(name) => {
                let ghost p = self@.session_card(name@);
                let mut i: usize = 0;
                while i < n
                    invariant
                        i <= n,
                        n == slots@.len(),
                        slots@ == self@.slots(),
                        p == self@.session_card(name@),
                        identity.model() == Identity::Session(name@),
                        forall|j: int| 0 <= j < i ==> !#[trigger] p(j),
                    decreases n - i,
                {
                    let hit = match self.session_at_in(slots, i) {
                        Some(session) => str_eq(session.name.as_str(), name.as_str()),
                        None => false,
                    };
                    if hit {
                        proof {
                            lemma_first_index(n as int, p, i as int);
                        }
                        return Some(i);
                    }
                    i += 1;
                }
                proof {
                    lemma_first_index(n as int, p, i as int);
                }
                None
            },
            BoardIdentity::Pinned { session, name } => {
                let ghost p = self@.pinned_titled(session@, name@);
                let mut i: usize = 0;
                while i < n
                    invariant
                        i <= n,
                        n == slots@.len(),
                        slots@ == self@.slots(),
                        p == self@.pinned_titled(session@, name@),
                        identity.model() == (Identity::Pinned { session: session@, name: name@ }),
                        forall|j: int| 0 <= j < i ==> !#[trigger] p(j),
                    decreases n - i,
                {
                    let pinned = Overview::item_is_pinned_in(slots, i);
                    let belongs = match self.item_session_name_in(slots, i) {
                        Some(owner) => str_eq(owner, session.as_str()),
                        None => false,
                    };
                    let titled = match self.tab_at_in(slots, i) {
                        Some(tab) => str_eq(display_name(tab), name.as_str()),
                        None => false,
                    };
                    if pinned && belongs && titled {
                        proof {
                            lemma_first_index(n as int, p, i as int);
                        }
                        return Some(i);
                    }
                    i += 1;
                }
                proof {
                    lemma_first_index(n as int, p, i as int);
                }
                None
            },
            BoardIdentity::Tab(id) => {
                let ghost p = self@.tab_with_id(*id);
                let mut i: usize = 0;
                while i < n
                    invariant
                        i <= n,
                        n == slots@.len(),
                        slots@ == self@.slots(),
                        p == self@.tab_with_id(*id),
                        identity.model() == Identity::Tab(*id),
                        forall|j: int| 0 <= j < i ==> !#[trigger] p(j),
                    decreases n - i,
                {
                    let hit = match self.tab_at_in(slots, i) {
                        Some(tab) => tab.id == *id,
                        None => false,
                    };
                    if hit {
                        proof {
                            lemma_first_index(n as int, p, i as int);
                        }
                        return Some(i);
                    }
                    i += 1;
                }
                proof {
                    lemma_first_index(n as int, p, i as int);
                }
                None
            },
        }
    }

    fn selected_identity(&self) -> (identity: Option<BoardIdentity>)
        ensures
            match identity {
                Some(id) => self@.selected_identity() == Some(id.model()),
                None => self@.selected_identity() is None,
            },
    {
        let slots = self.slots();
        let cursor = self.cursor;
        if let Some(session) = self.session_at_in(&slots, cursor) {
            return Some(BoardIdentity::Session(session.name.clone()));
        }
        if Overview::item_is_pinned_in(&slots, cursor) {
            let session = match self.item_session_name_in(&slots, cursor) {
                Some(name) => name,
                None => {
                    return None;
                },
            };
            let name = match self.tab_at_in(&slots, cursor) {
                Some(tab) => display_name(tab),
                None => {
                    return None;
                },
            };
            return Some(BoardIdentity::Pinned { session: session.to_owned(), name: name.to_owned() });
        }
        match self.tab_at_in(&slots, cursor) {
            Some(tab) => Some(BoardIdentity::Tab(tab.id)),
            None => None,
        }
    }

    fn first_tab_where_in(&self, slots: &Vec<Slot>, position: Option<usize>) -> (index: Option<usize>)
        requires
            slots@ == self@.slots(),
        ensures
            match position {
                Some(pos) => {
                    let found = first_index(self@.item_count(), self@.tab_at_position(pos));
                    match index {
                        Some(i) => found == Some(i as int),
                        None => found is None,
                    }
                },
                None => {
                    let found = first_index(self@.item_count(), self@.active_tab());
                    match index {
                        Some(i) => found == Some(i as int),
                        None => found is None,
                    }
                },
            },
    {
        let n = slots.len();
        let ghost p = match position {
            Some(pos) => self@.tab_at_position(pos),
            None => self@.active_tab(),
        };
        let mut i: usize = 0;
        while i < n
            invariant
                i <= n,
                n == slots@.len(),
                slots@ == self@.slots(),
                p == match position {
                    Some(pos) => self@.tab_at_position(pos),
                    None => self@.active_tab(),
                },
                forall|j: int| 0 <= j < i ==> !#[trigger] p(j),
            decreases n - i,
        {
            let hit = match self.tab_at_in(slots, i) {
                Some(tab) => match position {
                    Some(pos) => tab.position == pos,
                    None => tab.active,
                },
                None => false,
            };
            if hit {
                proof {
                    lemma_first_index(n as int, p, i as int);
                }
                return Some(i);
            }
            i += 1;
        }
        proof {
            lemma_first_index(n as int, p, i as int);
        }
        None
    }

    fn first_active_in(&self, slots: &Vec<Slot>, sessions: bool) -> (index: Option<usize>)
        requires
            slots@ == self@.slots(),
        ensures
            ({
                let found = first_index(self@.item_count(), self@.active_item(sessions));
                match index {
                    Some(i) => found == Some(i as int),
                    None => found is None,
                }
            }),
    {
        let n = slots.len();
        let ghost p = self@.active_item(sessions);
        let mut i: usize = 0;
        while i < n
            invariant
                i <= n,
                n == slots@.len(),
                slots@ == self@.slots(),
                p == self@.active_item(sessions),
                forall|j: int| 0 <= j < i ==> !#[trigger] p(j),
            decreases n - i,
        {
            if Overview::item_is_session_in(slots, i) == sessions && self.item_is_active_in(slots, i) {
                proof {
                    lemma_first_index(n as int, p, i as int);
                }
                return Some(i);
            }
            i += 1;
        }
        proof {
            lemma_first_index(n as int, p, i as int);
        }
        None
    }

    fn active_index(&self) -> (index: Option<usize>)
        ensures
            match index {
                Some(i) => self@.active_index() == Some(i as int),
                None => self@.active_index() is None,
            },
    {
        let slots = self.slots();
        if let Some(name) = &self.drilled_session {
            let remembered = if self.drilled_session_is_current() {
                match self.previous_tab_id {
                    Some(id) => self.index_of_in(&slots, &BoardIdentity::Tab(id)),
                    None => None,
                }
            } else {
                match self.session_last_tabs.get(name.as_str()) {
                    Some(position) => self.first_tab_where_in(&slots, Some(*position)),
                    None => None,
                }
            };
            if let Some(index) = remembered {
                return Some(index);
            }
            if let Some(index) = self.first_tab_where_in(&slots, None) {
                return Some(index);
            }
            return if slots.len() > 0 { Some(0) } else { None };
        }
        if let Some(index) = self.first_active_in(&slots, false) {
            return Some(index);
        }
        self.first_active_in(&slots, true)
    }
}


impl Overview {
    // ------------------------------------------------------------ pruning

    fn pin_is_dead(&self, pin: &Pin) -> (dead: bool)
        ensures
            dead == self@.pin_is_dead(pin@),
    {
        let is_current = match self.current_session_name() {
            Some(name) => str_eq(name, pin.session.as_str()),
            None => false,
        };
        if is_current {
            if self.tabs.len() == 0 {
                return false;
            }
            let found = Overview::tab_titled(&self.tabs, pin.tab_name.as_str());
            proof {
                lemma_first_where_found(self@.tabs, tab_titled_as(pin@.tab_name));
            }
            return found.is_none();
        }
        match self.session_index(pin.session.as_str()) {
            None => self.sessions.len() != 0,
            Some(si) => {
                let s = &self.sessions[si];
                assert(self@.sessions[si as int] == s@);
                if s.tabs.len() == 0 || s.tabs.len() < s.tab_count {
                    return false;
                }
                let found = Overview::tab_titled(&s.tabs, pin.tab_name.as_str());
                proof {
                    lemma_first_where_found(s.tabs@, tab_titled_as(pin@.tab_name));
                }
                found.is_none()
            },
        }
    }

    fn session_last_is_dead(&self, name: &str, position: usize) -> (dead: bool)
        ensures
            dead == self@.session_last_is_dead(name@, position),
    {
        if self.sessions.len() == 0 {
            return false;
        }
        match self.session_index(name) {
            None => true,
            Some(si) => {
                let s = &self.sessions[si];
                assert(self@.sessions[si as int] == s@);
                if s.current && self.tabs.len() != 0 {
                    position >= self.tabs.len()
                } else if s.tabs.len() != 0 {
                    position >= s.tabs.len()
                } else {
                    s.tab_count > 0 && position >= s.tab_count
                }
            },
        }
    }

    /// The pins whose tab is not known to be gone, and whether any was.
    fn live_pins(&self) -> (r: (Vec<Pin>, bool))
        ensures
            pins_view(r.0@) == self@.live_pins(self@.pins.len() as int),
            r.1 == exists|i: int| 0 <= i < self@.pins.len() && self@.pin_is_dead(#[trigger] self@.pins[i]),
    {
        let mut kept: Vec<Pin> = Vec::new();
        let mut dropped = false;
        let mut i: usize = 0;
        while i < self.pins.len()
            invariant
                i <= self.pins@.len(),
                self@.pins.len() == self.pins@.len(),
                pins_view(kept@) == self@.live_pins(i as int),
                dropped == exists|j: int| 0 <= j < i && self@.pin_is_dead(#[trigger] self@.pins[j]),
            decreases self.pins@.len() - i,
        {
            assert(self@.pins[i as int] == self.pins@[i as int]@);
            let ghost before = kept@;
            if self.pin_is_dead(&self.pins[i]) {
                dropped = true;
            } else {
                kept.push(self.pins[i].duplicate());
            }
            assert(pins_view(kept@) =~= self@.live_pins(i + 1)) by {
                assert(pins_view(before) == self@.live_pins(i as int));
            }
            i += 1;
        }
        (kept, dropped)
    }

    /// The remembered last tabs that are not known to be gone, and whether any was.
    fn live_last_tabs(&self) -> (r: (SessionLastTabs, bool))
        ensures
            r.0.view() == Map::new(
                |k: Seq<char>| self@.last_tabs.contains_key(k) && !self@.session_last_is_dead(k, self@.last_tabs[k]),
                |k: Seq<char>| self@.last_tabs[k],
            ),
            r.1 == exists|k: Seq<char>| #[trigger] self@.last_tabs.contains_key(k) && self@.session_last_is_dead(k, self@.last_tabs[k]),
    {
        self.session_last_tabs.entries_agree();
        let ghost old_map = self@.last_tabs;
        let ghost ev = self.session_last_tabs.entries_view();
        let mut fresh = SessionLastTabs::new();
        let mut dropped = false;
        let n = self.session_last_tabs.entry_count();
        let mut i: usize = 0;
        while i < n
            invariant
                i <= n,
                n == ev.len(),
                ev == self.session_last_tabs.entries_view(),
                old_map == self@.last_tabs,
                forall|a: int, b: int| 0 <= a < b < ev.len() ==> ev[a].0 != ev[b].0,
                forall|k: Seq<char>| #[trigger] old_map.contains_key(k) <==> exists|a: int| 0 <= a < ev.len() && ev[a].0 == k,
                forall|a: int| 0 <= a < ev.len() ==> #[trigger] old_map[ev[a].0] == ev[a].1,
                fresh.view() =~= Map::new(
                    |k: Seq<char>| (exists|a: int| 0 <= a < i && ev[a].0 == k) && !self@.session_last_is_dead(k, old_map[k]),
                    |k: Seq<char>| old_map[k],
                ),
                dropped == exists|a: int| 0 <= a < i && self@.session_last_is_dead(#[trigger] ev[a].0, ev[a].1),
            decreases n - i,
        {
            let (name, position) = self.session_last_tabs.entry(i);
            let ghost before = fresh.view();
            assert(old_map[ev[i as int].0] == position);
            if self.session_last_is_dead(name.as_str(), position) {
                dropped = true;
                assert(fresh.view() =~= Map::new(
                    |k: Seq<char>| (exists|a: int| 0 <= a < i + 1 && ev[a].0 == k) && !self@.session_last_is_dead(k, old_map[k]),
                    |k: Seq<char>| old_map[k],
                )) by {
                    assert forall|k: Seq<char>| (exists|a: int| 0 <= a < i + 1 && ev[a].0 == k) && !self@.session_last_is_dead(k, old_map[k])
                        implies (exists|a: int| 0 <= a < i && ev[a].0 == k) by {
                        let a = choose|a: int| 0 <= a < i + 1 && ev[a].0 == k;
                        assert(a != i);
                    }
                }
            } else {
                fresh.insert(name.clone(), position);
                assert(fresh.view() =~= Map::new(
                    |k: Seq<char>| (exists|a: int| 0 <= a < i + 1 && ev[a].0 == k) && !self@.session_last_is_dead(k, old_map[k]),
                    |k: Seq<char>| old_map[k],
                )) by {
                    assert forall|k: Seq<char>| (exists|a: int| 0 <= a < i + 1 && ev[a].0 == k) && !self@.session_last_is_dead(k, old_map[k])
                        implies (exists|a: int| 0 <= a < i && ev[a].0 == k) || k == ev[i as int].0 by {
                        let a = choose|a: int| 0 <= a < i + 1 && ev[a].0 == k;
                        if a != i {
                            assert(0 <= a < i && ev[a].0 == k);
                        }
                    }
                }
            }
            assert(dropped == exists|a: int| 0 <= a < i + 1 && self@.session_last_is_dead(#[trigger] ev[a].0, ev[a].1)) by {
                if exists|a: int| 0 <= a < i + 1 && self@.session_last_is_dead(#[trigger] ev[a].0, ev[a].1) {
                    let a = choose|a: int| 0 <= a < i + 1 && self@.session_last_is_dead(#[trigger] ev[a].0, ev[a].1);
                    if a != i {
                        assert(0 <= a < i && self@.session_last_is_dead(ev[a].0, ev[a].1));
                    }
                }
            }
            i += 1;
        }
        assert(fresh.view() =~= Map::new(
            |k: Seq<char>| self@.last_tabs.contains_key(k) && !self@.session_last_is_dead(k, self@.last_tabs[k]),
            |k: Seq<char>| self@.last_tabs[k],
        ));
        assert(dropped == exists|k: Seq<char>| #[trigger] self@.last_tabs.contains_key(k) && self@.session_last_is_dead(k, self@.last_tabs[k])) by {
            if dropped {
                let a = choose|a: int| 0 <= a < n && self@.session_last_is_dead(#[trigger] ev[a].0, ev[a].1);
                assert(old_map.contains_key(ev[a].0));
            }
            if exists|k: Seq<char>| #[trigger] self@.last_tabs.contains_key(k) && self@.session_last_is_dead(k, self@.last_tabs[k]) {
                let k = choose|k: Seq<char>| #[trigger] self@.last_tabs.contains_key(k) && self@.session_last_is_dead(k, self@.last_tabs[k]);
                let a = choose|a: int| 0 <= a < ev.len() && ev[a].0 == k;
                assert(self@.session_last_is_dead(ev[a].0, ev[a].1));
            }
        }
        (fresh, dropped)
    }

    /// Drops pins, the left session and remembered last tabs that are known to
    /// be gone, and records in the stale flags which of them lost something.
    pub fn prune_stale_cache(&mut self)
        ensures
            final(self)@ == old(self)@.pruned(),
    {
        let ghost pre = self@;
        let (pins, dropped_pins) = self.live_pins();
        let stale_previous = match &self.previous_session_name {
            Some(_) => self.sessions.len() != 0 && self.other_previous_session().is_none(),
            None => false,
        };
        let (last, dropped_last) = self.live_last_tabs();
        self.pins = pins;
        if dropped_pins {
            self.stale_cache.pins = true;
        }
        if stale_previous {
            self.previous_session_name = None;
            self.stale_cache.previous = true;
        }
        self.session_last_tabs = last;
        if dropped_last {
            self.stale_cache.session_last = true;
        }
        assert(self@ =~= pre.pruned());
    }

    /// The stale flags, cleared.
    pub fn take_stale_cache(&mut self) -> (taken: CachePrune)
        ensures
            taken == old(self)@.stale,
            final(self)@ == (BoardModel { stale: CachePrune::clean(), ..old(self)@ }),
    {
        let taken = self.stale_cache;
        self.stale_cache = CachePrune::default();
        assert(self@ =~= (BoardModel { stale: CachePrune::clean(), ..old(self)@ }));
        taken
    }
}


spec fn identity_model(o: Option<BoardIdentity>) -> Option<Identity> {
    match o {
        Some(id) => Some(id.model()),
        None => None,
    }
}

impl Overview {
    // ------------------------------------------------------------ layout

    /// Bytes a pinned card spends on its session name, with the two spaces before it.
    fn pin_session_width_in(&self, slots: &Vec<Slot>, index: usize) -> (width: u128)
        requires
            slots@ == self@.slots(),
        ensures
            width == match self@.item_pin_session(index as int) {
                Some(name) => crate::board::sat(2 + encode_utf8(name).len() as int),
                None => 0,
            },
    {
        match self.item_pin_session_in(slots, index) {
            Some(name) => {
                let raw = name.as_bytes();
                let bytes = raw.len();
                assert(bytes == encode_utf8(name@).len());
                if bytes > usize::MAX - 2 {
                    usize::MAX as u128
                } else {
                    (bytes + 2) as u128
                }
            },
            None => 0,
        }
    }

    fn item_width_in(&self, slots: &Vec<Slot>, index: usize) -> (width: usize)
        requires
            slots@ == self@.slots(),
        ensures
            width == self@.item_width(index as int),
    {
        let title = match self.item_title_in(slots, index) {
            Some(t) => t,
            None => {
                proof {
                    reveal_strlit("");
                }
                assert(""@ =~= Seq::<char>::empty());
                ""
            },
        };
        let title_columns = title_width(title) as u128;
        let active: u128 = if self.item_is_active_in(slots, index) { 2 } else { 0 };
        let previous: u128 = if self.is_previous_item_in(slots, index) { 4 } else { 0 };
        let session: u128 = if Overview::item_is_session_in(slots, index) { 2 } else { 0 };
        let pinned: u128 = if Overview::item_is_pinned_in(slots, index) { 2 } else { 0 };
        let pin_session = self.pin_session_width_in(slots, index);
        let total = title_columns + active + previous + session + pinned + pin_session + 2;
        if total > usize::MAX as u128 {
            usize::MAX
        } else {
            total as usize
        }
    }

    /// Columns each card needs.
    fn item_widths(&self) -> (widths: Vec<usize>)
        ensures
            widths@ == self@.item_widths(),
    {
        let slots = self.slots();
        let n = slots.len();
        let mut widths: Vec<usize> = Vec::new();
        let mut i: usize = 0;
        while i < n
            invariant
                i <= n,
                n == slots@.len(),
                slots@ == self@.slots(),
                widths@ =~= self@.item_widths().take(i as int),
            decreases n - i,
        {
            let width = self.item_width_in(&slots, i);
            widths.push(width);
            i += 1;
        }
        widths
    }

    /// Where separator lines go.
    fn band_ends(&self) -> (ends: Vec<usize>)
        ensures
            ends@ == self@.band_ends(),
    {
        let total = self.item_count();
        let pins = self.pin_count();
        proof {
            lemma_first_where_found(self@.slots(), not_pin());
        }
        let mut ends: Vec<usize> = Vec::new();
        if pins > 0 && pins < total {
            ends.push(pins);
        }
        if self.drilled_session.is_none() {
            let sessions = self.session_card_count();
            if sessions > 0 && sessions < total && pins < total - sessions {
                ends.push(pins + sessions);
            }
        }
        assert(ends@ =~= self@.band_ends());
        ends
    }

    /// The layout of the board's cards in `area`.
    pub fn layout_plan(&self, area: Rect) -> (plan: LayoutPlan)
        ensures
            plan@ == self@.layout_plan(area),
    {
        let widths = self.item_widths();
        let ends = self.band_ends();
        LayoutPlan::calculate_with_bands(widths.as_slice(), area, self.scroll_offset, ends.as_slice())
    }

    /// The layout in the viewport, less its footer line.
    pub fn current_layout_plan(&self) -> (plan: LayoutPlan)
        ensures
            plan@ == self@.current_layout_plan(),
    {
        let (rows, cols) = match self.viewport {
            Some(v) => v,
            None => (1, 1),
        };
        let content = if rows >= 3 { rows - 1 } else { rows };
        let width: u16 = if cols > 65535 { 65535 } else { cols as u16 };
        let height: u16 = if content > 65535 { 65535 } else { content as u16 };
        self.layout_plan(Rect::new(0, 0, width, height))
    }

    fn ensure_index_visible(&mut self, index: usize)
        ensures
            final(self)@ == old(self)@.ensure_visible(index as int),
    {
        let plan = self.current_layout_plan();
        if plan.mode != LayoutMode::Scroll || plan.visible_count == 0 {
            self.scroll_offset = 0;
            assert(self@ =~= old(self)@.ensure_visible(index as int));
            return;
        }
        if index < plan.first_visible {
            self.scroll_offset = index;
        } else if index >= plan.visible_end() {
            self.scroll_offset = index - (plan.visible_count - 1);
        }
        assert(self@ =~= old(self)@.ensure_visible(index as int));
    }

    /// Records the terminal size and scrolls the cursor into view.
    pub fn set_viewport(&mut self, rows: usize, cols: usize)
        ensures
            final(self)@ == (BoardModel { viewport: Some((rows, cols)), ..old(self)@ }).ensure_visible(old(self)@.cursor as int),
    {
        self.viewport = Some((rows, cols));
        assert(self@ =~= (BoardModel { viewport: Some((rows, cols)), ..old(self)@ }));
        let cursor = self.cursor;
        self.ensure_index_visible(cursor);
    }

    /// Opening the float grows through a compact size. Hold that frame so the
    /// first paint the user sees is already framed.
    pub fn should_hold_opening_paint(&self, opening: bool) -> (hold: bool)
        ensures
            hold == (opening && self@.current_layout_plan().mode == LayoutMode::Compact),
    {
        opening && self.current_layout_plan().mode == LayoutMode::Compact
    }

    // ------------------------------------------------------------ cursor

    /// Puts the cursor on the active item, or on the first card.
    pub fn reset_cursor_to_active(&mut self)
        ensures
            final(self)@ == old(self)@.reset_cursor(),
    {
        self.cursor = match self.active_index() {
            Some(i) => i,
            None => 0,
        };
        assert(self@ =~= old(self)@.reset_cursor());
    }

    fn reseat_cursor(&mut self, selected: Option<BoardIdentity>)
        ensures
            final(self)@ == old(self)@.reseated(identity_model(selected)),
    {
        match selected {
            Some(identity) => {
                let slots = self.slots();
                match self.index_of_in(&slots, &identity) {
                    Some(i) => {
                        self.cursor = i;
                        assert(self@ =~= old(self)@.reseated(identity_model(Some(identity))));
                    },
                    None => {
                        self.reset_cursor_to_active();
                    },
                }
            },
            None => {
                self.reset_cursor_to_active();
            },
        }
    }
}


impl Overview {
    // ------------------------------------------------------------ tips

    fn title_matches_in(&self, slots: &Vec<Slot>, index: usize, query: &str) -> (hit: bool)
        requires
            slots@ == self@.slots(),
        ensures
            hit == self@.title_matches(index as int, query@),
    {
        match self.item_title_in(slots, index) {
            Some(title) => title_match_range(title, query).is_some(),
            None => false,
        }
    }

    fn any_title_matches_in(&self, slots: &Vec<Slot>, query: &str) -> (hit: bool)
        requires
            slots@ == self@.slots(),
        ensures
            hit == self@.any_title_matches(query@),
    {
        let n = slots.len();
        let mut i: usize = 0;
        while i < n
            invariant
                i <= n,
                n == slots@.len(),
                slots@ == self@.slots(),
                forall|j: int| 0 <= j < i ==> !#[trigger] self@.title_matches(j, query@),
            decreases n - i,
        {
            if self.title_matches_in(slots, i, query) {
                return true;
            }
            i += 1;
        }
        false
    }

    fn hint_matches_in(&self, slots: &Vec<Slot>, query: &str) -> (matches: Vec<usize>)
        requires
            slots@ == self@.slots(),
        ensures
            matches@.map_values(|x: usize| x as int) == self@.hint_matches(query@, self@.item_count()),
    {
        let n = slots.len();
        let searching = !query.is_empty();
        let mut matches: Vec<usize> = Vec::new();
        let mut i: usize = 0;
        while i < n
            invariant
                i <= n,
                n == slots@.len(),
                slots@ == self@.slots(),
                searching == (query@.len() > 0),
                matches@.map_values(|x: usize| x as int) =~= self@.hint_matches(query@, i as int),
            decreases n - i,
        {
            let ghost before = matches@;
            if searching && self.title_matches_in(slots, i, query) {
                matches.push(i);
            }
            assert(matches@.map_values(|x: usize| x as int) =~= self@.hint_matches(query@, i + 1)) by {
                assert(before.map_values(|x: usize| x as int) =~= self@.hint_matches(query@, i as int));
            }
            i += 1;
        }
        matches
    }

    fn tip_letters_in(&self, slots: &Vec<Slot>, query: &str) -> (letters: Vec<char>)
        requires
            slots@ == self@.slots(),
        ensures
            letters@ == self@.tip_letters(query@),
            letters@.len() >= 1,
    {
        let alphabet = hint_alphabet_exec();
        let mut free: Vec<char> = Vec::new();
        let mut a: usize = 0;
        while a < alphabet.len()
            invariant
                a <= alphabet@.len(),
                alphabet@ == hint_alphabet(),
                slots@ == self@.slots(),
                free@ == self@.free_letters(query@, a as int),
            decreases alphabet@.len() - a,
        {
            let mut extended = chars_of(query);
            extended.push(alphabet[a]);
            let candidate = string_from(&extended);
            assert(candidate@ =~= query@.push(hint_alphabet()[a as int]));
            let ghost before = free@;
            if !self.any_title_matches_in(slots, candidate.as_str()) {
                free.push(alphabet[a]);
            }
            assert(free@ =~= self@.free_letters(query@, a + 1));
            a += 1;
        }
        if free.len() == 0 {
            alphabet
        } else {
            free
        }
    }

    /// Whether retipping ends: two letters to make tips of, or at most one match.
    fn labels_ready(&self) -> (ready: bool)
        ensures
            ready == self@.labels_computable(),
    {
        match &self.hint {
            None => true,
            Some(h) => {
                let slots = self.slots();
                let letters = self.tip_letters_in(&slots, h.query.as_str());
                if letters.len() >= 2 {
                    return true;
                }
                let matches = self.hint_matches_in(&slots, h.query.as_str());
                assert(matches@.map_values(|x: usize| x as int).len() == matches@.len());
                matches.len() <= 1
            },
        }
    }

    /// Gives every match of the query a tip, in board order.
    fn recompute_hint_labels(&mut self)
        requires
            old(self)@.labels_computable(),
        ensures
            final(self)@ == old(self)@.relabeled(),
    {
        let (query, prefix) = match &self.hint {
            Some(h) => (h.query.clone(), h.jump_prefix.clone()),
            None => {
                return;
            },
        };
        let slots = self.slots();
        let n = slots.len();
        let matches = self.hint_matches_in(&slots, query.as_str());
        let letters = self.tip_letters_in(&slots, query.as_str());
        let ghost mv = matches@.map_values(|x: usize| x as int);
        let ghost tip_list = tips(matches@.len() as int, letters@);
        proof {
            self@.lemma_hint_matches_bounds(query@, n as int);
            assert(mv.len() == matches@.len());
        }
        let generated = labels_for(matches.len(), &letters);
        assert(generated@.map_values(|l: String| l@).len() == generated@.len());
        let mut labels: Vec<Option<String>> = Vec::new();
        let mut i: usize = 0;
        while i < n
            invariant
                i <= n,
                labels@.len() == i,
                forall|j: int| 0 <= j < i ==> (#[trigger] labels@[j]) is None,
            decreases n - i,
        {
            labels.push(None);
            i += 1;
        }
        assert(label_view(labels@) =~= no_labels(n as int));
        let mut k: usize = 0;
        while k < matches.len()
            invariant
                k <= matches@.len(),
                n == self@.item_count(),
                mv == matches@.map_values(|x: usize| x as int),
                mv == self@.hint_matches(query@, n as int),
                forall|j: int| 0 <= j < mv.len() ==> 0 <= #[trigger] mv[j] < n,
                generated@.map_values(|l: String| l@) == tip_list,
                tip_list.len() == matches@.len(),
                labels@.len() == n,
                label_view(labels@) == assign_labels(no_labels(n as int), mv, tip_list, k as int),
            decreases matches@.len() - k,
        {
            let at = matches[k];
            assert(mv[k as int] == at);
            assert(generated@[k as int]@ == tip_list[k as int]) by {
                assert(generated@.map_values(|l: String| l@)[k as int] == generated@[k as int]@);
            }
            let ghost before = labels@;
            labels.set(at, Some(generated[k].clone()));
            assert(label_view(labels@) =~= label_view(before).update(at as int, Some(tip_list[k as int])));
            k += 1;
        }
        self.hint = Some(HintState { labels, query, jump_prefix: prefix });
        assert(self@ =~= old(self)@.relabeled());
    }

    /// The query typed in Flash mode; empty outside it.
    pub fn hint_query(&self) -> (query: &str)
        ensures
            query@ == match self@.hint {
                Some(h) => h.query,
                None => Seq::<char>::empty(),
            },
    {
        match &self.hint {
            Some(h) => h.query.as_str(),
            None => {
                proof {
                    reveal_strlit("");
                }
                assert(""@ =~= Seq::<char>::empty());
                ""
            },
        }
    }

    /// The tip letters typed so far in Flash mode; empty outside it.
    pub fn hint_jump_prefix(&self) -> (prefix: &str)
        ensures
            prefix@ == match self@.hint {
                Some(h) => h.jump_prefix,
                None => Seq::<char>::empty(),
            },
    {
        match &self.hint {
            Some(h) => h.jump_prefix.as_str(),
            None => {
                proof {
                    reveal_strlit("");
                }
                assert(""@ =~= Seq::<char>::empty());
                ""
            },
        }
    }

    /// The tip on card `index`, if it has one.
    pub fn hint_label(&self, index: usize) -> (label: Option<&str>)
        ensures
            opt_text(label) == match self@.hint {
                Some(h) => if index < h.labels.len() {
                    h.labels[index as int]
                } else {
                    None
                },
                None => None,
            },
    {
        match &self.hint {
            Some(h) => {
                if index < h.labels.len() {
                    match &h.labels[index] {
                        Some(l) => Some(l.as_str()),
                        None => None,
                    }
                } else {
                    None
                }
            },
            None => None,
        }
    }

    /// Where the Flash query occurs in card `index`'s title.
    pub fn hint_match_range(&self, index: usize) -> (range: Option<(usize, usize)>)
        ensures
            range_view(range) == match self@.hint {
                Some(h) => match self@.item_title(index as int) {
                    Some(t) => title_match_range_spec(t, h.query),
                    None => None,
                },
                None => None,
            },
    {
        match &self.hint {
            Some(h) => match self.item_title(index) {
                Some(title) => title_match_range(title, h.query.as_str()),
                None => None,
            },
            None => None,
        }
    }

    pub fn is_hinting(&self) -> (hinting: bool)
        ensures
            hinting == self@.hint is Some,
    {
        self.hint.is_some()
    }

    pub fn is_help_visible(&self) -> (visible: bool)
        ensures
            visible == self@.show_help,
    {
        self.show_help
    }
}


impl Overview {
    // ------------------------------------------------------------ host updates

    /// A board with nothing on it yet.
    pub fn new() -> (overview: Overview)
        ensures
            overview@ == BoardModel::initial(),
    {
        let overview = Overview {
            tabs: Vec::new(),
            sessions: Vec::new(),
            drilled_session: None,
            session_last_tabs: SessionLastTabs::new(),
            pins: Vec::new(),
            cursor: 0,
            previous_tab_id: None,
            previous_session_name: None,
            viewport: None,
            scroll_offset: 0,
            pending_g: false,
            pending_z: false,
            show_help: false,
            hint: None,
            stale_cache: CachePrune::default(),
        };
        assert(overview@ =~= BoardModel::initial());
        overview
    }

    /// After the lists change: drop what died, put the cursor back on what it
    /// was on, retip.
    fn settle(&mut self, selected: Option<BoardIdentity>)
        requires
            old(self)@.settle_ready(identity_model(selected)),
        ensures
            final(self)@ == old(self)@.settled(identity_model(selected)),
    {
        let ghost sel = identity_model(selected);
        self.prune_stale_cache();
        self.reseat_cursor(selected);
        if self.hint.is_some() {
            self.recompute_hint_labels();
        }
    }

    /// The current session's tabs, as the host reports them.
    pub fn apply_tabs(&mut self, tabs: Vec<TabFact>)
        requires
            old(self)@.with_tabs(tabs@).settle_ready(old(self)@.selected_identity()),
        ensures
            final(self)@ == old(self)@.apply_tabs(tabs@),
    {
        let ghost given = tabs@;
        let sorted = sort_tabs(tabs);
        let selected = self.selected_identity();
        self.tabs = sorted;
        assert(self@ =~= old(self)@.with_tabs(given));
        self.settle(selected);
    }

    /// The live sessions, as the host reports them.
    pub fn apply_sessions(&mut self, sessions: Vec<SessionFact>)
        requires
            old(self)@.with_sessions(sessions_view(sessions@)).settle_ready(old(self)@.selected_identity()),
        ensures
            final(self)@ == old(self)@.apply_sessions(sessions_view(sessions@)),
    {
        let ghost given = sessions_view(sessions@);
        let sorted = sort_sessions(sessions);
        let selected = self.selected_identity();
        self.sessions = sorted;
        let keep = match &self.drilled_session {
            Some(name) => self.session_index(name.as_str()).is_some(),
            None => true,
        };
        proof {
            if let Some(name) = old(self)@.drilled {
                lemma_first_where_found(self@.sessions, session_named(name));
                let sorted_view = sort_sessions_spec(given);
                if exists|i: int| 0 <= i < sorted_view.len() && (#[trigger] sorted_view[i]).name == name {
                    let i = choose|i: int| 0 <= i < sorted_view.len() && (#[trigger] sorted_view[i]).name == name;
                    assert(session_named(name)(self@.sessions[i]));
                }
            }
        }
        if !keep {
            self.drilled_session = None;
        }
        assert(self@ =~= old(self)@.with_sessions(given));
        self.settle(selected);
    }

    /// The current session's entry, with `current` set on it alone.
    fn touched_sessions(&self, session: SessionFact) -> (sessions: Vec<SessionFact>)
        ensures
            sessions_view(sessions@) == self@.touched_sessions(session@),
    {
        let ghost cleared_view = Seq::new(
            self@.sessions.len(),
            |i: int| SessionModel { current: false, ..self@.sessions[i] },
        );
        let mut cleared: Vec<SessionFact> = Vec::new();
        let mut i: usize = 0;
        while i < self.sessions.len()
            invariant
                i <= self.sessions@.len(),
                self@.sessions.len() == self.sessions@.len(),
                cleared_view == Seq::new(self@.sessions.len(), |i: int| SessionModel { current: false, ..self@.sessions[i] }),
                sessions_view(cleared@) =~= cleared_view.take(i as int),
            decreases self.sessions@.len() - i,
        {
            let mut copy = self.sessions[i].duplicate();
            copy.current = false;
            assert(self@.sessions[i as int] == self.sessions@[i as int]@);
            assert(copy@ == cleared_view[i as int]);
            let ghost before = cleared@;
            let ghost copy_view = copy@;
            cleared.push(copy);
            assert(sessions_view(cleared@) =~= sessions_view(before).push(copy_view));
            assert(cleared_view.take(i + 1) =~= cleared_view.take(i as int).push(copy_view));
            i += 1;
        }
        assert(sessions_view(cleared@) =~= cleared_view);
        let mut j: usize = 0;
        while j < cleared.len() && !str_eq(cleared[j].name.as_str(), session.name.as_str())
            invariant
                j <= cleared@.len(),
                sessions_view(cleared@) == cleared_view,
                forall|q: int| 0 <= q < j ==> !session_named(session@.name)(#[trigger] cleared_view[q]),
            decreases cleared@.len() - j,
        {
            assert(cleared_view[j as int] == cleared@[j as int]@);
            j += 1;
        }
        if j < cleared.len() {
            assert(cleared_view[j as int] == cleared@[j as int]@);
        }
        let found: Option<usize> = if j < cleared.len() { Some(j) } else { None };
        proof {
            lemma_first_where(cleared_view, session_named(session@.name), j as int);
        }
        let ghost updated = match first_where(cleared_view, session_named(session@.name)) {
            Some(i) => cleared_view.update(
                i,
                SessionModel {
                    current: true,
                    tabs: if session@.tabs.len() == 0 {
                        cleared_view[i].tabs
                    } else {
                        session@.tabs
                    },
                    ..session@
                },
            ),
            None => cleared_view.push(SessionModel { current: true, ..session@ }),
        };
        match found {
            Some(at) => {
                let tabs = if session.tabs.len() == 0 {
                    copy_tabs(&cleared[at].tabs)
                } else {
                    session.tabs
                };
                cleared.set(at, SessionFact { name: session.name, current: true, tab_count: session.tab_count, tabs });
            },
            None => {
                cleared.push(SessionFact { name: session.name, current: true, tab_count: session.tab_count, tabs: session.tabs });
            },
        }
        assert(sessions_view(cleared@) =~= updated);
        sort_sessions(cleared)
    }

    /// The session this instance runs in, marked current; the other live
    /// sessions stay.
    pub fn touch_current_session(&mut self, session: SessionFact)
        requires
            old(self)@.with_current_session(session@).settle_ready(old(self)@.selected_identity()),
        ensures
            final(self)@ == old(self)@.touch_current_session(session@),
    {
        let selected = self.selected_identity();
        let sessions = self.touched_sessions(session);
        self.sessions = sessions;
        assert(self@ =~= old(self)@.with_current_session(session@));
        self.settle(selected);
    }

    /// The pins loaded from the cache.
    pub fn apply_pins(&mut self, pins: Vec<Pin>)
        requires
            old(self)@.with_pins(pins_view(pins@)).settle_ready(old(self)@.selected_identity()),
        ensures
            final(self)@ == old(self)@.apply_pins(pins_view(pins@)),
    {
        let ghost given = pins_view(pins@);
        let selected = self.selected_identity();
        self.pins = pins;
        assert(self@ =~= old(self)@.with_pins(given));
        self.settle(selected);
    }

    // ------------------------------------------------------------ getters

    pub fn tabs(&self) -> (tabs: &[TabFact])
        ensures
            tabs@ == self@.tabs,
    {
        self.tabs.as_slice()
    }

    pub fn sessions(&self) -> (sessions: &[SessionFact])
        ensures
            sessions_view(sessions@) == self@.sessions,
    {
        self.sessions.as_slice()
    }

    pub fn pins(&self) -> (pins: &[Pin])
        ensures
            pins_view(pins@) == self@.pins,
    {
        self.pins.as_slice()
    }

    /// A copy of the pin list.
    pub fn pins_copy(&self) -> (pins: Vec<Pin>)
        ensures
            pins_view(pins@) == self@.pins,
    {
        copy_pins(&self.pins)
    }

    pub fn cursor(&self) -> (cursor: usize)
        ensures
            cursor == self@.cursor,
    {
        self.cursor
    }

    /// Moves the cursor onto card `index`, as if the user had walked there.
    pub fn set_cursor(&mut self, index: usize)
        ensures
            final(self)@ == (BoardModel { cursor: index, ..old(self)@ }),
    {
        self.cursor = index;
        assert(self@ =~= (BoardModel { cursor: index, ..old(self)@ }));
    }

    /// The session whose board is open; `None` on the home board.
    pub fn viewing_session(&self) -> (name: Option<&str>)
        ensures
            opt_text(name) == self@.drilled,
    {
        match &self.drilled_session {
            Some(name) => Some(name.as_str()),
            None => None,
        }
    }

    /// Whether the open session board waits for that session's tab list.
    pub fn needs_session_tabs(&self) -> (needs: bool)
        ensures
            needs == match self@.drilled {
                None => false,
                Some(name) => !self@.drilled_session_is_current() && match self@.session_index(name) {
                    Some(si) => self@.sessions[si].tabs.len() == 0,
                    None => false,
                },
            },
    {
        let name = match &self.drilled_session {
            Some(name) => name,
            None => {
                return false;
            },
        };
        if self.drilled_session_is_current() {
            return false;
        }
        match self.session_index(name.as_str()) {
            Some(si) => {
                assert(self@.sessions[si as int] == self.sessions@[si as int]@);
                self.sessions[si].tabs.len() == 0
            },
            None => false,
        }
    }

    /// The position of the current session's active tab.
    pub fn active_tab_position(&self) -> (position: Option<usize>)
        ensures
            position == match first_where(self@.tabs, tab_is_active()) {
                Some(i) => Some(self@.tabs[i].position),
                None => None,
            },
    {
        let mut i: usize = 0;
        while i < self.tabs.len()
            invariant
                i <= self.tabs@.len(),
                forall|j: int| 0 <= j < i ==> !(#[trigger] self.tabs@[j]).active,
            decreases self.tabs@.len() - i,
        {
            if self.tabs[i].active {
                proof {
                    lemma_first_where(self@.tabs, tab_is_active(), i as int);
                }
                return Some(self.tabs[i].position);
            }
            i += 1;
        }
        proof {
            lemma_first_where(self@.tabs, tab_is_active(), i as int);
        }
        None
    }

    /// The current session's tabs, in position order.
    pub fn visible_tabs(&self) -> (tabs: Vec<&TabFact>)
        ensures
            tabs@.len() == self@.tabs.len(),
            forall|i: int| 0 <= i < tabs@.len() ==> *(#[trigger] tabs@[i]) == self@.tabs[i],
    {
        let mut out: Vec<&TabFact> = Vec::new();
        let mut i: usize = 0;
        while i < self.tabs.len()
            invariant
                i <= self.tabs@.len(),
                out@.len() == i,
                forall|j: int| 0 <= j < i ==> *(#[trigger] out@[j]) == self.tabs@[j],
            decreases self.tabs@.len() - i,
        {
            out.push(&self.tabs[i]);
            i += 1;
        }
        out
    }

    /// The id of the tab the host says was focused before the current one.
    pub fn set_previous_tab_id(&mut self, tab_id: Option<usize>)
        ensures
            final(self)@ == (BoardModel { previous_tab_id: tab_id, ..old(self)@ }),
    {
        self.previous_tab_id = tab_id;
        assert(self@ =~= (BoardModel { previous_tab_id: tab_id, ..old(self)@ }));
    }

    /// The session the user left to come here; an empty name counts as none.
    pub fn set_previous_session_name(&mut self, name: Option<String>)
        ensures
            final(self)@ == (BoardModel {
                previous_session: match name {
                    Some(n) => if n@.len() == 0 {
                        None
                    } else {
                        Some(n@)
                    },
                    None => None,
                },
                ..old(self)@
            }),
    {
        let ghost given = name;
        self.previous_session_name = match name {
            Some(n) => if n.as_str().is_empty() { None } else { Some(n) },
            None => None,
        };
        assert(self@ =~= (BoardModel {
            previous_session: match given {
                Some(n) => if n@.len() == 0 {
                    None
                } else {
                    Some(n@)
                },
                None => None,
            },
            ..old(self)@
        }));
    }

    /// Remembers `position` as the last tab seen in `session`.
    pub fn set_session_last_tab(&mut self, session: String, position: usize)
        ensures
            final(self)@ == (BoardModel { last_tabs: old(self)@.last_tabs.insert(session@, position), ..old(self)@ }),
    {
        let ghost name = session@;
        self.session_last_tabs.insert(session, position);
        assert(self@ =~= (BoardModel { last_tabs: old(self)@.last_tabs.insert(name, position), ..old(self)@ }));
    }

    /// The last tab seen in each session.
    pub fn session_last_tabs(&self) -> (last: &SessionLastTabs)
        ensures
            last.view() == self@.last_tabs,
    {
        &self.session_last_tabs
    }
}


impl Overview {
    // ------------------------------------------------------------ jumps

    fn jump_session_tab(&self, name: &str, tab_position: Option<usize>) -> (action: Action)
        ensures
            action@ == self@.jump_session_tab(name@, tab_position),
    {
        let mut i: usize = 0;
        while i < self.sessions.len()
            invariant
                i <= self.sessions@.len(),
                self@.sessions.len() == self.sessions@.len(),
                forall|j: int| 0 <= j < i ==> !((#[trigger] self@.sessions[j]).name == name@ && self@.sessions[j].current),
            decreases self.sessions@.len() - i,
        {
            assert(self@.sessions[i as int] == self.sessions@[i as int]@);
            if self.sessions[i].current && str_eq(self.sessions[i].name.as_str(), name) {
                return match tab_position {
                    Some(p) => Action::Commit { tab_index: p as u32 },
                    None => Action::PreviousTab,
                };
            }
            i += 1;
        }
        Action::SwitchSession { name: name.to_owned(), tab_position }
    }

    fn enter_session_board(&mut self, name: &str)
        ensures
            final(self)@ == old(self)@.enter_session_board(name@),
    {
        let known = self.session_index(name).is_some();
        proof {
            lemma_first_where_found(self@.sessions, session_named(name@));
            if exists|i: int| 0 <= i < self@.sessions.len() && (#[trigger] self@.sessions[i]).name == name@ {
                let i = choose|i: int| 0 <= i < self@.sessions.len() && (#[trigger] self@.sessions[i]).name == name@;
                assert(session_named(name@)(self@.sessions[i]));
            }
        }
        if !known {
            return;
        }
        self.drilled_session = Some(name.to_owned());
        self.hint = None;
        self.pending_g = false;
        self.pending_z = false;
        self.scroll_offset = 0;
        assert(self@ =~= (BoardModel {
            drilled: Some(name@),
            hint: None,
            pending_g: false,
            pending_z: false,
            scroll_offset: 0,
            ..old(self)@
        }));
        self.reset_cursor_to_active();
        let cursor = self.cursor;
        self.ensure_index_visible(cursor);
    }

    fn leave_session_board(&mut self)
        ensures
            final(self)@ == old(self)@.leave_session_board(),
    {
        self.drilled_session = None;
        self.hint = None;
        self.pending_g = false;
        self.pending_z = false;
        self.scroll_offset = 0;
        assert(self@ =~= (BoardModel {
            drilled: None,
            hint: None,
            pending_g: false,
            pending_z: false,
            scroll_offset: 0,
            ..old(self)@
        }));
        self.reset_cursor_to_active();
        let cursor = self.cursor;
        self.ensure_index_visible(cursor);
    }

    /// Opens card `index`.
    fn commit_index(&mut self, index: usize) -> (action: Action)
        ensures
            (final(self)@, action@) == old(self)@.commit_index(index as int),
    {
        let slots = self.slots();
        let session_name = match self.session_at_in(&slots, index) {
            Some(session) => Some(session.name.clone()),
            None => None,
        };
        if let Some(name) = session_name {
            self.enter_session_board(name.as_str());
            return Action::Noop;
        }
        let position = match self.tab_at_in(&slots, index) {
            Some(tab) => tab.position,
            None => {
                return Action::Dismiss;
            },
        };
        match self.item_session_name_in(&slots, index) {
            Some(session) => self.jump_session_tab(session, Some(position)),
            None => Action::Commit { tab_index: position as u32 },
        }
    }

    /// `-`: the tab or session the user came from.
    fn commit_previous(&mut self) -> (action: Action)
        ensures
            (final(self)@, action@) == old(self)@.commit_previous(),
    {
        if let Some(name) = &self.drilled_session {
            let position = match self.session_last_tabs.get(name.as_str()) {
                Some(p) => Some(*p),
                None => None,
            };
            return self.jump_session_tab(name.as_str(), position);
        }
        let name = match self.other_previous_session() {
            Some(name) => name.to_owned(),
            None => {
                return Action::PreviousTab;
            },
        };
        if let Some(p) = self.session_last_tabs.get(name.as_str()) {
            let position = *p;
            let slots = self.slots();
            if self.previous_session_pin_index_in(&slots, name.as_str()).is_some() {
                return self.jump_session_tab(name.as_str(), Some(position));
            }
        }
        self.enter_session_board(name.as_str());
        Action::Noop
    }

    /// Pins the tab under the cursor, or unpins it, keeping the cursor on it;
    /// the tips are not redone.
    fn toggle_pin_unlabeled(&mut self) -> (changed: bool)
        ensures
            match old(self)@.pin_toggled() {
                Some(m) => changed && final(self)@ == m,
                None => !changed && final(self)@ == old(self)@,
            },
    {
        let slots = self.slots();
        let cursor = self.cursor;
        let session = match self.item_session_name_in(&slots, cursor) {
            Some(s) => s.to_owned(),
            None => {
                return false;
            },
        };
        if self.session_at_in(&slots, cursor).is_some() {
            return false;
        }
        let name = match self.tab_at_in(&slots, cursor) {
            Some(tab) => display_name(tab).to_owned(),
            None => {
                return false;
            },
        };
        let ghost pv = self@.pins;
        let mut i: usize = 0;
        while i < self.pins.len() && !(str_eq(self.pins[i].session.as_str(), session.as_str()) && str_eq(
            self.pins[i].tab_name.as_str(),
            name.as_str(),
        ))
            invariant
                i <= self.pins@.len(),
                pv == self@.pins,
                pv.len() == self.pins@.len(),
                forall|j: int| 0 <= j < i ==> !pin_of(session@, name@)(#[trigger] pv[j]),
            decreases self.pins@.len() - i,
        {
            assert(pv[i as int] == self.pins@[i as int]@);
            i += 1;
        }
        if i < self.pins.len() {
            assert(pv[i as int] == self.pins@[i as int]@);
        }
        proof {
            lemma_first_where(pv, pin_of(session@, name@), i as int);
        }
        if i < self.pins.len() {
            self.pins.remove(i);
            assert(pins_view(self.pins@) =~= pv.remove(i as int));
        } else {
            self.pins.push(Pin { session: session.clone(), tab_name: name.clone() });
            assert(pins_view(self.pins@) =~= pv.push(PinModel { session: session@, tab_name: name@ }));
        }
        self.reseat_cursor(Some(BoardIdentity::Pinned { session, name }));
        true
    }

    /// `p`: pins the tab under the cursor, or unpins it.
    fn toggle_pin_at_cursor(&mut self) -> (changed: bool)
        requires
            old(self)@.toggle_pin_ready(),
        ensures
            (final(self)@, changed) == old(self)@.toggle_pin(),
    {
        let changed = self.toggle_pin_unlabeled();
        if changed && self.hint.is_some() {
            self.recompute_hint_labels();
        }
        changed
    }

    // ------------------------------------------------------------ keys

    fn move_cursor_by(&mut self, delta: i128)
        requires
            -0x1_0000_0000_0000_0000 <= delta <= 0x1_0000_0000_0000_0000,
        ensures
            final(self)@ == old(self)@.move_cursor_by(delta as int),
    {
        let n = self.item_count();
        let last: usize = if n > 0 { n - 1 } else { 0 };
        let target = self.cursor as i128 + delta;
        self.cursor = if target < 0 {
            0
        } else if target > last as i128 {
            last
        } else {
            target as usize
        };
        assert(self@ =~= old(self)@.move_cursor_by(delta as int));
    }

    fn align_cursor(&mut self, alignment: ScrollAlignment)
        ensures
            final(self)@ == old(self)@.align_cursor(alignment),
    {
        if self.current_layout_plan().mode != LayoutMode::Scroll {
            return;
        }
        let rows: usize = match self.viewport {
            Some((r, _)) => if r >= 3 { r - 1 } else { r },
            None => 1,
        };
        let capacity: usize = if rows < 1 { 1 } else { rows };
        let c = self.cursor;
        self.scroll_offset = match alignment {
            ScrollAlignment::Top => c,
            ScrollAlignment::Center => c.saturating_sub(capacity / 2),
            ScrollAlignment::Bottom => c.saturating_add(1).saturating_sub(capacity),
        };
        assert(self@ =~= old(self)@.align_cursor(alignment));
    }
}


/// Whether `prefix` begins `text`.
fn starts_with_text(prefix: &str, text: &str) -> (starts: bool)
    ensures
        starts == prefix@.is_prefix_of(text@),
{
    let p = chars_of(prefix);
    let t = chars_of(text);
    if p.len() > t.len() {
        return false;
    }
    let mut i: usize = 0;
    while i < p.len()
        invariant
            i <= p@.len(),
            p@.len() <= t@.len(),
            p@ == prefix@,
            t@ == text@,
            forall|j: int| 0 <= j < i ==> p@[j] == t@[j],
        decreases p@.len() - i,
    {
        if p[i] != t[i] {
            return false;
        }
        i += 1;
    }
    assert(p@ =~= t@.subrange(0, p@.len() as int));
    true
}

impl Overview {
    // ------------------------------------------------------------ Flash keys

    /// The cards whose tip begins with `prefix`.
    fn labels_starting_in(&self, prefix: &str) -> (hits: Vec<usize>)
        requires
            self@.hint is Some,
        ensures
            hits@.map_values(|x: usize| x as int) == labels_starting(
                self@.hint->0.labels,
                prefix@,
                self@.hint->0.labels.len() as int,
            ),
    {
        let mut hits: Vec<usize> = Vec::new();
        match &self.hint {
            Some(h) => {
                let ghost lv = label_view(h.labels@);
                let mut i: usize = 0;
                while i < h.labels.len()
                    invariant
                        i <= h.labels@.len(),
                        lv == label_view(h.labels@),
                        hits@.map_values(|x: usize| x as int) =~= labels_starting(lv, prefix@, i as int),
                    decreases h.labels@.len() - i,
                {
                    let hit = match &h.labels[i] {
                        Some(l) => starts_with_text(prefix, l.as_str()),
                        None => false,
                    };
                    let ghost before = hits@;
                    if hit {
                        hits.push(i);
                    }
                    assert(hits@.map_values(|x: usize| x as int) =~= labels_starting(lv, prefix@, i + 1)) by {
                        assert(before.map_values(|x: usize| x as int) =~= labels_starting(lv, prefix@, i as int));
                    }
                    i += 1;
                }
            },
            None => {},
        }
        hits
    }

    /// The cards that carry a tip.
    fn labeled_in(&self) -> (hits: Vec<usize>)
        requires
            self@.hint is Some,
        ensures
            hits@.map_values(|x: usize| x as int) == labeled(self@.hint->0.labels, self@.hint->0.labels.len() as int),
    {
        let mut hits: Vec<usize> = Vec::new();
        match &self.hint {
            Some(h) => {
                let ghost lv = label_view(h.labels@);
                let mut i: usize = 0;
                while i < h.labels.len()
                    invariant
                        i <= h.labels@.len(),
                        lv == label_view(h.labels@),
                        hits@.map_values(|x: usize| x as int) =~= labeled(lv, i as int),
                    decreases h.labels@.len() - i,
                {
                    let ghost before = hits@;
                    if h.labels[i].is_some() {
                        hits.push(i);
                    }
                    assert(hits@.map_values(|x: usize| x as int) =~= labeled(lv, i + 1)) by {
                        assert(before.map_values(|x: usize| x as int) =~= labeled(lv, i as int));
                    }
                    i += 1;
                }
            },
            None => {},
        }
        hits
    }

    /// A character typed in Flash mode.
    fn apply_hint_input(&mut self, typed: char) -> (action: Action)
        requires
            old(self)@.hint_input_ready(typed),
        ensures
            (final(self)@, action@) == old(self)@.apply_hint_input(typed),
    {
        let ch = to_ascii_lower(typed);
        let (query_text, prefix_text) = match &self.hint {
            Some(h) => (h.query.clone(), h.jump_prefix.clone()),
            None => {
                return Action::Noop;
            },
        };
        let ghost h = self@.hint->0;
        let mut prefix_chars = chars_of(prefix_text.as_str());
        prefix_chars.push(ch);
        let prefix = string_from(&prefix_chars);
        assert(prefix@ =~= h.jump_prefix.push(ascii_lower(typed)));
        if !query_text.as_str().is_empty() {
            let hits = self.labels_starting_in(prefix.as_str());
            let ghost hv = hits@.map_values(|x: usize| x as int);
            proof {
                lemma_labels_starting_bounds(h.labels, prefix@, h.labels.len() as int);
                assert(hv.len() == hits@.len());
            }
            if hits.len() == 1 {
                assert(hv[0] == hits@[0] as int);
                let completes = match &self.hint {
                    Some(hs) => match &hs.labels[hits[0]] {
                        Some(l) => str_eq(l.as_str(), prefix.as_str()),
                        None => false,
                    },
                    None => false,
                };
                if completes {
                    return self.commit_index(hits[0]);
                }
            }
            if hits.len() > 0 {
                if let Some(hs) = self.hint.take() {
                    self.hint = Some(HintState { labels: hs.labels, query: hs.query, jump_prefix: prefix });
                }
                assert(self@ =~= (BoardModel { hint: Some(HintModel { jump_prefix: prefix@, ..h }), ..old(self)@ }));
                return Action::Noop;
            }
        }
        let mut query_chars = chars_of(query_text.as_str());
        query_chars.push(ch);
        let query = string_from(&query_chars);
        assert(query@ =~= h.query.push(ascii_lower(typed)));
        let slots = self.slots();
        if !self.any_title_matches_in(&slots, query.as_str()) {
            return Action::Noop;
        }
        if let Some(hs) = self.hint.take() {
            self.hint = Some(HintState { labels: hs.labels, query, jump_prefix: String::new() });
        }
        assert(self@ =~= (BoardModel {
            hint: Some(HintModel { query: h.query.push(ascii_lower(typed)), jump_prefix: seq![], ..h }),
            ..old(self)@
        }));
        self.recompute_hint_labels();
        let hits = self.labeled_in();
        let ghost hv = hits@.map_values(|x: usize| x as int);
        proof {
            lemma_labeled_bounds(self@.hint->0.labels, self@.hint->0.labels.len() as int);
            assert(hv.len() == hits@.len());
        }
        if hits.len() == 1 {
            assert(hv[0] == hits@[0] as int);
            return self.commit_index(hits[0]);
        }
        if hits.len() > 0 {
            assert(hv[0] == hits@[0] as int);
            self.ensure_index_visible(hits[0]);
        }
        Action::Noop
    }

    /// Backspace in Flash mode.
    fn hint_backspace(&mut self)
        requires
            old(self)@.hint_backspace_ready(),
        ensures
            final(self)@ == old(self)@.hint_backspace(),
    {
        let hs = match self.hint.take() {
            Some(hs) => hs,
            None => {
                return;
            },
        };
        let ghost h = old(self)@.hint->0;
        let HintState { labels, query, jump_prefix } = hs;
        let (query, jump_prefix) = if jump_prefix.as_str().is_empty() {
            let mut q = chars_of(query.as_str());
            if q.len() > 0 {
                q.pop();
            }
            let shorter = string_from(&q);
            assert(shorter@ =~= if h.query.len() > 0 { h.query.drop_last() } else { h.query });
            (shorter, jump_prefix)
        } else {
            let mut p = chars_of(jump_prefix.as_str());
            p.pop();
            let shorter = string_from(&p);
            assert(shorter@ =~= h.jump_prefix.drop_last());
            (query, shorter)
        };
        self.hint = Some(HintState { labels, query, jump_prefix });
        self.recompute_hint_labels();
        let hits = self.labeled_in();
        let ghost hv = hits@.map_values(|x: usize| x as int);
        assert(hv.len() == hits@.len());
        let reveal = if hits.len() > 0 {
            assert(hv[0] == hits@[0] as int);
            hits[0]
        } else {
            self.cursor
        };
        self.ensure_index_visible(reveal);
    }

    /// What a key does, before the view follows the cursor.
    #[verifier::spinoff_prover]
    #[verifier::rlimit(60)]
    fn key_step(&mut self, key: Key, plan: &LayoutPlan, completes_gg: bool, z_was_pending: bool) -> (action: Action)
        requires
            match key {
                Key::Pin => old(self)@.toggle_pin_ready(),
                Key::Input(ch) => old(self)@.hint is Some ==> old(self)@.hint_input_ready(ch),
                Key::Backspace => old(self)@.hint is Some ==> old(self)@.hint_backspace_ready(),
                _ => true,
            },
        ensures
            (final(self)@, action@) == old(self)@.key_step(key, plan@, completes_gg, z_was_pending),
    {
        let half = if plan.visible_count / 2 > 1 { plan.visible_count / 2 } else { 1 };
        let page = if plan.visible_count > 1 { plan.visible_count } else { 1 };
        match key {
            Key::Left => {
                self.cursor = plan.horizontal_neighbor(self.cursor, -1);
            },
            Key::Right => {
                self.cursor = plan.horizontal_neighbor(self.cursor, 1);
            },
            Key::Up => {
                self.cursor = plan.vertical_neighbor(self.cursor, -1);
            },
            Key::Down => {
                self.cursor = plan.vertical_neighbor(self.cursor, 1);
            },
            Key::HalfPageDown => {
                self.move_cursor_by(half as i128);
            },
            Key::HalfPageUp => {
                self.move_cursor_by(-(half as i128));
            },
            Key::PageDown => {
                self.move_cursor_by(page as i128);
            },
            Key::PageUp => {
                self.move_cursor_by(-(page as i128));
            },
            Key::GoPrefix => {
                if completes_gg {
                    self.pending_g = false;
                    self.cursor = 0;
                } else {
                    self.pending_g = true;
                }
            },
            Key::Last => {
                let n = self.item_count();
                self.cursor = if n > 0 { n - 1 } else { 0 };
            },
            Key::ZPrefix => {
                if z_was_pending {
                    self.pending_z = false;
                    self.align_cursor(ScrollAlignment::Center);
                } else {
                    self.pending_z = true;
                }
            },
            Key::AlignTop => {
                if z_was_pending {
                    self.pending_z = false;
                    self.align_cursor(ScrollAlignment::Top);
                }
            },
            Key::AlignBottom => {
                if z_was_pending {
                    self.pending_z = false;
                    self.align_cursor(ScrollAlignment::Bottom);
                }
            },
            Key::ToggleHelp => {
                self.show_help = true;
            },
            Key::Confirm => {
                let cursor = self.cursor;
                return self.commit_index(cursor);
            },
            Key::PreviousTab => {
                return self.commit_previous();
            },
            Key::Pin => {
                return if self.toggle_pin_at_cursor() {
                    Action::PersistPins
                } else {
                    Action::Noop
                };
            },
            Key::Dismiss => {
                if self.hint.is_some() {
                    self.hint = None;
                    self.reset_cursor_to_active();
                } else if self.drilled_session.is_some() {
                    self.leave_session_board();
                } else {
                    return Action::Dismiss;
                }
            },
            Key::Toggle => {
                return Action::Dismiss;
            },
            Key::StartHint => {
                let n = self.item_count();
                let mut labels: Vec<Option<String>> = Vec::new();
                let mut i: usize = 0;
                while i < n
                    invariant
                        i <= n,
                        labels@.len() == i,
                        forall|j: int| 0 <= j < i ==> (#[trigger] labels@[j]) is None,
                    decreases n - i,
                {
                    labels.push(None);
                    i += 1;
                }
                assert(label_view(labels@) =~= no_labels(n as int));
                self.hint = Some(HintState { labels, query: String::new(), jump_prefix: String::new() });
            },
            Key::Input(ch) => {
                if self.hint.is_some() {
                    return self.apply_hint_input(ch);
                }
            },
            Key::Backspace => {
                if self.hint.is_some() {
                    self.hint_backspace();
                }
            },
        }
        assert(self@ =~= old(self)@.key_step(key, plan@, completes_gg, z_was_pending).0);
        Action::Noop
    }

    /// A key on the board: the new board and what the host should do.
    pub fn decide(&mut self, key: Key) -> (action: Action)
        requires
            old(self)@.decide_ready(key),
        ensures
            (final(self)@, action@) == old(self)@.decide(key),
    {
        if self.show_help {
            if key == Key::ToggleHelp || key == Key::Dismiss {
                self.show_help = false;
            }
            assert(self@ =~= old(self)@.decide(key).0);
            return Action::Noop;
        }
        let plan = self.current_layout_plan();
        let completes_gg = key == Key::GoPrefix && self.pending_g;
        let z_was_pending = self.pending_z;
        if key != Key::GoPrefix {
            self.pending_g = false;
        }
        let keeps_z = match key {
            Key::ZPrefix | Key::AlignTop | Key::AlignBottom => true,
            _ => false,
        };
        if !keeps_z {
            self.pending_z = false;
        }
        assert(self@ =~= old(self)@.clear_prefixes(key));
        let action = self.key_step(key, &plan, completes_gg, z_was_pending);
        let follows = match key {
            Key::Left | Key::Right | Key::Up | Key::Down | Key::HalfPageDown | Key::HalfPageUp | Key::PageDown | Key::PageUp
            | Key::GoPrefix | Key::Last | Key::ZPrefix | Key::AlignTop | Key::AlignBottom | Key::Dismiss => true,
            _ => false,
        };
        if follows {
            let cursor = self.cursor;
            self.ensure_index_visible(cursor);
        }
        action
    }
}


impl Default for Overview {
    fn default() -> (overview: Overview)
        ensures
            overview@ == BoardModel::initial(),
    {
        Overview::new()
    }
}

impl Overview {
    // ------------------------------------------------------------ trials

    fn copy_sessions(sessions: &Vec<SessionFact>) -> (r: Vec<SessionFact>)
        ensures
            sessions_view(r@) == sessions_view(sessions@),
    {
        let mut r: Vec<SessionFact> = Vec::new();
        let mut i: usize = 0;
        while i < sessions.len()
            invariant
                i <= sessions@.len(),
                sessions_view(r@) =~= sessions_view(sessions@).take(i as int),
            decreases sessions@.len() - i,
        {
            let copy = sessions[i].duplicate();
            let ghost before = r@;
            r.push(copy);
            assert(sessions_view(r@) =~= sessions_view(before).push(sessions@[i as int]@));
            i += 1;
        }
        assert(sessions_view(r@) =~= sessions_view(sessions@));
        r
    }

    fn copy_text(text: &Option<String>) -> (r: Option<String>)
        ensures
            opt_string(r) == opt_string(*text),
    {
        match text {
            Some(t) => Some(t.clone()),
            None => None,
        }
    }

    fn copy_hint(hint: &Option<HintState>) -> (r: Option<HintState>)
        ensures
            match (r, *hint) {
                (Some(a), Some(b)) => label_view(a.labels@) == label_view(b.labels@) && a.query@ == b.query@
                    && a.jump_prefix@ == b.jump_prefix@,
                (None, None) => true,
                _ => false,
            },
    {
        match hint {
            Some(h) => {
                let mut labels: Vec<Option<String>> = Vec::new();
                let mut i: usize = 0;
                while i < h.labels.len()
                    invariant
                        i <= h.labels@.len(),
                        label_view(labels@) =~= label_view(h.labels@).take(i as int),
                    decreases h.labels@.len() - i,
                {
                    let copy = Overview::copy_text(&h.labels[i]);
                    let ghost before = labels@;
                    labels.push(copy);
                    assert(label_view(labels@) =~= label_view(before).push(opt_string(h.labels@[i as int])));
                    i += 1;
                }
                assert(label_view(labels@) =~= label_view(h.labels@));
                Some(HintState { labels, query: h.query.clone(), jump_prefix: h.jump_prefix.clone() })
            },
            None => None,
        }
    }

    /// A copy of the board, to try a change on.
    fn duplicate(&self) -> (r: Overview)
        ensures
            r@ == self@,
    {
        let r = Overview {
            tabs: copy_tabs(&self.tabs),
            sessions: Overview::copy_sessions(&self.sessions),
            drilled_session: Overview::copy_text(&self.drilled_session),
            session_last_tabs: self.session_last_tabs.duplicate(),
            pins: copy_pins(&self.pins),
            cursor: self.cursor,
            previous_tab_id: self.previous_tab_id,
            previous_session_name: Overview::copy_text(&self.previous_session_name),
            viewport: self.viewport,
            scroll_offset: self.scroll_offset,
            pending_g: self.pending_g,
            pending_z: self.pending_z,
            show_help: self.show_help,
            hint: Overview::copy_hint(&self.hint),
            stale_cache: self.stale_cache,
        };
        assert(r@ =~= self@);
        r
    }

    /// Whether `apply_tabs(tabs)` finishes: retipping afterwards ends.
    pub fn tabs_would_settle(&self, tabs: &Vec<TabFact>) -> (ready: bool)
        ensures
            ready == self@.with_tabs(tabs@).settle_ready(self@.selected_identity()),
    {
        let selected = self.selected_identity();
        let mut trial = self.duplicate();
        trial.tabs = sort_tabs(copy_tabs(tabs));
        assert(trial@ =~= self@.with_tabs(tabs@));
        trial.prune_stale_cache();
        trial.reseat_cursor(selected);
        trial.labels_ready()
    }

    /// Whether `apply_sessions(sessions)` finishes: retipping afterwards ends.
    pub fn sessions_would_settle(&self, sessions: &Vec<SessionFact>) -> (ready: bool)
        ensures
            ready == self@.with_sessions(sessions_view(sessions@)).settle_ready(self@.selected_identity()),
    {
        let selected = self.selected_identity();
        let mut trial = self.duplicate();
        let sorted = sort_sessions(Overview::copy_sessions(sessions));
        let ghost given = sessions_view(sessions@);
        trial.sessions = sorted;
        let keep = match &trial.drilled_session {
            Some(name) => trial.session_index(name.as_str()).is_some(),
            None => true,
        };
        proof {
            if let Some(name) = self@.drilled {
                lemma_first_where_found(trial@.sessions, session_named(name));
                let sorted_view = sort_sessions_spec(given);
                if exists|i: int| 0 <= i < sorted_view.len() && (#[trigger] sorted_view[i]).name == name {
                    let i = choose|i: int| 0 <= i < sorted_view.len() && (#[trigger] sorted_view[i]).name == name;
                    assert(session_named(name)(trial@.sessions[i]));
                }
            }
        }
        if !keep {
            trial.drilled_session = None;
        }
        assert(trial@ =~= self@.with_sessions(given));
        trial.prune_stale_cache();
        trial.reseat_cursor(selected);
        trial.labels_ready()
    }

    /// The board's part of a session update from the host: with more than
    /// one session reported the list is replaced; with one or none, only the
    /// reported current session is refreshed, and the others stay. Nothing
    /// changes when the new board's retipping would never finish; the
    /// result says whether the board took the update.
    pub fn session_update(&mut self, sessions: Vec<SessionFact>) -> (applied: bool)
        ensures
            ({
                let sv = sessions_view(sessions@);
                let selected = old(self)@.selected_identity();
                if sv.len() > 1 {
                    if old(self)@.with_sessions(sv).settle_ready(selected) {
                        applied && final(self)@ == old(self)@.apply_sessions(sv)
                    } else {
                        !applied && final(self)@ == old(self)@
                    }
                } else {
                    match first_where(sv, is_current_session()) {
                        Some(i) => if old(self)@.with_current_session(sv[i]).settle_ready(selected) {
                            applied && final(self)@ == old(self)@.touch_current_session(sv[i])
                        } else {
                            !applied && final(self)@ == old(self)@
                        },
                        None => !applied && final(self)@ == old(self)@,
                    }
                }
            }),
    {
        let ghost sv = sessions_view(sessions@);
        if sessions.len() > 1 {
            if self.sessions_would_settle(&sessions) {
                self.apply_sessions(sessions);
                return true;
            }
            return false;
        }
        let mut i: usize = 0;
        while i < sessions.len() && !sessions[i].current
            invariant
                i <= sessions@.len(),
                sv == sessions_view(sessions@),
                forall|j: int| 0 <= j < i ==> !is_current_session()(#[trigger] sv[j]),
            decreases sessions@.len() - i,
        {
            assert(sv[i as int] == sessions@[i as int]@);
            i += 1;
        }
        if i < sessions.len() {
            assert(sv[i as int] == sessions@[i as int]@);
        }
        proof {
            lemma_first_where(sv, is_current_session(), i as int);
        }
        if i == sessions.len() {
            return false;
        }
        let current = sessions[i].duplicate();
        if self.touch_would_settle(&current) {
            self.touch_current_session(current);
            return true;
        }
        false
    }

    /// Whether `touch_current_session(session)` finishes.
    pub fn touch_would_settle(&self, session: &SessionFact) -> (ready: bool)
        ensures
            ready == self@.with_current_session(session@).settle_ready(self@.selected_identity()),
    {
        let selected = self.selected_identity();
        let mut trial = self.duplicate();
        trial.sessions = self.touched_sessions(session.duplicate());
        assert(trial@ =~= self@.with_current_session(session@));
        trial.prune_stale_cache();
        trial.reseat_cursor(selected);
        trial.labels_ready()
    }

    /// Whether `apply_pins(pins)` finishes.
    pub fn pins_would_settle(&self, pins: &Vec<Pin>) -> (ready: bool)
        ensures
            ready == self@.with_pins(pins_view(pins@)).settle_ready(self@.selected_identity()),
    {
        let selected = self.selected_identity();
        let mut trial = self.duplicate();
        trial.pins = copy_pins(pins);
        assert(trial@ =~= self@.with_pins(pins_view(pins@)));
        trial.prune_stale_cache();
        trial.reseat_cursor(selected);
        trial.labels_ready()
    }

    /// Replaces the Flash query and tip prefix, keeping the tips.
    fn set_hint_text(&mut self, query: String, jump_prefix: String)
        requires
            old(self)@.hint is Some,
        ensures
            final(self)@ == (BoardModel {
                hint: Some(HintModel { query: query@, jump_prefix: jump_prefix@, ..old(self)@.hint->0 }),
                ..old(self)@
            }),
    {
        let ghost q = query@;
        let ghost p = jump_prefix@;
        if let Some(hs) = self.hint.take() {
            self.hint = Some(HintState { labels: hs.labels, query, jump_prefix });
        }
        assert(self@ =~= (BoardModel {
            hint: Some(HintModel { query: q, jump_prefix: p, ..old(self)@.hint->0 }),
            ..old(self)@
        }));
    }

    /// Whether `decide(key)` finishes: where the key retips, retipping ends.
    pub fn decide_would_finish(&self, key: Key) -> (ready: bool)
        ensures
            ready == self@.decide_ready(key),
    {
        if self.show_help {
            return true;
        }
        let mut trial = self.duplicate();
        if key != Key::GoPrefix {
            trial.pending_g = false;
        }
        let keeps_z = match key {
            Key::ZPrefix | Key::AlignTop | Key::AlignBottom => true,
            _ => false,
        };
        if !keeps_z {
            trial.pending_z = false;
        }
        assert(trial@ =~= self@.clear_prefixes(key));
        match key {
            Key::Pin => {
                let changed = trial.toggle_pin_unlabeled();
                !changed || trial.labels_ready()
            },
            Key::Input(typed) => {
                let (query, _) = match &trial.hint {
                    Some(h) => (h.query.clone(), h.jump_prefix.clone()),
                    None => {
                        return true;
                    },
                };
                let mut chars = chars_of(query.as_str());
                chars.push(to_ascii_lower(typed));
                let extended = string_from(&chars);
                proof {
                    reveal_strlit("");
                }
                trial.set_hint_text(extended, String::new());
                assert(trial@.hint->0.query =~= self@.clear_prefixes(key).hint->0.query.push(ascii_lower(typed)));
                assert(trial@ =~= (BoardModel {
                    hint: Some(HintModel {
                        query: self@.clear_prefixes(key).hint->0.query.push(ascii_lower(typed)),
                        jump_prefix: seq![],
                        ..self@.clear_prefixes(key).hint->0
                    }),
                    ..self@.clear_prefixes(key)
                }));
                trial.labels_ready()
            },
            Key::Backspace => {
                let (query, prefix) = match &trial.hint {
                    Some(h) => (h.query.clone(), h.jump_prefix.clone()),
                    None => {
                        return true;
                    },
                };
                let ghost h = self@.clear_prefixes(key).hint->0;
                if prefix.as_str().is_empty() {
                    let mut q = chars_of(query.as_str());
                    if q.len() > 0 {
                        q.pop();
                    }
                    let shorter = string_from(&q);
                    assert(shorter@ =~= if h.query.len() > 0 { h.query.drop_last() } else { h.query });
                    trial.set_hint_text(shorter, prefix);
                } else {
                    let mut p = chars_of(prefix.as_str());
                    p.pop();
                    let shorter = string_from(&p);
                    assert(shorter@ =~= h.jump_prefix.drop_last());
                    trial.set_hint_text(query, shorter);
                }
                trial.labels_ready()
            },
            _ => true,
        }
    }

    // ------------------------------------------------------------ lookups

    /// The first card titled `title`, within `session` when one is given,
    /// and only among tabs when `tabs_only`.
    pub fn find_item(&self, title: &str, session: Option<&str>, tabs_only: bool) -> (index: Option<usize>)
        ensures
            ({
                let found = first_index(self@.item_count(), self@.titled_card(title@, opt_text(session), tabs_only));
                match index {
                    Some(i) => found == Some(i as int),
                    None => found is None,
                }
            }),
    {
        let slots = self.slots();
        let n = slots.len();
        let ghost p = self@.titled_card(title@, opt_text(session), tabs_only);
        let mut i: usize = 0;
        while i < n
            invariant
                i <= n,
                n == slots@.len(),
                slots@ == self@.slots(),
                p == self@.titled_card(title@, opt_text(session), tabs_only),
                forall|j: int| 0 <= j < i ==> !#[trigger] p(j),
            decreases n - i,
        {
            let titled = match self.item_title_in(&slots, i) {
                Some(t) => str_eq(t, title),
                None => false,
            };
            let belongs = match session {
                Some(s) => match self.item_session_name_in(&slots, i) {
                    Some(owner) => str_eq(owner, s),
                    None => false,
                },
                None => true,
            };
            let kind = !tabs_only || self.tab_at_in(&slots, i).is_some();
            if titled && belongs && kind {
                proof {
                    lemma_first_index(n as int, p, i as int);
                }
                return Some(i);
            }
            i += 1;
        }
        proof {
            lemma_first_index(n as int, p, i as int);
        }
        None
    }

    /// The first tab titled `title`, within `session` when one is given.
    pub fn find_tab(&self, title: &str, session: Option<&str>) -> (index: Option<usize>)
        ensures
            ({
                let found = first_index(self@.item_count(), self@.titled_card(title@, opt_text(session), true));
                match index {
                    Some(i) => found == Some(i as int),
                    None => found is None,
                }
            }),
    {
        self.find_item(title, session, true)
    }
}

} // verus!
