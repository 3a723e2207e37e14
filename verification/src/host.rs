//! The plugin's side of the board without Zellij or the file system: it
//! feeds the board the host's facts and keeps the pin file's contents.

use vstd::prelude::*;
use crate::board::BoardModel;
use crate::facts::{pins_view, sessions_view, Action, ActionModel, Key, Pin, PinModel, SessionFact, TabFact};
use crate::overview::{opt_text, Overview};
use crate::search::{first_index, first_where, lemma_first_where};
use crate::text::{chars_of, string_from};

verus! {

/// The host's state as mathematical values.
#[verifier::ext_equal]
pub struct HostModel {
    pub board: BoardModel,
    /// What the pin file holds.
    pub pins: Seq<PinModel>,
    pub last_action: ActionModel,
    /// The first tab list still has to put the cursor on the active tab.
    pub pending_initial_cursor: bool,
}

impl HostModel {
    /// The stale flags taken: when pins were dropped, the pin file is rewritten.
    pub open spec fn flushed(self) -> HostModel {
        HostModel {
            board: BoardModel { stale: crate::facts::CachePrune::clean(), ..self.board },
            pins: if self.board.stale.pins {
                self.board.pins
            } else {
                self.pins
            },
            ..self
        }
    }

    /// A key pressed on the board; a pin change is written to the pin file.
    pub open spec fn key(self, key: Key) -> HostModel {
        let (board, action) = self.board.decide(key);
        HostModel {
            board,
            pins: if action is PersistPins {
                board.pins
            } else {
                self.pins
            },
            last_action: action,
            ..self
        }.flushed()
    }

    /// A tab list from the host; the first one puts the cursor on the active tab.
    pub open spec fn apply_tabs(self, tabs: Seq<TabFact>) -> HostModel {
        let board = self.board.apply_tabs(tabs);
        HostModel {
            board: if self.pending_initial_cursor {
                board.reset_cursor()
            } else {
                board
            },
            pending_initial_cursor: false,
            ..self
        }.flushed()
    }

    pub open spec fn apply_sessions(self, sessions: Seq<crate::facts::SessionModel>) -> HostModel {
        HostModel { board: self.board.apply_sessions(sessions), ..self }.flushed()
    }

    /// Opening the plugin: a fresh board, the session snapshot, then the pin file.
    pub open spec fn load_from_snapshot(self, sessions: Seq<crate::facts::SessionModel>) -> HostModel {
        HostModel {
            board: BoardModel::initial().apply_sessions(sessions).apply_pins(self.pins).pruned(),
            pending_initial_cursor: true,
            ..self
        }.flushed()
    }
}

impl HostModel {
    /// Selecting the card `spec` names: the board with the cursor on it, or
    /// the message when there is none.
    pub open spec fn focus_result(self, spec: Seq<char>) -> (HostModel, Result<(), Seq<char>>) {
        let (session, title) = split_spec(spec);
        match first_index(self.board.item_count(), self.board.titled_card(title, session, false)) {
            Some(i) => (HostModel { board: BoardModel { cursor: i as usize, ..self.board }, ..self }, Ok(())),
            None => (self, Err("no card "@ + spec)),
        }
    }

    /// Selecting the tab `spec` names and pressing `p`: the pin change, or
    /// the message when there is no such tab, its tips could not be
    /// formed, or nothing was pinned.
    pub open spec fn pin_result(self, spec: Seq<char>) -> (HostModel, Result<ActionModel, Seq<char>>) {
        let (session, title) = split_spec(spec);
        match first_index(self.board.item_count(), self.board.titled_card(title, session, true)) {
            Some(i) => {
                let moved = HostModel { board: BoardModel { cursor: i as usize, ..self.board }, ..self };
                if !moved.board.decide_ready(Key::Pin) {
                    (moved, Err("tips cannot be formed after pinning "@ + spec))
                } else if moved.board.decide(Key::Pin).1 == ActionModel::PersistPins {
                    (moved.key(Key::Pin), Ok(ActionModel::PersistPins))
                } else {
                    (moved.key(Key::Pin), Err("pin "@ + spec + " did nothing"@))
                }
            },
            None => (self, Err("no tab "@ + spec)),
        }
    }
}

pub open spec fn unit_result_view(r: Result<(), String>) -> Result<(), Seq<char>> {
    match r {
        Ok(()) => Ok(()),
        Err(m) => Err(m@),
    }
}

pub open spec fn action_result_view(r: Result<Action, String>) -> Result<ActionModel, Seq<char>> {
    match r {
        Ok(a) => Ok(a@),
        Err(m) => Err(m@),
    }
}

/// `session/title` split at its first `/`; without one, just a title.
pub open spec fn split_spec(spec: Seq<char>) -> (Option<Seq<char>>, Seq<char>) {
    match first_where(spec, is_slash()) {
        Some(k) => (Some(spec.take(k)), spec.skip(k + 1)),
        None => (None, spec),
    }
}

pub open spec fn is_slash() -> spec_fn(char) -> bool {
    |c: char| c == '/'
}

/// Splits `session/title` at its first `/`.
pub fn split_card_spec(spec: &str) -> (parts: (Option<String>, String))
    ensures
        opt_string_view(parts.0) == split_spec(spec@).0,
        parts.1@ == split_spec(spec@).1,
{
    let chars = chars_of(spec);
    let mut k: usize = 0;
    while k < chars.len() && chars[k] != '/'
        invariant
            k <= chars@.len(),
            chars@ == spec@,
            forall|j: int| 0 <= j < k ==> !is_slash()(#[trigger] chars@[j]),
        decreases chars@.len() - k,
    {
        k += 1;
    }
    proof {
        lemma_first_where(spec@, is_slash(), k as int);
    }
    if k == chars.len() {
        return (None, string_from(&chars));
    }
    let mut session: Vec<char> = Vec::new();
    let mut i: usize = 0;
    while i < k
        invariant
            i <= k < chars@.len(),
            session@ =~= chars@.take(i as int),
        decreases k - i,
    {
        session.push(chars[i]);
        i += 1;
    }
    let mut title: Vec<char> = Vec::new();
    let mut j: usize = k + 1;
    while j < chars.len()
        invariant
            k + 1 <= j <= chars@.len(),
            title@ =~= chars@.subrange(k + 1, j as int),
        decreases chars@.len() - j,
    {
        title.push(chars[j]);
        j += 1;
    }
    assert(title@ =~= spec@.skip(k + 1));
    (Some(string_from(&session)), string_from(&title))
}

pub open spec fn opt_string_view(o: Option<String>) -> Option<Seq<char>> {
    match o {
        Some(s) => Some(s@),
        None => None,
    }
}

/// `words` joined into one text.
fn message(words: &str, spec: &str) -> (text: String)
    ensures
        text@ == words@ + spec@,
{
    let mut chars = chars_of(words);
    let rest = chars_of(spec);
    let mut i: usize = 0;
    let ghost start = chars@;
    while i < rest.len()
        invariant
            i <= rest@.len(),
            start == words@,
            rest@ == spec@,
            chars@ =~= start + rest@.take(i as int),
        decreases rest@.len() - i,
    {
        chars.push(rest[i]);
        i += 1;
    }
    assert(rest@.take(rest@.len() as int) =~= rest@);
    string_from(&chars)
}

/// Board ingest and pin persistence, as the plugin does them.
#[derive(Debug)]
pub struct Host {
    pub overview: Overview,
    pins: Vec<Pin>,
    last_action: Action,
    pending_initial_cursor: bool,
}

impl View for Host {
    type V = HostModel;

    closed spec fn view(&self) -> HostModel {
        HostModel {
            board: self.overview@,
            pins: pins_view(self.pins@),
            last_action: self.last_action@,
            pending_initial_cursor: self.pending_initial_cursor,
        }
    }
}

impl Host {
    pub fn new() -> (host: Host)
        ensures
            host@ == (HostModel {
                board: BoardModel::initial(),
                pins: seq![],
                last_action: ActionModel::Noop,
                pending_initial_cursor: true,
            }),
    {
        let host = Host { overview: Overview::new(), pins: Vec::new(), last_action: Action::Noop, pending_initial_cursor: true };
        assert(host@ =~= (HostModel {
            board: BoardModel::initial(),
            pins: seq![],
            last_action: ActionModel::Noop,
            pending_initial_cursor: true,
        }));
        host
    }

    /// The board.
    pub fn overview(&self) -> (overview: &Overview)
        ensures
            overview@ == self@.board,
    {
        &self.overview
    }

    /// The terminal size the board lays out in.
    pub fn set_viewport(&mut self, rows: usize, cols: usize)
        ensures
            final(self)@ == (HostModel {
                board: (BoardModel { viewport: Some((rows, cols)), ..old(self)@.board }).ensure_visible(old(self)@.board.cursor as int),
                ..old(self)@
            }),
    {
        self.overview.set_viewport(rows, cols);
        assert(self@ =~= (HostModel {
            board: (BoardModel { viewport: Some((rows, cols)), ..old(self)@.board }).ensure_visible(old(self)@.board.cursor as int),
            ..old(self)@
        }));
    }

    /// The session the user left, as the board's `-` sees it.
    pub fn set_previous_session_name(&mut self, name: String)
        ensures
            final(self)@ == (HostModel {
                board: BoardModel { previous_session: if name@.len() == 0 { None } else { Some(name@) }, ..old(self)@.board },
                ..old(self)@
            }),
    {
        let ghost given = name@;
        self.overview.set_previous_session_name(Some(name));
        assert(self@ =~= (HostModel {
            board: BoardModel { previous_session: if given.len() == 0 { None } else { Some(given) }, ..old(self)@.board },
            ..old(self)@
        }));
    }

    /// The last tab seen in `session`.
    pub fn set_session_last_tab(&mut self, session: String, position: usize)
        ensures
            final(self)@ == (HostModel {
                board: BoardModel { last_tabs: old(self)@.board.last_tabs.insert(session@, position), ..old(self)@.board },
                ..old(self)@
            }),
    {
        let ghost name = session@;
        self.overview.set_session_last_tab(session, position);
        assert(self@ =~= (HostModel {
            board: BoardModel { last_tabs: old(self)@.board.last_tabs.insert(name, position), ..old(self)@.board },
            ..old(self)@
        }));
    }

    /// The tab the host says was focused before.
    pub fn set_previous_tab_id(&mut self, tab_id: usize)
        ensures
            final(self)@ == (HostModel {
                board: BoardModel { previous_tab_id: Some(tab_id), ..old(self)@.board },
                ..old(self)@
            }),
    {
        self.overview.set_previous_tab_id(Some(tab_id));
        assert(self@ =~= (HostModel {
            board: BoardModel { previous_tab_id: Some(tab_id), ..old(self)@.board },
            ..old(self)@
        }));
    }

    /// What the pin file holds.
    pub fn persisted_pins(&self) -> (pins: &[Pin])
        ensures
            pins_view(pins@) == self@.pins,
    {
        self.pins.as_slice()
    }

    pub fn last_action(&self) -> (action: &Action)
        ensures
            action@ == self@.last_action,
    {
        &self.last_action
    }

    /// The title of the card under the cursor.
    pub fn focused_title(&self) -> (title: Option<&str>)
        ensures
            opt_text(title) == self@.board.item_title(self@.board.cursor as int),
    {
        self.overview.item_title(self.overview.cursor())
    }

    fn flush_pins(&mut self)
        ensures
            final(self)@ == old(self)@.flushed(),
    {
        let stale = self.overview.take_stale_cache();
        if stale.pins {
            self.pins = self.overview.pins_copy();
        }
        assert(self@ =~= old(self)@.flushed());
    }

    /// Opening the plugin: a fresh board, the session snapshot, then the
    /// pins from the pin file, which pruning may shorten.
    pub fn load_from_snapshot(&mut self, sessions: Vec<SessionFact>)
        ensures
            final(self)@ == old(self)@.load_from_snapshot(sessions_view(sessions@)),
    {
        let ghost given = sessions_view(sessions@);
        self.overview = Overview::new();
        self.pending_initial_cursor = true;
        self.overview.apply_sessions(sessions);
        let pins = copy_pin_list(&self.pins);
        self.overview.apply_pins(pins);
        self.overview.prune_stale_cache();
        assert(self@ =~= (HostModel {
            board: BoardModel::initial().apply_sessions(given).apply_pins(old(self)@.pins).pruned(),
            pending_initial_cursor: true,
            ..old(self)@
        }));
        self.flush_pins();
    }

    /// Selects the card `spec` names (`title` or `session/title`).
    pub fn focus(&mut self, spec: &str) -> (r: Result<(), String>)
        ensures
            (final(self)@, unit_result_view(r)) == old(self)@.focus_result(spec@),
    {
        let (session, title) = split_card_spec(spec);
        let found = match &session {
            Some(s) => self.overview.find_item(title.as_str(), Some(s.as_str()), false),
            None => self.overview.find_item(title.as_str(), None, false),
        };
        match found {
            Some(index) => {
                self.overview.set_cursor(index);
                assert(self@ =~= (HostModel { board: BoardModel { cursor: index, ..old(self)@.board }, ..old(self)@ }));
                Ok(())
            },
            None => Err(message("no card ", spec)),
        }
    }

    /// `e` on the focused card.
    pub fn jump(&mut self) -> (action: Action)
        ensures
            final(self)@ == old(self)@.key(Key::Confirm),
            action@ == old(self)@.board.decide(Key::Confirm).1,
    {
        self.key(Key::Confirm)
    }

    /// Selects the tab `spec` names and presses `p`.
    #[verifier::spinoff_prover]
    #[verifier::rlimit(40)]
    pub fn pin(&mut self, spec: &str) -> (r: Result<Action, String>)
        ensures
            (final(self)@, action_result_view(r)) == old(self)@.pin_result(spec@),
    {
        let (session, title) = split_card_spec(spec);
        let found = match &session {
            Some(s) => self.overview.find_tab(title.as_str(), Some(s.as_str())),
            None => self.overview.find_tab(title.as_str(), None),
        };
        let index = match found {
            Some(index) => index,
            None => {
                return Err(message("no tab ", spec));
            },
        };
        self.overview.set_cursor(index);
        assert(self@ =~= (HostModel { board: BoardModel { cursor: index, ..old(self)@.board }, ..old(self)@ }));
        if !self.overview.decide_would_finish(Key::Pin) {
            return Err(message("tips cannot be formed after pinning ", spec));
        }
        let action = self.key(Key::Pin);
        match action {
            Action::PersistPins => Ok(action),
            _ => {
                let mut text = chars_of("pin ");
                crate::text::append_text(&mut text, spec);
                crate::text::append_text(&mut text, " did nothing");
                Err(string_from(&text))
            },
        }
    }

    /// The current session's tabs from the host.
    pub fn apply_tabs(&mut self, tabs: Vec<TabFact>)
        requires
            old(self)@.board.with_tabs(tabs@).settle_ready(old(self)@.board.selected_identity()),
        ensures
            final(self)@ == old(self)@.apply_tabs(tabs@),
    {
        let ghost given = tabs@;
        self.overview.apply_tabs(tabs);
        if self.pending_initial_cursor {
            self.overview.reset_cursor_to_active();
        }
        self.pending_initial_cursor = false;
        assert(self@ =~= (HostModel {
            board: if old(self)@.pending_initial_cursor {
                old(self)@.board.apply_tabs(given).reset_cursor()
            } else {
                old(self)@.board.apply_tabs(given)
            },
            pending_initial_cursor: false,
            ..old(self)@
        }));
        self.flush_pins();
    }

    /// The live sessions from the host.
    pub fn apply_sessions(&mut self, sessions: Vec<SessionFact>)
        requires
            old(self)@.board.with_sessions(sessions_view(sessions@)).settle_ready(old(self)@.board.selected_identity()),
        ensures
            final(self)@ == old(self)@.apply_sessions(sessions_view(sessions@)),
    {
        let ghost given = sessions_view(sessions@);
        self.overview.apply_sessions(sessions);
        assert(self@ =~= (HostModel { board: old(self)@.board.apply_sessions(given), ..old(self)@ }));
        self.flush_pins();
    }

    /// A key on the board; a pin change is written to the pin file.
    pub fn key(&mut self, key: Key) -> (action: Action)
        requires
            old(self)@.board.decide_ready(key),
        ensures
            final(self)@ == old(self)@.key(key),
            action@ == old(self)@.board.decide(key).1,
    {
        let action = self.overview.decide(key);
        self.last_action = action.duplicate();
        let persist = match action {
            Action::PersistPins => true,
            _ => false,
        };
        if persist {
            self.pins = self.overview.pins_copy();
        }
        assert(self@ =~= (HostModel {
            board: old(self)@.board.decide(key).0,
            pins: if old(self)@.board.decide(key).1 is PersistPins {
                old(self)@.board.decide(key).0.pins
            } else {
                old(self)@.pins
            },
            last_action: old(self)@.board.decide(key).1,
            ..old(self)@
        }));
        self.flush_pins();
        action
    }
}

impl Default for Host {
    fn default() -> (host: Host)
        ensures
            host@ == (HostModel {
                board: BoardModel::initial(),
                pins: seq![],
                last_action: ActionModel::Noop,
                pending_initial_cursor: true,
            }),
    {
        Host::new()
    }
}

/// A copy of the pin list.
fn copy_pin_list(pins: &Vec<Pin>) -> (r: Vec<Pin>)
    ensures
        pins_view(r@) == pins_view(pins@),
{
    crate::facts::copy_pins(pins)
}

} // verus!
