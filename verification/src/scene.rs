//! Board scenes: a line-oriented script that feeds the host facts and keys
//! and checks what the board then shows. Each line is one verb and its
//! words; `screen` asks the caller to paint the board and look for text.

use vstd::prelude::*;
use crate::board::BoardModel;
use crate::facts::{pins_view, sessions_view, Action, ActionModel, Key, Pin, PinModel, SessionFact, SessionModel, TabFact};
use crate::overview::{opt_text, Overview};
use crate::host::{split_card_spec, split_spec, Host, HostModel};
use crate::search::first_where;
use crate::text::{append_text, chars_of, debug_quote, debug_text, push_decimal, str_eq, decimal, parse_unsigned, parse_unsigned_exec, slice_chars, string_from, strings_view, trim, words_of};

verus! {

/// Why a scene failed, and on which line.
#[derive(Debug)]
pub struct SceneError {
    pub line: usize,
    pub message: String,
}

/// A parsed value, or the message saying why it could not be parsed.
pub enum Parsed<T> {
    Value(T),
    Fail(Seq<char>),
}

/// The word at `i`, if there is one.
pub open spec fn arg(args: Seq<Seq<char>>, i: int) -> Option<Seq<char>> {
    if 0 <= i < args.len() {
        Some(args[i])
    } else {
        None
    }
}

/// A `usize` word, or `need <what>`.
pub open spec fn usize_arg(raw: Option<Seq<char>>, what: Seq<char>) -> Parsed<usize> {
    match raw {
        Some(w) => match parse_unsigned(w, usize::MAX as nat) {
            Some(v) => Parsed::Value(v as usize),
            None => Parsed::Fail("need "@ + what),
        },
        None => Parsed::Fail("need "@ + what),
    }
}

/// The value of a number word, if it is one.
pub open spec fn number(w: Seq<char>) -> Option<usize> {
    match parse_unsigned(w, usize::MAX as nat) {
        Some(v) => Some(v as usize),
        None => None,
    }
}

// ---------------------------------------------------------------- tab words

/// What a tab word describes.
pub struct TabToken {
    pub id: usize,
    pub position: usize,
    pub name: Seq<char>,
    pub active: bool,
}

pub open spec fn tab_is(t: TabFact, k: TabToken) -> bool {
    t.id == k.id && t.position == k.position && t.name@ == k.name && t.active == k.active
}

pub open spec fn tabs_are(tabs: Seq<TabFact>, tokens: Seq<TabToken>) -> bool {
    tabs.len() == tokens.len() && forall|i: int| 0 <= i < tabs.len() ==> tab_is(#[trigger] tabs[i], tokens[i])
}

/// `t` without its trailing `*`s.
pub open spec fn strip_stars(t: Seq<char>) -> Seq<char>
    decreases t.len(),
{
    if t.len() > 0 && t.last() == '*' {
        strip_stars(t.drop_last())
    } else {
        t
    }
}

pub open spec fn is_colon() -> spec_fn(char) -> bool {
    |c: char| c == ':'
}

/// A tab word: `name`, `name*` for the active tab, `id=N:name` for a given
/// id (an id that is no number keeps `default_id`).
pub open spec fn tab_token(default_id: usize, position: usize, token: Seq<char>) -> TabToken {
    let active = token.len() > 0 && token.last() == '*';
    let t = strip_stars(token);
    let id_prefix = seq!['i', 'd', '='];
    let (id, name) = if id_prefix.is_prefix_of(t) {
        let rest = t.skip(3);
        match first_where(rest, is_colon()) {
            Some(k) => (
                match number(rest.take(k)) {
                    Some(v) => v,
                    None => default_id,
                },
                rest.skip(k + 1),
            ),
            None => (default_id, rest),
        }
    } else {
        (default_id, t)
    };
    TabToken { id, position, name, active }
}

/// `tabs a b* c`: each word a tab at its position, id its position.
pub open spec fn tabs_tokens(args: Seq<Seq<char>>) -> Parsed<Seq<TabToken>> {
    if args.len() == 0 {
        Parsed::Fail("tabs needs at least one name"@)
    } else {
        Parsed::Value(Seq::new(args.len(), |p: int| tab_token(p as usize, p as usize, args[p])))
    }
}

// ---------------------------------------------------------------- session words

/// What a session line describes.
pub struct SessionToken {
    pub name: Seq<char>,
    pub current: bool,
    pub tab_count: usize,
    pub tabs: Seq<TabToken>,
}

pub open spec fn session_is(s: SessionModel, k: SessionToken) -> bool {
    s.name == k.name && s.current == k.current && s.tab_count == k.tab_count && tabs_are(s.tabs, k.tabs)
}

pub open spec fn count_prefix() -> Seq<char> {
    seq!['c', 'o', 'u', 'n', 't', '=']
}

/// `count=N`: the number.
pub open spec fn count_value(w: Seq<char>) -> Option<usize> {
    if count_prefix().is_prefix_of(w) {
        number(w.skip(6))
    } else {
        None
    }
}

/// The first `count=N` among the first `n` words.
pub open spec fn first_count(args: Seq<Seq<char>>, n: int) -> Option<usize>
    decreases n,
{
    if n <= 0 {
        None
    } else {
        match first_count(args, n - 1) {
            Some(v) => Some(v),
            None => count_value(args[n - 1]),
        }
    }
}

pub open spec fn is_tab_word(w: Seq<char>) -> bool {
    w != "current"@ && !count_prefix().is_prefix_of(w)
}

/// The tab words among words `1..n`.
pub open spec fn tab_words(args: Seq<Seq<char>>, n: int) -> Seq<Seq<char>>
    decreases n,
{
    if n <= 1 {
        seq![]
    } else {
        tab_words(args, n - 1) + if is_tab_word(args[n - 1]) {
            seq![args[n - 1]]
        } else {
            seq![]
        }
    }
}

pub open spec fn sat_add(a: int, b: int) -> usize {
    if a + b > usize::MAX {
        usize::MAX
    } else {
        (a + b) as usize
    }
}

/// `session name [current] [count=N] tab...`: tab ids count from 100.
pub open spec fn session_token(args: Seq<Seq<char>>) -> Parsed<SessionToken> {
    if args.len() == 0 {
        Parsed::Fail("session needs a name"@)
    } else {
        let words = tab_words(args, args.len() as int);
        let tabs = Seq::new(words.len(), |p: int| tab_token(sat_add(100, p), p as usize, words[p]));
        Parsed::Value(
            SessionToken {
                name: args[0],
                current: args.contains("current"@),
                tab_count: match first_count(args, args.len() as int) {
                    Some(c) => c,
                    None => tabs.len() as usize,
                },
                tabs,
            },
        )
    }
}

// ---------------------------------------------------------------- card, key, action

/// `title` or `session tab` (as `session/tab`).
pub open spec fn card_spec_of(args: Seq<Seq<char>>, verb: Seq<char>) -> Parsed<Seq<char>> {
    if args.len() == 1 {
        Parsed::Value(args[0])
    } else if args.len() == 2 {
        Parsed::Value(args[0] + seq!['/'] + args[1])
    } else {
        Parsed::Fail(verb + " wants a title (or session/tab)"@)
    }
}

pub open spec fn key_of(args: Seq<Seq<char>>) -> Parsed<Key> {
    match arg(args, 0) {
        None => Parsed::Fail("key needs a name"@),
        Some(k) => if k == "s"@ {
            Parsed::Value(Key::StartHint)
        } else if k == "e"@ || k == "enter"@ {
            Parsed::Value(Key::Confirm)
        } else if k == "esc"@ || k == "q"@ {
            Parsed::Value(Key::Dismiss)
        } else if k == "p"@ {
            Parsed::Value(Key::Pin)
        } else if k == "-"@ {
            Parsed::Value(Key::PreviousTab)
        } else if k == "h"@ || k == "left"@ {
            Parsed::Value(Key::Left)
        } else if k == "j"@ || k == "down"@ {
            Parsed::Value(Key::Down)
        } else if k == "k"@ || k == "up"@ {
            Parsed::Value(Key::Up)
        } else if k == "l"@ || k == "right"@ {
            Parsed::Value(Key::Right)
        } else if k == "g"@ {
            Parsed::Value(Key::GoPrefix)
        } else if k == "G"@ {
            Parsed::Value(Key::Last)
        } else if k == "?"@ {
            Parsed::Value(Key::ToggleHelp)
        } else if k == "backspace"@ {
            Parsed::Value(Key::Backspace)
        } else if k == "input"@ {
            match arg(args, 1) {
                Some(w) => if w.len() > 0 {
                    Parsed::Value(Key::Input(w[0]))
                } else {
                    Parsed::Fail("key input needs a character"@)
                },
                None => Parsed::Fail("key input needs a character"@),
            }
        } else {
            Parsed::Fail("unknown key "@ + k)
        },
    }
}

pub open spec fn action_of(args: Seq<Seq<char>>) -> Parsed<ActionModel> {
    match arg(args, 0) {
        None => Parsed::Fail("action needs a name"@),
        Some(a) => if a == "none"@ {
            Parsed::Value(ActionModel::Noop)
        } else if a == "dismiss"@ {
            Parsed::Value(ActionModel::Dismiss)
        } else if a == "commit"@ {
            match usize_arg(arg(args, 1), "tab"@) {
                Parsed::Value(v) => Parsed::Value(ActionModel::Commit { tab_index: v as u32 }),
                Parsed::Fail(m) => Parsed::Fail(m),
            }
        } else if a == "persist-pins"@ {
            Parsed::Value(ActionModel::PersistPins)
        } else if a == "switch"@ {
            match arg(args, 1) {
                None => Parsed::Fail("action switch needs a session"@),
                Some(name) => Parsed::Value(
                    ActionModel::SwitchSession {
                        name,
                        tab_position: match arg(args, 2) {
                            Some(w) => number(w),
                            None => None,
                        },
                    },
                ),
            }
        } else {
            Parsed::Fail("unknown action "@ + a)
        },
    }
}

// ---------------------------------------------------------------- texts in messages

/// A text as `{:?}` writes it.
pub open spec fn quote(t: Seq<char>) -> Seq<char> {
    debug_text(t)
}

/// Items joined by `, ` in brackets.
pub open spec fn list_items(items: Seq<Seq<char>>, n: int) -> Seq<char>
    decreases n,
{
    if n <= 0 {
        seq![]
    } else if n == 1 {
        items[0]
    } else {
        list_items(items, n - 1) + ", "@ + items[n - 1]
    }
}

pub open spec fn list_text(items: Seq<Seq<char>>) -> Seq<char> {
    seq!['['] + list_items(items, items.len() as int) + seq![']']
}

pub open spec fn quoted(items: Seq<Seq<char>>) -> Seq<Seq<char>> {
    Seq::new(items.len(), |i: int| quote(items[i]))
}

/// A pin as `{:?}` writes it.
pub open spec fn pin_text(pin: PinModel) -> Seq<char> {
    "Pin { session: "@ + quote(pin.session) + ", tab_name: "@ + quote(pin.tab_name) + " }"@
}

/// A list of pins as `{:?}` writes it.
pub open spec fn pins_text(pins: Seq<PinModel>) -> Seq<char> {
    list_text(Seq::new(pins.len(), |i: int| pin_text(pins[i])))
}

pub open spec fn option_text(o: Option<Seq<char>>) -> Seq<char> {
    match o {
        Some(t) => "Some("@ + quote(t) + seq![')'],
        None => "None"@,
    }
}

pub open spec fn action_text(a: ActionModel) -> Seq<char> {
    match a {
        ActionModel::Noop => "None"@,
        ActionModel::Dismiss => "Dismiss"@,
        ActionModel::Commit { tab_index } => "Commit { tab_index: "@ + decimal(tab_index as nat) + " }"@,
        ActionModel::PreviousTab => "PreviousTab"@,
        ActionModel::SwitchSession { name, tab_position } => "SwitchSession { name: "@ + quote(name) + ", tab_position: "@
            + match tab_position {
            Some(p) => "Some("@ + decimal(p as nat) + seq![')'],
            None => "None"@,
        } + " }"@,
        ActionModel::PersistPins => "PersistPins"@,
    }
}

// ---------------------------------------------------------------- expectations

/// Where the piece starting at `start` ends: at the next comma, or the end.
pub open spec fn comma_end(w: Seq<char>, start: int) -> int
    decreases w.len() - start,
{
    if start < 0 || start >= w.len() {
        w.len() as int
    } else if w[start] == ',' {
        start
    } else {
        comma_end(w, start + 1)
    }
}

/// The nonempty pieces of `w` between commas, from `start` on.
pub open spec fn fields_from(w: Seq<char>, start: int) -> Seq<Seq<char>>
    decreases w.len() - start,
{
    if start < 0 || start >= w.len() {
        seq![]
    } else {
        let e = comma_end(w, start);
        if e < start || e > w.len() {
            seq![]
        } else {
            let piece = if e > start {
                seq![w.subrange(start, e)]
            } else {
                seq![]
            };
            if e >= w.len() {
                piece
            } else {
                piece + fields_from(w, e + 1)
            }
        }
    }
}

/// Every word's comma-separated pieces, empty ones left out.
pub open spec fn all_fields(args: Seq<Seq<char>>, n: int) -> Seq<Seq<char>>
    decreases n,
{
    if n <= 0 {
        seq![]
    } else {
        all_fields(args, n - 1) + fields_from(args[n - 1], 0)
    }
}

/// The titles of the first `n` cards.
pub open spec fn titles_upto(board: BoardModel, n: int) -> Seq<Seq<char>>
    decreases n,
{
    if n <= 0 {
        seq![]
    } else {
        titles_upto(board, n - 1) + match board.item_title(n - 1) {
            Some(t) => seq![t],
            None => seq![],
        }
    }
}

/// The titles of the first `n` cards that `-` goes to.
pub open spec fn previous_upto(board: BoardModel, n: int) -> Seq<Seq<char>>
    decreases n,
{
    if n <= 0 {
        seq![]
    } else {
        previous_upto(board, n - 1) + if board.is_previous_item(n - 1) {
            match board.item_title(n - 1) {
                Some(t) => seq![t],
                None => seq![],
            }
        } else {
            seq![]
        }
    }
}

pub open spec fn pin_word(w: Seq<char>) -> Option<PinModel> {
    match first_where(w, crate::host::is_slash()) {
        Some(k) => Some(PinModel { session: w.take(k), tab_name: w.skip(k + 1) }),
        None => None,
    }
}

/// `pins none` or `pins session/tab...`.
pub open spec fn expected_pins(args: Seq<Seq<char>>) -> Parsed<Seq<PinModel>> {
    if arg(args, 0) == Some("none"@) {
        Parsed::Value(seq![])
    } else if exists|i: int| 0 <= i < args.len() && #[trigger] pin_word(args[i]) is None {
        Parsed::Fail("pins want session/tab"@)
    } else {
        Parsed::Value(Seq::new(args.len(), |i: int| pin_word(args[i])->0))
    }
}

/// What failed in an expectation line, or `None` when it holds.
pub open spec fn expectation(f: SceneModel, verb: Seq<char>, args: Seq<Seq<char>>) -> Option<Seq<char>> {
    let board = f.host.board;
    if verb == "pins"@ {
        match expected_pins(args) {
            Parsed::Fail(m) => Some(m),
            Parsed::Value(expected) => if f.host.pins == expected {
                None
            } else {
                Some("pins "@ + pins_text(f.host.pins) + " != "@ + pins_text(expected))
            },
        }
    } else if verb == "titles"@ {
        let expected = all_fields(args, args.len() as int);
        let actual = titles_upto(board, board.item_count());
        if actual == expected {
            None
        } else {
            Some("titles "@ + list_text(quoted(actual)) + " != "@ + list_text(quoted(expected)))
        }
    } else if verb == "focused"@ {
        match card_spec_of(args, "focused"@) {
            Parsed::Fail(m) => Some(m),
            Parsed::Value(spec) => {
                let (session, title) = split_spec(spec);
                let actual = match board.item_title(board.cursor as int) {
                    Some(t) => t,
                    None => seq![],
                };
                if actual != title {
                    Some("focused "@ + quote(actual) + " != "@ + quote(title))
                } else {
                    match session {
                        Some(s) => {
                            let got = board.item_session_name(board.cursor as int);
                            if got != Some(s) {
                                Some("focused session "@ + option_text(got) + " != "@ + quote(s))
                            } else {
                                None
                            }
                        },
                        None => None,
                    }
                }
            },
        }
    } else if verb == "viewing"@ {
        let expected = match arg(args, 0) {
            Some(w) => w,
            None => "none"@,
        };
        let actual = match board.drilled {
            Some(name) => name,
            None => "none"@,
        };
        if actual == expected {
            None
        } else {
            Some("viewing "@ + quote(actual) + " != "@ + quote(expected))
        }
    } else if verb == "previous"@ {
        let marks = previous_upto(board, board.item_count());
        if arg(args, 0) == Some("none"@) {
            if marks.len() > 0 {
                Some("previous "@ + list_text(quoted(marks)) + " != none"@)
            } else {
                None
            }
        } else {
            let expected = all_fields(args, args.len() as int);
            if marks == expected {
                None
            } else {
                Some("previous "@ + list_text(quoted(marks)) + " != "@ + list_text(quoted(expected)))
            }
        }
    } else {
        match action_of(args) {
            Parsed::Fail(m) => Some(m),
            Parsed::Value(expected) => if f.last_action == expected {
                None
            } else {
                Some("action "@ + action_text(f.last_action) + " != "@ + action_text(expected))
            },
        }
    }
}

pub open spec fn is_expectation(verb: Seq<char>) -> bool {
    verb == "pins"@ || verb == "titles"@ || verb == "focused"@ || verb == "viewing"@ || verb == "previous"@ || verb == "action"@
}

// ---------------------------------------------------------------- the scene's state

/// The scene runner's state as plain values.
#[verifier::ext_equal]
pub struct SceneModel {
    pub host: HostModel,
    /// The terminal size `screen` paints at.
    pub rows: usize,
    pub cols: usize,
    pub last_action: ActionModel,
    /// Session lines read but not yet handed to the host.
    pub pending: Seq<SessionModel>,
    /// The pending sessions are an opening snapshot.
    pub in_snapshot: bool,
}

/// What a line asks of the caller.
pub enum StepModel {
    Next,
    Screen { rows: usize, cols: usize, needle: Seq<char> },
}

/// The words joined by single spaces.
pub open spec fn joined_words(args: Seq<Seq<char>>, n: int) -> Seq<char>
    decreases n,
{
    if n <= 0 {
        seq![]
    } else if n == 1 {
        args[0]
    } else {
        joined_words(args, n - 1) + seq![' '] + args[n - 1]
    }
}

/// A line's verb and its words; `None` for a blank line or a `#` comment.
pub open spec fn line_parts(raw: Seq<char>) -> Option<(Seq<char>, Seq<Seq<char>>)> {
    let line = trim(raw);
    if line.len() == 0 || line[0] == '#' {
        None
    } else {
        let words = words_of(line);
        if words.len() > 0 {
            Some((words[0], words.drop_first()))
        } else {
            Some((seq![], seq![]))
        }
    }
}

impl SceneModel {
    /// Session lines end at the next other line: they go to the host as an
    /// opening snapshot or as a session update.
    pub open spec fn flushed(self) -> Option<SceneModel> {
        if self.pending.len() == 0 {
            Some(SceneModel { in_snapshot: false, ..self })
        } else if self.in_snapshot {
            Some(SceneModel { host: self.host.load_from_snapshot(self.pending), pending: seq![], in_snapshot: false, ..self })
        } else if self.host.board.with_sessions(self.pending).settle_ready(self.host.board.selected_identity()) {
            Some(SceneModel { host: self.host.apply_sessions(self.pending), pending: seq![], in_snapshot: false, ..self })
        } else {
            None
        }
    }

    pub open spec fn with_board(self, board: BoardModel) -> SceneModel {
        SceneModel { host: HostModel { board, ..self.host }, ..self }
    }

    /// A verb line other than `session`, once session lines are flushed.
    #[verifier::opaque]
    pub open spec fn verb_step(self, verb: Seq<char>, args: Seq<Seq<char>>, next: SceneModel, r: Result<StepModel, Seq<char>>) -> bool {
        let board = self.host.board;
        if verb == "size"@ {
            match usize_arg(arg(args, 0), "rows"@) {
                Parsed::Fail(m) => r == Err::<StepModel, Seq<char>>(m),
                Parsed::Value(rows) => match usize_arg(arg(args, 1), "cols"@) {
                    Parsed::Fail(m) => r == Err::<StepModel, Seq<char>>(m),
                    Parsed::Value(cols) => r == Ok::<StepModel, Seq<char>>(StepModel::Next) && next == SceneModel { rows, cols, ..self },
                },
            }
        } else if verb == "snapshot"@ {
            r == Ok::<StepModel, Seq<char>>(StepModel::Next) && next == SceneModel { in_snapshot: true, ..self }
        } else if verb == "pin"@ {
            match card_spec_of(args, "pin"@) {
                Parsed::Fail(m) => r == Err::<StepModel, Seq<char>>(m),
                Parsed::Value(spec) => match self.host.pin_result(spec) {
                    (h, Ok(a)) => r == Ok::<StepModel, Seq<char>>(StepModel::Next) && next == SceneModel { host: h, last_action: a, ..self },
                    (_, Err(m)) => r == Err::<StepModel, Seq<char>>(m),
                },
            }
        } else if verb == "focus"@ {
            match card_spec_of(args, "focus"@) {
                Parsed::Fail(m) => r == Err::<StepModel, Seq<char>>(m),
                Parsed::Value(spec) => match self.host.focus_result(spec) {
                    (h, Ok(())) => r == Ok::<StepModel, Seq<char>>(StepModel::Next) && next == SceneModel { host: h, ..self },
                    (_, Err(m)) => r == Err::<StepModel, Seq<char>>(m),
                },
            }
        } else if verb == "jump"@ {
            r == Ok::<StepModel, Seq<char>>(StepModel::Next) && next == SceneModel {
                host: self.host.key(Key::Confirm),
                last_action: board.decide(Key::Confirm).1,
                ..self
            }
        } else if verb == "tabs"@ {
            match tabs_tokens(args) {
                Parsed::Fail(m) => r == Err::<StepModel, Seq<char>>(m),
                Parsed::Value(tokens) => exists|tabs: Seq<TabFact>|
                    tabs_are(tabs, tokens) && if board.with_tabs(tabs).settle_ready(board.selected_identity()) {
                        r == Ok::<StepModel, Seq<char>>(StepModel::Next) && next == SceneModel { host: self.host.apply_tabs(tabs), ..self }
                    } else {
                        r == Err::<StepModel, Seq<char>>("tab update would not finish retipping"@)
                    },
            }
        } else if verb == "key"@ {
            match key_of(args) {
                Parsed::Fail(m) => r == Err::<StepModel, Seq<char>>(m),
                Parsed::Value(k) => if board.decide_ready(k) {
                    r == Ok::<StepModel, Seq<char>>(StepModel::Next) && next == SceneModel {
                        host: self.host.key(k),
                        last_action: board.decide(k).1,
                        ..self
                    }
                } else {
                    r == Err::<StepModel, Seq<char>>("key would not finish retipping"@)
                },
            }
        } else if verb == "previous-session"@ {
            match arg(args, 0) {
                None => r == Err::<StepModel, Seq<char>>("previous-session needs a name"@),
                Some(name) => r == Ok::<StepModel, Seq<char>>(StepModel::Next) && next == self.with_board(
                    BoardModel {
                        previous_session: if name.len() == 0 {
                            None
                        } else {
                            Some(name)
                        },
                        ..board
                    },
                ),
            }
        } else if verb == "session-last"@ {
            match arg(args, 0) {
                None => r == Err::<StepModel, Seq<char>>("session-last needs session position"@),
                Some(session) => match usize_arg(arg(args, 1), "position"@) {
                    Parsed::Fail(m) => r == Err::<StepModel, Seq<char>>(m),
                    Parsed::Value(position) => r == Ok::<StepModel, Seq<char>>(StepModel::Next) && next == self.with_board(
                        BoardModel { last_tabs: board.last_tabs.insert(session, position), ..board },
                    ),
                },
            }
        } else if verb == "previous-tab"@ {
            match usize_arg(arg(args, 0), "tab id"@) {
                Parsed::Fail(m) => r == Err::<StepModel, Seq<char>>(m),
                Parsed::Value(id) => r == Ok::<StepModel, Seq<char>>(StepModel::Next) && next == self.with_board(
                    BoardModel { previous_tab_id: Some(id), ..board },
                ),
            }
        } else if verb == "expect"@ {
            r == Ok::<StepModel, Seq<char>>(StepModel::Next) && next == self
        } else if is_expectation(verb) {
            match expectation(self, verb, args) {
                Some(m) => r == Err::<StepModel, Seq<char>>(m),
                None => r == Ok::<StepModel, Seq<char>>(StepModel::Next) && next == self,
            }
        } else if verb == "screen"@ {
            r == Ok::<StepModel, Seq<char>>(
                StepModel::Screen { rows: self.rows, cols: self.cols, needle: joined_words(args, args.len() as int) },
            ) && next == self.with_board(
                BoardModel { viewport: Some((self.rows, self.cols)), ..board }.ensure_visible(board.cursor as int),
            )
        } else {
            r == Err::<StepModel, Seq<char>>("unknown "@ + verb)
        }
    }

    /// One line of a scene: blank lines and `#` comments are skipped; a
    /// `session` line is held until the next other line.
    pub open spec fn line_step(self, raw: Seq<char>, next: SceneModel, r: Result<StepModel, Seq<char>>) -> bool {
        match line_parts(raw) {
            None => r == Ok::<StepModel, Seq<char>>(StepModel::Next) && next == self,
            Some((verb, args)) => if verb == "session"@ {
                match session_token(args) {
                    Parsed::Fail(m) => r == Err::<StepModel, Seq<char>>(m),
                    Parsed::Value(token) => r == Ok::<StepModel, Seq<char>>(StepModel::Next) && exists|s: SessionModel|
                        session_is(s, token) && next == SceneModel { pending: self.pending.push(s), ..self },
                }
            } else {
                match self.flushed() {
                    None => r == Err::<StepModel, Seq<char>>("session update would not finish retipping"@),
                    Some(f) => f.verb_step(verb, args, next, r),
                }
            },
        }
    }
}


// ---------------------------------------------------------------- reading words

/// A number word's value, if it is one.
pub fn number_exec(w: &str) -> (v: Option<usize>)
    ensures
        v == number(w@),
{
    let chars = chars_of(w);
    match parse_unsigned_exec(&chars, usize::MAX as u64) {
        Some(v) => Some(v as usize),
        None => None,
    }
}

fn fail<T>(message: Vec<char>) -> (r: Result<T, String>)
    ensures
        r matches Err(e) && e@ == message@,
{
    Err(string_from(&message))
}

fn text_of(a: &str, b: &str) -> (t: Vec<char>)
    ensures
        t@ == a@ + b@,
{
    let mut out = chars_of(a);
    append_text(&mut out, b);
    out
}

/// The result of parsing, as the spec states it.
pub open spec fn parsed_as<T>(p: Parsed<T>, r: Result<T, String>) -> bool {
    match p {
        Parsed::Value(v) => r == Ok::<T, String>(v),
        Parsed::Fail(m) => r matches Err(e) && e@ == m,
    }
}

fn usize_arg_exec(args: &Vec<String>, i: usize, what: &str) -> (r: Result<usize, String>)
    ensures
        parsed_as(usize_arg(arg(strings_view(args@), i as int), what@), r),
{
    if i < args.len() {
        assert(strings_view(args@)[i as int] == args@[i as int]@);
        if let Some(v) = number_exec(args[i].as_str()) {
            return Ok(v);
        }
    }
    fail(text_of("need ", what))
}

/// `t` without its trailing `*`s.
fn strip_stars_exec(t: &Vec<char>) -> (r: Vec<char>)
    ensures
        r@ == strip_stars(t@),
{
    let mut end = t.len();
    assert(t@.take(end as int) =~= t@);
    while end > 0 && t[end - 1] == '*'
        invariant
            end <= t@.len(),
            strip_stars(t@) == strip_stars(t@.take(end as int)),
        decreases end,
    {
        assert(t@.take(end as int).drop_last() =~= t@.take(end - 1));
        end -= 1;
    }
    assert(t@.take(end as int) =~= t@.subrange(0, end as int));
    slice_chars(t, 0, end)
}

/// Where `c` first occurs in `t`.
fn find_char(t: &Vec<char>, c: char) -> (k: usize)
    ensures
        k <= t@.len(),
        forall|j: int| 0 <= j < k ==> t@[j] != c,
        k < t@.len() ==> t@[k as int] == c,
{
    let mut k: usize = 0;
    while k < t.len() && t[k] != c
        invariant
            k <= t@.len(),
            forall|j: int| 0 <= j < k ==> t@[j] != c,
        decreases t@.len() - k,
    {
        k += 1;
    }
    k
}

/// The tab a tab word describes.
fn tab_from_token(default_id: usize, position: usize, token: &str) -> (tab: TabFact)
    ensures
        tab_is(tab, tab_token(default_id, position, token@)),
{
    let chars = chars_of(token);
    let active = chars.len() > 0 && chars[chars.len() - 1] == '*';
    let t = strip_stars_exec(&chars);
    let starts = t.len() >= 3 && t[0] == 'i' && t[1] == 'd' && t[2] == '=';
    assert(starts == seq!['i', 'd', '='].is_prefix_of(t@)) by {
        if t@.len() >= 3 {
            if starts {
                assert(t@.subrange(0, 3) =~= seq!['i', 'd', '=']);
            } else {
                assert(t@.subrange(0, 3)[0] != 'i' || t@.subrange(0, 3)[1] != 'd' || t@.subrange(0, 3)[2] != '=');
            }
        }
    }
    let (id, name) = if starts {
        let rest = slice_chars(&t, 3, t.len());
        assert(rest@ =~= t@.skip(3));
        let k = find_char(&rest, ':');
        proof {
            crate::search::lemma_first_where(rest@, is_colon(), k as int);
        }
        if k < rest.len() {
            let id_text = string_from(&slice_chars(&rest, 0, k));
            assert(id_text@ =~= rest@.take(k as int));
            let id = match number_exec(id_text.as_str()) {
                Some(v) => v,
                None => default_id,
            };
            let name = slice_chars(&rest, k + 1, rest.len());
            assert(name@ =~= rest@.skip(k + 1));
            (id, name)
        } else {
            (default_id, rest)
        }
    } else {
        (default_id, t)
    };
    TabFact { id, position, name: string_from(&name), active }
}

/// `tabs a b* c`.
fn parse_tabs(args: &Vec<String>) -> (r: Result<Vec<TabFact>, String>)
    ensures
        match tabs_tokens(strings_view(args@)) {
            Parsed::Value(tokens) => r matches Ok(tabs) && tabs_are(tabs@, tokens),
            Parsed::Fail(m) => r matches Err(e) && e@ == m,
        },
{
    if args.len() == 0 {
        return fail(chars_of("tabs needs at least one name"));
    }
    let ghost words = strings_view(args@);
    let ghost tokens = Seq::new(words.len(), |p: int| tab_token(p as usize, p as usize, words[p]));
    let mut tabs: Vec<TabFact> = Vec::new();
    let mut i: usize = 0;
    while i < args.len()
        invariant
            i <= args@.len(),
            words == strings_view(args@),
            tokens == Seq::new(words.len(), |p: int| tab_token(p as usize, p as usize, words[p])),
            tabs@.len() == i,
            forall|p: int| 0 <= p < i ==> tab_is(#[trigger] tabs@[p], tokens[p]),
        decreases args@.len() - i,
    {
        assert(words[i as int] == args@[i as int]@);
        tabs.push(tab_from_token(i, i, args[i].as_str()));
        i += 1;
    }
    assert(tabs_tokens(words) == Parsed::Value(tokens));
    Ok(tabs)
}

/// `count=N`: the number.
fn count_value_exec(w: &str) -> (v: Option<usize>)
    ensures
        v == count_value(w@),
{
    let chars = chars_of(w);
    let starts = chars.len() >= 6 && chars[0] == 'c' && chars[1] == 'o' && chars[2] == 'u' && chars[3] == 'n' && chars[4] == 't'
        && chars[5] == '=';
    assert(starts == count_prefix().is_prefix_of(w@)) by {
        if chars@.len() >= 6 {
            let head = chars@.subrange(0, 6);
            if starts {
                assert(head =~= count_prefix());
            } else {
                assert(head[0] != 'c' || head[1] != 'o' || head[2] != 'u' || head[3] != 'n' || head[4] != 't' || head[5] != '=');
            }
        }
    }
    if !starts {
        return None;
    }
    let rest = string_from(&slice_chars(&chars, 6, chars.len()));
    assert(rest@ =~= w@.skip(6));
    number_exec(rest.as_str())
}

/// `session name [current] [count=N] tab...`.
fn parse_session(args: &Vec<String>) -> (r: Result<SessionFact, String>)
    ensures
        match session_token(strings_view(args@)) {
            Parsed::Value(token) => r matches Ok(s) && session_is(s@, token),
            Parsed::Fail(m) => r matches Err(e) && e@ == m,
        },
{
    if args.len() == 0 {
        return fail(chars_of("session needs a name"));
    }
    let ghost words = strings_view(args@);
    let name = args[0].clone();
    let mut current = false;
    let mut count: Option<usize> = None;
    let mut tab_names: Vec<&String> = Vec::new();
    let mut i: usize = 0;
    while i < args.len()
        invariant
            i <= args@.len(),
            words == strings_view(args@),
            current == exists|j: int| 0 <= j < i && words[j] == "current"@,
            count == first_count(words, i as int),
            tab_names@.len() == tab_words(words, i as int).len(),
            forall|p: int| 0 <= p < tab_names@.len() ==> (#[trigger] tab_names@[p])@ == tab_words(words, i as int)[p],
        decreases args@.len() - i,
    {
        assert(words[i as int] == args@[i as int]@);
        let is_current = crate::text::str_eq(args[i].as_str(), "current");
        if is_current {
            current = true;
        }
        if count.is_none() {
            count = count_value_exec(args[i].as_str());
        }
        let starts_count = count_value_prefix(args[i].as_str());
        let ghost before = tab_names@;
        if i >= 1 && !is_current && !starts_count {
            tab_names.push(&args[i]);
        }
        assert forall|p: int| 0 <= p < tab_names@.len() implies (#[trigger] tab_names@[p])@ == tab_words(words, i + 1)[p] by {
            if p < before.len() {
                assert(tab_names@[p] == before[p]);
            }
        }
        i += 1;
    }
    assert(current == words.contains("current"@)) by {
        if words.contains("current"@) {
            let j = choose|j: int| 0 <= j < words.len() && words[j] == "current"@;
            assert(0 <= j < i && words[j] == "current"@);
        }
    }
    let ghost names = tab_words(words, words.len() as int);
    let ghost tokens = Seq::new(names.len(), |p: int| tab_token(sat_add(100, p), p as usize, names[p]));
    let mut tabs: Vec<TabFact> = Vec::new();
    let mut p: usize = 0;
    while p < tab_names.len()
        invariant
            p <= tab_names@.len(),
            tab_names@.len() == names.len(),
            forall|q: int| 0 <= q < tab_names@.len() ==> (#[trigger] tab_names@[q])@ == names[q],
            tokens == Seq::new(names.len(), |q: int| tab_token(sat_add(100, q), q as usize, names[q])),
            tabs@.len() == p,
            forall|q: int| 0 <= q < p ==> tab_is(#[trigger] tabs@[q], tokens[q]),
        decreases tab_names@.len() - p,
    {
        let id = p.saturating_add(100);
        tabs.push(tab_from_token(id, p, tab_names[p].as_str()));
        p += 1;
    }
    let tab_count = match count {
        Some(c) => c,
        None => tabs.len(),
    };
    assert(words[0] == args@[0]@);
    Ok(SessionFact { name, current, tab_count, tabs })
}

/// Whether `w` starts with `count=`.
fn count_value_prefix(w: &str) -> (starts: bool)
    ensures
        starts == count_prefix().is_prefix_of(w@),
{
    let chars = chars_of(w);
    let starts = chars.len() >= 6 && chars[0] == 'c' && chars[1] == 'o' && chars[2] == 'u' && chars[3] == 'n' && chars[4] == 't'
        && chars[5] == '=';
    assert(starts == count_prefix().is_prefix_of(w@)) by {
        if chars@.len() >= 6 {
            let head = chars@.subrange(0, 6);
            if starts {
                assert(head =~= count_prefix());
            } else {
                assert(head[0] != 'c' || head[1] != 'o' || head[2] != 'u' || head[3] != 'n' || head[4] != 't' || head[5] != '=');
            }
        }
    }
    starts
}


// ---------------------------------------------------------------- card, key and action words

fn card_spec_exec(args: &Vec<String>, verb: &str) -> (r: Result<String, String>)
    ensures
        match card_spec_of(strings_view(args@), verb@) {
            Parsed::Value(spec) => r matches Ok(x) && x@ == spec,
            Parsed::Fail(m) => r matches Err(e) && e@ == m,
        },
{
    if args.len() == 1 {
        assert(strings_view(args@)[0] == args@[0]@);
        return Ok(args[0].clone());
    }
    if args.len() == 2 {
        assert(strings_view(args@)[0] == args@[0]@);
        assert(strings_view(args@)[1] == args@[1]@);
        let mut out = chars_of(args[0].as_str());
        out.push('/');
        append_text(&mut out, args[1].as_str());
        assert(out@ =~= args@[0]@ + seq!['/'] + args@[1]@);
        return Ok(string_from(&out));
    }
    fail(text_of(verb, " wants a title (or session/tab)"))
}

fn key_exec(args: &Vec<String>) -> (r: Result<Key, String>)
    ensures
        parsed_as(key_of(strings_view(args@)), r),
{
    if args.len() == 0 {
        return fail(chars_of("key needs a name"));
    }
    assert(strings_view(args@)[0] == args@[0]@);
    let k = args[0].as_str();
    if str_eq(k, "s") {
        Ok(Key::StartHint)
    } else if str_eq(k, "e") || str_eq(k, "enter") {
        Ok(Key::Confirm)
    } else if str_eq(k, "esc") || str_eq(k, "q") {
        Ok(Key::Dismiss)
    } else if str_eq(k, "p") {
        Ok(Key::Pin)
    } else if str_eq(k, "-") {
        Ok(Key::PreviousTab)
    } else if str_eq(k, "h") || str_eq(k, "left") {
        Ok(Key::Left)
    } else if str_eq(k, "j") || str_eq(k, "down") {
        Ok(Key::Down)
    } else if str_eq(k, "k") || str_eq(k, "up") {
        Ok(Key::Up)
    } else if str_eq(k, "l") || str_eq(k, "right") {
        Ok(Key::Right)
    } else if str_eq(k, "g") {
        Ok(Key::GoPrefix)
    } else if str_eq(k, "G") {
        Ok(Key::Last)
    } else if str_eq(k, "?") {
        Ok(Key::ToggleHelp)
    } else if str_eq(k, "backspace") {
        Ok(Key::Backspace)
    } else if str_eq(k, "input") {
        if args.len() >= 2 {
            assert(strings_view(args@)[1] == args@[1]@);
            let word = chars_of(args[1].as_str());
            if word.len() > 0 {
                return Ok(Key::Input(word[0]));
            }
        }
        fail(chars_of("key input needs a character"))
    } else {
        fail(text_of("unknown key ", k))
    }
}

fn action_exec(args: &Vec<String>) -> (r: Result<Action, String>)
    ensures
        match action_of(strings_view(args@)) {
            Parsed::Value(a) => r matches Ok(x) && x@ == a,
            Parsed::Fail(m) => r matches Err(e) && e@ == m,
        },
{
    if args.len() == 0 {
        return fail(chars_of("action needs a name"));
    }
    assert(strings_view(args@)[0] == args@[0]@);
    let a = args[0].as_str();
    if str_eq(a, "none") {
        Ok(Action::Noop)
    } else if str_eq(a, "dismiss") {
        Ok(Action::Dismiss)
    } else if str_eq(a, "commit") {
        match usize_arg_exec(args, 1, "tab") {
            Ok(v) => Ok(Action::Commit { tab_index: v as u32 }),
            Err(e) => Err(e),
        }
    } else if str_eq(a, "persist-pins") {
        Ok(Action::PersistPins)
    } else if str_eq(a, "switch") {
        if args.len() < 2 {
            return fail(chars_of("action switch needs a session"));
        }
        assert(strings_view(args@)[1] == args@[1]@);
        let tab_position = if args.len() >= 3 {
            assert(strings_view(args@)[2] == args@[2]@);
            number_exec(args[2].as_str())
        } else {
            None
        };
        Ok(Action::SwitchSession { name: args[1].clone(), tab_position })
    } else {
        fail(text_of("unknown action ", a))
    }
}

// ---------------------------------------------------------------- message texts

pub open spec fn chars_view(items: Seq<Vec<char>>) -> Seq<Seq<char>> {
    items.map_values(|v: Vec<char>| v@)
}

fn quote_exec(t: &Vec<char>) -> (q: Vec<char>)
    ensures
        q@ == quote(t@),
{
    let text = string_from(t);
    chars_of(debug_quote(text.as_str()).as_str())
}

fn quoted_exec(items: &Vec<Vec<char>>) -> (q: Vec<Vec<char>>)
    ensures
        chars_view(q@) == quoted(chars_view(items@)),
{
    let mut q: Vec<Vec<char>> = Vec::new();
    let mut i: usize = 0;
    while i < items.len()
        invariant
            i <= items@.len(),
            chars_view(q@) =~= quoted(chars_view(items@)).take(i as int),
        decreases items@.len() - i,
    {
        let ghost before = q@;
        q.push(quote_exec(&items[i]));
        assert(chars_view(q@) =~= chars_view(before).push(quote(items@[i as int]@)));
        i += 1;
    }
    assert(quoted(chars_view(items@)).take(i as int) =~= quoted(chars_view(items@)));
    q
}

/// Appends `[a, b, ...]`.
fn push_list(out: &mut Vec<char>, items: &Vec<Vec<char>>)
    ensures
        final(out)@ == old(out)@ + list_text(chars_view(items@)),
{
    let ghost start = out@;
    let ghost view = chars_view(items@);
    out.push('[');
    let mut i: usize = 0;
    while i < items.len()
        invariant
            i <= items@.len(),
            view == chars_view(items@),
            out@ == start + seq!['['] + list_items(view, i as int),
        decreases items@.len() - i,
    {
        let ghost before = out@;
        if i > 0 {
            append_text(out, ", ");
        }
        crate::text::append_chars(out, &items[i]);
        proof {
            assert(view[i as int] == items@[i as int]@);
            if i > 0 {
                assert(out@ =~= start + seq!['['] + (list_items(view, i as int) + ", "@ + view[i as int]));
            } else {
                assert(out@ =~= start + seq!['['] + view[0]);
            }
        }
        i += 1;
    }
    out.push(']');
    assert(out@ =~= start + list_text(view));
}

fn pin_text_exec(pin: &Pin) -> (t: Vec<char>)
    ensures
        t@ == pin_text(pin@),
{
    let mut out = chars_of("Pin { session: ");
    crate::text::append_chars(&mut out, &quote_exec(&chars_of(pin.session.as_str())));
    append_text(&mut out, ", tab_name: ");
    crate::text::append_chars(&mut out, &quote_exec(&chars_of(pin.tab_name.as_str())));
    append_text(&mut out, " }");
    assert(out@ =~= pin_text(pin@));
    out
}

fn pins_text_exec(pins: &[Pin]) -> (t: Vec<char>)
    ensures
        t@ == pins_text(pins_view(pins@)),
{
    let ghost pv = pins_view(pins@);
    let mut items: Vec<Vec<char>> = Vec::new();
    let mut i: usize = 0;
    while i < pins.len()
        invariant
            i <= pins@.len(),
            pv == pins_view(pins@),
            chars_view(items@) =~= Seq::new(pv.len(), |k: int| pin_text(pv[k])).take(i as int),
        decreases pins@.len() - i,
    {
        let item = pin_text_exec(&pins[i]);
        let ghost before = items@;
        assert(pv[i as int] == pins@[i as int]@);
        items.push(item);
        assert(chars_view(items@) =~= chars_view(before).push(pin_text(pv[i as int])));
        i += 1;
    }
    assert(chars_view(items@) =~= Seq::new(pv.len(), |k: int| pin_text(pv[k])));
    let mut out: Vec<char> = Vec::new();
    push_list(&mut out, &items);
    out
}

fn option_text_exec(o: Option<&str>) -> (t: Vec<char>)
    ensures
        t@ == option_text(opt_text(o)),
{
    match o {
        Some(s) => {
            let mut out = chars_of("Some(");
            let q = quote_exec(&chars_of(s));
            crate::text::append_chars(&mut out, &q);
            out.push(')');
            out
        },
        None => chars_of("None"),
    }
}

fn action_text_exec(a: &Action) -> (t: Vec<char>)
    ensures
        t@ == action_text(a@),
{
    match a {
        Action::Noop => chars_of("None"),
        Action::Dismiss => chars_of("Dismiss"),
        Action::Commit { tab_index } => {
            let mut out = chars_of("Commit { tab_index: ");
            push_decimal(&mut out, *tab_index as u64);
            append_text(&mut out, " }");
            out
        },
        Action::PreviousTab => chars_of("PreviousTab"),
        Action::SwitchSession { name, tab_position } => {
            let mut out = chars_of("SwitchSession { name: ");
            let q = quote_exec(&chars_of(name.as_str()));
            crate::text::append_chars(&mut out, &q);
            append_text(&mut out, ", tab_position: ");
            match tab_position {
                Some(p) => {
                    append_text(&mut out, "Some(");
                    push_decimal(&mut out, *p as u64);
                    out.push(')');
                },
                None => {
                    append_text(&mut out, "None");
                },
            }
            append_text(&mut out, " }");
            out
        },
        Action::PersistPins => chars_of("PersistPins"),
    }
}


// ---------------------------------------------------------------- expectation lists

fn push_fields(w: &str, out: &mut Vec<Vec<char>>)
    ensures
        chars_view(final(out)@) == chars_view(old(out)@) + fields_from(w@, 0),
{
    let s = chars_of(w);
    let n = s.len();
    let ghost start_out = chars_view(out@);
    let mut start: usize = 0;
    while start < n
        invariant
            start <= n,
            n == s@.len(),
            s@ == w@,
            chars_view(out@) + fields_from(s@, start as int) == start_out + fields_from(w@, 0),
        decreases n - start,
    {
        let mut e = start;
        while e < n && s[e] != ','
            invariant
                start <= e <= n,
                n == s@.len(),
                comma_end(s@, start as int) == comma_end(s@, e as int),
            decreases n - e,
        {
            e += 1;
        }
        let ghost before = chars_view(out@);
        if e > start {
            let piece = slice_chars(&s, start, e);
            let ghost pv = piece@;
            out.push(piece);
            assert(chars_view(out@) =~= before.push(pv));
        }
        if e < n {
            assert(chars_view(out@) + fields_from(s@, e + 1) =~= before + fields_from(s@, start as int));
            start = e + 1;
        } else {
            assert(chars_view(out@) + fields_from(s@, n as int) =~= before + fields_from(s@, start as int));
            start = n;
        }
    }
    assert(chars_view(out@) =~= start_out + fields_from(w@, 0));
}

fn all_fields_exec(args: &Vec<String>) -> (fields: Vec<Vec<char>>)
    ensures
        chars_view(fields@) == all_fields(strings_view(args@), args@.len() as int),
{
    let mut fields: Vec<Vec<char>> = Vec::new();
    let mut i: usize = 0;
    while i < args.len()
        invariant
            i <= args@.len(),
            chars_view(fields@) == all_fields(strings_view(args@), i as int),
        decreases args@.len() - i,
    {
        assert(strings_view(args@)[i as int] == args@[i as int]@);
        push_fields(args[i].as_str(), &mut fields);
        i += 1;
    }
    fields
}

fn titles_exec(board: &Overview) -> (titles: Vec<Vec<char>>)
    ensures
        chars_view(titles@) == titles_upto(board@, board@.item_count()),
{
    let n = board.item_count();
    let mut titles: Vec<Vec<char>> = Vec::new();
    let mut i: usize = 0;
    while i < n
        invariant
            i <= n,
            n == board@.item_count(),
            chars_view(titles@) == titles_upto(board@, i as int),
        decreases n - i,
    {
        let ghost before = chars_view(titles@);
        if let Some(t) = board.item_title(i) {
            titles.push(chars_of(t));
            assert(chars_view(titles@) =~= before.push(t@));
        }
        assert(chars_view(titles@) =~= titles_upto(board@, i + 1));
        i += 1;
    }
    titles
}

fn previous_exec(board: &Overview) -> (marks: Vec<Vec<char>>)
    ensures
        chars_view(marks@) == previous_upto(board@, board@.item_count()),
{
    let n = board.item_count();
    let mut marks: Vec<Vec<char>> = Vec::new();
    let mut i: usize = 0;
    while i < n
        invariant
            i <= n,
            n == board@.item_count(),
            chars_view(marks@) == previous_upto(board@, i as int),
        decreases n - i,
    {
        let ghost before = chars_view(marks@);
        if board.is_previous_item(i) {
            if let Some(t) = board.item_title(i) {
                marks.push(chars_of(t));
                assert(chars_view(marks@) =~= before.push(t@));
            }
        }
        assert(chars_view(marks@) =~= previous_upto(board@, i + 1));
        i += 1;
    }
    marks
}

fn same_chars(a: &Vec<char>, b: &Vec<char>) -> (same: bool)
    ensures
        same == (a@ == b@),
{
    if a.len() != b.len() {
        return false;
    }
    let mut i: usize = 0;
    while i < a.len()
        invariant
            i <= a@.len(),
            a@.len() == b@.len(),
            forall|j: int| 0 <= j < i ==> a@[j] == b@[j],
        decreases a@.len() - i,
    {
        if a[i] != b[i] {
            return false;
        }
        i += 1;
    }
    assert(a@ =~= b@);
    true
}

fn same_texts(a: &Vec<Vec<char>>, b: &Vec<Vec<char>>) -> (same: bool)
    ensures
        same == (chars_view(a@) == chars_view(b@)),
{
    if a.len() != b.len() {
        assert(chars_view(a@).len() != chars_view(b@).len());
        return false;
    }
    let mut i: usize = 0;
    while i < a.len()
        invariant
            i <= a@.len(),
            a@.len() == b@.len(),
            forall|j: int| 0 <= j < i ==> chars_view(a@)[j] == chars_view(b@)[j],
        decreases a@.len() - i,
    {
        if !same_chars(&a[i], &b[i]) {
            assert(chars_view(a@)[i as int] != chars_view(b@)[i as int]);
            return false;
        }
        i += 1;
    }
    assert(chars_view(a@) =~= chars_view(b@));
    true
}

fn same_pins(a: &[Pin], b: &Vec<Pin>) -> (same: bool)
    ensures
        same == (pins_view(a@) == pins_view(b@)),
{
    if a.len() != b.len() {
        assert(pins_view(a@).len() != pins_view(b@).len());
        return false;
    }
    let mut i: usize = 0;
    while i < a.len()
        invariant
            i <= a@.len(),
            a@.len() == b@.len(),
            forall|j: int| 0 <= j < i ==> pins_view(a@)[j] == pins_view(b@)[j],
        decreases a@.len() - i,
    {
        if !(str_eq(a[i].session.as_str(), b[i].session.as_str()) && str_eq(a[i].tab_name.as_str(), b[i].tab_name.as_str())) {
            assert(pins_view(a@)[i as int] != pins_view(b@)[i as int]);
            return false;
        }
        i += 1;
    }
    assert(pins_view(a@) =~= pins_view(b@));
    true
}

fn expected_pins_exec(args: &Vec<String>) -> (r: Result<Vec<Pin>, String>)
    ensures
        match expected_pins(strings_view(args@)) {
            Parsed::Value(pins) => r matches Ok(v) && pins_view(v@) == pins,
            Parsed::Fail(m) => r matches Err(e) && e@ == m,
        },
{
    let ghost words = strings_view(args@);
    if args.len() > 0 && str_eq(args[0].as_str(), "none") {
        assert(words[0] == args@[0]@);
        let none: Vec<Pin> = Vec::new();
        assert(pins_view(none@) =~= Seq::<PinModel>::empty());
        return Ok(none);
    }
    assert(arg(words, 0) != Some("none"@)) by {
        if args@.len() > 0 {
            assert(words[0] == args@[0]@);
        }
    }
    let mut pins: Vec<Pin> = Vec::new();
    let mut i: usize = 0;
    while i < args.len()
        invariant
            i <= args@.len(),
            words == strings_view(args@),
            arg(words, 0) != Some("none"@),
            forall|j: int| 0 <= j < i ==> (#[trigger] pin_word(words[j])) is Some,
            pins_view(pins@) =~= Seq::new(i as nat, |j: int| pin_word(words[j])->0),
        decreases args@.len() - i,
    {
        assert(words[i as int] == args@[i as int]@);
        let chars = chars_of(args[i].as_str());
        let k = find_char(&chars, '/');
        proof {
            crate::search::lemma_first_where(chars@, crate::host::is_slash(), k as int);
        }
        if k == chars.len() {
            assert(pin_word(words[i as int]) is None);
            return fail(chars_of("pins want session/tab"));
        }
        let session = string_from(&slice_chars(&chars, 0, k));
        let tab_name = string_from(&slice_chars(&chars, k + 1, chars.len()));
        assert(session@ =~= chars@.take(k as int));
        assert(tab_name@ =~= chars@.skip(k + 1));
        let ghost before = pins@;
        pins.push(Pin { session, tab_name });
        assert(pins_view(pins@) =~= pins_view(before).push(pin_word(words[i as int])->0));
        i += 1;
    }
    Ok(pins)
}


// ---------------------------------------------------------------- the runner

/// What a line asks of the caller: nothing, or to paint the board at the
/// scene's size and look for `needle` on the screen.
pub enum SceneStep {
    Next,
    Screen { rows: usize, cols: usize, needle: String },
}

pub open spec fn step_view(r: Result<SceneStep, SceneError>) -> Result<StepModel, Seq<char>> {
    match r {
        Ok(SceneStep::Next) => Ok(StepModel::Next),
        Ok(SceneStep::Screen { rows, cols, needle }) => Ok(StepModel::Screen { rows, cols, needle: needle@ }),
        Err(e) => Err(e.message@),
    }
}

/// Runs a scene line by line.
pub struct SceneRunner {
    host: Host,
    rows: usize,
    cols: usize,
    last_action: Action,
    pending: Vec<SessionFact>,
    in_snapshot: bool,
}

impl View for SceneRunner {
    type V = SceneModel;

    closed spec fn view(&self) -> SceneModel {
        SceneModel {
            host: self.host@,
            rows: self.rows,
            cols: self.cols,
            last_action: self.last_action@,
            pending: sessions_view(self.pending@),
            in_snapshot: self.in_snapshot,
        }
    }
}

/// `message`, with the line it came from.
fn scene_error(line: usize, message: String) -> (e: SceneError)
    ensures
        e.line == line,
        e.message@ == message@,
{
    SceneError { line, message }
}

fn error_of(line: usize, message: &Vec<char>) -> (e: SceneError)
    ensures
        e.line == line,
        e.message@ == message@,
{
    SceneError { line, message: string_from(message) }
}

fn joined_exec(args: &Vec<String>) -> (text: String)
    ensures
        text@ == joined_words(strings_view(args@), args@.len() as int),
{
    let mut out: Vec<char> = Vec::new();
    let mut i: usize = 0;
    while i < args.len()
        invariant
            i <= args@.len(),
            out@ == joined_words(strings_view(args@), i as int),
        decreases args@.len() - i,
    {
        assert(strings_view(args@)[i as int] == args@[i as int]@);
        let ghost before = out@;
        if i > 0 {
            out.push(' ');
        }
        append_text(&mut out, args[i].as_str());
        if i == 0 {
            assert(out@ =~= joined_words(strings_view(args@), 1));
        } else {
            assert(out@ =~= joined_words(strings_view(args@), i + 1));
        }
        i += 1;
    }
    string_from(&out)
}

impl SceneRunner {
    /// A runner with a fresh host and a 12 by 80 screen.
    pub fn new() -> (runner: SceneRunner)
        ensures
            runner@ == (SceneModel {
                host: HostModel {
                    board: BoardModel::initial(),
                    pins: seq![],
                    last_action: ActionModel::Noop,
                    pending_initial_cursor: true,
                },
                rows: 12,
                cols: 80,
                last_action: ActionModel::Noop,
                pending: seq![],
                in_snapshot: false,
            }),
    {
        let runner = SceneRunner {
            host: Host::new(),
            rows: 12,
            cols: 80,
            last_action: Action::Noop,
            pending: Vec::new(),
            in_snapshot: false,
        };
        assert(runner@ =~= (SceneModel {
            host: HostModel {
                board: BoardModel::initial(),
                pins: seq![],
                last_action: ActionModel::Noop,
                pending_initial_cursor: true,
            },
            rows: 12,
            cols: 80,
            last_action: ActionModel::Noop,
            pending: seq![],
            in_snapshot: false,
        }));
        runner
    }

    /// The host the scene drives.
    pub fn host(&self) -> (host: &Host)
        ensures
            host@ == self@.host,
    {
        &self.host
    }

    /// Hands held session lines to the host.
    fn flush(&mut self) -> (ok: bool)
        ensures
            match old(self)@.flushed() {
                Some(f) => ok && final(self)@ == f,
                None => !ok,
            },
    {
        if self.pending.len() == 0 {
            self.in_snapshot = false;
            assert(self@ =~= (SceneModel { in_snapshot: false, ..old(self)@ }));
            return true;
        }
        let mut sessions: Vec<SessionFact> = Vec::new();
        std::mem::swap(&mut sessions, &mut self.pending);
        let ghost given = sessions_view(sessions@);
        if self.in_snapshot {
            self.host.load_from_snapshot(sessions);
        } else {
            if !self.host.overview().sessions_would_settle(&sessions) {
                return false;
            }
            self.host.apply_sessions(sessions);
        }
        self.in_snapshot = false;
        assert(sessions_view(self.pending@) =~= Seq::<SessionModel>::empty());
        assert(self@ =~= old(self)@.flushed()->0);
        true
    }

    /// What an expectation line finds wrong, if anything.
    fn check(&self, verb: &str, args: &Vec<String>) -> (failure: Option<Vec<char>>)
        requires
            is_expectation(verb@),
        ensures
            match expectation(self@, verb@, strings_view(args@)) {
                Some(m) => failure matches Some(f) && f@ == m,
                None => failure is None,
            },
    {
        let board = self.host.overview();
        let ghost words = strings_view(args@);
        if str_eq(verb, "pins") {
            let expected = match expected_pins_exec(args) {
                Ok(p) => p,
                Err(e) => {
                    return Some(chars_of(e.as_str()));
                },
            };
            let actual = self.host.persisted_pins();
            if same_pins(actual, &expected) {
                return None;
            }
            let mut out = chars_of("pins ");
            crate::text::append_chars(&mut out, &pins_text_exec(actual));
            append_text(&mut out, " != ");
            let expected_slice = expected.as_slice();
            crate::text::append_chars(&mut out, &pins_text_exec(expected_slice));
            return Some(out);
        }
        if str_eq(verb, "titles") {
            let expected = all_fields_exec(args);
            let actual = titles_exec(board);
            if same_texts(&actual, &expected) {
                return None;
            }
            let mut out = chars_of("titles ");
            push_list(&mut out, &quoted_exec(&actual));
            append_text(&mut out, " != ");
            push_list(&mut out, &quoted_exec(&expected));
            return Some(out);
        }
        if str_eq(verb, "focused") {
            let spec = match card_spec_exec(args, "focused") {
                Ok(s) => s,
                Err(e) => {
                    return Some(chars_of(e.as_str()));
                },
            };
            let (session, title) = split_card_spec(spec.as_str());
            let actual = match self.host.focused_title() {
                Some(t) => t,
                None => {
                    proof {
                        reveal_strlit("");
                    }
                    assert(""@ =~= Seq::<char>::empty());
                    ""
                },
            };
            if !str_eq(actual, title.as_str()) {
                let mut out = chars_of("focused ");
                crate::text::append_chars(&mut out, &quote_exec(&chars_of(actual)));
                append_text(&mut out, " != ");
                crate::text::append_chars(&mut out, &quote_exec(&chars_of(title.as_str())));
                return Some(out);
            }
            if let Some(s) = &session {
                let got = board.item_session_name(board.cursor());
                let same = match got {
                    Some(g) => str_eq(g, s.as_str()),
                    None => false,
                };
                if !same {
                    let mut out = chars_of("focused session ");
                    crate::text::append_chars(&mut out, &option_text_exec(got));
                    append_text(&mut out, " != ");
                    crate::text::append_chars(&mut out, &quote_exec(&chars_of(s.as_str())));
                    return Some(out);
                }
            }
            return None;
        }
        if str_eq(verb, "viewing") {
            let expected = if args.len() > 0 {
                assert(words[0] == args@[0]@);
                args[0].as_str()
            } else {
                "none"
            };
            let actual = match board.viewing_session() {
                Some(name) => name,
                None => "none",
            };
            if str_eq(actual, expected) {
                return None;
            }
            let mut out = chars_of("viewing ");
            crate::text::append_chars(&mut out, &quote_exec(&chars_of(actual)));
            append_text(&mut out, " != ");
            crate::text::append_chars(&mut out, &quote_exec(&chars_of(expected)));
            return Some(out);
        }
        if str_eq(verb, "previous") {
            let marks = previous_exec(board);
            let none_given = args.len() > 0 && str_eq(args[0].as_str(), "none");
            assert(none_given == (arg(words, 0) == Some("none"@))) by {
                if args@.len() > 0 {
                    assert(words[0] == args@[0]@);
                }
            }
            if none_given {
                if marks.len() > 0 {
                    let mut out = chars_of("previous ");
                    push_list(&mut out, &quoted_exec(&marks));
                    append_text(&mut out, " != none");
                    return Some(out);
                }
                return None;
            }
            let expected = all_fields_exec(args);
            if same_texts(&marks, &expected) {
                return None;
            }
            let mut out = chars_of("previous ");
            push_list(&mut out, &quoted_exec(&marks));
            append_text(&mut out, " != ");
            push_list(&mut out, &quoted_exec(&expected));
            return Some(out);
        }
        let expected = match action_exec(args) {
            Ok(a) => a,
            Err(e) => {
                return Some(chars_of(e.as_str()));
            },
        };
        if crate::facts::same_action(&self.last_action, &expected) {
            return None;
        }
        let mut out = chars_of("action ");
        crate::text::append_chars(&mut out, &action_text_exec(&self.last_action));
        append_text(&mut out, " != ");
        crate::text::append_chars(&mut out, &action_text_exec(&expected));
        Some(out)
    }
}


impl SceneRunner {
    /// A verb line other than `session`, once held session lines went to the host.
    #[verifier::spinoff_prover]
    #[verifier::rlimit(60)]
    fn verb(&mut self, verb: &str, args: &Vec<String>, line: usize) -> (r: Result<SceneStep, SceneError>)
        ensures
            old(self)@.verb_step(verb@, strings_view(args@), final(self)@, step_view(r)),
            r matches Err(e) ==> e.line == line,
    {
        reveal(SceneModel::verb_step);
        let ghost words = strings_view(args@);
        if str_eq(verb, "size") {
            let rows = match usize_arg_exec(args, 0, "rows") {
                Ok(v) => v,
                Err(e) => {
                    return Err(scene_error(line, e));
                },
            };
            let cols = match usize_arg_exec(args, 1, "cols") {
                Ok(v) => v,
                Err(e) => {
                    return Err(scene_error(line, e));
                },
            };
            self.rows = rows;
            self.cols = cols;
            assert(self@ =~= (SceneModel { rows, cols, ..old(self)@ }));
            return Ok(SceneStep::Next);
        }
        if str_eq(verb, "snapshot") {
            self.in_snapshot = true;
            assert(self@ =~= (SceneModel { in_snapshot: true, ..old(self)@ }));
            return Ok(SceneStep::Next);
        }
        if str_eq(verb, "pin") {
            let spec = match card_spec_exec(args, "pin") {
                Ok(s) => s,
                Err(e) => {
                    return Err(scene_error(line, e));
                },
            };
            return match self.host.pin(spec.as_str()) {
                Ok(action) => {
                    self.last_action = action;
                    assert(self@ =~= (SceneModel {
                        host: old(self)@.host.pin_result(spec@).0,
                        last_action: ActionModel::PersistPins,
                        ..old(self)@
                    }));
                    Ok(SceneStep::Next)
                },
                Err(e) => Err(scene_error(line, e)),
            };
        }
        if str_eq(verb, "focus") {
            let spec = match card_spec_exec(args, "focus") {
                Ok(s) => s,
                Err(e) => {
                    return Err(scene_error(line, e));
                },
            };
            return match self.host.focus(spec.as_str()) {
                Ok(()) => {
                    assert(self@ =~= (SceneModel { host: old(self)@.host.focus_result(spec@).0, ..old(self)@ }));
                    Ok(SceneStep::Next)
                },
                Err(e) => Err(scene_error(line, e)),
            };
        }
        if str_eq(verb, "jump") {
            self.last_action = self.host.jump();
            assert(self@ =~= (SceneModel {
                host: old(self)@.host.key(Key::Confirm),
                last_action: old(self)@.host.board.decide(Key::Confirm).1,
                ..old(self)@
            }));
            return Ok(SceneStep::Next);
        }
        if str_eq(verb, "tabs") {
            let tabs = match parse_tabs(args) {
                Ok(t) => t,
                Err(e) => {
                    return Err(scene_error(line, e));
                },
            };
            let ghost given = tabs@;
            if !self.host.overview().tabs_would_settle(&tabs) {
                return Err(error_of(line, &chars_of("tab update would not finish retipping")));
            }
            self.host.apply_tabs(tabs);
            assert(self@ =~= (SceneModel { host: old(self)@.host.apply_tabs(given), ..old(self)@ }));
            return Ok(SceneStep::Next);
        }
        if str_eq(verb, "key") {
            let k = match key_exec(args) {
                Ok(k) => k,
                Err(e) => {
                    return Err(scene_error(line, e));
                },
            };
            if !self.host.overview().decide_would_finish(k) {
                return Err(error_of(line, &chars_of("key would not finish retipping")));
            }
            self.last_action = self.host.key(k);
            assert(self@ =~= (SceneModel {
                host: old(self)@.host.key(k),
                last_action: old(self)@.host.board.decide(k).1,
                ..old(self)@
            }));
            return Ok(SceneStep::Next);
        }
        if str_eq(verb, "previous-session") {
            if args.len() == 0 {
                return Err(error_of(line, &chars_of("previous-session needs a name")));
            }
            assert(words[0] == args@[0]@);
            self.host.set_previous_session_name(args[0].clone());
            assert(self@ =~= old(self)@.with_board(
                BoardModel {
                    previous_session: if words[0].len() == 0 {
                        None
                    } else {
                        Some(words[0])
                    },
                    ..old(self)@.host.board
                },
            ));
            return Ok(SceneStep::Next);
        }
        if str_eq(verb, "session-last") {
            if args.len() == 0 {
                return Err(error_of(line, &chars_of("session-last needs session position")));
            }
            assert(words[0] == args@[0]@);
            let position = match usize_arg_exec(args, 1, "position") {
                Ok(v) => v,
                Err(e) => {
                    return Err(scene_error(line, e));
                },
            };
            self.host.set_session_last_tab(args[0].clone(), position);
            assert(self@ =~= old(self)@.with_board(
                BoardModel { last_tabs: old(self)@.host.board.last_tabs.insert(words[0], position), ..old(self)@.host.board },
            ));
            return Ok(SceneStep::Next);
        }
        if str_eq(verb, "previous-tab") {
            let id = match usize_arg_exec(args, 0, "tab id") {
                Ok(v) => v,
                Err(e) => {
                    return Err(scene_error(line, e));
                },
            };
            self.host.set_previous_tab_id(id);
            assert(self@ =~= old(self)@.with_board(BoardModel { previous_tab_id: Some(id), ..old(self)@.host.board }));
            return Ok(SceneStep::Next);
        }
        if str_eq(verb, "expect") {
            return Ok(SceneStep::Next);
        }
        let expecting = str_eq(verb, "pins") || str_eq(verb, "titles") || str_eq(verb, "focused") || str_eq(verb, "viewing")
            || str_eq(verb, "previous") || str_eq(verb, "action");
        if expecting {
            return match self.check(verb, args) {
                Some(message) => Err(error_of(line, &message)),
                None => Ok(SceneStep::Next),
            };
        }
        if str_eq(verb, "screen") {
            let rows = self.rows;
            let cols = self.cols;
            self.host.set_viewport(rows, cols);
            assert(self@ =~= old(self)@.with_board(
                BoardModel { viewport: Some((rows, cols)), ..old(self)@.host.board }.ensure_visible(old(self)@.host.board.cursor as int),
            ));
            return Ok(SceneStep::Screen { rows, cols, needle: joined_exec(args) });
        }
        Err(error_of(line, &text_of("unknown ", verb)))
    }

    /// A `session` line: the session is held until the next other line.
    fn hold_session(&mut self, args: &Vec<String>, line: usize) -> (r: Result<SceneStep, SceneError>)
        ensures
            match session_token(strings_view(args@)) {
                Parsed::Fail(m) => step_view(r) == Err::<StepModel, Seq<char>>(m),
                Parsed::Value(token) => step_view(r) == Ok::<StepModel, Seq<char>>(StepModel::Next) && exists|s: SessionModel|
                    session_is(s, token) && final(self)@ == (SceneModel { pending: old(self)@.pending.push(s), ..old(self)@ }),
            },
            r matches Err(e) ==> e.line == line,
    {
        match parse_session(args) {
            Ok(session) => {
                let ghost s = session@;
                self.pending.push(session);
                assert(sessions_view(self.pending@) =~= sessions_view(old(self).pending@).push(s));
                assert(self@ =~= (SceneModel { pending: old(self)@.pending.push(s), ..old(self)@ }));
                proof {
                    if let Parsed::Value(token) = session_token(strings_view(args@)) {
                        assert(session_is(s, token));
                    }
                }
                Ok(SceneStep::Next)
            },
            Err(e) => Err(scene_error(line, e)),
        }
    }

    /// Runs one line of a scene, numbered `line`.
    pub fn step(&mut self, raw: &str, line: usize) -> (r: Result<SceneStep, SceneError>)
        ensures
            old(self)@.line_step(raw@, final(self)@, step_view(r)),
            r matches Err(e) ==> e.line == line,
    {
        let (verb, args) = match split_line(raw) {
            None => {
                return Ok(SceneStep::Next);
            },
            Some(parts) => parts,
        };
        if str_eq(verb.as_str(), "session") {
            return self.hold_session(&args, line);
        }
        if !self.flush() {
            return Err(error_of(line, &chars_of("session update would not finish retipping")));
        }
        self.verb(verb.as_str(), &args, line)
    }

    /// The host once the scene ends: held session lines handed over and
    /// the board laid out at the scene's size.
    pub fn finish(self) -> (r: Result<Host, SceneError>)
        ensures
            match self@.flushed() {
                Some(f) => r matches Ok(h) && h@ == (HostModel {
                    board: (BoardModel { viewport: Some((f.rows, f.cols)), ..f.host.board }).ensure_visible(f.host.board.cursor as int),
                    ..f.host
                }),
                None => r is Err,
            },
    {
        let mut runner = self;
        if !runner.flush() {
            return Err(error_of(0, &chars_of("session update would not finish retipping")));
        }
        let rows = runner.rows;
        let cols = runner.cols;
        runner.host.set_viewport(rows, cols);
        Ok(runner.host)
    }
}

/// A line's verb and its words; `None` for a blank line or a `#` comment.
fn split_line(raw: &str) -> (parts: Option<(String, Vec<String>)>)
    ensures
        match line_parts(raw@) {
            None => parts is None,
            Some((verb, args)) => parts matches Some(p) && p.0@ == verb && strings_view(p.1@) == args,
        },
{
    let trimmed = crate::text::trim_str(raw);
    let chars = chars_of(trimmed);
    if chars.len() == 0 || chars[0] == '#' {
        return None;
    }
    let words = crate::text::text_words(trimmed);
    let ghost wv = strings_view(words@);
    if words.len() == 0 {
        let none: Vec<String> = Vec::new();
        assert(strings_view(none@) =~= Seq::<Seq<char>>::empty());
        return Some((String::new(), none));
    }
    assert(wv[0] == words@[0]@);
    let verb = words[0].clone();
    let mut args: Vec<String> = Vec::new();
    let mut i: usize = 1;
    while i < words.len()
        invariant
            1 <= i <= words@.len(),
            wv == strings_view(words@),
            strings_view(args@) =~= wv.subrange(1, i as int),
        decreases words@.len() - i,
    {
        let ghost before = args@;
        args.push(words[i].clone());
        assert(strings_view(args@) =~= strings_view(before).push(wv[i as int]));
        i += 1;
    }
    assert(strings_view(args@) =~= wv.drop_first());
    Some((verb, args))
}

} // verus!
