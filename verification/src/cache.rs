//! The plugin's small cache files: where the user jumped from (the left
//! session and its tab) and the last tab seen in each session. Both are
//! plain lines of text.

use vstd::prelude::*;
use crate::scene::{number, number_exec};
use crate::search::{first_where, lemma_first_where, lemma_first_where_found};
use crate::text::{append_text, chars_of, decimal, lemma_lines_of_append, lemma_lines_of_one, lemma_lines_of_two, lemma_parse_decimal, lemma_trim_unchanged, lines_of, white_space, push_decimal, str_eq, string_from, strings_view, text_lines, trim, trim_str};

verus! {

/// Where a session switch left from: the session and its active tab.
#[derive(Debug, Clone, PartialEq, Eq)]
pub struct PreviousJump {
    pub session: String,
    pub tab_position: Option<usize>,
}

pub struct JumpModel {
    pub session: Seq<char>,
    pub tab_position: Option<usize>,
}

impl View for PreviousJump {
    type V = JumpModel;

    open spec fn view(&self) -> JumpModel {
        JumpModel { session: self.session@, tab_position: self.tab_position }
    }
}

/// The jump file: the session on the first line, the tab position, if
/// any, on the second; a blank session means no jump.
pub open spec fn previous_jump_of(raw: Seq<char>) -> Option<JumpModel> {
    let lines = lines_of(raw);
    if lines.len() == 0 {
        None
    } else {
        let session = trim(lines[0]);
        if session.len() == 0 {
            None
        } else {
            Some(JumpModel { session, tab_position: if lines.len() > 1 { number(trim(lines[1])) } else { None } })
        }
    }
}

pub open spec fn previous_jump_text(jump: JumpModel) -> Seq<char> {
    match jump.tab_position {
        Some(p) => jump.session.push('\n') + decimal(p as nat),
        None => jump.session,
    }
}

/// Reads the jump file's text.
pub fn parse_previous_jump(raw: &str) -> (jump: Option<PreviousJump>)
    ensures
        match previous_jump_of(raw@) {
            Some(j) => jump matches Some(x) && x@ == j,
            None => jump is None,
        },
{
    let lines = text_lines(raw);
    let ghost lv = strings_view(lines@);
    if lines.len() == 0 {
        return None;
    }
    assert(lv[0] == lines@[0]@);
    let session = trim_str(lines[0].as_str());
    if session.is_empty() {
        return None;
    }
    let tab_position = if lines.len() > 1 {
        assert(lv[1] == lines@[1]@);
        number_exec(trim_str(lines[1].as_str()))
    } else {
        None
    };
    Some(PreviousJump { session: session.to_owned(), tab_position })
}

/// The jump file's text for `jump`.
pub fn write_previous_jump_text(jump: &PreviousJump) -> (text: String)
    ensures
        text@ == previous_jump_text(jump@),
{
    let mut out = chars_of(jump.session.as_str());
    if let Some(p) = jump.tab_position {
        out.push('\n');
        push_decimal(&mut out, p as u64);
    }
    string_from(&out)
}

/// The last-tab file's entries from line `i` on: a session line, then a
/// position line; reading stops at a missing or unreadable position, and a
/// blank session is skipped.
pub open spec fn last_tab_entries(lines: Seq<Seq<char>>, i: int) -> Seq<(Seq<char>, usize)>
    decreases lines.len() - i,
{
    if i < 0 || i + 1 >= lines.len() {
        seq![]
    } else {
        match number(trim(lines[i + 1])) {
            None => seq![],
            Some(p) => (if trim(lines[i]).len() > 0 {
                seq![(trim(lines[i]), p)]
            } else {
                seq![]
            }) + last_tab_entries(lines, i + 2),
        }
    }
}

pub open spec fn entries_view(entries: Seq<(String, usize)>) -> Seq<(Seq<char>, usize)> {
    entries.map_values(|e: (String, usize)| (e.0@, e.1))
}

/// Reads the last-tab file's text.
pub fn parse_session_last_tabs(raw: &str) -> (entries: Vec<(String, usize)>)
    ensures
        entries_view(entries@) == last_tab_entries(lines_of(raw@), 0),
{
    let lines = text_lines(raw);
    let ghost lv = strings_view(lines@);
    let mut entries: Vec<(String, usize)> = Vec::new();
    let mut i: usize = 0;
    while i < lines.len() && lines.len() - i > 1
        invariant
            i <= lines@.len(),
            lv == strings_view(lines@),
            lv == lines_of(raw@),
            entries_view(entries@) + last_tab_entries(lv, i as int) == last_tab_entries(lv, 0),
        decreases lines@.len() - i,
    {
        assert(lv[i as int] == lines@[i as int]@);
        assert(lv[i + 1] == lines@[i + 1]@);
        let position = match number_exec(trim_str(lines[i + 1].as_str())) {
            Some(p) => p,
            None => {
                assert(last_tab_entries(lv, i as int) =~= Seq::<(Seq<char>, usize)>::empty());
                assert(entries_view(entries@) =~= last_tab_entries(lv, 0));
                return entries;
            },
        };
        let name = trim_str(lines[i].as_str());
        let ghost before = entries_view(entries@);
        if !name.is_empty() {
            entries.push((name.to_owned(), position));
            assert(entries_view(entries@) =~= before.push((name@, position)));
        }
        assert(entries_view(entries@) + last_tab_entries(lv, i + 2) =~= before + last_tab_entries(lv, i as int));
        i += 2;
    }
    assert(last_tab_entries(lv, i as int) =~= Seq::<(Seq<char>, usize)>::empty());
    assert(entries_view(entries@) =~= last_tab_entries(lv, 0));
    entries
}

pub open spec fn entry_named(name: Seq<char>) -> spec_fn((Seq<char>, usize)) -> bool {
    |e: (Seq<char>, usize)| e.0 == name
}

/// The entries with `session`'s position set, or added at the end.
pub open spec fn with_last_tab(entries: Seq<(Seq<char>, usize)>, session: Seq<char>, position: usize) -> Seq<(Seq<char>, usize)> {
    match first_where(entries, entry_named(session)) {
        Some(i) => entries.update(i, (entries[i].0, position)),
        None => entries.push((session, position)),
    }
}

/// Each entry as a session line and a position line, all joined by `\n`.
pub open spec fn entries_text(entries: Seq<(Seq<char>, usize)>, n: int) -> Seq<char>
    decreases n,
{
    if n <= 0 {
        seq![]
    } else if n == 1 {
        entries[0].0.push('\n') + decimal(entries[0].1 as nat)
    } else {
        entries_text(entries, n - 1).push('\n') + entries[n - 1].0.push('\n') + decimal(entries[n - 1].1 as nat)
    }
}

/// The last-tab file's text once `session`'s last tab is `position`.
pub fn session_last_tabs_text(entries: Vec<(String, usize)>, session: &str, position: usize) -> (text: String)
    ensures
        ({
            let updated = with_last_tab(entries_view(entries@), session@, position);
            text@ == entries_text(updated, updated.len() as int)
        }),
{
    let ghost ev = entries_view(entries@);
    let mut entries = entries;
    let mut k: usize = 0;
    while k < entries.len() && !str_eq(entries[k].0.as_str(), session)
        invariant
            k <= entries@.len(),
            ev == entries_view(entries@),
            forall|j: int| 0 <= j < k ==> !entry_named(session@)(#[trigger] ev[j]),
        decreases entries@.len() - k,
    {
        assert(ev[k as int] == (entries@[k as int].0@, entries@[k as int].1));
        k += 1;
    }
    if k < entries.len() {
        assert(ev[k as int] == (entries@[k as int].0@, entries@[k as int].1));
    }
    proof {
        lemma_first_where(ev, entry_named(session@), k as int);
    }
    if k < entries.len() {
        let name = entries[k].0.clone();
        entries.set(k, (name, position));
        assert(entries_view(entries@) =~= ev.update(k as int, (ev[k as int].0, position)));
    } else {
        entries.push((session.to_owned(), position));
        assert(entries_view(entries@) =~= ev.push((session@, position)));
    }
    let ghost updated = entries_view(entries@);
    let mut out: Vec<char> = Vec::new();
    let mut i: usize = 0;
    while i < entries.len()
        invariant
            i <= entries@.len(),
            updated == entries_view(entries@),
            out@ == entries_text(updated, i as int),
        decreases entries@.len() - i,
    {
        assert(updated[i as int] == (entries@[i as int].0@, entries@[i as int].1));
        let ghost before = out@;
        if i > 0 {
            out.push('\n');
        }
        append_text(&mut out, entries[i].0.as_str());
        out.push('\n');
        push_decimal(&mut out, entries[i].1 as u64);
        if i == 0 {
            assert(out@ =~= entries_text(updated, 1));
        } else {
            assert(out@ =~= entries_text(updated, i + 1));
        }
        i += 1;
    }
    string_from(&out)
}

/// Where a session switch lands: the tab the board chose, else the tab the
/// jump file remembers for that session, else none.
pub open spec fn landing_tab_spec(chosen: Option<usize>, name: Seq<char>, jump: Option<JumpModel>) -> Option<usize> {
    match chosen {
        Some(p) => Some(p),
        None => match jump {
            Some(j) => if j.session == name {
                j.tab_position
            } else {
                None
            },
            None => None,
        },
    }
}

/// Where a switch to session `name` lands.
pub fn landing_tab(chosen: Option<usize>, name: &str, jump: Option<PreviousJump>) -> (tab: Option<usize>)
    ensures
        tab == landing_tab_spec(
            chosen,
            name@,
            match jump {
                Some(j) => Some(j@),
                None => None,
            },
        ),
{
    match chosen {
        Some(p) => Some(p),
        None => match jump {
            Some(j) => if str_eq(j.session.as_str(), name) {
                j.tab_position
            } else {
                None
            },
            None => None,
        },
    }
}

/// Reading the jump file gives back the jump written to it, for a session
/// name that holds no line break and has no white space at either end.
pub proof fn law_jump_file_reads_back(jump: JumpModel)
    requires
        jump.session.len() > 0,
        !white_space(jump.session[0]),
        !white_space(jump.session.last()),
        forall|i: int| 0 <= i < jump.session.len() ==> jump.session[i] != '\n',
    ensures
        previous_jump_of(previous_jump_text(jump)) == Some(jump),
{
    lemma_trim_unchanged(jump.session);
    match jump.tab_position {
        None => {
            lemma_lines_of_one(jump.session);
        },
        Some(p) => {
            let d = decimal(p as nat);
            lemma_parse_decimal(p as nat, usize::MAX as nat);
            crate::text::lemma_decimal_digits(p as nat);
            assert forall|i: int| 0 <= i < d.len() implies d[i] != '\n' by {
                assert('0' <= d[i] <= '9');
            }
            lemma_lines_of_two(jump.session, d);
        },
    }
}

/// A session name the last-tab file keeps as it is: not empty, no line
/// break, no white space at either end.
pub open spec fn clean_name(s: Seq<char>) -> bool {
    &&& s.len() > 0
    &&& !white_space(s[0])
    &&& !white_space(s.last())
    &&& forall|i: int| 0 <= i < s.len() ==> s[i] != '\n'
}

/// The file's lines for the first `n` entries: a name, then a position.
pub open spec fn entry_lines(entries: Seq<(Seq<char>, usize)>, n: int) -> Seq<Seq<char>>
    decreases n,
{
    if n <= 0 {
        seq![]
    } else {
        entry_lines(entries, n - 1) + seq![entries[n - 1].0, decimal(entries[n - 1].1 as nat)]
    }
}

proof fn lemma_entry_lines_shape(entries: Seq<(Seq<char>, usize)>, n: int)
    requires
        0 <= n <= entries.len(),
    ensures
        entry_lines(entries, n).len() == 2 * n,
        forall|k: int| 0 <= k < n ==> #[trigger] entry_lines(entries, n)[2 * k] == entries[k].0,
        forall|k: int| 0 <= k < n ==> #[trigger] entry_lines(entries, n)[2 * k + 1] == decimal(entries[k].1 as nat),
    decreases n,
{
    if n > 0 {
        lemma_entry_lines_shape(entries, n - 1);
        let l = entry_lines(entries, n);
        assert forall|k: int| 0 <= k < n implies #[trigger] l[2 * k] == entries[k].0 by {
            if k < n - 1 {
                assert(l[2 * k] == entry_lines(entries, n - 1)[2 * k]);
            }
        }
        assert forall|k: int| 0 <= k < n implies #[trigger] l[2 * k + 1] == decimal(entries[k].1 as nat) by {
            if k < n - 1 {
                assert(l[2 * k + 1] == entry_lines(entries, n - 1)[2 * k + 1]);
            }
        }
    }
}

proof fn lemma_clean_line(name: Seq<char>, position: usize)
    requires
        clean_name(name),
    ensures
        lines_of(name.push('\n') + decimal(position as nat)) == seq![name, decimal(position as nat)],
        decimal(position as nat).len() > 0,
        '0' <= decimal(position as nat).last() <= '9',
{
    let d = decimal(position as nat);
    crate::text::lemma_decimal_digits(position as nat);
    assert forall|i: int| 0 <= i < d.len() implies d[i] != '\n' by {
        assert('0' <= d[i] <= '9');
    }
    assert(name.last() != '\r');
    assert('0' <= d[d.len() - 1] <= '9');
    lemma_lines_of_two(name, d);
}

/// The lines of the file's text are the entries' lines.
proof fn lemma_entries_text_lines(entries: Seq<(Seq<char>, usize)>, n: int)
    requires
        1 <= n <= entries.len(),
        forall|i: int| 0 <= i < n ==> clean_name(#[trigger] entries[i].0),
    ensures
        lines_of(entries_text(entries, n)) == entry_lines(entries, n),
        entries_text(entries, n).len() > 0,
        '0' <= entries_text(entries, n).last() <= '9',
    decreases n,
{
    let name = entries[n - 1].0;
    let d = decimal(entries[n - 1].1 as nat);
    assert(clean_name(entries[n - 1].0));
    lemma_clean_line(name, entries[n - 1].1);
    let y = name.push('\n') + d;
    assert(y.last() == d.last());
    if n == 1 {
        assert(entry_lines(entries, 0) =~= Seq::<Seq<char>>::empty());
        assert(entry_lines(entries, 1) =~= seq![name, d]);
    } else {
        lemma_entries_text_lines(entries, n - 1);
        let x = entries_text(entries, n - 1);
        assert(entries_text(entries, n) =~= x.push('\n') + y);
        lemma_lines_of_append(x, y);
        assert(entry_lines(entries, n) =~= entry_lines(entries, n - 1) + seq![name, d]);
    }
}

/// Reading the entries' lines from entry `k` on gives those entries back.
proof fn lemma_read_entries(entries: Seq<(Seq<char>, usize)>, n: int, k: int)
    requires
        0 <= k <= n <= entries.len(),
        forall|i: int| 0 <= i < n ==> clean_name(#[trigger] entries[i].0),
    ensures
        last_tab_entries(entry_lines(entries, n), 2 * k) == entries.subrange(k, n),
    decreases n - k,
{
    lemma_entry_lines_shape(entries, n);
    let l = entry_lines(entries, n);
    if k < n {
        let name = entries[k].0;
        let position = entries[k].1;
        assert(l[2 * k] == name);
        assert(l[2 * k + 1] == decimal(position as nat));
        lemma_parse_decimal(position as nat, usize::MAX as nat);
        assert(clean_name(entries[k].0));
        lemma_trim_unchanged(name);
        lemma_read_entries(entries, n, k + 1);
        assert(2 * k + 2 == 2 * (k + 1));
        assert(entries.subrange(k, n) =~= seq![(name, position)] + entries.subrange(k + 1, n));
    } else {
        assert(entries.subrange(k, n) =~= Seq::<(Seq<char>, usize)>::empty());
    }
}

/// Reading the last-tab file gives back what was written to it: the
/// entries with `session`'s tab updated, or added at the end, when every
/// session name is clean.
pub proof fn law_last_tab_file_reads_back(entries: Seq<(Seq<char>, usize)>, session: Seq<char>, position: usize)
    requires
        clean_name(session),
        forall|i: int| 0 <= i < entries.len() ==> clean_name(#[trigger] entries[i].0),
    ensures
        ({
            let updated = with_last_tab(entries, session, position);
            last_tab_entries(lines_of(entries_text(updated, updated.len() as int)), 0) == updated
        }),
{
    let updated = with_last_tab(entries, session, position);
    lemma_first_where_found(entries, entry_named(session));
    assert forall|i: int| 0 <= i < updated.len() implies clean_name(#[trigger] updated[i].0) by {
        match first_where(entries, entry_named(session)) {
            Some(j) => {
                assert(updated[i].0 == entries[i].0);
            },
            None => {
                if i < entries.len() {
                    assert(updated[i] == entries[i]);
                }
            },
        }
    }
    let m = updated.len() as int;
    assert(m >= 1);
    lemma_entries_text_lines(updated, m);
    lemma_read_entries(updated, m, 0);
    assert(updated.subrange(0, m) =~= updated);
}

} // verus!
