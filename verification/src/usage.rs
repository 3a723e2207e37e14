//! The local usage log: per opening, how many keys were pressed, which
//! features were used, and how the overview closed. No titles are kept.

use vstd::prelude::*;
use crate::facts::Key;
use crate::text::{append_text, chars_of, decimal, lemma_lines_from_push_newline, lemma_lines_have_no_newline, lemma_lines_of_append, lemma_lines_of_one, lemma_trim_shape, lines_from, lines_of, push_decimal, string_from, strings_view, text_lines, trim, trim_str};

verus! {

/// How many log lines are kept.
pub const USAGE_CAP: usize = 400;

#[derive(Debug, Clone, PartialEq, Eq)]
pub struct Usage {
    keys: u32,
    flash: bool,
    hjkl: bool,
    dash: bool,
    drill: bool,
}

/// What one opening did, as plain values.
pub struct UsageModel {
    pub keys: u32,
    pub flash: bool,
    pub hjkl: bool,
    pub dash: bool,
    pub drill: bool,
}

impl View for Usage {
    type V = UsageModel;

    closed spec fn view(&self) -> UsageModel {
        UsageModel { keys: self.keys, flash: self.flash, hjkl: self.hjkl, dash: self.dash, drill: self.drill }
    }
}

impl Default for Usage {
    fn default() -> (usage: Usage)
        ensures
            usage@ == (UsageModel { keys: 0, flash: false, hjkl: false, dash: false, drill: false }),
    {
        Usage { keys: 0, flash: false, hjkl: false, dash: false, drill: false }
    }
}

/// How the overview closed.
#[derive(Debug, Clone, Copy, PartialEq, Eq, Structural)]
pub enum UsageEnd {
    Dismiss,
    Toggle,
    Tab,
    Switch,
    Prev,
}

impl UsageEnd {
    pub open spec fn text(self) -> Seq<char> {
        match self {
            UsageEnd::Dismiss => "dismiss"@,
            UsageEnd::Toggle => "toggle"@,
            UsageEnd::Tab => "tab"@,
            UsageEnd::Switch => "switch"@,
            UsageEnd::Prev => "prev"@,
        }
    }

    fn as_str(self) -> (text: &'static str)
        ensures
            text@ == self.text(),
    {
        match self {
            UsageEnd::Dismiss => "dismiss",
            UsageEnd::Toggle => "toggle",
            UsageEnd::Tab => "tab",
            UsageEnd::Switch => "switch",
            UsageEnd::Prev => "prev",
        }
    }
}

pub open spec fn json_bool(value: bool) -> Seq<char> {
    if value {
        "true"@
    } else {
        "false"@
    }
}

fn json_bool_text(value: bool) -> (text: &'static str)
    ensures
        text@ == json_bool(value),
{
    if value {
        "true"
    } else {
        "false"
    }
}

/// The log line for one opening, as JSON.
pub open spec fn encode_spec(u: UsageModel, end: UsageEnd, cross: bool) -> Seq<char> {
    "{\"keys\":"@ + decimal(u.keys as nat) + ",\"flash\":"@ + json_bool(u.flash) + ",\"hjkl\":"@ + json_bool(u.hjkl)
        + ",\"dash\":"@ + json_bool(u.dash) + ",\"drill\":"@ + json_bool(u.drill) + ",\"cross\":"@ + json_bool(cross)
        + ",\"end\":\""@ + end.text() + "\"}"@
}

impl Usage {
    /// A key pressed: counted (up to the largest `u32`), and Flash or `-`
    /// marked as used.
    pub fn note(&mut self, key: Key)
        ensures
            final(self)@ == (UsageModel {
                keys: if old(self)@.keys == u32::MAX { u32::MAX } else { (old(self)@.keys + 1) as u32 },
                flash: old(self)@.flash || key is StartHint || key is Input || key is Backspace,
                dash: old(self)@.dash || key is PreviousTab,
                ..old(self)@
            }),
    {
        self.keys = self.keys.saturating_add(1);
        match key {
            Key::StartHint | Key::Input(_) | Key::Backspace => {
                self.flash = true;
            },
            Key::PreviousTab => {
                self.dash = true;
            },
            _ => {},
        }
    }

    /// `hjkl` used.
    pub fn note_hjkl(&mut self)
        ensures
            final(self)@ == (UsageModel { hjkl: true, ..old(self)@ }),
    {
        self.hjkl = true;
    }

    /// A session's board opened.
    pub fn note_drill(&mut self)
        ensures
            final(self)@ == (UsageModel { drill: true, ..old(self)@ }),
    {
        self.drill = true;
    }

    /// The JSON line recorded for this opening.
    pub fn encode(&self, end: UsageEnd, cross: bool) -> (line: String)
        ensures
            line@ == encode_spec(self@, end, cross),
    {
        let mut out: Vec<char> = Vec::new();
        append_text(&mut out, "{\"keys\":");
        push_decimal(&mut out, self.keys as u64);
        append_text(&mut out, ",\"flash\":");
        append_text(&mut out, json_bool_text(self.flash));
        append_text(&mut out, ",\"hjkl\":");
        append_text(&mut out, json_bool_text(self.hjkl));
        append_text(&mut out, ",\"dash\":");
        append_text(&mut out, json_bool_text(self.dash));
        append_text(&mut out, ",\"drill\":");
        append_text(&mut out, json_bool_text(self.drill));
        append_text(&mut out, ",\"cross\":");
        append_text(&mut out, json_bool_text(cross));
        append_text(&mut out, ",\"end\":\"");
        append_text(&mut out, end.as_str());
        append_text(&mut out, "\"}");
        string_from(&out)
    }
}

/// The nonempty lines, trimmed.
pub open spec fn kept_lines(lines: Seq<Seq<char>>) -> Seq<Seq<char>>
    decreases lines.len(),
{
    if lines.len() == 0 {
        seq![]
    } else {
        kept_lines(lines.drop_last()) + if trim(lines.last()).len() > 0 {
            seq![trim(lines.last())]
        } else {
            seq![]
        }
    }
}

/// The lines joined by `\n`.
pub open spec fn join_lines(lines: Seq<Seq<char>>) -> Seq<char>
    decreases lines.len(),
{
    if lines.len() == 0 {
        seq![]
    } else if lines.len() == 1 {
        lines[0]
    } else {
        join_lines(lines.drop_last()).push('\n') + lines.last()
    }
}

/// The log with `line` added: the existing nonempty lines, trimmed, then
/// `line` trimmed unless empty, only the newest `max_lines` kept, each
/// ended by `\n`.
pub open spec fn appended_log(existing: Seq<char>, line: Seq<char>, max_lines: int) -> Seq<char> {
    let kept = kept_lines(lines_of(existing));
    let all = if trim(line).len() > 0 {
        kept.push(trim(line))
    } else {
        kept
    };
    let newest = if all.len() > max_lines {
        all.skip(all.len() - max_lines)
    } else {
        all
    };
    let out = join_lines(newest);
    if out.len() > 0 {
        out.push('\n')
    } else {
        out
    }
}

/// Adds `line` to the log text `existing`, keeping at most `max_lines`.
pub fn append_usage_log(existing: &str, line: &str, max_lines: usize) -> (log: String)
    ensures
        log@ == appended_log(existing@, line@, max_lines as int),
{
    let raw = text_lines(existing);
    let mut lines: Vec<String> = Vec::new();
    let mut i: usize = 0;
    while i < raw.len()
        invariant
            i <= raw@.len(),
            strings_view(raw@) == lines_of(existing@),
            strings_view(lines@) == kept_lines(strings_view(raw@).take(i as int)),
        decreases raw@.len() - i,
    {
        let t = trim_str(raw[i].as_str());
        let ghost before = lines@;
        assert(strings_view(raw@).take(i + 1).drop_last() =~= strings_view(raw@).take(i as int));
        assert(strings_view(raw@).take(i + 1).last() == raw@[i as int]@);
        if !t.is_empty() {
            lines.push(t.to_owned());
            assert(strings_view(lines@) =~= strings_view(before).push(t@));
        }
        i += 1;
    }
    assert(strings_view(raw@).take(i as int) =~= strings_view(raw@));
    let last = trim_str(line);
    if !last.is_empty() {
        let ghost before = lines@;
        lines.push(last.to_owned());
        assert(strings_view(lines@) =~= strings_view(before).push(last@));
    }
    let ghost all = strings_view(lines@);
    let start: usize = if lines.len() > max_lines { lines.len() - max_lines } else { 0 };
    let ghost newest = all.skip(start as int);
    assert(newest =~= if all.len() > max_lines { all.skip(all.len() - max_lines) } else { all });
    let mut out: Vec<char> = Vec::new();
    let mut k = start;
    while k < lines.len()
        invariant
            start <= k <= lines@.len(),
            all == strings_view(lines@),
            newest == all.skip(start as int),
            out@ == join_lines(newest.take(k - start)),
        decreases lines@.len() - k,
    {
        let ghost before = out@;
        if k > start {
            out.push('\n');
        }
        let piece = chars_of(lines[k].as_str());
        let mut j: usize = 0;
        let ghost mid = out@;
        while j < piece.len()
            invariant
                j <= piece@.len(),
                out@ =~= mid + piece@.take(j as int),
            decreases piece@.len() - j,
        {
            out.push(piece[j]);
            j += 1;
        }
        assert(piece@.take(j as int) =~= piece@);
        proof {
            let taken = newest.take(k + 1 - start);
            assert(taken.drop_last() =~= newest.take(k - start));
            assert(taken.last() == lines@[k as int]@);
            if k > start {
                assert(out@ =~= join_lines(taken.drop_last()).push('\n') + taken.last());
            } else {
                assert(taken.len() == 1);
                assert(out@ =~= taken[0]);
            }
        }
        k += 1;
    }
    assert(newest.take(k - start) =~= newest);
    if out.len() > 0 {
        out.push('\n');
    }
    string_from(&out)
}

/// Nonempty lines free of `\n` and not ending in `\r`, each followed by
/// `\n`, split back into those lines.
pub proof fn lemma_lines_of_ended(lines: Seq<Seq<char>>)
    requires
        forall|k: int| 0 <= k < lines.len() ==> (#[trigger] lines[k]).len() > 0 && lines[k].last() != '\r',
        forall|k: int, i: int| 0 <= k < lines.len() && 0 <= i < lines[k].len() ==> #[trigger] lines[k][i] != '\n',
        lines.len() > 0,
    ensures
        lines_of(join_lines(lines).push('\n')) == lines,
        join_lines(lines).len() > 0,
        join_lines(lines).last() == lines.last().last(),
    decreases lines.len(),
{
    let x = join_lines(lines);
    let last = lines.last();
    assert(last == lines[lines.len() - 1]);
    assert forall|i: int| 0 <= i < last.len() implies last[i] != '\n' by {
        assert(lines[lines.len() - 1][i] != '\n');
    }
    assert(last.last() == last[last.len() - 1]);
    if lines.len() == 1 {
        lemma_lines_of_one(last);
        assert(lines =~= seq![last]);
    } else {
        let front = lines.drop_last();
        assert forall|k: int, i: int| 0 <= k < front.len() && 0 <= i < front[k].len() implies #[trigger] front[k][i] != '\n' by {
            assert(front[k] == lines[k]);
        }
        assert forall|k: int| 0 <= k < front.len() implies (#[trigger] front[k]).len() > 0 && front[k].last() != '\r' by {
            assert(front[k] == lines[k]);
        }
        lemma_lines_of_ended(front);
        let f = join_lines(front);
        assert(f.last() == front.last().last());
        assert(front.last() == lines[lines.len() - 2]);
        assert(f.last() != '\n') by {
            let fl = front.last();
            assert(fl[fl.len() - 1] != '\n');
        }
        assert(f.last() != '\r');
        lemma_lines_from_push_newline(f, 0);
        lemma_lines_of_append(f, last);
        assert(lines =~= front + seq![last]);
        lemma_lines_of_one(last);
        assert(x == f.push('\n') + last);
        assert(x.last() == last.last());
    }
    assert(last[last.len() - 1] != '\n');
    assert(x.last() != '\n');
    lemma_lines_from_push_newline(x, 0);
}


/// Each kept line is the trim of some line, and not empty.
proof fn lemma_kept_lines_shape(lines: Seq<Seq<char>>)
    ensures
        forall|k: int| 0 <= k < kept_lines(lines).len() ==> exists|j: int| 0 <= j < lines.len() && (#[trigger] kept_lines(lines)[k]) == trim(lines[j]),
        forall|k: int| 0 <= k < kept_lines(lines).len() ==> (#[trigger] kept_lines(lines)[k]).len() > 0,
    decreases lines.len(),
{
    if lines.len() > 0 {
        let front = lines.drop_last();
        lemma_kept_lines_shape(front);
        let kept = kept_lines(lines);
        let kf = kept_lines(front);
        assert forall|k: int| 0 <= k < kept.len() implies exists|j: int| 0 <= j < lines.len() && (#[trigger] kept[k]) == trim(lines[j]) by {
            if k < kf.len() {
                assert(kept[k] == kf[k]);
                let j = choose|j: int| 0 <= j < front.len() && kf[k] == trim(front[j]);
                assert(lines[j] == front[j]);
            } else {
                assert(kept[k] == trim(lines.last()));
                assert(lines.last() == lines[lines.len() - 1]);
            }
        }
        assert forall|k: int| 0 <= k < kept.len() implies (#[trigger] kept[k]).len() > 0 by {
            if k < kf.len() {
                assert(kept[k] == kf[k]);
            }
        }
    }
}

/// A trimmed piece of a line with no `\n` has no `\n`, and does not end
/// in `\r`.
proof fn lemma_trimmed_line(l: Seq<char>)
    requires
        forall|i: int| 0 <= i < l.len() ==> l[i] != '\n',
        trim(l).len() > 0,
    ensures
        forall|i: int| 0 <= i < trim(l).len() ==> trim(l)[i] != '\n',
        trim(l).last() != '\r',
{
    lemma_trim_shape(l);
    let (a, b) = choose|a: int, b: int| 0 <= a <= b <= l.len() && trim(l) == l.subrange(a, b);
    assert forall|i: int| 0 <= i < trim(l).len() implies trim(l)[i] != '\n' by {
        assert(trim(l)[i] == l[a + i]);
    }
}

/// The usage log keeps at most `max_lines` lines; a new line with no line
/// break in it, once trimmed, is the last of them when it is not blank
/// and at least one line is kept.
pub proof fn law_usage_log_is_capped(existing: Seq<char>, line: Seq<char>, max_lines: int)
    requires
        max_lines >= 0,
        forall|i: int| 0 <= i < line.len() ==> line[i] != '\n',
    ensures
        lines_of(appended_log(existing, line, max_lines)).len() <= max_lines,
        max_lines >= 1 && trim(line).len() > 0 ==> lines_of(appended_log(existing, line, max_lines)).last() == trim(line),
{
    let raw = lines_of(existing);
    lemma_lines_have_no_newline(existing, 0);
    lemma_kept_lines_shape(raw);
    let kept = kept_lines(raw);
    let all = if trim(line).len() > 0 {
        kept.push(trim(line))
    } else {
        kept
    };
    let newest = if all.len() > max_lines {
        all.skip(all.len() - max_lines)
    } else {
        all
    };
    assert forall|k: int| 0 <= k < all.len() implies (#[trigger] all[k]).len() > 0 && all[k].last() != '\r'
        && forall|i: int| 0 <= i < all[k].len() ==> all[k][i] != '\n' by {
        if k < kept.len() {
            assert(all[k] == kept[k]);
            let j = choose|j: int| 0 <= j < raw.len() && kept[k] == trim(raw[j]);
            assert forall|i: int| 0 <= i < raw[j].len() implies raw[j][i] != '\n' by {
                assert(raw[j][i] != '\n');
            }
            lemma_trimmed_line(raw[j]);
        } else {
            assert(all[k] == trim(line));
            lemma_trimmed_line(line);
        }
    }
    assert forall|k: int, i: int| 0 <= k < newest.len() && 0 <= i < newest[k].len() implies #[trigger] newest[k][i] != '\n' by {
        let o = if all.len() > max_lines { all.len() - max_lines } else { 0 };
        assert(newest[k] == all[k + o]);
    }
    assert forall|k: int| 0 <= k < newest.len() implies (#[trigger] newest[k]).len() > 0 && newest[k].last() != '\r' by {
        let o = if all.len() > max_lines { all.len() - max_lines } else { 0 };
        assert(newest[k] == all[k + o]);
    }
    if newest.len() > 0 {
        lemma_lines_of_ended(newest);
        assert(join_lines(newest).len() > 0);
        assert(lines_of(appended_log(existing, line, max_lines)) == newest);
        if max_lines >= 1 && trim(line).len() > 0 {
            assert(newest.last() == all.last());
        }
    } else {
        assert(join_lines(newest) =~= Seq::<char>::empty());
        assert(lines_of(Seq::<char>::empty()) =~= Seq::<Seq<char>>::empty());
    }
}

} // verus!
