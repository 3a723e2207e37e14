//! Stable insertion sorts for the host's tab and session lists.

use vstd::prelude::*;
use vstd::multiset::Multiset;
use crate::facts::{sessions_view, SessionFact, SessionModel, TabFact};
use crate::text::{chars_of, text_less, text_lt};

verus! {

/// `s` with `t` inserted after every tab at a smaller or equal position.
pub open spec fn insert_tab(s: Seq<TabFact>, t: TabFact) -> Seq<TabFact>
    decreases s.len(),
{
    if s.len() == 0 {
        seq![t]
    } else if t.position < s.last().position {
        insert_tab(s.drop_last(), t).push(s.last())
    } else {
        s.push(t)
    }
}

/// Tabs ordered by position; tabs at the same position keep their order.
pub open spec fn sort_tabs_spec(tabs: Seq<TabFact>) -> Seq<TabFact>
    decreases tabs.len(),
{
    if tabs.len() == 0 {
        seq![]
    } else {
        insert_tab(sort_tabs_spec(tabs.drop_last()), tabs.last())
    }
}

/// Whether session `a` is listed before `b`: the current session first,
/// then by name.
pub open spec fn session_precedes(a: SessionModel, b: SessionModel) -> bool {
    (a.current && !b.current) || (a.current == b.current && text_lt(a.name, b.name))
}

pub open spec fn insert_session(s: Seq<SessionModel>, x: SessionModel) -> Seq<SessionModel>
    decreases s.len(),
{
    if s.len() == 0 {
        seq![x]
    } else if session_precedes(x, s.last()) {
        insert_session(s.drop_last(), x).push(s.last())
    } else {
        s.push(x)
    }
}

/// Sessions ordered current first, then by name; equal ones keep their order.
pub open spec fn sort_sessions_spec(sessions: Seq<SessionModel>) -> Seq<SessionModel>
    decreases sessions.len(),
{
    if sessions.len() == 0 {
        seq![]
    } else {
        insert_session(sort_sessions_spec(sessions.drop_last()), sessions.last())
    }
}

/// Whether tabs are in position order.
pub open spec fn by_position(s: Seq<TabFact>) -> bool {
    forall|i: int, j: int| 0 <= i < j < s.len() ==> s[i].position <= s[j].position
}

/// Sorting puts the tabs in position order and keeps every tab, each as often.
pub proof fn law_tabs_come_out_by_position(tabs: Seq<TabFact>)
    ensures
        by_position(sort_tabs_spec(tabs)),
        sort_tabs_spec(tabs).to_multiset() == tabs.to_multiset(),
    decreases tabs.len(),
{
    broadcast use vstd::seq_lib::group_to_multiset_ensures;

    if tabs.len() > 0 {
        law_tabs_come_out_by_position(tabs.drop_last());
        lemma_insert_tab(sort_tabs_spec(tabs.drop_last()), tabs.last());
        assert(tabs =~= tabs.drop_last().push(tabs.last()));
    } else {
        assert(tabs.to_multiset() =~= Multiset::empty());
        assert(sort_tabs_spec(tabs).to_multiset() =~= Multiset::empty());
    }
}

proof fn lemma_insert_tab(s: Seq<TabFact>, t: TabFact)
    requires
        by_position(s),
    ensures
        by_position(insert_tab(s, t)),
        insert_tab(s, t).to_multiset() == s.to_multiset().insert(t),
    decreases s.len(),
{
    broadcast use vstd::seq_lib::group_to_multiset_ensures;

    if s.len() == 0 {
        assert(insert_tab(s, t) =~= s.push(t));
    } else if t.position < s.last().position {
        let r = s.drop_last();
        assert(by_position(r));
        lemma_insert_tab(r, t);
        let ins = insert_tab(r, t);
        assert forall|k: int| 0 <= k < ins.len() implies ins[k].position <= s.last().position by {
            assert(ins.contains(ins[k]));
            assert(ins.to_multiset().count(ins[k]) > 0);
            if ins[k] != t {
                assert(r.to_multiset().count(ins[k]) > 0);
                assert(r.contains(ins[k]));
                let q = choose|q: int| 0 <= q < r.len() && r[q] == ins[k];
                assert(s[q] == r[q]);
            }
        }
        assert(s =~= r.push(s.last()));
    } else {
        assert forall|i: int, j: int| 0 <= i < j < s.push(t).len() implies s.push(t)[i].position <= s.push(t)[j].position by {
            if j == s.len() {
                assert(s[i].position <= s[s.len() - 1].position);
            }
        }
    }
}

/// Whether the current sessions come before the others.
pub open spec fn current_first(s: Seq<SessionModel>) -> bool {
    forall|i: int, j: int| 0 <= i < j < s.len() && s[j].current ==> s[i].current
}

/// Sorting puts the current session first and keeps every session, each as often.
pub proof fn law_current_session_comes_first(sessions: Seq<SessionModel>)
    ensures
        current_first(sort_sessions_spec(sessions)),
        sort_sessions_spec(sessions).to_multiset() == sessions.to_multiset(),
    decreases sessions.len(),
{
    broadcast use vstd::seq_lib::group_to_multiset_ensures;

    if sessions.len() > 0 {
        law_current_session_comes_first(sessions.drop_last());
        lemma_insert_session(sort_sessions_spec(sessions.drop_last()), sessions.last());
        assert(sessions =~= sessions.drop_last().push(sessions.last()));
    } else {
        assert(sessions.to_multiset() =~= Multiset::empty());
        assert(sort_sessions_spec(sessions).to_multiset() =~= Multiset::empty());
    }
}

proof fn lemma_insert_session(s: Seq<SessionModel>, x: SessionModel)
    requires
        current_first(s),
    ensures
        current_first(insert_session(s, x)),
        insert_session(s, x).to_multiset() == s.to_multiset().insert(x),
    decreases s.len(),
{
    broadcast use vstd::seq_lib::group_to_multiset_ensures;

    if s.len() == 0 {
        assert(insert_session(s, x) =~= s.push(x));
    } else if session_precedes(x, s.last()) {
        let r = s.drop_last();
        assert(current_first(r));
        lemma_insert_session(r, x);
        let ins = insert_session(r, x);
        assert forall|k: int| 0 <= k < ins.len() && s.last().current implies ins[k].current by {
            assert(ins.contains(ins[k]));
            assert(ins.to_multiset().count(ins[k]) > 0);
            if ins[k] != x {
                assert(r.to_multiset().count(ins[k]) > 0);
                assert(r.contains(ins[k]));
                let q = choose|q: int| 0 <= q < r.len() && r[q] == ins[k];
                assert(s[q] == r[q]);
            }
        }
        assert(s =~= r.push(s.last()));
    } else {
        assert forall|i: int, j: int| 0 <= i < j < s.push(x).len() && s.push(x)[j].current implies s.push(x)[i].current by {
            if j == s.len() {
                assert(s.last().current);
                assert(s[i].current);
            }
        }
    }
}

/// Sorts tabs by position, keeping the order of tabs at the same position.
pub fn sort_tabs(tabs: Vec<TabFact>) -> (sorted: Vec<TabFact>)
    ensures
        sorted@ == sort_tabs_spec(tabs@),
{
    let ghost given = tabs@;
    assert(tabs.len() == tabs@.len());
    let mut rest = tabs;
    let mut sorted: Vec<TabFact> = Vec::new();
    let mut k: usize = 0;
    while rest.len() > 0
        invariant
            k + rest@.len() == given.len(),
            given.len() <= usize::MAX,
            rest@ == given.skip(k as int),
            sorted@ == sort_tabs_spec(given.take(k as int)),
        decreases rest@.len(),
    {
        let t = rest.remove(0);
        assert(given.take(k + 1).drop_last() =~= given.take(k as int));
        assert(given.take(k + 1).last() == t);
        let ghost s = sorted@;
        let mut p = sorted.len();
        assert(s.take(p as int) =~= s);
        assert(s.skip(p as int) =~= Seq::<TabFact>::empty());
        while p > 0 && t.position < sorted[p - 1].position
            invariant
                p <= s.len(),
                sorted@ == s,
                insert_tab(s, t) == insert_tab(s.take(p as int), t) + s.skip(p as int),
            decreases p,
        {
            proof {
                assert(s.take(p as int).drop_last() =~= s.take(p - 1));
                assert(s.take(p as int).last() == s[p - 1]);
                assert(s.skip(p - 1) =~= seq![s[p - 1]] + s.skip(p as int));
                assert(insert_tab(s.take(p - 1), t).push(s[p - 1]) + s.skip(p as int) =~= insert_tab(s.take(p - 1), t) + s.skip(p - 1));
            }
            p -= 1;
        }
        proof {
            if p > 0 {
                assert(s.take(p as int).last() == s[p - 1]);
            }
            assert(insert_tab(s.take(p as int), t) =~= s.take(p as int).push(t));
        }
        sorted.insert(p, t);
        assert(sorted@ =~= s.take(p as int).push(t) + s.skip(p as int));
        rest = rest;
        assert(rest@ =~= given.skip(k + 1));
        k += 1;
    }
    assert(given.take(k as int) =~= given);
    sorted
}

fn session_precedes_exec(a: &SessionFact, b: &SessionFact) -> (precedes: bool)
    ensures
        precedes == session_precedes(a@, b@),
{
    if a.current != b.current {
        return a.current && !b.current;
    }
    text_less(&chars_of(a.name.as_str()), &chars_of(b.name.as_str()))
}

/// Sorts sessions current first, then by name, keeping equal ones in order.
pub fn sort_sessions(sessions: Vec<SessionFact>) -> (sorted: Vec<SessionFact>)
    ensures
        sessions_view(sorted@) == sort_sessions_spec(sessions_view(sessions@)),
{
    let ghost given = sessions_view(sessions@);
    assert(sessions.len() == sessions@.len());
    let mut rest = sessions;
    let mut sorted: Vec<SessionFact> = Vec::new();
    let mut k: usize = 0;
    assert(sessions_view(sorted@) =~= sort_sessions_spec(given.take(0)));
    while rest.len() > 0
        invariant
            k + rest@.len() == given.len(),
            given.len() <= usize::MAX,
            sessions_view(rest@) == given.skip(k as int),
            sessions_view(sorted@) == sort_sessions_spec(given.take(k as int)),
        decreases rest@.len(),
    {
        let ghost rest_before = rest@;
        let x = rest.remove(0);
        assert(sessions_view(rest_before)[0] == x@);
        assert(given.take(k + 1).drop_last() =~= given.take(k as int));
        assert(given.take(k + 1).last() == x@);
        let ghost s = sessions_view(sorted@);
        let ghost sv = sorted@;
        let mut p = sorted.len();
        assert(s.take(p as int) =~= s);
        assert(s.skip(p as int) =~= Seq::<SessionModel>::empty());
        while p > 0 && session_precedes_exec(&x, &sorted[p - 1])
            invariant
                p <= s.len(),
                sorted@ == sv,
                s == sessions_view(sv),
                insert_session(s, x@) == insert_session(s.take(p as int), x@) + s.skip(p as int),
            decreases p,
        {
            proof {
                assert(s.take(p as int).drop_last() =~= s.take(p - 1));
                assert(s.take(p as int).last() == s[p - 1]);
                assert(s[p - 1] == sorted@[p - 1]@);
                assert(s.skip(p - 1) =~= seq![s[p - 1]] + s.skip(p as int));
                assert(insert_session(s.take(p - 1), x@).push(s[p - 1]) + s.skip(p as int) =~= insert_session(s.take(p - 1), x@) + s.skip(p - 1));
            }
            p -= 1;
        }
        proof {
            if p > 0 {
                assert(s.take(p as int).last() == s[p - 1]);
                assert(s[p - 1] == sorted@[p - 1]@);
            }
            assert(insert_session(s.take(p as int), x@) =~= s.take(p as int).push(x@));
        }
        sorted.insert(p, x);
        assert(sessions_view(sorted@) =~= s.take(p as int).push(x@) + s.skip(p as int));
        assert forall|j: int| 0 <= j < rest@.len() implies sessions_view(rest@)[j] == given.skip(k + 1)[j] by {
            assert(rest@[j] == rest_before[j + 1]);
            assert(sessions_view(rest_before)[j + 1] == given.skip(k as int)[j + 1]);
        }
        assert(sessions_view(rest@) =~= given.skip(k + 1));
        k += 1;
    }
    assert(given.take(k as int) =~= given);
    sorted
}

} // verus!
