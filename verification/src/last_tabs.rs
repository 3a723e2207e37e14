//! The last tab seen in each session, by session name.

use vstd::prelude::*;
use crate::text::str_eq;

verus! {

/// Session name to the position of the last tab seen there.
#[derive(Debug)]
pub struct SessionLastTabs {
    entries: Vec<(String, usize)>,
}

pub open spec fn entries_map(entries: Seq<(String, usize)>) -> Map<Seq<char>, usize>
    decreases entries.len(),
{
    if entries.len() == 0 {
        Map::empty()
    } else {
        entries_map(entries.drop_last()).insert(entries.last().0@, entries.last().1)
    }
}

pub open spec fn keys_unique(entries: Seq<(String, usize)>) -> bool {
    forall|i: int, j: int| 0 <= i < j < entries.len() ==> entries[i].0@ != entries[j].0@
}

proof fn lemma_entries_map(entries: Seq<(String, usize)>)
    requires
        keys_unique(entries),
    ensures
        forall|k: Seq<char>| #[trigger] entries_map(entries).contains_key(k) <==> exists|i: int| 0 <= i < entries.len() && entries[i].0@ == k,
        forall|i: int| 0 <= i < entries.len() ==> #[trigger] entries_map(entries)[entries[i].0@] == entries[i].1,
        entries_map(entries).dom().finite(),
        entries_map(entries).len() == entries.len(),
    decreases entries.len(),
{
    if entries.len() > 0 {
        let rest = entries.drop_last();
        lemma_entries_map(rest);
        let last = entries.last();
        assert(!entries_map(rest).contains_key(last.0@)) by {
            if entries_map(rest).contains_key(last.0@) {
                let i = choose|i: int| 0 <= i < rest.len() && rest[i].0@ == last.0@;
                assert(entries[i].0@ == entries[entries.len() - 1].0@);
            }
        }
        assert forall|k: Seq<char>| #[trigger] entries_map(entries).contains_key(k) <==> exists|i: int| 0 <= i < entries.len() && entries[i].0@ == k by {
            if entries_map(rest).contains_key(k) {
                let i = choose|i: int| 0 <= i < rest.len() && rest[i].0@ == k;
                assert(entries[i].0@ == k);
            }
            if exists|i: int| 0 <= i < entries.len() && entries[i].0@ == k {
                let i = choose|i: int| 0 <= i < entries.len() && entries[i].0@ == k;
                if i < entries.len() - 1 {
                    assert(rest[i].0@ == k);
                }
            }
        }
        assert forall|i: int| 0 <= i < entries.len() implies #[trigger] entries_map(entries)[entries[i].0@] == entries[i].1 by {
            if i < entries.len() - 1 {
                assert(rest[i] == entries[i]);
                assert(entries[i].0@ != last.0@);
            }
        }
    }
}

impl SessionLastTabs {
    #[verifier::type_invariant]
    spec fn unique(&self) -> bool {
        keys_unique(self.entries@)
    }

    pub closed spec fn view(&self) -> Map<Seq<char>, usize> {
        entries_map(self.entries@)
    }

    pub fn new() -> (r: SessionLastTabs)
        ensures
            r.view() == Map::<Seq<char>, usize>::empty(),
    {
        SessionLastTabs { entries: Vec::new() }
    }

    fn position_of(&self, name: &str) -> (p: Option<usize>)
        ensures
            match p {
                Some(i) => i < self.entries@.len() && self.entries@[i as int].0@ == name@,
                None => forall|i: int| 0 <= i < self.entries@.len() ==> self.entries@[i].0@ != name@,
            },
    {
        let mut i: usize = 0;
        while i < self.entries.len()
            invariant
                i <= self.entries@.len(),
                forall|q: int| 0 <= q < i ==> self.entries@[q].0@ != name@,
            decreases self.entries@.len() - i,
        {
            if str_eq(self.entries[i].0.as_str(), name) {
                return Some(i);
            }
            i += 1;
        }
        None
    }

    /// The last tab position seen in session `name`.
    pub fn get(&self, name: &str) -> (r: Option<&usize>)
        ensures
            match r {
                Some(p) => self.view().contains_key(name@) && self.view()[name@] == *p,
                None => !self.view().contains_key(name@),
            },
    {
        proof {
            use_type_invariant(self);
            lemma_entries_map(self.entries@);
        }
        match self.position_of(name) {
            Some(i) => Some(&self.entries[i].1),
            None => None,
        }
    }

    pub fn contains_key(&self, name: &str) -> (r: bool)
        ensures
            r == self.view().contains_key(name@),
    {
        proof {
            use_type_invariant(self);
            lemma_entries_map(self.entries@);
        }
        self.position_of(name).is_some()
    }

    pub fn len(&self) -> (n: usize)
        ensures
            n == self.view().len(),
    {
        proof {
            use_type_invariant(self);
            lemma_entries_map(self.entries@);
        }
        self.entries.len()
    }

    /// Records `position` as the last tab of `session`, replacing what was there.
    pub fn insert(&mut self, session: String, position: usize)
        ensures
            final(self).view() == old(self).view().insert(session@, position),
    {
        proof {
            use_type_invariant(&*self);
            lemma_entries_map(self.entries@);
        }
        let ghost old_entries = self.entries@;
        match self.position_of(session.as_str()) {
            Some(i) => {
                let mut entries: Vec<(String, usize)> = Vec::new();
                std::mem::swap(&mut entries, &mut self.entries);
                entries.set(i, (session, position));
                proof {
                    assert forall|a: int, b: int| 0 <= a < b < entries@.len() implies entries@[a].0@ != entries@[b].0@ by {
                        if a != i && b != i {
                            assert(entries@[a] == old_entries[a]);
                            assert(entries@[b] == old_entries[b]);
                        } else if a == i {
                            assert(entries@[b] == old_entries[b]);
                        } else {
                            assert(entries@[a] == old_entries[a]);
                        }
                    }
                    lemma_entries_map(entries@);
                    assert(entries_map(entries@) =~= entries_map(old_entries).insert(session@, position)) by {
                        assert forall|k: Seq<char>| #[trigger] entries_map(entries@).contains_key(k) <==> entries_map(old_entries).insert(session@, position).contains_key(k) by {
                            if exists|q: int| 0 <= q < entries@.len() && entries@[q].0@ == k {
                                let q = choose|q: int| 0 <= q < entries@.len() && entries@[q].0@ == k;
                                if q != i {
                                    assert(old_entries[q].0@ == k);
                                }
                            }
                            if exists|q: int| 0 <= q < old_entries.len() && old_entries[q].0@ == k {
                                let q = choose|q: int| 0 <= q < old_entries.len() && old_entries[q].0@ == k;
                                if q != i {
                                    assert(entries@[q].0@ == k);
                                } else {
                                    assert(entries@[q].0@ == k);
                                }
                            }
                        }
                        assert forall|k: Seq<char>| #[trigger] entries_map(entries@).contains_key(k) implies entries_map(entries@)[k] == entries_map(old_entries).insert(session@, position)[k] by {
                            let q = choose|q: int| 0 <= q < entries@.len() && entries@[q].0@ == k;
                            assert(entries_map(entries@)[entries@[q].0@] == entries@[q].1);
                            if q != i {
                                assert(entries@[q] == old_entries[q]);
                                assert(entries_map(old_entries)[old_entries[q].0@] == old_entries[q].1);
                            }
                        }
                    }
                }
                self.entries = entries;
            },
            None => {
                let mut entries: Vec<(String, usize)> = Vec::new();
                std::mem::swap(&mut entries, &mut self.entries);
                entries.push((session, position));
                proof {
                    assert forall|a: int, b: int| 0 <= a < b < entries@.len() implies entries@[a].0@ != entries@[b].0@ by {
                        if b < old_entries.len() {
                            assert(entries@[a] == old_entries[a]);
                            assert(entries@[b] == old_entries[b]);
                        } else {
                            assert(entries@[a] == old_entries[a]);
                        }
                    }
                    assert(entries@.drop_last() =~= old_entries);
                }
                self.entries = entries;
            },
        }
    }

    /// A copy of the record.
    pub fn duplicate(&self) -> (r: SessionLastTabs)
        ensures
            r.view() == self.view(),
    {
        proof {
            use_type_invariant(self);
        }
        let mut entries: Vec<(String, usize)> = Vec::new();
        let mut i: usize = 0;
        while i < self.entries.len()
            invariant
                i <= self.entries@.len(),
                keys_unique(self.entries@),
                entries@ =~= self.entries@.take(i as int),
            decreases self.entries@.len() - i,
        {
            entries.push((self.entries[i].0.clone(), self.entries[i].1));
            i += 1;
        }
        assert(entries@ =~= self.entries@);
        SessionLastTabs { entries }
    }

    /// Number of recorded sessions.
    pub fn entry_count(&self) -> (n: usize)
        ensures
            n == self.entries_view().len(),
    {
        self.entries.len()
    }

    /// The recorded sessions, in the order they were first recorded.
    pub closed spec fn entries_view(&self) -> Seq<(Seq<char>, usize)> {
        self.entries@.map_values(|e: (String, usize)| (e.0@, e.1))
    }

    /// The `i`-th recorded session and its tab position.
    pub fn entry(&self, i: usize) -> (e: (&String, usize))
        requires
            i < self.entries_view().len(),
        ensures
            (e.0@, e.1) == self.entries_view()[i as int],
    {
        (&self.entries[i].0, self.entries[i].1)
    }

    /// The map and its entries agree, each session recorded once.
    pub fn entries_agree(&self)
        ensures
            forall|i: int, j: int| 0 <= i < j < self.entries_view().len() ==> self.entries_view()[i].0 != self.entries_view()[j].0,
            forall|k: Seq<char>| #[trigger] self.view().contains_key(k) <==> exists|i: int| 0 <= i < self.entries_view().len() && self.entries_view()[i].0 == k,
            forall|i: int| 0 <= i < self.entries_view().len() ==> #[trigger] self.view()[self.entries_view()[i].0] == self.entries_view()[i].1,
            self.view().dom().finite(),
    {
        proof {
            use_type_invariant(self);
            lemma_entries_map(self.entries@);
        }
        assert forall|k: Seq<char>| #[trigger] self.view().contains_key(k) <==> exists|i: int| 0 <= i < self.entries_view().len() && self.entries_view()[i].0 == k by {
            if exists|i: int| 0 <= i < self.entries@.len() && self.entries@[i].0@ == k {
                let i = choose|i: int| 0 <= i < self.entries@.len() && self.entries@[i].0@ == k;
                assert(self.entries_view()[i].0 == k);
            }
            if exists|i: int| 0 <= i < self.entries_view().len() && self.entries_view()[i].0 == k {
                let i = choose|i: int| 0 <= i < self.entries_view().len() && self.entries_view()[i].0 == k;
                assert(self.entries@[i].0@ == k);
            }
        }
        assert forall|i: int| 0 <= i < self.entries_view().len() implies #[trigger] self.view()[self.entries_view()[i].0] == self.entries_view()[i].1 by {
            assert(self.entries_view()[i] == (self.entries@[i].0@, self.entries@[i].1));
        }
    }
}

} // verus!
