//! First-match searches, stated once and used by every board query.

use vstd::prelude::*;

verus! {

/// Position of the first element of `s` with property `p`.
pub open spec fn first_where<A>(s: Seq<A>, p: spec_fn(A) -> bool) -> Option<int>
    decreases s.len(),
{
    if s.len() == 0 {
        None
    } else {
        match first_where(s.drop_last(), p) {
            Some(i) => Some(i),
            None => if p(s.last()) {
                Some(s.len() - 1)
            } else {
                None
            },
        }
    }
}

/// A scan that stops at `i` finds the first match there.
pub proof fn lemma_first_where<A>(s: Seq<A>, p: spec_fn(A) -> bool, i: int)
    requires
        0 <= i <= s.len(),
        forall|j: int| 0 <= j < i ==> !p(#[trigger] s[j]),
        i < s.len() ==> p(s[i]),
    ensures
        first_where(s, p) == if i < s.len() {
            Some(i)
        } else {
            None::<int>
        },
    decreases s.len(),
{
    if s.len() > 0 {
        let prefix = s.drop_last();
        if i < s.len() - 1 {
            assert forall|j: int| 0 <= j < i implies !p(#[trigger] prefix[j]) by {
                assert(prefix[j] == s[j]);
            }
            assert(prefix[i] == s[i]);
            lemma_first_where(prefix, p, i);
        } else {
            assert forall|j: int| 0 <= j < prefix.len() implies !p(#[trigger] prefix[j]) by {
                assert(prefix[j] == s[j]);
            }
            lemma_first_where(prefix, p, prefix.len() as int);
        }
    }
}

/// Whatever `first_where` finds satisfies the property, and nothing before it does.
pub proof fn lemma_first_where_found<A>(s: Seq<A>, p: spec_fn(A) -> bool)
    ensures
        match first_where(s, p) {
            Some(i) => 0 <= i < s.len() && p(s[i]) && forall|j: int| 0 <= j < i ==> !p(#[trigger] s[j]),
            None => forall|j: int| 0 <= j < s.len() ==> !p(#[trigger] s[j]),
        },
    decreases s.len(),
{
    if s.len() > 0 {
        let prefix = s.drop_last();
        lemma_first_where_found(prefix, p);
        match first_where(prefix, p) {
            Some(i) => {
                assert forall|j: int| 0 <= j < i implies !p(#[trigger] s[j]) by {
                    assert(prefix[j] == s[j]);
                }
                assert(prefix[i] == s[i]);
            },
            None => {
                assert forall|j: int| 0 <= j < s.len() - 1 implies !p(#[trigger] s[j]) by {
                    assert(prefix[j] == s[j]);
                }
            },
        }
    }
}

/// The first `i` in `0..n` with property `p`.
pub open spec fn first_index(n: int, p: spec_fn(int) -> bool) -> Option<int>
    decreases n,
{
    if n <= 0 {
        None
    } else {
        match first_index(n - 1, p) {
            Some(i) => Some(i),
            None => if p(n - 1) {
                Some(n - 1)
            } else {
                None
            },
        }
    }
}

pub proof fn lemma_first_index(n: int, p: spec_fn(int) -> bool, i: int)
    requires
        0 <= i <= n,
        forall|j: int| 0 <= j < i ==> !#[trigger] p(j),
        i < n ==> p(i),
    ensures
        first_index(n, p) == if i < n {
            Some(i)
        } else {
            None::<int>
        },
    decreases n,
{
    if n > 0 {
        if i < n {
            if i < n - 1 {
                lemma_first_index(n - 1, p, i);
            } else {
                lemma_first_index(n - 1, p, n - 1);
            }
        } else {
            lemma_first_index(n - 1, p, n - 1);
        }
    }
}

pub proof fn lemma_first_index_found(n: int, p: spec_fn(int) -> bool)
    ensures
        match first_index(n, p) {
            Some(i) => 0 <= i < n && p(i) && forall|j: int| 0 <= j < i ==> !#[trigger] p(j),
            None => forall|j: int| 0 <= j < n ==> !#[trigger] p(j),
        },
    decreases n,
{
    if n > 0 {
        lemma_first_index_found(n - 1, p);
    }
}

} // verus!
