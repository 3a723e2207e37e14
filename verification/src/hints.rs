//! Flash search: where a query matches a title, and the tips typed to jump.

use vstd::prelude::*;
use crate::text::{chars_of, lower_chars, lower_seq, string_from};
use crate::search::{first_index, lemma_first_index};

verus! {

/// The letters tips are made of, home row first.
pub open spec fn hint_alphabet() -> Seq<char> {
    seq![
        'a', 's', 'd', 'f', 'g', 'h', 'j', 'k', 'l', 'q', 'w', 'e', 'r', 't', 'y', 'u', 'i', 'o', 'p', 'z', 'x', 'c', 'v', 'b', 'n', 'm',
    ]
}

pub fn hint_alphabet_exec() -> (letters: Vec<char>)
    ensures
        letters@ == hint_alphabet(),
{
    let letters = vec![
        'a', 's', 'd', 'f', 'g', 'h', 'j', 'k', 'l', 'q', 'w', 'e', 'r', 't', 'y', 'u', 'i', 'o', 'p', 'z', 'x', 'c', 'v', 'b', 'n', 'm',
    ];
    assert(letters@ =~= hint_alphabet());
    letters
}

/// Whether `query` occurs in `title` at `start`, ignoring ASCII case.
pub open spec fn matches_at(title: Seq<char>, query: Seq<char>, start: int) -> bool {
    lower_seq(title).subrange(start, start + query.len()) == lower_seq(query)
}

/// The starts at which `query` occurs in `title`.
pub open spec fn occurs_at(title: Seq<char>, query: Seq<char>) -> spec_fn(int) -> bool {
    |start: int| matches_at(title, query, start)
}

/// Where `query` first occurs in `title`, ignoring ASCII case, as a start
/// and a length in characters; an empty query matches at the start.
pub open spec fn title_match_range_spec(title: Seq<char>, query: Seq<char>) -> Option<(int, int)> {
    if query.len() == 0 {
        Some((0, 0))
    } else {
        match first_index(title.len() - query.len() + 1, occurs_at(title, query)) {
            Some(start) => Some((start, query.len() as int)),
            None => None,
        }
    }
}

pub open spec fn range_view(r: Option<(usize, usize)>) -> Option<(int, int)> {
    match r {
        Some((a, b)) => Some((a as int, b as int)),
        None => None,
    }
}

/// Where `query` first occurs in `title`, ignoring ASCII case.
pub fn title_match_range(title: &str, query: &str) -> (range: Option<(usize, usize)>)
    ensures
        range_view(range) == title_match_range_spec(title@, query@),
{
    let query_chars = chars_of(query);
    if query_chars.len() == 0 {
        return Some((0, 0));
    }
    let title_lower = lower_chars(&chars_of(title));
    let query_lower = lower_chars(&query_chars);
    let ghost t = title@;
    let ghost q = query@;
    let ghost p = occurs_at(t, q);
    if query_lower.len() > title_lower.len() {
        assert(first_index(t.len() - q.len() + 1, p) is None);
        return None;
    }
    let last = title_lower.len() - query_lower.len();
    assert(title_lower@.len() == t.len());
    let mut start: usize = 0;
    while start <= last
        invariant
            start <= last + 1,
            last == t.len() - q.len(),
            last < usize::MAX,
            title_lower@ == lower_seq(t),
            query_lower@ == lower_seq(q),
            q.len() > 0,
            p == occurs_at(t, q),
            t == title@,
            q == query@,
            title_lower@.len() <= usize::MAX,
            forall|j: int| 0 <= j < start ==> !#[trigger] p(j),
        decreases last + 1 - start,
    {
        let mut k: usize = 0;
        while k < query_lower.len() && title_lower[start + k] == query_lower[k]
            invariant
                k <= query_lower@.len(),
                start <= last,
                last == title_lower@.len() - query_lower@.len(),
                start + query_lower@.len() <= title_lower@.len(),
                title_lower@.len() <= usize::MAX,
                forall|j: int| 0 <= j < k ==> title_lower@[start + j] == query_lower@[j],
            decreases query_lower@.len() - k,
        {
            k += 1;
        }
        if k == query_lower.len() {
            proof {
                assert(lower_seq(t).subrange(start as int, start + q.len()) =~= lower_seq(q));
                lemma_first_index(t.len() - q.len() + 1, p, start as int);
            }
            return Some((start, query_lower.len()));
        }
        assert(lower_seq(t).subrange(start as int, start + q.len())[k as int] != lower_seq(q)[k as int]);
        start += 1;
    }
    proof {
        lemma_first_index(t.len() - q.len() + 1, p, start as int);
    }
    None
}

pub open spec fn sat_mul(a: int, b: int) -> int {
    if a * b > usize::MAX {
        usize::MAX as int
    } else {
        a * b
    }
}

/// Letters per tip: the fewest, at least one, whose combinations cover
/// `count` matches.
pub open spec fn tip_width(count: int, base: int, width: int, capacity: int) -> int
    decreases usize::MAX - capacity,
    via tip_width_decreases
{
    if capacity >= count || base < 2 || capacity < 1 || count > usize::MAX {
        width
    } else {
        tip_width(count, base, width + 1, sat_mul(capacity, base))
    }
}

#[via_fn]
proof fn tip_width_decreases(count: int, base: int, width: int, capacity: int) {
    if !(capacity >= count || base < 2 || capacity < 1 || count > usize::MAX) {
        assert(capacity * base >= capacity * 2) by (nonlinear_arith)
            requires
                base >= 2,
                capacity >= 1,
        ;
        assert(sat_mul(capacity, base) > capacity);
    }
}

/// The tip of match `index`: its number in base `alphabet.len()`, written
/// with `width` letters of the alphabet, most significant first.
pub open spec fn tip(index: int, width: int, alphabet: Seq<char>) -> Seq<char>
    decreases width,
{
    if width <= 0 {
        seq![]
    } else {
        tip(index / alphabet.len() as int, width - 1, alphabet).push(alphabet[index % (alphabet.len() as int)])
    }
}

/// One tip per match, all of the same width.
pub open spec fn tips(count: int, alphabet: Seq<char>) -> Seq<Seq<char>> {
    if count <= 0 {
        seq![]
    } else {
        let width = tip_width(count, alphabet.len() as int, 1, alphabet.len() as int);
        Seq::new(count as nat, |i: int| tip(i, width, alphabet))
    }
}

/// Tips for `count` matches; the loop that sizes them ends only when the
/// alphabet has two letters or there is at most one match.
pub fn labels_for(count: usize, alphabet: &Vec<char>) -> (labels: Vec<String>)
    requires
        alphabet@.len() >= 2 || count <= 1,
        alphabet@.len() >= 1 || count == 0,
    ensures
        labels@.map_values(|l: String| l@) == tips(count as int, alphabet@),
{
    let ghost a = alphabet@;
    if count == 0 {
        assert(Seq::<String>::empty().map_values(|l: String| l@) =~= tips(0, a));
        return Vec::new();
    }
    let base = alphabet.len();
    let mut width: usize = 1;
    let mut capacity = base;
    while capacity < count
        invariant
            base == a.len(),
            base >= 2 || count <= 1,
            capacity >= 1,
            1 <= width <= capacity,
            tip_width(count as int, base as int, 1, base as int) == tip_width(count as int, base as int, width as int, capacity as int),
        decreases usize::MAX - capacity,
    {
        proof {
            assert(capacity * base >= capacity * 2) by (nonlinear_arith)
                requires
                    base >= 2,
                    capacity >= 1,
            ;
        }
        width += 1;
        let ghost before = capacity;
        capacity = if capacity > usize::MAX / base {
            proof {
                assert(capacity * base > usize::MAX) by (nonlinear_arith)
                    requires
                        capacity > usize::MAX / base,
                        base >= 1,
                ;
            }
            usize::MAX
        } else {
            proof {
                assert(capacity * base <= usize::MAX) by (nonlinear_arith)
                    requires
                        capacity <= usize::MAX / base,
                        base >= 1,
                ;
            }
            capacity * base
        };
        assert(capacity > before);
        assert(capacity as int == sat_mul(before as int, base as int));
    }
    let ghost w = width as int;
    assert(tip_width(count as int, base as int, 1, base as int) == w);
    let mut labels: Vec<String> = Vec::new();
    let mut i: usize = 0;
    while i < count
        invariant
            i <= count,
            base == a.len(),
            base >= 1,
            alphabet@ == a,
            w == width,
            w == tip_width(count as int, base as int, 1, base as int),
            labels@.map_values(|l: String| l@) =~= tips(count as int, a).take(i as int),
        decreases count - i,
    {
        let mut label: Vec<char> = Vec::new();
        let mut k: usize = 0;
        while k < width
            invariant
                k <= width,
                label@.len() == k,
                alphabet@ == a,
                a.len() >= 1,
            decreases width - k,
        {
            label.push(alphabet[0]);
            k += 1;
        }
        let mut index = i;
        let mut slot = width;
        while slot > 0
            invariant
                slot <= width,
                label@.len() == width,
                base == a.len(),
                base >= 1,
                alphabet@ == a,
                tip(index as int, slot as int, a) + label@.skip(slot as int) == tip(i as int, w, a),
            decreases slot,
        {
            let ghost before = label@;
            label.set(slot - 1, alphabet[index % base]);
            proof {
                assert(label@.skip(slot - 1) =~= seq![a[(index as int) % (base as int)]] + before.skip(slot as int));
                assert(tip(index as int, slot as int, a) == tip(index as int / base as int, slot - 1, a).push(a[(index as int) % (base as int)]));
                assert(tip(index as int / base as int, slot - 1, a) + label@.skip(slot - 1) =~= tip(index as int, slot as int, a) + before.skip(
                    slot as int,
                ));
            }
            index = index / base;
            slot -= 1;
        }
        assert(label@.skip(0) =~= label@);
        assert(tip(index as int, 0, a) =~= Seq::<char>::empty());
        let ghost before = labels@;
        labels.push(string_from(&label));
        assert(labels@.map_values(|l: String| l@) =~= before.map_values(|l: String| l@).push(label@));
        i += 1;
    }
    labels
}

/// `b` to the power `e`.
pub open spec fn power(b: int, e: int) -> int
    decreases e,
{
    if e <= 0 {
        1
    } else {
        b * power(b, e - 1)
    }
}

proof fn lemma_tip_len(index: int, width: int, alphabet: Seq<char>)
    requires
        width >= 0,
    ensures
        tip(index, width, alphabet).len() == width,
    decreases width,
{
    if width > 0 {
        lemma_tip_len(index / alphabet.len() as int, width - 1, alphabet);
    }
}

/// The tips' width gives room for every match: `base` to that width is at
/// least `count`.
proof fn lemma_tip_width_covers(count: int, base: int, width: int, capacity: int)
    requires
        base >= 2,
        width >= 1,
        1 <= capacity <= power(base, width),
        count <= usize::MAX,
    ensures
        tip_width(count, base, width, capacity) >= 1,
        power(base, tip_width(count, base, width, capacity)) >= count,
    decreases usize::MAX - capacity,
{
    if !(capacity >= count || base < 2 || capacity < 1 || count > usize::MAX) {
        let next = sat_mul(capacity, base);
        assert(capacity * base >= capacity * 2) by (nonlinear_arith)
            requires
                base >= 2,
                capacity >= 1,
        ;
        assert(capacity * base <= power(base, width) * base) by (nonlinear_arith)
            requires
                capacity <= power(base, width),
                base >= 2,
        ;
        assert(power(base, width + 1) == base * power(base, width));
        assert(next <= power(base, width + 1));
        assert(next > capacity);
        lemma_tip_width_covers(count, base, width + 1, next);
    }
}

/// Two numbers below `base` to the `width` have the same tip only if they
/// are the same number, when the alphabet's letters are distinct.
proof fn lemma_tip_injective(i: int, j: int, width: int, alphabet: Seq<char>)
    requires
        alphabet.len() >= 2,
        alphabet.no_duplicates(),
        width >= 0,
        0 <= i < power(alphabet.len() as int, width),
        0 <= j < power(alphabet.len() as int, width),
        tip(i, width, alphabet) == tip(j, width, alphabet),
    ensures
        i == j,
    decreases width,
{
    let b = alphabet.len() as int;
    if width > 0 {
        let ti = tip(i, width, alphabet);
        let tj = tip(j, width, alphabet);
        assert(ti.last() == alphabet[i % b]);
        assert(tj.last() == alphabet[j % b]);
        assert(0 <= i % b < b && 0 <= j % b < b) by (nonlinear_arith)
            requires
                b >= 2,
        ;
        assert(i % b == j % b);
        assert(ti.drop_last() =~= tip(i / b, width - 1, alphabet));
        assert(tj.drop_last() =~= tip(j / b, width - 1, alphabet));
        let p = power(b, width - 1);
        assert(power(b, width) == b * p);
        assert(0 <= i / b < p && 0 <= j / b < p) by (nonlinear_arith)
            requires
                b >= 2,
                0 <= i < b * p,
                0 <= j < b * p,
        ;
        lemma_tip_injective(i / b, j / b, width - 1, alphabet);
        assert(i == b * (i / b) + i % b && j == b * (j / b) + j % b) by (nonlinear_arith)
            requires
                b >= 2,
        ;
    }
}

/// Tips all have one width and no two are the same, so a typed tip picks
/// exactly one match and no tip starts another: the alphabet has at least
/// two letters, each once.
pub proof fn law_tips_are_distinct(count: int, alphabet: Seq<char>)
    requires
        0 <= count <= usize::MAX,
        alphabet.len() >= 2,
        alphabet.no_duplicates(),
    ensures
        tips(count, alphabet).len() == count,
        forall|i: int, j: int|
            0 <= i < count && 0 <= j < count ==> (#[trigger] tips(count, alphabet)[i]).len() == (#[trigger] tips(count, alphabet)[j]).len(),
        forall|i: int, j: int| 0 <= i < j < count ==> #[trigger] tips(count, alphabet)[i] != #[trigger] tips(count, alphabet)[j],
{
    if count > 0 {
        let b = alphabet.len() as int;
        assert(power(b, 1) == b * power(b, 0));
        lemma_tip_width_covers(count, b, 1, b);
        let w = tip_width(count, b, 1, b);
        let t = tips(count, alphabet);
        assert forall|i: int, j: int| 0 <= i < count && 0 <= j < count implies (#[trigger] t[i]).len() == (#[trigger] t[j]).len() by {
            lemma_tip_len(i, w, alphabet);
            lemma_tip_len(j, w, alphabet);
        }
        assert forall|i: int, j: int| 0 <= i < j < count implies #[trigger] t[i] != #[trigger] t[j] by {
            if t[i] == t[j] {
                lemma_tip_injective(i, j, w, alphabet);
            }
        }
    }
}

/// Where a tip letter stands in the alphabet; 26 for other characters.
pub open spec fn letter_rank(c: char) -> int {
    if c == 'a' {
        0
    } else 
    if c == 's' {
        1
    } else 
    if c == 'd' {
        2
    } else 
    if c == 'f' {
        3
    } else 
    if c == 'g' {
        4
    } else 
    if c == 'h' {
        5
    } else 
    if c == 'j' {
        6
    } else 
    if c == 'k' {
        7
    } else 
    if c == 'l' {
        8
    } else 
    if c == 'q' {
        9
    } else 
    if c == 'w' {
        10
    } else 
    if c == 'e' {
        11
    } else 
    if c == 'r' {
        12
    } else 
    if c == 't' {
        13
    } else 
    if c == 'y' {
        14
    } else 
    if c == 'u' {
        15
    } else 
    if c == 'i' {
        16
    } else 
    if c == 'o' {
        17
    } else 
    if c == 'p' {
        18
    } else 
    if c == 'z' {
        19
    } else 
    if c == 'x' {
        20
    } else 
    if c == 'c' {
        21
    } else 
    if c == 'v' {
        22
    } else 
    if c == 'b' {
        23
    } else 
    if c == 'n' {
        24
    } else 
    if c == 'm' {
        25
    } else {
        26
    }
}

/// No letter appears twice among the tip letters.
pub proof fn lemma_hint_alphabet_distinct()
    ensures
        hint_alphabet().no_duplicates(),
        hint_alphabet().len() == 26,
{
    let a = hint_alphabet();
    assert forall|i: int| 0 <= i < 26 implies #[trigger] letter_rank(a[i]) == i by {
        if i == 0 {
        } else if i == 1 {
        } else if i == 2 {
        } else if i == 3 {
        } else if i == 4 {
        } else if i == 5 {
        } else if i == 6 {
        } else if i == 7 {
        } else if i == 8 {
        } else if i == 9 {
        } else if i == 10 {
        } else if i == 11 {
        } else if i == 12 {
        } else if i == 13 {
        } else if i == 14 {
        } else if i == 15 {
        } else if i == 16 {
        } else if i == 17 {
        } else if i == 18 {
        } else if i == 19 {
        } else if i == 20 {
        } else if i == 21 {
        } else if i == 22 {
        } else if i == 23 {
        } else if i == 24 {
        } else if i == 25 {
        }
    }
    assert forall|i: int, j: int| 0 <= i < a.len() && 0 <= j < a.len() && i != j implies a[i] != a[j] by {
        assert(letter_rank(a[i]) == i);
        assert(letter_rank(a[j]) == j);
    }
}

} // verus!
