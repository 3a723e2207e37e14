//! Characters and strings: the few std text operations the board needs,
//! each with what it computes stated over `Seq<char>`.

use vstd::prelude::*;
use vstd::std_specs::iter::IteratorSpec;

verus! {

/// Whether `c` has the Unicode `White_Space` property, as `char::is_whitespace`
/// decides: tab through carriage return, space, next line, no-break space,
/// ogham space mark, the spaces from en quad to hair space, line and
/// paragraph separators, narrow no-break space, medium mathematical space
/// and ideographic space.
pub open spec fn white_space(c: char) -> bool {
    let u = c as u32;
    ||| 0x09 <= u <= 0x0D
    ||| u == 0x20
    ||| u == 0x85
    ||| u == 0xA0
    ||| u == 0x1680
    ||| 0x2000 <= u <= 0x200A
    ||| u == 0x2028
    ||| u == 0x2029
    ||| u == 0x202F
    ||| u == 0x205F
    ||| u == 0x3000
}

/// Whether `c` has the Unicode `White_Space` property.
pub fn is_white_space(c: char) -> (b: bool)
    ensures
        b == white_space(c),
{
    let u = c as u32;
    (0x09 <= u && u <= 0x0D) || u == 0x20 || u == 0x85 || u == 0xA0 || u == 0x1680 || (0x2000 <= u && u <= 0x200A) || u == 0x2028
        || u == 0x2029 || u == 0x202F || u == 0x205F || u == 0x3000
}

/// The characters of `s`, in order, read with `str::chars`.
pub fn chars_of(s: &str) -> (v: Vec<char>)
    ensures
        v@ == s@,
{
    let mut it = s.chars();
    proof {
        vstd::string::axiom_spec_iter(s);
    }
    let mut v: Vec<char> = Vec::new();
    loop
        invariant_except_break
            v@ + it.remaining() == s@,
            it.obeys_prophetic_iter_laws(),
            it.decrease() is Some,
        ensures
            v@ == s@,
        decreases it.decrease()->0,
    {
        let ghost before = it;
        let next = it.next();
        proof {
            vstd::string::next_postcondition(&before, &it, next);
        }
        match next {
            Some(c) => {
                assert(v@.push(c) + it.remaining() =~= v@ + before.remaining());
                v.push(c);
            },
            None => {
                assert(v@ =~= s@);
                break;
            },
        }
    }
    v
}

/// Collects the characters into a `String` through its `FromIterator<&char>`
/// impl, which pushes each in order; the contract says the string holds
/// exactly those characters.
#[verifier::external_body]
pub fn string_from(chars: &Vec<char>) -> (s: String)
    ensures
        s@ == chars@,
{
    chars.iter().collect()
}

/// Whether two texts hold the same characters.
pub fn str_eq(a: &str, b: &str) -> (same: bool)
    ensures
        same == (a@ == b@),
{
    let x = chars_of(a);
    let y = chars_of(b);
    if x.len() != y.len() {
        return false;
    }
    let mut i: usize = 0;
    while i < x.len()
        invariant
            x@ == a@,
            y@ == b@,
            x@.len() == y@.len(),
            i <= x@.len(),
            forall|k: int| 0 <= k < i ==> x@[k] == y@[k],
        decreases x@.len() - i,
    {
        if x[i] != y[i] {
            return false;
        }
        i += 1;
    }
    assert(x@ =~= y@);
    true
}

/// What `{:?}` writes for a text: the text in double quotes, with `"`,
/// backslashes and the characters `char::escape_debug` escapes written as escapes.
pub uninterp spec fn debug_text(text: Seq<char>) -> Seq<char>;

/// Calls `format!("{:?}", text)`, the `Debug` of `str`, which writes the
/// text in double quotes with each character passed through
/// `char`'s debug escaping (double quotes and backslashes escaped; control,
/// unprintable and grapheme-extending characters written as `\u{..}` or
/// the usual short escapes; single quotes left alone). The contract names
/// the result `debug_text` of the text; the
/// Unicode tables behind the escaping are not restated.
#[verifier::external_body]
pub fn debug_quote(text: &str) -> (quoted: String)
    ensures
        quoted@ == debug_text(text@),
{
    format!("{:?}", text)
}

/// `s` without white space at either end.
pub fn trim_str(s: &str) -> (t: &str)
    ensures
        t@ == trim(s@),
{
    let chars = chars_of(s);
    let n = chars.len();
    let mut start: usize = 0;
    while start < n && is_white_space(chars[start])
        invariant
            chars@ == s@,
            n == s@.len(),
            start <= n,
            forall|i: int| 0 <= i < start ==> white_space(#[trigger] s@[i]),
        decreases n - start,
    {
        start += 1;
    }
    let mut end: usize = n;
    while end > start && is_white_space(chars[end - 1])
        invariant
            chars@ == s@,
            n == s@.len(),
            start <= end <= n,
            forall|i: int| end <= i < n ==> white_space(#[trigger] s@[i]),
        decreases end,
    {
        end -= 1;
    }
    proof {
        let w = s@;
        lemma_trim_start_skip(w, start as int);
        let u = w.skip(start as int);
        assert(trim_start(u) == u);
        let k = end - start;
        assert forall|i: int| k <= i < u.len() implies white_space(#[trigger] u[i]) by {
            assert(u[i] == w[start + i]);
        }
        lemma_trim_end_take(u, k as int);
        let piece = u.take(k as int);
        if k > 0 {
            assert(piece.last() == w[end - 1]);
        }
        assert(trim_end(piece) == piece);
        assert(piece =~= w.subrange(start as int, end as int));
    }
    s.substring_char(start, end)
}

/// Cutting trailing white space off first changes nothing more.
proof fn lemma_trim_end_take(s: Seq<char>, k: int)
    requires
        0 <= k <= s.len(),
        forall|i: int| k <= i < s.len() ==> white_space(#[trigger] s[i]),
    ensures
        trim_end(s) == trim_end(s.take(k)),
    decreases s.len() - k,
{
    if k == s.len() {
        assert(s.take(k) =~= s);
    } else {
        assert(white_space(s[s.len() - 1]));
        let d = s.drop_last();
        assert forall|i: int| k <= i < d.len() implies white_space(#[trigger] d[i]) by {
            assert(d[i] == s[i]);
        }
        lemma_trim_end_take(d, k);
        assert(d.take(k) =~= s.take(k));
    }
}

/// `s` without its leading white space.
pub open spec fn trim_start(s: Seq<char>) -> Seq<char>
    decreases s.len(),
{
    if s.len() > 0 && white_space(s[0]) {
        trim_start(s.drop_first())
    } else {
        s
    }
}

/// `s` without its trailing white space.
pub open spec fn trim_end(s: Seq<char>) -> Seq<char>
    decreases s.len(),
{
    if s.len() > 0 && white_space(s.last()) {
        trim_end(s.drop_last())
    } else {
        s
    }
}

/// `s` without white space at either end, as `str::trim` returns it.
pub open spec fn trim(s: Seq<char>) -> Seq<char> {
    trim_end(trim_start(s))
}

proof fn lemma_trim_start_skip(s: Seq<char>, k: int)
    requires
        0 <= k <= s.len(),
        forall|i: int| 0 <= i < k ==> white_space(#[trigger] s[i]),
    ensures
        trim_start(s) == trim_start(s.skip(k)),
    decreases k,
{
    if k > 0 {
        assert(s.skip(k - 1).drop_first() =~= s.skip(k));
        lemma_trim_start_skip(s, k - 1);
    } else {
        assert(s.skip(0) =~= s);
    }
}

/// The ASCII lower-case form of `c`: `A`..`Z` become `a`..`z`, every other
/// character stays.
pub open spec fn ascii_lower(c: char) -> char {
    if 'A' <= c && c <= 'Z' {
        ((c as u32) + 32) as char
    } else {
        c
    }
}

/// The ASCII lower-case form of `c`.
pub fn to_ascii_lower(c: char) -> (r: char)
    ensures
        r == ascii_lower(c),
{
    if 'A' <= c && c <= 'Z' {
        let u: u8 = (c as u8) + 32;
        u as char
    } else {
        c
    }
}

pub open spec fn lower_seq(s: Seq<char>) -> Seq<char> {
    Seq::new(s.len(), |i: int| ascii_lower(s[i]))
}

pub fn lower_chars(s: &Vec<char>) -> (t: Vec<char>)
    ensures
        t@ == lower_seq(s@),
{
    let mut t: Vec<char> = Vec::new();
    let mut i: usize = 0;
    while i < s.len()
        invariant
            i <= s@.len(),
            t@ =~= lower_seq(s@).take(i as int),
        decreases s@.len() - i,
    {
        t.push(to_ascii_lower(s[i]));
        i += 1;
    }
    assert(t@ =~= lower_seq(s@));
    t
}

/// `a` sorts before `b` character by character, a proper prefix first: the
/// order of Rust's `str` comparison.
pub open spec fn text_lt(a: Seq<char>, b: Seq<char>) -> bool
    decreases a.len(),
{
    if a.len() == 0 {
        b.len() > 0
    } else if b.len() == 0 {
        false
    } else if a[0] != b[0] {
        (a[0] as u32) < (b[0] as u32)
    } else {
        text_lt(a.drop_first(), b.drop_first())
    }
}

proof fn lemma_text_lt_skip(a: Seq<char>, b: Seq<char>, k: int)
    requires
        0 <= k <= a.len(),
        k <= b.len(),
        forall|i: int| 0 <= i < k ==> a[i] == b[i],
    ensures
        text_lt(a, b) == text_lt(a.skip(k), b.skip(k)),
    decreases k,
{
    if k > 0 {
        lemma_text_lt_skip(a, b, k - 1);
        assert(a.skip(k - 1).drop_first() =~= a.skip(k));
        assert(b.skip(k - 1).drop_first() =~= b.skip(k));
        assert(a.skip(k - 1)[0] == a[k - 1]);
        assert(b.skip(k - 1)[0] == b[k - 1]);
    } else {
        assert(a.skip(0) =~= a);
        assert(b.skip(0) =~= b);
    }
}

/// Whether `a` sorts before `b`.
pub fn text_less(a: &Vec<char>, b: &Vec<char>) -> (less: bool)
    ensures
        less == text_lt(a@, b@),
{
    let mut i: usize = 0;
    while i < a.len() && i < b.len() && a[i] == b[i]
        invariant
            i <= a@.len(),
            i <= b@.len(),
            forall|q: int| 0 <= q < i ==> a@[q] == b@[q],
        decreases a@.len() - i,
    {
        i += 1;
    }
    proof {
        lemma_text_lt_skip(a@, b@, i as int);
    }
    if i == a.len() {
        i < b.len()
    } else if i == b.len() {
        false
    } else {
        (a[i] as u32) < (b[i] as u32)
    }
}

/// The decimal digits of `n`, most significant first, as `u*::to_string` writes them.
pub open spec fn decimal(n: nat) -> Seq<char>
    decreases n,
{
    if n < 10 {
        seq![digit_char(n)]
    } else {
        decimal(n / 10).push(digit_char(n % 10))
    }
}

pub open spec fn digit_char(d: nat) -> char {
    if d == 0 {
        '0'
    } else if d == 1 {
        '1'
    } else if d == 2 {
        '2'
    } else if d == 3 {
        '3'
    } else if d == 4 {
        '4'
    } else if d == 5 {
        '5'
    } else if d == 6 {
        '6'
    } else if d == 7 {
        '7'
    } else if d == 8 {
        '8'
    } else {
        '9'
    }
}

/// The value of a decimal digit character.
pub open spec fn digit_value(c: char) -> Option<nat> {
    if '0' <= c && c <= '9' {
        Some(((c as u32) - ('0' as u32)) as nat)
    } else {
        None
    }
}

fn digit_exec(d: u64) -> (c: char)
    requires
        d < 10,
    ensures
        c == digit_char(d as nat),
{
    if d == 0 {
        '0'
    } else if d == 1 {
        '1'
    } else if d == 2 {
        '2'
    } else if d == 3 {
        '3'
    } else if d == 4 {
        '4'
    } else if d == 5 {
        '5'
    } else if d == 6 {
        '6'
    } else if d == 7 {
        '7'
    } else if d == 8 {
        '8'
    } else {
        '9'
    }
}

/// Appends the decimal form of `n` to `out`.
pub fn push_decimal(out: &mut Vec<char>, n: u64)
    ensures
        final(out)@ == old(out)@ + decimal(n as nat),
    decreases n,
{
    if n < 10 {
        out.push(digit_exec(n));
    } else {
        push_decimal(out, n / 10);
        out.push(digit_exec(n % 10));
    }
}

/// The value of a run of decimal digits, or `None` if a character is not a digit.
pub open spec fn digits_value(s: Seq<char>) -> Option<nat>
    decreases s.len(),
{
    if s.len() == 0 {
        Some(0)
    } else {
        match (digits_value(s.drop_last()), digit_value(s.last())) {
            (Some(high), Some(low)) => Some(high * 10 + low),
            _ => None,
        }
    }
}

/// What `str::parse` gives for an unsigned integer type whose largest value
/// is `max`: an optional `+`, then at least one digit, the value at most `max`.
pub open spec fn parse_unsigned(s: Seq<char>, max: nat) -> Option<nat> {
    let body = if s.len() > 0 && s[0] == '+' {
        s.drop_first()
    } else {
        s
    };
    if body.len() == 0 {
        None
    } else {
        match digits_value(body) {
            Some(v) => if v <= max {
                Some(v)
            } else {
                None
            },
            None => None,
        }
    }
}

proof fn lemma_digits_value_grows(s: Seq<char>)
    requires
        digits_value(s) is Some,
    ensures
        forall|k: int| 0 <= k <= s.len() ==> (#[trigger] digits_value(s.take(k))) is Some && digits_value(s.take(k))->0 <= digits_value(s)->0,
    decreases s.len(),
{
    if s.len() > 0 {
        lemma_digits_value_grows(s.drop_last());
        assert forall|k: int| 0 <= k <= s.len() implies (#[trigger] digits_value(s.take(k))) is Some && digits_value(s.take(k))->0 <= digits_value(s)->0 by {
            if k == s.len() {
                assert(s.take(k) =~= s);
            } else {
                assert(s.take(k) =~= s.drop_last().take(k));
            }
        }
    } else {
        assert forall|k: int| 0 <= k <= s.len() implies (#[trigger] digits_value(s.take(k))) is Some && digits_value(s.take(k))->0 <= digits_value(s)->0 by {
            assert(s.take(k) =~= s);
        }
    }
}

fn digit_value_exec(c: char) -> (d: Option<u64>)
    ensures
        match digit_value(c) {
            Some(v) => d == Some(v as u64),
            None => d is None,
        },
{
    if '0' <= c && c <= '9' {
        Some((c as u32 - '0' as u32) as u64)
    } else {
        None
    }
}

/// Parses an unsigned decimal number no greater than `max`, as `str::parse`
/// does for an unsigned integer type whose largest value is `max`.
pub fn parse_unsigned_exec(s: &Vec<char>, max: u64) -> (r: Option<u64>)
    ensures
        match parse_unsigned(s@, max as nat) {
            Some(v) => r == Some(v as u64),
            None => r is None,
        },
{
    let start: usize = if s.len() > 0 && s[0] == '+' { 1 } else { 0 };
    let ghost body = if s@.len() > 0 && s@[0] == '+' { s@.drop_first() } else { s@ };
    assert(body =~= s@.skip(start as int));
    if start == s.len() {
        return None;
    }
    let mut value: u64 = 0;
    let mut i = start;
    while i < s.len()
        invariant
            start <= i <= s@.len(),
            body =~= s@.skip(start as int),
            body == (if s@.len() > 0 && s@[0] == '+' { s@.drop_first() } else { s@ }),
            digits_value(body.take(i - start)) == Some(value as nat),
            value <= max,
        decreases s@.len() - i,
    {
        let ghost k = i - start;
        assert(body.take(k + 1).drop_last() =~= body.take(k));
        assert(body.take(k + 1).last() == s@[i as int]);
        match digit_value_exec(s[i]) {
            None => {
                proof {
                    assert(body[k] == s@[i as int]);
                    lemma_no_digits(body, k);
                    assert(digits_value(body) is None);
                    assert(body.len() > 0);
                    reveal_parse(s@, max as nat, body);
                    assert(parse_unsigned(s@, max as nat) is None);
                }
                return None;
            },
            Some(d) => {
                if d > max || value > (max - d) / 10 {
                    proof {
                        assert(value * 10 + d > max) by (nonlinear_arith)
                            requires
                                d > max || value > (max - d) / 10,
                                d <= 9,
                        ;
                        lemma_too_big(body, k, max as nat);
                        reveal_parse(s@, max as nat, body);
                    }
                    return None;
                }
                assert(value * 10 + d <= max) by (nonlinear_arith)
                    requires
                        value <= (max - d) / 10,
                        d <= max,
                ;
                value = value * 10 + d;
            },
        }
        i += 1;
    }
    assert(body.take(i - start) =~= body);
    Some(value)
}

proof fn reveal_parse(s: Seq<char>, max: nat, body: Seq<char>)
    requires
        body == (if s.len() > 0 && s[0] == '+' { s.drop_first() } else { s }),
        body.len() > 0,
    ensures
        parse_unsigned(s, max) == match digits_value(body) {
            Some(v) => if v <= max { Some(v) } else { None },
            None => None,
        },
{
}

proof fn lemma_no_digits(body: Seq<char>, k: int)
    requires
        0 <= k < body.len(),
        digit_value(body[k]) is None,
    ensures
        digits_value(body) is None,
    decreases body.len(),
{
    if digits_value(body) is Some {
        lemma_digits_value_grows(body);
        assert(digits_value(body.take(k + 1)) is Some);
        assert(body.take(k + 1).last() == body[k]);
    }
}

proof fn lemma_too_big(body: Seq<char>, k: int, max: nat)
    requires
        0 <= k < body.len(),
        digits_value(body.take(k + 1)) is Some,
        digits_value(body.take(k + 1))->0 > max,
    ensures
        match digits_value(body) {
            Some(v) => v > max,
            None => true,
        },
{
    if digits_value(body) is Some {
        lemma_digits_value_grows(body);
    }
}


// ---------------------------------------------------------------- lines and words

/// Where the line starting at `start` ends: at the next `\n`, or the end.
pub open spec fn line_end(s: Seq<char>, start: int) -> int
    decreases s.len() - start,
{
    if start < 0 || start >= s.len() {
        s.len() as int
    } else if s[start] == '\n' {
        start
    } else {
        line_end(s, start + 1)
    }
}

pub proof fn lemma_line_end(s: Seq<char>, start: int)
    requires
        0 <= start <= s.len(),
    ensures
        start <= line_end(s, start) <= s.len(),
        line_end(s, start) < s.len() ==> s[line_end(s, start)] == '\n',
        forall|i: int| start <= i < line_end(s, start) ==> s[i] != '\n',
    decreases s.len() - start,
{
    if start < s.len() && s[start] != '\n' {
        lemma_line_end(s, start + 1);
    }
}

/// The lines from `start` on, as `str::lines` gives them: split at `\n`, a
/// `\r` before the `\n` dropped, no empty line after a final `\n`.
pub open spec fn lines_from(s: Seq<char>, start: int) -> Seq<Seq<char>>
    decreases s.len() - start,
{
    if start < 0 || start >= s.len() {
        seq![]
    } else {
        let e = line_end(s, start);
        if e < start || e > s.len() {
            seq![]
        } else {
            let piece = s.subrange(start, e);
            let line = if e < s.len() && piece.len() > 0 && piece.last() == '\r' {
                piece.drop_last()
            } else {
                piece
            };
            if e >= s.len() {
                seq![line]
            } else {
                seq![line] + lines_from(s, e + 1)
            }
        }
    }
}

pub open spec fn lines_of(s: Seq<char>) -> Seq<Seq<char>> {
    lines_from(s, 0)
}

pub open spec fn strings_view(v: Seq<String>) -> Seq<Seq<char>> {
    v.map_values(|x: String| x@)
}

/// The characters `s[start..end]`.
pub fn slice_chars(s: &Vec<char>, start: usize, end: usize) -> (piece: Vec<char>)
    requires
        start <= end <= s@.len(),
    ensures
        piece@ == s@.subrange(start as int, end as int),
{
    let mut piece: Vec<char> = Vec::new();
    let mut i = start;
    while i < end
        invariant
            start <= i <= end <= s@.len(),
            piece@ =~= s@.subrange(start as int, i as int),
        decreases end - i,
    {
        piece.push(s[i]);
        i += 1;
    }
    piece
}

/// The lines of `text`, as `str::lines` splits them.
pub fn text_lines(text: &str) -> (lines: Vec<String>)
    ensures
        strings_view(lines@) == lines_of(text@),
{
    let s = chars_of(text);
    let n = s.len();
    let mut lines: Vec<String> = Vec::new();
    let mut start: usize = 0;
    while start < n
        invariant
            start <= n,
            n == s@.len(),
            s@ == text@,
            strings_view(lines@) + lines_from(s@, start as int) == lines_of(text@),
        decreases n - start,
    {
        let mut e = start;
        while e < n && s[e] != '\n'
            invariant
                start <= e <= n,
                n == s@.len(),
                line_end(s@, start as int) == line_end(s@, e as int),
            decreases n - e,
        {
            e += 1;
        }
        proof {
            lemma_line_end(s@, start as int);
        }
        let mut piece = slice_chars(&s, start, e);
        if e < n && piece.len() > 0 && piece[piece.len() - 1] == '\r' {
            piece.pop();
        }
        let ghost before = lines@;
        lines.push(string_from(&piece));
        assert(strings_view(lines@) =~= strings_view(before).push(piece@));
        if e < n {
            assert(lines_from(s@, start as int) == seq![piece@] + lines_from(s@, e + 1));
            assert(strings_view(lines@) + lines_from(s@, e + 1) =~= strings_view(before) + lines_from(s@, start as int));
            start = e + 1;
        } else {
            assert(lines_from(s@, start as int) =~= seq![piece@]);
            assert(strings_view(lines@) + lines_from(s@, n as int) =~= strings_view(before) + lines_from(s@, start as int));
            start = n;
        }
    }
    assert(lines_from(s@, start as int) =~= Seq::<Seq<char>>::empty());
    assert(strings_view(lines@) =~= lines_of(text@));
    lines
}

/// Where the word starting at `start` ends: at the next white space, or the end.
pub open spec fn word_end(s: Seq<char>, start: int) -> int
    decreases s.len() - start,
{
    if start < 0 || start >= s.len() {
        s.len() as int
    } else if white_space(s[start]) {
        start
    } else {
        word_end(s, start + 1)
    }
}

pub proof fn lemma_word_end(s: Seq<char>, start: int)
    requires
        0 <= start <= s.len(),
    ensures
        start <= word_end(s, start) <= s.len(),
        start < s.len() && !white_space(s[start]) ==> start < word_end(s, start),
        word_end(s, start) < s.len() ==> white_space(s[word_end(s, start)]),
    decreases s.len() - start,
{
    if start < s.len() && !white_space(s[start]) {
        lemma_word_end(s, start + 1);
    }
}

/// The words from `start` on, as `str::split_whitespace` gives them.
pub open spec fn words_from(s: Seq<char>, start: int) -> Seq<Seq<char>>
    decreases s.len() - start,
{
    if start < 0 || start >= s.len() {
        seq![]
    } else if white_space(s[start]) {
        words_from(s, start + 1)
    } else {
        let e = word_end(s, start);
        if e <= start || e > s.len() {
            seq![]
        } else {
            seq![s.subrange(start, e)] + words_from(s, e)
        }
    }
}

pub open spec fn words_of(s: Seq<char>) -> Seq<Seq<char>> {
    words_from(s, 0)
}

/// The words of `text`, split at white space.
pub fn text_words(text: &str) -> (words: Vec<String>)
    ensures
        strings_view(words@) == words_of(text@),
{
    let s = chars_of(text);
    let n = s.len();
    let mut words: Vec<String> = Vec::new();
    let mut start: usize = 0;
    while start < n
        invariant
            start <= n,
            n == s@.len(),
            s@ == text@,
            strings_view(words@) + words_from(s@, start as int) == words_of(text@),
        decreases n - start,
    {
        if is_white_space(s[start]) {
            assert(words_from(s@, start as int) == words_from(s@, start + 1));
            start += 1;
        } else {
            let mut e = start;
            while e < n && !is_white_space(s[e])
                invariant
                    start <= e <= n,
                    n == s@.len(),
                    word_end(s@, start as int) == word_end(s@, e as int),
                decreases n - e,
            {
                e += 1;
            }
            proof {
                lemma_word_end(s@, start as int);
            }
            let piece = slice_chars(&s, start, e);
            let ghost before = words@;
            words.push(string_from(&piece));
            assert(strings_view(words@) =~= strings_view(before).push(piece@));
            assert(words_from(s@, start as int) == seq![piece@] + words_from(s@, e as int));
            assert(strings_view(words@) + words_from(s@, e as int) =~= strings_view(before) + words_from(s@, start as int));
            start = e;
        }
    }
    assert(words_from(s@, start as int) =~= Seq::<Seq<char>>::empty());
    assert(strings_view(words@) =~= words_of(text@));
    words
}

/// Whether `pattern` occurs in `text`, as `str::contains` decides for a text pattern.
pub open spec fn contains_text(text: Seq<char>, pattern: Seq<char>) -> bool {
    exists|i: int| 0 <= i <= text.len() - pattern.len() && #[trigger] text.subrange(i, i + pattern.len()) == pattern
}

fn occurs_at_index(t: &Vec<char>, p: &Vec<char>, i: usize) -> (hit: bool)
    requires
        i + p@.len() <= t@.len(),
    ensures
        hit == (t@.subrange(i as int, i + p@.len()) == p@),
{
    let total = t.len();
    let mut k: usize = 0;
    while k < p.len()
        invariant
            k <= p@.len(),
            i + p@.len() <= t@.len(),
            t@.len() == total,
            forall|q: int| 0 <= q < k ==> t@[i + q] == p@[q],
        decreases p@.len() - k,
    {
        if t[i + k] != p[k] {
            assert(t@.subrange(i as int, i + p@.len())[k as int] != p@[k as int]);
            return false;
        }
        k += 1;
    }
    assert(t@.subrange(i as int, i + p@.len()) =~= p@);
    true
}

pub fn text_contains(text: &str, pattern: &str) -> (found: bool)
    ensures
        found == contains_text(text@, pattern@),
{
    let t = chars_of(text);
    let p = chars_of(pattern);
    if p.len() > t.len() {
        return false;
    }
    let last = t.len() - p.len();
    let mut i: usize = 0;
    while i < last
        invariant
            i <= last,
            last + p@.len() == t@.len(),
            t@ == text@,
            p@ == pattern@,
            forall|j: int| 0 <= j < i ==> #[trigger] t@.subrange(j, j + p@.len()) != p@,
        decreases last - i,
    {
        if occurs_at_index(&t, &p, i) {
            return true;
        }
        i += 1;
    }
    if occurs_at_index(&t, &p, last) {
        return true;
    }
    assert forall|j: int| 0 <= j <= t@.len() - p@.len() implies #[trigger] t@.subrange(j, j + p@.len()) != p@ by {
        if j < last {
        }
    }
    false
}

/// Appends the characters of `text` to `out`.
pub fn append_text(out: &mut Vec<char>, text: &str)
    ensures
        final(out)@ == old(out)@ + text@,
{
    let chars = chars_of(text);
    append_chars(out, &chars);
}

/// Appends `chars` to `out`.
pub fn append_chars(out: &mut Vec<char>, chars: &Vec<char>)
    ensures
        final(out)@ == old(out)@ + chars@,
{
    let ghost start = out@;
    let mut i: usize = 0;
    while i < chars.len()
        invariant
            i <= chars@.len(),
            out@ =~= start + chars@.take(i as int),
        decreases chars@.len() - i,
    {
        out.push(chars[i]);
        i += 1;
    }
    assert(chars@.take(i as int) =~= chars@);
}

// ---------------------------------------------------------------- round trips

/// A text with no white space at either end is its own trim.
pub proof fn lemma_trim_unchanged(s: Seq<char>)
    requires
        s.len() > 0 ==> !white_space(s[0]) && !white_space(s.last()),
    ensures
        trim(s) == s,
{
}

/// The decimal form of a number is digits only, and not empty.
pub proof fn lemma_decimal_digits(n: nat)
    ensures
        decimal(n).len() > 0,
        forall|i: int| 0 <= i < decimal(n).len() ==> '0' <= #[trigger] decimal(n)[i] <= '9',
    decreases n,
{
    if n >= 10 {
        lemma_decimal_digits(n / 10);
        let d = decimal(n / 10);
        assert forall|i: int| 0 <= i < decimal(n).len() implies '0' <= #[trigger] decimal(n)[i] <= '9' by {
            if i < d.len() {
                assert(decimal(n)[i] == d[i]);
            }
        }
    }
}

proof fn lemma_digit_round_trip(d: nat)
    requires
        d < 10,
    ensures
        digit_value(digit_char(d)) == Some(d),
{
}

/// Reading the decimal form of a number gives the number back.
pub proof fn lemma_digits_value_decimal(n: nat)
    ensures
        digits_value(decimal(n)) == Some(n),
    decreases n,
{
    let s = decimal(n);
    if n < 10 {
        lemma_digit_round_trip(n);
        assert(s.drop_last() =~= Seq::<char>::empty());
        assert(digits_value(s.drop_last()) == Some(0nat));
        assert(s.last() == digit_char(n));
        assert(digits_value(s) == Some(0nat * 10 + n));
    } else {
        lemma_digits_value_decimal(n / 10);
        lemma_digit_round_trip(n % 10);
        assert(s.drop_last() =~= decimal(n / 10));
        assert(s.last() == digit_char(n % 10));
        assert(digits_value(s) == Some((n / 10) * 10 + n % 10));
        assert((n / 10) * 10 + n % 10 == n);
    }
}

/// Parsing the decimal form of a number no larger than `max` gives it back.
pub proof fn lemma_parse_decimal(n: nat, max: nat)
    requires
        n <= max,
    ensures
        parse_unsigned(decimal(n), max) == Some(n),
        trim(decimal(n)) == decimal(n),
{
    lemma_decimal_digits(n);
    lemma_digits_value_decimal(n);
    let s = decimal(n);
    assert('0' <= s[0] <= '9');
    assert('0' <= s[s.len() - 1] <= '9');
    lemma_trim_unchanged(s);
}

/// A line with no `\n` ends where the text ends, or at the `\n` after it.
proof fn lemma_line_end_at(s: Seq<char>, start: int, k: int)
    requires
        0 <= start <= k <= s.len(),
        forall|i: int| start <= i < k ==> s[i] != '\n',
        k < s.len() ==> s[k] == '\n',
    ensures
        line_end(s, start) == k,
{
    lemma_line_end(s, start);
    let e = line_end(s, start);
    if e < k {
        assert(s[e] == '\n');
    } else if e > k {
        assert(s[k] != '\n');
    }
}

/// The lines of a nonempty text with no `\n` are that text alone.
pub proof fn lemma_lines_of_one(a: Seq<char>)
    requires
        a.len() > 0,
        forall|i: int| 0 <= i < a.len() ==> a[i] != '\n',
    ensures
        lines_of(a) == seq![a],
{
    lemma_line_end_at(a, 0, a.len() as int);
    assert(a.subrange(0, a.len() as int) =~= a);
}

/// Two lines joined by `\n` split back into those two lines, when neither
/// holds a `\n`, the first does not end in `\r`, and the second is not empty.
pub proof fn lemma_lines_of_two(a: Seq<char>, b: Seq<char>)
    requires
        b.len() > 0,
        forall|i: int| 0 <= i < a.len() ==> a[i] != '\n',
        forall|i: int| 0 <= i < b.len() ==> b[i] != '\n',
        a.len() > 0 ==> a.last() != '\r',
    ensures
        lines_of(a.push('\n') + b) == seq![a, b],
{
    let t = a.push('\n') + b;
    let n = a.len() as int;
    assert forall|i: int| 0 <= i < n implies t[i] != '\n' by {
        assert(t[i] == a[i]);
    }
    assert(t[n] == '\n');
    lemma_line_end_at(t, 0, n);
    assert forall|i: int| n + 1 <= i < t.len() implies t[i] != '\n' by {
        assert(t[i] == b[i - n - 1]);
    }
    lemma_line_end_at(t, n + 1, t.len() as int);
    assert(t.subrange(0, n) =~= a);
    assert(t.subrange(n + 1, t.len() as int) =~= b);
    assert(lines_from(t, n + 1) == seq![b]);
    if a.len() > 0 {
        assert(t.subrange(0, n).last() == a.last());
    }
    assert(lines_from(t, 0) == seq![a] + lines_from(t, n + 1));
}

/// Where a line ends does not move when text is put in front.
proof fn lemma_line_end_shift(p: Seq<char>, y: Seq<char>, j: int)
    requires
        0 <= j <= y.len(),
    ensures
        line_end(p + y, p.len() + j) == p.len() + line_end(y, j),
    decreases y.len() - j,
{
    let t = p + y;
    if j < y.len() {
        assert(t[p.len() + j] == y[j]);
        if y[j] != '\n' {
            lemma_line_end_shift(p, y, j + 1);
        }
    }
}

/// The lines of a text do not change when text ending in `\n` is put in front.
proof fn lemma_lines_from_shift(p: Seq<char>, y: Seq<char>, j: int)
    requires
        0 <= j <= y.len(),
    ensures
        lines_from(p + y, p.len() + j) == lines_from(y, j),
    decreases y.len() - j,
{
    let t = p + y;
    if j < y.len() {
        lemma_line_end_shift(p, y, j);
        lemma_line_end(y, j);
        let e = line_end(y, j);
        assert(t.subrange(p.len() + j, p.len() + e) =~= y.subrange(j, e));
        if e < y.len() {
            lemma_lines_from_shift(p, y, e + 1);
        }
    }
}

/// Joining two texts with `\n` joins their lines, when the first is not
/// empty and ends in neither `\n` nor `\r`, and the second is not empty.
proof fn lemma_lines_from_append(x: Seq<char>, y: Seq<char>, start: int)
    requires
        0 <= start < x.len(),
        x.last() != '\n',
        x.last() != '\r',
        y.len() > 0,
    ensures
        lines_from(x.push('\n') + y, start) == lines_from(x, start) + lines_of(y),
    decreases x.len() - start,
{
    let t = x.push('\n') + y;
    let n = x.len() as int;
    lemma_line_end(x, start);
    let e = line_end(x, start);
    assert forall|i: int| start <= i < e implies t[i] != '\n' by {
        assert(t[i] == x[i]);
    }
    if e < n {
        assert(t[e] == x[e]);
        lemma_line_end_at(t, start, e);
        assert(t.subrange(start, e) =~= x.subrange(start, e));
        assert(e + 1 < n) by {
            if e + 1 == n {
                assert(x[e] == x.last());
            }
        }
        lemma_lines_from_append(x, y, e + 1);
        assert(lines_from(t, start) =~= seq![lines_from(t, start)[0]] + lines_from(t, e + 1));
    } else {
        assert(t[n] == '\n');
        lemma_line_end_at(t, start, n);
        assert(t.subrange(start, n) =~= x.subrange(start, n));
        assert(x.subrange(start, n).last() == x.last());
        assert(x.push('\n') + y =~= x.push('\n') + y);
        lemma_lines_from_shift(x.push('\n'), y, 0);
        assert(lines_from(t, n + 1) == lines_of(y));
    }
}

/// The lines of `x`, `\n`, `y` are the lines of `x` then the lines of `y`,
/// when `x` is not empty and ends in neither `\n` nor `\r`, and `y` is not
/// empty.
pub proof fn lemma_lines_of_append(x: Seq<char>, y: Seq<char>)
    requires
        x.len() > 0,
        x.last() != '\n',
        x.last() != '\r',
        y.len() > 0,
    ensures
        lines_of(x.push('\n') + y) == lines_of(x) + lines_of(y),
{
    lemma_lines_from_append(x, y, 0);
}

/// A final `\n` adds no line, when the text does not end in `\n` or `\r`.
pub proof fn lemma_lines_from_push_newline(x: Seq<char>, start: int)
    requires
        0 <= start < x.len(),
        x.last() != '\n',
        x.last() != '\r',
    ensures
        lines_from(x.push('\n'), start) == lines_from(x, start),
    decreases x.len() - start,
{
    let t = x.push('\n');
    let n = x.len() as int;
    lemma_line_end(x, start);
    let e = line_end(x, start);
    assert forall|i: int| start <= i < e implies t[i] != '\n' by {
        assert(t[i] == x[i]);
    }
    if e < n {
        assert(t[e] == x[e]);
        lemma_line_end_at(t, start, e);
        assert(t.subrange(start, e) =~= x.subrange(start, e));
        assert(e + 1 < n) by {
            if e + 1 == n {
                assert(x[e] == x.last());
            }
        }
        lemma_lines_from_push_newline(x, e + 1);
        let piece = x.subrange(start, e);
        let line = if piece.len() > 0 && piece.last() == '\r' {
            piece.drop_last()
        } else {
            piece
        };
        assert(lines_from(t, start) == seq![line] + lines_from(t, e + 1));
        assert(lines_from(x, start) == seq![line] + lines_from(x, e + 1));
    } else {
        lemma_line_end_at(t, start, n);
        assert(t.subrange(start, n) =~= x.subrange(start, n));
        assert(x.subrange(start, n).last() == x.last());
        assert(lines_from(t, n + 1) =~= Seq::<Seq<char>>::empty());
        assert(lines_from(t, start) == seq![x.subrange(start, n)] + lines_from(t, n + 1));
        assert(lines_from(x, start) == seq![x.subrange(start, n)]);
    }
}

/// Every line of a text is free of `\n`.
pub proof fn lemma_lines_have_no_newline(s: Seq<char>, start: int)
    requires
        0 <= start,
    ensures
        forall|k: int, i: int| 0 <= k < lines_from(s, start).len() && 0 <= i < lines_from(s, start)[k].len() ==> #[trigger] lines_from(s, start)[k][i] != '\n',
    decreases s.len() - start,
{
    if start < s.len() {
        lemma_line_end(s, start);
        let e = line_end(s, start);
        if e < s.len() {
            lemma_lines_have_no_newline(s, e + 1);
        }
        let l = lines_from(s, start);
        assert forall|k: int, i: int| 0 <= k < l.len() && 0 <= i < l[k].len() implies #[trigger] l[k][i] != '\n' by {
            if k == 0 {
                assert(l[0][i] == s[start + i]);
            } else {
                assert(l[k] == lines_from(s, e + 1)[k - 1]);
            }
        }
    }
}


proof fn lemma_trim_start_shape(s: Seq<char>)
    ensures
        exists|a: int| 0 <= a <= s.len() && trim_start(s) == s.skip(a),
        trim_start(s).len() > 0 ==> !white_space(trim_start(s)[0]),
    decreases s.len(),
{
    if s.len() > 0 && white_space(s[0]) {
        lemma_trim_start_skip(s, 1);
        lemma_trim_start_shape(s.drop_first());
        let a = choose|a: int| 0 <= a <= s.drop_first().len() && trim_start(s.drop_first()) == s.drop_first().skip(a);
        assert(s.drop_first().skip(a) =~= s.skip(a + 1));
        assert(s.skip(1) =~= s.drop_first());
    } else {
        assert(s.skip(0) =~= s);
    }
}

proof fn lemma_trim_end_shape(s: Seq<char>)
    ensures
        exists|b: int| 0 <= b <= s.len() && trim_end(s) == s.take(b),
        trim_end(s).len() > 0 ==> !white_space(trim_end(s).last()),
    decreases s.len(),
{
    if s.len() > 0 && white_space(s.last()) {
        lemma_trim_end_shape(s.drop_last());
        let b = choose|b: int| 0 <= b <= s.drop_last().len() && trim_end(s.drop_last()) == s.drop_last().take(b);
        assert(s.drop_last().take(b) =~= s.take(b));
    } else {
        assert(s.take(s.len() as int) =~= s);
    }
}

/// The trim of a text is a piece of it with no white space at either end.
pub proof fn lemma_trim_shape(s: Seq<char>)
    ensures
        exists|a: int, b: int| 0 <= a <= b <= s.len() && trim(s) == s.subrange(a, b),
        trim(s).len() > 0 ==> !white_space(trim(s)[0]) && !white_space(trim(s).last()),
{
    lemma_trim_start_shape(s);
    let u = trim_start(s);
    let a = choose|a: int| 0 <= a <= s.len() && u == s.skip(a);
    lemma_trim_end_shape(u);
    let b = choose|b: int| 0 <= b <= u.len() && trim_end(u) == u.take(b);
    assert(trim(s) =~= s.subrange(a, a + b));
    if trim(s).len() > 0 {
        assert(trim(s)[0] == u[0]);
    }
}

} // verus!
