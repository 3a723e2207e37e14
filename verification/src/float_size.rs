//! Where the floating pane opens and how large it is, from the plugin's
//! configuration: each of `x`, `y`, `width`, `height` as a percentage or a
//! number of cells.

use vstd::prelude::*;
use std::collections::BTreeMap;
use crate::text::{chars_of, decimal, lemma_decimal_digits, lemma_parse_decimal, lemma_trim_unchanged, parse_unsigned, parse_unsigned_exec, push_decimal, slice_chars, string_from, trim, trim_str, white_space};

verus! {

#[derive(Debug, Clone, PartialEq, Eq)]
pub struct FloatSize {
    pub x: String,
    pub y: String,
    pub width: String,
    pub height: String,
}

/// The four extents as characters.
#[verifier::ext_equal]
pub struct FloatSizeModel {
    pub x: Seq<char>,
    pub y: Seq<char>,
    pub width: Seq<char>,
    pub height: Seq<char>,
}

impl View for FloatSize {
    type V = FloatSizeModel;

    open spec fn view(&self) -> FloatSizeModel {
        FloatSizeModel { x: self.x@, y: self.y@, width: self.width@, height: self.height@ }
    }
}

pub open spec fn three_percent() -> Seq<char> {
    seq!['3', '%']
}

pub open spec fn ninety_four_percent() -> Seq<char> {
    seq!['9', '4', '%']
}

/// A large centered pane: 3% in from the top left, 94% wide and high.
pub open spec fn default_float_size() -> FloatSizeModel {
    FloatSizeModel { x: three_percent(), y: three_percent(), width: ninety_four_percent(), height: ninety_four_percent() }
}

impl Default for FloatSize {
    fn default() -> (size: FloatSize)
        ensures
            size@ == default_float_size(),
    {
        proof {
            reveal_strlit("3%");
            reveal_strlit("94%");
        }
        let size = FloatSize {
            x: String::from_str("3%"),
            y: String::from_str("3%"),
            width: String::from_str("94%"),
            height: String::from_str("94%"),
        };
        assert(size@ =~= default_float_size());
        size
    }
}

/// The text the configuration holds under `key`.
pub open spec fn config_text(config: Map<String, String>, key: Seq<char>) -> Option<Seq<char>> {
    if exists|k: String| config.contains_key(k) && k@ == key {
        Some(config[choose|k: String| config.contains_key(k) && k@ == key]@)
    } else {
        None
    }
}

/// Calls `BTreeMap::get` with a `&str` key. A `String` key is found by a
/// `&str` that reads the same, so the result is the value of the one entry
/// whose key reads `key`, and `None` when there is none.
#[verifier::external_body]
fn config_value<'a>(config: &'a BTreeMap<String, String>, key: &str) -> (value: Option<&'a String>)
    ensures
        match value {
            Some(v) => config_text(config@, key@) == Some(v@),
            None => config_text(config@, key@) is None,
        },
{
    config.get(key)
}

/// A percentage: the trimmed text ends in `%` and what is before it,
/// trimmed, is a `u16`.
pub open spec fn percent_of(raw: Seq<char>) -> Option<nat> {
    let t = trim(raw);
    if t.len() > 0 && t.last() == '%' {
        parse_unsigned(trim(t.drop_last()), u16::MAX as nat)
    } else {
        None
    }
}

/// An extent (`minimum` 1) or an origin (`minimum` 0): a percentage from
/// `minimum` to 100, written back as `N%`, or a number of cells of at least
/// `minimum`, written back in decimal. Anything else is ignored.
pub open spec fn token_of(raw: Option<Seq<char>>, minimum: nat) -> Option<Seq<char>> {
    match raw {
        None => None,
        Some(r) => {
            let t = trim(r);
            if t.len() == 0 {
                None
            } else {
                match percent_of(t) {
                    Some(p) => if minimum <= p && p <= 100 {
                        Some(decimal(p).push('%'))
                    } else {
                        None
                    },
                    None => match parse_unsigned(t, u16::MAX as nat) {
                        Some(cells) => if cells >= minimum {
                            Some(decimal(cells))
                        } else {
                            None
                        },
                        None => None,
                    },
                }
            }
        },
    }
}

/// The size the configuration asks for; what it leaves out or gets wrong
/// keeps the default.
pub open spec fn float_size_of(config: Map<String, String>) -> FloatSizeModel {
    let d = default_float_size();
    FloatSizeModel {
        width: match token_of(config_text(config, seq!['w', 'i', 'd', 't', 'h']), 1) {
            Some(t) => t,
            None => d.width,
        },
        height: match token_of(config_text(config, seq!['h', 'e', 'i', 'g', 'h', 't']), 1) {
            Some(t) => t,
            None => d.height,
        },
        x: match token_of(config_text(config, seq!['x']), 0) {
            Some(t) => t,
            None => d.x,
        },
        y: match token_of(config_text(config, seq!['y']), 0) {
            Some(t) => t,
            None => d.y,
        },
    }
}

fn parse_percent(raw: &str) -> (percent: Option<u16>)
    ensures
        match percent_of(raw@) {
            Some(p) => percent == Some(p as u16),
            None => percent is None,
        },
{
    let t = chars_of(trim_str(raw));
    if t.len() == 0 || t[t.len() - 1] != '%' {
        return None;
    }
    let number = string_from(&slice_chars(&t, 0, t.len() - 1));
    assert(number@ =~= trim(raw@).drop_last());
    let digits = chars_of(trim_str(number.as_str()));
    match parse_unsigned_exec(&digits, 65535) {
        Some(v) => Some(v as u16),
        None => None,
    }
}

fn parse_token(raw: Option<&str>, minimum: u16) -> (token: Option<String>)
    ensures
        opt_view(token) == token_of(opt_str(raw), minimum as nat),
{
    let raw = match raw {
        Some(r) => r,
        None => {
            return None;
        },
    };
    let t = trim_str(raw);
    if t.is_empty() {
        return None;
    }
    if let Some(percent) = parse_percent(t) {
        if percent >= minimum && percent <= 100 {
            let mut out: Vec<char> = Vec::new();
            push_decimal(&mut out, percent as u64);
            out.push('%');
            return Some(string_from(&out));
        }
        return None;
    }
    let cells = match parse_unsigned_exec(&chars_of(t), 65535) {
        Some(v) => v,
        None => {
            return None;
        },
    };
    if cells >= minimum as u64 {
        let mut out: Vec<char> = Vec::new();
        push_decimal(&mut out, cells);
        assert(out@ =~= decimal(cells as nat));
        Some(string_from(&out))
    } else {
        None
    }
}

pub open spec fn opt_view(o: Option<String>) -> Option<Seq<char>> {
    match o {
        Some(s) => Some(s@),
        None => None,
    }
}

pub open spec fn opt_str(o: Option<&str>) -> Option<Seq<char>> {
    match o {
        Some(s) => Some(s@),
        None => None,
    }
}

fn config_token(config: &BTreeMap<String, String>, key: &str, minimum: u16) -> (token: Option<String>)
    ensures
        opt_view(token) == token_of(config_text(config@, key@), minimum as nat),
{
    match config_value(config, key) {
        Some(v) => parse_token(Some(v.as_str()), minimum),
        None => parse_token(None, minimum),
    }
}

/// The floating pane's size from the plugin configuration.
pub fn float_size_from_config(config: &BTreeMap<String, String>) -> (size: FloatSize)
    ensures
        size@ == float_size_of(config@),
{
    proof {
        reveal_strlit("width");
        reveal_strlit("height");
        reveal_strlit("x");
        reveal_strlit("y");
    }
    let mut size = FloatSize::default();
    if let Some(width) = config_token(config, "width", 1) {
        size.width = width;
    }
    if let Some(height) = config_token(config, "height", 1) {
        size.height = height;
    }
    if let Some(x) = config_token(config, "x", 0) {
        size.x = x;
    }
    if let Some(y) = config_token(config, "y", 0) {
        size.y = y;
    }
    assert("width"@ =~= seq!['w', 'i', 'd', 't', 'h']);
    assert("height"@ =~= seq!['h', 'e', 'i', 'g', 'h', 't']);
    assert("x"@ =~= seq!['x']);
    assert("y"@ =~= seq!['y']);
    assert(size@ =~= float_size_of(config@));
    size
}


/// Each extent comes from its own entry of the configuration: the width
/// from `width`, the height from `height`, the origin from `x` and `y`,
/// each when that entry holds a valid value, and the default (94% for the
/// extents, 3% for the origin) when it is missing or invalid. No entry
/// feeds another extent.
pub proof fn law_each_extent_reads_its_own_key(config: Map<String, String>)
    ensures
        float_size_of(config).width == match token_of(config_text(config, seq!['w', 'i', 'd', 't', 'h']), 1) {
            Some(t) => t,
            None => seq!['9', '4', '%'],
        },
        float_size_of(config).height == match token_of(config_text(config, seq!['h', 'e', 'i', 'g', 'h', 't']), 1) {
            Some(t) => t,
            None => seq!['9', '4', '%'],
        },
        float_size_of(config).x == match token_of(config_text(config, seq!['x']), 0) {
            Some(t) => t,
            None => seq!['3', '%'],
        },
        float_size_of(config).y == match token_of(config_text(config, seq!['y']), 0) {
            Some(t) => t,
            None => seq!['3', '%'],
        },
        config_text(config, seq!['w', 'i', 'd', 't', 'h']) is None ==> float_size_of(config).width == seq!['9', '4', '%'],
        config_text(config, seq!['h', 'e', 'i', 'g', 'h', 't']) is None ==> float_size_of(config).height == seq!['9', '4', '%'],
{
}


/// A valid value reads back as written: a percentage `N%` from the minimum
/// to 100, or a number of cells from the minimum to the largest `u16`;
/// a percentage over 100 and a value under the minimum are ignored.
pub proof fn law_valid_values_read_back(n: nat, minimum: nat)
    requires
        minimum <= 1,
        n <= u16::MAX,
    ensures
        minimum <= n <= 100 ==> token_of(Some(decimal(n).push('%')), minimum) == Some(decimal(n).push('%')),
        100 < n ==> token_of(Some(decimal(n).push('%')), minimum) is None,
        minimum <= n ==> token_of(Some(decimal(n)), minimum) == Some(decimal(n)),
        n < minimum ==> token_of(Some(decimal(n)), minimum) is None && token_of(Some(decimal(n).push('%')), minimum) is None,
{
    lemma_parse_decimal(n, u16::MAX as nat);
    lemma_decimal_digits(n);
    let d = decimal(n);
    let p = d.push('%');
    assert(!white_space(d[0]));
    assert(!white_space(d.last()));
    assert(!white_space('%'));
    lemma_trim_unchanged(d);
    assert(p[0] == d[0]);
    lemma_trim_unchanged(p);
    assert(p.drop_last() =~= d);
    assert(p.last() == '%');
    assert(d.last() != '%');
}

} // verus!
