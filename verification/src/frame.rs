//! A painted board: one text line per terminal row.

use vstd::prelude::*;
use crate::text::{append_text, string_from, strings_view};

verus! {

#[derive(Debug, Clone, PartialEq, Eq)]
pub struct Frame {
    pub lines: Vec<String>,
}

/// The lines joined by `\n`.
pub open spec fn joined_lines(lines: Seq<Seq<char>>, n: int) -> Seq<char>
    decreases n,
{
    if n <= 0 {
        seq![]
    } else if n == 1 {
        lines[0]
    } else {
        joined_lines(lines, n - 1).push('\n') + lines[n - 1]
    }
}

impl Frame {
    /// The whole screen as one text, rows separated by `\n`.
    pub fn joined(&self) -> (text: String)
        ensures
            text@ == joined_lines(strings_view(self.lines@), self.lines@.len() as int),
    {
        let mut out: Vec<char> = Vec::new();
        let mut i: usize = 0;
        while i < self.lines.len()
            invariant
                i <= self.lines@.len(),
                out@ == joined_lines(strings_view(self.lines@), i as int),
            decreases self.lines@.len() - i,
        {
            assert(strings_view(self.lines@)[i as int] == self.lines@[i as int]@);
            if i > 0 {
                out.push('\n');
            }
            append_text(&mut out, self.lines[i].as_str());
            if i == 0 {
                assert(out@ =~= joined_lines(strings_view(self.lines@), 1));
            } else {
                assert(out@ =~= joined_lines(strings_view(self.lines@), i + 1));
            }
            i += 1;
        }
        string_from(&out)
    }
}

} // verus!
