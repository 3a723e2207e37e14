//! Terminal display widths and grapheme clusters, as ratatui measures them.

use vstd::prelude::*;

verus! {

/// Columns that ratatui's `Line` gives a text: the Unicode display width of
/// each of its lines, summed.
pub uninterp spec fn line_width(text: Seq<char>) -> usize;

/// Calls `ratatui::text::Line::from(text).width()`, which sums
/// `unicode_width`'s display width over the line's spans. The contract only
/// names the result `line_width` of the text; that Unicode table is not
/// restated.
#[verifier::external_body]
pub fn title_width(text: &str) -> (width: usize)
    ensures
        width == line_width(text@),
{
    ratatui::text::Line::from(text).width()
}

/// Columns that ratatui's `Span` gives a text: `unicode_width`'s display
/// width of the whole text.
pub uninterp spec fn span_columns(text: Seq<char>) -> usize;

/// Calls `ratatui::text::Span::raw(text).width()`, which is
/// `UnicodeWidthStr::width` of the text. The contract names the result
/// `span_columns` of the text; the Unicode width table is not restated.
#[verifier::external_body]
pub fn span_width(text: &str) -> (width: usize)
    ensures
        width == span_columns(text@),
{
    ratatui::text::Span::raw(text).width()
}

/// Whether `c` is a control character (general category Cc), as
/// `char::is_control` decides: U+0000 to U+001F and U+007F to U+009F.
pub open spec fn control_char(c: char) -> bool {
    (c as u32) <= 0x1F || (0x7F <= (c as u32) && (c as u32) <= 0x9F)
}

/// The extended grapheme clusters of a text, as `unicode_segmentation`
/// splits them, less those holding a control character.
pub uninterp spec fn grapheme_split(text: Seq<char>) -> Seq<Seq<char>>;

/// Calls `ratatui::text::Span::raw(text).styled_graphemes(..)`, which
/// splits the text into extended grapheme clusters and drops every cluster
/// that holds a control character. The contract names the clusters
/// `grapheme_split` of the text and states that none holds a control
/// character; the segmentation rules are not restated.
#[verifier::external_body]
pub fn graphemes(text: &str) -> (clusters: Vec<String>)
    ensures
        crate::text::strings_view(clusters@) == grapheme_split(text@),
        forall|k: int, i: int|
            0 <= k < clusters@.len() && 0 <= i < clusters@[k]@.len() ==> !control_char(#[trigger] clusters@[k]@[i]),
{
    let span = ratatui::text::Span::raw(text);
    span.styled_graphemes(ratatui::style::Style::default()).map(|g| g.symbol.to_string()).collect()
}

/// Columns ratatui gives one grapheme cluster in a cell.
pub uninterp spec fn cell_columns(symbol: Seq<char>) -> usize;

/// Calls `ratatui::buffer::CellWidth::cell_width` on a grapheme cluster:
/// one column for a single byte, else `unicode_width`'s width plus one for
/// each halfwidth sound mark. Its debug check rejects a lone control
/// byte, so a cluster with a control character is not passed. The contract
/// names the result `cell_columns` of the cluster.
#[verifier::external_body]
pub fn cell_width(symbol: &str) -> (width: usize)
    requires
        forall|i: int| 0 <= i < symbol@.len() ==> !control_char(#[trigger] symbol@[i]),
    ensures
        width == cell_columns(symbol@),
{
    usize::from(ratatui::buffer::CellWidth::cell_width(symbol))
}

} // verus!
