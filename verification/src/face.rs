//! What a card and the footer say, piece by piece, each piece with the
//! tone it is shown in. Colours for the tones are the painter's business.

use vstd::prelude::*;
use crate::board::{min_u16, BoardModel};
use crate::grid::{clamp_u16, LayoutMode, LayoutPlan, Rect};
use crate::hints::title_match_range_spec;
use crate::overview::Overview;
use crate::search::lemma_first_index_found;
use crate::width::{cell_columns, cell_width, control_char, grapheme_split, graphemes, span_columns, span_width};
use crate::text::{strings_view, append_text, chars_of, decimal, push_decimal, slice_chars, string_from};

verus! {

/// How a piece of text is shown.
#[derive(Debug, Clone, Copy, PartialEq, Eq, Structural)]
pub enum Tone {
    /// A title, or plain words.
    Text,
    /// The `›` before the selected card.
    Cursor,
    /// The `◆` before a session card.
    SessionMark,
    /// The `*` before a pinned card.
    PinMark,
    /// The `●` before the active tab or the current session.
    Active,
    /// The `[-]` before the card `-` goes to.
    Previous,
    /// The part of a title the Flash query matched.
    Match,
    /// The tip letters already typed.
    TipTyped,
    /// The tip letters still to type.
    Tip,
    /// The session name after a pinned title.
    PinSession,
    /// The tab count after a session's name.
    Count,
    /// The footer's `FLASH` badge.
    FlashBadge,
    /// The footer's query.
    Query,
    /// The footer's typed tip letters.
    TipPrefix,
    /// The footer's quiet hint.
    Muted,
    /// The footer's session name badge.
    SessionBadge,
}

/// A framed card's border tone.
#[derive(Debug, Clone, Copy, PartialEq, Eq, Structural)]
pub enum Border {
    /// The card matches the Flash query.
    Match,
    /// The card is selected.
    Cursor,
    /// The card is a pin.
    Pin,
    /// The card is a session.
    Session,
    Plain,
}

/// A piece of text and its tone.
#[derive(Debug, Clone, PartialEq, Eq)]
pub struct Piece {
    pub text: String,
    pub tone: Tone,
}

pub struct PieceModel {
    pub text: Seq<char>,
    pub tone: Tone,
}

impl View for Piece {
    type V = PieceModel;

    open spec fn view(&self) -> PieceModel {
        PieceModel { text: self.text@, tone: self.tone }
    }
}

pub open spec fn pieces_view(pieces: Seq<Piece>) -> Seq<PieceModel> {
    pieces.map_values(|p: Piece| p@)
}

pub open spec fn piece(text: Seq<char>, tone: Tone) -> PieceModel {
    PieceModel { text, tone }
}

/// `p` when `c` holds, else nothing.
pub open spec fn when(c: bool, p: PieceModel) -> Seq<PieceModel> {
    if c {
        seq![p]
    } else {
        seq![]
    }
}

/// The Flash query; empty outside Flash search.
pub open spec fn query_of(b: BoardModel) -> Seq<char> {
    match b.hint {
        Some(h) => h.query,
        None => seq![],
    }
}

/// The tip letters typed; empty outside Flash search.
pub open spec fn prefix_of(b: BoardModel) -> Seq<char> {
    match b.hint {
        Some(h) => h.jump_prefix,
        None => seq![],
    }
}

/// Where the Flash query occurs in card `index`'s title.
pub open spec fn match_range(b: BoardModel, index: int) -> Option<(int, int)> {
    match b.hint {
        Some(h) => match b.item_title(index) {
            Some(t) => title_match_range_spec(t, h.query),
            None => None,
        },
        None => None,
    }
}

/// The tip on card `index`.
pub open spec fn label_of(b: BoardModel, index: int) -> Option<Seq<char>> {
    match b.hint {
        Some(h) => if 0 <= index < h.labels.len() {
            h.labels[index]
        } else {
            None
        },
        None => None,
    }
}

/// Whether card `index` matches a nonempty Flash query.
pub open spec fn is_candidate(b: BoardModel, index: int) -> bool {
    match_range(b, index) is Some && query_of(b).len() > 0
}

/// A tip: the letters typed so far, then the letters still to type.
pub open spec fn badge(label: Seq<char>, typed: int) -> Seq<PieceModel> {
    let k = if typed < label.len() {
        typed
    } else {
        label.len() as int
    };
    when(k > 0, piece(label.take(k), Tone::TipTyped)) + when(k < label.len(), piece(label.skip(k), Tone::Tip))
}

/// A title in Flash search: the match highlighted, its tip just before it.
pub open spec fn title_pieces(title: Seq<char>, range: Option<(int, int)>, label: Option<Seq<char>>, typed: int) -> Seq<PieceModel> {
    match range {
        None => seq![piece(title, Tone::Text)],
        Some((start, len)) => seq![piece(title.subrange(0, start), Tone::Text)] + (match label {
            Some(l) => badge(l, typed),
            None => seq![],
        }) + seq![
            piece(title.subrange(start, start + len), Tone::Match),
            piece(title.subrange(start + len, title.len() as int), Tone::Text),
        ],
    }
}

/// The marks before a card's title.
pub open spec fn card_marks(b: BoardModel, index: int, mode: LayoutMode) -> Seq<PieceModel> {
    when(
        mode == LayoutMode::Scroll && b.drilled is None && !b.item_is_session(index) && !b.item_is_pinned(index),
        piece("  "@, Tone::Text),
    ) + when(mode != LayoutMode::Framed && b.cursor == index, piece("› "@, Tone::Cursor)) + when(
        b.item_is_session(index),
        piece("◆ "@, Tone::SessionMark),
    ) + when(b.item_is_pinned(index), piece("* "@, Tone::PinMark)) + when(
        b.item_is_active(index),
        piece("● "@, Tone::Active),
    ) + when(b.is_previous_item(index), piece("[-] "@, Tone::Previous))
}

/// The title as shown: highlighted in Flash search, plain otherwise.
pub open spec fn card_title(b: BoardModel, index: int) -> Seq<PieceModel> {
    let title = match b.item_title(index) {
        Some(t) => t,
        None => seq![],
    };
    if b.hint is Some {
        title_pieces(
            title,
            if is_candidate(b, index) {
                match_range(b, index)
            } else {
                None
            },
            label_of(b, index),
            prefix_of(b).len() as int,
        )
    } else {
        seq![piece(title, Tone::Text)]
    }
}

/// What follows the title: a pin's session, a session's tab count.
pub open spec fn card_tail(b: BoardModel, index: int) -> Seq<PieceModel> {
    (match b.item_pin_session(index) {
        Some(s) => seq![piece("  "@ + s, Tone::PinSession)],
        None => seq![],
    }) + (match b.session_at(index) {
        Some(s) => seq![piece("  "@ + decimal(s.tab_count as nat), Tone::Count)],
        None => seq![],
    })
}

/// Everything card `index` says.
pub open spec fn card_face_spec(b: BoardModel, index: int, mode: LayoutMode) -> Seq<PieceModel> {
    card_marks(b, index, mode) + card_title(b, index) + card_tail(b, index)
}

/// A framed card's border: a Flash match first, then the selection, a
/// pin, a session.
pub open spec fn card_border_spec(b: BoardModel, index: int) -> Border {
    if is_candidate(b, index) {
        Border::Match
    } else if b.cursor == index {
        Border::Cursor
    } else if b.item_is_pinned(index) {
        Border::Pin
    } else if b.item_is_session(index) {
        Border::Session
    } else {
        Border::Plain
    }
}

pub open spec fn help_footer() -> Seq<char> {
    "? / q / Esc close help"@
}

pub open spec fn session_keys() -> Seq<char> {
    "  tabs   s search   e go   p pin   - prev   Esc/q back   ? help"@
}

pub open spec fn home_keys() -> Seq<char> {
    "hjkl move   s search   e go   p pin   - prev   q close   ? help"@
}

/// The footer line: the help's close keys, the Flash prompt, or the
/// session's name and the common keys.
pub open spec fn footer_spec(b: BoardModel) -> Seq<PieceModel> {
    if b.show_help {
        seq![piece(help_footer(), Tone::Text)]
    } else if b.hint is Some {
        seq![
            piece(" FLASH "@, Tone::FlashBadge),
            piece(" type to search"@, Tone::Text),
            piece("  /"@ + query_of(b) + "█"@, Tone::Query),
            piece("  tip:"@ + prefix_of(b), Tone::TipPrefix),
            piece("  Esc cancel"@, Tone::Muted),
        ]
    } else {
        match b.drilled {
            Some(name) => seq![piece(" "@ + name + " "@, Tone::SessionBadge), piece(session_keys(), Tone::Text)],
            None => (match b.current_session_name() {
                Some(name) => seq![piece(" "@ + name + " "@, Tone::SessionBadge), piece("  "@, Tone::Text)],
                None => seq![],
            }) + seq![piece(home_keys(), Tone::Text)],
        }
    }
}

fn piece_of(text: &str, tone: Tone) -> (p: Piece)
    ensures
        p@ == piece(text@, tone),
{
    Piece { text: string_from(&chars_of(text)), tone }
}

fn push_piece(out: &mut Vec<Piece>, p: Piece)
    ensures
        pieces_view(final(out)@) == pieces_view(old(out)@).push(p@),
{
    let ghost pv = p@;
    out.push(p);
    assert(pieces_view(out@) =~= pieces_view(old(out)@).push(pv));
}

fn push_when(out: &mut Vec<Piece>, c: bool, text: &str, tone: Tone)
    ensures
        pieces_view(final(out)@) == pieces_view(old(out)@) + when(c, piece(text@, tone)),
{
    if c {
        push_piece(out, piece_of(text, tone));
        assert(pieces_view(out@) =~= pieces_view(old(out)@) + when(c, piece(text@, tone)));
    } else {
        assert(pieces_view(out@) =~= pieces_view(old(out)@) + when(c, piece(text@, tone)));
    }
}

/// `prefix` then `rest`, as one text.
fn joined_text(prefix: &str, rest: &str, suffix: &str) -> (text: String)
    ensures
        text@ == prefix@ + rest@ + suffix@,
{
    let mut out: Vec<char> = Vec::new();
    append_text(&mut out, prefix);
    append_text(&mut out, rest);
    append_text(&mut out, suffix);
    string_from(&out)
}

fn push_badge(out: &mut Vec<Piece>, label: &str, typed: usize)
    ensures
        pieces_view(final(out)@) == pieces_view(old(out)@) + badge(label@, typed as int),
{
    let chars = chars_of(label);
    let k = if typed < chars.len() {
        typed
    } else {
        chars.len()
    };
    let ghost start = pieces_view(out@);
    if k > 0 {
        let typed_part = slice_chars(&chars, 0, k);
        assert(typed_part@ =~= label@.take(k as int));
        push_piece(out, Piece { text: string_from(&typed_part), tone: Tone::TipTyped });
    }
    assert(pieces_view(out@) =~= start + when(k > 0, piece(label@.take(k as int), Tone::TipTyped)));
    let ghost mid = pieces_view(out@);
    if k < chars.len() {
        let rest = slice_chars(&chars, k, chars.len());
        assert(rest@ =~= label@.skip(k as int));
        push_piece(out, Piece { text: string_from(&rest), tone: Tone::Tip });
    }
    assert(pieces_view(out@) =~= mid + when(k < label@.len(), piece(label@.skip(k as int), Tone::Tip)));
    assert(pieces_view(out@) =~= start + badge(label@, typed as int));
}

fn push_title(out: &mut Vec<Piece>, title: &str, range: Option<(usize, usize)>, label: Option<&str>, typed: usize)
    requires
        range matches Some((start, len)) ==> start + len <= title@.len(),
    ensures
        pieces_view(final(out)@) == pieces_view(old(out)@) + title_pieces(
            title@,
            match range {
                Some((s, l)) => Some((s as int, l as int)),
                None => None,
            },
            match label {
                Some(l) => Some(l@),
                None => None,
            },
            typed as int,
        ),
{
    let ghost start_view = pieces_view(out@);
    match range {
        None => {
            push_piece(out, piece_of(title, Tone::Text));
            assert(pieces_view(out@) =~= start_view + seq![piece(title@, Tone::Text)]);
        },
        Some((start, len)) => {
            let chars = chars_of(title);
            let n = chars.len();
            assert(start + len <= n);
            let before = slice_chars(&chars, 0, start);
            let matched = slice_chars(&chars, start, start + len);
            let after = slice_chars(&chars, start + len, chars.len());
            push_piece(out, Piece { text: string_from(&before), tone: Tone::Text });
            let ghost with_before = pieces_view(out@);
            match label {
                Some(l) => {
                    push_badge(out, l, typed);
                },
                None => {},
            }
            let ghost with_badge = pieces_view(out@);
            assert(with_badge =~= with_before + match label {
                Some(l) => badge(l@, typed as int),
                None => seq![],
            });
            push_piece(out, Piece { text: string_from(&matched), tone: Tone::Match });
            push_piece(out, Piece { text: string_from(&after), tone: Tone::Text });
            assert(pieces_view(out@) =~= start_view + title_pieces(
                title@,
                Some((start as int, len as int)),
                match label {
                    Some(l) => Some(l@),
                    None => None,
                },
                typed as int,
            ));
        },
    }
}

/// Where the query sits in the title always fits inside the title.
proof fn lemma_match_range_fits(b: BoardModel, index: int)
    ensures
        match_range(b, index) matches Some((start, len)) ==> match b.item_title(index) {
            Some(t) => 0 <= start && 0 <= len && start + len <= t.len(),
            None => false,
        },
{
    match b.hint {
        Some(h) => match b.item_title(index) {
            Some(t) => {
                if h.query.len() > 0 {
                    lemma_first_index_found(t.len() - h.query.len() + 1, crate::hints::occurs_at(t, h.query));
                }
            },
            None => {},
        },
        None => {},
    }
}

/// Everything card `index` says, with the tone of each piece.
#[verifier::spinoff_prover]
#[verifier::rlimit(40)]
pub fn card_face(overview: &Overview, index: usize, mode: LayoutMode) -> (pieces: Vec<Piece>)
    ensures
        pieces_view(pieces@) == card_face_spec(overview@, index as int, mode),
{
    let ghost b = overview@;
    let mut out: Vec<Piece> = Vec::new();
    let session = overview.item_is_session(index);
    let pinned = overview.item_is_pinned(index);
    push_when(&mut out, mode == LayoutMode::Scroll && overview.viewing_session().is_none() && !session && !pinned, "  ", Tone::Text);
    push_when(&mut out, mode != LayoutMode::Framed && overview.cursor() == index, "› ", Tone::Cursor);
    push_when(&mut out, session, "◆ ", Tone::SessionMark);
    push_when(&mut out, pinned, "* ", Tone::PinMark);
    push_when(&mut out, overview.item_is_active(index), "● ", Tone::Active);
    push_when(&mut out, overview.is_previous_item(index), "[-] ", Tone::Previous);
    assert(pieces_view(out@) =~= card_marks(b, index as int, mode));
    let title = match overview.item_title(index) {
        Some(t) => t,
        None => "",
    };
    proof {
        reveal_strlit("");
        assert(title@ == match b.item_title(index as int) {
            Some(t) => t,
            None => seq![],
        });
    }
    if overview.is_hinting() {
        let range = overview.hint_match_range(index);
        let candidate = range.is_some() && chars_of(overview.hint_query()).len() > 0;
        proof {
            lemma_match_range_fits(b, index as int);
        }
        let shown = if candidate {
            range
        } else {
            None
        };
        let typed = chars_of(overview.hint_jump_prefix()).len();
        push_title(&mut out, title, shown, overview.hint_label(index), typed);
    } else {
        push_piece(&mut out, piece_of(title, Tone::Text));
    }
    assert(pieces_view(out@) =~= card_marks(b, index as int, mode) + card_title(b, index as int));
    let ghost before_tail = pieces_view(out@);
    match overview.item_pin_session(index) {
        Some(s) => {
            push_piece(&mut out, Piece { text: joined_text("  ", s, ""), tone: Tone::PinSession });
            proof {
                reveal_strlit("");
            }
        },
        None => {},
    }
    match overview.item_tab_count(index) {
        Some(count) => {
            let mut digits: Vec<char> = Vec::new();
            append_text(&mut digits, "  ");
            push_decimal(&mut digits, count as u64);
            push_piece(&mut out, Piece { text: string_from(&digits), tone: Tone::Count });
        },
        None => {},
    }
    assert(pieces_view(out@) =~= before_tail + card_tail(b, index as int));
    out
}

/// A framed card's border tone.
pub fn card_border(overview: &Overview, index: usize) -> (border: Border)
    ensures
        border == card_border_spec(overview@, index as int),
{
    let candidate = overview.hint_match_range(index).is_some() && chars_of(overview.hint_query()).len() > 0;
    if candidate {
        Border::Match
    } else if overview.cursor() == index {
        Border::Cursor
    } else if overview.item_is_pinned(index) {
        Border::Pin
    } else if overview.item_is_session(index) {
        Border::Session
    } else {
        Border::Plain
    }
}

/// The footer line, piece by piece.
pub fn footer(overview: &Overview) -> (pieces: Vec<Piece>)
    ensures
        pieces_view(pieces@) == footer_spec(overview@),
{
    let ghost b = overview@;
    let mut out: Vec<Piece> = Vec::new();
    if overview.is_help_visible() {
        push_piece(&mut out, piece_of("? / q / Esc close help", Tone::Text));
        assert(pieces_view(out@) =~= footer_spec(b));
        return out;
    }
    if overview.is_hinting() {
        push_piece(&mut out, piece_of(" FLASH ", Tone::FlashBadge));
        push_piece(&mut out, piece_of(" type to search", Tone::Text));
        push_piece(&mut out, Piece { text: joined_text("  /", overview.hint_query(), "█"), tone: Tone::Query });
        push_piece(&mut out, Piece { text: joined_text("  tip:", overview.hint_jump_prefix(), ""), tone: Tone::TipPrefix });
        push_piece(&mut out, piece_of("  Esc cancel", Tone::Muted));
        proof {
            reveal_strlit("");
        }
        assert(pieces_view(out@) =~= footer_spec(b));
        return out;
    }
    match overview.viewing_session() {
        Some(name) => {
            push_piece(&mut out, Piece { text: joined_text(" ", name, " "), tone: Tone::SessionBadge });
            push_piece(&mut out, piece_of("  tabs   s search   e go   p pin   - prev   Esc/q back   ? help", Tone::Text));
            assert(pieces_view(out@) =~= footer_spec(b));
        },
        None => {
            match overview.current_session_name() {
                Some(name) => {
                    push_piece(&mut out, Piece { text: joined_text(" ", name, " "), tone: Tone::SessionBadge });
                    push_piece(&mut out, piece_of("  ", Tone::Text));
                },
                None => {},
            }
            push_piece(&mut out, piece_of("hjkl move   s search   e go   p pin   - prev   q close   ? help", Tone::Text));
            assert(pieces_view(out@) =~= footer_spec(b));
        },
    }
    out
}

/// Whether a scrolling column marks cards above it (`↑`) and below it
/// (`↓`); other layouts show every card and mark nothing.
pub fn scroll_marks(plan: &LayoutPlan, item_count: usize) -> (marks: (bool, bool))
    ensures
        marks == (
            plan@.mode == LayoutMode::Scroll && plan@.first_visible > 0,
            plan@.mode == LayoutMode::Scroll && plan@.visible_end() < item_count,
        ),
{
    if plan.mode != LayoutMode::Scroll {
        return (false, false);
    }
    (plan.first_visible > 0, plan.visible_end() < item_count)
}

// ---------------------------------------------------------------- truncation

/// Columns of the first `n` pieces, added up to at most the largest `usize`.
pub open spec fn total_columns(pieces: Seq<PieceModel>, n: int) -> int
    decreases n,
{
    if n <= 0 {
        0
    } else {
        let t = total_columns(pieces, n - 1) + span_columns(pieces[n - 1].text) as int;
        if t > usize::MAX {
            usize::MAX as int
        } else {
            t
        }
    }
}

/// The clusters from `i` on that still fit in `target` columns after
/// `used`: the text kept, the columns then used, and whether a cluster did
/// not fit.
pub open spec fn fill(clusters: Seq<Seq<char>>, i: int, used: int, target: int, kept: Seq<char>) -> (Seq<char>, int, bool)
    decreases clusters.len() - i,
{
    if i < 0 || i >= clusters.len() {
        (kept, used, false)
    } else if used + cell_columns(clusters[i]) > target {
        (kept, used, true)
    } else {
        fill(clusters, i + 1, used + cell_columns(clusters[i]), target, kept + clusters[i])
    }
}

/// The pieces from `i` on cut to `target` columns after `used`: whole
/// pieces while they fit, then as many clusters of the next as fit. Also
/// the tone of the last piece looked at.
pub open spec fn cut(pieces: Seq<PieceModel>, i: int, used: int, target: int, out: Seq<PieceModel>, tone: Tone) -> (
    Seq<PieceModel>,
    Tone,
)
    decreases pieces.len() - i,
{
    if i < 0 || i >= pieces.len() {
        (out, tone)
    } else {
        let p = pieces[i];
        let w = span_columns(p.text) as int;
        if used + w <= target {
            cut(pieces, i + 1, used + w, target, out.push(p), p.tone)
        } else {
            let f = fill(grapheme_split(p.text), 0, used, target, seq![]);
            let out2 = if f.0.len() > 0 {
                out.push(piece(f.0, p.tone))
            } else {
                out
            };
            if f.2 || f.1 >= target {
                (out2, p.tone)
            } else {
                cut(pieces, i + 1, f.1, target, out2, p.tone)
            }
        }
    }
}

/// Pieces too wide for `max_width` columns cut to one column less, then
/// `…` in the tone of the last piece looked at.
pub open spec fn truncated(pieces: Seq<PieceModel>, max_width: int) -> Seq<PieceModel> {
    if total_columns(pieces, pieces.len() as int) <= max_width {
        pieces
    } else if max_width == 0 {
        seq![]
    } else {
        let c = cut(pieces, 0, 0, max_width - 1, seq![], Tone::Text);
        c.0.push(piece("…"@, c.1))
    }
}

/// The clusters of `text` that fit in `target` columns after `used`.
fn fill_exec(text: &str, used: usize, target: usize) -> (r: (Vec<char>, usize, bool))
    requires
        used <= target,
    ensures
        ({
            let f = fill(grapheme_split(text@), 0, used as int, target as int, seq![]);
            r.0@ == f.0 && r.1 == f.1 && r.2 == f.2
        }),
        r.1 <= target,
{
    let clusters = graphemes(text);
    let ghost cs = grapheme_split(text@);
    let mut kept: Vec<char> = Vec::new();
    let mut now = used;
    let mut j: usize = 0;
    while j < clusters.len()
        invariant
            j <= clusters@.len(),
            cs == strings_view(clusters@),
            cs == grapheme_split(text@),
            now <= target,
            fill(cs, 0, used as int, target as int, seq![]) == fill(cs, j as int, now as int, target as int, kept@),
            forall|k: int, i: int|
                0 <= k < clusters@.len() && 0 <= i < clusters@[k]@.len() ==> !control_char(#[trigger] clusters@[k]@[i]),
        decreases clusters@.len() - j,
    {
        assert(cs[j as int] == clusters@[j as int]@);
        assert forall|i: int| 0 <= i < clusters@[j as int]@.len() implies !control_char(#[trigger] clusters@[j as int]@[i]) by {}
        let w = cell_width(clusters[j].as_str());
        assert(w == cell_columns(cs[j as int]));
        if w > target - now {
            assert(fill(cs, j as int, now as int, target as int, kept@) == (kept@, now as int, true));
            return (kept, now, true);
        }
        append_text(&mut kept, clusters[j].as_str());
        now = now + w;
        j += 1;
    }
    (kept, now, false)
}

/// Cuts pieces too wide for `max_width` columns, ending them with `…`.
#[verifier::spinoff_prover]
pub fn truncate_pieces(pieces: Vec<Piece>, max_width: usize) -> (out: Vec<Piece>)
    ensures
        pieces_view(out@) == truncated(pieces_view(pieces@), max_width as int),
{
    let ghost pv = pieces_view(pieces@);
    let mut total: usize = 0;
    let mut k: usize = 0;
    while k < pieces.len()
        invariant
            k <= pieces@.len(),
            pv == pieces_view(pieces@),
            total as int == total_columns(pv, k as int),
        decreases pieces@.len() - k,
    {
        assert(pv[k as int] == pieces@[k as int]@);
        total = total.saturating_add(span_width(pieces[k].text.as_str()));
        k += 1;
    }
    if total <= max_width {
        return pieces;
    }
    if max_width == 0 {
        return Vec::new();
    }
    let target = max_width - 1;
    let mut out: Vec<Piece> = Vec::new();
    let mut used: usize = 0;
    let mut tone = Tone::Text;
    let mut i: usize = 0;
    assert(pieces_view(out@) =~= Seq::<PieceModel>::empty());
    while i < pieces.len()
        invariant_except_break
            i <= pieces@.len(),
            pv == pieces_view(pieces@),
            used <= target,
            cut(pv, 0, 0, target as int, seq![], Tone::Text) == cut(pv, i as int, used as int, target as int, pieces_view(out@), tone),
        ensures
            cut(pv, 0, 0, target as int, seq![], Tone::Text) == (pieces_view(out@), tone),
        decreases pieces@.len() - i,
    {
        assert(pv[i as int] == pieces@[i as int]@);
        let p = &pieces[i];
        let w = span_width(p.text.as_str());
        tone = p.tone;
        if w <= target - used {
            let ghost before = pieces_view(out@);
            out.push(Piece { text: p.text.clone(), tone: p.tone });
            assert(pieces_view(out@) =~= before.push(pv[i as int]));
            used = used + w;
            i += 1;
        } else {
            let (kept, now, stopped) = fill_exec(p.text.as_str(), used, target);
            let ghost before = pieces_view(out@);
            if kept.len() > 0 {
                out.push(Piece { text: string_from(&kept), tone: p.tone });
                assert(pieces_view(out@) =~= before.push(piece(kept@, p.tone)));
            }
            used = now;
            if stopped || now >= target {
                break;
            }
            i += 1;
        }
    }
    let ghost before = pieces_view(out@);
    out.push(piece_of("…", tone));
    assert(pieces_view(out@) =~= before.push(piece("…"@, tone)));
    out
}


/// The screen of `rows` by `cols` cells, split into the area the cards are
/// drawn in and, from three rows on, the footer: the screen's bottom row.
pub open spec fn screen_split_spec(rows: int, cols: int) -> (Rect, Option<Rect>) {
    let w = min_u16(cols);
    let h = min_u16(rows);
    if h >= 3 {
        (Rect::spec_new(0, 0, w, (h - 1) as u16), Some(Rect::spec_new(0, (h - 1) as u16, w, 1)))
    } else {
        (Rect::spec_new(0, 0, w, h), None)
    }
}

/// Splits the screen into the cards' area and the footer row.
pub fn screen_split(rows: usize, cols: usize) -> (areas: (Rect, Option<Rect>))
    ensures
        areas == screen_split_spec(rows as int, cols as int),
{
    let w: u16 = if cols > 65535 { 65535 } else { cols as u16 };
    let h: u16 = if rows > 65535 { 65535 } else { rows as u16 };
    if h >= 3 {
        (Rect::new(0, 0, w, h - 1), Some(Rect::new(0, h - 1, w, 1)))
    } else {
        (Rect::new(0, 0, w, h), None)
    }
}

/// `a + b`, held at the largest `u16`.
pub open spec fn sat_add_u16(a: int, b: int) -> u16 {
    clamp_u16(a + b) as u16
}

/// The row of a card its face is written on: the middle row, inside the
/// frame in the framed grid, the whole card in the scrolling column.
pub open spec fn card_text_area_spec(area: Rect, mode: LayoutMode) -> Rect {
    match mode {
        LayoutMode::Framed => Rect::spec_new(
            sat_add_u16(area.x as int, 1),
            sat_add_u16(area.y as int, area.height as int / 2),
            (if area.width >= 2 { area.width - 2 } else { 0 }) as u16,
            1,
        ),
        LayoutMode::Compact => Rect::spec_new(area.x, sat_add_u16(area.y as int, area.height as int / 2), area.width, 1),
        LayoutMode::Scroll => area,
    }
}

/// Where a card's face is written within the card.
pub fn card_text_area(area: Rect, mode: LayoutMode) -> (text: Rect)
    ensures
        text == card_text_area_spec(area, mode),
{
    let middle = area.y.saturating_add(area.height / 2);
    match mode {
        LayoutMode::Framed => Rect::new(area.x.saturating_add(1), middle, area.width.saturating_sub(2), 1),
        LayoutMode::Compact => Rect::new(area.x, middle, area.width, 1),
        LayoutMode::Scroll => area,
    }
}


/// The cards are drawn in exactly the area the board lays them out in: the
/// screen less its footer row.
pub proof fn law_cards_area_is_the_content_area(board: BoardModel, rows: usize, cols: usize)
    requires
        board.viewport == Some((rows, cols)),
        rows <= u16::MAX,
    ensures
        screen_split_spec(rows as int, cols as int).0 == board.content_area(),
{
}

} // verus!
