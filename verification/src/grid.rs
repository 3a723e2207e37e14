//! Responsive card layout: framed cards, compact cards, or one scrolling
//! column, whichever first keeps every title readable.

use vstd::prelude::*;

verus! {

/// Height of a card with a border.
pub const FRAMED_CARD_HEIGHT: usize = 3;
/// Narrowest framed card.
pub const FRAMED_MIN_WIDTH: usize = 8;
/// Columns taken by a frame and its padding.
pub const FRAMED_FRAME_WIDTH: usize = 4;
/// Height of a borderless card.
pub const COMPACT_CARD_HEIGHT: usize = 1;
/// Narrowest borderless card.
pub const COMPACT_MIN_WIDTH: usize = 4;
/// Most columns a card in a short row is widened by.
pub const MAX_ROW_STRETCH: usize = 4;

/// A rectangle of terminal cells.
#[derive(Debug, Clone, Copy, PartialEq, Eq, Structural)]
pub struct Rect {
    pub x: u16,
    pub y: u16,
    pub width: u16,
    pub height: u16,
}

/// `x + w`, held at the largest `u16`.
pub open spec fn clamp_u16(v: int) -> int {
    if v > u16::MAX {
        u16::MAX as int
    } else {
        v
    }
}

impl Rect {
    /// The rectangle `Rect::new` builds: width and height are cut so that the
    /// right and bottom edges stay within `u16`.
    pub open spec fn spec_new(x: u16, y: u16, width: u16, height: u16) -> Rect {
        Rect {
            x,
            y,
            width: (clamp_u16(x + width) - x) as u16,
            height: (clamp_u16(y + height) - y) as u16,
        }
    }

    pub fn new(x: u16, y: u16, width: u16, height: u16) -> (r: Rect)
        ensures
            r == Rect::spec_new(x, y, width, height),
    {
        Rect { x, y, width: x.saturating_add(width) - x, height: y.saturating_add(height) - y }
    }
}

#[derive(Debug, Clone, Copy, PartialEq, Eq, Structural)]
pub enum LayoutMode {
    Framed,
    Compact,
    Scroll,
}

#[derive(Debug, Clone, Copy, PartialEq, Eq, Structural)]
pub struct CardPlacement {
    pub index: usize,
    pub row: usize,
    pub area: Rect,
}

#[derive(Debug, Clone, PartialEq, Eq)]
pub struct LayoutPlan {
    pub mode: LayoutMode,
    pub columns: usize,
    pub total_rows: usize,
    pub tab_count: usize,
    pub first_visible: usize,
    pub visible_count: usize,
    pub cards: Vec<CardPlacement>,
    pub separators: Vec<u16>,
}

/// What a layout plan holds, as mathematical values.
pub struct PlanModel {
    pub mode: LayoutMode,
    pub columns: usize,
    pub total_rows: usize,
    pub tab_count: usize,
    pub first_visible: usize,
    pub visible_count: usize,
    pub cards: Seq<CardPlacement>,
    pub separators: Seq<u16>,
}

impl View for LayoutPlan {
    type V = PlanModel;

    open spec fn view(&self) -> PlanModel {
        PlanModel {
            mode: self.mode,
            columns: self.columns,
            total_rows: self.total_rows,
            tab_count: self.tab_count,
            first_visible: self.first_visible,
            visible_count: self.visible_count,
            cards: self.cards@,
            separators: self.separators@,
        }
    }
}

/// The plan of a board with nothing to show.
pub open spec fn empty_plan() -> PlanModel {
    PlanModel {
        mode: LayoutMode::Compact,
        columns: 1,
        total_rows: 0,
        tab_count: 0,
        first_visible: 0,
        visible_count: 0,
        cards: seq![],
        separators: seq![],
    }
}

/// `index + direction`, held within `0..tab_count`.
pub open spec fn clamp_step(index: int, direction: int, tab_count: int) -> int {
    if tab_count == 0 {
        0
    } else if index + direction < 0 {
        0
    } else if index + direction > tab_count - 1 {
        tab_count - 1
    } else {
        index + direction
    }
}

impl PlanModel {
    pub open spec fn visible_end(self) -> int {
        clamp_usize(self.first_visible + self.visible_count)
    }

    pub open spec fn horizontal_neighbor(self, index: int, direction: int) -> int {
        clamp_step(index, direction, self.tab_count as int)
    }
}

/// `v`, held at the largest `usize`.
pub open spec fn clamp_usize(v: int) -> int {
    if v > usize::MAX {
        usize::MAX as int
    } else {
        v
    }
}

impl LayoutPlan {
    pub fn visible_end(&self) -> (end: usize)
        ensures
            end == self@.visible_end(),
    {
        self.first_visible.saturating_add(self.visible_count)
    }

    /// The card `direction` steps before or after `index`, stopping at both
    /// ends of the board.
    pub fn horizontal_neighbor(&self, index: usize, direction: isize) -> (r: usize)
        ensures
            r == self@.horizontal_neighbor(index as int, direction as int),
    {
        if self.tab_count == 0 {
            return 0;
        }
        let last = (self.tab_count - 1) as i128;
        let moved = index as i128 + direction as i128;
        if moved < 0 {
            0
        } else if moved > last {
            self.tab_count - 1
        } else {
            moved as usize
        }
    }

    fn empty() -> (plan: LayoutPlan)
        ensures
            plan@ == empty_plan(),
    {
        LayoutPlan {
            mode: LayoutMode::Compact,
            columns: 1,
            total_rows: 0,
            tab_count: 0,
            first_visible: 0,
            visible_count: 0,
            cards: Vec::new(),
            separators: Vec::new(),
        }
    }
}


// ---------------------------------------------------------------- bands

/// `splits` is strictly increasing.
pub open spec fn strictly_increasing(splits: Seq<usize>) -> bool {
    forall|i: int, j: int| 0 <= i < j < splits.len() ==> splits[i] < splits[j]
}

/// `splits` holds, once each and in increasing order, exactly the band ends
/// that fall strictly inside a board of `item_count` items.
pub open spec fn normalized_splits_of(splits: Seq<usize>, band_ends: Seq<usize>, item_count: int) -> bool {
    &&& strictly_increasing(splits)
    &&& forall|v: usize| #[trigger] splits.contains(v) <==> (band_ends.contains(v) && 0 < v < item_count)
}

/// The one sequence that `normalized_splits_of` describes.
pub open spec fn normalized_splits(band_ends: Seq<usize>, item_count: int) -> Seq<usize> {
    choose|splits: Seq<usize>| normalized_splits_of(splits, band_ends, item_count)
}

/// Two increasing sequences with the same elements are equal.
pub proof fn lemma_increasing_unique(a: Seq<usize>, b: Seq<usize>)
    requires
        strictly_increasing(a),
        strictly_increasing(b),
        forall|v: usize| #[trigger] a.contains(v) <==> b.contains(v),
    ensures
        a == b,
    decreases a.len(),
{
    if a.len() == 0 {
        if b.len() > 0 {
            assert(b.contains(b[0]));
            assert(a.contains(b[0]));
            assert(false);
        }
        assert(a =~= b);
    } else {
        assert(a.contains(a[0]));
        assert(b.contains(a[0]));
        assert(b.len() > 0);
        assert(b.contains(b[0]));
        assert(a.contains(b[0]));
        let ia = choose|i: int| 0 <= i < a.len() && a[i] == b[0];
        let ib = choose|i: int| 0 <= i < b.len() && b[i] == a[0];
        assert(a[0] == b[0]) by {
            if a[0] < b[0] {
                assert(b[ib] == a[0]);
                assert(ib > 0 ==> b[0] < b[ib]);
            } else if a[0] > b[0] {
                assert(ia > 0 ==> a[0] < a[ia]);
            }
        }
        let a1 = a.drop_first();
        let b1 = b.drop_first();
        assert forall|v: usize| #[trigger] a1.contains(v) <==> b1.contains(v) by {
            if a1.contains(v) {
                let i = choose|i: int| 0 <= i < a1.len() && a1[i] == v;
                assert(a[i + 1] == v);
                assert(a.contains(v));
                assert(b.contains(v));
                let j = choose|j: int| 0 <= j < b.len() && b[j] == v;
                assert(j != 0);
                assert(b1[j - 1] == v);
            }
            if b1.contains(v) {
                let i = choose|i: int| 0 <= i < b1.len() && b1[i] == v;
                assert(b[i + 1] == v);
                assert(b.contains(v));
                assert(a.contains(v));
                let j = choose|j: int| 0 <= j < a.len() && a[j] == v;
                assert(j != 0);
                assert(a1[j - 1] == v);
            }
        }
        lemma_increasing_unique(a1, b1);
        assert(a =~= seq![a[0]] + a1);
        assert(b =~= seq![b[0]] + b1);
    }
}

/// The band ends of the board, without those at its edges, sorted and
/// without repeats.
fn normalize_splits(band_ends: &Vec<usize>, item_count: usize) -> (splits: Vec<usize>)
    ensures
        normalized_splits_of(splits@, band_ends@, item_count as int),
        splits@ == normalized_splits(band_ends@, item_count as int),
{
    let mut splits: Vec<usize> = Vec::new();
    let mut i: usize = 0;
    while i < band_ends.len()
        invariant
            i <= band_ends.len(),
            strictly_increasing(splits@),
            forall|v: usize| #[trigger] splits@.contains(v) <==> (band_ends@.take(i as int).contains(v) && 0 < v < item_count),
        decreases band_ends.len() - i,
    {
        let end = band_ends[i];
        let ghost before = splits@;
        if 0 < end && end < item_count {
            let mut position: usize = 0;
            while position < splits.len() && splits[position] < end
                invariant
                    position <= splits.len(),
                    splits@ == before,
                    forall|k: int| 0 <= k < position ==> splits@[k] < end,
                decreases splits.len() - position,
            {
                position += 1;
            }
            if position == splits.len() || splits[position] != end {
                splits.insert(position, end);
                assert forall|a: int, b: int| 0 <= a < b < splits@.len() implies splits@[a] < splits@[b] by {
                    if b < position {
                    } else if a < position && b == position {
                    } else if a < position {
                        assert(splits@[b] == before[b - 1]);
                    } else if a == position {
                        assert(splits@[b] == before[b - 1]);
                        assert(before[position as int] >= end);
                        if b - 1 > position {
                            assert(before[position as int] < before[b - 1]);
                        }
                    } else {
                        assert(splits@[a] == before[a - 1]);
                        assert(splits@[b] == before[b - 1]);
                    }
                }
                assert forall|v: usize| #[trigger] splits@.contains(v) <==> (before.contains(v) || v == end) by {
                    if splits@.contains(v) {
                        let k = choose|k: int| 0 <= k < splits@.len() && splits@[k] == v;
                        if k < position {
                            assert(before[k] == v);
                        } else if k > position {
                            assert(before[k - 1] == v);
                        }
                    }
                    if before.contains(v) {
                        let k = choose|k: int| 0 <= k < before.len() && before[k] == v;
                        if k < position {
                            assert(splits@[k] == v);
                        } else {
                            assert(splits@[k + 1] == v);
                        }
                    }
                    if v == end {
                        assert(splits@[position as int] == v);
                    }
                }
            } else {
                assert(splits@.contains(end));
            }
        }
        assert(band_ends@.take(i + 1) =~= band_ends@.take(i as int).push(end));
        assert forall|v: usize| #[trigger] band_ends@.take(i + 1).contains(v) <==> (band_ends@.take(i as int).contains(v) || v == end) by {
            let t = band_ends@.take(i as int);
            let t1 = band_ends@.take(i + 1);
            if t1.contains(v) {
                let k = choose|k: int| 0 <= k < t1.len() && t1[k] == v;
                if k < i {
                    assert(t[k] == v);
                }
            }
            if t.contains(v) {
                let k = choose|k: int| 0 <= k < t.len() && t[k] == v;
                assert(t1[k] == v);
            }
            if v == end {
                assert(t1[i as int] == v);
            }
        }
        i += 1;
    }
    assert(band_ends@.take(i as int) =~= band_ends@);
    proof {
        let chosen = normalized_splits(band_ends@, item_count as int);
        assert(normalized_splits_of(splits@, band_ends@, item_count as int));
        assert(normalized_splits_of(chosen, band_ends@, item_count as int));
        lemma_increasing_unique(splits@, chosen);
    }
    splits
}

// ---------------------------------------------------------------- rows

/// Sum of the widths in a row of `(index, width)` cards.
pub open spec fn row_width(row: Seq<(usize, usize)>) -> int
    decreases row.len(),
{
    if row.len() == 0 {
        0
    } else {
        row_width(row.drop_last()) + row.last().1
    }
}

/// Cards laid out left to right: a card opens a new row when it does not
/// fit beside the cards already in the current one.
pub open spec fn wrap_rows_spec(widths: Seq<usize>, available_width: int) -> Seq<Seq<(usize, usize)>>
    decreases widths.len(),
{
    if widths.len() == 0 {
        seq![]
    } else {
        let previous = wrap_rows_spec(widths.drop_last(), available_width);
        let card = ((widths.len() - 1) as usize, widths.last());
        if previous.len() == 0 {
            seq![seq![card]]
        } else if row_width(previous.last()) > 0 && row_width(previous.last()) + card.1 > available_width {
            previous.push(seq![card])
        } else {
            previous.update(previous.len() - 1, previous.last().push(card))
        }
    }
}

pub open spec fn rows_view(rows: Seq<Vec<(usize, usize)>>) -> Seq<Seq<(usize, usize)>> {
    rows.map_values(|row: Vec<(usize, usize)>| row@)
}

/// Every row of a wrapped band holds a card, is no wider than the space
/// (when no card is), and names cards of the band.
pub proof fn lemma_wrap_rows_shape(widths: Seq<usize>, available_width: int)
    requires
        forall|i: int| 0 <= i < widths.len() ==> widths[i] <= available_width,
    ensures
        forall|r: int| 0 <= r < wrap_rows_spec(widths, available_width).len() ==> {
            let row = #[trigger] wrap_rows_spec(widths, available_width)[r];
            &&& row.len() > 0
            &&& row_width(row) <= available_width
            &&& forall|j: int| 0 <= j < row.len() ==> row[j].0 < widths.len()
        },
        widths.len() > 0 ==> wrap_rows_spec(widths, available_width).len() > 0,
        wrap_rows_spec(widths, available_width).len() <= widths.len(),
    decreases widths.len(),
{
    if widths.len() > 0 {
        let prefix = widths.drop_last();
        lemma_wrap_rows_shape(prefix, available_width);
        let previous = wrap_rows_spec(prefix, available_width);
        let rows = wrap_rows_spec(widths, available_width);
        let card = ((widths.len() - 1) as usize, widths.last());
        assert forall|r: int| 0 <= r < rows.len() implies {
            let row = #[trigger] rows[r];
            &&& row.len() > 0
            &&& row_width(row) <= available_width
            &&& forall|j: int| 0 <= j < row.len() ==> row[j].0 < widths.len()
        } by {
            let row = rows[r];
            assert(widths[widths.len() - 1] <= available_width);
            if previous.len() == 0 {
                assert(row == seq![card]);
                assert(row.drop_last() =~= Seq::<(usize, usize)>::empty());
                assert(row_width(Seq::<(usize, usize)>::empty()) == 0);
                assert(row_width(row) <= available_width);
            } else if row_width(previous.last()) > 0 && row_width(previous.last()) + card.1 > available_width {
                if r == previous.len() {
                    assert(row == seq![card]);
                    assert(row.drop_last() =~= Seq::<(usize, usize)>::empty());
                    assert(row_width(Seq::<(usize, usize)>::empty()) == 0);
                    assert(row_width(row) <= available_width);
                } else {
                    assert(row == previous[r]);
                }
            } else {
                if r == previous.len() - 1 {
                    assert(row == previous.last().push(card));
                    assert(row.drop_last() =~= previous.last());
                    assert(card.1 <= available_width);
                    assert(row_width(row) == row_width(previous.last()) + card.1);
                    assert(row_width(row) <= available_width);
                    assert forall|j: int| 0 <= j < row.len() implies row[j].0 < widths.len() by {
                        if j < row.len() - 1 {
                            assert(row[j] == previous.last()[j]);
                        }
                    }
                } else {
                    assert(row == previous[r]);
                }
            }
        }
    }
}

fn wrap_rows(widths: &Vec<usize>, start: usize, end: usize, available_width: usize) -> (rows: Vec<Vec<(usize, usize)>>)
    requires
        start <= end <= widths.len(),
        available_width <= u16::MAX,
        forall|i: int| start <= i < end ==> widths@[i] <= available_width,
    ensures
        rows_view(rows@) == wrap_rows_spec(widths@.subrange(start as int, end as int), available_width as int),
{
    let ghost band = widths@.subrange(start as int, end as int);
    if start == end {
        assert(rows_view(Seq::<Vec<(usize, usize)>>::empty()) =~= Seq::<Seq<(usize, usize)>>::empty());
        return Vec::new();
    }
    let mut rows: Vec<Vec<(usize, usize)>> = Vec::new();
    let mut current: Vec<(usize, usize)> = Vec::new();
    let mut used: usize = 0;
    let mut index = start;
    while index < end
        invariant
            start <= index <= end <= widths.len(),
            start < end,
            available_width <= u16::MAX,
            band == widths@.subrange(start as int, end as int),
            forall|i: int| start <= i < end ==> widths@[i] <= available_width,
            index == start ==> rows@.len() == 0 && current@.len() == 0,
            index > start ==> rows_view(rows@).push(current@) == wrap_rows_spec(band.take(index - start), available_width as int),
            used == row_width(current@),
            used <= available_width,
        decreases end - index,
    {
        let width = widths[index];
        let ghost k = index - start;
        let ghost old_rows = rows_view(rows@);
        let ghost old_current = current@;
        assert(band.take(k + 1).drop_last() =~= band.take(k));
        assert(band.take(k + 1).last() == width);
        if used > 0 && used + width > available_width {
            rows.push(current);
            current = Vec::new();
            used = 0;
            assert(rows_view(rows@) =~= old_rows.push(old_current));
        }
        let ghost before_push = current@;
        assert(used == row_width(before_push));
        current.push((index - start, width));
        assert(current@.drop_last() =~= before_push);
        assert(current@.last() == ((index - start) as usize, width));
        assert(row_width(current@) == row_width(before_push) + width);
        used += width;
        index += 1;
        proof {
            if k == 0 {
                assert(rows_view(rows@) =~= Seq::<Seq<(usize, usize)>>::empty());
                assert(band.take(0) =~= Seq::<usize>::empty());
                assert(wrap_rows_spec(band.take(0), available_width as int) =~= Seq::<Seq<(usize, usize)>>::empty());
                assert(current@ =~= seq![(0usize, width)]);
                assert(rows_view(rows@).push(current@) =~= seq![seq![(0usize, width)]]);
            } else {
                let previous = old_rows.push(old_current);
                assert(previous.last() == old_current);
                if row_width(old_current) > 0 && row_width(old_current) + width > available_width {
                    assert(current@ =~= seq![(k as usize, width)]);
                    assert(rows_view(rows@).push(current@) =~= previous.push(seq![((k) as usize, width)]));
                } else {
                    assert(current@ =~= old_current.push((k as usize, width)));
                    assert(rows_view(rows@).push(current@) =~= previous.update(previous.len() - 1, previous.last().push((k as usize, width))));
                }
            }
        }
    }
    let ghost last_rows = rows_view(rows@);
    rows.push(current);
    assert(rows_view(rows@) =~= last_rows.push(current@));
    assert(band.take(end - start) =~= band);
    rows
}


// ---------------------------------------------------------------- placing rows

/// How much wider each card of `row` is drawn: the free space shared out,
/// at most `MAX_ROW_STRETCH` columns.
pub open spec fn stretch_of(row: Seq<(usize, usize)>, available_width: int) -> int {
    let share = (available_width - row_width(row)) / (row.len() as int);
    if share < MAX_ROW_STRETCH as int {
        share
    } else {
        MAX_ROW_STRETCH as int
    }
}

/// Width of `row` once every card is stretched.
pub open spec fn stretched_width(row: Seq<(usize, usize)>, available_width: int) -> int {
    row_width(row) + stretch_of(row, available_width) * row.len()
}

/// Left edge of `row`, centered in the available space.
pub open spec fn row_left(row: Seq<(usize, usize)>, origin_x: int, available_width: int) -> int {
    origin_x + (available_width - stretched_width(row, available_width)) / 2
}

/// The cards of one row, left to right: card `j` starts after the stretched
/// cards before it.
pub open spec fn row_cards(
    row: Seq<(usize, usize)>,
    origin_x: int,
    available_width: int,
    y: int,
    row_no: int,
    index_base: int,
    card_height: int,
) -> Seq<CardPlacement> {
    let stretch = stretch_of(row, available_width);
    let left = row_left(row, origin_x, available_width);
    Seq::new(
        row.len(),
        |j: int|
            CardPlacement {
                index: (index_base + row[j].0) as usize,
                row: row_no as usize,
                area: Rect::spec_new(
                    (left + row_width(row.take(j)) + j * stretch) as u16,
                    y as u16,
                    (row[j].1 + stretch) as u16,
                    card_height as u16,
                ),
            },
    )
}

/// The cards of a band's rows, the rows one `card_height` below the other.
pub open spec fn rows_cards(
    rows: Seq<Seq<(usize, usize)>>,
    origin_x: int,
    available_width: int,
    origin_y: int,
    row_base: int,
    index_base: int,
    card_height: int,
) -> Seq<CardPlacement>
    decreases rows.len(),
{
    if rows.len() == 0 {
        seq![]
    } else {
        let r = rows.len() - 1;
        rows_cards(rows.drop_last(), origin_x, available_width, origin_y, row_base, index_base, card_height)
            + row_cards(rows[r], origin_x, available_width, origin_y + r * card_height, row_base + r, index_base, card_height)
    }
}

proof fn lemma_row_width_take(row: Seq<(usize, usize)>, k: int)
    requires
        0 <= k < row.len(),
    ensures
        row_width(row.take(k + 1)) == row_width(row.take(k)) + row[k].1,
{
    assert(row.take(k + 1).drop_last() =~= row.take(k));
}

proof fn lemma_row_width_prefix(row: Seq<(usize, usize)>, k: int)
    requires
        0 <= k <= row.len(),
    ensures
        0 <= row_width(row.take(k)) <= row_width(row),
    decreases row.len() - k,
{
    if k == row.len() {
        assert(row.take(k) =~= row);
        lemma_row_width_nonneg(row);
    } else {
        lemma_row_width_take(row, k);
        lemma_row_width_prefix(row, k + 1);
        lemma_row_width_nonneg(row.take(k));
    }
}

proof fn lemma_row_width_nonneg(row: Seq<(usize, usize)>)
    ensures
        row_width(row) >= 0,
    decreases row.len(),
{
    if row.len() > 0 {
        lemma_row_width_nonneg(row.drop_last());
    }
}

/// A nonempty row no wider than the space stays within it once stretched.
proof fn lemma_stretched_fits(row: Seq<(usize, usize)>, available_width: int)
    requires
        row.len() > 0,
        row_width(row) <= available_width,
    ensures
        0 <= stretch_of(row, available_width) <= MAX_ROW_STRETCH,
        row_width(row) <= stretched_width(row, available_width) <= available_width,
{
    lemma_row_width_nonneg(row);
    let free = available_width - row_width(row);
    let n = row.len() as int;
    let share = free / n;
    assert(share >= 0) by (nonlinear_arith)
        requires
            free >= 0,
            n > 0,
            share == free / n,
    ;
    assert(share * n <= free) by (nonlinear_arith)
        requires
            free >= 0,
            n > 0,
            share == free / n,
    ;
    let stretch = stretch_of(row, available_width);
    assert(stretch * n <= share * n) by (nonlinear_arith)
        requires
            stretch <= share,
            n > 0,
    ;
    assert(stretch * n >= 0) by (nonlinear_arith)
        requires
            stretch >= 0,
            n > 0,
    ;
}

struct PlaceRows {
    origin_y: usize,
    row_base: usize,
    index_base: usize,
    card_height: usize,
    available_width: usize,
    origin_x: usize,
}

fn place_rows(rows: &Vec<Vec<(usize, usize)>>, place: &PlaceRows, cards: &mut Vec<CardPlacement>)
    requires
        place.available_width <= u16::MAX,
        place.origin_x <= u16::MAX,
        1 <= place.card_height <= 3,
        place.origin_y + rows@.len() * place.card_height <= 2 * u16::MAX + 2,
        place.row_base + rows@.len() <= usize::MAX,
        forall|r: int| 0 <= r < rows@.len() ==> {
            let row = #[trigger] rows@[r]@;
            &&& row.len() > 0
            &&& row_width(row) <= place.available_width
            &&& forall|j: int| 0 <= j < row.len() ==> place.index_base + row[j].0 <= usize::MAX
        },
    ensures
        final(cards)@ == old(cards)@ + rows_cards(
            rows_view(rows@),
            place.origin_x as int,
            place.available_width as int,
            place.origin_y as int,
            place.row_base as int,
            place.index_base as int,
            place.card_height as int,
        ),
{
    let ghost start = cards@;
    let ghost all = rows_view(rows@);
    let ghost ox = place.origin_x as int;
    let ghost avail = place.available_width as int;
    let ghost oy = place.origin_y as int;
    let ghost rb = place.row_base as int;
    let ghost ib = place.index_base as int;
    let ghost h = place.card_height as int;
    let mut row_index: usize = 0;
    while row_index < rows.len()
        invariant
            row_index <= rows@.len(),
            all == rows_view(rows@),
            ox == place.origin_x,
            avail == place.available_width,
            oy == place.origin_y,
            rb == place.row_base,
            ib == place.index_base,
            h == place.card_height,
            place.available_width <= u16::MAX,
            place.origin_x <= u16::MAX,
            1 <= place.card_height <= 3,
            place.origin_y + rows@.len() * place.card_height <= 2 * u16::MAX + 2,
            place.row_base + rows@.len() <= usize::MAX,
            forall|r: int| 0 <= r < rows@.len() ==> {
                let row = #[trigger] rows@[r]@;
                &&& row.len() > 0
                &&& row_width(row) <= place.available_width
                &&& forall|j: int| 0 <= j < row.len() ==> place.index_base + row[j].0 <= usize::MAX
            },
            cards@ == start + rows_cards(all.take(row_index as int), ox, avail, oy, rb, ib, h),
        decreases rows@.len() - row_index,
    {
        let row = &rows[row_index];
        let ghost rv = row@;
        assert(all[row_index as int] == rv);
        proof {
            lemma_stretched_fits(rv, avail);
            lemma_row_width_nonneg(rv);
        }
        let mut row_width_now: usize = 0;
        let mut k: usize = 0;
        while k < row.len()
            invariant
                k <= rv.len(),
                rv == row@,
                row_width_now == row_width(rv.take(k as int)),
                row_width(rv) <= avail,
                avail <= u16::MAX,
            decreases rv.len() - k,
        {
            proof {
                lemma_row_width_take(rv, k as int);
                lemma_row_width_prefix(rv, k as int + 1);
            }
            row_width_now += row[k].1;
            k += 1;
        }
        assert(rv.take(rv.len() as int) =~= rv);
        let row_width_total = row_width_now;
        let share = (place.available_width - row_width_total) / row.len();
        let stretch = if share < MAX_ROW_STRETCH { share } else { MAX_ROW_STRETCH };
        assert(stretch == stretch_of(rv, avail));
        let stretched_total = row_width_total + stretch * row.len();
        assert(stretched_total == stretched_width(rv, avail));
        let mut x = place.origin_x + (place.available_width - stretched_total) / 2;
        assert(row_index * place.card_height <= rows@.len() * place.card_height) by (nonlinear_arith)
            requires
                row_index < rows@.len(),
                place.card_height >= 1,
        ;
        let y = place.origin_y + row_index * place.card_height;
        let ghost before_row = cards@;
        let ghost expected = row_cards(rv, ox, avail, oy + row_index * h, rb + row_index, ib, h);
        let mut j: usize = 0;
        while j < row.len()
            invariant
                j <= rv.len(),
                rv == row@,
                rv.len() > 0,
                row_width(rv) <= avail,
                avail == place.available_width,
                avail <= u16::MAX,
                ox == place.origin_x,
                ox <= u16::MAX,
                ib == place.index_base,
                rb == place.row_base,
                h == place.card_height,
                1 <= h <= 3,
                y == oy + row_index * h,
                y <= 2 * u16::MAX + 2,
                rb + row_index < usize::MAX,
                0 <= stretch <= MAX_ROW_STRETCH,
                stretch == stretch_of(rv, avail),
                stretched_total == stretched_width(rv, avail),
                stretched_total <= avail,
                x == row_left(rv, ox, avail) + row_width(rv.take(j as int)) + j * stretch,
                forall|q: int| 0 <= q < rv.len() ==> place.index_base + rv[q].0 <= usize::MAX,
                expected == row_cards(rv, ox, avail, oy + row_index * h, rb + row_index, ib, h),
                cards@ == before_row + expected.take(j as int),
            decreases rv.len() - j,
        {
            let (index, width) = row[j];
            proof {
                lemma_row_width_take(rv, j as int);
                lemma_row_width_prefix(rv, j as int + 1);
                assert((j + 1) * stretch == j * stretch + stretch) by (nonlinear_arith);
                assert((j + 1) * stretch <= rv.len() * stretch) by (nonlinear_arith)
                    requires
                        j + 1 <= rv.len(),
                        stretch >= 0,
                ;
            }
            let card_width = width + stretch;
            cards.push(CardPlacement {
                index: place.index_base + index,
                row: place.row_base + row_index,
                area: Rect::new(x as u16, y as u16, card_width as u16, place.card_height as u16),
            });
            assert(expected.take(j + 1) =~= expected.take(j as int).push(expected[j as int]));
            x += card_width;
            j += 1;
        }
        assert(expected.take(rv.len() as int) =~= expected);
        proof {
            assert(all.take(row_index + 1).drop_last() =~= all.take(row_index as int));
            assert(all.take(row_index + 1).len() - 1 == row_index);
            assert(all.take(row_index + 1)[row_index as int] == rv);
        }
        row_index += 1;
    }
    assert(all.take(rows@.len() as int) =~= all);
}


// ---------------------------------------------------------------- flow plans

/// Each card's width once framed and held at the narrowest card.
pub open spec fn padded_widths(item_widths: Seq<usize>, frame_width: int, minimum_width: int) -> Seq<usize> {
    Seq::new(
        item_widths.len(),
        |i: int|
            {
                let framed = clamp_usize(item_widths[i] + frame_width);
                (if framed < minimum_width {
                    minimum_width
                } else {
                    framed
                }) as usize
            },
    )
}

/// A flow layout is tried only when the space is at least one card wide and
/// no framed title is wider than the space.
pub open spec fn flow_fits(item_widths: Seq<usize>, available_width: int, minimum_width: int, frame_width: int) -> bool {
    &&& available_width >= minimum_width
    &&& forall|i: int| 0 <= i < item_widths.len() ==> clamp_usize(item_widths[i] + frame_width) <= available_width
}

/// First index of each band, then the item count.
pub open spec fn boundaries(splits: Seq<usize>, item_count: int) -> Seq<usize> {
    seq![0usize] + splits + seq![item_count as usize]
}

/// Each band wrapped into rows on its own.
pub open spec fn flow_bands(widths: Seq<usize>, bounds: Seq<usize>, available_width: int) -> Seq<Seq<Seq<(usize, usize)>>> {
    Seq::new(
        (bounds.len() - 1) as nat,
        |k: int| wrap_rows_spec(widths.subrange(bounds[k] as int, bounds[k + 1] as int), available_width),
    )
}

/// Rows above band `k`, counting one separator line after each band.
pub open spec fn band_top(bands: Seq<Seq<Seq<(usize, usize)>>>, k: int, card_height: int) -> int
    decreases k,
{
    if k <= 0 {
        0
    } else {
        band_top(bands, k - 1, card_height) + bands[k - 1].len() * card_height + 1
    }
}

/// Rows of cards in the bands before band `k`.
pub open spec fn rows_before(bands: Seq<Seq<Seq<(usize, usize)>>>, k: int) -> int
    decreases k,
{
    if k <= 0 {
        0
    } else {
        rows_before(bands, k - 1) + bands[k - 1].len()
    }
}

/// The cards of the first `k` bands.
pub open spec fn bands_cards(
    bands: Seq<Seq<Seq<(usize, usize)>>>,
    bounds: Seq<usize>,
    k: int,
    origin_x: int,
    available_width: int,
    top: int,
    card_height: int,
) -> Seq<CardPlacement>
    decreases k,
{
    if k <= 0 {
        seq![]
    } else {
        bands_cards(bands, bounds, k - 1, origin_x, available_width, top, card_height) + rows_cards(
            bands[k - 1],
            origin_x,
            available_width,
            top + band_top(bands, k - 1, card_height),
            rows_before(bands, k - 1),
            bounds[k - 1] as int,
            card_height,
        )
    }
}

/// The separator line under every band but the last.
pub open spec fn bands_separators(bands: Seq<Seq<Seq<(usize, usize)>>>, top: int, card_height: int) -> Seq<u16> {
    Seq::new(
        (bands.len() - 1) as nat,
        |k: int| (top + band_top(bands, k, card_height) + bands[k].len() * card_height) as u16,
    )
}

/// Most cards in one row of the first `r` rows.
pub open spec fn max_row_len(rows: Seq<Seq<(usize, usize)>>, r: int) -> int
    decreases r,
{
    if r <= 0 {
        0
    } else {
        let before = max_row_len(rows, r - 1);
        if rows[r - 1].len() > before {
            rows[r - 1].len() as int
        } else {
            before
        }
    }
}

/// Most cards in one row of the first `k` bands.
pub open spec fn bands_columns(bands: Seq<Seq<Seq<(usize, usize)>>>, k: int) -> int
    decreases k,
{
    if k <= 0 {
        0
    } else {
        let before = bands_columns(bands, k - 1);
        let here = max_row_len(bands[k - 1], bands[k - 1].len() as int);
        if here > before {
            here
        } else {
            before
        }
    }
}

pub open spec fn flow_plan_spec(
    mode: LayoutMode,
    item_widths: Seq<usize>,
    area: Rect,
    card_height: int,
    minimum_width: int,
    frame_width: int,
    splits: Seq<usize>,
) -> Option<PlanModel> {
    let available_width = area.width as int;
    let n = item_widths.len() as int;
    if !flow_fits(item_widths, available_width, minimum_width, frame_width) {
        None
    } else {
        let widths = padded_widths(item_widths, frame_width, minimum_width);
        let bounds = boundaries(splits, n);
        let bands = flow_bands(widths, bounds, available_width);
        let grid_height = band_top(bands, bands.len() as int, card_height) - 1;
        if grid_height > area.height {
            None
        } else {
            let top = area.y + (area.height - grid_height) / 2;
            let columns = bands_columns(bands, bands.len() as int);
            Some(
                PlanModel {
                    mode,
                    columns: (if columns == 0 { 1 } else { columns }) as usize,
                    total_rows: rows_before(bands, bands.len() as int) as usize,
                    tab_count: n as usize,
                    first_visible: 0,
                    visible_count: n as usize,
                    cards: bands_cards(bands, bounds, bands.len() as int, area.x as int, available_width, top, card_height),
                    separators: bands_separators(bands, top, card_height),
                },
            )
        }
    }
}

pub open spec fn plan_option_view(plan: Option<LayoutPlan>) -> Option<PlanModel> {
    match plan {
        Some(p) => Some(p@),
        None => None,
    }
}

pub open spec fn bands_view(bands: Seq<Vec<Vec<(usize, usize)>>>) -> Seq<Seq<Seq<(usize, usize)>>> {
    bands.map_values(|rows: Vec<Vec<(usize, usize)>>| rows_view(rows@))
}

proof fn lemma_band_top_grows(bands: Seq<Seq<Seq<(usize, usize)>>>, j: int, k: int, card_height: int)
    requires
        0 <= j <= k <= bands.len(),
        card_height >= 1,
    ensures
        band_top(bands, j, card_height) + (k - j) <= band_top(bands, k, card_height),
        rows_before(bands, k) - rows_before(bands, j) <= band_top(bands, k, card_height) - band_top(bands, j, card_height),
        rows_before(bands, j) >= 0,
    decreases k,
{
    if k > j {
        lemma_band_top_grows(bands, j, k - 1, card_height);
        let len = bands[k - 1].len() as int;
        assert(len * card_height >= len) by (nonlinear_arith)
            requires
                len >= 0,
                card_height >= 1,
        ;
    } else {
        lemma_rows_before_nonneg(bands, j);
    }
}

proof fn lemma_rows_before_nonneg(bands: Seq<Seq<Seq<(usize, usize)>>>, k: int)
    ensures
        rows_before(bands, k) >= 0,
    decreases k,
{
    if k > 0 {
        lemma_rows_before_nonneg(bands, k - 1);
    }
}

fn flow_fits_exec(item_widths: &Vec<usize>, available_width: usize, minimum_width: usize, frame_width: usize) -> (fits: bool)
    ensures
        fits == flow_fits(item_widths@, available_width as int, minimum_width as int, frame_width as int),
{
    if available_width < minimum_width {
        return false;
    }
    let mut i: usize = 0;
    while i < item_widths.len()
        invariant
            i <= item_widths@.len(),
            forall|q: int| 0 <= q < i ==> clamp_usize(item_widths@[q] + frame_width) <= available_width,
        decreases item_widths@.len() - i,
    {
        if item_widths[i].saturating_add(frame_width) > available_width {
            return false;
        }
        i += 1;
    }
    true
}

fn padded_widths_exec(item_widths: &Vec<usize>, minimum_width: usize, frame_width: usize) -> (widths: Vec<usize>)
    ensures
        widths@ == padded_widths(item_widths@, frame_width as int, minimum_width as int),
{
    let mut widths: Vec<usize> = Vec::new();
    let mut i: usize = 0;
    while i < item_widths.len()
        invariant
            i <= item_widths@.len(),
            widths@ =~= padded_widths(item_widths@, frame_width as int, minimum_width as int).take(i as int),
        decreases item_widths@.len() - i,
    {
        let framed = item_widths[i].saturating_add(frame_width);
        widths.push(if framed < minimum_width { minimum_width } else { framed });
        i += 1;
    }
    assert(widths@ =~= padded_widths(item_widths@, frame_width as int, minimum_width as int));
    widths
}

fn boundaries_exec(splits: &Vec<usize>, item_count: usize) -> (bounds: Vec<usize>)
    requires
        item_count > 0,
        strictly_increasing(splits@),
        forall|i: int| 0 <= i < splits@.len() ==> 0 < #[trigger] splits@[i] < item_count,
    ensures
        bounds@ == boundaries(splits@, item_count as int),
        bounds@.len() == splits@.len() + 2,
        forall|a: int, b: int| 0 <= a < b < bounds@.len() ==> bounds@[a] < bounds@[b],
        bounds@[0] == 0,
        bounds@[bounds@.len() - 1] == item_count,
{
    let mut bounds: Vec<usize> = Vec::new();
    bounds.push(0);
    let mut i: usize = 0;
    while i < splits.len()
        invariant
            i <= splits@.len(),
            bounds@ =~= seq![0usize] + splits@.take(i as int),
        decreases splits@.len() - i,
    {
        bounds.push(splits[i]);
        i += 1;
    }
    bounds.push(item_count);
    let ghost bv = boundaries(splits@, item_count as int);
    assert(splits@.take(splits@.len() as int) =~= splits@);
    assert(bounds@ =~= bv);
    assert forall|a: int, b: int| 0 <= a < b < bv.len() implies bv[a] < bv[b] by {
        if a == 0 {
            if b < bv.len() - 1 {
                assert(bv[b] == splits@[b - 1]);
            }
        } else if b == bv.len() - 1 {
            assert(bv[a] == splits@[a - 1]);
        } else {
            assert(bv[a] == splits@[a - 1]);
            assert(bv[b] == splits@[b - 1]);
        }
    }
    bounds
}

/// Each band of the board: rows that hold a card each, no wider than the
/// space, naming cards of that band.
pub open spec fn bands_well_shaped(bands: Seq<Seq<Seq<(usize, usize)>>>, bounds: Seq<usize>, available_width: int) -> bool {
    forall|q: int| 0 <= q < bands.len() ==> {
        let band = #[trigger] bands[q];
        &&& band.len() <= bounds[q + 1] - bounds[q]
        &&& forall|r: int| 0 <= r < band.len() ==> {
            let row = #[trigger] band[r];
            &&& row.len() > 0
            &&& row_width(row) <= available_width
            &&& forall|j: int| 0 <= j < row.len() ==> row[j].0 < bounds[q + 1] - bounds[q]
        }
    }
}

fn bands_exec(widths: &Vec<usize>, bounds: &Vec<usize>, available_width: usize) -> (bands: Vec<Vec<Vec<(usize, usize)>>>)
    requires
        bounds@.len() >= 2,
        forall|a: int, b: int| 0 <= a < b < bounds@.len() ==> bounds@[a] < bounds@[b],
        bounds@[0] == 0,
        bounds@[bounds@.len() - 1] == widths@.len(),
        available_width <= u16::MAX,
        forall|q: int| 0 <= q < widths@.len() ==> widths@[q] <= available_width,
    ensures
        bands_view(bands@) == flow_bands(widths@, bounds@, available_width as int),
        bands@.len() == bounds@.len() - 1,
        bands_well_shaped(bands_view(bands@), bounds@, available_width as int),
{
    let ghost bv = bounds@;
    let ghost all_bands = flow_bands(widths@, bv, available_width as int);
    let mut bands: Vec<Vec<Vec<(usize, usize)>>> = Vec::new();
    let mut k: usize = 0;
    while k < bounds.len() - 1
        invariant
            bounds@ == bv,
            bv.len() >= 2,
            k + 1 <= bv.len(),
            forall|a: int, b: int| 0 <= a < b < bv.len() ==> bv[a] < bv[b],
            bv[bv.len() - 1] == widths@.len(),
            available_width <= u16::MAX,
            forall|q: int| 0 <= q < widths@.len() ==> widths@[q] <= available_width,
            all_bands == flow_bands(widths@, bv, available_width as int),
            bands_view(bands@) =~= all_bands.take(k as int),
        decreases bv.len() - k,
    {
        proof {
            assert(bv[k as int] < bv[k + 1]);
            if k + 2 < bv.len() {
                assert(bv[k + 1] < bv[bv.len() - 1]);
            }
        }
        let rows = wrap_rows(widths, bounds[k], bounds[k + 1], available_width);
        let ghost before = bands@;
        bands.push(rows);
        assert(bands_view(bands@) =~= bands_view(before).push(rows_view(rows@)));
        assert(all_bands.take(k + 1) =~= all_bands.take(k as int).push(all_bands[k as int]));
        k += 1;
    }
    assert(all_bands.take(k as int) =~= all_bands);
    let ghost bandv = all_bands;
    assert forall|q: int| 0 <= q < bandv.len() implies {
        let band = #[trigger] bandv[q];
        &&& band.len() <= bv[q + 1] - bv[q]
        &&& forall|r: int| 0 <= r < band.len() ==> {
            let row = #[trigger] band[r];
            &&& row.len() > 0
            &&& row_width(row) <= available_width
            &&& forall|j: int| 0 <= j < row.len() ==> row[j].0 < bv[q + 1] - bv[q]
        }
    } by {
        let slice = widths@.subrange(bv[q] as int, bv[q + 1] as int);
        assert(bv[q] < bv[q + 1]);
        if q + 1 < bv.len() - 1 {
            assert(bv[q + 1] < bv[bv.len() - 1]);
        }
        assert forall|t: int| 0 <= t < slice.len() implies slice[t] <= available_width by {
            assert(slice[t] == widths@[bv[q] + t]);
        }
        lemma_wrap_rows_shape(slice, available_width as int);
    }
    bands
}

/// Height of the banded grid, or `None` when it is taller than `limit`.
fn grid_height_exec(bands: &Vec<Vec<Vec<(usize, usize)>>>, card_height: usize, limit: u16) -> (height: Option<usize>)
    requires
        1 <= card_height <= 3,
        bands@.len() >= 1,
    ensures
        match height {
            Some(g) => g == band_top(bands_view(bands@), bands@.len() as int, card_height as int) - 1 && g <= limit,
            None => band_top(bands_view(bands@), bands@.len() as int, card_height as int) - 1 > limit,
        },
{
    let ghost bandv = bands_view(bands@);
    let ghost h = card_height as int;
    let band_count = bands.len();
    let mut grid_top: usize = 0;
    let mut k: usize = 0;
    while k < band_count
        invariant
            k <= band_count,
            band_count == bandv.len(),
            bandv == bands_view(bands@),
            1 <= h <= 3,
            h == card_height,
            grid_top == band_top(bandv, k as int, h),
            grid_top <= limit + 1,
        decreases band_count - k,
    {
        let rows_here = bands[k].len();
        assert(bandv[k as int].len() == rows_here);
        if rows_here > limit as usize {
            proof {
                lemma_band_top_grows(bandv, k as int + 1, band_count as int, h);
                lemma_band_top_grows(bandv, 0, k as int, h);
                assert(rows_here * h >= rows_here) by (nonlinear_arith)
                    requires
                        h >= 1,
                ;
            }
            return None;
        }
        assert(rows_here * card_height <= 3 * u16::MAX) by (nonlinear_arith)
            requires
                rows_here <= u16::MAX,
                card_height <= 3,
        ;
        grid_top = grid_top + rows_here * card_height + 1;
        if grid_top - 1 > limit as usize {
            proof {
                lemma_band_top_grows(bandv, k as int + 1, band_count as int, h);
            }
            return None;
        }
        k += 1;
    }
    proof {
        lemma_band_top_grows(bandv, 0, band_count as int, h);
    }
    Some(grid_top - 1)
}

/// Cards, separators, row count and widest row of a banded grid whose
/// first row starts at `top`.
fn place_bands(
    bands: &Vec<Vec<Vec<(usize, usize)>>>,
    bounds: &Vec<usize>,
    area: Rect,
    top: usize,
    card_height: usize,
    grid_height: usize,
) -> (placed: (Vec<CardPlacement>, Vec<u16>, usize, usize))
    requires
        1 <= card_height <= 3,
        bands@.len() >= 1,
        bounds@.len() == bands@.len() + 1,
        forall|a: int, b: int| 0 <= a < b < bounds@.len() ==> bounds@[a] < bounds@[b],
        grid_height == band_top(bands_view(bands@), bands@.len() as int, card_height as int) - 1,
        grid_height <= area.height,
        top == area.y + (area.height - grid_height) / 2,
        bands_well_shaped(bands_view(bands@), bounds@, area.width as int),
    ensures
        placed.0@ == bands_cards(bands_view(bands@), bounds@, bands@.len() as int, area.x as int, area.width as int, top as int, card_height as int),
        placed.1@ == bands_separators(bands_view(bands@), top as int, card_height as int),
        placed.2 == rows_before(bands_view(bands@), bands@.len() as int),
        placed.3 == bands_columns(bands_view(bands@), bands@.len() as int),
{
    let ghost bandv = bands_view(bands@);
    let ghost bv = bounds@;
    let ghost h = card_height as int;
    let ghost avail = area.width as int;
    let ghost sep = bands_separators(bandv, top as int, h);
    let available_width = area.width as usize;
    let band_count = bands.len();
    let mut cards: Vec<CardPlacement> = Vec::new();
    let mut separators: Vec<u16> = Vec::new();
    let mut origin_y = top;
    let mut row_base: usize = 0;
    let mut columns: usize = 0;
    let mut k: usize = 0;
    while k < band_count
        invariant
            k <= band_count,
            band_count == bandv.len(),
            band_count >= 1,
            bandv == bands_view(bands@),
            bounds@ == bv,
            bv.len() == band_count + 1,
            forall|a: int, b: int| 0 <= a < b < bv.len() ==> bv[a] < bv[b],
            1 <= h <= 3,
            h == card_height,
            available_width == avail,
            avail == area.width,
            grid_height == band_top(bandv, band_count as int, h) - 1,
            grid_height <= area.height,
            top == area.y + (area.height - grid_height) / 2,
            k < band_count ==> origin_y == top + band_top(bandv, k as int, h),
            row_base == rows_before(bandv, k as int),
            columns == bands_columns(bandv, k as int),
            cards@ == bands_cards(bandv, bv, k as int, area.x as int, avail, top as int, h),
            sep == bands_separators(bandv, top as int, h),
            k < band_count ==> separators@ == sep.take(k as int),
            k == band_count ==> separators@ == sep,
            bands_well_shaped(bandv, bv, avail),
        decreases band_count - k,
    {
        let rows = &bands[k];
        let ghost band = bandv[k as int];
        assert(rows_view(rows@) == band);
        proof {
            lemma_band_top_grows(bandv, k as int + 1, band_count as int, h);
            lemma_band_top_grows(bandv, 0, k as int + 1, h);
            lemma_band_top_grows(bandv, 0, k as int, h);
            assert(bv[k as int] < bv[k + 1]);
            if k + 1 < bv.len() - 1 {
                assert(bv[k + 1] < bv[bv.len() - 1]);
            }
        }
        let place = PlaceRows {
            origin_y,
            row_base,
            index_base: bounds[k],
            card_height,
            available_width,
            origin_x: area.x as usize,
        };
        assert forall|r: int| 0 <= r < rows@.len() implies {
            let row = #[trigger] rows@[r]@;
            &&& row.len() > 0
            &&& row_width(row) <= place.available_width
            &&& forall|j: int| 0 <= j < row.len() ==> place.index_base + row[j].0 <= usize::MAX
        } by {
            assert(rows@[r]@ == band[r]);
        }
        place_rows(rows, &place, &mut cards);
        let mut r: usize = 0;
        let ghost columns_before = columns as int;
        while r < rows.len()
            invariant
                r <= rows@.len(),
                rows_view(rows@) == band,
                columns == if max_row_len(band, r as int) > columns_before { max_row_len(band, r as int) } else { columns_before },
            decreases rows@.len() - r,
        {
            assert(rows@[r as int]@ == band[r as int]);
            if rows[r].len() > columns {
                columns = rows[r].len();
            }
            r += 1;
        }
        let band_height = rows.len() * card_height;
        origin_y = origin_y + band_height;
        row_base = row_base + rows.len();
        if k + 1 < band_count {
            separators.push(origin_y as u16);
            origin_y = origin_y + 1;
            assert(separators@ =~= sep.take(k + 1));
        } else {
            assert(sep.len() == k);
            assert(separators@ =~= sep);
        }
        k += 1;
    }
    (cards, separators, row_base, columns)
}

fn flow_plan(
    mode: LayoutMode,
    item_widths: &Vec<usize>,
    area: Rect,
    card_height: usize,
    minimum_width: usize,
    frame_width: usize,
    splits: &Vec<usize>,
) -> (plan: Option<LayoutPlan>)
    requires
        1 <= card_height <= 3,
        minimum_width <= 8,
        frame_width <= 4,
        item_widths@.len() > 0,
        strictly_increasing(splits@),
        forall|i: int| 0 <= i < splits@.len() ==> 0 < #[trigger] splits@[i] < item_widths@.len(),
    ensures
        plan_option_view(plan) == flow_plan_spec(
            mode,
            item_widths@,
            area,
            card_height as int,
            minimum_width as int,
            frame_width as int,
            splits@,
        ),
{
    let available_width = area.width as usize;
    if !flow_fits_exec(item_widths, available_width, minimum_width, frame_width) {
        return None;
    }
    let widths = padded_widths_exec(item_widths, minimum_width, frame_width);
    assert(forall|q: int| 0 <= q < widths@.len() ==> widths@[q] <= available_width);
    let bounds = boundaries_exec(splits, item_widths.len());
    let bands = bands_exec(&widths, &bounds, available_width);
    let grid_height = match grid_height_exec(&bands, card_height, area.height) {
        Some(g) => g,
        None => {
            return None;
        },
    };
    let top = area.y as usize + (area.height as usize - grid_height) / 2;
    let (cards, separators, total_rows, columns) = place_bands(&bands, &bounds, area, top, card_height, grid_height);
    Some(LayoutPlan {
        mode,
        columns: if columns == 0 { 1 } else { columns },
        total_rows,
        tab_count: item_widths.len(),
        first_visible: 0,
        visible_count: item_widths.len(),
        cards,
        separators,
    })
}


// ---------------------------------------------------------------- scrolling

/// The single column shown from card `index` on, one line each, with a
/// separator line after the last card of a band while there is room.
pub open spec fn scroll_steps(
    tab_count: int,
    splits: Seq<usize>,
    x: u16,
    content_width: u16,
    end_y: int,
    index: int,
    y: int,
) -> (Seq<CardPlacement>, Seq<u16>)
    decreases tab_count - index,
{
    if index < tab_count && y < end_y {
        let card = CardPlacement {
            index: index as usize,
            row: index as usize,
            area: Rect::spec_new(x, y as u16, content_width, 1),
        };
        let next_y = clamp_u16(y + 1);
        let separated = splits.contains((index + 1) as usize) && next_y < end_y;
        let after = if separated {
            clamp_u16(next_y + 1)
        } else {
            next_y
        };
        let rest = scroll_steps(tab_count, splits, x, content_width, end_y, index + 1, after);
        (
            seq![card] + rest.0,
            if separated {
                seq![next_y as u16] + rest.1
            } else {
                rest.1
            },
        )
    } else {
        (seq![], seq![])
    }
}

/// First card of the scrolling column: the scroll offset, held within the board.
pub open spec fn scroll_first(tab_count: int, scroll_offset: int) -> int {
    let last = if tab_count > 0 {
        tab_count - 1
    } else {
        0
    };
    if scroll_offset < last {
        scroll_offset
    } else {
        last
    }
}

pub open spec fn scroll_plan_spec(tab_count: int, area: Rect, scroll_offset: int, splits: Seq<usize>) -> PlanModel {
    let first = scroll_first(tab_count, scroll_offset);
    let has_hidden_items = first > 0 || clamp_usize(first + area.height) < tab_count;
    let indicator = if area.width > 1 && has_hidden_items {
        1int
    } else {
        0int
    };
    let content_width = (area.width - indicator) as u16;
    let end_y = clamp_u16(area.y + area.height);
    let steps = scroll_steps(tab_count, splits, area.x, content_width, end_y, first, area.y as int);
    PlanModel {
        mode: LayoutMode::Scroll,
        columns: 1,
        total_rows: tab_count as usize,
        tab_count: tab_count as usize,
        first_visible: first as usize,
        visible_count: steps.0.len() as usize,
        cards: steps.0,
        separators: steps.1,
    }
}

proof fn lemma_scroll_steps_len(tab_count: int, splits: Seq<usize>, x: u16, content_width: u16, end_y: int, index: int, y: int)
    ensures
        scroll_steps(tab_count, splits, x, content_width, end_y, index, y).0.len() <= if tab_count > index { tab_count - index } else { 0 },
    decreases tab_count - index,
{
    if index < tab_count && y < end_y {
        let next_y = clamp_u16(y + 1);
        let separated = splits.contains((index + 1) as usize) && next_y < end_y;
        let after = if separated { clamp_u16(next_y + 1) } else { next_y };
        lemma_scroll_steps_len(tab_count, splits, x, content_width, end_y, index + 1, after);
    }
}

fn contains_exec(values: &Vec<usize>, value: usize) -> (found: bool)
    ensures
        found == values@.contains(value),
{
    let mut i: usize = 0;
    while i < values.len()
        invariant
            i <= values@.len(),
            forall|q: int| 0 <= q < i ==> values@[q] != value,
        decreases values@.len() - i,
    {
        if values[i] == value {
            return true;
        }
        i += 1;
    }
    false
}

fn scroll_plan(tab_count: usize, area: Rect, scroll_offset: usize, splits: &Vec<usize>) -> (plan: LayoutPlan)
    ensures
        plan@ == scroll_plan_spec(tab_count as int, area, scroll_offset as int, splits@),
{
    let first_visible = if scroll_offset < tab_count.saturating_sub(1) { scroll_offset } else { tab_count.saturating_sub(1) };
    let has_hidden_items = first_visible > 0 || first_visible.saturating_add(area.height as usize) < tab_count;
    let content_width = area.width.saturating_sub(if area.width > 1 && has_hidden_items { 1 } else { 0 });
    let ghost end_y_spec = clamp_u16(area.y + area.height);
    let ghost total = scroll_steps(tab_count as int, splits@, area.x, content_width, end_y_spec, first_visible as int, area.y as int);
    let mut cards: Vec<CardPlacement> = Vec::new();
    let mut separators: Vec<u16> = Vec::new();
    let mut y = area.y;
    let end_y = area.y.saturating_add(area.height);
    let mut index = first_visible;
    while index < tab_count && y < end_y
        invariant
            end_y == end_y_spec,
            total == scroll_steps(tab_count as int, splits@, area.x, content_width, end_y_spec, first_visible as int, area.y as int),
            cards@ + scroll_steps(tab_count as int, splits@, area.x, content_width, end_y_spec, index as int, y as int).0 == total.0,
            separators@ + scroll_steps(tab_count as int, splits@, area.x, content_width, end_y_spec, index as int, y as int).1 == total.1,
        decreases tab_count - index,
    {
        let ghost rest = scroll_steps(tab_count as int, splits@, area.x, content_width, end_y_spec, index as int, y as int);
        let ghost old_cards = cards@;
        let ghost old_separators = separators@;
        cards.push(CardPlacement { index, row: index, area: Rect::new(area.x, y, content_width, 1) });
        y = y.saturating_add(1);
        let separated = contains_exec(splits, index + 1) && y < end_y;
        if separated {
            separators.push(y);
            y = y.saturating_add(1);
        }
        index += 1;
        proof {
            let next = scroll_steps(tab_count as int, splits@, area.x, content_width, end_y_spec, index as int, y as int);
            assert(rest.0 == seq![cards@.last()] + next.0);
            assert(cards@ =~= old_cards.push(cards@.last()));
            assert(cards@ + next.0 =~= old_cards + rest.0);
            if separated {
                assert(separators@ + next.1 =~= old_separators + rest.1);
            } else {
                assert(separators@ + next.1 =~= old_separators + rest.1);
            }
        }
    }
    assert(cards@ =~= total.0);
    assert(separators@ =~= total.1);
    proof {
        lemma_scroll_steps_len(tab_count as int, splits@, area.x, content_width, end_y_spec, first_visible as int, area.y as int);
    }
    LayoutPlan {
        mode: LayoutMode::Scroll,
        columns: 1,
        total_rows: tab_count,
        tab_count,
        first_visible,
        visible_count: cards.len(),
        cards,
        separators,
    }
}

// ---------------------------------------------------------------- the plan

/// The layout of cards of the given widths in `area`: framed cards if they
/// all fit, else borderless cards, else one scrolling column.
#[verifier::opaque]
pub open spec fn calculate_spec(item_widths: Seq<usize>, area: Rect, scroll_offset: int, band_ends: Seq<usize>) -> PlanModel {
    if item_widths.len() == 0 || area.width == 0 || area.height == 0 {
        empty_plan()
    } else {
        let splits = normalized_splits(band_ends, item_widths.len() as int);
        match flow_plan_spec(
            LayoutMode::Framed,
            item_widths,
            area,
            FRAMED_CARD_HEIGHT as int,
            FRAMED_MIN_WIDTH as int,
            FRAMED_FRAME_WIDTH as int,
            splits,
        ) {
            Some(plan) => plan,
            None => match flow_plan_spec(
                LayoutMode::Compact,
                item_widths,
                area,
                COMPACT_CARD_HEIGHT as int,
                COMPACT_MIN_WIDTH as int,
                0,
                splits,
            ) {
                Some(plan) => plan,
                None => scroll_plan_spec(item_widths.len() as int, area, scroll_offset, splits),
            },
        }
    }
}

/// Horizontal center of an area, doubled to stay whole.
pub open spec fn center_x(area: Rect) -> int {
    area.x * 2 + area.width
}

pub open spec fn abs_diff(a: int, b: int) -> int {
    if a < b {
        b - a
    } else {
        a - b
    }
}

/// Position of the first card, from `from` on, that shows item `index`.
pub open spec fn card_with_index(cards: Seq<CardPlacement>, index: int, from: int) -> Option<int>
    decreases cards.len() - from,
{
    if from < 0 || from >= cards.len() {
        None
    } else if cards[from].index == index {
        Some(from)
    } else {
        card_with_index(cards, index, from + 1)
    }
}

/// Position of the first card in `row` whose center is nearest `center`,
/// scanning from `from` with the best so far in `best`.
pub open spec fn nearest_in_row(cards: Seq<CardPlacement>, row: int, center: int, from: int, best: Option<int>) -> Option<int>
    decreases cards.len() - from,
{
    if from < 0 || from >= cards.len() {
        best
    } else {
        let card = cards[from];
        let better = card.row == row && match best {
            None => true,
            Some(b) => abs_diff(center_x(card.area), center) < abs_diff(center_x(cards[b].area), center),
        };
        nearest_in_row(cards, row, center, from + 1, if better { Some(from) } else { best })
    }
}

impl PlanModel {
    /// The card one row above or below `index` whose center is nearest,
    /// staying put at the top and bottom rows.
    pub open spec fn vertical_neighbor(self, index: int, direction: int) -> int {
        if self.tab_count == 0 {
            0
        } else if self.mode == LayoutMode::Scroll || self.total_rows == 1 {
            self.horizontal_neighbor(index, direction)
        } else {
            match card_with_index(self.cards, index, 0) {
                None => if index < self.tab_count - 1 { index } else { self.tab_count - 1 },
                Some(p) => {
                    let target = self.cards[p].row + direction;
                    if target < 0 || target >= self.total_rows {
                        index
                    } else {
                        match nearest_in_row(self.cards, target, center_x(self.cards[p].area), 0, None) {
                            None => index,
                            Some(b) => self.cards[b].index as int,
                        }
                    }
                }
            }
        }
    }
}

impl LayoutPlan {
    /// Lays out cards of the given title widths in `area`; `band_ends` are
    /// the first index of each band after the first, and a separator line
    /// runs between bands.
    pub fn calculate_with_bands(item_widths: &[usize], area: Rect, scroll_offset: usize, band_ends: &[usize]) -> (plan: LayoutPlan)
        ensures
            plan@ == calculate_spec(item_widths@, area, scroll_offset as int, band_ends@),
    {
        let widths = copy_widths(item_widths);
        let ends = copy_widths(band_ends);
        LayoutPlan::layout(&widths, area, scroll_offset, &ends)
    }

    /// Lays out cards of the given title widths in `area`, in one band.
    pub fn calculate(item_widths: &[usize], area: Rect, scroll_offset: usize) -> (plan: LayoutPlan)
        ensures
            plan@ == calculate_spec(item_widths@, area, scroll_offset as int, seq![]),
    {
        let widths = copy_widths(item_widths);
        let ends: Vec<usize> = Vec::new();
        LayoutPlan::layout(&widths, area, scroll_offset, &ends)
    }

    /// Lays out cards with the first `pin_count` in a band of their own.
    pub fn calculate_with_pins(item_widths: &[usize], area: Rect, scroll_offset: usize, pin_count: usize) -> (plan: LayoutPlan)
        ensures
            plan@ == calculate_spec(
                item_widths@,
                area,
                scroll_offset as int,
                if 0 < pin_count && pin_count < item_widths@.len() {
                    seq![pin_count]
                } else {
                    seq![]
                },
            ),
    {
        let widths = copy_widths(item_widths);
        let mut ends: Vec<usize> = Vec::new();
        if pin_count > 0 && pin_count < item_widths.len() {
            ends.push(pin_count);
        }
        assert(ends@ =~= if 0 < pin_count && pin_count < item_widths@.len() {
            seq![pin_count]
        } else {
            seq![]
        });
        LayoutPlan::layout(&widths, area, scroll_offset, &ends)
    }

    fn layout(item_widths: &Vec<usize>, area: Rect, scroll_offset: usize, band_ends: &Vec<usize>) -> (plan: LayoutPlan)
        ensures
            plan@ == calculate_spec(item_widths@, area, scroll_offset as int, band_ends@),
    {
        reveal(calculate_spec);
        if item_widths.len() == 0 || area.width == 0 || area.height == 0 {
            return LayoutPlan::empty();
        }
        let splits = normalize_splits(band_ends, item_widths.len());
        assert forall|i: int| 0 <= i < splits@.len() implies 0 < #[trigger] splits@[i] < item_widths@.len() by {
            assert(splits@.contains(splits@[i]));
        }
        if let Some(plan) = flow_plan(
            LayoutMode::Framed,
            item_widths,
            area,
            FRAMED_CARD_HEIGHT,
            FRAMED_MIN_WIDTH,
            FRAMED_FRAME_WIDTH,
            &splits,
        ) {
            return plan;
        }
        if let Some(plan) = flow_plan(
            LayoutMode::Compact,
            item_widths,
            area,
            COMPACT_CARD_HEIGHT,
            COMPACT_MIN_WIDTH,
            0,
            &splits,
        ) {
            return plan;
        }
        scroll_plan(item_widths.len(), area, scroll_offset, &splits)
    }

    /// The card one row above (`-1`) or below (`1`) whose horizontal center
    /// is nearest; in the scrolling column, the previous or next card.
    pub fn vertical_neighbor(&self, index: usize, direction: isize) -> (r: usize)
        ensures
            r == self@.vertical_neighbor(index as int, direction as int),
    {
        if self.tab_count == 0 {
            return 0;
        }
        if self.mode == LayoutMode::Scroll || self.total_rows == 1 {
            return self.horizontal_neighbor(index, direction);
        }
        let mut p: usize = 0;
        while p < self.cards.len() && self.cards[p].index != index
            invariant
                p <= self.cards@.len(),
                card_with_index(self.cards@, index as int, 0) == card_with_index(self.cards@, index as int, p as int),
            decreases self.cards@.len() - p,
        {
            p += 1;
        }
        if p == self.cards.len() {
            return if index < self.tab_count - 1 { index } else { self.tab_count - 1 };
        }
        let current = self.cards[p];
        let target_row = current.row as i128 + direction as i128;
        if target_row < 0 || target_row >= self.total_rows as i128 {
            return index;
        }
        let target_row = target_row as usize;
        let current_center = current.area.x as usize * 2 + current.area.width as usize;
        let mut best: Option<usize> = None;
        let mut best_distance: usize = 0;
        let mut q: usize = 0;
        while q < self.cards.len()
            invariant
                q <= self.cards@.len(),
                nearest_in_row(self.cards@, target_row as int, current_center as int, 0, None) == nearest_in_row(
                    self.cards@,
                    target_row as int,
                    current_center as int,
                    q as int,
                    match best {
                        Some(b) => Some(b as int),
                        None => None,
                    },
                ),
                match best {
                    Some(b) => b < q && best_distance == abs_diff(center_x(self.cards@[b as int].area), current_center as int),
                    None => true,
                },
            decreases self.cards@.len() - q,
        {
            let card = self.cards[q];
            let center = card.area.x as usize * 2 + card.area.width as usize;
            let distance = if center < current_center { current_center - center } else { center - current_center };
            let better = card.row == target_row && match best {
                None => true,
                Some(_) => distance < best_distance,
            };
            if better {
                best = Some(q);
                best_distance = distance;
            }
            q += 1;
        }
        match best {
            None => index,
            Some(b) => self.cards[b].index,
        }
    }
}

/// The widths, as a vector.
fn copy_widths(widths: &[usize]) -> (v: Vec<usize>)
    ensures
        v@ == widths@,
{
    let mut v: Vec<usize> = Vec::new();
    let mut i: usize = 0;
    while i < widths.len()
        invariant
            i <= widths@.len(),
            v@ =~= widths@.take(i as int),
        decreases widths@.len() - i,
    {
        v.push(widths[i]);
        i += 1;
    }
    assert(v@ =~= widths@);
    v
}

/// The cards of a row are all `card_height` high, when the row fits above
/// the bottom of the terminal's coordinates.
proof fn lemma_row_cards_height(
    row: Seq<(usize, usize)>,
    origin_x: int,
    available_width: int,
    y: int,
    row_no: int,
    index_base: int,
    card_height: int,
)
    requires
        0 <= y,
        1 <= card_height <= u16::MAX,
        y + card_height <= u16::MAX,
    ensures
        forall|j: int|
            0 <= j < row.len() ==> (#[trigger] row_cards(row, origin_x, available_width, y, row_no, index_base, card_height)[j]).area.height
                == card_height,
{
    let cards = row_cards(row, origin_x, available_width, y, row_no, index_base, card_height);
    assert forall|j: int| 0 <= j < row.len() implies (#[trigger] cards[j]).area.height == card_height by {
        assert((y as u16) as int == y);
        assert((card_height as u16) as int == card_height);
        assert(clamp_u16(y + card_height) == y + card_height);
    }
}

/// The cards of a band's rows are all `card_height` high.
proof fn lemma_rows_cards_height(
    rows: Seq<Seq<(usize, usize)>>,
    origin_x: int,
    available_width: int,
    origin_y: int,
    row_base: int,
    index_base: int,
    card_height: int,
)
    requires
        0 <= origin_y,
        1 <= card_height <= u16::MAX,
        origin_y + rows.len() * card_height <= u16::MAX,
    ensures
        forall|i: int|
            0 <= i < rows_cards(rows, origin_x, available_width, origin_y, row_base, index_base, card_height).len() ==> (
            #[trigger] rows_cards(rows, origin_x, available_width, origin_y, row_base, index_base, card_height)[i]).area.height
                == card_height,
    decreases rows.len(),
{
    if rows.len() > 0 {
        let r = rows.len() - 1;
        assert(origin_y + (r + 1) * card_height == origin_y + rows.len() * card_height);
        assert(origin_y + r * card_height + card_height == origin_y + (r + 1) * card_height) by (nonlinear_arith);
        assert(0 <= r * card_height) by (nonlinear_arith)
            requires
                r >= 0,
                card_height >= 1,
        ;
        assert(r * card_height <= rows.len() * card_height) by (nonlinear_arith)
            requires
                r <= rows.len(),
                card_height >= 1,
        ;
        lemma_rows_cards_height(rows.drop_last(), origin_x, available_width, origin_y, row_base, index_base, card_height);
        lemma_row_cards_height(rows[r], origin_x, available_width, origin_y + r * card_height, row_base + r, index_base, card_height);
        let front = rows_cards(rows.drop_last(), origin_x, available_width, origin_y, row_base, index_base, card_height);
        let back = row_cards(rows[r], origin_x, available_width, origin_y + r * card_height, row_base + r, index_base, card_height);
        let all = rows_cards(rows, origin_x, available_width, origin_y, row_base, index_base, card_height);
        assert(all == front + back);
        assert forall|i: int| 0 <= i < all.len() implies (#[trigger] all[i]).area.height == card_height by {
            if i < front.len() {
                assert(all[i] == front[i]);
            } else {
                assert(all[i] == back[i - front.len()]);
            }
        }
    }
}

proof fn lemma_band_top_step(bands: Seq<Seq<Seq<(usize, usize)>>>, k: int, card_height: int)
    requires
        0 <= k,
        card_height >= 1,
    ensures
        band_top(bands, k, card_height) >= 0,
        k > 0 ==> band_top(bands, k - 1, card_height) + bands[k - 1].len() * card_height + 1 == band_top(bands, k, card_height),
    decreases k,
{
    if k > 0 {
        lemma_band_top_step(bands, k - 1, card_height);
        assert(bands[k - 1].len() * card_height >= 0) by (nonlinear_arith)
            requires
                card_height >= 1,
        ;
    }
}

/// The cards of the first `k` bands are all `card_height` high.
proof fn lemma_bands_cards_height(
    bands: Seq<Seq<Seq<(usize, usize)>>>,
    bounds: Seq<usize>,
    k: int,
    origin_x: int,
    available_width: int,
    top: int,
    card_height: int,
)
    requires
        0 <= top,
        1 <= card_height <= u16::MAX,
        0 <= k,
        top + band_top(bands, k, card_height) <= u16::MAX + 1,
    ensures
        forall|i: int|
            0 <= i < bands_cards(bands, bounds, k, origin_x, available_width, top, card_height).len() ==> (
            #[trigger] bands_cards(bands, bounds, k, origin_x, available_width, top, card_height)[i]).area.height == card_height,
    decreases k,
{
    if k > 0 {
        lemma_band_top_step(bands, k, card_height);
        lemma_band_top_step(bands, k - 1, card_height);
        lemma_bands_cards_height(bands, bounds, k - 1, origin_x, available_width, top, card_height);
        let oy = top + band_top(bands, k - 1, card_height);
        lemma_rows_cards_height(bands[k - 1], origin_x, available_width, oy, rows_before(bands, k - 1), bounds[k - 1] as int, card_height);
        let front = bands_cards(bands, bounds, k - 1, origin_x, available_width, top, card_height);
        let back = rows_cards(bands[k - 1], origin_x, available_width, oy, rows_before(bands, k - 1), bounds[k - 1] as int, card_height);
        let all = bands_cards(bands, bounds, k, origin_x, available_width, top, card_height);
        assert forall|i: int| 0 <= i < all.len() implies (#[trigger] all[i]).area.height == card_height by {
            if i < front.len() {
                assert(all[i] == front[i]);
            } else {
                assert(all[i] == back[i - front.len()]);
            }
        }
    }
}

/// A flow layout's cards are all `card_height` high.
proof fn lemma_flow_cards_height(
    mode: LayoutMode,
    item_widths: Seq<usize>,
    area: Rect,
    card_height: int,
    minimum_width: int,
    frame_width: int,
    splits: Seq<usize>,
)
    requires
        area.y + area.height <= u16::MAX,
        1 <= card_height <= u16::MAX,
    ensures
        flow_plan_spec(mode, item_widths, area, card_height, minimum_width, frame_width, splits) matches Some(plan) ==> forall|i: int|
            0 <= i < plan.cards.len() ==> (#[trigger] plan.cards[i]).area.height == card_height,
{
    let available_width = area.width as int;
    let n = item_widths.len() as int;
    if flow_fits(item_widths, available_width, minimum_width, frame_width) {
        let widths = padded_widths(item_widths, frame_width, minimum_width);
        let bounds = boundaries(splits, n);
        let bands = flow_bands(widths, bounds, available_width);
        let kk = bands.len() as int;
        lemma_band_top_step(bands, kk, card_height);
        let grid_height = band_top(bands, kk, card_height) - 1;
        if grid_height <= area.height {
            let top = area.y + (area.height - grid_height) / 2;
            assert(top + grid_height <= area.y + area.height);
            lemma_bands_cards_height(bands, bounds, kk, area.x as int, available_width, top, card_height);
        }
    }
}

/// Each card of a scrolling column is one line high.
proof fn lemma_scroll_cards_height(
    tab_count: int,
    splits: Seq<usize>,
    x: u16,
    content_width: u16,
    end_y: int,
    index: int,
    y: int,
)
    requires
        0 <= y,
        end_y <= u16::MAX,
    ensures
        forall|i: int|
            0 <= i < scroll_steps(tab_count, splits, x, content_width, end_y, index, y).0.len() ==> (#[trigger] scroll_steps(
                tab_count,
                splits,
                x,
                content_width,
                end_y,
                index,
                y,
            ).0[i]).area.height == 1,
    decreases tab_count - index,
{
    if index < tab_count && y < end_y {
        let next_y = clamp_u16(y + 1);
        let separated = splits.contains((index + 1) as usize) && next_y < end_y;
        let after = if separated {
            clamp_u16(next_y + 1)
        } else {
            next_y
        };
        lemma_scroll_cards_height(tab_count, splits, x, content_width, end_y, index + 1, after);
        let rest = scroll_steps(tab_count, splits, x, content_width, end_y, index + 1, after).0;
        let all = scroll_steps(tab_count, splits, x, content_width, end_y, index, y).0;
        assert((y as u16) as int == y);
        assert(all[0].area.height == 1);
        assert forall|i: int| 0 <= i < all.len() implies (#[trigger] all[i]).area.height == 1 by {
            if i > 0 {
                assert(all[i] == rest[i - 1]);
            }
        }
    }
}

/// All cards of a layout are the same height: cards in one row may differ
/// in width, never in height.
pub proof fn law_cards_share_one_height(item_widths: Seq<usize>, area: Rect, scroll_offset: int, band_ends: Seq<usize>)
    requires
        area.y + area.height <= u16::MAX,
    ensures
        ({
            let plan = calculate_spec(item_widths, area, scroll_offset, band_ends);
            forall|i: int, j: int|
                0 <= i < plan.cards.len() && 0 <= j < plan.cards.len() ==> (#[trigger] plan.cards[i]).area.height
                    == (#[trigger] plan.cards[j]).area.height
        }),
{
    reveal(calculate_spec);
    if !(item_widths.len() == 0 || area.width == 0 || area.height == 0) {
        let splits = normalized_splits(band_ends, item_widths.len() as int);
        lemma_flow_cards_height(
            LayoutMode::Framed,
            item_widths,
            area,
            FRAMED_CARD_HEIGHT as int,
            FRAMED_MIN_WIDTH as int,
            FRAMED_FRAME_WIDTH as int,
            splits,
        );
        lemma_flow_cards_height(
            LayoutMode::Compact,
            item_widths,
            area,
            COMPACT_CARD_HEIGHT as int,
            COMPACT_MIN_WIDTH as int,
            0,
            splits,
        );
        let first = scroll_first(item_widths.len() as int, scroll_offset);
        let has_hidden_items = first > 0 || clamp_usize(first + area.height) < item_widths.len();
        let indicator = if area.width > 1 && has_hidden_items {
            1int
        } else {
            0int
        };
        lemma_scroll_cards_height(
            item_widths.len() as int,
            splits,
            area.x,
            (area.width - indicator) as u16,
            clamp_u16(area.y + area.height),
            first,
            area.y as int,
        );
    }
}


/// The cards of a row show items `index_base` on, numbered within the row.
proof fn lemma_row_cards_index(
    row: Seq<(usize, usize)>,
    origin_x: int,
    available_width: int,
    y: int,
    row_no: int,
    index_base: int,
    card_height: int,
    hi: int,
)
    requires
        0 <= index_base,
        hi <= usize::MAX,
        forall|j: int| 0 <= j < row.len() ==> index_base + (#[trigger] row[j]).0 < hi,
    ensures
        forall|j: int|
            0 <= j < row_cards(row, origin_x, available_width, y, row_no, index_base, card_height).len() ==> (#[trigger] row_cards(
                row,
                origin_x,
                available_width,
                y,
                row_no,
                index_base,
                card_height,
            )[j]).index < hi,
{
    let cards = row_cards(row, origin_x, available_width, y, row_no, index_base, card_height);
    assert forall|j: int| 0 <= j < cards.len() implies (#[trigger] cards[j]).index < hi by {
        assert(index_base + row[j].0 < hi);
    }
}

/// The cards of a band's rows show items `index_base` up to `index_base + len`.
proof fn lemma_rows_cards_index(
    rows: Seq<Seq<(usize, usize)>>,
    origin_x: int,
    available_width: int,
    origin_y: int,
    row_base: int,
    index_base: int,
    card_height: int,
    len: int,
)
    requires
        0 <= index_base,
        index_base + len <= usize::MAX,
        forall|r: int, j: int| 0 <= r < rows.len() && 0 <= j < rows[r].len() ==> (#[trigger] rows[r][j]).0 < len,
    ensures
        forall|i: int|
            0 <= i < rows_cards(rows, origin_x, available_width, origin_y, row_base, index_base, card_height).len() ==> (
            #[trigger] rows_cards(rows, origin_x, available_width, origin_y, row_base, index_base, card_height)[i]).index
                < index_base + len,
    decreases rows.len(),
{
    if rows.len() > 0 {
        let r = rows.len() - 1;
        let front_rows = rows.drop_last();
        assert forall|a: int, j: int| 0 <= a < front_rows.len() && 0 <= j < front_rows[a].len() implies (
        #[trigger] front_rows[a][j]).0 < len by {
            assert(front_rows[a] == rows[a]);
            assert(rows[a][j].0 < len);
        }
        lemma_rows_cards_index(front_rows, origin_x, available_width, origin_y, row_base, index_base, card_height, len);
        assert forall|j: int| 0 <= j < rows[r].len() implies index_base + (#[trigger] rows[r][j]).0 < index_base + len by {
            assert(rows[r][j].0 < len);
        }
        lemma_row_cards_index(rows[r], origin_x, available_width, origin_y + r * card_height, row_base + r, index_base, card_height, index_base + len);
        let front = rows_cards(front_rows, origin_x, available_width, origin_y, row_base, index_base, card_height);
        let back = row_cards(rows[r], origin_x, available_width, origin_y + r * card_height, row_base + r, index_base, card_height);
        let all = rows_cards(rows, origin_x, available_width, origin_y, row_base, index_base, card_height);
        assert(all == front + back);
        assert forall|i: int| 0 <= i < all.len() implies (#[trigger] all[i]).index < index_base + len by {
            if i < front.len() {
                assert(all[i] == front[i]);
            } else {
                assert(all[i] == back[i - front.len()]);
            }
        }
    }
}

/// The cards of the first `k` bands show items before the `k`-th boundary.
proof fn lemma_bands_cards_index(
    bands: Seq<Seq<Seq<(usize, usize)>>>,
    bounds: Seq<usize>,
    k: int,
    origin_x: int,
    available_width: int,
    top: int,
    card_height: int,
)
    requires
        0 <= k < bounds.len(),
        k <= bands.len(),
        forall|a: int, b: int| 0 <= a <= b < bounds.len() ==> #[trigger] bounds[a] <= #[trigger] bounds[b],
        forall|kk: int, r: int, j: int|
            0 <= kk < k && 0 <= r < bands[kk].len() && 0 <= j < bands[kk][r].len() ==> (#[trigger] bands[kk][r][j]).0 < bounds[kk + 1]
                - bounds[kk],
    ensures
        forall|i: int|
            0 <= i < bands_cards(bands, bounds, k, origin_x, available_width, top, card_height).len() ==> (#[trigger] bands_cards(
                bands,
                bounds,
                k,
                origin_x,
                available_width,
                top,
                card_height,
            )[i]).index < bounds[k],
    decreases k,
{
    if k > 0 {
        lemma_bands_cards_index(bands, bounds, k - 1, origin_x, available_width, top, card_height);
        let oy = top + band_top(bands, k - 1, card_height);
        let band = bands[k - 1];
        assert forall|r: int, j: int| 0 <= r < band.len() && 0 <= j < band[r].len() implies (#[trigger] band[r][j]).0 < bounds[k]
            - bounds[k - 1] by {
            assert(bands[k - 1][r][j].0 < bounds[(k - 1) + 1] - bounds[k - 1]);
        }
        assert(bounds[k - 1] <= bounds[k]);
        lemma_rows_cards_index(band, origin_x, available_width, oy, rows_before(bands, k - 1), bounds[k - 1] as int, card_height, bounds[k] - bounds[k - 1]);
        let front = bands_cards(bands, bounds, k - 1, origin_x, available_width, top, card_height);
        let back = rows_cards(band, origin_x, available_width, oy, rows_before(bands, k - 1), bounds[k - 1] as int, card_height);
        let all = bands_cards(bands, bounds, k, origin_x, available_width, top, card_height);
        assert forall|i: int| 0 <= i < all.len() implies (#[trigger] all[i]).index < bounds[k] by {
            if i < front.len() {
                assert(all[i] == front[i]);
            } else {
                assert(all[i] == back[i - front.len()]);
            }
        }
    }
}

/// A flow layout numbers every card with an item of the board.
proof fn lemma_flow_cards_on_board(
    mode: LayoutMode,
    item_widths: Seq<usize>,
    area: Rect,
    card_height: int,
    minimum_width: int,
    frame_width: int,
    splits: Seq<usize>,
)
    requires
        item_widths.len() <= usize::MAX,
        0 <= minimum_width,
        0 <= frame_width,
        strictly_increasing(splits),
        forall|i: int| 0 <= i < splits.len() ==> 0 < #[trigger] splits[i] < item_widths.len(),
    ensures
        flow_plan_spec(mode, item_widths, area, card_height, minimum_width, frame_width, splits) matches Some(plan) ==> {
            &&& plan.mode == mode
            &&& plan.tab_count == item_widths.len()
            &&& forall|i: int| 0 <= i < plan.cards.len() ==> (#[trigger] plan.cards[i]).index < plan.tab_count
        },
{
    let available_width = area.width as int;
    let n = item_widths.len() as int;
    if flow_fits(item_widths, available_width, minimum_width, frame_width) {
        let widths = padded_widths(item_widths, frame_width, minimum_width);
        let bounds = boundaries(splits, n);
        let bands = flow_bands(widths, bounds, available_width);
        let last = bounds.len() - 1;
        assert(bounds.len() == splits.len() + 2);
        assert(bounds[0] == 0);
        assert(bounds[last] == n);
        assert forall|a: int, b: int| 0 <= a <= b < bounds.len() implies #[trigger] bounds[a] <= #[trigger] bounds[b] by {
            if a == b {
            } else if a == 0 {
                if b < last {
                    assert(bounds[b] == splits[b - 1]);
                }
            } else if b == last {
                assert(bounds[a] == splits[a - 1]);
            } else {
                assert(bounds[a] == splits[a - 1]);
                assert(bounds[b] == splits[b - 1]);
            }
        }
        assert forall|i: int| 0 <= i < widths.len() implies #[trigger] widths[i] <= available_width by {
            assert(clamp_usize(item_widths[i] + frame_width) <= available_width);
        }
        assert forall|kk: int, r: int, j: int|
            0 <= kk < bands.len() && 0 <= r < bands[kk].len() && 0 <= j < bands[kk][r].len() implies (#[trigger] bands[kk][r][j]).0
                < bounds[kk + 1] - bounds[kk] by {
            assert(bounds[kk] <= bounds[kk + 1]);
            assert(bounds[kk + 1] <= bounds[last]);
            let sub = widths.subrange(bounds[kk] as int, bounds[kk + 1] as int);
            assert forall|i: int| 0 <= i < sub.len() implies sub[i] <= available_width by {
                assert(sub[i] == widths[bounds[kk] + i]);
            }
            lemma_wrap_rows_shape(sub, available_width);
            assert(bands[kk] == wrap_rows_spec(sub, available_width));
            let row = wrap_rows_spec(sub, available_width)[r];
            assert(row[j].0 < sub.len());
        }
        let grid_height = band_top(bands, bands.len() as int, card_height) - 1;
        if grid_height <= area.height {
            let top = area.y + (area.height - grid_height) / 2;
            lemma_bands_cards_index(bands, bounds, bands.len() as int, area.x as int, available_width, top, card_height);
        }
    }
}

/// Outside the scrolling column, every card of a layout shows an item of
/// the board.
pub proof fn lemma_plan_cards_on_board(item_widths: Seq<usize>, area: Rect, scroll_offset: int, band_ends: Seq<usize>)
    requires
        item_widths.len() <= usize::MAX,
        exists|splits: Seq<usize>| normalized_splits_of(splits, band_ends, item_widths.len() as int),
    ensures
        ({
            let plan = calculate_spec(item_widths, area, scroll_offset, band_ends);
            plan.mode != LayoutMode::Scroll ==> forall|i: int|
                0 <= i < plan.cards.len() ==> (#[trigger] plan.cards[i]).index < plan.tab_count
        }),
{
    reveal(calculate_spec);
    if !(item_widths.len() == 0 || area.width == 0 || area.height == 0) {
        let n = item_widths.len() as int;
        let splits = normalized_splits(band_ends, n);
        assert(normalized_splits_of(splits, band_ends, n));
        assert forall|i: int| 0 <= i < splits.len() implies 0 < #[trigger] splits[i] < n by {
            assert(splits.contains(splits[i]));
        }
        lemma_flow_cards_on_board(
            LayoutMode::Framed,
            item_widths,
            area,
            FRAMED_CARD_HEIGHT as int,
            FRAMED_MIN_WIDTH as int,
            FRAMED_FRAME_WIDTH as int,
            splits,
        );
        lemma_flow_cards_on_board(LayoutMode::Compact, item_widths, area, COMPACT_CARD_HEIGHT as int, COMPACT_MIN_WIDTH as int, 0, splits);
    }
}

/// The card a search finds shows the item searched for.
proof fn lemma_card_with_index_found(cards: Seq<CardPlacement>, index: int, from: int)
    requires
        0 <= from,
    ensures
        card_with_index(cards, index, from) matches Some(p) ==> from <= p < cards.len() && cards[p].index == index,
    decreases cards.len() - from,
{
    if from < cards.len() && cards[from].index != index {
        lemma_card_with_index_found(cards, index, from + 1);
    }
}

/// The nearest card found is a card of the layout.
proof fn lemma_nearest_in_row_found(cards: Seq<CardPlacement>, row: int, center: int, from: int, best: Option<int>)
    requires
        0 <= from,
        best matches Some(b) ==> 0 <= b < cards.len(),
    ensures
        nearest_in_row(cards, row, center, from, best) matches Some(b) ==> 0 <= b < cards.len(),
    decreases cards.len() - from,
{
    if from < cards.len() {
        let card = cards[from];
        let better = card.row == row && match best {
            None => true,
            Some(b) => abs_diff(center_x(card.area), center) < abs_diff(center_x(cards[b].area), center),
        };
        lemma_nearest_in_row_found(cards, row, center, from + 1, if better { Some(from) } else { best });
    }
}

/// A step up or down from a card lands on a card: never off either end.
pub proof fn law_vertical_steps_stay_on_the_board(plan: PlanModel, index: int, direction: int)
    requires
        0 <= index < plan.tab_count,
        plan.mode != LayoutMode::Scroll ==> forall|i: int| 0 <= i < plan.cards.len() ==> (#[trigger] plan.cards[i]).index < plan.tab_count,
    ensures
        0 <= plan.vertical_neighbor(index, direction) < plan.tab_count,
{
    if !(plan.mode == LayoutMode::Scroll || plan.total_rows == 1) {
        lemma_card_with_index_found(plan.cards, index, 0);
        match card_with_index(plan.cards, index, 0) {
            None => {},
            Some(p) => {
                let target = plan.cards[p].row + direction;
                lemma_nearest_in_row_found(plan.cards, target, center_x(plan.cards[p].area), 0, None);
            },
        }
    }
}


/// The first row of a wrapped band starts with the band's first card.
proof fn lemma_wrap_rows_first(widths: Seq<usize>, available_width: int)
    requires
        widths.len() > 0,
    ensures
        wrap_rows_spec(widths, available_width).len() > 0,
        wrap_rows_spec(widths, available_width)[0].len() > 0,
        wrap_rows_spec(widths, available_width)[0][0].0 == 0,
    decreases widths.len(),
{
    let previous = wrap_rows_spec(widths.drop_last(), available_width);
    if widths.len() > 1 {
        lemma_wrap_rows_first(widths.drop_last(), available_width);
    } else {
        assert(widths.drop_last().len() == 0);
    }
}

/// The first card of a band's rows is the first card of its first row.
proof fn lemma_rows_cards_first(
    rows: Seq<Seq<(usize, usize)>>,
    origin_x: int,
    available_width: int,
    origin_y: int,
    row_base: int,
    index_base: int,
    card_height: int,
)
    requires
        rows.len() > 0,
        rows[0].len() > 0,
    ensures
        rows_cards(rows, origin_x, available_width, origin_y, row_base, index_base, card_height).len() > 0,
        rows_cards(rows, origin_x, available_width, origin_y, row_base, index_base, card_height)[0] == row_cards(
            rows[0],
            origin_x,
            available_width,
            origin_y,
            row_base,
            index_base,
            card_height,
        )[0],
    decreases rows.len(),
{
    let r = rows.len() - 1;
    let front = rows_cards(rows.drop_last(), origin_x, available_width, origin_y, row_base, index_base, card_height);
    let back = row_cards(rows[r], origin_x, available_width, origin_y + r * card_height, row_base + r, index_base, card_height);
    let all = rows_cards(rows, origin_x, available_width, origin_y, row_base, index_base, card_height);
    assert(all == front + back);
    if rows.len() > 1 {
        lemma_rows_cards_first(rows.drop_last(), origin_x, available_width, origin_y, row_base, index_base, card_height);
        assert(rows.drop_last()[0] == rows[0]);
        assert(all[0] == front[0]);
    } else {
        assert(front.len() == 0);
        assert(r * card_height == 0) by (nonlinear_arith)
            requires
                r == 0,
        ;
        assert(all[0] == back[0]);
    }
}

/// The first card of the bands is the first card of the first band.
proof fn lemma_bands_cards_first(
    bands: Seq<Seq<Seq<(usize, usize)>>>,
    bounds: Seq<usize>,
    k: int,
    origin_x: int,
    available_width: int,
    top: int,
    card_height: int,
)
    requires
        1 <= k <= bands.len(),
        bands[0].len() > 0,
        bands[0][0].len() > 0,
    ensures
        bands_cards(bands, bounds, k, origin_x, available_width, top, card_height).len() > 0,
        bands_cards(bands, bounds, k, origin_x, available_width, top, card_height)[0] == rows_cards(
            bands[0],
            origin_x,
            available_width,
            top,
            0,
            bounds[0] as int,
            card_height,
        )[0],
    decreases k,
{
    lemma_rows_cards_first(bands[0], origin_x, available_width, top, 0, bounds[0] as int, card_height);
    let front = bands_cards(bands, bounds, k - 1, origin_x, available_width, top, card_height);
    let back = rows_cards(
        bands[k - 1],
        origin_x,
        available_width,
        top + band_top(bands, k - 1, card_height),
        rows_before(bands, k - 1),
        bounds[k - 1] as int,
        card_height,
    );
    let all = bands_cards(bands, bounds, k, origin_x, available_width, top, card_height);
    assert(all == front + back);
    if k > 1 {
        lemma_bands_cards_first(bands, bounds, k - 1, origin_x, available_width, top, card_height);
        assert(all[0] == front[0]);
    } else {
        assert(band_top(bands, 0, card_height) == 0);
        assert(rows_before(bands, 0) == 0);
        assert(front.len() == 0);
        assert(all[0] == back[0]);
    }
}

/// In a flow layout the first card shows the board's first item, in the top row.
proof fn lemma_flow_first_card(
    mode: LayoutMode,
    item_widths: Seq<usize>,
    area: Rect,
    card_height: int,
    minimum_width: int,
    frame_width: int,
    splits: Seq<usize>,
)
    requires
        0 < item_widths.len() <= usize::MAX,
        forall|i: int| 0 <= i < splits.len() ==> 0 < #[trigger] splits[i] < item_widths.len(),
    ensures
        flow_plan_spec(mode, item_widths, area, card_height, minimum_width, frame_width, splits) matches Some(plan) ==> {
            &&& plan.cards.len() > 0
            &&& plan.cards[0].index == 0
            &&& plan.cards[0].row == 0
        },
{
    let available_width = area.width as int;
    let n = item_widths.len() as int;
    if flow_fits(item_widths, available_width, minimum_width, frame_width) {
        let widths = padded_widths(item_widths, frame_width, minimum_width);
        let bounds = boundaries(splits, n);
        let bands = flow_bands(widths, bounds, available_width);
        assert(bounds[0] == 0);
        assert(bounds[1] > 0) by {
            if splits.len() > 0 {
                assert(bounds[1] == splits[0]);
            } else {
                assert(bounds[1] == n);
            }
        }
        let sub = widths.subrange(bounds[0] as int, bounds[1] as int);
        assert(bounds[1] <= n) by {
            if splits.len() > 0 {
                assert(bounds[1] == splits[0]);
            } else {
                assert(bounds[1] == n);
            }
        }
        lemma_wrap_rows_first(sub, available_width);
        assert(bands[0] == wrap_rows_spec(sub, available_width));
        let grid_height = band_top(bands, bands.len() as int, card_height) - 1;
        if grid_height <= area.height {
            let top = area.y + (area.height - grid_height) / 2;
            lemma_bands_cards_first(bands, bounds, bands.len() as int, area.x as int, available_width, top, card_height);
            lemma_rows_cards_first(bands[0], area.x as int, available_width, top, 0, bounds[0] as int, card_height);
            let row = bands[0][0];
            assert(row[0].0 == 0);
            let first = row_cards(row, area.x as int, available_width, top, 0, bounds[0] as int, card_height);
            assert(first[0].index == 0);
            assert(first[0].row == 0);
        }
    }
}

/// `k` on the board's first card stays there: the step up never wraps.
pub proof fn lemma_step_up_from_first(item_widths: Seq<usize>, area: Rect, scroll_offset: int, band_ends: Seq<usize>)
    requires
        item_widths.len() <= usize::MAX,
        exists|splits: Seq<usize>| normalized_splits_of(splits, band_ends, item_widths.len() as int),
    ensures
        calculate_spec(item_widths, area, scroll_offset, band_ends).vertical_neighbor(0, -1) == 0,
{
    reveal(calculate_spec);
    if !(item_widths.len() == 0 || area.width == 0 || area.height == 0) {
        let n = item_widths.len() as int;
        let splits = normalized_splits(band_ends, n);
        assert(normalized_splits_of(splits, band_ends, n));
        assert forall|i: int| 0 <= i < splits.len() implies 0 < #[trigger] splits[i] < n by {
            assert(splits.contains(splits[i]));
        }
        lemma_flow_first_card(
            LayoutMode::Framed,
            item_widths,
            area,
            FRAMED_CARD_HEIGHT as int,
            FRAMED_MIN_WIDTH as int,
            FRAMED_FRAME_WIDTH as int,
            splits,
        );
        lemma_flow_first_card(LayoutMode::Compact, item_widths, area, COMPACT_CARD_HEIGHT as int, COMPACT_MIN_WIDTH as int, 0, splits);
    }
}


/// Only the last row of a wrapped band holds the band's last card.
proof fn lemma_wrap_rows_last_only(widths: Seq<usize>, available_width: int)
    requires
        forall|i: int| 0 <= i < widths.len() ==> widths[i] <= available_width,
    ensures
        forall|r: int, j: int|
            0 <= r < wrap_rows_spec(widths, available_width).len() - 1 && 0 <= j < wrap_rows_spec(widths, available_width)[r].len()
                ==> (#[trigger] wrap_rows_spec(widths, available_width)[r][j]).0 < widths.len() - 1,
    decreases widths.len(),
{
    if widths.len() > 0 {
        let prefix = widths.drop_last();
        lemma_wrap_rows_last_only(prefix, available_width);
        lemma_wrap_rows_shape(prefix, available_width);
        let previous = wrap_rows_spec(prefix, available_width);
        let rows = wrap_rows_spec(widths, available_width);
        let card = ((widths.len() - 1) as usize, widths.last());
        assert forall|r: int, j: int| 0 <= r < rows.len() - 1 && 0 <= j < rows[r].len() implies (#[trigger] rows[r][j]).0
            < widths.len() - 1 by {
            if previous.len() == 0 {
            } else if row_width(previous.last()) > 0 && row_width(previous.last()) + card.1 > available_width {
                assert(rows[r] == previous[r]);
                let row = previous[r];
                assert(row[j].0 < prefix.len());
            } else {
                assert(rows[r] == previous[r]);
                assert(previous[r][j].0 < prefix.len() - 1);
            }
        }
    }
}

/// A band has no more rows than cards.
proof fn lemma_rows_before_bounded(bands: Seq<Seq<Seq<(usize, usize)>>>, bounds: Seq<usize>, k: int)
    requires
        0 <= k < bounds.len(),
        k <= bands.len(),
        bounds[0] == 0,
        forall|kk: int| 0 <= kk < k ==> (#[trigger] bands[kk]).len() <= bounds[kk + 1] - bounds[kk],
    ensures
        0 <= rows_before(bands, k) <= bounds[k],
    decreases k,
{
    if k > 0 {
        lemma_rows_before_bounded(bands, bounds, k - 1);
        assert(bands[k - 1].len() <= bounds[k] - bounds[k - 1]);
    }
}

/// In a band's rows, the card of the band's last item is in the last row.
proof fn lemma_rows_cards_last(
    rows: Seq<Seq<(usize, usize)>>,
    origin_x: int,
    available_width: int,
    origin_y: int,
    row_base: int,
    index_base: int,
    card_height: int,
    len: int,
)
    requires
        0 <= index_base,
        index_base + len <= usize::MAX,
        0 <= row_base,
        row_base + rows.len() <= usize::MAX,
        forall|r: int, j: int| 0 <= r < rows.len() && 0 <= j < rows[r].len() ==> (#[trigger] rows[r][j]).0 < len,
        forall|r: int, j: int| 0 <= r < rows.len() - 1 && 0 <= j < rows[r].len() ==> (#[trigger] rows[r][j]).0 < len - 1,
    ensures
        forall|i: int|
            0 <= i < rows_cards(rows, origin_x, available_width, origin_y, row_base, index_base, card_height).len() && (
            #[trigger] rows_cards(rows, origin_x, available_width, origin_y, row_base, index_base, card_height)[i]).index
                == index_base + len - 1 ==> rows_cards(rows, origin_x, available_width, origin_y, row_base, index_base, card_height)[i].row
                == row_base + rows.len() - 1,
    decreases rows.len(),
{
    if rows.len() > 0 {
        let r = rows.len() - 1;
        let front_rows = rows.drop_last();
        lemma_rows_cards_index(front_rows, origin_x, available_width, origin_y, row_base, index_base, card_height, len - 1);
        let front = rows_cards(front_rows, origin_x, available_width, origin_y, row_base, index_base, card_height);
        let back = row_cards(rows[r], origin_x, available_width, origin_y + r * card_height, row_base + r, index_base, card_height);
        let all = rows_cards(rows, origin_x, available_width, origin_y, row_base, index_base, card_height);
        assert(all == front + back);
        assert forall|i: int| 0 <= i < all.len() && (#[trigger] all[i]).index == index_base + len - 1 implies all[i].row == row_base
            + rows.len() - 1 by {
            if i < front.len() {
                assert(all[i] == front[i]);
                assert(front[i].index < index_base + len - 1);
            } else {
                assert(all[i] == back[i - front.len()]);
            }
        }
    }
}

/// In the first `k` bands, the card of the `k`-th boundary's previous item
/// is in the last row, when band `k - 1` holds a card.
proof fn lemma_bands_cards_last(
    bands: Seq<Seq<Seq<(usize, usize)>>>,
    bounds: Seq<usize>,
    k: int,
    origin_x: int,
    available_width: int,
    top: int,
    card_height: int,
)
    requires
        0 < k < bounds.len(),
        k <= bands.len(),
        bounds[0] == 0,
        bounds[k - 1] < bounds[k],
        forall|a: int, b: int| 0 <= a <= b < bounds.len() ==> #[trigger] bounds[a] <= #[trigger] bounds[b],
        forall|kk: int| 0 <= kk < k ==> (#[trigger] bands[kk]).len() <= bounds[kk + 1] - bounds[kk],
        forall|kk: int, r: int, j: int|
            0 <= kk < k && 0 <= r < bands[kk].len() && 0 <= j < bands[kk][r].len() ==> (#[trigger] bands[kk][r][j]).0 < bounds[kk + 1]
                - bounds[kk],
        forall|r: int, j: int|
            0 <= r < bands[k - 1].len() - 1 && 0 <= j < bands[k - 1][r].len() ==> (#[trigger] bands[k - 1][r][j]).0 < bounds[k]
                - bounds[k - 1] - 1,
    ensures
        forall|i: int|
            0 <= i < bands_cards(bands, bounds, k, origin_x, available_width, top, card_height).len() && (#[trigger] bands_cards(
                bands,
                bounds,
                k,
                origin_x,
                available_width,
                top,
                card_height,
            )[i]).index == bounds[k] - 1 ==> bands_cards(bands, bounds, k, origin_x, available_width, top, card_height)[i].row
                == rows_before(bands, k) - 1,
{
    lemma_bands_cards_index(bands, bounds, k - 1, origin_x, available_width, top, card_height);
    lemma_rows_before_bounded(bands, bounds, k);
    lemma_rows_before_bounded(bands, bounds, k - 1);
    let oy = top + band_top(bands, k - 1, card_height);
    let band = bands[k - 1];
    assert forall|r: int, j: int| 0 <= r < band.len() && 0 <= j < band[r].len() implies (#[trigger] band[r][j]).0 < bounds[k]
        - bounds[k - 1] by {
        assert(bands[k - 1][r][j].0 < bounds[(k - 1) + 1] - bounds[k - 1]);
    }
    assert forall|r: int, j: int| 0 <= r < band.len() - 1 && 0 <= j < band[r].len() implies (#[trigger] band[r][j]).0 < bounds[k]
        - bounds[k - 1] - 1 by {
        assert(bands[k - 1][r][j].0 < bounds[k] - bounds[k - 1] - 1);
    }
    assert(rows_before(bands, k) == rows_before(bands, k - 1) + band.len());
    lemma_rows_cards_last(band, origin_x, available_width, oy, rows_before(bands, k - 1), bounds[k - 1] as int, card_height, bounds[k] - bounds[k - 1]);
    let front = bands_cards(bands, bounds, k - 1, origin_x, available_width, top, card_height);
    let back = rows_cards(band, origin_x, available_width, oy, rows_before(bands, k - 1), bounds[k - 1] as int, card_height);
    let all = bands_cards(bands, bounds, k, origin_x, available_width, top, card_height);
    assert forall|i: int| 0 <= i < all.len() && (#[trigger] all[i]).index == bounds[k] - 1 implies all[i].row == rows_before(bands, k) - 1 by {
        if i < front.len() {
            assert(all[i] == front[i]);
            assert(front[i].index < bounds[k - 1]);
        } else {
            assert(all[i] == back[i - front.len()]);
        }
    }
}

/// In a flow layout the card of the board's last item is in the bottom row.
proof fn lemma_flow_last_card(
    mode: LayoutMode,
    item_widths: Seq<usize>,
    area: Rect,
    card_height: int,
    minimum_width: int,
    frame_width: int,
    splits: Seq<usize>,
)
    requires
        0 < item_widths.len() <= usize::MAX,
        0 <= minimum_width,
        0 <= frame_width,
        strictly_increasing(splits),
        forall|i: int| 0 <= i < splits.len() ==> 0 < #[trigger] splits[i] < item_widths.len(),
    ensures
        flow_plan_spec(mode, item_widths, area, card_height, minimum_width, frame_width, splits) matches Some(plan) ==> forall|i: int|
            0 <= i < plan.cards.len() && (#[trigger] plan.cards[i]).index == item_widths.len() - 1 ==> plan.cards[i].row + 1
                == plan.total_rows,
{
    let available_width = area.width as int;
    let n = item_widths.len() as int;
    if flow_fits(item_widths, available_width, minimum_width, frame_width) {
        let widths = padded_widths(item_widths, frame_width, minimum_width);
        let bounds = boundaries(splits, n);
        let bands = flow_bands(widths, bounds, available_width);
        let last = bounds.len() - 1;
        let kk_last = bands.len() as int;
        assert(bounds.len() == splits.len() + 2);
        assert(bounds[0] == 0);
        assert(bounds[last] == n);
        assert(bounds[last - 1] < n) by {
            if splits.len() > 0 {
                assert(bounds[last - 1] == splits[splits.len() - 1]);
            }
        }
        assert forall|a: int, b: int| 0 <= a <= b < bounds.len() implies #[trigger] bounds[a] <= #[trigger] bounds[b] by {
            if a == b {
            } else if a == 0 {
                if b < last {
                    assert(bounds[b] == splits[b - 1]);
                }
            } else if b == last {
                assert(bounds[a] == splits[a - 1]);
            } else {
                assert(bounds[a] == splits[a - 1]);
                assert(bounds[b] == splits[b - 1]);
            }
        }
        assert forall|i: int| 0 <= i < widths.len() implies #[trigger] widths[i] <= available_width by {
            assert(clamp_usize(item_widths[i] + frame_width) <= available_width);
        }
        assert forall|kk: int|
            0 <= kk < bands.len() implies {
            &&& (#[trigger] bands[kk]).len() <= bounds[kk + 1] - bounds[kk]
            &&& forall|r: int, j: int| 0 <= r < bands[kk].len() && 0 <= j < bands[kk][r].len() ==> (#[trigger] bands[kk][r][j]).0
                < bounds[kk + 1] - bounds[kk]
            &&& forall|r: int, j: int| 0 <= r < bands[kk].len() - 1 && 0 <= j < bands[kk][r].len() ==> (#[trigger] bands[kk][r][j]).0
                < bounds[kk + 1] - bounds[kk] - 1
        } by {
            assert(bounds[kk] <= bounds[kk + 1]);
            assert(bounds[kk + 1] <= bounds[last]);
            let sub = widths.subrange(bounds[kk] as int, bounds[kk + 1] as int);
            assert forall|i: int| 0 <= i < sub.len() implies sub[i] <= available_width by {
                assert(sub[i] == widths[bounds[kk] + i]);
            }
            lemma_wrap_rows_shape(sub, available_width);
            lemma_wrap_rows_last_only(sub, available_width);
            assert(bands[kk] == wrap_rows_spec(sub, available_width));
            assert forall|r: int, j: int| 0 <= r < bands[kk].len() && 0 <= j < bands[kk][r].len() implies (
            #[trigger] bands[kk][r][j]).0 < bounds[kk + 1] - bounds[kk] by {
                let row = wrap_rows_spec(sub, available_width)[r];
                assert(row[j].0 < sub.len());
            }
        }
        let grid_height = band_top(bands, kk_last, card_height) - 1;
        if grid_height <= area.height {
            let top = area.y + (area.height - grid_height) / 2;
            lemma_bands_cards_last(bands, bounds, kk_last, area.x as int, available_width, top, card_height);
            lemma_rows_before_bounded(bands, bounds, kk_last);
        }
    }
}

/// `j` on the board's last card stays there: the step down never wraps,
/// once the board has room to lay out its cards.
pub proof fn lemma_step_down_from_last(item_widths: Seq<usize>, area: Rect, scroll_offset: int, band_ends: Seq<usize>)
    requires
        0 < item_widths.len() <= usize::MAX,
        area.width > 0,
        area.height > 0,
        exists|splits: Seq<usize>| normalized_splits_of(splits, band_ends, item_widths.len() as int),
    ensures
        calculate_spec(item_widths, area, scroll_offset, band_ends).vertical_neighbor(item_widths.len() - 1, 1) == item_widths.len()
            - 1,
{
    reveal(calculate_spec);
    let n = item_widths.len() as int;
    let splits = normalized_splits(band_ends, n);
    assert(normalized_splits_of(splits, band_ends, n));
    assert forall|i: int| 0 <= i < splits.len() implies 0 < #[trigger] splits[i] < n by {
        assert(splits.contains(splits[i]));
    }
    lemma_flow_last_card(
        LayoutMode::Framed,
        item_widths,
        area,
        FRAMED_CARD_HEIGHT as int,
        FRAMED_MIN_WIDTH as int,
        FRAMED_FRAME_WIDTH as int,
        splits,
    );
    lemma_flow_last_card(LayoutMode::Compact, item_widths, area, COMPACT_CARD_HEIGHT as int, COMPACT_MIN_WIDTH as int, 0, splits);
    lemma_flow_cards_on_board(
        LayoutMode::Framed,
        item_widths,
        area,
        FRAMED_CARD_HEIGHT as int,
        FRAMED_MIN_WIDTH as int,
        FRAMED_FRAME_WIDTH as int,
        splits,
    );
    lemma_flow_cards_on_board(LayoutMode::Compact, item_widths, area, COMPACT_CARD_HEIGHT as int, COMPACT_MIN_WIDTH as int, 0, splits);
    let plan = calculate_spec(item_widths, area, scroll_offset, band_ends);
    lemma_card_with_index_found(plan.cards, n - 1, 0);
}


/// The scrolling column never shows more cards than it has lines.
proof fn lemma_scroll_steps_fit(tab_count: int, splits: Seq<usize>, x: u16, content_width: u16, end_y: int, index: int, y: int)
    requires
        0 <= y <= end_y <= u16::MAX,
    ensures
        scroll_steps(tab_count, splits, x, content_width, end_y, index, y).0.len() <= end_y - y,
    decreases tab_count - index,
{
    if index < tab_count && y < end_y {
        let next_y = clamp_u16(y + 1);
        assert(next_y == y + 1);
        let separated = splits.contains((index + 1) as usize) && next_y < end_y;
        let after = if separated {
            clamp_u16(next_y + 1)
        } else {
            next_y
        };
        lemma_scroll_steps_fit(tab_count, splits, x, content_width, end_y, index + 1, after);
    }
}

/// The scrolling column shows card `t` when the cards from its first to
/// `t` fit its lines with no band end between them.
proof fn lemma_scroll_steps_reach(
    tab_count: int,
    splits: Seq<usize>,
    x: u16,
    content_width: u16,
    end_y: int,
    index: int,
    y: int,
    t: int,
)
    requires
        0 <= y <= end_y <= u16::MAX,
        0 <= index <= t < tab_count <= usize::MAX,
        t - index < end_y - y,
        forall|v: usize| #[trigger] splits.contains(v) ==> !(index < v <= t),
    ensures
        scroll_steps(tab_count, splits, x, content_width, end_y, index, y).0.len() > t - index,
    decreases t - index,
{
    if index < t {
        assert(!splits.contains((index + 1) as usize));
        assert(clamp_u16(y + 1) == y + 1);
        lemma_scroll_steps_reach(tab_count, splits, x, content_width, end_y, index + 1, y + 1, t);
    }
}

/// Whether no band end falls after card `first` and at or before card `t`,
/// so that no separator line runs between them.
pub open spec fn no_band_end_between(band_ends: Seq<usize>, first: int, t: int) -> bool {
    forall|v: usize| #[trigger] band_ends.contains(v) ==> !(first < v <= t)
}

/// Which cards a layout shows: the card grid shows them all, whatever the
/// scroll offset; the scrolling column shows, from its first card, no more
/// cards than it has lines, and every card up to which the cards fit its
/// lines with no band end between them.
pub proof fn lemma_plan_view(item_widths: Seq<usize>, area: Rect, scroll_offset: int, other_offset: int, band_ends: Seq<usize>)
    requires
        0 < item_widths.len() <= usize::MAX,
        area.width > 0,
        area.height > 0,
        area.y + area.height <= u16::MAX,
        0 <= scroll_offset,
        exists|splits: Seq<usize>| normalized_splits_of(splits, band_ends, item_widths.len() as int),
    ensures
        ({
            let plan = calculate_spec(item_widths, area, scroll_offset, band_ends);
            let n = item_widths.len() as int;
            let first = scroll_first(n, scroll_offset);
            &&& (plan.mode == LayoutMode::Scroll) == (calculate_spec(item_widths, area, other_offset, band_ends).mode == LayoutMode::Scroll)
            &&& plan.tab_count == n
            &&& plan.mode != LayoutMode::Scroll ==> plan.first_visible == 0 && plan.visible_count == n
            &&& plan.mode == LayoutMode::Scroll ==> {
                &&& plan.first_visible == first
                &&& plan.visible_count <= area.height
                &&& forall|t: int|
                    first <= t < n && t - first < area.height && #[trigger] no_band_end_between(band_ends, first, t) ==> t < first
                        + plan.visible_count
            }
        }),
{
    reveal(calculate_spec);
    let n = item_widths.len() as int;
    let splits = normalized_splits(band_ends, n);
    assert(normalized_splits_of(splits, band_ends, n));
    let first = scroll_first(n, scroll_offset);
    assert(clamp_u16(area.y + area.height) == area.y + area.height);
    let has_hidden_items = first > 0 || clamp_usize(first + area.height) < n;
    let indicator = if area.width > 1 && has_hidden_items {
        1int
    } else {
        0int
    };
    let width = (area.width - indicator) as u16;
    let end_y = area.y + area.height;
    lemma_scroll_steps_fit(n, splits, area.x, width, end_y, first, area.y as int);
    assert forall|t: int|
        first <= t < n && t - first < area.height && #[trigger] no_band_end_between(band_ends, first, t) implies t
        < first + scroll_steps(n, splits, area.x, width, end_y, first, area.y as int).0.len() by {
        assert forall|v: usize| #[trigger] splits.contains(v) implies !(first < v <= t) by {
            assert(band_ends.contains(v));
        }
        lemma_scroll_steps_reach(n, splits, area.x, width, end_y, first, area.y as int, t);
    }
}


/// Twice the horizontal middle of an area: its left edge plus its right edge.
pub open spec fn middle_twice(area: Rect) -> int {
    area.x + (area.x + area.width)
}

/// How far apart two positions are.
pub open spec fn gap(a: int, b: int) -> int {
    if a <= b {
        b - a
    } else {
        a - b
    }
}

/// The search for a card finds the first card that shows the item.
proof fn lemma_card_with_index_first(cards: Seq<CardPlacement>, index: int, from: int, p: int)
    requires
        0 <= from <= p < cards.len(),
        cards[p].index == index,
        forall|j: int| from <= j < p ==> cards[j].index != index,
    ensures
        card_with_index(cards, index, from) == Some(p),
    decreases p - from,
{
    if from < p {
        lemma_card_with_index_first(cards, index, from + 1, p);
    }
}

/// The nearest card found is in the row and no card of the row is nearer.
proof fn lemma_nearest_in_row_best(cards: Seq<CardPlacement>, row: int, center: int, from: int, best: Option<int>)
    requires
        0 <= from <= cards.len(),
        best matches Some(b) ==> 0 <= b < from && cards[b].row == row && (forall|q: int|
            0 <= q < from && cards[q].row == row ==> abs_diff(center_x(cards[b].area), center) <= abs_diff(
                center_x(#[trigger] cards[q].area),
                center,
            )) && (forall|q: int|
            0 <= q < b && cards[q].row == row ==> abs_diff(center_x(cards[b].area), center) < abs_diff(
                center_x(#[trigger] cards[q].area),
                center,
            )),
        best is None ==> forall|q: int| 0 <= q < from ==> (#[trigger] cards[q]).row != row,
    ensures
        match nearest_in_row(cards, row, center, from, best) {
            Some(b) => 0 <= b < cards.len() && cards[b].row == row && (forall|q: int|
                0 <= q < cards.len() && cards[q].row == row ==> abs_diff(center_x(cards[b].area), center) <= abs_diff(
                    center_x(#[trigger] cards[q].area),
                    center,
                )) && (forall|q: int|
                0 <= q < b && cards[q].row == row ==> abs_diff(center_x(cards[b].area), center) < abs_diff(
                    center_x(#[trigger] cards[q].area),
                    center,
                )),
            None => forall|q: int| 0 <= q < cards.len() ==> (#[trigger] cards[q]).row != row,
        },
    decreases cards.len() - from,
{
    if from < cards.len() {
        let card = cards[from];
        let better = card.row == row && match best {
            None => true,
            Some(b) => abs_diff(center_x(card.area), center) < abs_diff(center_x(cards[b].area), center),
        };
        let next = if better {
            Some(from)
        } else {
            best
        };
        lemma_nearest_in_row_best(cards, row, center, from + 1, next);
    }
}

/// `j` and `k` in the card grid go to the card of the row below or above
/// whose horizontal middle is nearest the middle of the card they start
/// from (the leftmost of equally near ones), and stay put when there is no
/// such row.
pub proof fn law_vertical_step_goes_to_the_nearest_middle(plan: PlanModel, index: int, direction: int, p: int)
    requires
        plan.tab_count > 0,
        plan.mode != LayoutMode::Scroll,
        plan.total_rows != 1,
        0 <= p < plan.cards.len(),
        plan.cards[p].index == index,
        forall|j: int| 0 <= j < p ==> plan.cards[j].index != index,
    ensures
        ({
            let cards = plan.cards;
            let target = cards[p].row + direction;
            let r = plan.vertical_neighbor(index, direction);
            &&& target < 0 || target >= plan.total_rows ==> r == index
            &&& 0 <= target < plan.total_rows && (forall|q: int| 0 <= q < cards.len() ==> (#[trigger] cards[q]).row != target)
                ==> r == index
            &&& 0 <= target < plan.total_rows && (exists|q: int| 0 <= q < cards.len() && (#[trigger] cards[q]).row == target)
                ==> exists|b: int|
                0 <= b < cards.len() && cards[b].row == target && r == cards[b].index && (forall|q: int|
                    0 <= q < cards.len() && cards[q].row == target ==> gap(middle_twice(cards[b].area), middle_twice(cards[p].area))
                        <= gap(middle_twice((#[trigger] cards[q]).area), middle_twice(cards[p].area))) && (forall|q: int|
                    0 <= q < b && cards[q].row == target ==> gap(middle_twice(cards[b].area), middle_twice(cards[p].area))
                        < gap(middle_twice((#[trigger] cards[q]).area), middle_twice(cards[p].area)))
        }),
{
    let cards = plan.cards;
    lemma_card_with_index_first(cards, index, 0, p);
    let target = cards[p].row + direction;
    let center = center_x(cards[p].area);
    assert(center == middle_twice(cards[p].area));
    if 0 <= target < plan.total_rows {
        lemma_nearest_in_row_best(cards, target, center, 0, None);
        match nearest_in_row(cards, target, center, 0, None) {
            Some(b) => {
                assert forall|q: int| 0 <= q < cards.len() && cards[q].row == target implies gap(
                    middle_twice(cards[b].area),
                    middle_twice(cards[p].area),
                ) <= gap(middle_twice((#[trigger] cards[q]).area), middle_twice(cards[p].area)) by {
                    assert(center_x(cards[q].area) == middle_twice(cards[q].area));
                    assert(center_x(cards[b].area) == middle_twice(cards[b].area));
                }
                assert forall|q: int| 0 <= q < b && cards[q].row == target implies gap(
                    middle_twice(cards[b].area),
                    middle_twice(cards[p].area),
                ) < gap(middle_twice((#[trigger] cards[q]).area), middle_twice(cards[p].area)) by {
                    assert(center_x(cards[q].area) == middle_twice(cards[q].area));
                    assert(center_x(cards[b].area) == middle_twice(cards[b].area));
                }
            },
            None => {},
        }
    }
}


/// In the scrolling column, or with one row of cards, `j` and `k` step to
/// the next or previous card, stopping at both ends; in the card grid, from
/// an item with no card, they stay on it (or on the last card).
pub proof fn law_vertical_step_in_one_line(plan: PlanModel, index: int, direction: int)
    requires
        plan.tab_count > 0,
    ensures
        plan.mode == LayoutMode::Scroll || plan.total_rows == 1 ==> plan.vertical_neighbor(index, direction) == if index
            + direction < 0 {
            0
        } else if index + direction > plan.tab_count - 1 {
            plan.tab_count - 1
        } else {
            index + direction
        },
        plan.mode != LayoutMode::Scroll && plan.total_rows != 1 && (forall|q: int|
            0 <= q < plan.cards.len() ==> (#[trigger] plan.cards[q]).index != index) ==> plan.vertical_neighbor(index, direction)
            == if index < plan.tab_count - 1 {
            index
        } else {
            plan.tab_count - 1
        },
{
    lemma_card_with_index_found(plan.cards, index, 0);
}

} // verus!
