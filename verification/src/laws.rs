//! Properties of the board that span its operations, proved over the
//! models its functions' contracts are stated in.

use vstd::prelude::*;
use crate::board::{not_pin, pin_of, tab_titled_as, Slot, assign_labels, labeled, labels_starting, no_labels, session_named, BoardModel, HintModel, Identity};
use crate::hints::{hint_alphabet, law_tips_are_distinct, lemma_hint_alphabet_distinct, sat_mul, tip, tip_width, tips};
use crate::search::{first_where, lemma_first_index_found, lemma_first_where, lemma_first_where_found};
use crate::sorting::{law_current_session_comes_first, sort_sessions_spec};
use crate::facts::{display_name_spec, PinModel, SessionModel, TabFact};
use crate::host::HostModel;
use crate::text::ascii_lower;
use crate::facts::{ActionModel, CachePrune, Key};
use crate::grid::{calculate_spec, clamp_step, law_vertical_steps_stay_on_the_board, lemma_plan_cards_on_board, lemma_plan_view, lemma_step_down_from_last, no_band_end_between, lemma_step_up_from_first, normalized_splits_of, strictly_increasing, LayoutMode, PlanModel};

verus! {

/// With help open, every key but `?` and `Esc` is ignored, and those two
/// only close it.
pub proof fn law_help_swallows_keys(board: BoardModel, key: Key)
    requires
        board.show_help,
    ensures
        board.decide(key).1 == ActionModel::Noop,
        board.decide(key).0 == if key == Key::ToggleHelp || key == Key::Dismiss {
            BoardModel { show_help: false, ..board }
        } else {
            board
        },
{
}

/// `Esc` steps back one level: it cancels Flash search, else leaves a
/// session's board for the home board, and only on the home board closes
/// the overview.
pub proof fn law_escape_steps_back(board: BoardModel)
    requires
        !board.show_help,
    ensures
        board.hint is Some ==> board.decide(Key::Dismiss).1 == ActionModel::Noop
            && board.decide(Key::Dismiss).0.hint is None
            && board.decide(Key::Dismiss).0.drilled == board.drilled,
        board.hint is None && board.drilled is Some ==> board.decide(Key::Dismiss).1 == ActionModel::Noop
            && board.decide(Key::Dismiss).0.drilled is None,
        board.hint is None && board.drilled is None ==> board.decide(Key::Dismiss).1 == ActionModel::Dismiss,
{
}

/// `gg` puts the cursor on the first card.
pub proof fn law_gg_goes_to_first(board: BoardModel)
    requires
        !board.show_help,
        board.pending_g,
    ensures
        board.decide(Key::GoPrefix).0.cursor == 0,
        !board.decide(Key::GoPrefix).0.pending_g,
        board.decide(Key::GoPrefix).1 == ActionModel::Noop,
{
}

/// `G` puts the cursor on the last card.
pub proof fn law_last_goes_to_last(board: BoardModel)
    requires
        !board.show_help,
        board.item_count() <= usize::MAX,
    ensures
        board.decide(Key::Last).0.cursor == board.last_index(),
        board.decide(Key::Last).1 == ActionModel::Noop,
{
    let m = board.clear_prefixes(Key::Last);
    lemma_slots_ignore_state(m, board);
    let stepped = m.key_step(Key::Last, board.current_layout_plan(), false, board.pending_z).0;
    assert(stepped.cursor == m.last_index());
    let fin = stepped.ensure_visible(stepped.cursor as int);
    assert(fin.cursor == stepped.cursor);
}

/// A step left or right stops at both ends of the board; it never wraps.
pub proof fn law_steps_stop_at_both_ends(plan: PlanModel, index: int, direction: int)
    requires
        plan.tab_count > 0,
    ensures
        0 <= plan.horizontal_neighbor(index, direction) < plan.tab_count,
        0 <= index + direction < plan.tab_count ==> plan.horizontal_neighbor(index, direction) == index + direction,
        index + direction < 0 ==> plan.horizontal_neighbor(index, direction) == 0,
        index + direction >= plan.tab_count ==> plan.horizontal_neighbor(index, direction) == plan.tab_count - 1,
{
}

/// The layout always lays out exactly the board's cards.
pub proof fn law_plan_counts_every_card(item_widths: Seq<usize>, area: crate::grid::Rect, scroll_offset: int, band_ends: Seq<usize>)
    requires
        item_widths.len() <= usize::MAX,
    ensures
        calculate_spec(item_widths, area, scroll_offset, band_ends).tab_count == if item_widths.len() == 0
            || area.width == 0 || area.height == 0 {
            0
        } else {
            item_widths.len()
        },
{
    reveal(calculate_spec);
}

/// `h`, `l`, the page keys and `G` keep the cursor on a card.
pub proof fn law_moves_stay_on_the_board(board: BoardModel, key: Key)
    requires
        !board.show_help,
        0 < board.item_count() <= usize::MAX,
        key == Key::Left || key == Key::Right || key == Key::HalfPageDown || key == Key::HalfPageUp || key == Key::PageDown
            || key == Key::PageUp || key == Key::Last,
    ensures
        board.decide(key).0.cursor < board.item_count(),
        board.decide(key).1 == ActionModel::Noop,
{
    let m = board.clear_prefixes(key);
    let plan = board.current_layout_plan();
    law_plan_counts_every_card(board.item_widths(), board.content_area(), board.scroll_offset as int, board.band_ends());
    assert(m.item_count() == board.item_count()) by {
        lemma_slots_ignore_state(m, board);
    }
    let stepped = m.key_step(key, plan, false, board.pending_z).0;
    assert(stepped.item_count() == board.item_count()) by {
        lemma_slots_ignore_state(stepped, board);
    }
    let fin = stepped.ensure_visible(stepped.cursor as int);
    assert(fin.cursor == stepped.cursor);
}

/// Pruning leaves no pin, left session or last tab that is known to be gone.
pub proof fn law_pruning_leaves_nothing_dead(board: BoardModel)
    ensures
        forall|i: int| 0 <= i < board.pruned().pins.len() ==> !board.pruned().pin_is_dead(#[trigger] board.pruned().pins[i]),
        forall|k: Seq<char>| #[trigger] board.pruned().last_tabs.contains_key(k) ==> !board.pruned().session_last_is_dead(
            k,
            board.pruned().last_tabs[k],
        ),
        !board.pruned().previous_is_stale(),
{
    lemma_live_pins_alive(board, board.pins.len() as int);
}

/// Pruning twice is pruning once.
pub proof fn law_pruning_is_idempotent(board: BoardModel)
    ensures
        board.pruned().pruned() == board.pruned(),
{
    let p = board.pruned();
    lemma_live_pins_alive(board, board.pins.len() as int);
    lemma_live_pins_keep_alive(p, p.pins.len() as int);
    assert(p.pruned().pins =~= p.pins);
    assert(p.pruned().last_tabs =~= p.last_tabs);
    assert(!(exists|i: int| 0 <= i < p.pins.len() && p.pin_is_dead(#[trigger] p.pins[i])));
    assert(!(exists|k: Seq<char>| #[trigger] p.last_tabs.contains_key(k) && p.session_last_is_dead(k, p.last_tabs[k])));
    assert(p.pruned() =~= p);
}

proof fn lemma_live_pins_alive(board: BoardModel, n: int)
    requires
        0 <= n <= board.pins.len(),
    ensures
        forall|i: int| 0 <= i < board.live_pins(n).len() ==> !board.pin_is_dead(#[trigger] board.live_pins(n)[i]),
    decreases n,
{
    if n > 0 {
        lemma_live_pins_alive(board, n - 1);
        let a = board.live_pins(n - 1);
        assert forall|i: int| 0 <= i < board.live_pins(n).len() implies !board.pin_is_dead(#[trigger] board.live_pins(n)[i]) by {
            if i < a.len() {
                assert(board.live_pins(n)[i] == a[i]);
            }
        }
    }
}

/// Pins that are all alive survive pruning unchanged.
proof fn lemma_live_pins_keep_alive(board: BoardModel, n: int)
    requires
        0 <= n <= board.pins.len(),
        forall|i: int| 0 <= i < board.pins.len() ==> !board.pin_is_dead(#[trigger] board.pins[i]),
    ensures
        board.live_pins(n) == board.pins.take(n),
    decreases n,
{
    if n > 0 {
        lemma_live_pins_keep_alive(board, n - 1);
        assert(board.live_pins(n) =~= board.pins.take(n));
    }
    else {
        assert(board.live_pins(n) =~= board.pins.take(n));
    }
}

/// The cards of two boards that hold the same lists are the same.
pub proof fn lemma_slots_ignore_state(a: BoardModel, b: BoardModel)
    requires
        a.tabs == b.tabs,
        a.sessions == b.sessions,
        a.drilled == b.drilled,
        a.pins == b.pins,
        a.previous_session == b.previous_session,
        a.last_tabs == b.last_tabs,
    ensures
        a.slots() == b.slots(),
        a.item_count() == b.item_count(),
{
    assert(a.current_session_name() == b.current_session_name());
    lemma_pin_slots_same(a, b, None, a.pins.len() as int);
    let current = match a.current_session_name() {
        Some(name) => name,
        None => Seq::<char>::empty(),
    };
    lemma_live_slots_same(a, b, current, a.tabs.len() as int);
    assert(a.pin_slots(None, a.pins.len() as int) == b.pin_slots(None, b.pins.len() as int));
    assert(a.other_previous_session() == b.other_previous_session());
    assert(a.folded_session() == b.folded_session()) by {
        if let Some(name) = a.other_previous_session() {
            let pins = a.pin_slots(None, a.pins.len() as int);
            assert forall|i: int| 0 <= i < pins.len() implies a.is_last_tab_pin(name, pins[i]) == b.is_last_tab_pin(name, pins[i]) by {
            }
        }
    }
    lemma_session_slots_same(a, b, a.sessions.len() as int);
    match a.drilled {
        Some(name) => {
            lemma_pin_slots_same(a, b, Some(name), a.pins.len() as int);
            lemma_live_slots_same(a, b, name, a.tabs.len() as int);
            match a.session_index(name) {
                Some(si) => {
                    lemma_snap_slots_same(a, b, si, name, a.sessions[si].tabs.len() as int);
                },
                None => {},
            }
        },
        None => {},
    }
    assert(a.slots() =~= b.slots());
}

proof fn lemma_pin_slots_same(a: BoardModel, b: BoardModel, only: Option<Seq<char>>, n: int)
    requires
        a.tabs == b.tabs,
        a.sessions == b.sessions,
        a.pins == b.pins,
    ensures
        a.pin_slots(only, n) == b.pin_slots(only, n),
    decreases n,
{
    if n > 0 {
        lemma_pin_slots_same(a, b, only, n - 1);
        assert(a.resolve_pin(a.pins[n - 1]) == b.resolve_pin(b.pins[n - 1]));
    }
}

proof fn lemma_session_slots_same(a: BoardModel, b: BoardModel, n: int)
    requires
        a.sessions == b.sessions,
        a.folded_session() == b.folded_session(),
    ensures
        a.session_slots_upto(n) == b.session_slots_upto(n),
    decreases n,
{
    if n > 0 {
        lemma_session_slots_same(a, b, n - 1);
    }
}

proof fn lemma_live_slots_same(a: BoardModel, b: BoardModel, session: Seq<char>, n: int)
    requires
        a.tabs == b.tabs,
        a.pins == b.pins,
    ensures
        a.live_slots(session, n) == b.live_slots(session, n),
    decreases n,
{
    if n > 0 {
        lemma_live_slots_same(a, b, session, n - 1);
        assert(a.is_pinned_name(session, crate::facts::display_name_spec(a.tabs[n - 1].name@)) == b.is_pinned_name(
            session,
            crate::facts::display_name_spec(b.tabs[n - 1].name@),
        ));
    }
}

proof fn lemma_snap_slots_same(a: BoardModel, b: BoardModel, si: int, session: Seq<char>, n: int)
    requires
        a.sessions == b.sessions,
        a.pins == b.pins,
    ensures
        a.snap_slots(si, session, n) == b.snap_slots(si, session, n),
    decreases n,
{
    if n > 0 {
        lemma_snap_slots_same(a, b, si, session, n - 1);
        assert(a.is_pinned_name(session, crate::facts::display_name_spec(a.sessions[si].tabs[n - 1].name@))
            == b.is_pinned_name(session, crate::facts::display_name_spec(b.sessions[si].tabs[n - 1].name@)));
    }
}


/// After the host's lists change the cursor is on a card, when there is one.
pub proof fn law_settling_keeps_cursor_on_board(board: BoardModel, selected: Option<Identity>)
    requires
        board.settled(selected).item_count() <= usize::MAX,
    ensures
        ({
            let settled = board.settled(selected);
            if settled.item_count() > 0 {
                settled.cursor < settled.item_count()
            } else {
                settled.cursor == 0
            }
        }),
{
    let p = board.pruned();
    let r = p.reseated(selected);
    assert(r.tabs == p.tabs && r.sessions == p.sessions && r.drilled == p.drilled && r.pins == p.pins);
    lemma_slots_ignore_state(r, p);
    lemma_slots_ignore_state(r.relabeled(), r);
    lemma_reseated_on_board(p, selected);
}

proof fn lemma_reseated_on_board(board: BoardModel, selected: Option<Identity>)
    requires
        board.item_count() <= usize::MAX,
    ensures
        ({
            let r = board.reseated(selected);
            &&& r.tabs == board.tabs
            &&& r.sessions == board.sessions
            &&& r.drilled == board.drilled
            &&& r.pins == board.pins
            &&& if board.item_count() > 0 {
                r.cursor < board.item_count()
            } else {
                r.cursor == 0
            }
        }),
{
    let n = board.item_count();
    lemma_active_index_on_board(board);
    match selected {
        Some(identity) => match identity {
            Identity::Session(name) => lemma_first_index_found(n, board.session_card(name)),
            Identity::Pinned { session, name } => lemma_first_index_found(n, board.pinned_titled(session, name)),
            Identity::Tab(id) => lemma_first_index_found(n, board.tab_with_id(id)),
        },
        None => {},
    }
}

proof fn lemma_active_index_on_board(board: BoardModel)
    ensures
        match board.active_index() {
            Some(i) => 0 <= i < board.item_count(),
            None => true,
        },
{
    let n = board.item_count();
    match board.previous_tab_id {
        Some(id) => lemma_first_index_found(n, board.tab_with_id(id)),
        None => {},
    }
    match board.drilled {
        Some(name) => if board.last_tabs.contains_key(name) {
            lemma_first_index_found(n, board.tab_at_position(board.last_tabs[name]));
        },
        None => {},
    }
    lemma_first_index_found(n, board.active_tab());
    lemma_first_index_found(n, board.active_item(false));
    lemma_first_index_found(n, board.active_item(true));
}

/// `-` on the home board, when the left session's last tab is not pinned,
/// opens that session's board; on a session's board it goes to that
/// session's last tab.
#[verifier::spinoff_prover]
pub proof fn law_dash_enters_then_jumps(board: BoardModel)
    requires
        !board.show_help,
    ensures
        board.drilled is None && board.other_previous_session() is Some && board.previous_session_pin_index(
            board.other_previous_session()->0,
        ) is None ==> board.decide(Key::PreviousTab).0.drilled == board.other_previous_session()
            && board.decide(Key::PreviousTab).1 == ActionModel::Noop,
        board.drilled matches Some(name) ==> board.decide(Key::PreviousTab).1 == board.jump_session_tab(
            name,
            if board.last_tabs.contains_key(name) {
                Some(board.last_tabs[name])
            } else {
                None
            },
        ),
{
    let m = board.clear_prefixes(Key::PreviousTab);
    lemma_slots_ignore_state(m, board);
    assert(board.decide(Key::PreviousTab) == m.commit_previous());
    if board.drilled is None {
        if let Some(name) = board.other_previous_session() {
            assert(m.other_previous_session() == Some(name));
            if board.last_tabs.contains_key(name) {
                let position = board.last_tabs[name];
                assert(m.pinned_at(name, position) =~= board.pinned_at(name, position));
            }
            assert(m.previous_session_pin_index(name) == board.previous_session_pin_index(name));
        }
    }
}

/// In Flash search a character that extends no tip and makes the query
/// match no title is ignored: the query stays as it was.
pub proof fn law_flash_ignores_unmatched_input(board: BoardModel, typed: char)
    requires
        !board.show_help,
        board.hint matches Some(h) && labels_starting(
            h.labels,
            h.jump_prefix.push(ascii_lower(typed)),
            h.labels.len() as int,
        ).len() == 0 && !board.any_title_matches(h.query.push(ascii_lower(typed))),
    ensures
        board.decide(Key::Input(typed)) == (board.clear_prefixes(Key::Input(typed)), ActionModel::Noop),
{
    let m = board.clear_prefixes(Key::Input(typed));
    lemma_slots_ignore_state(m, board);
    let q = board.hint->0.query.push(ascii_lower(typed));
    assert(m.any_title_matches(q) == board.any_title_matches(q)) by {
        assert forall|i: int| m.title_matches(i, q) == board.title_matches(i, q) by {
            assert(m.item_title(i) == board.item_title(i));
        }
    }
    lemma_unmatched_input(m, typed);
    lemma_input_is_hint_input(board, typed);
}

proof fn lemma_unmatched_input(m: BoardModel, typed: char)
    requires
        m.hint matches Some(h) && labels_starting(
            h.labels,
            h.jump_prefix.push(ascii_lower(typed)),
            h.labels.len() as int,
        ).len() == 0 && !m.any_title_matches(h.query.push(ascii_lower(typed))),
    ensures
        m.apply_hint_input(typed) == (m, ActionModel::Noop),
{
}

#[verifier::spinoff_prover]
proof fn lemma_input_is_hint_input(board: BoardModel, typed: char)
    requires
        !board.show_help,
        board.hint is Some,
    ensures
        board.decide(Key::Input(typed)) == board.clear_prefixes(Key::Input(typed)).apply_hint_input(typed),
{
    let m = board.clear_prefixes(Key::Input(typed));
    assert(m.key_step(Key::Input(typed), board.current_layout_plan(), false, board.pending_z) == m.apply_hint_input(typed));
}

/// A session update that reports only the current session keeps every
/// other session on the board, no longer marked current, and shows the
/// reported session as the current one with its tab count.
pub proof fn law_touch_keeps_other_sessions(board: BoardModel, session: SessionModel)
    ensures
        forall|i: int|
            0 <= i < board.sessions.len() && board.sessions[i].name != session.name ==> board.touch_current_session(
                session,
            ).sessions.contains(SessionModel { current: false, ..#[trigger] board.sessions[i] }),
        exists|j: int|
            0 <= j < board.touch_current_session(session).sessions.len() && {
                let s = #[trigger] board.touch_current_session(session).sessions[j];
                s.name == session.name && s.current && s.tab_count == session.tab_count
            },
{
    broadcast use vstd::seq_lib::group_to_multiset_ensures;

    let cleared = Seq::new(board.sessions.len(), |i: int| SessionModel { current: false, ..board.sessions[i] });
    let found = first_where(cleared, session_named(session.name));
    let updated = match found {
        Some(k) => cleared.update(
            k,
            SessionModel {
                current: true,
                tabs: if session.tabs.len() == 0 {
                    cleared[k].tabs
                } else {
                    session.tabs
                },
                ..session
            },
        ),
        None => cleared.push(SessionModel { current: true, ..session }),
    };
    let result = board.touch_current_session(session).sessions;
    assert(board.touched_sessions(session) == sort_sessions_spec(updated));
    assert(result == sort_sessions_spec(updated));
    law_current_session_comes_first(updated);
    lemma_first_where_found(cleared, session_named(session.name));
    assert forall|i: int|
        0 <= i < board.sessions.len() && board.sessions[i].name != session.name implies result.contains(
            SessionModel { current: false, ..#[trigger] board.sessions[i] },
        ) by {
        let x = SessionModel { current: false, ..board.sessions[i] };
        assert(cleared[i] == x);
        match found {
            Some(k) => {
                assert(k != i);
                assert(updated[i] == x);
            },
            None => {
                assert(updated[i] == x);
            },
        }
        assert(updated.contains(x));
        assert(updated.to_multiset().count(x) > 0);
        assert(result.to_multiset().count(x) > 0);
    }
    let y = match found {
        Some(k) => updated[k],
        None => updated[updated.len() - 1],
    };
    assert(updated.contains(y));
    assert(result.to_multiset().count(y) > 0);
    assert(result.contains(y));
    let j = choose|j: int| 0 <= j < result.len() && result[j] == y;
    assert(result[j].name == session.name && result[j].current && result[j].tab_count == session.tab_count);
}

/// The free letters are letters of the alphabet, each at most once.
proof fn lemma_free_letters_distinct(board: BoardModel, query: Seq<char>, n: int)
    requires
        0 <= n <= 26,
    ensures
        board.free_letters(query, n).no_duplicates(),
        forall|k: int|
            0 <= k < board.free_letters(query, n).len() ==> exists|p: int| 0 <= p < n && #[trigger] board.free_letters(query, n)[k] == hint_alphabet()[p],
    decreases n,
{
    lemma_hint_alphabet_distinct();
    if n > 0 {
        lemma_free_letters_distinct(board, query, n - 1);
        let front = board.free_letters(query, n - 1);
        let all = board.free_letters(query, n);
        let c = hint_alphabet()[n - 1];
        assert forall|k: int| 0 <= k < all.len() implies exists|p: int| 0 <= p < n && #[trigger] all[k] == hint_alphabet()[p] by {
            if k < front.len() {
                assert(all[k] == front[k]);
                let p = choose|p: int| 0 <= p < n - 1 && front[k] == hint_alphabet()[p];
                assert(all[k] == hint_alphabet()[p]);
            } else {
                assert(all[k] == c);
            }
        }
        assert forall|i: int, j: int| 0 <= i < all.len() && 0 <= j < all.len() && i != j implies all[i] != all[j] by {
            if i < front.len() && j < front.len() {
                assert(all[i] == front[i] && all[j] == front[j]);
            } else if i < front.len() {
                assert(all[i] == front[i]);
                let p = choose|p: int| 0 <= p < n - 1 && front[i] == hint_alphabet()[p];
                assert(all[j] == c);
                assert(p != n - 1);
            } else if j < front.len() {
                assert(all[j] == front[j]);
                let p = choose|p: int| 0 <= p < n - 1 && front[j] == hint_alphabet()[p];
                assert(all[i] == c);
                assert(p != n - 1);
            }
        }
    }
}

/// The matched cards come in board order, each once.
proof fn lemma_hint_matches_increase(board: BoardModel, query: Seq<char>, n: int)
    requires
        0 <= n,
    ensures
        forall|k: int| 0 <= k < board.hint_matches(query, n).len() ==> 0 <= #[trigger] board.hint_matches(query, n)[k] < n,
        forall|a: int, b: int|
            0 <= a < b < board.hint_matches(query, n).len() ==> #[trigger] board.hint_matches(query, n)[a] < #[trigger] board.hint_matches(query, n)[b],
    decreases n,
{
    board.lemma_hint_matches_bounds(query, n);
    if n > 0 {
        lemma_hint_matches_increase(board, query, n - 1);
        board.lemma_hint_matches_bounds(query, n - 1);
        let front = board.hint_matches(query, n - 1);
        let all = board.hint_matches(query, n);
        assert forall|a: int, b: int| 0 <= a < b < all.len() implies #[trigger] all[a] < #[trigger] all[b] by {
            assert(all[a] == front[a]);
            if b < front.len() {
                assert(all[b] == front[b]);
            } else {
                assert(all[b] == n - 1);
            }
        }
    }
}

/// Putting the first `k` tips on the matched cards: each matched card
/// carries its tip, and only matched cards carry one.
proof fn lemma_assign_labels(n: int, matches: Seq<int>, tip_list: Seq<Seq<char>>, k: int)
    requires
        0 <= n,
        0 <= k <= matches.len(),
        k <= tip_list.len(),
        forall|t: int| 0 <= t < matches.len() ==> 0 <= #[trigger] matches[t] < n,
        forall|a: int, b: int| 0 <= a < b < matches.len() ==> #[trigger] matches[a] < #[trigger] matches[b],
    ensures
        assign_labels(no_labels(n), matches, tip_list, k).len() == n,
        forall|t: int| 0 <= t < k ==> assign_labels(no_labels(n), matches, tip_list, k)[#[trigger] matches[t]] == Some(tip_list[t]),
        forall|x: int|
            0 <= x < n && (#[trigger] assign_labels(no_labels(n), matches, tip_list, k)[x]) is Some ==> exists|t: int| 0 <= t < k && matches[t] == x,
    decreases k,
{
    if k > 0 {
        lemma_assign_labels(n, matches, tip_list, k - 1);
        let before = assign_labels(no_labels(n), matches, tip_list, k - 1);
        let after = assign_labels(no_labels(n), matches, tip_list, k);
        assert(after == before.update(matches[k - 1], Some(tip_list[k - 1])));
        assert forall|t: int| 0 <= t < k implies after[#[trigger] matches[t]] == Some(tip_list[t]) by {
            if t < k - 1 {
                assert(matches[t] < matches[k - 1]);
            }
        }
        assert forall|x: int| 0 <= x < n && (#[trigger] after[x]) is Some implies exists|t: int| 0 <= t < k && matches[t] == x by {
            if x != matches[k - 1] {
                assert(before[x] is Some);
            }
        }
    }
}

/// In Flash search no two cards carry the same tip, and all tips have
/// one length, so no tip begins another and typing a tip jumps to one card.
pub proof fn law_cards_get_distinct_tips(board: BoardModel)
    requires
        board.labels_computable(),
        board.item_count() <= usize::MAX,
    ensures
        match board.relabeled().hint {
            Some(h) => {
                &&& forall|i: int, j: int|
                    0 <= i < j < h.labels.len() && (#[trigger] h.labels[i]) is Some && (#[trigger] h.labels[j]) is Some ==> h.labels[i]
                        != h.labels[j]
                &&& forall|i: int, j: int|
                    0 <= i < h.labels.len() && 0 <= j < h.labels.len() && (#[trigger] h.labels[i]) is Some && (
                    #[trigger] h.labels[j]) is Some ==> h.labels[i]->0.len() == h.labels[j]->0.len()
            },
            None => true,
        },
{
    match board.hint {
        None => {},
        Some(h) => {
            let n = board.item_count();
            let matches = board.hint_matches(h.query, n);
            let letters = board.tip_letters(h.query);
            let tip_list = tips(matches.len() as int, letters);
            lemma_hint_matches_increase(board, h.query, n);
            board.lemma_hint_matches_bounds(h.query, n);
            lemma_free_letters_distinct(board, h.query, 26);
            lemma_hint_alphabet_distinct();
            let m = matches.len() as int;
            if letters.len() >= 2 {
                law_tips_are_distinct(m, letters);
            }
            assert(tip_list.len() == m);
            lemma_assign_labels(n, matches, tip_list, m);
            let labels = assign_labels(no_labels(n), matches, tip_list, m);
            assert(board.relabeled().hint == Some(HintModel { labels, ..h }));
            assert forall|i: int, j: int| 0 <= i < j < labels.len() && (#[trigger] labels[i]) is Some && (#[trigger] labels[j]) is Some implies labels[i] != labels[j] by {
                let ti = choose|t: int| 0 <= t < m && matches[t] == i;
                let tj = choose|t: int| 0 <= t < m && matches[t] == j;
                assert(labels[matches[ti]] == Some(tip_list[ti]));
                assert(labels[matches[tj]] == Some(tip_list[tj]));
                assert(ti != tj);
                if ti < tj {
                    assert(tip_list[ti] != tip_list[tj]);
                } else {
                    assert(tip_list[tj] != tip_list[ti]);
                }
            }
            assert forall|i: int, j: int|
                0 <= i < labels.len() && 0 <= j < labels.len() && (#[trigger] labels[i]) is Some && (#[trigger] labels[j]) is Some implies labels[i]->0.len() == labels[j]->0.len() by {
                let ti = choose|t: int| 0 <= t < m && matches[t] == i;
                let tj = choose|t: int| 0 <= t < m && matches[t] == j;
                assert(labels[matches[ti]] == Some(tip_list[ti]));
                assert(labels[matches[tj]] == Some(tip_list[tj]));
                if ti != tj {
                    assert(tip_list[ti].len() == tip_list[tj].len());
                }
            }
        },
    }
}

proof fn lemma_pin_slots_kind(board: BoardModel, only: Option<Seq<char>>, n: int)
    ensures
        forall|i: int| 0 <= i < board.pin_slots(only, n).len() ==> #[trigger] board.pin_slots(only, n)[i] is Pin,
    decreases n,
{
    if n > 0 {
        lemma_pin_slots_kind(board, only, n - 1);
        let front = board.pin_slots(only, n - 1);
        let all = board.pin_slots(only, n);
        assert forall|i: int| 0 <= i < all.len() implies #[trigger] all[i] is Pin by {
            if i < front.len() {
                assert(all[i] == front[i]);
            }
        }
    }
}

proof fn lemma_session_slots_kind(board: BoardModel, n: int)
    ensures
        forall|i: int| 0 <= i < board.session_slots_upto(n).len() ==> #[trigger] board.session_slots_upto(n)[i] is Session,
    decreases n,
{
    if n > 0 {
        lemma_session_slots_kind(board, n - 1);
        let front = board.session_slots_upto(n - 1);
        let all = board.session_slots_upto(n);
        assert forall|i: int| 0 <= i < all.len() implies #[trigger] all[i] is Session by {
            if i < front.len() {
                assert(all[i] == front[i]);
            }
        }
    }
}

proof fn lemma_live_slots_kind(board: BoardModel, session: Seq<char>, n: int)
    ensures
        forall|i: int| 0 <= i < board.live_slots(session, n).len() ==> #[trigger] board.live_slots(session, n)[i] is LiveTab,
    decreases n,
{
    if n > 0 {
        lemma_live_slots_kind(board, session, n - 1);
        let front = board.live_slots(session, n - 1);
        let all = board.live_slots(session, n);
        assert forall|i: int| 0 <= i < all.len() implies #[trigger] all[i] is LiveTab by {
            if i < front.len() {
                assert(all[i] == front[i]);
            }
        }
    }
}

proof fn lemma_snap_slots_kind(board: BoardModel, si: int, session: Seq<char>, n: int)
    ensures
        forall|i: int| 0 <= i < board.snap_slots(si, session, n).len() ==> #[trigger] board.snap_slots(si, session, n)[i] is SnapTab,
    decreases n,
{
    if n > 0 {
        lemma_snap_slots_kind(board, si, session, n - 1);
        let front = board.snap_slots(si, session, n - 1);
        let all = board.snap_slots(si, session, n);
        assert forall|i: int| 0 <= i < all.len() implies #[trigger] all[i] is SnapTab by {
            if i < front.len() {
                assert(all[i] == front[i]);
            }
        }
    }
}

/// On every board the pinned cards come first; on the home board the
/// session cards follow them, and the tabs come last.
pub proof fn law_pins_come_first(board: BoardModel)
    ensures
        forall|i: int, j: int|
            0 <= i < j < board.item_count() && #[trigger] board.item_is_pinned(j) ==> #[trigger] board.item_is_pinned(i),
        forall|i: int, j: int|
            0 <= i < j < board.item_count() && #[trigger] board.item_is_session(j) ==> board.item_is_pinned(i)
                || #[trigger] board.item_is_session(i),
{
    let slots = board.slots();
    match board.drilled {
        Some(name) => {
            let pins = board.pin_slots(Some(name), board.pins.len() as int);
            lemma_pin_slots_kind(board, Some(name), board.pins.len() as int);
            let rest = if board.drilled_session_is_current() {
                board.live_slots(name, board.tabs.len() as int)
            } else {
                match board.session_index(name) {
                    None => seq![],
                    Some(si) => board.snap_slots(si, name, board.sessions[si].tabs.len() as int),
                }
            };
            if board.drilled_session_is_current() {
                lemma_live_slots_kind(board, name, board.tabs.len() as int);
            } else {
                match board.session_index(name) {
                    None => {},
                    Some(si) => lemma_snap_slots_kind(board, si, name, board.sessions[si].tabs.len() as int),
                }
            }
            assert(slots == pins + rest);
            assert forall|k: int| 0 <= k < slots.len() implies (#[trigger] slots[k] is Pin) == (k < pins.len()) by {
                if k < pins.len() {
                    assert(slots[k] == pins[k]);
                } else {
                    assert(slots[k] == rest[k - pins.len()]);
                }
            }
            assert forall|k: int| 0 <= k < slots.len() implies !(#[trigger] slots[k] is Session) by {
                if k < pins.len() {
                    assert(slots[k] == pins[k]);
                } else {
                    assert(slots[k] == rest[k - pins.len()]);
                }
            }
        },
        None => {
            let pins = board.pin_slots(None, board.pins.len() as int);
            let sessions = board.session_slots();
            let current = match board.current_session_name() {
                Some(name) => name,
                None => Seq::<char>::empty(),
            };
            let tabs = board.live_slots(current, board.tabs.len() as int);
            lemma_pin_slots_kind(board, None, board.pins.len() as int);
            lemma_session_slots_kind(board, board.sessions.len() as int);
            lemma_live_slots_kind(board, current, board.tabs.len() as int);
            assert(slots == pins + sessions + tabs);
            assert forall|k: int| 0 <= k < slots.len() implies {
                &&& (#[trigger] slots[k] is Pin) == (k < pins.len())
                &&& slots[k] is Session == (pins.len() <= k < pins.len() + sessions.len())
            } by {
                if k < pins.len() {
                    assert(slots[k] == pins[k]);
                } else if k < pins.len() + sessions.len() {
                    assert(slots[k] == sessions[k - pins.len()]);
                } else {
                    assert(slots[k] == tabs[k - pins.len() - sessions.len()]);
                }
            }
        },
    }
}

/// `e` on a session card keeps the overview open and shows that session's
/// board; on a tab card it jumps to that tab, switching session when the
/// tab is another session's.
pub proof fn law_confirm_opens_sessions_and_jumps_to_tabs(board: BoardModel)
    requires
        !board.show_help,
    ensures
        board.session_at(board.cursor as int) matches Some(s) ==> board.decide(Key::Confirm).1 == ActionModel::Noop
            && board.decide(Key::Confirm).0.drilled == Some(s.name),
        board.session_at(board.cursor as int) is None ==> (board.tab_at(board.cursor as int) matches Some(t) ==> board.decide(
            Key::Confirm,
        ).1 == match board.item_session_name(board.cursor as int) {
            Some(session) => board.jump_session_tab(session, Some(t.position)),
            None => ActionModel::Commit { tab_index: t.position as u32 },
        }),
{
    let m = board.clear_prefixes(Key::Confirm);
    let c = board.cursor as int;
    assert(m.slots() == board.slots()) by {
        lemma_slots_ignore_state(m, board);
    }
    assert(m.session_at(c) == board.session_at(c));
    assert(m.tab_at(c) == board.tab_at(c));
    assert(m.item_session_name(c) == board.item_session_name(c));
    if let Some(s) = board.session_at(c) {
        let idx = match board.slot(c) {
            Some(crate::board::Slot::Session(i)) => i as int,
            _ => 0,
        };
        assert(m.sessions[idx].name == s.name);
        assert(exists|i: int| 0 <= i < m.sessions.len() && (#[trigger] m.sessions[i]).name == s.name);
    }
}

proof fn lemma_views_keep_pins(board: BoardModel, index: int, alignment: crate::board::ScrollAlignment)
    ensures
        board.ensure_visible(index).pins == board.pins,
        board.align_cursor(alignment).pins == board.pins,
        board.relabeled().pins == board.pins,
        board.reset_cursor().pins == board.pins,
        board.leave_session_board().pins == board.pins,
        forall|selected: Option<Identity>| (#[trigger] board.reseated(selected)).pins == board.pins,
        board.relabeled() == (BoardModel { hint: board.relabeled().hint, ..board }),
{
    let m = BoardModel { drilled: None, hint: None, pending_g: false, pending_z: false, scroll_offset: 0, ..board }.reset_cursor();
    assert(m.ensure_visible(m.cursor as int).pins == m.pins);
}

proof fn lemma_commits_keep_pins(board: BoardModel, index: int)
    ensures
        board.commit_index(index).0.pins == board.pins,
        board.commit_previous().0.pins == board.pins,
{
    match board.session_at(index) {
        Some(s) => {
            if exists|i: int| 0 <= i < board.sessions.len() && (#[trigger] board.sessions[i]).name == s.name {
                let m = BoardModel { drilled: Some(s.name), hint: None, pending_g: false, pending_z: false, scroll_offset: 0, ..board }.reset_cursor();
                lemma_views_keep_pins(m, m.cursor as int, crate::board::ScrollAlignment::Top);
            }
        },
        None => {},
    }
    match board.drilled {
        Some(_) => {},
        None => match board.other_previous_session() {
            Some(name) => {
                if exists|i: int| 0 <= i < board.sessions.len() && (#[trigger] board.sessions[i]).name == name {
                    let m = BoardModel { drilled: Some(name), hint: None, pending_g: false, pending_z: false, scroll_offset: 0, ..board }.reset_cursor();
                    lemma_views_keep_pins(m, m.cursor as int, crate::board::ScrollAlignment::Top);
                }
            },
            None => {},
        },
    }
}

proof fn lemma_hint_keys_keep_pins(board: BoardModel, typed: char)
    ensures
        board.apply_hint_input(typed).0.pins == board.pins,
        board.hint_backspace().pins == board.pins,
{
    let ch = ascii_lower(typed);
    match board.hint {
        None => {},
        Some(h) => {
            let prefix = h.jump_prefix.push(ch);
            let tip_hits = labels_starting(h.labels, prefix, h.labels.len() as int);
            if h.query.len() > 0 && tip_hits.len() == 1 && h.labels[tip_hits[0]] == Some(prefix) {
                lemma_commits_keep_pins(board, tip_hits[0]);
            } else if !(h.query.len() > 0 && tip_hits.len() > 0) {
                let query = h.query.push(ch);
                let m = BoardModel { hint: Some(HintModel { query, jump_prefix: seq![], ..h }), ..board }.relabeled();
                lemma_views_keep_pins(BoardModel { hint: Some(HintModel { query, jump_prefix: seq![], ..h }), ..board }, 0, crate::board::ScrollAlignment::Top);
                let labels = m.hint->0.labels;
                let hits = labeled(labels, labels.len() as int);
                if hits.len() > 0 {
                    lemma_commits_keep_pins(m, hits[0]);
                    lemma_views_keep_pins(m, hits[0], crate::board::ScrollAlignment::Top);
                }
            }
            let h1 = if h.jump_prefix.len() == 0 {
                HintModel { query: if h.query.len() > 0 { h.query.drop_last() } else { h.query }, ..h }
            } else {
                HintModel { jump_prefix: h.jump_prefix.drop_last(), ..h }
            };
            let b1 = BoardModel { hint: Some(h1), ..board };
            lemma_views_keep_pins(b1, 0, crate::board::ScrollAlignment::Top);
            let m1 = b1.relabeled();
            let labels1 = m1.hint->0.labels;
            let hits1 = labeled(labels1, labels1.len() as int);
            lemma_views_keep_pins(m1, if hits1.len() > 0 { hits1[0] } else { m1.cursor as int }, crate::board::ScrollAlignment::Top);
        },
    }
}

/// Only `p` changes the pins: any other outcome of a key leaves them.
#[verifier::spinoff_prover]
#[verifier::rlimit(60)]
proof fn lemma_decide_keeps_pins(board: BoardModel, key: Key)
    ensures
        board.decide(key).1 is PersistPins || board.decide(key).0.pins == board.pins,
{
    if !board.show_help {
        let plan = board.current_layout_plan();
        let m = board.clear_prefixes(key);
        let completes_gg = key == Key::GoPrefix && board.pending_g;
        let z = board.pending_z;
        let (n, action) = m.key_step(key, plan, completes_gg, z);
        lemma_views_keep_pins(m, m.cursor as int, crate::board::ScrollAlignment::Top);
        lemma_views_keep_pins(BoardModel { pending_z: false, ..m }, 0, crate::board::ScrollAlignment::Center);
        lemma_views_keep_pins(BoardModel { pending_z: false, ..m }, 0, crate::board::ScrollAlignment::Top);
        lemma_views_keep_pins(BoardModel { pending_z: false, ..m }, 0, crate::board::ScrollAlignment::Bottom);
        lemma_views_keep_pins(BoardModel { hint: None, ..m }, 0, crate::board::ScrollAlignment::Top);
        lemma_commits_keep_pins(m, m.cursor as int);
        match key {
            Key::Input(ch) => lemma_hint_keys_keep_pins(m, ch),
            Key::Backspace => lemma_hint_keys_keep_pins(m, 'a'),
            _ => {},
        }
        assert(action is PersistPins || n.pins == board.pins);
        lemma_views_keep_pins(n, n.cursor as int, crate::board::ScrollAlignment::Top);
    }
}

/// Pruning drops pins only when it marks the pins stale.
proof fn lemma_prune_marks_dropped_pins(board: BoardModel)
    ensures
        board.pruned().stale.pins || board.pruned().pins == board.pins,
{
    if !(exists|i: int| 0 <= i < board.pins.len() && board.pin_is_dead(#[trigger] board.pins[i])) {
        lemma_live_pins_keep_alive(board, board.pins.len() as int);
        assert(board.pins.take(board.pins.len() as int) =~= board.pins);
    }
}

/// Settling after new lists drops pins only when it marks the pins stale.
proof fn lemma_settle_marks_dropped_pins(board: BoardModel, selected: Option<Identity>)
    ensures
        board.settled(selected).stale.pins || board.settled(selected).pins == board.pins,
{
    lemma_prune_marks_dropped_pins(board);
    let p = board.pruned();
    lemma_views_keep_pins(p.reseated(selected), 0, crate::board::ScrollAlignment::Top);
    lemma_views_keep_pins(p, 0, crate::board::ScrollAlignment::Top);
}

/// The pin file keeps up with the board: when it holds the board's pins,
/// it still does after a key, a tab list, a session list, or reopening
/// on a session snapshot.
pub proof fn law_pin_file_follows_the_board(host: HostModel, key: Key, tabs: Seq<TabFact>, sessions: Seq<SessionModel>)
    requires
        host.pins == host.board.pins,
    ensures
        host.key(key).pins == host.key(key).board.pins,
        host.apply_tabs(tabs).pins == host.apply_tabs(tabs).board.pins,
        host.apply_sessions(sessions).pins == host.apply_sessions(sessions).board.pins,
        host.load_from_snapshot(sessions).pins == host.load_from_snapshot(sessions).board.pins,
{
    lemma_decide_keeps_pins(host.board, key);
    let selected = host.board.selected_identity();
    let with_tabs = host.board.with_tabs(tabs);
    lemma_settle_marks_dropped_pins(with_tabs, selected);
    let applied = host.board.apply_tabs(tabs);
    lemma_views_keep_pins(applied, 0, crate::board::ScrollAlignment::Top);
    let with_sessions = host.board.with_sessions(sessions);
    lemma_settle_marks_dropped_pins(with_sessions, selected);
    let opened = BoardModel::initial().apply_sessions(sessions);
    let with_pins = opened.with_pins(host.pins);
    lemma_settle_marks_dropped_pins(with_pins, opened.selected_identity());
    let loaded = opened.apply_pins(host.pins);
    lemma_prune_marks_dropped_pins(loaded);
}

/// `p` on a tab card pins that tab (its session and title) when no pin
/// names it yet, and removes the first pin that names it otherwise; on a
/// session card, or with no card, it changes nothing.
pub proof fn law_p_toggles_the_pin(board: BoardModel)
    requires
        !board.show_help,
    ensures
        ({
            let c = board.cursor as int;
            let (after, action) = board.decide(Key::Pin);
            match (board.item_session_name(c), board.session_at(c), board.tab_at(c)) {
                (Some(session), None, Some(t)) => {
                    let name = display_name_spec(t.name@);
                    &&& action == ActionModel::PersistPins
                    &&& after.pins == match first_where(board.pins, pin_of(session, name)) {
                        Some(i) => board.pins.remove(i),
                        None => board.pins.push(PinModel { session, tab_name: name }),
                    }
                },
                _ => action == ActionModel::Noop && after.pins == board.pins,
            }
        }),
{
    let m = board.clear_prefixes(Key::Pin);
    assert(m.slots() == board.slots()) by {
        lemma_slots_ignore_state(m, board);
    }
    let c = board.cursor as int;
    assert(m.item_session_name(c) == board.item_session_name(c));
    assert(m.session_at(c) == board.session_at(c));
    assert(m.tab_at(c) == board.tab_at(c));
    match m.pin_toggled() {
        Some(n) => {
            lemma_views_keep_pins(n, 0, crate::board::ScrollAlignment::Top);
            match (m.item_session_name(c), m.session_at(c), m.tab_at(c)) {
                (Some(session), None, Some(t)) => {
                    let name = display_name_spec(t.name@);
                    let pins = match first_where(m.pins, pin_of(session, name)) {
                        Some(i) => m.pins.remove(i),
                        None => m.pins.push(PinModel { session, tab_name: name }),
                    };
                    let before = BoardModel { pins, ..m };
                    lemma_views_keep_pins(before, 0, crate::board::ScrollAlignment::Top);
                },
                _ => {},
            }
        },
        None => {},
    }
}

proof fn lemma_snap_slots_session(board: BoardModel, si: int, session: Seq<char>, n: int)
    ensures
        forall|i: int|
            0 <= i < board.snap_slots(si, session, n).len() ==> (#[trigger] board.snap_slots(si, session, n)[i] matches Slot::SnapTab {
                session: s,
                ..
            } && s == si as usize),
    decreases n,
{
    if n > 0 {
        lemma_snap_slots_session(board, si, session, n - 1);
        let front = board.snap_slots(si, session, n - 1);
        let all = board.snap_slots(si, session, n);
        assert forall|i: int| 0 <= i < all.len() implies (#[trigger] all[i] matches Slot::SnapTab { session: s, .. } && s == si as usize) by {
            if i < front.len() {
                assert(all[i] == front[i]);
            }
        }
    }
}

/// Which boards show live tabs and snapshot tabs: live tabs on the home
/// board and on the current session's board; a snapshot tab only on the
/// board of another session, as that session's tab.
proof fn lemma_slot_kinds(board: BoardModel)
    requires
        board.bounded(),
    ensures
        forall|k: int|
            0 <= k < board.slots().len() && (#[trigger] board.slots()[k]) is LiveTab ==> board.drilled is None
                || board.drilled_session_is_current(),
        forall|k: int|
            0 <= k < board.slots().len() && (#[trigger] board.slots()[k]) is SnapTab ==> (board.drilled matches Some(d)
                && !board.drilled_session_is_current() && board.session_index(d) == Some(board.slots()[k]->SnapTab_session as int)),
{
    let slots = board.slots();
    match board.drilled {
        Some(name) => {
            let pins = board.pin_slots(Some(name), board.pins.len() as int);
            lemma_pin_slots_kind(board, Some(name), board.pins.len() as int);
            if board.drilled_session_is_current() {
                let rest = board.live_slots(name, board.tabs.len() as int);
                lemma_live_slots_kind(board, name, board.tabs.len() as int);
                assert forall|k: int| 0 <= k < slots.len() implies !(#[trigger] slots[k] is SnapTab) by {
                    if k < pins.len() {
                        assert(slots[k] == pins[k]);
                    } else {
                        assert(slots[k] == rest[k - pins.len()]);
                    }
                }
            } else {
                match board.session_index(name) {
                    None => {
                        assert forall|k: int| 0 <= k < slots.len() implies (#[trigger] slots[k]) is Pin by {
                            assert(slots[k] == pins[k]);
                        }
                    },
                    Some(si) => {
                        let rest = board.snap_slots(si, name, board.sessions[si].tabs.len() as int);
                        lemma_snap_slots_session(board, si, name, board.sessions[si].tabs.len() as int);
                        crate::search::lemma_first_where_found(board.sessions, session_named(name));
                        assert forall|k: int| 0 <= k < slots.len() implies !((#[trigger] slots[k]) is LiveTab) && (slots[k] is SnapTab ==> slots[k]->SnapTab_session as int == si) by {
                            if k < pins.len() {
                                assert(slots[k] == pins[k]);
                            } else {
                                assert(slots[k] == rest[k - pins.len()]);
                            }
                        }
                    },
                }
            }
        },
        None => {
            let pins = board.pin_slots(None, board.pins.len() as int);
            let sessions = board.session_slots();
            let current = match board.current_session_name() {
                Some(name) => name,
                None => Seq::<char>::empty(),
            };
            let tabs = board.live_slots(current, board.tabs.len() as int);
            lemma_pin_slots_kind(board, None, board.pins.len() as int);
            lemma_session_slots_kind(board, board.sessions.len() as int);
            lemma_live_slots_kind(board, current, board.tabs.len() as int);
            assert forall|k: int| 0 <= k < slots.len() implies !((#[trigger] slots[k]) is SnapTab) by {
                if k < pins.len() {
                    assert(slots[k] == pins[k]);
                } else if k < pins.len() + sessions.len() {
                    assert(slots[k] == sessions[k - pins.len()]);
                } else {
                    assert(slots[k] == tabs[k - pins.len() - sessions.len()]);
                }
            }
        },
    }
}

/// The tab a pin resolves to is shown under the pin's title.
proof fn lemma_tab_titled_found(tabs: Seq<TabFact>, title: Seq<char>)
    ensures
        BoardModel::tab_titled(tabs, title) matches Some(t) ==> display_name_spec(t.name@) == title,
        (exists|k: int| 0 <= k < tabs.len() && display_name_spec((#[trigger] tabs[k]).name@) == title) ==> BoardModel::tab_titled(
            tabs,
            title,
        ) is Some,
{
    lemma_first_where_found(tabs, tab_titled_as(title));
    if exists|k: int| 0 <= k < tabs.len() && display_name_spec((#[trigger] tabs[k]).name@) == title {
        let k = choose|k: int| 0 <= k < tabs.len() && display_name_spec((#[trigger] tabs[k]).name@) == title;
        assert(tab_titled_as(title)(tabs[k]));
    }
}

/// The new pin of an unpinned tab under the cursor resolves, and is shown
/// on the board it was made on.
proof fn lemma_new_pin_shown(board: BoardModel, session: Seq<char>, t: TabFact)
    requires
        board.bounded(),
        board.item_session_name(board.cursor as int) == Some(session),
        board.session_at(board.cursor as int) is None,
        board.tab_at(board.cursor as int) == Some(t),
        !board.item_is_pinned(board.cursor as int),
    ensures
        board.resolve_pin(PinModel { session, tab_name: display_name_spec(t.name@) }) is Some,
        match board.drilled {
            Some(d) => session == d,
            None => true,
        },
{
    let c = board.cursor as int;
    let name = display_name_spec(t.name@);
    board.lemma_slots_valid();
    let slot = board.slots()[c];
    assert(board.slot_valid(slot));
    match slot {
        Slot::LiveTab(k) => {
            assert(board.tabs[k as int] == t);
            lemma_tab_titled_found(board.tabs, name);
            match board.drilled {
                Some(d) => {
                    lemma_slot_kinds(board);
                    assert(board.drilled_session_is_current());
                },
                None => {},
            }
        },
        Slot::SnapTab { session: si, tab: k } => {
            lemma_slot_kinds(board);
            let d = board.drilled->0;
            assert(board.session_index(d) == Some(si as int));
            lemma_first_where_found(board.sessions, session_named(d));
            assert(board.sessions[si as int].name == d);
            assert(!board.drilled_session_is_current());
            assert(board.sessions[si as int].tabs[k as int] == t);
            lemma_tab_titled_found(board.sessions[si as int].tabs, name);
        },
        _ => {},
    }
}

/// The first `p` on an unpinned tab: the board with the new pin, its cursor
/// on the new pin's card.
#[verifier::spinoff_prover]
#[verifier::rlimit(100)]
proof fn lemma_first_press(board: BoardModel) -> (istar: int)
    requires
        !board.show_help,
        board.bounded(),
        board.pins.len() < usize::MAX,
        ({
            let c = board.cursor as int;
            match (board.item_session_name(c), board.session_at(c), board.tab_at(c)) {
                (Some(session), None, Some(t)) => {
                    let name = display_name_spec(t.name@);
                    &&& first_where(board.pins, pin_of(session, name)) is None
                    &&& (BoardModel { pins: board.pins.push(PinModel { session, tab_name: name }), ..board }).item_count() <= usize::MAX
                },
                _ => false,
            }
        }),
    ensures
        ({
            let c = board.cursor as int;
            let session = board.item_session_name(c)->0;
            let name = display_name_spec(board.tab_at(c)->0.name@);
            let pins1 = board.pins.push(PinModel { session, tab_name: name });
            let b1 = BoardModel { cursor: istar as usize, pins: pins1, ..board.clear_prefixes(Key::Pin) };
            &&& 0 <= istar < b1.item_count()
            &&& istar <= usize::MAX
            &&& board.decide(Key::Pin) == (b1.relabeled(), ActionModel::PersistPins)
            &&& b1.item_session_name(istar) == Some(session)
            &&& b1.item_is_pinned(istar)
            &&& b1.session_at(istar) is None
            &&& b1.tab_at(istar) matches Some(tq) && display_name_spec(tq.name@) == name
            &&& first_where(pins1, pin_of(session, name)) == Some(board.pins.len() as int)
        }),
{
    let c = board.cursor as int;
    let m = board.clear_prefixes(Key::Pin);
    lemma_slots_ignore_state(m, board);
    let session = board.item_session_name(c)->0;
    let t = board.tab_at(c)->0;
    let name = display_name_spec(t.name@);
    let pin = PinModel { session, tab_name: name };
    lemma_first_where_found(board.pins, pin_of(session, name));
    assert(!board.item_is_pinned(c)) by {
        if board.item_is_pinned(c) {
            board.lemma_slots_valid();
            let p = board.slots()[c]->Pin_0 as int;
            assert(board.slot_valid(board.slots()[c]));
            let q = board.pins[p];
            assert(board.item_session_name(c) == Some(q.session));
            assert(board.resolve_pin(q) == Some(t));
            if board.current_session_name() == Some(q.session) {
                lemma_tab_titled_found(board.tabs, q.tab_name);
            } else {
                let si = board.session_index(q.session)->0;
                lemma_tab_titled_found(board.sessions[si].tabs, q.tab_name);
            }
            assert(pin_of(session, name)(board.pins[p]));
        }
    }
    lemma_new_pin_shown(board, session, t);
    let pins1 = m.pins.push(pin);
    let b = BoardModel { pins: pins1, ..m };
    assert(m.pin_toggled() == Some(b.reseated(Some(Identity::Pinned { session, name }))));
    assert(b.bounded());
    b.lemma_slots_valid();
    assert(b.resolve_pin(pin) == board.resolve_pin(pin));
    let last = board.pins.len() as int;
    let only = b.drilled;
    assert(b.pin_shown(only, last));
    let front = b.pin_slots(only, last);
    let i0 = front.len() as int;
    assert(b.pin_slots(only, last + 1) == front + seq![Slot::Pin(last as usize)]);
    assert(b.slots()[i0] == Slot::Pin(last as usize)) by {
        match b.drilled {
            Some(d) => {
                assert(b.slots() == b.pin_slots(Some(d), last + 1) + (if b.drilled_session_is_current() {
                    b.live_slots(d, b.tabs.len() as int)
                } else {
                    match b.session_index(d) {
                        None => seq![],
                        Some(si) => b.snap_slots(si, d, b.sessions[si].tabs.len() as int),
                    }
                }));
            },
            None => {},
        }
    }
    if b.current_session_name() == Some(session) {
        lemma_tab_titled_found(b.tabs, name);
    } else {
        lemma_tab_titled_found(b.sessions[b.session_index(session)->0].tabs, name);
    }
    assert(b.pinned_titled(session, name)(i0));
    lemma_first_index_found(b.item_count(), b.pinned_titled(session, name));
    let istar = b.index_of(Identity::Pinned { session, name })->0;
    assert(b.pinned_titled(session, name)(istar));
    lemma_slots_ignore_state(b, BoardModel { pins: pins1, ..board });
    let p = b.slots()[istar]->Pin_0 as int;
    assert(b.slot_valid(b.slots()[istar]));
    let q = b.pins[p];
    let tq = b.tab_at(istar)->0;
    assert(b.resolve_pin(q) == Some(tq));
    if b.current_session_name() == Some(q.session) {
        lemma_tab_titled_found(b.tabs, q.tab_name);
    } else {
        lemma_tab_titled_found(b.sessions[b.session_index(q.session)->0].tabs, q.tab_name);
    }
    assert(q == pin);
    assert(p == last) by {
        if p < last {
            assert(pins1[p] == board.pins[p]);
            assert(pin_of(session, name)(board.pins[p]));
        }
    }
    lemma_first_where(pins1, pin_of(session, name), last);
    let b1 = BoardModel { cursor: istar as usize, ..b };
    assert(b.reseated(Some(Identity::Pinned { session, name })) == b1);
    lemma_slots_ignore_state(b1, b);
    assert(board.decide(Key::Pin) == (b1.relabeled(), ActionModel::PersistPins));
    istar
}

/// `p` twice on a tab that no pin names leaves the pins as they were: the
/// first press pins the tab and puts the cursor on its new pin card, among
/// the pinned cards at the front, and the second unpins it.
#[verifier::spinoff_prover]
#[verifier::rlimit(100)]
pub proof fn law_p_twice_unpins(board: BoardModel)
    requires
        !board.show_help,
        board.bounded(),
        board.pins.len() < usize::MAX,
        ({
            let c = board.cursor as int;
            match (board.item_session_name(c), board.session_at(c), board.tab_at(c)) {
                (Some(session), None, Some(t)) => {
                    let name = display_name_spec(t.name@);
                    &&& first_where(board.pins, pin_of(session, name)) is None
                    &&& (BoardModel { pins: board.pins.push(PinModel { session, tab_name: name }), ..board }).item_count() <= usize::MAX
                },
                _ => false,
            }
        }),
    ensures
        board.decide(Key::Pin).1 == ActionModel::PersistPins,
        board.decide(Key::Pin).0.item_is_pinned(board.decide(Key::Pin).0.cursor as int),
        board.decide(Key::Pin).0.cursor < board.decide(Key::Pin).0.pin_count(),
        board.decide(Key::Pin).0.decide(Key::Pin).1 == ActionModel::PersistPins,
        board.decide(Key::Pin).0.decide(Key::Pin).0.pins == board.pins,
{
    let istar = lemma_first_press(board);
    let c = board.cursor as int;
    let session = board.item_session_name(c)->0;
    let name = display_name_spec(board.tab_at(c)->0.name@);
    let pins1 = board.pins.push(PinModel { session, tab_name: name });
    let b1 = BoardModel { cursor: istar as usize, pins: pins1, ..board.clear_prefixes(Key::Pin) };
    let first = b1.relabeled();
    lemma_views_keep_pins(b1, 0, crate::board::ScrollAlignment::Top);
    lemma_slots_ignore_state(first, b1);
    law_pin_count_counts_the_pin_cards(first);
    assert(first.item_is_pinned(istar));
    let m2 = first.clear_prefixes(Key::Pin);
    lemma_slots_ignore_state(m2, b1);
    assert(m2.cursor as int == istar);
    let last = board.pins.len() as int;
    assert(pins1.remove(last) =~= board.pins);
    let unpinned = BoardModel { pins: board.pins, ..m2 };
    assert(m2.pin_toggled() == Some(unpinned.reseated(Some(Identity::Pinned { session, name }))));
    lemma_views_keep_pins(unpinned, 0, crate::board::ScrollAlignment::Top);
    lemma_views_keep_pins(unpinned.reseated(Some(Identity::Pinned { session, name })), 0, crate::board::ScrollAlignment::Top);
}

proof fn lemma_labels_starting_none(labels: Seq<Option<Seq<char>>>, prefix: Seq<char>, n: int)
    requires
        forall|j: int| 0 <= j < n ==> !(#[trigger] labels[j] matches Some(l) && prefix.is_prefix_of(l)),
    ensures
        labels_starting(labels, prefix, n) == Seq::<int>::empty(),
    decreases n,
{
    if n > 0 {
        lemma_labels_starting_none(labels, prefix, n - 1);
        assert(!(labels[n - 1] matches Some(l) && prefix.is_prefix_of(l)));
        assert(labels_starting(labels, prefix, n) =~= Seq::<int>::empty());
    }
}

proof fn lemma_labels_starting_only(labels: Seq<Option<Seq<char>>>, prefix: Seq<char>, n: int, index: int)
    requires
        0 <= index < n,
        forall|j: int| 0 <= j < n ==> ((#[trigger] labels[j] matches Some(l) && prefix.is_prefix_of(l)) <==> j == index),
    ensures
        labels_starting(labels, prefix, n) == seq![index],
    decreases n,
{
    if n - 1 == index {
        lemma_labels_starting_none(labels, prefix, n - 1);
        assert(labels[n - 1] matches Some(l) && prefix.is_prefix_of(l));
        assert(labels_starting(labels, prefix, n) =~= seq![index]);
    } else {
        lemma_labels_starting_only(labels, prefix, n - 1, index);
        assert(!(labels[n - 1] matches Some(l) && prefix.is_prefix_of(l)));
        assert(labels_starting(labels, prefix, n) =~= seq![index]);
    }
}

/// In Flash search, typing the letter that completes a card's tip opens
/// that card at once, without Enter: a session card opens its board, a
/// tab is jumped to. The board's tips are the ones its query gives.
pub proof fn law_typing_a_tip_opens_its_card(board: BoardModel, index: int, typed: char)
    requires
        !board.show_help,
        board.labels_computable(),
        board.item_count() <= usize::MAX,
        board.hint is Some,
        board.relabeled().hint == board.hint,
        board.hint->0.query.len() > 0,
        0 <= index < board.hint->0.labels.len(),
        board.hint->0.labels[index] == Some(board.hint->0.jump_prefix.push(ascii_lower(typed))),
    ensures
        board.decide(Key::Input(typed)) == board.clear_prefixes(Key::Input(typed)).commit_index(index),
{
    let h = board.hint->0;
    let prefix = h.jump_prefix.push(ascii_lower(typed));
    law_cards_get_distinct_tips(board);
    let labels = h.labels;
    assert forall|j: int| 0 <= j < labels.len() implies ((#[trigger] labels[j] matches Some(l) && prefix.is_prefix_of(l)) <==> j == index) by {
        if labels[j] matches Some(l) && prefix.is_prefix_of(l) {
            let l = labels[j]->0;
            assert(l.len() == prefix.len());
            assert(l =~= prefix);
            if j < index {
                assert(labels[j] != labels[index]);
            } else if j > index {
                assert(labels[index] != labels[j]);
            }
        }
        if j == index {
            assert(prefix.is_prefix_of(prefix));
        }
    }
    lemma_labels_starting_only(labels, prefix, labels.len() as int, index);
    let m = board.clear_prefixes(Key::Input(typed));
    assert(m.hint == board.hint);
}

proof fn lemma_pin_slots_of(board: BoardModel, only: Option<Seq<char>>, n: int)
    requires
        n <= board.pins.len() <= usize::MAX,
    ensures
        forall|i: int|
            0 <= i < board.pin_slots(only, n).len() ==> (#[trigger] board.pin_slots(only, n)[i] matches Slot::Pin(p) && (
            p as int) < n && match only {
                Some(d) => board.pins[p as int].session == d,
                None => true,
            }),
    decreases n,
{
    if n > 0 {
        lemma_pin_slots_of(board, only, n - 1);
        let front = board.pin_slots(only, n - 1);
        let all = board.pin_slots(only, n);
        assert forall|i: int| 0 <= i < all.len() implies (#[trigger] all[i] matches Slot::Pin(p) && (p as int) < n && match only {
            Some(d) => board.pins[p as int].session == d,
            None => true,
        }) by {
            if i < front.len() {
                assert(all[i] == front[i]);
            } else {
                assert(board.pin_shown(only, n - 1));
                assert(all[i] == Slot::Pin((n - 1) as usize));
            }
        }
    }
}

/// A session's board shows that session alone: no session cards, and only
/// its own pins and tabs.
pub proof fn law_session_board_shows_only_its_own(board: BoardModel)
    requires
        board.bounded(),
        board.drilled is Some,
    ensures
        forall|i: int| 0 <= i < board.item_count() ==> !#[trigger] board.item_is_session(i),
        forall|i: int| 0 <= i < board.item_count() ==> #[trigger] board.item_session_name(i) == board.drilled,
{
    let d = board.drilled->0;
    let slots = board.slots();
    board.lemma_slots_valid();
    lemma_slot_kinds(board);
    let pins = board.pin_slots(Some(d), board.pins.len() as int);
    lemma_pin_slots_of(board, Some(d), board.pins.len() as int);
    let rest = if board.drilled_session_is_current() {
        board.live_slots(d, board.tabs.len() as int)
    } else {
        match board.session_index(d) {
            None => seq![],
            Some(si) => board.snap_slots(si, d, board.sessions[si].tabs.len() as int),
        }
    };
    if board.drilled_session_is_current() {
        lemma_live_slots_kind(board, d, board.tabs.len() as int);
    } else {
        match board.session_index(d) {
            None => {},
            Some(si) => {
                lemma_snap_slots_kind(board, si, d, board.sessions[si].tabs.len() as int);
                crate::search::lemma_first_where_found(board.sessions, session_named(d));
            },
        }
    }
    assert(slots == pins + rest);
    assert forall|i: int| 0 <= i < board.item_count() implies !#[trigger] board.item_is_session(i) && board.item_session_name(i) == board.drilled by {
        if i < pins.len() {
            assert(slots[i] == pins[i]);
        } else {
            assert(slots[i] == rest[i - pins.len()]);
        }
    }
}

proof fn lemma_pin_slots_len(board: BoardModel, only: Option<Seq<char>>, n: int)
    requires
        0 <= n,
    ensures
        board.pin_slots(only, n).len() <= n,
    decreases n,
{
    if n > 0 {
        lemma_pin_slots_len(board, only, n - 1);
    }
}

/// The cards split into the pins, then the rest: `k` cards, at most one
/// per pin, are pins, and no card after them is.
proof fn lemma_slots_split(board: BoardModel) -> (k: int)
    ensures
        0 <= k <= board.slots().len(),
        k <= board.pins.len(),
        forall|i: int| 0 <= i < board.slots().len() ==> ((#[trigger] board.slots()[i]) is Pin <==> i < k),
{
    let slots = board.slots();
    let only = match board.drilled {
        Some(d) => Some(d),
        None => None::<Seq<char>>,
    };
    let pins = board.pin_slots(only, board.pins.len() as int);
    lemma_pin_slots_kind(board, only, board.pins.len() as int);
    lemma_pin_slots_len(board, only, board.pins.len() as int);
    let rest = slots.skip(pins.len() as int);
    match board.drilled {
        Some(name) => {
            let r = if board.drilled_session_is_current() {
                board.live_slots(name, board.tabs.len() as int)
            } else {
                match board.session_index(name) {
                    None => seq![],
                    Some(si) => board.snap_slots(si, name, board.sessions[si].tabs.len() as int),
                }
            };
            if board.drilled_session_is_current() {
                lemma_live_slots_kind(board, name, board.tabs.len() as int);
            } else {
                match board.session_index(name) {
                    None => {},
                    Some(si) => lemma_snap_slots_kind(board, si, name, board.sessions[si].tabs.len() as int),
                }
            }
            assert(slots == pins + r);
            assert forall|i: int| 0 <= i < slots.len() implies ((#[trigger] slots[i]) is Pin <==> i < pins.len()) by {
                if i < pins.len() {
                    assert(slots[i] == pins[i]);
                } else {
                    assert(slots[i] == r[i - pins.len()]);
                }
            }
        },
        None => {
            let sessions = board.session_slots();
            let current = match board.current_session_name() {
                Some(name) => name,
                None => Seq::<char>::empty(),
            };
            let tabs = board.live_slots(current, board.tabs.len() as int);
            lemma_session_slots_kind(board, board.sessions.len() as int);
            lemma_live_slots_kind(board, current, board.tabs.len() as int);
            assert(slots == pins + sessions + tabs);
            assert forall|i: int| 0 <= i < slots.len() implies ((#[trigger] slots[i]) is Pin <==> i < pins.len()) by {
                if i < pins.len() {
                    assert(slots[i] == pins[i]);
                } else if i < pins.len() + sessions.len() {
                    assert(slots[i] == sessions[i - pins.len()]);
                } else {
                    assert(slots[i] == tabs[i - pins.len() - sessions.len()]);
                }
            }
        },
    }
    pins.len() as int
}

/// Exactly the first `pin_count` cards are pins, and there are never more
/// pin cards than pins.
pub proof fn law_pin_count_counts_the_pin_cards(board: BoardModel)
    ensures
        0 <= board.pin_count() <= board.pins.len(),
        board.pin_count() <= board.item_count(),
        forall|i: int| 0 <= i < board.item_count() ==> (#[trigger] board.item_is_pinned(i) <==> i < board.pin_count()),
{
    let k = lemma_slots_split(board);
    let slots = board.slots();
    lemma_first_where_found(slots, not_pin());
    match first_where(slots, not_pin()) {
        Some(j) => {
            assert(!(slots[j] is Pin));
            if j < k {
                assert(slots[j] is Pin);
            }
            if k < j {
                assert(not_pin()(slots[k]) == false);
            }
        },
        None => {
            if k < slots.len() {
                assert(!not_pin()(slots[k]));
            }
        },
    }
}

/// Whether a pin still stands for a tab the board knows.
pub open spec fn pin_alive(board: BoardModel) -> spec_fn(PinModel) -> bool {
    |p: PinModel| !board.pin_is_dead(p)
}

proof fn lemma_live_pins_filter(board: BoardModel, n: int)
    requires
        0 <= n <= board.pins.len(),
    ensures
        board.live_pins(n) == board.pins.take(n).filter(pin_alive(board)),
    decreases n,
{
    reveal(Seq::filter);
    if n > 0 {
        lemma_live_pins_filter(board, n - 1);
        assert(board.pins.take(n).drop_last() =~= board.pins.take(n - 1));
        assert(board.pins.take(n).last() == board.pins[n - 1]);
        assert(board.live_pins(n) =~= board.pins.take(n).filter(pin_alive(board)));
    } else {
        assert(board.pins.take(0) =~= Seq::<PinModel>::empty());
    }
}

/// Pruning removes exactly what is gone: the dead pins, in the order the
/// others keep; the last tabs of sessions that no longer have them; and the
/// left session when sessions are known and none but the current one is
/// called so. Each stale flag is raised when its kind lost something, and
/// nothing else on the board changes.
pub proof fn law_pruning_drops_exactly_the_dead(board: BoardModel)
    ensures
        board.pruned().pins == board.pins.filter(pin_alive(board)),
        forall|k: Seq<char>|
            #[trigger] board.pruned().last_tabs.contains_key(k) <==> board.last_tabs.contains_key(k)
                && !board.session_last_is_dead(k, board.last_tabs[k]),
        forall|k: Seq<char>| #[trigger] board.pruned().last_tabs.contains_key(k) ==> board.pruned().last_tabs[k] == board.last_tabs[k],
        board.pruned().previous_session == match board.previous_session {
            Some(name) => if board.sessions.len() != 0 && !(exists|i: int|
                0 <= i < board.sessions.len() && (#[trigger] board.sessions[i]).name == name && !board.sessions[i].current) {
                None
            } else {
                Some(name)
            },
            None => None,
        },
        board.pruned().stale.pins == (board.stale.pins || exists|i: int|
            0 <= i < board.pins.len() && board.pin_is_dead(#[trigger] board.pins[i])),
        board.pruned().stale.session_last == (board.stale.session_last || exists|k: Seq<char>|
            #[trigger] board.last_tabs.contains_key(k) && board.session_last_is_dead(k, board.last_tabs[k])),
        board.pruned().stale.previous == (board.stale.previous || board.pruned().previous_session != board.previous_session),
        board.pruned() == (BoardModel {
            pins: board.pruned().pins,
            last_tabs: board.pruned().last_tabs,
            previous_session: board.pruned().previous_session,
            stale: board.pruned().stale,
            ..board
        }),
{
    lemma_live_pins_filter(board, board.pins.len() as int);
    assert(board.pins.take(board.pins.len() as int) =~= board.pins);
}


/// Sizing never makes tips narrower than the width it starts from.
proof fn lemma_tip_width_grows(count: int, base: int, width: int, capacity: int)
    ensures
        tip_width(count, base, width, capacity) >= width,
    decreases usize::MAX - capacity,
{
    if !(capacity >= count || base < 2 || capacity < 1 || count > usize::MAX) {
        assert(capacity * base >= capacity * 2) by (nonlinear_arith)
            requires
                base >= 2,
                capacity >= 1,
        ;
        assert(sat_mul(capacity, base) > capacity);
        lemma_tip_width_grows(count, base, width + 1, sat_mul(capacity, base));
    }
}

/// Every free letter, typed after the query, would match no title.
proof fn lemma_free_letters_free(board: BoardModel, query: Seq<char>, n: int)
    requires
        0 <= n <= 26,
    ensures
        forall|k: int|
            0 <= k < board.free_letters(query, n).len() ==> !board.any_title_matches(query.push(#[trigger] board.free_letters(query, n)[k])),
    decreases n,
{
    if n > 0 {
        lemma_free_letters_free(board, query, n - 1);
        let front = board.free_letters(query, n - 1);
        let all = board.free_letters(query, n);
        assert forall|k: int| 0 <= k < all.len() implies !board.any_title_matches(query.push(#[trigger] all[k])) by {
            if k < front.len() {
                assert(all[k] == front[k]);
            }
        }
    }
}

/// A card is among the matches exactly when the query is not empty and
/// its title holds the query.
proof fn lemma_hint_match_member(board: BoardModel, query: Seq<char>, n: int, j: int)
    requires
        0 <= j < n,
    ensures
        (exists|t: int| 0 <= t < board.hint_matches(query, n).len() && #[trigger] board.hint_matches(query, n)[t] == j)
            <==> (query.len() > 0 && board.title_matches(j, query)),
    decreases n,
{
    board.lemma_hint_matches_bounds(query, n - 1);
    let front = board.hint_matches(query, n - 1);
    let all = board.hint_matches(query, n);
    if j < n - 1 {
        lemma_hint_match_member(board, query, n - 1, j);
    }
    if exists|t: int| 0 <= t < all.len() && #[trigger] all[t] == j {
        let t = choose|t: int| 0 <= t < all.len() && #[trigger] all[t] == j;
        if t < front.len() {
            assert(all[t] == front[t]);
            assert(0 <= front[t] < n - 1);
        } else {
            assert(all.len() == front.len() + 1);
        }
    }
    if query.len() > 0 && board.title_matches(j, query) {
        if j < n - 1 {
            let t = choose|t: int| 0 <= t < front.len() && #[trigger] front[t] == j;
            assert(all[t] == front[t]);
        } else {
            assert(all[front.len() as int] == j);
        }
    }
}

/// Every letter of a tip is a letter of the alphabet it is made of.
proof fn lemma_tip_letters(index: int, width: int, alphabet: Seq<char>)
    requires
        alphabet.len() >= 1,
        width >= 0,
    ensures
        forall|k: int|
            0 <= k < tip(index, width, alphabet).len() ==> exists|p: int| 0 <= p < alphabet.len() && #[trigger] tip(index, width, alphabet)[k] == alphabet[p],
    decreases width,
{
    if width > 0 {
        let b = alphabet.len() as int;
        lemma_tip_letters(index / b, width - 1, alphabet);
        let front = tip(index / b, width - 1, alphabet);
        let all = tip(index, width, alphabet);
        assert(0 <= index % b < b) by (nonlinear_arith)
            requires
                b >= 1,
        ;
        assert forall|k: int| 0 <= k < all.len() implies exists|p: int| 0 <= p < alphabet.len() && #[trigger] all[k] == alphabet[p] by {
            if k < front.len() {
                assert(all[k] == front[k]);
            } else {
                assert(all[k] == alphabet[index % b]);
            }
        }
    }
}

/// In Flash search the tips go to exactly the cards whose titles hold the
/// query, and, when some letter is free, every tip letter is one that typed
/// after the query would match no title.
pub proof fn law_tips_mark_the_matches(board: BoardModel)
    requires
        board.labels_computable(),
        board.item_count() <= usize::MAX,
    ensures
        match board.relabeled().hint {
            Some(h) => {
                &&& h.labels.len() == board.item_count()
                &&& forall|i: int|
                    0 <= i < board.item_count() ==> ((#[trigger] h.labels[i]) is Some <==> (h.query.len() > 0 && board.title_matches(
                        i,
                        h.query,
                    )))
                &&& board.free_letters(h.query, 26).len() > 0 ==> forall|i: int, k: int|
                    #![trigger h.labels[i]->0[k]]
                    0 <= i < h.labels.len() && h.labels[i] is Some && 0 <= k < h.labels[i]->0.len()
                        ==> !board.any_title_matches(h.query.push(h.labels[i]->0[k]))
            },
            None => true,
        },
{
    match board.hint {
        None => {},
        Some(h) => {
            let n = board.item_count();
            let matches = board.hint_matches(h.query, n);
            let letters = board.tip_letters(h.query);
            let m = matches.len() as int;
            let tip_list = tips(m, letters);
            lemma_hint_matches_increase(board, h.query, n);
            board.lemma_hint_matches_bounds(h.query, n);
            lemma_free_letters_free(board, h.query, 26);
            lemma_hint_alphabet_distinct();
            assert(tip_list.len() == m);
            lemma_assign_labels(n, matches, tip_list, m);
            let labels = assign_labels(no_labels(n), matches, tip_list, m);
            assert(board.relabeled().hint == Some(HintModel { labels, ..h }));
            assert forall|i: int| 0 <= i < n implies ((#[trigger] labels[i]) is Some <==> (h.query.len() > 0 && board.title_matches(i, h.query))) by {
                lemma_hint_match_member(board, h.query, n, i);
                if h.query.len() > 0 && board.title_matches(i, h.query) {
                    let t = choose|t: int| 0 <= t < matches.len() && #[trigger] matches[t] == i;
                    assert(labels[matches[t]] == Some(tip_list[t]));
                }
                if labels[i] is Some {
                    let t = choose|t: int| 0 <= t < m && matches[t] == i;
                    assert(0 <= t < matches.len() && matches[t] == i);
                }
            }
            if board.free_letters(h.query, 26).len() > 0 {
                assert(letters == board.free_letters(h.query, 26));
                assert forall|i: int, k: int|
                    #![trigger labels[i]->0[k]]
                    0 <= i < labels.len() && labels[i] is Some && 0 <= k < labels[i]->0.len() implies !board.any_title_matches(
                    h.query.push(labels[i]->0[k])) by {
                    let t = choose|t: int| 0 <= t < m && matches[t] == i;
                    assert(labels[matches[t]] == Some(tip_list[t]));
                    let w = tip_width(m, letters.len() as int, 1, letters.len() as int);
                    assert(tip_list[t] == tip(t, w, letters));
                    lemma_tip_width_grows(m, letters.len() as int, 1, letters.len() as int);
                    lemma_tip_letters(t, w, letters);
                    let p = choose|p: int| 0 <= p < letters.len() && tip(t, w, letters)[k] == letters[p];
                    assert(!board.any_title_matches(h.query.push(letters[p])));
                }
            }
        },
    }
}


/// What the card of `slot` is titled.
pub open spec fn slot_title(board: BoardModel, slot: Slot) -> Seq<char> {
    match slot {
        Slot::Pin(p) => match board.resolve_pin(board.pins[p as int]) {
            Some(t) => display_name_spec(t.name@),
            None => seq![],
        },
        Slot::Session(s) => board.sessions[s as int].name,
        Slot::LiveTab(t) => display_name_spec(board.tabs[t as int].name@),
        Slot::SnapTab { session, tab } => display_name_spec(board.sessions[session as int].tabs[tab as int].name@),
    }
}

/// Whether a pin stands for a tab the board shows.
pub open spec fn pin_resolves(board: BoardModel) -> spec_fn(PinModel) -> bool {
    |p: PinModel| board.resolve_pin(p) is Some
}

/// Whether a session keeps its card on the home board.
pub open spec fn session_kept(board: BoardModel) -> spec_fn(SessionModel) -> bool {
    |s: SessionModel| board.folded_session() != Some(s.name)
}

/// Whether a tab of `session` is shown as a card of its own, not pinned.
pub open spec fn tab_unpinned(board: BoardModel, session: Seq<char>) -> spec_fn(TabFact) -> bool {
    |t: TabFact| !board.is_pinned_name(session, display_name_spec(t.name@))
}

/// The titles of the home board, in order: the pins that stand for a tab,
/// by pin order; then the sessions but the folded one, by session order;
/// then the current session's tabs that are not pinned, by position.
pub open spec fn home_titles(board: BoardModel) -> Seq<Seq<char>> {
    let current = match board.current_session_name() {
        Some(name) => name,
        None => Seq::<char>::empty(),
    };
    board.pins.filter(pin_resolves(board)).map_values(|p: PinModel| p.tab_name) + board.sessions.filter(
        session_kept(board),
    ).map_values(|s: SessionModel| s.name) + board.tabs.filter(tab_unpinned(board, current)).map_values(
        |t: TabFact| display_name_spec(t.name@),
    )
}

proof fn lemma_map_concat<A, B>(a: Seq<A>, b: Seq<A>, f: spec_fn(A) -> B)
    ensures
        (a + b).map_values(f) == a.map_values(f) + b.map_values(f),
{
    assert((a + b).map_values(f) =~= a.map_values(f) + b.map_values(f));
}

/// Every pin card on the board stands for a tab.
proof fn lemma_pin_slots_resolve(board: BoardModel, only: Option<Seq<char>>, n: int)
    requires
        0 <= n <= board.pins.len() <= usize::MAX,
    ensures
        forall|i: int|
            0 <= i < board.pin_slots(only, n).len() ==> (#[trigger] board.pin_slots(only, n)[i] matches Slot::Pin(p)
                && board.resolve_pin(board.pins[p as int]) is Some),
    decreases n,
{
    if n > 0 {
        lemma_pin_slots_resolve(board, only, n - 1);
        let front = board.pin_slots(only, n - 1);
        let all = board.pin_slots(only, n);
        assert forall|i: int| 0 <= i < all.len() implies (#[trigger] all[i] matches Slot::Pin(p) && board.resolve_pin(
            board.pins[p as int],
        ) is Some) by {
            if i < front.len() {
                assert(all[i] == front[i]);
            } else {
                assert(all[i] == Slot::Pin((n - 1) as usize));
            }
        }
    }
}

/// A pin that stands for a tab is titled by the pin's tab name.
proof fn lemma_resolved_title(board: BoardModel, p: PinModel)
    requires
        board.resolve_pin(p) is Some,
    ensures
        display_name_spec(board.resolve_pin(p)->0.name@) == p.tab_name,
{
    if board.current_session_name() == Some(p.session) {
        lemma_first_where_found(board.tabs, tab_titled_as(p.tab_name));
    } else {
        let si = board.session_index(p.session)->0;
        lemma_first_where_found(board.sessions[si].tabs, tab_titled_as(p.tab_name));
    }
}

proof fn lemma_take_filter<A>(s: Seq<A>, f: spec_fn(A) -> bool, n: int)
    requires
        0 < n <= s.len(),
    ensures
        s.take(n).filter(f) == s.take(n - 1).filter(f) + if f(s[n - 1]) {
            seq![s[n - 1]]
        } else {
            seq![]
        },
{
    reveal(Seq::filter);
    assert(s.take(n).drop_last() =~= s.take(n - 1));
    assert(s.take(n).last() == s[n - 1]);
    if f(s[n - 1]) {
        assert(s.take(n).filter(f) =~= s.take(n - 1).filter(f) + seq![s[n - 1]]);
    } else {
        assert(s.take(n).filter(f) =~= s.take(n - 1).filter(f) + seq![]);
    }
}

proof fn lemma_pin_titles(board: BoardModel, n: int)
    requires
        0 <= n <= board.pins.len() <= usize::MAX,
    ensures
        board.pin_slots(None, n).map_values(|s: Slot| slot_title(board, s)) == board.pins.take(n).filter(pin_resolves(board)).map_values(
            |p: PinModel| p.tab_name,
        ),
    decreases n,
{
    if n > 0 {
        lemma_pin_titles(board, n - 1);
        lemma_take_filter(board.pins, pin_resolves(board), n);
        if board.pin_shown(None, n - 1) {
            lemma_resolved_title(board, board.pins[n - 1]);
        }
        let extra = if board.pin_shown(None, n - 1) {
            seq![Slot::Pin((n - 1) as usize)]
        } else {
            seq![]
        };
        lemma_map_concat(board.pin_slots(None, n - 1), extra, |s: Slot| slot_title(board, s));
        let more = if pin_resolves(board)(board.pins[n - 1]) {
            seq![board.pins[n - 1]]
        } else {
            seq![]
        };
        lemma_map_concat(board.pins.take(n - 1).filter(pin_resolves(board)), more, |p: PinModel| p.tab_name);
        assert(board.pin_slots(None, n).map_values(|s: Slot| slot_title(board, s)) =~= board.pins.take(n).filter(
            pin_resolves(board),
        ).map_values(|p: PinModel| p.tab_name));
    } else {
        assert(board.pins.take(0) =~= Seq::<PinModel>::empty());
        assert(board.pins.take(0).filter(pin_resolves(board)) =~= Seq::<PinModel>::empty()) by {
            reveal(Seq::filter);
        }
    }
}

proof fn lemma_session_titles(board: BoardModel, n: int)
    requires
        0 <= n <= board.sessions.len() <= usize::MAX,
    ensures
        board.session_slots_upto(n).map_values(|s: Slot| slot_title(board, s)) == board.sessions.take(n).filter(
            session_kept(board),
        ).map_values(|s: SessionModel| s.name),
    decreases n,
{
    if n > 0 {
        lemma_session_titles(board, n - 1);
        lemma_take_filter(board.sessions, session_kept(board), n);
        let extra = if board.folded_session() == Some(board.sessions[n - 1].name) {
            seq![]
        } else {
            seq![Slot::Session((n - 1) as usize)]
        };
        lemma_map_concat(board.session_slots_upto(n - 1), extra, |s: Slot| slot_title(board, s));
        let more = if session_kept(board)(board.sessions[n - 1]) {
            seq![board.sessions[n - 1]]
        } else {
            seq![]
        };
        lemma_map_concat(board.sessions.take(n - 1).filter(session_kept(board)), more, |s: SessionModel| s.name);
        assert(board.session_slots_upto(n).map_values(|s: Slot| slot_title(board, s)) =~= board.sessions.take(n).filter(
            session_kept(board),
        ).map_values(|s: SessionModel| s.name));
    } else {
        assert(board.sessions.take(0) =~= Seq::<SessionModel>::empty());
        assert(board.sessions.take(0).filter(session_kept(board)) =~= Seq::<SessionModel>::empty()) by {
            reveal(Seq::filter);
        }
    }
}

proof fn lemma_tab_titles(board: BoardModel, session: Seq<char>, n: int)
    requires
        0 <= n <= board.tabs.len() <= usize::MAX,
    ensures
        board.live_slots(session, n).map_values(|s: Slot| slot_title(board, s)) == board.tabs.take(n).filter(
            tab_unpinned(board, session),
        ).map_values(|t: TabFact| display_name_spec(t.name@)),
    decreases n,
{
    if n > 0 {
        lemma_tab_titles(board, session, n - 1);
        lemma_take_filter(board.tabs, tab_unpinned(board, session), n);
        let extra = if !board.is_pinned_name(session, display_name_spec(board.tabs[n - 1].name@)) {
            seq![Slot::LiveTab((n - 1) as usize)]
        } else {
            seq![]
        };
        lemma_map_concat(board.live_slots(session, n - 1), extra, |s: Slot| slot_title(board, s));
        let more = if tab_unpinned(board, session)(board.tabs[n - 1]) {
            seq![board.tabs[n - 1]]
        } else {
            seq![]
        };
        lemma_map_concat(board.tabs.take(n - 1).filter(tab_unpinned(board, session)), more, |t: TabFact| display_name_spec(t.name@));
        assert(board.live_slots(session, n).map_values(|s: Slot| slot_title(board, s)) =~= board.tabs.take(n).filter(
            tab_unpinned(board, session),
        ).map_values(|t: TabFact| display_name_spec(t.name@)));
    } else {
        assert(board.tabs.take(0) =~= Seq::<TabFact>::empty());
        assert(board.tabs.take(0).filter(tab_unpinned(board, session)) =~= Seq::<TabFact>::empty()) by {
            reveal(Seq::filter);
        }
    }
}

/// The home board lists, card by card: the tab names of the pins that
/// stand for a tab, in pin order; then the sessions in their order, less
/// the left session when the pin of its last tab stands in for it; then the
/// current session's tabs that are not pinned, by position.
pub proof fn law_home_board_lists_pins_sessions_then_tabs(board: BoardModel)
    requires
        board.bounded(),
        board.drilled is None,
    ensures
        board.item_count() == home_titles(board).len(),
        forall|i: int| 0 <= i < board.item_count() ==> #[trigger] board.item_title(i) == Some(home_titles(board)[i]),
{
    let current = match board.current_session_name() {
        Some(name) => name,
        None => Seq::<char>::empty(),
    };
    let slots = board.slots();
    board.lemma_slots_valid();
    lemma_pin_titles(board, board.pins.len() as int);
    lemma_session_titles(board, board.sessions.len() as int);
    lemma_tab_titles(board, current, board.tabs.len() as int);
    lemma_pin_slots_resolve(board, None, board.pins.len() as int);
    lemma_session_slots_kind(board, board.sessions.len() as int);
    lemma_live_slots_kind(board, current, board.tabs.len() as int);
    let pin_part = board.pin_slots(None, board.pins.len() as int);
    let session_part = board.session_slots();
    let tab_part = board.live_slots(current, board.tabs.len() as int);
    assert(slots == pin_part + session_part + tab_part);
    lemma_map_concat(pin_part, session_part, |s: Slot| slot_title(board, s));
    lemma_map_concat(pin_part + session_part, tab_part, |s: Slot| slot_title(board, s));
    assert(board.pins.take(board.pins.len() as int) =~= board.pins);
    assert(board.sessions.take(board.sessions.len() as int) =~= board.sessions);
    assert(board.tabs.take(board.tabs.len() as int) =~= board.tabs);
    let titles = slots.map_values(|s: Slot| slot_title(board, s));
    assert(titles =~= home_titles(board));
    assert forall|i: int| 0 <= i < board.item_count() implies #[trigger] board.item_title(i) == Some(home_titles(board)[i]) by {
        assert(board.slot_valid(slots[i]));
        assert(titles[i] == slot_title(board, slots[i]));
        if i < pin_part.len() {
            assert(slots[i] == pin_part[i]);
        }
    }
}


/// The board's band ends already lie inside the board, once each and in
/// increasing order.
proof fn lemma_band_ends_normalized(board: BoardModel)
    requires
        board.item_count() <= usize::MAX,
    ensures
        normalized_splits_of(board.band_ends(), board.band_ends(), board.item_count()),
{
    law_pin_count_counts_the_pin_cards(board);
    let total = board.item_count();
    let pins = board.pin_count();
    let shown = board.session_slots().len();
    let first = if pins > 0 && pins < total {
        seq![pins as usize]
    } else {
        seq![]
    };
    let second = if board.drilled is None && shown > 0 && pins + shown < total {
        seq![(pins + shown) as usize]
    } else {
        seq![]
    };
    let ends = board.band_ends();
    assert(ends == first + second);
    assert forall|i: int| 0 <= i < ends.len() implies 0 < #[trigger] ends[i] < total by {
        if i < first.len() {
            assert(ends[i] == first[i]);
        } else {
            assert(ends[i] == second[i - first.len()]);
        }
    }
    assert forall|v: usize| #[trigger] ends.contains(v) implies 0 < v < total by {
        let i = choose|i: int| 0 <= i < ends.len() && ends[i] == v;
        assert(0 < ends[i] < total);
    }
    assert(strictly_increasing(ends)) by {
        assert forall|i: int, j: int| 0 <= i < j < ends.len() implies ends[i] < ends[j] by {
            assert(i == 0 && j == 1);
            assert(ends[0] == first[0]);
            assert(ends[1] == second[0]);
        }
    }
}

/// `j`, `k` and `gg` keep the cursor on a card; `k` on the first card
/// stays there, and so does `j` on the last card once the board has room to
/// lay out its cards.
pub proof fn law_row_steps_stay_on_the_board(board: BoardModel, key: Key)
    requires
        !board.show_help,
        board.cursor < board.item_count() <= usize::MAX,
        key == Key::Up || key == Key::Down || key == Key::GoPrefix,
    ensures
        board.decide(key).0.cursor < board.item_count(),
        board.decide(key).1 == ActionModel::Noop,
        board.cursor == 0 && key == Key::Up ==> board.decide(key).0.cursor == 0,
        board.cursor == board.item_count() - 1 && key == Key::Down && board.content_area().width > 0
            && board.content_area().height > 0 ==> board.decide(key).0.cursor == board.item_count() - 1,
{
    let m = board.clear_prefixes(key);
    let plan = board.current_layout_plan();
    law_plan_counts_every_card(board.item_widths(), board.content_area(), board.scroll_offset as int, board.band_ends());
    lemma_band_ends_normalized(board);
    assert(normalized_splits_of(board.band_ends(), board.band_ends(), board.item_widths().len() as int));
    lemma_plan_cards_on_board(board.item_widths(), board.content_area(), board.scroll_offset as int, board.band_ends());
    lemma_step_up_from_first(board.item_widths(), board.content_area(), board.scroll_offset as int, board.band_ends());
    if board.content_area().width > 0 && board.content_area().height > 0 {
        lemma_step_down_from_last(board.item_widths(), board.content_area(), board.scroll_offset as int, board.band_ends());
    }
    assert(m.item_count() == board.item_count()) by {
        lemma_slots_ignore_state(m, board);
    }
    if plan.tab_count > 0 {
        law_vertical_steps_stay_on_the_board(plan, m.cursor as int, -1);
        law_vertical_steps_stay_on_the_board(plan, m.cursor as int, 1);
    }
    let stepped = m.key_step(key, plan, key == Key::GoPrefix && board.pending_g, board.pending_z).0;
    assert(stepped.item_count() == board.item_count()) by {
        lemma_slots_ignore_state(stepped, board);
    }
    let fin = stepped.ensure_visible(stepped.cursor as int);
    assert(fin.cursor == stepped.cursor);
}

/// No move wraps around: from the first card `h`, `ctrl-u` and `ctrl-b`
/// stay on it, and from the last card `ctrl-d`, `ctrl-f` and `G` stay on
/// it, as does `l` once the board has room to lay out its cards.
pub proof fn law_moves_do_not_wrap(board: BoardModel, key: Key)
    requires
        !board.show_help,
        0 < board.item_count() <= usize::MAX,
        key == Key::Left || key == Key::Right || key == Key::HalfPageDown || key == Key::HalfPageUp || key == Key::PageDown
            || key == Key::PageUp || key == Key::Last,
    ensures
        board.cursor == 0 && (key == Key::Left || key == Key::HalfPageUp || key == Key::PageUp) ==> board.decide(key).0.cursor == 0,
        board.cursor == board.item_count() - 1 && (key == Key::HalfPageDown || key == Key::PageDown || key == Key::Last)
            ==> board.decide(key).0.cursor == board.item_count() - 1,
        board.cursor == board.item_count() - 1 && key == Key::Right && board.content_area().width > 0
            && board.content_area().height > 0 ==> board.decide(key).0.cursor == board.item_count() - 1,
{
    let m = board.clear_prefixes(key);
    let plan = board.current_layout_plan();
    law_plan_counts_every_card(board.item_widths(), board.content_area(), board.scroll_offset as int, board.band_ends());
    assert(m.item_count() == board.item_count()) by {
        lemma_slots_ignore_state(m, board);
    }
    let stepped = m.key_step(key, plan, false, board.pending_z).0;
    assert(stepped.item_count() == board.item_count()) by {
        lemma_slots_ignore_state(stepped, board);
    }
    let fin = stepped.ensure_visible(stepped.cursor as int);
    assert(fin.cursor == stepped.cursor);
}


/// Moving the view changes nothing about the cards: their widths and bands
/// are those of the board before.
proof fn lemma_cards_ignore_offset(board: BoardModel, offset: usize)
    ensures
        (BoardModel { scroll_offset: offset, ..board }).item_widths() == board.item_widths(),
        (BoardModel { scroll_offset: offset, ..board }).band_ends() == board.band_ends(),
        (BoardModel { scroll_offset: offset, ..board }).content_area() == board.content_area(),
{
    let a = BoardModel { scroll_offset: offset, ..board };
    lemma_slots_ignore_state(a, board);
    assert(a.folded_session() == board.folded_session()) by {
        lemma_pin_slots_same(a, board, None, a.pins.len() as int);
        if let Some(name) = a.other_previous_session() {
            let pins = a.pin_slots(None, a.pins.len() as int);
            assert forall|i: int| 0 <= i < pins.len() implies a.is_last_tab_pin(name, pins[i]) == board.is_last_tab_pin(name, pins[i]) by {
            }
        }
    }
    lemma_session_slots_same(a, board, a.sessions.len() as int);
    assert forall|session: Seq<char>, position: usize| #[trigger] a.pinned_at(session, position) =~= board.pinned_at(session, position) by {
    }
    assert forall|i: int| 0 <= i < a.item_count() implies #[trigger] a.item_width(i) == board.item_width(i) by {
        if let Some(name) = a.other_previous_session() {
            if a.last_tabs.contains_key(name) {
                assert(a.pinned_at(name, a.last_tabs[name]) =~= board.pinned_at(name, a.last_tabs[name]));
            }
        }
    }
    assert(a.item_widths() =~= board.item_widths());
}

/// The view follows the cursor: once the view follows card `index`, that
/// card is in view. In the card grid every card is always in view; in the
/// scrolling column the card is in view unless a separator line runs
/// between the first card in view and it.
pub proof fn law_view_follows_the_card(board: BoardModel, index: int)
    requires
        0 <= index < board.item_count() <= usize::MAX,
        board.content_area().width > 0,
        board.content_area().height > 0,
    ensures
        ({
            let plan = board.ensure_visible(index).current_layout_plan();
            plan.mode != LayoutMode::Scroll || no_band_end_between(board.band_ends(), plan.first_visible as int, index)
                ==> plan.first_visible <= index < plan.visible_end()
        }),
{
    let after = board.ensure_visible(index);
    let old_plan = board.current_layout_plan();
    let plan = after.current_layout_plan();
    let widths = board.item_widths();
    let area = board.content_area();
    let ends = board.band_ends();
    let n = board.item_count();
    assert(after == BoardModel { scroll_offset: after.scroll_offset, ..board });
    lemma_cards_ignore_offset(board, after.scroll_offset);
    assert(area.y == 0);
    lemma_band_ends_normalized(board);
    assert(normalized_splits_of(ends, ends, widths.len() as int));
    lemma_plan_view(widths, area, board.scroll_offset as int, after.scroll_offset as int, ends);
    lemma_plan_view(widths, area, after.scroll_offset as int, board.scroll_offset as int, ends);
    if old_plan.mode == LayoutMode::Scroll {
        let f = old_plan.first_visible as int;
        assert(no_band_end_between(ends, f, f));
        assert(f < f + old_plan.visible_count);
        assert(no_band_end_between(ends, index, index));
    }
}

/// After a move the cursor's card is in view: always in the card grid, and
/// in the scrolling column unless a separator line runs between the first
/// card in view and it.
#[verifier::rlimit(60)]
pub proof fn law_moves_keep_the_cursor_in_view(board: BoardModel, key: Key)
    requires
        !board.show_help,
        board.cursor < board.item_count() <= usize::MAX,
        board.content_area().width > 0,
        board.content_area().height > 0,
        key == Key::Left || key == Key::Right || key == Key::Up || key == Key::Down || key == Key::HalfPageDown || key
            == Key::HalfPageUp || key == Key::PageDown || key == Key::PageUp || key == Key::Last || key == Key::GoPrefix,
    ensures
        ({
            let after = board.decide(key).0;
            let plan = after.current_layout_plan();
            plan.mode != LayoutMode::Scroll || no_band_end_between(after.band_ends(), plan.first_visible as int, after.cursor as int)
                ==> plan.first_visible <= after.cursor < plan.visible_end()
        }),
{
    if key == Key::Up || key == Key::Down || key == Key::GoPrefix {
        law_row_steps_stay_on_the_board(board, key);
    } else {
        law_moves_stay_on_the_board(board, key);
    }
    let plan = board.current_layout_plan();
    let m = board.clear_prefixes(key).key_step(key, plan, key == Key::GoPrefix && board.pending_g, board.pending_z).0;
    assert(m.item_count() == board.item_count()) by {
        lemma_slots_ignore_state(m, board);
    }
    let after = m.ensure_visible(m.cursor as int);
    assert(board.decide(key).0 == after);
    assert(after == BoardModel { scroll_offset: after.scroll_offset, ..m });
    lemma_cards_ignore_offset(m, after.scroll_offset);
    law_view_follows_the_card(m, m.cursor as int);
}


/// Whether Flash search's tips are the ones its query gives on the cards
/// the board shows now: every match carries its tip and nothing else does.
pub open spec fn tips_current(board: BoardModel) -> bool {
    board.hint is Some ==> board.labels_computable() && board.relabeled() == board
}

/// Whether two boards show the same cards: the lists the cards come from agree.
pub open spec fn same_cards(a: BoardModel, b: BoardModel) -> bool {
    &&& a.tabs == b.tabs
    &&& a.sessions == b.sessions
    &&& a.drilled == b.drilled
    &&& a.pins == b.pins
    &&& a.previous_session == b.previous_session
    &&& a.last_tabs == b.last_tabs
}

proof fn lemma_same_titles(a: BoardModel, b: BoardModel)
    requires
        same_cards(a, b),
    ensures
        a.item_count() == b.item_count(),
        forall|i: int| #[trigger] a.item_title(i) == b.item_title(i),
{
    lemma_slots_ignore_state(a, b);
    assert forall|i: int| #[trigger] a.item_title(i) == b.item_title(i) by {
        assert(a.slot(i) == b.slot(i));
    }
}

proof fn lemma_same_matches(a: BoardModel, b: BoardModel, query: Seq<char>, n: int)
    requires
        a.item_count() == b.item_count(),
        forall|i: int| #[trigger] a.item_title(i) == b.item_title(i),
    ensures
        a.hint_matches(query, n) == b.hint_matches(query, n),
    decreases n,
{
    if n > 0 {
        lemma_same_matches(a, b, query, n - 1);
        assert(a.title_matches(n - 1, query) == b.title_matches(n - 1, query)) by {
            assert(a.item_title(n - 1) == b.item_title(n - 1));
        }
    }
}

proof fn lemma_same_free_letters(a: BoardModel, b: BoardModel, query: Seq<char>, n: int)
    requires
        a.item_count() == b.item_count(),
        forall|i: int| #[trigger] a.item_title(i) == b.item_title(i),
    ensures
        a.free_letters(query, n) == b.free_letters(query, n),
    decreases n,
{
    if n > 0 {
        lemma_same_free_letters(a, b, query, n - 1);
        let q = query.push(hint_alphabet()[n - 1]);
        assert(a.any_title_matches(q) == b.any_title_matches(q)) by {
            if a.any_title_matches(q) {
                let i = choose|i: int| 0 <= i < a.item_count() && a.title_matches(i, q);
                assert(a.item_title(i) == b.item_title(i));
                assert(b.title_matches(i, q));
            }
            if b.any_title_matches(q) {
                let i = choose|i: int| 0 <= i < b.item_count() && b.title_matches(i, q);
                assert(a.item_title(i) == b.item_title(i));
                assert(a.title_matches(i, q));
            }
        }
    }
}

/// Boards that show the same cards tip a query alike.
proof fn lemma_same_tips(a: BoardModel, b: BoardModel, query: Seq<char>)
    requires
        same_cards(a, b),
    ensures
        a.item_count() == b.item_count(),
        a.hint_matches(query, a.item_count()) == b.hint_matches(query, b.item_count()),
        a.tip_letters(query) == b.tip_letters(query),
{
    lemma_same_titles(a, b);
    lemma_same_matches(a, b, query, a.item_count());
    lemma_same_free_letters(a, b, query, hint_alphabet().len() as int);
}

/// A board that shows the same cards, with the same query and tips, as a
/// board whose tips are current has current tips too.
proof fn lemma_current_frame(a: BoardModel, b: BoardModel)
    requires
        tips_current(a),
        same_cards(a, b),
        match (a.hint, b.hint) {
            (None, None) => true,
            (Some(ha), Some(hb)) => ha.query == hb.query && ha.labels == hb.labels,
            _ => false,
        },
    ensures
        tips_current(b),
{
    if let Some(hb) = b.hint {
        let ha = a.hint->0;
        lemma_same_tips(a, b, hb.query);
        assert(b.relabeled().hint->0.labels == a.relabeled().hint->0.labels);
        assert(b.relabeled() == b);
    }
}

/// Retipping makes the tips current.
proof fn lemma_relabeled_is_current(m: BoardModel)
    requires
        m.labels_computable(),
    ensures
        tips_current(m.relabeled()),
{
    if let Some(h) = m.hint {
        let r = m.relabeled();
        assert(same_cards(m, r));
        lemma_same_tips(m, r, h.query);
        assert(r.relabeled() == r);
    }
}

proof fn lemma_no_matches_for_empty_query(board: BoardModel, n: int)
    ensures
        board.hint_matches(seq![], n) == Seq::<int>::empty(),
    decreases n,
{
    if n > 0 {
        lemma_no_matches_for_empty_query(board, n - 1);
        assert(board.hint_matches(seq![], n) =~= Seq::<int>::empty());
    }
}

/// Opening a card keeps the tips current: a session's board opens without
/// Flash search, a tab leaves the board as it was.
proof fn lemma_commit_current(m: BoardModel, index: int)
    requires
        tips_current(m),
    ensures
        tips_current(m.commit_index(index).0),
        tips_current(m.commit_previous().0),
{
}

/// Flash search starts with no query and no tips, which are current.
proof fn lemma_start_hint_current(m: BoardModel)
    ensures
        tips_current(
            BoardModel { hint: Some(HintModel { labels: no_labels(m.item_count()), query: seq![], jump_prefix: seq![] }), ..m },
        ),
{
    let s = BoardModel { hint: Some(HintModel { labels: no_labels(m.item_count()), query: seq![], jump_prefix: seq![] }), ..m };
    lemma_slots_ignore_state(s, m);
    lemma_no_matches_for_empty_query(s, s.item_count());
    assert(s.relabeled().hint->0.labels =~= no_labels(m.item_count()));
    assert(s.relabeled() == s);
}

/// Keys that only move the cursor, the view or the help keep the tips current.
#[verifier::rlimit(40)]
proof fn lemma_plain_step_current(m: BoardModel, key: Key, plan: PlanModel, completes_gg: bool, z_was_pending: bool)
    requires
        tips_current(m),
        !(key is Confirm || key is PreviousTab || key is Pin || key is StartHint || key is Input || key is Backspace
            || key is Dismiss),
    ensures
        tips_current(m.key_step(key, plan, completes_gg, z_was_pending).0),
{
    let stepped = m.key_step(key, plan, completes_gg, z_was_pending).0;
    match key {
        Key::Left => lemma_current_frame(m, stepped),
        Key::Right => lemma_current_frame(m, stepped),
        Key::Up => lemma_current_frame(m, stepped),
        Key::Down => lemma_current_frame(m, stepped),
        Key::HalfPageDown => lemma_current_frame(m, stepped),
        Key::HalfPageUp => lemma_current_frame(m, stepped),
        Key::PageDown => lemma_current_frame(m, stepped),
        Key::PageUp => lemma_current_frame(m, stepped),
        Key::GoPrefix => lemma_current_frame(m, stepped),
        Key::Last => lemma_current_frame(m, stepped),
        Key::ZPrefix => lemma_current_frame(m, stepped),
        Key::AlignTop => lemma_current_frame(m, stepped),
        Key::AlignBottom => lemma_current_frame(m, stepped),
        Key::ToggleHelp => lemma_current_frame(m, stepped),
        Key::Toggle => lemma_current_frame(m, stepped),
        _ => {},
    }
}

/// Keys that open cards, pin, leave, or type in Flash search keep the tips current.
#[verifier::rlimit(40)]
proof fn lemma_step_current(m: BoardModel, key: Key, plan: PlanModel, completes_gg: bool, z_was_pending: bool)
    requires
        tips_current(m),
        match key {
            Key::Pin => m.toggle_pin_ready(),
            Key::Input(ch) => m.hint is Some ==> m.hint_input_ready(ch),
            Key::Backspace => m.hint is Some ==> m.hint_backspace_ready(),
            _ => true,
        },
    ensures
        tips_current(m.key_step(key, plan, completes_gg, z_was_pending).0),
{
    match key {
        Key::Confirm => lemma_commit_current(m, m.cursor as int),
        Key::PreviousTab => lemma_commit_current(m, m.cursor as int),
        Key::Pin => {
            if let Some(t) = m.pin_toggled() {
                lemma_relabeled_is_current(t);
            }
        },
        Key::StartHint => lemma_start_hint_current(m),
        Key::Input(ch) => {
            if m.hint is Some {
                lemma_hint_input_current(m, ch);
            }
        },
        Key::Backspace => {
            if m.hint is Some {
                lemma_backspace_current(m);
            }
        },
        Key::Dismiss => {
            if m.hint is None && m.drilled is None {
                lemma_current_frame(m, m);
            }
        },
        _ => lemma_plain_step_current(m, key, plan, completes_gg, z_was_pending),
    }
}

/// Every key keeps Flash search's tips current: the keys that change what
/// the board shows or what was typed retip it or leave Flash search, the
/// others leave cards, query and tips as they were.
pub proof fn law_keys_keep_tips_current(board: BoardModel, key: Key)
    requires
        tips_current(board),
        board.decide_ready(key),
    ensures
        tips_current(board.decide(key).0),
{
    if board.show_help {
        lemma_current_frame(board, board.decide(key).0);
    } else {
        let plan = board.current_layout_plan();
        let m = board.clear_prefixes(key);
        lemma_current_frame(board, m);
        let completes_gg = key == Key::GoPrefix && board.pending_g;
        lemma_step_current(m, key, plan, completes_gg, board.pending_z);
        let stepped = m.key_step(key, plan, completes_gg, board.pending_z).0;
        if BoardModel::follows_cursor(key) {
            lemma_current_frame(stepped, stepped.ensure_visible(stepped.cursor as int));
        }
    }
}

proof fn lemma_hint_input_current(m: BoardModel, typed: char)
    requires
        tips_current(m),
        m.hint is Some,
        m.hint_input_ready(typed),
    ensures
        tips_current(m.apply_hint_input(typed).0),
{
    let ch = ascii_lower(typed);
    let h = m.hint->0;
    let prefix = h.jump_prefix.push(ch);
    let tip_hits = labels_starting(h.labels, prefix, h.labels.len() as int);
    if h.query.len() > 0 && tip_hits.len() == 1 && h.labels[tip_hits[0]] == Some(prefix) {
        lemma_commit_current(m, tip_hits[0]);
    } else if h.query.len() > 0 && tip_hits.len() > 0 {
        lemma_current_frame(m, m.apply_hint_input(typed).0);
    } else {
        let query = h.query.push(ch);
        if m.any_title_matches(query) {
            let n = BoardModel { hint: Some(HintModel { query, jump_prefix: seq![], ..h }), ..m };
            lemma_relabeled_is_current(n);
            let r = n.relabeled();
            let labels = r.hint->0.labels;
            let hits = labeled(labels, labels.len() as int);
            if hits.len() == 1 {
                lemma_commit_current(r, hits[0]);
            } else if hits.len() > 0 {
                lemma_current_frame(r, r.ensure_visible(hits[0]));
            }
        }
    }
}

proof fn lemma_backspace_current(m: BoardModel)
    requires
        tips_current(m),
        m.hint is Some,
        m.hint_backspace_ready(),
    ensures
        tips_current(m.hint_backspace()),
{
    let h = m.hint->0;
    let h1 = if h.jump_prefix.len() == 0 {
        HintModel { query: if h.query.len() > 0 { h.query.drop_last() } else { h.query }, ..h }
    } else {
        HintModel { jump_prefix: h.jump_prefix.drop_last(), ..h }
    };
    let n = BoardModel { hint: Some(h1), ..m };
    lemma_relabeled_is_current(n);
    let r = n.relabeled();
    let labels = r.hint->0.labels;
    let hits = labeled(labels, labels.len() as int);
    lemma_current_frame(r, r.ensure_visible(if hits.len() > 0 { hits[0] } else { r.cursor as int }));
}

/// After the host's lists change the board retips, so its tips are current.
pub proof fn law_settling_makes_tips_current(board: BoardModel, selected: Option<Identity>)
    requires
        board.settle_ready(selected),
    ensures
        tips_current(board.settled(selected)),
{
    lemma_relabeled_is_current(board.pruned().reseated(selected));
}

/// On a board whose tips are current, Flash search tips exactly the cards
/// whose titles hold the query; no two tips are the same and all have one
/// length; and when some letter is free, no tip letter typed after the
/// query would match a title.
pub proof fn law_current_tips_mark_the_matches(board: BoardModel)
    requires
        tips_current(board),
        board.item_count() <= usize::MAX,
    ensures
        match board.hint {
            Some(h) => {
                &&& h.labels.len() == board.item_count()
                &&& forall|i: int|
                    0 <= i < board.item_count() ==> ((#[trigger] h.labels[i]) is Some <==> (h.query.len() > 0 && board.title_matches(
                        i,
                        h.query,
                    )))
                &&& forall|i: int, j: int|
                    0 <= i < j < h.labels.len() && (#[trigger] h.labels[i]) is Some && (#[trigger] h.labels[j]) is Some ==> h.labels[i]
                        != h.labels[j]
                &&& forall|i: int, j: int|
                    0 <= i < h.labels.len() && 0 <= j < h.labels.len() && (#[trigger] h.labels[i]) is Some && (
                    #[trigger] h.labels[j]) is Some ==> h.labels[i]->0.len() == h.labels[j]->0.len()
                &&& board.free_letters(h.query, 26).len() > 0 ==> forall|i: int, k: int|
                    #![trigger h.labels[i]->0[k]]
                    0 <= i < h.labels.len() && h.labels[i] is Some && 0 <= k < h.labels[i]->0.len()
                        ==> !board.any_title_matches(h.query.push(h.labels[i]->0[k]))
            },
            None => true,
        },
{
    if board.hint is Some {
        law_tips_mark_the_matches(board);
        law_cards_get_distinct_tips(board);
    }
}


/// Moving the cursor or the view, resizing, noting the previous tab, or
/// taking the stale flags keeps Flash search's tips current: none of them
/// changes the cards, the query or the tips.
pub proof fn law_view_changes_keep_tips_current(
    board: BoardModel,
    cursor: usize,
    scroll_offset: usize,
    viewport: Option<(usize, usize)>,
    previous_tab_id: Option<usize>,
    stale: CachePrune,
)
    requires
        tips_current(board),
    ensures
        tips_current(BoardModel { cursor, scroll_offset, viewport, previous_tab_id, stale, ..board }),
{
    lemma_current_frame(board, BoardModel { cursor, scroll_offset, viewport, previous_tab_id, stale, ..board });
}


/// A new board is not in Flash search, so its tips are current.
pub proof fn law_new_board_tips_current()
    ensures
        tips_current(BoardModel::initial()),
{
}

} // verus!
