//! The game as a mathematical value, the steps that lead from one such
//! value to the next, and what holds of them.

use vstd::prelude::*;
use crate::game::bits::{bit, lemma_masks_equal};
use crate::game::board::{
    board_wf, can_carry, carried, is_legal, lemma_carried, lemma_carried_back,
    lemma_legal_can_carry, units_in,
};
use crate::game::census::{
    ascending, counts, kind_index, lemma_ascending_distinct, lemma_entry, lemma_top_listed,
    units_per_kind, MAX_KINDS,
};
use crate::game::completion::{
    all_set, alone, alone_at, crowned, crowned_at, gathered, gathered_at, initial_mask, kind_fits, lemma_all_set, lemma_complete_run_is_lone, lemma_initial_mask,
    lemma_look_changes_nothing, lemma_mask_carried, lemma_refreshed, mask_fits, refreshed,
};
use crate::game::entry::Entry;
use crate::game::stack::kind::{Kind, KindId, EMPTY_SLOT_VALUE};
use crate::game::stack::runs::{merged, proper, top_run, total_quantity, units_of};
use crate::game::stack::StackView;

verus! {

/// A game, seen as a value.
pub struct GameView {
    /// The stacks as they stand.
    pub stacks: Seq<StackView>,
    /// The stacks as they stood when the game was made.
    pub initial: Seq<StackView>,
    /// The kinds in ascending order of id, each with the number of its units.
    pub census: Seq<Kind>,
    /// The completion mask: bit `i` belongs to the kind `census[i]`.
    pub mask: u64,
    /// The number of the turn, from 1.
    pub turn: nat,
    /// The name of the stage.
    pub name: Seq<char>,
    /// The legal moves made and not taken back, oldest first.
    pub ledger: Seq<Entry>,
}

/// The entry that the ledger gets for the top run of `from` going onto `to`.
pub open spec fn entry_for(stacks: Seq<StackView>, from: int, to: int) -> Entry {
    Entry {
        from: from as usize,
        to: to as usize,
        kind: top_run(stacks[from].runs),
        quantity: top_run(stacks[from].runs).quantity,
    }
}

/// The board before the move that `entry` records.
pub open spec fn taken_back(stacks: Seq<StackView>, entry: Entry) -> Seq<StackView> {
    carried(stacks, entry.to as int, entry.from as int, Some(entry.quantity))
}

/// Every move of the ledger can be taken back, the newest first.
pub open spec fn ledger_ok(stacks: Seq<StackView>, ledger: Seq<Entry>) -> bool
    decreases ledger.len(),
{
    ledger.len() == 0 || {
        &&& can_carry(
            stacks,
            ledger.last().to as int,
            ledger.last().from as int,
            Some(ledger.last().quantity),
        )
        &&& ledger_ok(taken_back(stacks, ledger.last()), ledger.drop_last())
    }
}

impl GameView {
    /// The game as it is made from a board: nothing played, nothing
    /// recorded, the mask as the board shows it.
    pub open spec fn fresh(stacks: Seq<StackView>, census: Seq<Kind>, name: Seq<char>) -> GameView {
        GameView {
            stacks,
            initial: stacks,
            census,
            mask: initial_mask(census, stacks),
            turn: 1,
            name,
            ledger: Seq::empty(),
        }
    }

    /// What must hold of the stacks and the census, whatever the mask and
    /// the ledger say.
    pub open spec fn counted(self) -> bool {
        &&& self.stacks.len() <= usize::MAX
        &&& self.initial.len() == self.stacks.len()
        &&& board_wf(self.stacks)
        &&& board_wf(self.initial)
        &&& proper(self.census)
        &&& ascending(self.census)
        &&& self.census.len() <= MAX_KINDS
        &&& counts(self.census, self.stacks)
        &&& counts(self.census, self.initial)
    }

    /// What must hold of the stacks, the census and the mask, whatever the
    /// ledger says.
    pub open spec fn sound(self) -> bool {
        &&& self.counted()
        &&& mask_fits(self.census, self.stacks, self.mask)
        &&& self.turn >= 1
    }

    /// The invariant of a game.
    pub open spec fn wf(self) -> bool {
        &&& self.sound()
        &&& ledger_ok(self.stacks, self.ledger)
    }

    /// The number of units of the kind `id` in the game.
    pub open spec fn units_per_kind(self, id: KindId) -> nat {
        units_per_kind(self.census, id)
    }

    /// The index of the kind `id`: its rank among the ids of the game.
    pub open spec fn kind_index(self, id: KindId) -> int {
        kind_index(self.census, id)
    }

    /// Whether the top run of `from` may go onto `to`.
    pub open spec fn is_legal(self, from: int, to: int) -> bool {
        is_legal(self.stacks, from, to)
    }

    /// Whether every kind has its bit set.
    pub open spec fn stage_complete(self) -> bool {
        all_set(self.census, self.mask)
    }

    /// The game after up to `limit` units have been carried from the top of
    /// `from` onto `to` and the two stacks looked at. The turn and the
    /// ledger stay.
    pub open spec fn after_carry(self, from: int, to: int, limit: Option<usize>) -> GameView {
        GameView {
            stacks: carried(self.stacks, from, to, limit),
            mask: refreshed(
                refreshed(self.mask, self.census, carried(self.stacks, from, to, limit)[from]),
                self.census,
                carried(self.stacks, from, to, limit)[to],
            ),
            ..self
        }
    }

    /// The game after the legal move from `from` to `to`: the top run
    /// carried, the move recorded, and the turn counted unless the move
    /// completes the stage.
    pub open spec fn after_move(self, from: int, to: int) -> GameView {
        GameView {
            turn: if self.after_carry(from, to, None).stage_complete() {
                self.turn
            } else {
                self.turn + 1
            },
            ledger: self.ledger.push(entry_for(self.stacks, from, to)),
            ..self.after_carry(from, to, None)
        }
    }

    /// The game after its newest move has been taken back; the game itself
    /// where the ledger is empty.
    pub open spec fn after_undo(self) -> GameView {
        if self.ledger.len() == 0 {
            self
        } else {
            (GameView { ledger: self.ledger.drop_last(), ..self }).after_carry(
                self.ledger.last().to as int,
                self.ledger.last().from as int,
                Some(self.ledger.last().quantity),
            )
        }
    }

    /// The game set back to the board it was made from.
    pub open spec fn after_reset(self) -> GameView {
        GameView::fresh(self.initial, self.census, self.name)
    }

    /// The mask holds exactly the kinds whose units form the top run of a
    /// stack.
    pub open spec fn exact(self) -> bool {
        forall|i: int|
            0 <= i < self.census.len() ==> #[trigger] bit(self.mask, i) == crowned(
                self.stacks,
                self.census[i],
            )
    }

    /// The move from `from` uncovers a run that holds all units of its
    /// kind, and the mask does not know of it yet.
    pub open spec fn uncovers_unrecorded(self, from: int) -> bool {
        &&& self.stacks[from].runs.len() >= 2
        &&& self.stacks[from].runs[self.stacks[from].runs.len() - 2].quantity
            == self.census[self.kind_index(
            self.stacks[from].runs[self.stacks[from].runs.len() - 2].id,
        )].quantity
        &&& !bit(
            self.mask,
            self.kind_index(self.stacks[from].runs[self.stacks[from].runs.len() - 2].id),
        )
    }
}

/// A fresh game over a board and its census is well formed.
pub proof fn lemma_fresh_wf(stacks: Seq<StackView>, census: Seq<Kind>, name: Seq<char>)
    requires
        stacks.len() <= usize::MAX,
        board_wf(stacks),
        proper(census),
        ascending(census),
        counts(census, stacks),
        census.len() <= MAX_KINDS,
    ensures
        GameView::fresh(stacks, census, name).wf(),
{
    lemma_initial_mask(census, stacks);
}

/// The mask of a fresh game is exact.
pub proof fn lemma_fresh_exact(stacks: Seq<StackView>, census: Seq<Kind>, name: Seq<char>)
    requires
        stacks.len() <= usize::MAX,
        board_wf(stacks),
        proper(census),
        ascending(census),
        counts(census, stacks),
        census.len() <= MAX_KINDS,
    ensures
        GameView::fresh(stacks, census, name).exact(),
{
    lemma_initial_mask(census, stacks);
}

/// A legal move keeps the mask exact.
pub proof fn lemma_move_exact(game: GameView, from: int, to: int)
    requires
        game.wf(),
        game.exact(),
        0 <= from < game.stacks.len(),
        0 <= to < game.stacks.len(),
        game.is_legal(from, to),
    ensures
        game.after_move(from, to).exact(),
{
    let census = game.census;
    let before = game.stacks;
    let cargo = top_run(before[from].runs);
    let next = game.after_move(from, to);
    let after = next.stacks;
    let first = refreshed(game.mask, census, after[from]);
    lemma_legal_can_carry(before, from, to);
    lemma_mask_carried(census, before, from, to, None, game.mask);
    lemma_carried(before, from, to, None, EMPTY_SLOT_VALUE);
    assert(before[from].wf());
    assert(before[to].wf());
    crate::game::stack::runs::lemma_popped(before[from].runs, None, EMPTY_SLOT_VALUE);
    crate::game::stack::runs::lemma_pushed(before[to].runs, cargo, EMPTY_SLOT_VALUE);
    assert(after[from] == before[from].popped(None));
    assert(after[to] == before[to].pushed(cargo));
    assert forall|i: int| 0 <= i < census.len() implies #[trigger] bit(next.mask, i) == crowned(
        after,
        census[i],
    ) by {
        lemma_refreshed(census, after, game.mask, from, i);
        lemma_refreshed(census, after, first, to, i);
        assert(kind_fits(census, after, next.mask, i));
        assert(census[i].id != EMPTY_SLOT_VALUE);
        if census[i].id == after[to].top_id() {
            if crowned_at(after, to, census[i]) {
                assert(crowned(after, census[i]));
            }
        } else if census[i].id == after[from].top_id() {
            if crowned_at(after, from, census[i]) {
                assert(crowned(after, census[i]));
            }
        } else if bit(next.mask, i) {
            assert(bit(game.mask, i));
            let s = choose|s: int| crowned_at(before, s, census[i]);
            if s == from {
                assert(cargo == census[i]);
                assert(after[to].top_id() == census[i].id);
            } else if s == to {
                if cargo.weight() > 0 {
                    assert(after[to].top_id() == cargo.id);
                    assert(before[from].runs.len() > 0);
                    assert(before[from].top_id() == cargo.id);
                } else {
                    assert(after[to] == before[to]);
                }
            } else {
                assert(after[s] == before[s]);
                assert(crowned_at(after, s, census[i]));
            }
        }
    }
}

/// Carrying units keeps a game sound.
pub proof fn lemma_carry_sound(game: GameView, from: int, to: int, limit: Option<usize>)
    requires
        game.sound(),
        can_carry(game.stacks, from, to, limit),
    ensures
        game.after_carry(from, to, limit).sound(),
{
    lemma_mask_carried(game.census, game.stacks, from, to, limit, game.mask);
    lemma_carried(game.stacks, from, to, limit, EMPTY_SLOT_VALUE);
}

/// A legal move keeps a game well formed.
pub proof fn lemma_move_wf(game: GameView, from: int, to: int)
    requires
        game.wf(),
        0 <= from < game.stacks.len(),
        0 <= to < game.stacks.len(),
        game.is_legal(from, to),
    ensures
        game.after_move(from, to).wf(),
{
    let next = game.after_move(from, to);
    let entry = entry_for(game.stacks, from, to);
    lemma_legal_can_carry(game.stacks, from, to);
    lemma_carry_sound(game, from, to, None);
    lemma_carried(game.stacks, from, to, None, EMPTY_SLOT_VALUE);
    lemma_carried_back(game.stacks, from, to);
    assert(next.ledger.last() == entry);
    assert(next.ledger.drop_last() =~= game.ledger);
    assert(taken_back(next.stacks, entry) == game.stacks);
}

/// Taking a move back keeps a game well formed.
pub proof fn lemma_undo_wf(game: GameView)
    requires
        game.wf(),
    ensures
        game.after_undo().wf(),
{
    if game.ledger.len() > 0 {
        let entry = game.ledger.last();
        let shorter = GameView { ledger: game.ledger.drop_last(), ..game };
        lemma_carry_sound(shorter, entry.to as int, entry.from as int, Some(entry.quantity));
    }
}

/// Setting a game back keeps it well formed.
pub proof fn lemma_reset_wf(game: GameView)
    requires
        game.wf(),
    ensures
        game.after_reset().wf(),
{
    lemma_fresh_wf(game.initial, game.census, game.name);
}

/// In every state of a game each stack holds as many units as its runs
/// add up to, within its capacity, and no two adjacent runs share an id.
pub proof fn law_stacks_run_length(game: GameView, s: int)
    requires
        game.wf(),
        0 <= s < game.stacks.len(),
    ensures
        game.stacks[s].occupancy() == total_quantity(game.stacks[s].runs),
        game.stacks[s].occupancy() <= game.stacks[s].capacity,
        merged(game.stacks[s].runs),
        proper(game.stacks[s].runs),
{
    assert(game.stacks[s].wf());
}

/// In every state of a game the units of a kind on all stacks together are
/// as many as the census says.
pub proof fn law_units_conserved(game: GameView, id: KindId)
    requires
        game.counted(),
    ensures
        units_in(game.stacks, id) == game.units_per_kind(id),
{
    assert(units_of(game.census, id) == units_in(game.stacks, id));
}

/// A legal move changes neither the census nor the number of units of any
/// kind on the stacks, and leaves the game sound.
pub proof fn law_move_conserves(game: GameView, from: int, to: int, id: KindId)
    requires
        game.sound(),
        0 <= from < game.stacks.len(),
        0 <= to < game.stacks.len(),
        game.is_legal(from, to),
    ensures
        game.after_move(from, to).sound(),
        game.after_move(from, to).census == game.census,
        units_in(game.after_move(from, to).stacks, id) == units_in(game.stacks, id),
        units_in(game.after_move(from, to).stacks, id) == game.units_per_kind(id),
{
    law_units_conserved(game, id);
    lemma_legal_can_carry(game.stacks, from, to);
    lemma_carry_sound(game, from, to, None);
    lemma_carried(game.stacks, from, to, None, id);
}

/// Units carried from one stack onto another, whatever the rule says,
/// change neither the census nor the number of units of any kind on the
/// stacks, and leave the game sound.
pub proof fn law_carry_conserves(
    game: GameView,
    from: int,
    to: int,
    limit: Option<usize>,
    id: KindId,
)
    requires
        game.sound(),
        can_carry(game.stacks, from, to, limit),
    ensures
        game.after_carry(from, to, limit).sound(),
        game.after_carry(from, to, limit).census == game.census,
        units_in(game.after_carry(from, to, limit).stacks, id) == units_in(game.stacks, id),
        units_in(game.after_carry(from, to, limit).stacks, id) == game.units_per_kind(id),
{
    law_units_conserved(game, id);
    lemma_carry_sound(game, from, to, limit);
    lemma_carried(game.stacks, from, to, limit, id);
}

/// An undo changes neither the census nor the number of units of any kind
/// on the stacks, and leaves the game well formed.
pub proof fn law_undo_conserves(game: GameView, id: KindId)
    requires
        game.wf(),
    ensures
        game.after_undo().wf(),
        game.after_undo().census == game.census,
        units_in(game.after_undo().stacks, id) == units_in(game.stacks, id),
        units_in(game.after_undo().stacks, id) == game.units_per_kind(id),
{
    law_units_conserved(game, id);
    lemma_undo_wf(game);
    if game.ledger.len() > 0 {
        let entry = game.ledger.last();
        lemma_carried(game.stacks, entry.to as int, entry.from as int, Some(entry.quantity), id);
    }
}

/// What the bit of the kind with index `i` is once a legal move has been
/// made and taken back: what it was, or set where the move has uncovered
/// that kind's complete run.
proof fn lemma_bit_after_round_trip(game: GameView, from: int, to: int, i: int)
    requires
        game.wf(),
        0 <= from < game.stacks.len(),
        0 <= to < game.stacks.len(),
        game.is_legal(from, to),
        0 <= i < game.census.len(),
    ensures
        bit(game.after_move(from, to).after_undo().mask, i) == (bit(game.mask, i) || (
        game.uncovers_unrecorded(from) && i == game.kind_index(
            game.stacks[from].runs[game.stacks[from].runs.len() - 2].id,
        ))),
{
    let census = game.census;
    let before = game.stacks;
    let cargo = top_run(before[from].runs);
    let moved = game.after_move(from, to);
    let between = moved.stacks;
    let first = refreshed(game.mask, census, between[from]);
    let back = moved.after_undo();
    let third = refreshed(moved.mask, census, before[to]);
    lemma_legal_can_carry(before, from, to);
    lemma_mask_carried(census, before, from, to, None, game.mask);
    lemma_carried(before, from, to, None, EMPTY_SLOT_VALUE);
    lemma_carried_back(before, from, to);
    assert(moved.ledger.last() == entry_for(before, from, to));
    assert(back.stacks == before);
    assert(back.mask == refreshed(third, census, before[from]));
    assert(before[from].wf());
    assert(before[to].wf());
    lemma_ascending_distinct(census);
    lemma_entry(census, i);
    lemma_refreshed(census, before, moved.mask, to, i);
    lemma_refreshed(census, before, third, from, i);
    lemma_refreshed(census, between, game.mask, from, i);
    lemma_refreshed(census, between, first, to, i);
    lemma_refreshed(census, before, game.mask, from, i);
    lemma_refreshed(census, before, game.mask, to, i);
    lemma_look_changes_nothing(census, before, game.mask, from);
    lemma_look_changes_nothing(census, before, game.mask, to);
    crate::game::stack::runs::lemma_popped(before[from].runs, None, EMPTY_SLOT_VALUE);
    crate::game::stack::runs::lemma_pushed(before[to].runs, cargo, EMPTY_SLOT_VALUE);
    assert(between[from] == before[from].popped(None));
    assert(between[to] == before[to].pushed(cargo));
    assert(census[i].id != EMPTY_SLOT_VALUE);
    assert(kind_fits(census, before, game.mask, i));
    let runs = before[from].runs;
    if runs.len() > 0 {
        assert(runs[runs.len() - 1].quantity > 0);
        assert(cargo.weight() > 0);
    }
    if runs.len() >= 2 {
        let low = runs.len() - 2;
        let below = runs[low];
        assert(below.id != EMPTY_SLOT_VALUE && below.quantity > 0);
        assert(runs[low].id != runs[low + 1].id);
        assert(between[from].runs.last() == below);
        lemma_top_listed(census, between, from);
        let j = kind_index(census, below.id);
        if census[i].id == below.id {
            assert(i == j);
            if bit(game.mask, i) {
                let (t, r) = choose|t: int, r: int| gathered_at(before, t, r, census[i]);
                lemma_complete_run_is_lone(census, before, i, t, r, from, low);
            }
        } else {
            lemma_entry(census, j);
        }
    }
}

/// A legal move taken back at once leaves the stacks and the ledger as
/// they were. The turn stays where the move has put it: it is the old turn
/// exactly where the move completed the stage. The mask is the old mask
/// unless the move uncovered a complete run that the mask did not know of.
pub proof fn law_move_then_undo(game: GameView, from: int, to: int)
    requires
        game.wf(),
        0 <= from < game.stacks.len(),
        0 <= to < game.stacks.len(),
        game.is_legal(from, to),
    ensures
        game.after_move(from, to).after_undo().stacks == game.stacks,
        game.after_move(from, to).after_undo().ledger == game.ledger,
        game.after_move(from, to).after_undo().census == game.census,
        game.after_move(from, to).after_undo().initial == game.initial,
        game.after_move(from, to).after_undo().name == game.name,
        game.after_move(from, to).after_undo().turn == game.after_move(from, to).turn,
        game.after_move(from, to).after_undo().turn == game.turn <==> game.after_move(
            from,
            to,
        ).stage_complete(),
        game.after_move(from, to).after_undo().mask == game.mask <==> !game.uncovers_unrecorded(
            from,
        ),
{
    let census = game.census;
    let moved = game.after_move(from, to);
    let back = moved.after_undo();
    lemma_move_wf(game, from, to);
    lemma_undo_wf(moved);
    lemma_carried_back(game.stacks, from, to);
    assert(moved.ledger.last() == entry_for(game.stacks, from, to));
    assert(moved.ledger.drop_last() =~= game.ledger);
    if game.uncovers_unrecorded(from) {
        let runs = game.stacks[from].runs;
        let below = runs[runs.len() - 2];
        assert(game.stacks[from].wf());
        assert(below.id != EMPTY_SLOT_VALUE && below.quantity > 0);
        crate::game::stack::runs::lemma_run_counted(runs, runs.len() - 2);
        crate::game::board::lemma_units_in_stack(game.stacks, from, below.id);
        assert(units_of(census, below.id) == units_in(game.stacks, below.id));
        crate::game::census::lemma_listed(census, below.id);
        let j = kind_index(census, below.id);
        lemma_bit_after_round_trip(game, from, to, j);
        assert(bit(back.mask, j) != bit(game.mask, j));
    } else {
        assert forall|i: int| 0 <= i < 64 implies bit(back.mask, i) == bit(game.mask, i) by {
            if i < census.len() {
                lemma_bit_after_round_trip(game, from, to, i);
            } else {
                assert(!bit(back.mask, i));
                assert(!bit(game.mask, i));
            }
        }
        lemma_masks_equal(back.mask, game.mask);
    }
}

/// No bit changes unless its kind shows on top of one of the two stacks
/// that the carried units have left or reached.
pub proof fn law_bits_change_at_touched_stacks(
    game: GameView,
    from: int,
    to: int,
    limit: Option<usize>,
    i: int,
)
    requires
        game.sound(),
        can_carry(game.stacks, from, to, limit),
        0 <= i < game.census.len(),
        game.census[i].id != game.after_carry(from, to, limit).stacks[from].top_id(),
        game.census[i].id != game.after_carry(from, to, limit).stacks[to].top_id(),
    ensures
        bit(game.after_carry(from, to, limit).mask, i) == bit(game.mask, i),
{
    let after = carried(game.stacks, from, to, limit);
    let first = refreshed(game.mask, game.census, after[from]);
    lemma_mask_carried(game.census, game.stacks, from, to, limit, game.mask);
    lemma_carried(game.stacks, from, to, limit, EMPTY_SLOT_VALUE);
    lemma_refreshed(game.census, after, game.mask, from, i);
    lemma_refreshed(game.census, after, first, to, i);
}

/// No move from a stack onto itself is legal.
pub proof fn law_no_move_onto_itself(stacks: Seq<StackView>, x: int)
    ensures
        !is_legal(stacks, x, x),
{
}

/// When is a stage complete? Whenever every kind lies alone in a stack of
/// its own; and only when every kind lies in one run. Where the mask is
/// exact, as it is in a fresh game and after every legal move, the stage is
/// complete if and only if every kind lies alone in a stack of its own. An
/// undo can bury a complete run under the run it brings back: after it, a
/// stage is complete and every kind alone in a stack of its own only where
/// every kind lies on top of a stack, which is where no stack holds two
/// runs.
pub proof fn law_stage_complete(game: GameView)
    requires
        game.wf(),
    ensures
        game.exact() ==> (game.stage_complete() <==> (forall|i: int|
            0 <= i < game.census.len() ==> alone(game.stacks, game.census[i]))),
        (forall|i: int| 0 <= i < game.census.len() ==> alone(game.stacks, game.census[i]))
            ==> game.stage_complete(),
        game.stage_complete() ==> (forall|i: int|
            0 <= i < game.census.len() ==> gathered(game.stacks, game.census[i])),
        game.stage_complete() && (forall|i: int|
            0 <= i < game.census.len() ==> crowned(game.stacks, game.census[i])) ==> (forall|
            i: int,
        |
            0 <= i < game.census.len() ==> alone(game.stacks, game.census[i])),
        game.stage_complete() && (forall|s: int|
            0 <= s < game.stacks.len() ==> (#[trigger] game.stacks[s]).runs.len() <= 1)
            ==> (forall|i: int| 0 <= i < game.census.len() ==> alone(game.stacks, game.census[i])),
{
    let census = game.census;
    let stacks = game.stacks;
    lemma_all_set(census, game.mask);
    if forall|i: int| 0 <= i < census.len() ==> alone(stacks, census[i]) {
        assert forall|i: int| 0 <= i < census.len() implies bit(game.mask, i) by {
            let s = choose|s: int| alone_at(stacks, s, census[i]);
            assert(stacks[s].runs.last() == census[i]);
            assert(crowned_at(stacks, s, census[i]));
            assert(kind_fits(census, stacks, game.mask, i));
        }
    }
    if game.stage_complete() {
        assert forall|i: int| 0 <= i < census.len() implies gathered(stacks, census[i]) by {
            assert(bit(game.mask, i));
            assert(kind_fits(census, stacks, game.mask, i));
        }
        if game.exact() {
            assert forall|i: int| 0 <= i < census.len() implies crowned(stacks, census[i]) by {
                assert(bit(game.mask, i));
            }
        }
        if forall|i: int| 0 <= i < census.len() ==> crowned(stacks, census[i]) {
            assert forall|i: int| 0 <= i < census.len() implies alone(stacks, census[i]) by {
                let s = choose|s: int| crowned_at(stacks, s, census[i]);
                let runs = stacks[s].runs;
                assert(census[i].id != EMPTY_SLOT_VALUE);
                assert(stacks[s].wf());
                if runs.len() >= 2 {
                    let below = runs[runs.len() - 2];
                    assert(below.quantity > 0 && below.id != EMPTY_SLOT_VALUE);
                    crate::game::stack::runs::lemma_run_counted(runs, runs.len() - 2);
                    crate::game::board::lemma_units_in_stack(stacks, s, below.id);
                    assert(units_of(census, below.id) == units_in(stacks, below.id));
                    crate::game::census::lemma_listed(census, below.id);
                    let j = kind_index(census, below.id);
                    let t = choose|t: int| crowned_at(stacks, t, census[j]);
                    assert(gathered_at(stacks, t, stacks[t].runs.len() - 1, census[j]));
                    lemma_complete_run_is_lone(
                        census,
                        stacks,
                        j,
                        t,
                        stacks[t].runs.len() - 1,
                        s,
                        runs.len() - 2,
                    );
                    assert(runs[runs.len() - 2].id != runs[runs.len() - 1].id);
                }
                assert(runs =~= seq![census[i]]);
                assert(alone_at(stacks, s, census[i]));
            }
        }
        if forall|s: int| 0 <= s < stacks.len() ==> (#[trigger] stacks[s]).runs.len() <= 1 {
            assert forall|i: int| 0 <= i < census.len() implies alone(stacks, census[i]) by {
                assert(gathered(stacks, census[i]));
                let (s, r) = choose|s: int, r: int| gathered_at(stacks, s, r, census[i]);
                assert(stacks[s].runs.len() <= 1);
                assert(stacks[s].runs =~= seq![census[i]]);
                assert(alone_at(stacks, s, census[i]));
            }
        }
    }
}

} // verus!
