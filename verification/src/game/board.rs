//! The board: the stacks of a game side by side, and what a move does to
//! them.

use vstd::prelude::*;
use crate::game::entry::InvalidMove;
use crate::game::stack::kind::{KindId, EMPTY_SLOT_VALUE};
use crate::game::stack::runs::{
    lemma_popped, lemma_pushed, lemma_units_of_bounded, taken, top_run,
};
use crate::game::stack::StackView;

verus! {

/// Every stack of the board is well formed.
pub open spec fn board_wf(stacks: Seq<StackView>) -> bool {
    forall|s: int| 0 <= s < stacks.len() ==> (#[trigger] stacks[s]).wf()
}

/// The units of the kind `id` on the whole board.
pub open spec fn units_in(stacks: Seq<StackView>, id: KindId) -> nat
    decreases stacks.len(),
{
    if stacks.len() == 0 {
        0
    } else {
        units_in(stacks.drop_last(), id) + stacks.last().units_of(id)
    }
}

/// All units on the board.
pub open spec fn all_units(stacks: Seq<StackView>) -> nat
    decreases stacks.len(),
{
    if stacks.len() == 0 {
        0
    } else {
        all_units(stacks.drop_last()) + stacks.last().occupancy()
    }
}

/// The stack `to` has no room for the top run of `from`.
pub open spec fn needs_more_room(stacks: Seq<StackView>, from: int, to: int) -> bool {
    stacks[to].vacancy() < stacks[from].top_quantity()
}

/// The tops of `from` and `to` are of different kinds, and neither stack is
/// empty.
pub open spec fn tops_mismatch(stacks: Seq<StackView>, from: int, to: int) -> bool {
    &&& stacks[from].top_id() != stacks[to].top_id()
    &&& stacks[from].top_id() != EMPTY_SLOT_VALUE
    &&& stacks[to].top_id() != EMPTY_SLOT_VALUE
}

/// The rule of the game: the top run of `from` may go onto another stack
/// `to` that has room for it and is empty or shows the same kind.
pub open spec fn is_legal(stacks: Seq<StackView>, from: int, to: int) -> bool {
    &&& from != to
    &&& !needs_more_room(stacks, from, to)
    &&& !tops_mismatch(stacks, from, to)
}

/// What the rule says of the move from `from` to `to`: nothing against it,
/// or the first of its demands that the move fails.
pub open spec fn verdict(stacks: Seq<StackView>, from: int, to: int) -> Result<(), InvalidMove> {
    if from == to {
        Err(InvalidMove::SameStack)
    } else if needs_more_room(stacks, from, to) {
        Err(InvalidMove::NotEnoughRoom)
    } else if tops_mismatch(stacks, from, to) {
        Err(InvalidMove::TopMismatch)
    } else {
        Ok(())
    }
}

/// Some move on the board is legal.
pub open spec fn has_legal_move(stacks: Seq<StackView>) -> bool {
    exists|from: int, to: int|
        0 <= from < stacks.len() && 0 <= to < stacks.len() && #[trigger] is_legal(stacks, from, to)
}

/// Up to `limit` units can be carried from the top of `from` onto `to`,
/// whatever lies there: the two are different stacks of the board and `to`
/// has the room.
pub open spec fn can_carry(stacks: Seq<StackView>, from: int, to: int, limit: Option<usize>) -> bool {
    &&& 0 <= from < stacks.len()
    &&& 0 <= to < stacks.len()
    &&& from != to
    &&& taken(stacks[from].runs, limit).weight() <= stacks[to].vacancy()
}

/// The board after up to `limit` units have been carried from the top of
/// `from` onto `to`.
pub open spec fn carried(stacks: Seq<StackView>, from: int, to: int, limit: Option<usize>) -> Seq<
    StackView,
> {
    stacks.update(from, stacks[from].popped(limit)).update(
        to,
        stacks[to].pushed(taken(stacks[from].runs, limit)),
    )
}

/// Replacing one stack changes the count of a kind by the difference
/// between the two.
pub proof fn lemma_units_in_update(stacks: Seq<StackView>, s: int, stack: StackView, id: KindId)
    requires
        0 <= s < stacks.len(),
    ensures
        units_in(stacks.update(s, stack), id) + stacks[s].units_of(id) == units_in(stacks, id)
            + stack.units_of(id),
        all_units(stacks.update(s, stack)) + stacks[s].occupancy() == all_units(stacks)
            + stack.occupancy(),
    decreases stacks.len(),
{
    if s == stacks.len() - 1 {
        assert(stacks.update(s, stack).drop_last() =~= stacks.drop_last());
    } else {
        assert(stacks.update(s, stack).drop_last() =~= stacks.drop_last().update(s, stack));
        lemma_units_in_update(stacks.drop_last(), s, stack, id);
    }
}

/// What one stack holds of a kind, the board holds too.
pub proof fn lemma_units_in_stack(stacks: Seq<StackView>, s: int, id: KindId)
    requires
        0 <= s < stacks.len(),
    ensures
        stacks[s].units_of(id) <= units_in(stacks, id),
        stacks[s].occupancy() <= all_units(stacks),
    decreases stacks.len(),
{
    if s < stacks.len() - 1 {
        lemma_units_in_stack(stacks.drop_last(), s, id);
    }
}

/// What two stacks hold of a kind, the board holds too.
pub proof fn lemma_units_in_two_stacks(stacks: Seq<StackView>, s: int, t: int, id: KindId)
    requires
        0 <= s < t < stacks.len(),
    ensures
        stacks[s].units_of(id) + stacks[t].units_of(id) <= units_in(stacks, id),
    decreases stacks.len(),
{
    if t < stacks.len() - 1 {
        lemma_units_in_two_stacks(stacks.drop_last(), s, t, id);
    } else {
        lemma_units_in_stack(stacks.drop_last(), s, id);
    }
}

/// A kind with units on the board has units in some stack.
pub proof fn lemma_units_in_some_stack(stacks: Seq<StackView>, id: KindId) -> (s: int)
    requires
        units_in(stacks, id) > 0,
    ensures
        0 <= s < stacks.len(),
        stacks[s].units_of(id) > 0,
    decreases stacks.len(),
{
    if stacks.last().units_of(id) > 0 {
        stacks.len() - 1
    } else {
        lemma_units_in_some_stack(stacks.drop_last(), id)
    }
}

/// No kind has more units than the board holds units.
pub proof fn lemma_units_in_bounded(stacks: Seq<StackView>, id: KindId)
    ensures
        units_in(stacks, id) <= all_units(stacks),
    decreases stacks.len(),
{
    if stacks.len() > 0 {
        lemma_units_in_bounded(stacks.drop_last(), id);
        lemma_units_of_bounded(stacks.last().runs, id);
    }
}

/// A legal move can be carried out.
pub proof fn lemma_legal_can_carry(stacks: Seq<StackView>, from: int, to: int)
    requires
        0 <= from < stacks.len(),
        0 <= to < stacks.len(),
        is_legal(stacks, from, to),
    ensures
        can_carry(stacks, from, to, None),
        taken(stacks[from].runs, None) == top_run(stacks[from].runs),
{
}

/// Carrying units keeps the board well formed, moves no capacity and
/// neither makes nor loses a unit of any kind.
pub proof fn lemma_carried(
    stacks: Seq<StackView>,
    from: int,
    to: int,
    limit: Option<usize>,
    id: KindId,
)
    requires
        board_wf(stacks),
        can_carry(stacks, from, to, limit),
    ensures
        board_wf(carried(stacks, from, to, limit)),
        carried(stacks, from, to, limit).len() == stacks.len(),
        forall|s: int|
            0 <= s < stacks.len() ==> (#[trigger] carried(stacks, from, to, limit)[s]).capacity
                == stacks[s].capacity,
        forall|s: int|
            0 <= s < stacks.len() && s != from && s != to ==> #[trigger] carried(
                stacks,
                from,
                to,
                limit,
            )[s] == stacks[s],
        units_in(carried(stacks, from, to, limit), id) == units_in(stacks, id),
        all_units(carried(stacks, from, to, limit)) == all_units(stacks),
{
    let cargo = taken(stacks[from].runs, limit);
    let lighter = stacks[from].popped(limit);
    let heavier = stacks[to].pushed(cargo);
    let between = stacks.update(from, lighter);
    let after = carried(stacks, from, to, limit);
    assert(stacks[from].wf());
    assert(stacks[to].wf());
    lemma_popped(stacks[from].runs, limit, id);
    lemma_pushed(stacks[to].runs, cargo, id);
    lemma_units_in_update(stacks, from, lighter, id);
    lemma_units_in_update(between, to, heavier, id);
    assert(between[to] == stacks[to]);
    assert(lighter.wf());
    assert(heavier.wf());
    assert forall|s: int| 0 <= s < after.len() implies (#[trigger] after[s]).wf() by {
        if s != from && s != to {
            assert(stacks[s].wf());
        }
    }
}

/// A legal move, taken back at once, leaves the board as it was: the units
/// that went are the units that come back.
pub proof fn lemma_carried_back(stacks: Seq<StackView>, from: int, to: int)
    requires
        board_wf(stacks),
        0 <= from < stacks.len(),
        0 <= to < stacks.len(),
        is_legal(stacks, from, to),
    ensures
        can_carry(
            carried(stacks, from, to, None),
            to,
            from,
            Some(top_run(stacks[from].runs).quantity),
        ),
        carried(
            carried(stacks, from, to, None),
            to,
            from,
            Some(top_run(stacks[from].runs).quantity),
        ) == stacks,
{
    let cargo = top_run(stacks[from].runs);
    let back = Some(cargo.quantity);
    let there = carried(stacks, from, to, None);
    let here = carried(there, to, from, back);
    let source = stacks[from].runs;
    let target = stacks[to].runs;
    assert(stacks[from].wf());
    assert(stacks[to].wf());
    lemma_legal_can_carry(stacks, from, to);
    lemma_carried(stacks, from, to, None, EMPTY_SLOT_VALUE);
    lemma_popped(source, None, EMPTY_SLOT_VALUE);
    lemma_pushed(target, cargo, EMPTY_SLOT_VALUE);
    assert(there[from] == stacks[from].popped(None));
    assert(there[to] == stacks[to].pushed(cargo));
    if source.len() == 0 {
        assert(there[from].runs == source);
        assert(there[to].runs == target);
        if target.len() > 0 {
            assert(target[target.len() - 1].quantity > 0);
            assert(target.update(target.len() - 1, target.last()) =~= target);
        }
        assert(here[from].runs =~= source);
        assert(here[to].runs =~= target);
    } else {
        assert(source[source.len() - 1].quantity > 0);
        assert(cargo == source.last());
        assert(cargo.weight() == cargo.quantity);
        assert(there[from].runs == source.drop_last());
        if target.len() > 0 {
            assert(target[target.len() - 1].quantity > 0);
            assert(target.last().id == cargo.id);
            assert(there[to].runs.last().quantity == target.last().quantity + cargo.quantity);
            assert(taken(there[to].runs, back) == cargo);
            assert(here[to].runs =~= target);
        } else {
            assert(there[to].runs =~= seq![cargo]);
            assert(taken(there[to].runs, back) == cargo);
            assert(here[to].runs =~= target);
        }
        if source.len() > 1 {
            assert(source[source.len() - 2].id != source[source.len() - 1].id);
        }
        assert(here[from].runs =~= source);
    }
    assert(here[from] == stacks[from]);
    assert(here[to] == stacks[to]);
    assert(here =~= stacks);
}

/// The count of a kind, stack by stack.
pub proof fn lemma_units_in_next(stacks: Seq<StackView>, k: int, id: KindId)
    requires
        0 <= k < stacks.len(),
    ensures
        units_in(stacks.take(k + 1), id) == units_in(stacks.take(k), id) + stacks[k].units_of(id),
{
    assert(stacks.take(k + 1).drop_last() =~= stacks.take(k));
}

/// Part of the board holds no more of a kind than the whole.
pub proof fn lemma_units_in_prefix(stacks: Seq<StackView>, k: int, id: KindId)
    requires
        0 <= k <= stacks.len(),
    ensures
        units_in(stacks.take(k), id) <= units_in(stacks, id),
    decreases stacks.len() - k,
{
    if k == stacks.len() {
        assert(stacks.take(k) =~= stacks);
    } else {
        lemma_units_in_next(stacks, k, id);
        lemma_units_in_prefix(stacks, k + 1, id);
    }
}

} // verus!
