//! The completion mask: one bit for each kind of the census, kept up to
//! date by looking at the top of the stacks that a move has touched.

use vstd::prelude::*;
use crate::game::bits::{
    bit, full_mask, lemma_is_full_mask, lemma_full_mask, lemma_no_bits, lemma_with_bit,
    lemma_without_bit, with_bit, without_bit,
};
use crate::game::board::{
    board_wf, can_carry, carried, lemma_carried, lemma_units_in_stack,
    lemma_units_in_two_stacks, units_in,
};
use crate::game::census::{
    ascending, counts, kind_index, lemma_ascending_distinct, lemma_entry, lemma_top_listed,
};
use crate::game::stack::kind::{Kind, KindId, EMPTY_SLOT_VALUE};
use crate::game::stack::runs::{
    lemma_popped, lemma_pushed, lemma_run_counted, lemma_two_runs_counted, proper, taken, top_run,
    units_of,
};
use crate::game::stack::StackView;

verus! {

/// The top run of the stack `s` is exactly `kind`.
pub open spec fn crowned_at(stacks: Seq<StackView>, s: int, kind: Kind) -> bool {
    0 <= s < stacks.len() && top_run(stacks[s].runs) == kind
}

/// Some stack has exactly `kind` as its top run.
pub open spec fn crowned(stacks: Seq<StackView>, kind: Kind) -> bool {
    exists|s: int| crowned_at(stacks, s, kind)
}

/// A stack below `upto` has exactly `kind` as its top run.
pub open spec fn crowned_below(stacks: Seq<StackView>, upto: int, kind: Kind) -> bool {
    exists|s: int| s < upto && crowned_at(stacks, s, kind)
}

/// The run `r` of the stack `s` is exactly `kind`.
pub open spec fn gathered_at(stacks: Seq<StackView>, s: int, r: int, kind: Kind) -> bool {
    0 <= s < stacks.len() && 0 <= r < stacks[s].runs.len() && stacks[s].runs[r] == kind
}

/// Some run of some stack is exactly `kind`.
pub open spec fn gathered(stacks: Seq<StackView>, kind: Kind) -> bool {
    exists|s: int, r: int| gathered_at(stacks, s, r, kind)
}

/// The stack `s` holds exactly `kind` and nothing else.
pub open spec fn alone_at(stacks: Seq<StackView>, s: int, kind: Kind) -> bool {
    0 <= s < stacks.len() && stacks[s].runs == seq![kind]
}

/// Some stack holds exactly `kind` and nothing else.
pub open spec fn alone(stacks: Seq<StackView>, kind: Kind) -> bool {
    exists|s: int| alone_at(stacks, s, kind)
}

/// What the bit of the kind with index `i` tells: it is set where the
/// kind's units form the top run of a stack, and only where they form one
/// run of a stack.
pub open spec fn kind_fits(census: Seq<Kind>, stacks: Seq<StackView>, mask: u64, i: int) -> bool {
    &&& crowned(stacks, census[i]) ==> bit(mask, i)
    &&& bit(mask, i) ==> gathered(stacks, census[i])
}

/// No bit is set beyond the kinds of the census.
pub open spec fn high_clear(census: Seq<Kind>, mask: u64) -> bool {
    forall|i: int| census.len() <= i < 64 ==> !#[trigger] bit(mask, i)
}

/// The mask fits the board, kind by kind.
pub open spec fn mask_fits(census: Seq<Kind>, stacks: Seq<StackView>, mask: u64) -> bool {
    &&& high_clear(census, mask)
    &&& forall|i: int| 0 <= i < census.len() ==> #[trigger] kind_fits(census, stacks, mask, i)
}

/// The mask after a look at one stack. An empty stack changes nothing.
/// Otherwise the bit of the kind on top is set where the top run holds all
/// units of that kind, and cleared where it does not.
pub open spec fn refreshed(mask: u64, census: Seq<Kind>, stack: StackView) -> u64 {
    if stack.top_id() == EMPTY_SLOT_VALUE {
        mask
    } else if stack.top_quantity() == census[kind_index(census, stack.top_id())].quantity {
        with_bit(mask, kind_index(census, stack.top_id()))
    } else {
        without_bit(mask, kind_index(census, stack.top_id()))
    }
}

/// The empty mask after a look at each of the first `upto` stacks in turn.
pub open spec fn scanned(census: Seq<Kind>, stacks: Seq<StackView>, upto: int) -> u64
    decreases upto,
{
    if upto <= 0 {
        0
    } else {
        refreshed(scanned(census, stacks, upto - 1), census, stacks[upto - 1])
    }
}

/// The mask of a board on which nothing has been played yet.
pub open spec fn initial_mask(census: Seq<Kind>, stacks: Seq<StackView>) -> u64 {
    scanned(census, stacks, stacks.len() as int)
}

/// Every kind of the census has its bit set, and no other bit is.
pub open spec fn all_set(census: Seq<Kind>, mask: u64) -> bool {
    mask == full_mask(census.len() as int)
}

/// A run that holds all units of its kind is the only run of that kind.
pub proof fn lemma_complete_run_is_lone(
    census: Seq<Kind>,
    stacks: Seq<StackView>,
    i: int,
    s: int,
    r: int,
    t: int,
    q: int,
)
    requires
        ascending(census),
        counts(census, stacks),
        0 <= i < census.len(),
        gathered_at(stacks, s, r, census[i]),
        0 <= t < stacks.len(),
        0 <= q < stacks[t].runs.len(),
        stacks[t].runs[q].id == census[i].id,
        stacks[t].runs[q].quantity > 0,
    ensures
        s == t,
        r == q,
{
    let id = census[i].id;
    lemma_ascending_distinct(census);
    lemma_entry(census, i);
    assert(units_of(census, id) == units_in(stacks, id));
    lemma_run_counted(stacks[s].runs, r);
    lemma_run_counted(stacks[t].runs, q);
    if s < t {
        lemma_units_in_two_stacks(stacks, s, t, id);
    } else if t < s {
        lemma_units_in_two_stacks(stacks, t, s, id);
    } else {
        lemma_units_in_stack(stacks, s, id);
        if r < q {
            lemma_two_runs_counted(stacks[s].runs, r, q);
        } else if q < r {
            lemma_two_runs_counted(stacks[s].runs, q, r);
        }
    }
}

/// A look at the stack `s` settles the bit of the kind on its top and leaves
/// every other bit alone.
pub proof fn lemma_refreshed(
    census: Seq<Kind>,
    stacks: Seq<StackView>,
    mask: u64,
    s: int,
    i: int,
)
    requires
        proper(census),
        ascending(census),
        census.len() < 64,
        counts(census, stacks),
        board_wf(stacks),
        0 <= s < stacks.len(),
        0 <= i < census.len(),
    ensures
        high_clear(census, mask) ==> high_clear(census, refreshed(mask, census, stacks[s])),
        census[i].id == stacks[s].top_id() ==> kind_fits(
            census,
            stacks,
            refreshed(mask, census, stacks[s]),
            i,
        ),
        census[i].id == stacks[s].top_id() ==> bit(refreshed(mask, census, stacks[s]), i)
            == crowned_at(stacks, s, census[i]),
        census[i].id != stacks[s].top_id() ==> bit(refreshed(mask, census, stacks[s]), i) == bit(
            mask,
            i,
        ),
{
    let stack = stacks[s];
    let after = refreshed(mask, census, stack);
    assert(stack.wf());
    lemma_ascending_distinct(census);
    lemma_entry(census, i);
    if stack.top_id() != EMPTY_SLOT_VALUE {
        lemma_top_listed(census, stacks, s);
        let k = kind_index(census, stack.top_id());
        lemma_entry(census, k);
        lemma_with_bit(mask, k, i);
        lemma_without_bit(mask, k, i);
        if high_clear(census, mask) {
            assert forall|j: int| census.len() <= j < 64 implies !#[trigger] bit(after, j) by {
                lemma_with_bit(mask, k, j);
                lemma_without_bit(mask, k, j);
                assert(!bit(mask, j));
            }
        }
        if census[i].id == stack.top_id() {
            assert(k == i);
            let top = stack.runs.len() - 1;
            assert(stack.runs[top].quantity > 0);
            if stack.top_quantity() == census[i].quantity {
                assert(crowned_at(stacks, s, census[i]));
                assert(gathered_at(stacks, s, top, census[i]));
            } else {
                if crowned(stacks, census[i]) {
                    let t = choose|t: int| crowned_at(stacks, t, census[i]);
                    assert(census[i].id != EMPTY_SLOT_VALUE);
                    assert(gathered_at(stacks, t, stacks[t].runs.len() - 1, census[i]));
                    lemma_complete_run_is_lone(
                        census,
                        stacks,
                        i,
                        t,
                        stacks[t].runs.len() - 1,
                        s,
                        top,
                    );
                }
            }
        }
    }
}

/// A bit that no look has touched still fits after units have been carried,
/// as long as its kind shows on top of neither of the two stacks.
pub proof fn lemma_fit_carried(
    census: Seq<Kind>,
    stacks: Seq<StackView>,
    from: int,
    to: int,
    limit: Option<usize>,
    mask: u64,
    i: int,
)
    requires
        proper(census),
        board_wf(stacks),
        can_carry(stacks, from, to, limit),
        0 <= i < census.len(),
        kind_fits(census, stacks, mask, i),
        census[i].id != carried(stacks, from, to, limit)[from].top_id(),
        census[i].id != carried(stacks, from, to, limit)[to].top_id(),
    ensures
        kind_fits(census, carried(stacks, from, to, limit), mask, i),
{
    let after = carried(stacks, from, to, limit);
    let kind = census[i];
    let cargo = taken(stacks[from].runs, limit);
    assert(kind.id != EMPTY_SLOT_VALUE);
    assert(stacks[from].wf());
    assert(stacks[to].wf());
    lemma_carried(stacks, from, to, limit, kind.id);
    lemma_popped(stacks[from].runs, limit, kind.id);
    lemma_pushed(stacks[to].runs, cargo, kind.id);
    assert(after[from] == stacks[from].popped(limit));
    assert(after[to] == stacks[to].pushed(cargo));
    if crowned(after, kind) {
        let s = choose|s: int| crowned_at(after, s, kind);
        assert(after[s].top_id() == kind.id);
        assert(after[s] == stacks[s]);
        assert(crowned_at(stacks, s, kind));
    }
    if bit(mask, i) {
        let (s, r) = choose|s: int, r: int| gathered_at(stacks, s, r, kind);
        if s == from {
            let runs = stacks[from].runs;
            if r == runs.len() - 1 {
                assert(runs[r].quantity > 0);
                if limit is Some && limit->0 < runs.last().quantity {
                    assert(after[from].top_id() == kind.id);
                } else {
                    assert(cargo == kind);
                    assert(after[to].top_id() == kind.id);
                }
            }
            assert(gathered_at(after, s, r, kind));
        } else if s == to {
            let runs = stacks[to].runs;
            if cargo.weight() > 0 && runs.last().id == cargo.id {
                if r == runs.len() - 1 {
                    assert(after[to].top_id() == kind.id);
                }
            }
            assert(gathered_at(after, s, r, kind));
        } else {
            assert(after[s] == stacks[s]);
            assert(gathered_at(after, s, r, kind));
        }
    }
}

/// A mask that fits the board fits it again once units have been carried
/// and the two stacks looked at, the giving one first.
pub proof fn lemma_mask_carried(
    census: Seq<Kind>,
    stacks: Seq<StackView>,
    from: int,
    to: int,
    limit: Option<usize>,
    mask: u64,
)
    requires
        proper(census),
        ascending(census),
        census.len() < 64,
        counts(census, stacks),
        board_wf(stacks),
        can_carry(stacks, from, to, limit),
        mask_fits(census, stacks, mask),
    ensures
        board_wf(carried(stacks, from, to, limit)),
        counts(census, carried(stacks, from, to, limit)),
        mask_fits(
            census,
            carried(stacks, from, to, limit),
            refreshed(
                refreshed(mask, census, carried(stacks, from, to, limit)[from]),
                census,
                carried(stacks, from, to, limit)[to],
            ),
        ),
{
    let after = carried(stacks, from, to, limit);
    let first = refreshed(mask, census, after[from]);
    let second = refreshed(first, census, after[to]);
    lemma_carried(stacks, from, to, limit, EMPTY_SLOT_VALUE);
    assert forall|id: KindId| units_of(census, id) == units_in(after, id) by {
        lemma_carried(stacks, from, to, limit, id);
        assert(units_of(census, id) == units_in(stacks, id));
    }
    if census.len() > 0 {
        lemma_refreshed(census, after, mask, from, 0);
        lemma_refreshed(census, after, first, to, 0);
    } else {
        lemma_full_clear_stays(census, after, mask, from);
        lemma_full_clear_stays(census, after, first, to);
    }
    assert forall|i: int| 0 <= i < census.len() implies #[trigger] kind_fits(
        census,
        after,
        second,
        i,
    ) by {
        assert(kind_fits(census, stacks, mask, i));
        lemma_refreshed(census, after, mask, from, i);
        lemma_refreshed(census, after, first, to, i);
        if census[i].id != after[to].top_id() && census[i].id != after[from].top_id() {
            lemma_fit_carried(census, stacks, from, to, limit, mask, i);
        }
    }
}

/// On a board without kinds every stack is empty, and a look changes
/// nothing.
pub proof fn lemma_full_clear_stays(
    census: Seq<Kind>,
    stacks: Seq<StackView>,
    mask: u64,
    s: int,
)
    requires
        census.len() == 0,
        counts(census, stacks),
        board_wf(stacks),
        0 <= s < stacks.len(),
    ensures
        refreshed(mask, census, stacks[s]) == mask,
{
    if stacks[s].top_id() != EMPTY_SLOT_VALUE {
        lemma_top_listed(census, stacks, s);
    }
}

/// The mask of an untouched board holds exactly the kinds whose units form
/// the top run of a stack.
pub proof fn lemma_scanned(census: Seq<Kind>, stacks: Seq<StackView>, upto: int)
    requires
        proper(census),
        ascending(census),
        census.len() < 64,
        counts(census, stacks),
        board_wf(stacks),
        0 <= upto <= stacks.len(),
    ensures
        high_clear(census, scanned(census, stacks, upto)),
        forall|i: int|
            0 <= i < census.len() ==> #[trigger] bit(scanned(census, stacks, upto), i)
                == crowned_below(stacks, upto, census[i]),
    decreases upto,
{
    let now = scanned(census, stacks, upto);
    if upto == 0 {
        assert forall|i: int| 0 <= i < 64 implies !#[trigger] bit(now, i) by {
            lemma_no_bits(i);
        }
    } else {
        let s = upto - 1;
        let before = scanned(census, stacks, s);
        lemma_scanned(census, stacks, s);
        if census.len() > 0 {
            lemma_refreshed(census, stacks, before, s, 0);
        } else {
            lemma_full_clear_stays(census, stacks, before, s);
        }
        assert forall|i: int| 0 <= i < census.len() implies #[trigger] bit(now, i)
            == crowned_below(stacks, upto, census[i]) by {
            lemma_refreshed(census, stacks, before, s, i);
            assert(bit(before, i) == crowned_below(stacks, s, census[i]));
            assert(census[i].id != EMPTY_SLOT_VALUE);
            assert(stacks[s].wf());
            if census[i].id == stacks[s].top_id() {
                if crowned_below(stacks, upto, census[i]) {
                    let t = choose|t: int| t < upto && crowned_at(stacks, t, census[i]);
                    let top = stacks[s].runs.len() - 1;
                    assert(stacks[s].runs[top].quantity > 0);
                    assert(gathered_at(stacks, t, stacks[t].runs.len() - 1, census[i]));
                    lemma_complete_run_is_lone(
                        census,
                        stacks,
                        i,
                        t,
                        stacks[t].runs.len() - 1,
                        s,
                        top,
                    );
                }
                if crowned_at(stacks, s, census[i]) {
                    assert(s < upto && crowned_at(stacks, s, census[i]));
                }
            } else {
                assert(!crowned_at(stacks, s, census[i]));
                if crowned_below(stacks, upto, census[i]) {
                    let t = choose|t: int| t < upto && crowned_at(stacks, t, census[i]);
                    assert(t < s && crowned_at(stacks, t, census[i]));
                }
                if crowned_below(stacks, s, census[i]) {
                    let t = choose|t: int| t < s && crowned_at(stacks, t, census[i]);
                    assert(t < upto && crowned_at(stacks, t, census[i]));
                }
            }
        }
    }
}

/// The mask of an untouched board fits the board.
pub proof fn lemma_initial_mask(census: Seq<Kind>, stacks: Seq<StackView>)
    requires
        proper(census),
        ascending(census),
        census.len() < 64,
        counts(census, stacks),
        board_wf(stacks),
    ensures
        mask_fits(census, stacks, initial_mask(census, stacks)),
        forall|i: int|
            0 <= i < census.len() ==> #[trigger] bit(initial_mask(census, stacks), i) == crowned(
                stacks,
                census[i],
            ),
{
    let mask = initial_mask(census, stacks);
    lemma_scanned(census, stacks, stacks.len() as int);
    assert forall|i: int| 0 <= i < census.len() implies #[trigger] bit(mask, i) == crowned(
        stacks,
        census[i],
    ) by {
        assert(bit(mask, i) == crowned_below(stacks, stacks.len() as int, census[i]));
        if crowned(stacks, census[i]) {
            let t = choose|t: int| crowned_at(stacks, t, census[i]);
            assert(t < stacks.len() && crowned_at(stacks, t, census[i]));
        }
        if crowned_below(stacks, stacks.len() as int, census[i]) {
            let t = choose|t: int| t < stacks.len() && crowned_at(stacks, t, census[i]);
            assert(crowned_at(stacks, t, census[i]));
        }
    }
    assert forall|i: int| 0 <= i < census.len() implies #[trigger] kind_fits(
        census,
        stacks,
        mask,
        i,
    ) by {
        assert(bit(mask, i) == crowned(stacks, census[i]));
        if crowned(stacks, census[i]) {
            let t = choose|t: int| crowned_at(stacks, t, census[i]);
            assert(census[i].id != EMPTY_SLOT_VALUE);
            assert(gathered_at(stacks, t, stacks[t].runs.len() - 1, census[i]));
        }
    }
}

/// A look at a stack changes nothing in a mask that fits the board: what
/// the top of the stack tells, the mask holds already.
pub proof fn lemma_look_changes_nothing(
    census: Seq<Kind>,
    stacks: Seq<StackView>,
    mask: u64,
    s: int,
)
    requires
        proper(census),
        ascending(census),
        census.len() < 64,
        counts(census, stacks),
        board_wf(stacks),
        mask_fits(census, stacks, mask),
        0 <= s < stacks.len(),
    ensures
        refreshed(mask, census, stacks[s]) == mask,
{
    let after = refreshed(mask, census, stacks[s]);
    assert(stacks[s].wf());
    if stacks[s].top_id() != EMPTY_SLOT_VALUE {
        lemma_top_listed(census, stacks, s);
        let k = kind_index(census, stacks[s].top_id());
        assert forall|j: int| 0 <= j < 64 implies bit(after, j) == bit(mask, j) by {
            lemma_with_bit(mask, k, j);
            lemma_without_bit(mask, k, j);
            if j == k {
                lemma_refreshed(census, stacks, mask, s, k);
                assert(kind_fits(census, stacks, mask, k));
                assert(kind_fits(census, stacks, after, k));
                let top = stacks[s].runs.len() - 1;
                assert(stacks[s].runs[top].quantity > 0);
                if bit(mask, k) && !bit(after, k) {
                    let (t, r) = choose|t: int, r: int| gathered_at(stacks, t, r, census[k]);
                    lemma_complete_run_is_lone(census, stacks, k, t, r, s, top);
                    assert(crowned_at(stacks, s, census[k]));
                }
                if bit(after, k) && !bit(mask, k) {
                    assert(crowned_at(stacks, s, census[k]));
                }
            }
        }
        crate::game::bits::lemma_masks_equal(after, mask);
    }
}

/// The stage is complete exactly where every kind of the census has its
/// bit set.
pub proof fn lemma_all_set(census: Seq<Kind>, mask: u64)
    requires
        census.len() < 64,
        high_clear(census, mask),
    ensures
        all_set(census, mask) <==> (forall|i: int| 0 <= i < census.len() ==> bit(mask, i)),
{
    let n = census.len() as int;
    if all_set(census, mask) {
        assert forall|i: int| 0 <= i < census.len() implies bit(mask, i) by {
            lemma_full_mask(n, i);
        }
    }
    if forall|i: int| 0 <= i < census.len() ==> bit(mask, i) {
        assert forall|j: int| 0 <= j < 64 implies bit(mask, j) == (j < n) by {
            if j >= n {
                assert(!bit(mask, j));
            }
        }
        lemma_is_full_mask(mask, n);
    }
}

} // verus!
