//! The mathematics of run-length sequences: a stack's contents, bottom to
//! top, as a sequence of runs.

use vstd::prelude::*;
use crate::game::stack::kind::{Kind, KindId, EMPTY_SLOT_VALUE};

verus! {

/// The number of units in all runs together.
pub open spec fn total_quantity(runs: Seq<Kind>) -> nat
    decreases runs.len(),
{
    if runs.len() == 0 {
        0
    } else {
        total_quantity(runs.drop_last()) + runs.last().quantity as nat
    }
}

/// The number of units of the kind `id` in all runs together.
pub open spec fn units_of(runs: Seq<Kind>, id: KindId) -> nat
    decreases runs.len(),
{
    if runs.len() == 0 {
        0
    } else {
        units_of(runs.drop_last(), id) + if runs.last().id == id {
            runs.last().quantity as nat
        } else {
            0
        }
    }
}

/// `quantity` copies of `id`.
pub open spec fn repeated(id: KindId, quantity: nat) -> Seq<KindId> {
    Seq::new(quantity, |i: int| id)
}

/// The runs written out unit by unit, bottom to top.
pub open spec fn unit_ids(runs: Seq<Kind>) -> Seq<KindId>
    decreases runs.len(),
{
    if runs.len() == 0 {
        Seq::empty()
    } else {
        unit_ids(runs.drop_last()) + repeated(runs.last().id, runs.last().quantity as nat)
    }
}

/// Every run holds at least one unit of a real kind.
pub open spec fn proper(runs: Seq<Kind>) -> bool {
    forall|i: int|
        0 <= i < runs.len() ==> (#[trigger] runs[i]).id != EMPTY_SLOT_VALUE && runs[i].quantity > 0
}

/// No two adjacent runs share an id.
pub open spec fn merged(runs: Seq<Kind>) -> bool {
    forall|i: int, j: int|
        0 <= i && j == i + 1 && j < runs.len() ==> (#[trigger] runs[i]).id != (#[trigger] runs[j]).id
}

/// The id of the last run, or the empty id where there is none.
pub open spec fn top_id(runs: Seq<Kind>) -> KindId {
    if runs.len() == 0 {
        EMPTY_SLOT_VALUE
    } else {
        runs.last().id
    }
}

/// The quantity of the last run, or 0 where there is none.
pub open spec fn top_quantity(runs: Seq<Kind>) -> usize {
    if runs.len() == 0 {
        0
    } else {
        runs.last().quantity
    }
}

/// The last run, or the empty kind where there is none.
pub open spec fn top_run(runs: Seq<Kind>) -> Kind {
    if runs.len() == 0 {
        Kind { id: EMPTY_SLOT_VALUE, quantity: 0 }
    } else {
        runs.last()
    }
}

/// What leaves the top when up to `limit` units are taken (the whole top run
/// where there is no limit).
pub open spec fn taken(runs: Seq<Kind>, limit: Option<usize>) -> Kind {
    if runs.len() == 0 {
        Kind { id: EMPTY_SLOT_VALUE, quantity: 0 }
    } else {
        match limit {
            Some(n) if n < runs.last().quantity => Kind { id: runs.last().id, quantity: n },
            _ => runs.last(),
        }
    }
}

/// What stays when up to `limit` units are taken from the top run.
pub open spec fn popped(runs: Seq<Kind>, limit: Option<usize>) -> Seq<Kind> {
    if runs.len() == 0 {
        runs
    } else {
        match limit {
            Some(n) if n < runs.last().quantity => runs.update(
                runs.len() - 1,
                Kind { id: runs.last().id, quantity: (runs.last().quantity - n) as usize },
            ),
            _ => runs.drop_last(),
        }
    }
}

/// The runs after `kind` has been put on top: merged into the top run where
/// the ids agree, a new run otherwise. An empty kind, or one of no units,
/// adds nothing.
pub open spec fn pushed(runs: Seq<Kind>, kind: Kind) -> Seq<Kind> {
    if kind.weight() == 0 {
        runs
    } else if runs.len() > 0 && runs.last().id == kind.id {
        runs.update(
            runs.len() - 1,
            Kind { id: kind.id, quantity: (runs.last().quantity + kind.quantity) as usize },
        )
    } else {
        runs.push(kind)
    }
}

/// The run-length compression of a raw sequence of ids, in which the empty
/// id marks a free slot and is passed over.
pub open spec fn compressed(ids: Seq<KindId>) -> Seq<Kind>
    decreases ids.len(),
{
    if ids.len() == 0 {
        Seq::empty()
    } else {
        pushed(compressed(ids.drop_last()), Kind { id: ids.last(), quantity: 1 })
    }
}

/// The ids of `ids` that name a kind, in order.
pub open spec fn occupied(ids: Seq<KindId>) -> Seq<KindId> {
    ids.filter(|id: KindId| id != EMPTY_SLOT_VALUE)
}

pub proof fn lemma_push_run(runs: Seq<Kind>, kind: Kind, id: KindId)
    ensures
        total_quantity(runs.push(kind)) == total_quantity(runs) + kind.quantity,
        units_of(runs.push(kind), id) == units_of(runs, id) + if kind.id == id {
            kind.quantity as nat
        } else {
            0
        },
        unit_ids(runs.push(kind)) == unit_ids(runs) + repeated(kind.id, kind.quantity as nat),
{
    assert(runs.push(kind).drop_last() =~= runs);
}

pub proof fn lemma_replace_top(runs: Seq<Kind>, kind: Kind, id: KindId)
    requires
        runs.len() > 0,
    ensures
        runs.update(runs.len() - 1, kind) == runs.drop_last().push(kind),
        total_quantity(runs.update(runs.len() - 1, kind)) == total_quantity(runs.drop_last())
            + kind.quantity,
        units_of(runs.update(runs.len() - 1, kind), id) == units_of(runs.drop_last(), id)
            + if kind.id == id {
            kind.quantity as nat
        } else {
            0
        },
        unit_ids(runs.update(runs.len() - 1, kind)) == unit_ids(runs.drop_last()) + repeated(
            kind.id,
            kind.quantity as nat,
        ),
{
    assert(runs.update(runs.len() - 1, kind) =~= runs.drop_last().push(kind));
    lemma_push_run(runs.drop_last(), kind, id);
}

/// No kind has more units than there are units.
pub proof fn lemma_units_of_bounded(runs: Seq<Kind>, id: KindId)
    ensures
        units_of(runs, id) <= total_quantity(runs),
    decreases runs.len(),
{
    if runs.len() > 0 {
        lemma_units_of_bounded(runs.drop_last(), id);
    }
}

/// The empty id counts no units where every run is proper.
pub proof fn lemma_no_empty_units(runs: Seq<Kind>)
    requires
        proper(runs),
    ensures
        units_of(runs, EMPTY_SLOT_VALUE) == 0,
    decreases runs.len(),
{
    if runs.len() > 0 {
        assert(runs.last() == runs[runs.len() - 1]);
        assert forall|i: int| 0 <= i < runs.drop_last().len() implies (
        #[trigger] runs.drop_last()[i]).id != EMPTY_SLOT_VALUE && runs.drop_last()[i].quantity
            > 0 by {
            assert(runs.drop_last()[i] == runs[i]);
        }
        lemma_no_empty_units(runs.drop_last());
    }
}

/// A run is counted among the units of its kind.
pub proof fn lemma_run_counted(runs: Seq<Kind>, r: int)
    requires
        0 <= r < runs.len(),
    ensures
        units_of(runs, runs[r].id) >= runs[r].quantity,
    decreases runs.len(),
{
    if r < runs.len() - 1 {
        assert(runs.drop_last()[r] == runs[r]);
        lemma_run_counted(runs.drop_last(), r);
    }
}

/// Two runs of one kind are both counted among its units.
pub proof fn lemma_two_runs_counted(runs: Seq<Kind>, r: int, s: int)
    requires
        0 <= r < s < runs.len(),
        runs[r].id == runs[s].id,
    ensures
        units_of(runs, runs[r].id) >= runs[r].quantity + runs[s].quantity,
    decreases runs.len(),
{
    if s < runs.len() - 1 {
        assert(runs.drop_last()[r] == runs[r]);
        assert(runs.drop_last()[s] == runs[s]);
        lemma_two_runs_counted(runs.drop_last(), r, s);
    } else {
        assert(runs.drop_last()[r] == runs[r]);
        lemma_run_counted(runs.drop_last(), r);
    }
}

/// A kind with units has a run.
pub proof fn lemma_counted_has_run(runs: Seq<Kind>, id: KindId) -> (r: int)
    requires
        units_of(runs, id) > 0,
    ensures
        0 <= r < runs.len(),
        runs[r].id == id,
        runs[r].quantity > 0,
    decreases runs.len(),
{
    if runs.last().id == id && runs.last().quantity > 0 {
        runs.len() - 1
    } else {
        let r = lemma_counted_has_run(runs.drop_last(), id);
        assert(runs.drop_last()[r] == runs[r]);
        r
    }
}

/// Taking from the top and keeping the rest accounts for every unit.
pub proof fn lemma_popped(runs: Seq<Kind>, limit: Option<usize>, id: KindId)
    ensures
        total_quantity(popped(runs, limit)) + taken(runs, limit).quantity == total_quantity(runs),
        units_of(popped(runs, limit), id) + (if taken(runs, limit).id == id {
            taken(runs, limit).quantity as nat
        } else {
            0
        }) == units_of(runs, id),
        unit_ids(popped(runs, limit)) + repeated(
            taken(runs, limit).id,
            taken(runs, limit).quantity as nat,
        ) == unit_ids(runs),
        proper(runs) ==> proper(popped(runs, limit)),
        merged(runs) ==> merged(popped(runs, limit)),
        taken(runs, limit).id == top_id(runs),
        taken(runs, limit).quantity <= top_quantity(runs),
        proper(runs) ==> taken(runs, limit).weight() == taken(runs, limit).quantity,
{
    if runs.len() > 0 {
        let top = runs.last();
        let rest = runs.drop_last();
        let after = popped(runs, limit);
        let out = taken(runs, limit);
        if limit is Some && limit->0 < top.quantity {
            let n = limit->0;
            let left = Kind { id: top.id, quantity: (top.quantity - n) as usize };
            lemma_replace_top(runs, left, id);
            assert(unit_ids(rest) + repeated(top.id, left.quantity as nat) + repeated(
                top.id,
                n as nat,
            ) =~= unit_ids(rest) + repeated(top.id, top.quantity as nat));
            if proper(runs) {
                assert forall|i: int| 0 <= i < after.len() implies (#[trigger] after[i]).id
                    != EMPTY_SLOT_VALUE && after[i].quantity > 0 by {
                    assert(runs[i].id != EMPTY_SLOT_VALUE);
                }
            }
            if merged(runs) {
                assert forall|i: int, j: int| 0 <= i && j == i + 1 && j < after.len() implies (
                #[trigger] after[i]).id != (#[trigger] after[j]).id by {
                    assert(runs[i].id != runs[j].id);
                }
            }
        } else {
            assert(after == rest);
            if proper(runs) {
                assert forall|i: int| 0 <= i < after.len() implies (#[trigger] after[i]).id
                    != EMPTY_SLOT_VALUE && after[i].quantity > 0 by {
                    assert(runs[i].id != EMPTY_SLOT_VALUE);
                }
                assert(runs[runs.len() - 1].id != EMPTY_SLOT_VALUE);
            }
            if merged(runs) {
                assert forall|i: int, j: int| 0 <= i && j == i + 1 && j < after.len() implies (
                #[trigger] after[i]).id != (#[trigger] after[j]).id by {
                    assert(runs[i].id != runs[j].id);
                }
            }
        }
    } else {
        assert(unit_ids(runs) + repeated(EMPTY_SLOT_VALUE, 0) =~= unit_ids(runs));
    }
}

/// Putting a kind on top adds its units and nothing else, and keeps the runs
/// proper and merged.
pub proof fn lemma_pushed(runs: Seq<Kind>, kind: Kind, id: KindId)
    requires
        total_quantity(runs) + kind.weight() <= usize::MAX,
    ensures
        total_quantity(pushed(runs, kind)) == total_quantity(runs) + kind.weight(),
        units_of(pushed(runs, kind), id) == units_of(runs, id) + if kind.id == id {
            kind.weight()
        } else {
            0
        },
        unit_ids(pushed(runs, kind)) == unit_ids(runs) + repeated(kind.id, kind.weight()),
        proper(runs) ==> proper(pushed(runs, kind)),
        merged(runs) ==> merged(pushed(runs, kind)),
        kind.weight() > 0 ==> top_id(pushed(runs, kind)) == kind.id,
        kind.weight() > 0 ==> top_quantity(pushed(runs, kind)) >= kind.quantity,
{
    let after = pushed(runs, kind);
    if kind.weight() == 0 {
        assert(unit_ids(runs) + repeated(kind.id, 0) =~= unit_ids(runs));
    } else if runs.len() > 0 && runs.last().id == kind.id {
        let top = runs.last();
        let rest = runs.drop_last();
        assert(total_quantity(runs) >= top.quantity);
        let grown = Kind { id: kind.id, quantity: (top.quantity + kind.quantity) as usize };
        lemma_replace_top(runs, grown, id);
        assert(unit_ids(rest) + repeated(top.id, top.quantity as nat) + repeated(
            kind.id,
            kind.quantity as nat,
        ) =~= unit_ids(rest) + repeated(kind.id, grown.quantity as nat));
        if proper(runs) {
            assert forall|i: int| 0 <= i < after.len() implies (#[trigger] after[i]).id
                != EMPTY_SLOT_VALUE && after[i].quantity > 0 by {
                assert(runs[i].id != EMPTY_SLOT_VALUE);
            }
        }
        if merged(runs) {
            assert forall|i: int, j: int| 0 <= i && j == i + 1 && j < after.len() implies (
            #[trigger] after[i]).id != (#[trigger] after[j]).id by {
                assert(runs[i].id != runs[j].id);
            }
        }
    } else {
        lemma_push_run(runs, kind, id);
        if proper(runs) {
            assert forall|i: int| 0 <= i < after.len() implies (#[trigger] after[i]).id
                != EMPTY_SLOT_VALUE && after[i].quantity > 0 by {
                if i < runs.len() {
                    assert(runs[i].id != EMPTY_SLOT_VALUE);
                }
            }
        }
        if merged(runs) {
            assert forall|i: int, j: int| 0 <= i && j == i + 1 && j < after.len() implies (
            #[trigger] after[i]).id != (#[trigger] after[j]).id by {
                if j < runs.len() {
                    assert(runs[i].id != runs[j].id);
                }
            }
        }
    }
}

/// What a run adds to the units of the kind `id`.
pub open spec fn share(kind: Kind, id: KindId) -> nat {
    if kind.id == id {
        kind.quantity as nat
    } else {
        0
    }
}

/// How often `id` occurs in `ids`.
pub open spec fn occurrences(ids: Seq<KindId>, id: KindId) -> nat
    decreases ids.len(),
{
    if ids.len() == 0 {
        0
    } else {
        occurrences(ids.drop_last(), id) + if ids.last() == id {
            1nat
        } else {
            0nat
        }
    }
}

/// Occurrences add up over a concatenation.
pub proof fn lemma_occurrences_concat(first: Seq<KindId>, second: Seq<KindId>, id: KindId)
    ensures
        occurrences(first + second, id) == occurrences(first, id) + occurrences(second, id),
    decreases second.len(),
{
    if second.len() == 0 {
        assert(first + second =~= first);
    } else {
        assert((first + second).drop_last() =~= first + second.drop_last());
        lemma_occurrences_concat(first, second.drop_last(), id);
    }
}

/// A repetition holds its own id as often as it is long, and no other.
pub proof fn lemma_occurrences_repeated(repeat: KindId, quantity: nat, id: KindId)
    ensures
        occurrences(repeated(repeat, quantity), id) == if repeat == id {
            quantity
        } else {
            0
        },
    decreases quantity,
{
    if quantity > 0 {
        assert(repeated(repeat, quantity).drop_last() =~= repeated(repeat, (quantity - 1) as nat));
        lemma_occurrences_repeated(repeat, (quantity - 1) as nat, id);
    }
}

/// Written out unit by unit, a kind occurs as often as it has units.
pub proof fn lemma_unit_ids_count(runs: Seq<Kind>, id: KindId)
    ensures
        occurrences(unit_ids(runs), id) == units_of(runs, id),
        unit_ids(runs).len() == total_quantity(runs),
    decreases runs.len(),
{
    if runs.len() > 0 {
        lemma_unit_ids_count(runs.drop_last(), id);
        lemma_occurrences_concat(
            unit_ids(runs.drop_last()),
            repeated(runs.last().id, runs.last().quantity as nat),
            id,
        );
        lemma_occurrences_repeated(runs.last().id, runs.last().quantity as nat, id);
    }
}

/// Proper runs written out hold no empty id.
pub proof fn lemma_unit_ids_proper(runs: Seq<Kind>, k: int)
    requires
        proper(runs),
        0 <= k < unit_ids(runs).len(),
    ensures
        unit_ids(runs)[k] != EMPTY_SLOT_VALUE,
    decreases runs.len(),
{
    if runs.len() > 0 {
        let rest = runs.drop_last();
        assert(runs[runs.len() - 1].id != EMPTY_SLOT_VALUE);
        if k < unit_ids(rest).len() {
            assert forall|i: int| 0 <= i < rest.len() implies (#[trigger] rest[i]).id
                != EMPTY_SLOT_VALUE && rest[i].quantity > 0 by {
                assert(runs[i].id != EMPTY_SLOT_VALUE);
            }
            lemma_unit_ids_proper(rest, k);
        }
    }
}

/// Replacing one run changes the count of a kind by the difference between
/// the two.
pub proof fn lemma_units_of_update(runs: Seq<Kind>, p: int, kind: Kind, id: KindId)
    requires
        0 <= p < runs.len(),
    ensures
        units_of(runs.update(p, kind), id) + share(runs[p], id) == units_of(runs, id) + share(
            kind,
            id,
        ),
    decreases runs.len(),
{
    if p == runs.len() - 1 {
        assert(runs.update(p, kind).drop_last() =~= runs.drop_last());
    } else {
        assert(runs.update(p, kind).drop_last() =~= runs.drop_last().update(p, kind));
        lemma_units_of_update(runs.drop_last(), p, kind, id);
    }
}

/// Putting a run in between adds its units and nothing else.
pub proof fn lemma_units_of_insert(runs: Seq<Kind>, p: int, kind: Kind, id: KindId)
    requires
        0 <= p <= runs.len(),
    ensures
        units_of(runs.insert(p, kind), id) == units_of(runs, id) + share(kind, id),
    decreases runs.len(),
{
    if p == runs.len() {
        assert(runs.insert(p, kind) =~= runs.push(kind));
        lemma_push_run(runs, kind, id);
    } else {
        assert(runs.insert(p, kind).drop_last() =~= runs.drop_last().insert(p, kind));
        assert(runs.insert(p, kind).last() == runs.last());
        lemma_units_of_insert(runs.drop_last(), p, kind, id);
    }
}

} // verus!
