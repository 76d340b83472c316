//! The census of a board: its kinds in ascending order of id, each with the
//! number of its units. The place of a kind in the census is its index.

use vstd::prelude::*;
use crate::game::board::units_in;
use crate::game::stack::kind::{Kind, KindId, EMPTY_SLOT_VALUE};
use crate::game::stack::runs::{lemma_counted_has_run, lemma_run_counted, proper, units_of};
use crate::game::stack::StackView;

verus! {

/// The most kinds a game can tell apart.
pub const MAX_KINDS: usize = 63;

/// No id occurs twice.
pub open spec fn distinct(census: Seq<Kind>) -> bool {
    forall|i: int, j: int|
        0 <= i < j < census.len() ==> (#[trigger] census[i]).id != (#[trigger] census[j]).id
}

/// The ids rise strictly from entry to entry.
pub open spec fn ascending(census: Seq<Kind>) -> bool {
    forall|i: int, j: int|
        0 <= i < j < census.len() ==> (#[trigger] census[i]).id < (#[trigger] census[j]).id
}

/// The census counts the board: of every kind it lists as many units as the
/// stacks hold.
pub open spec fn counts(census: Seq<Kind>, stacks: Seq<StackView>) -> bool {
    forall|id: KindId|
        #![trigger units_of(census, id)]
        #![trigger units_in(stacks, id)]
        units_of(census, id) == units_in(stacks, id)
}

/// `census` is the census of the board: every entry a real kind with at
/// least one unit, the ids ascending, the quantities those of the board.
pub open spec fn census_of(census: Seq<Kind>, stacks: Seq<StackView>) -> bool {
    &&& proper(census)
    &&& ascending(census)
    &&& counts(census, stacks)
}

/// The census has an entry for `id`.
pub open spec fn listed(census: Seq<Kind>, id: KindId) -> bool {
    exists|i: int| 0 <= i < census.len() && (#[trigger] census[i]).id == id
}

/// The index of the kind `id`: the place of its entry in the census.
pub open spec fn kind_index(census: Seq<Kind>, id: KindId) -> int {
    choose|i: int| 0 <= i < census.len() && (#[trigger] census[i]).id == id
}

/// The number of units of the kind `id` that the census records.
pub open spec fn units_per_kind(census: Seq<Kind>, id: KindId) -> nat {
    units_of(census, id)
}

/// The kinds that have a unit on the board.
pub open spec fn kinds_on(stacks: Seq<StackView>) -> Set<KindId> {
    Set::new(|id: KindId| units_in(stacks, id) > 0)
}

/// A kind without an entry has no units in the census.
pub proof fn lemma_unlisted(census: Seq<Kind>, id: KindId)
    requires
        !listed(census, id),
    ensures
        units_of(census, id) == 0,
    decreases census.len(),
{
    if census.len() > 0 {
        assert(census[census.len() - 1].id != id);
        assert forall|i: int| 0 <= i < census.drop_last().len() implies (
        #[trigger] census.drop_last()[i]).id != id by {
            assert(census[i].id != id);
        }
        lemma_unlisted(census.drop_last(), id);
    }
}

/// Where no id occurs twice, an entry's quantity is all the census holds
/// of its kind, and its place is the index of its kind.
pub proof fn lemma_entry(census: Seq<Kind>, i: int)
    requires
        distinct(census),
        0 <= i < census.len(),
    ensures
        units_of(census, census[i].id) == census[i].quantity,
        kind_index(census, census[i].id) == i,
        listed(census, census[i].id),
    decreases census.len(),
{
    let id = census[i].id;
    let rest = census.drop_last();
    assert forall|a: int, b: int| 0 <= a < b < rest.len() implies (#[trigger] rest[a]).id != (
    #[trigger] rest[b]).id by {
        assert(census[a].id != census[b].id);
    }
    if i == census.len() - 1 {
        assert forall|a: int| 0 <= a < rest.len() implies (#[trigger] rest[a]).id != id by {
            assert(census[a].id != census[i].id);
        }
        lemma_unlisted(rest, id);
    } else {
        assert(rest[i] == census[i]);
        assert(census[i].id != census[census.len() - 1].id);
        lemma_entry(rest, i);
    }
    let k = kind_index(census, id);
    if k < i {
        assert(census[k].id != census[i].id);
    } else if i < k {
        assert(census[i].id != census[k].id);
    }
}

/// The index of a kind is its rank: a kind has a smaller index than
/// another exactly where it has the smaller id.
pub proof fn law_index_is_rank(census: Seq<Kind>, i: int, j: int)
    requires
        ascending(census),
        0 <= i < census.len(),
        0 <= j < census.len(),
    ensures
        kind_index(census, census[i].id) == i,
        kind_index(census, census[j].id) == j,
        i < j <==> census[i].id < census[j].id,
{
    lemma_ascending_distinct(census);
    lemma_entry(census, i);
    lemma_entry(census, j);
    if j < i {
        assert(census[j].id < census[i].id);
    }
    if i < j {
        assert(census[i].id < census[j].id);
    }
}

/// Ascending ids are distinct ids.
pub proof fn lemma_ascending_distinct(census: Seq<Kind>)
    requires
        ascending(census),
    ensures
        distinct(census),
{
    assert forall|i: int, j: int| 0 <= i < j < census.len() implies (#[trigger] census[i]).id != (
    #[trigger] census[j]).id by {
        assert(census[i].id < census[j].id);
    }
}

/// A kind of which the census holds a unit has an entry.
pub proof fn lemma_listed(census: Seq<Kind>, id: KindId)
    requires
        units_of(census, id) > 0,
    ensures
        listed(census, id),
        0 <= kind_index(census, id) < census.len(),
        census[kind_index(census, id)].id == id,
{
    let r = lemma_counted_has_run(census, id);
    assert(census[r].id == id);
}

/// What a census holds of a kind is a machine integer.
pub proof fn lemma_census_bounded(census: Seq<Kind>, id: KindId)
    requires
        ascending(census),
    ensures
        units_of(census, id) <= usize::MAX,
{
    if units_of(census, id) > 0 {
        lemma_listed(census, id);
        lemma_ascending_distinct(census);
        lemma_entry(census, kind_index(census, id));
    }
}

/// A kind that shows on top of a stack of the board is listed in the
/// board's census.
pub proof fn lemma_top_listed(census: Seq<Kind>, stacks: Seq<StackView>, s: int)
    requires
        counts(census, stacks),
        0 <= s < stacks.len(),
        stacks[s].wf(),
        stacks[s].top_id() != EMPTY_SLOT_VALUE,
    ensures
        listed(census, stacks[s].top_id()),
        0 <= kind_index(census, stacks[s].top_id()) < census.len(),
        census[kind_index(census, stacks[s].top_id())].id == stacks[s].top_id(),
{
    let runs = stacks[s].runs;
    let id = stacks[s].top_id();
    assert(runs[runs.len() - 1].quantity > 0);
    lemma_run_counted(runs, runs.len() - 1);
    crate::game::board::lemma_units_in_stack(stacks, s, id);
    assert(units_of(census, id) == units_in(stacks, id));
    lemma_listed(census, id);
}

/// A board has one census only.
pub proof fn lemma_census_unique(first: Seq<Kind>, second: Seq<Kind>, stacks: Seq<StackView>)
    requires
        census_of(first, stacks),
        census_of(second, stacks),
    ensures
        first == second,
{
    lemma_same_counts_same_census(first, second);
}

proof fn lemma_same_counts_same_census(first: Seq<Kind>, second: Seq<Kind>)
    requires
        proper(first),
        ascending(first),
        proper(second),
        ascending(second),
        forall|id: KindId| units_of(first, id) == units_of(second, id),
    ensures
        first == second,
    decreases first.len(),
{
    lemma_ascending_distinct(first);
    lemma_ascending_distinct(second);
    if first.len() == 0 {
        if second.len() > 0 {
            lemma_entry(second, 0);
            assert(second[0].quantity > 0);
            assert(units_of(first, second[0].id) == units_of(second, second[0].id));
        }
        assert(first =~= second);
    } else {
        let a = first.len() - 1;
        lemma_entry(first, a);
        assert(first[a].quantity > 0);
        assert(units_of(first, first[a].id) == units_of(second, first[a].id));
        lemma_listed(second, first[a].id);
        let b = second.len() - 1;
        lemma_entry(second, b);
        assert(second[b].quantity > 0);
        assert(units_of(first, second[b].id) == units_of(second, second[b].id));
        lemma_listed(first, second[b].id);
        let p = kind_index(second, first[a].id);
        let q = kind_index(first, second[b].id);
        if p < b {
            assert(second[p].id < second[b].id);
        }
        if q < a {
            assert(first[q].id < first[a].id);
        }
        assert(first[a].id == second[b].id);
        assert(first[a] == second[b]);
        let f = first.drop_last();
        let g = second.drop_last();
        assert forall|i: int| 0 <= i < f.len() implies (#[trigger] f[i]).id != EMPTY_SLOT_VALUE
            && f[i].quantity > 0 by {
            assert(first[i].id != EMPTY_SLOT_VALUE);
        }
        assert forall|i: int| 0 <= i < g.len() implies (#[trigger] g[i]).id != EMPTY_SLOT_VALUE
            && g[i].quantity > 0 by {
            assert(second[i].id != EMPTY_SLOT_VALUE);
        }
        assert forall|i: int, j: int| 0 <= i < j < f.len() implies (#[trigger] f[i]).id < (
        #[trigger] f[j]).id by {
            assert(first[i].id < first[j].id);
        }
        assert forall|i: int, j: int| 0 <= i < j < g.len() implies (#[trigger] g[i]).id < (
        #[trigger] g[j]).id by {
            assert(second[i].id < second[j].id);
        }
        assert forall|id: KindId| units_of(f, id) == units_of(g, id) by {
            assert(units_of(first, id) == units_of(second, id));
        }
        lemma_same_counts_same_census(f, g);
        assert(first =~= f.push(first[a]));
        assert(second =~= g.push(second[b]));
    }
}

/// The entries of a census are the kinds on the board, one entry each.
pub proof fn lemma_census_length(census: Seq<Kind>, stacks: Seq<StackView>)
    requires
        proper(census),
        distinct(census),
        counts(census, stacks),
    ensures
        kinds_on(stacks).finite(),
        kinds_on(stacks).len() == census.len(),
{
    let ids = census.map_values(|kind: Kind| kind.id);
    assert forall|i: int, j: int| 0 <= i < ids.len() && 0 <= j < ids.len() && i != j implies ids[i]
        != ids[j] by {
        if i < j {
            assert(census[i].id != census[j].id);
        } else {
            assert(census[j].id != census[i].id);
        }
    }
    assert(ids.no_duplicates());
    assert forall|id: KindId| ids.to_set().contains(id) == kinds_on(stacks).contains(id) by {
        if ids.to_set().contains(id) {
            let i = choose|i: int| 0 <= i < ids.len() && ids[i] == id;
            assert(census[i].id == id);
            assert(census[i].quantity > 0);
            lemma_entry(census, i);
            assert(units_of(census, id) == units_in(stacks, id));
        }
        if kinds_on(stacks).contains(id) {
            assert(units_of(census, id) == units_in(stacks, id));
            lemma_listed(census, id);
            let i = kind_index(census, id);
            assert(ids[i] == id);
        }
    }
    assert(ids.to_set() =~= kinds_on(stacks));
    ids.unique_seq_to_set();
}

} // verus!
