//! A capacity-limited stack of units, kept as runs.

pub mod kind;
pub mod runs;

use vstd::prelude::*;
use crate::game::stack::kind::{Kind, KindId, EMPTY_SLOT_VALUE};
use crate::game::stack::runs::{
    compressed, lemma_popped, lemma_pushed, merged, occupied, popped, proper,
    pushed, repeated, taken, top_id, top_quantity, top_run, total_quantity, unit_ids, units_of,
};

verus! {

/// What a stack is: how many units it can hold, and its runs from bottom to
/// top.
pub struct StackView {
    pub capacity: nat,
    pub runs: Seq<Kind>,
}

impl StackView {
    /// The number of units held.
    pub open spec fn occupancy(self) -> nat {
        total_quantity(self.runs)
    }

    /// The number of units that still fit.
    pub open spec fn vacancy(self) -> int {
        self.capacity - self.occupancy()
    }

    /// The id on top, the empty id for an empty stack.
    pub open spec fn top_id(self) -> KindId {
        top_id(self.runs)
    }

    /// The size of the top run, 0 for an empty stack.
    pub open spec fn top_quantity(self) -> usize {
        top_quantity(self.runs)
    }

    /// The units of the kind `id` held.
    pub open spec fn units_of(self, id: KindId) -> nat {
        units_of(self.runs, id)
    }

    /// The stack after up to `limit` units have left its top run.
    pub open spec fn popped(self, limit: Option<usize>) -> StackView {
        StackView { capacity: self.capacity, runs: popped(self.runs, limit) }
    }

    /// The stack after `kind` has been put on top.
    pub open spec fn pushed(self, kind: Kind) -> StackView {
        StackView { capacity: self.capacity, runs: pushed(self.runs, kind) }
    }

    /// The invariant of a stack: every run holds units of a real kind, no two
    /// adjacent runs share an id, and the units fit.
    pub open spec fn wf(self) -> bool {
        &&& proper(self.runs)
        &&& merged(self.runs)
        &&& self.occupancy() <= self.capacity <= usize::MAX
    }
}

/// A stack of units: its runs from bottom to top, its capacity, and the
/// number of units it holds.
pub struct Stack {
    capacity: usize,
    occupancy: usize,
    units: Vec<Kind>,
}

impl View for Stack {
    type V = StackView;

    closed spec fn view(&self) -> StackView {
        StackView { capacity: self.capacity as nat, runs: self.units@ }
    }
}

impl Stack {
    /// The stack's invariant: its view is well formed and its cached
    /// occupancy is the sum of its runs.
    pub closed spec fn well_formed(&self) -> bool {
        &&& self@.wf()
        &&& self.occupancy == total_quantity(self.units@)
    }

    /// A well-formed stack has a well-formed view.
    pub proof fn lemma_well_formed(&self)
        requires
            self.well_formed(),
        ensures
            self@.wf(),
    {
    }

    /// A stack of the given parts.
    pub fn new(capacity: usize, occupancy: usize, units: Vec<Kind>) -> (stack: Stack)
        requires
            occupancy == total_quantity(units@),
            (StackView { capacity: capacity as nat, runs: units@ }).wf(),
        ensures
            stack.well_formed(),
            stack@ == (StackView { capacity: capacity as nat, runs: units@ }),
    {
        Stack { capacity, occupancy, units }
    }

    /// A deep copy.
    pub fn clone(&self) -> (copy: Stack)
        ensures
            copy@ == self@,
            copy.well_formed() == self.well_formed(),
    {
        let mut units: Vec<Kind> = Vec::new();
        let mut i: usize = 0;
        while i < self.units.len()
            invariant
                i <= self.units.len(),
                units@ == self.units@.take(i as int),
            decreases self.units.len() - i,
        {
            units.push(self.units[i]);
            assert(self.units@.take(i as int).push(self.units@[i as int]) =~= self.units@.take(
                i + 1,
            ));
            i += 1;
        }
        assert(self.units@.take(i as int) =~= self.units@);
        Stack { capacity: self.capacity, occupancy: self.occupancy, units }
    }

    /// The stack that a row of slots describes, bottom first: as many slots
    /// as the row is long, and the row's kinds in runs, its empty slots
    /// passed over.
    pub fn new_from_vec(vec: Vec<usize>) -> (stack: Stack)
        ensures
            stack.well_formed(),
            stack@.capacity == vec@.len(),
            stack@.runs == compressed(vec@),
            unit_ids(stack@.runs) == occupied(vec@),
    {
        let capacity: usize = vec.len();
        let mut stack = Stack { capacity, occupancy: 0, units: Vec::new() };
        let mut ind: usize = 0;
        proof {
            assert(vec@.take(0) =~= Seq::<KindId>::empty());
            assert(occupied(Seq::<KindId>::empty()) =~= Seq::<KindId>::empty());
        }
        while ind < capacity
            invariant
                ind <= capacity,
                capacity == vec@.len(),
                stack.well_formed(),
                stack@.capacity == capacity,
                stack@.occupancy() <= ind,
                stack@.runs == compressed(vec@.take(ind as int)),
                unit_ids(stack@.runs) == occupied(vec@.take(ind as int)),
            decreases capacity - ind,
        {
            let unit_id: usize = vec[ind];
            let ghost before = vec@.take(ind as int);
            let ghost after = vec@.take(ind + 1);
            proof {
                assert(after.drop_last() =~= before);
                assert(after.last() == unit_id);
                assert(after =~= before + seq![unit_id]);
                lemma_occupied_step(before, unit_id);
                lemma_pushed(stack@.runs, Kind { id: unit_id, quantity: 1 }, unit_id);
                assert(repeated(unit_id, 1) =~= seq![unit_id]);
                assert(repeated(unit_id, 0) =~= Seq::<KindId>::empty());
            }
            stack.push_immigrants(Kind::new(unit_id, 1));
            ind += 1;
        }
        assert(vec@.take(ind as int) =~= vec@);
        stack
    }

    /// Whether the stack holds no unit.
    pub fn is_vacant(&self) -> (vacant: bool)
        requires
            self.well_formed(),
        ensures
            vacant == (self@.occupancy() == 0),
            vacant == (self@.runs.len() == 0),
    {
        proof {
            if self.units@.len() > 0 {
                assert(self.units@.last() == self.units@[self.units@.len() - 1]);
            }
        }
        self.get_occupancy() == 0
    }

    /// The number of units that still fit.
    pub fn get_vacancy(&self) -> (vacancy: usize)
        requires
            self.well_formed(),
        ensures
            vacancy == self@.vacancy(),
    {
        self.get_capacity() - self.get_occupancy()
    }

    /// A copy of the top run; the empty kind for an empty stack.
    pub fn clone_top_unit(&self) -> (top: Kind)
        requires
            self.well_formed(),
        ensures
            top == top_run(self@.runs),
    {
        let n: usize = self.units.len();
        if n == 0 {
            Kind::new_empty()
        } else {
            self.units[n - 1]
        }
    }

    /// The id of the top run; the empty id for an empty stack.
    pub fn get_top_unit_id(&self) -> (id: KindId)
        ensures
            id == self@.top_id(),
    {
        let n: usize = self.units.len();
        if n == 0 {
            Kind::get_empty_id()
        } else {
            self.units[n - 1].get_id()
        }
    }

    /// The size of the top run; 0 for an empty stack.
    pub fn get_top_unit_quantity(&self) -> (quantity: usize)
        ensures
            quantity == self@.top_quantity(),
    {
        let n: usize = self.units.len();
        if n == 0 {
            0
        } else {
            self.units[n - 1].get_quantity()
        }
    }

    /// Takes up to `limit_` units off the top run, the whole run where there
    /// is no limit or the limit reaches it, and hands them out.
    pub fn pop_residents_with_limit(&mut self, limit_: Option<usize>) -> (immigrants: Kind)
        requires
            old(self).well_formed(),
        ensures
            final(self).well_formed(),
            final(self)@ == old(self)@.popped(limit_),
            immigrants == taken(old(self)@.runs, limit_),
            final(self)@.occupancy() + immigrants.quantity == old(self)@.occupancy(),
    {
        let n: usize = self.units.len();
        proof {
            lemma_popped(self.units@, limit_, EMPTY_SLOT_VALUE);
        }
        if n == 0 {
            return Kind::new_empty();
        }
        let top: Kind = self.units[n - 1];
        let quantity: usize = match limit_ {
            Some(limit) => limit,
            None => top.get_quantity(),
        };
        let immigrants: Kind = if quantity < top.get_quantity() {
            let new_quantity: usize = top.get_quantity() - quantity;
            self.units.set(n - 1, Kind::new(top.get_id(), new_quantity));
            Kind::new(top.get_id(), quantity)
        } else {
            self.units.pop();
            top
        };
        self.occupancy = self.occupancy - immigrants.get_quantity();
        immigrants
    }

    /// Takes the whole top run.
    pub fn pop_residents(&mut self) -> (immigrants: Kind)
        requires
            old(self).well_formed(),
        ensures
            final(self).well_formed(),
            final(self)@ == old(self)@.popped(None),
            immigrants == top_run(old(self)@.runs),
            final(self)@.occupancy() + immigrants.quantity == old(self)@.occupancy(),
    {
        self.pop_residents_with_limit(None)
    }

    /// Moves the whole top run onto the stack `immigrants`.
    pub fn pop_immigrants(&mut self, immigrants: &mut Stack)
        requires
            old(self).well_formed(),
            old(immigrants).well_formed(),
            top_run(old(self)@.runs).weight() <= old(immigrants)@.vacancy(),
        ensures
            final(self).well_formed(),
            final(immigrants).well_formed(),
            final(self)@ == old(self)@.popped(None),
            final(immigrants)@ == old(immigrants)@.pushed(top_run(old(self)@.runs)),
    {
        let top_immigrant: Kind = self.pop_residents();
        immigrants.push_immigrants(top_immigrant);
    }

    /// Puts `immigrants` on top: merged into the top run where the ids
    /// agree, as a new run otherwise. An empty kind, or one of no units,
    /// adds nothing.
    pub fn push_immigrants(&mut self, immigrants: Kind)
        requires
            old(self).well_formed(),
            immigrants.weight() <= old(self)@.vacancy(),
        ensures
            final(self).well_formed(),
            final(self)@ == old(self)@.pushed(immigrants),
            final(self)@.occupancy() == old(self)@.occupancy() + immigrants.weight(),
    {
        proof {
            lemma_pushed(self.units@, immigrants, EMPTY_SLOT_VALUE);
        }
        if immigrants.is_empty() || immigrants.get_quantity() == 0 {
            return ;
        }
        let n: usize = self.units.len();
        if n > 0 && self.units[n - 1].get_id() == immigrants.get_id() {
            let top: Kind = self.units[n - 1];
            proof {
                assert(self.units@.last() == top);
                assert(total_quantity(self.units@) >= top.quantity);
            }
            self.units.set(
                n - 1,
                Kind::new(top.get_id(), top.get_quantity() + immigrants.get_quantity()),
            );
        } else {
            self.units.push(immigrants);
        }
        self.occupancy = self.occupancy + immigrants.get_quantity();
    }

    /// The ids of the units held, one for each unit, bottom first.
    pub fn iter_unit_ids(&self) -> (ids: Vec<KindId>)
        requires
            self.well_formed(),
        ensures
            ids@ == unit_ids(self@.runs),
            ids@.len() == self@.occupancy(),
    {
        let mut ids: Vec<KindId> = Vec::new();
        let mut r: usize = 0;
        proof {
            assert(self.units@.take(0) =~= Seq::<Kind>::empty());
        }
        while r < self.units.len()
            invariant
                r <= self.units.len(),
                self.well_formed(),
                ids@ == unit_ids(self.units@.take(r as int)),
                ids@.len() == total_quantity(self.units@.take(r as int)),
            decreases self.units.len() - r,
        {
            let run: Kind = self.units[r];
            let ghost start = ids@;
            proof {
                assert(self.units@.take(r + 1).drop_last() =~= self.units@.take(r as int));
                assert(self.units@.take(r + 1).last() == run);
            }
            let mut u: usize = 0;
            while u < run.get_quantity()
                invariant
                    u <= run.quantity,
                    ids@ == start + repeated(run.id, u as nat),
                decreases run.quantity - u,
            {
                ids.push(run.get_id());
                assert(start + repeated(run.id, u as nat).push(run.id) =~= start + repeated(
                    run.id,
                    (u + 1) as nat,
                ));
                u += 1;
            }
            r += 1;
        }
        assert(self.units@.take(r as int) =~= self.units@);
        ids
    }

    /// The number of units held: the sum of the runs.
    pub fn get_occupancy(&self) -> (occupancy: usize)
        requires
            self.well_formed(),
        ensures
            occupancy == self@.occupancy(),
    {
        self.occupancy
    }

    /// The number of units the stack can hold.
    pub fn get_capacity(&self) -> (capacity: usize)
        ensures
            capacity == self@.capacity,
    {
        self.capacity
    }
}

/// Passing over the empty slots of a row, slot by slot.
pub proof fn lemma_occupied_step(ids: Seq<KindId>, id: KindId)
    ensures
        occupied(ids + seq![id]) == occupied(ids) + if id == EMPTY_SLOT_VALUE {
            Seq::<KindId>::empty()
        } else {
            seq![id]
        },
{
    let keep = |id: KindId| id != EMPTY_SLOT_VALUE;
    let row = ids + seq![id];
    reveal(Seq::filter);
    assert(row.drop_last() =~= ids);
    assert(row.last() == id);
    assert(ids.filter(keep).push(id) =~= ids.filter(keep) + seq![id]);
    assert(ids.filter(keep) + Seq::<KindId>::empty() =~= ids.filter(keep));
}

} // verus!
