//! Kinds of units, and runs of units of one kind.

use vstd::prelude::*;

verus! {

/// Identifies a kind of unit. The value `EMPTY_SLOT_VALUE` stands for "no kind".
pub type KindId = usize;

/// The reserved id of an empty slot.
pub const EMPTY_SLOT_VALUE: KindId = 0;

/// Anything that carries a kind id.
pub trait HasId {
    /// The id this value carries.
    spec fn id_of(&self) -> KindId;

    /// The id this value carries.
    fn get_id(&self) -> (id: KindId)
        ensures
            id == self.id_of(),
    ;
}

/// Anything that can stand for "no kind".
pub trait IsEmpty {
    /// Whether this value stands for "no kind".
    spec fn empty_spec(&self) -> bool;

    /// Whether this value stands for "no kind".
    fn is_empty(&self) -> (empty: bool)
        ensures
            empty == self.empty_spec(),
    ;
}

impl HasId for KindId {
    open spec fn id_of(&self) -> KindId {
        *self
    }

    fn get_id(&self) -> (id: KindId) {
        *self
    }
}

impl IsEmpty for KindId {
    open spec fn empty_spec(&self) -> bool {
        *self == EMPTY_SLOT_VALUE
    }

    fn is_empty(&self) -> (empty: bool) {
        *self == Kind::get_empty_id()
    }
}

/// A run: `quantity` contiguous units of the kind `id`.
#[derive(Clone, Copy, Debug, PartialEq, Eq, Structural, Hash, PartialOrd, Ord)]
pub struct Kind {
    pub id: KindId,
    pub quantity: usize,
}

impl Kind {
    /// How many units this value adds to a stack: an empty kind adds none.
    pub open spec fn weight(&self) -> nat {
        if self.id == EMPTY_SLOT_VALUE {
            0
        } else {
            self.quantity as nat
        }
    }

    /// A run of `quantity` units of the kind `id`.
    pub fn new(id: usize, quantity: usize) -> (kind: Kind)
        ensures
            kind == (Kind { id, quantity }),
    {
        Kind { id, quantity }
    }

    /// The empty kind: the empty id and no units.
    pub fn new_empty() -> (kind: Kind)
        ensures
            kind == (Kind { id: EMPTY_SLOT_VALUE, quantity: 0 }),
    {
        Kind { id: Kind::get_empty_id(), quantity: 0 }
    }

    /// Whether this is no kind at all: its id is the empty id.
    pub fn is_empty(&self) -> (empty: bool)
        ensures
            empty == (self.id == EMPTY_SLOT_VALUE),
    {
        self.id == Kind::get_empty_id()
    }

    /// The id of the kind.
    pub fn get_id(&self) -> (id: usize)
        ensures
            id == self.id,
    {
        self.id
    }

    /// The number of units.
    pub fn get_quantity(&self) -> (quantity: usize)
        ensures
            quantity == self.quantity,
    {
        self.quantity
    }

    /// Sets the number of units.
    pub fn set_quantity(&mut self, quantity: usize)
        ensures
            *final(self) == (Kind { id: old(self).id, quantity }),
    {
        self.quantity = quantity;
    }

    /// The id that stands for "no kind".
    pub fn get_empty_id() -> (id: KindId)
        ensures
            id == EMPTY_SLOT_VALUE,
    {
        EMPTY_SLOT_VALUE
    }
}

impl HasId for Kind {
    open spec fn id_of(&self) -> KindId {
        self.id
    }

    fn get_id(&self) -> (id: KindId) {
        self.id
    }
}

} // verus!
