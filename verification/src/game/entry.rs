//! What the ledger records of a move, and why a move can be refused.

use vstd::prelude::*;
use crate::game::stack::kind::Kind;

verus! {

/// One move as the ledger keeps it: the run `kind`, of `quantity` units,
/// went from the stack `from` onto the stack `to`.
#[derive(Clone, Copy, Debug, PartialEq, Eq, Structural)]
pub struct Entry {
    pub from: usize,
    pub to: usize,
    pub kind: Kind,
    pub quantity: usize,
}

/// Why a move is against the rule.
#[derive(Clone, Copy, Debug, PartialEq, Eq, Structural)]
pub enum InvalidMove {
    /// The move would take from a stack and give to the same stack.
    SameStack,
    /// The receiving stack has no room for the run.
    NotEnoughRoom,
    /// The two tops are of different kinds and neither stack is empty.
    TopMismatch,
}

} // verus!
