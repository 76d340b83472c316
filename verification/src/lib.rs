//! A turn-based sorting puzzle engine.
//!
//! Units of distinct kinds lie in capacity-limited stacks, stored as runs of
//! equal units. A move carries the top run of one stack onto another; the
//! puzzle is solved once every kind sits complete on top of a stack.

pub mod game;
pub mod line_reader;
