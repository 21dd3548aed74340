//! A verified position-maintenance engine for a kanban-style board.
//!
//! Cards are grouped into columns; within a column every card occupies one
//! integer position, and the positions of a column's cards always form the
//! contiguous run `0 .. n-1`.  The [`store`] module models the three storage
//! relations (columns, cards, and the card-position memberships) and proves
//! that inserting, moving, and deleting a card preserves that invariant.
//! The [`board`] module holds the materialized snapshot types that the
//! reader produces, and the [`laws`] module states and proves the
//! engine-wide guarantees: dense positions, round-trip neutrality of an
//! insert followed by a delete, and the harmlessness of a move from a
//! slot back to itself.

pub mod board;
pub mod laws;
pub mod store;
