//! A rules engine for the board game Go: a square grid of intersections,
//! flood-fill detection of connected stone groups, group liberties, capture
//! resolution when a group runs out of liberties, and an append-only history
//! of board snapshots supporting undo.
use vstd::prelude::*;

pub mod board;
pub mod connectivity;
pub mod errors;
pub mod gamecommand;
pub mod gamestate;

verus! {

/// The english alphabet, used instead of numbers for x values
pub const ASCII: &'static str = "ABCDEFGHIJKLMNOPQRSTUVWXYZ";

} // verus!
