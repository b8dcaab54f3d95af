use vstd::prelude::*;

verus! {

/// The failure kinds of the rules engine.
///
/// Rendering an error as text is a concern of the surrounding interface,
/// not of the engine.
#[derive(Clone, Copy, PartialEq, Eq, Debug)]
pub enum GoError {
    /// A coordinate outside the `size` x `size` grid.
    InvalidPosition { x: usize, y: usize, size: usize },
    /// A move or query that could not be understood.
    InvalidMove,
    /// Undo was requested while only the initial board remained in history.
    NothingLeftToUndo,
    /// The move would repeat an earlier board position of the game.
    KoViolation,
}

} // verus!
