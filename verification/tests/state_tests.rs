use gorst::board::{Board, IntersectionState};
use gorst::errors::GoError;
use gorst::gamecommand::GameCommand;
use gorst::gamestate::{BoardState, GameState};

#[test]
pub fn capture_single_stone() {
    let mut state = BoardState::new();
    state.board.set_intersection(0, 0, IntersectionState::Black).unwrap();
    state.board.set_intersection(1, 0, IntersectionState::White).unwrap();
    state.board.set_intersection(0, 1, IntersectionState::White).unwrap();

    let resolved = state.removed_dead_groups(Some((0, 1)));

    assert_eq!(resolved.board.get_intersection(0, 0), Some(IntersectionState::Empty));
    assert_eq!(resolved.board.get_intersection(1, 0), Some(IntersectionState::White));
    assert_eq!(resolved.board.get_intersection(0, 1), Some(IntersectionState::White));
    assert_eq!(resolved.white_prisoners, 1);
    assert_eq!(resolved.black_prisoners, 0);
}

#[test]
pub fn capture_two_stone_group() {
    let mut state = BoardState::new();
    state.board.set_intersection(0, 0, IntersectionState::Black).unwrap();
    state.board.set_intersection(1, 0, IntersectionState::Black).unwrap();
    state.board.set_intersection(2, 0, IntersectionState::White).unwrap();
    state.board.set_intersection(0, 1, IntersectionState::White).unwrap();
    state.board.set_intersection(1, 1, IntersectionState::White).unwrap();

    let resolved = state.removed_dead_groups(Some((1, 1)));

    assert_eq!(resolved.board.get_intersection(0, 0), Some(IntersectionState::Empty));
    assert_eq!(resolved.board.get_intersection(1, 0), Some(IntersectionState::Empty));
    assert_eq!(resolved.board.get_intersection(2, 0), Some(IntersectionState::White));
    assert_eq!(resolved.white_prisoners, 2);
    assert_eq!(resolved.black_prisoners, 0);
}

#[test]
pub fn capture_beats_self_capture() {
    // Playing black at (1, 0) takes the white stone at (0, 0)'s last liberty
    // while the played stone itself has none; the white stone must fall
    // first, and the black stone stays on the board.
    let mut state = BoardState::new();
    state.board.set_intersection(0, 0, IntersectionState::White).unwrap();
    state.board.set_intersection(2, 0, IntersectionState::White).unwrap();
    state.board.set_intersection(1, 1, IntersectionState::White).unwrap();
    state.board.set_intersection(0, 1, IntersectionState::Black).unwrap();

    state.board.set_intersection(1, 0, IntersectionState::Black).unwrap();
    let resolved = state.removed_dead_groups(Some((1, 0)));

    assert_eq!(resolved.board.get_intersection(0, 0), Some(IntersectionState::Empty));
    assert_eq!(resolved.board.get_intersection(1, 0), Some(IntersectionState::Black));
    assert_eq!(resolved.board.get_intersection(2, 0), Some(IntersectionState::White));
    assert_eq!(resolved.board.get_intersection(1, 1), Some(IntersectionState::White));
    assert_eq!(resolved.black_prisoners, 1);
    assert_eq!(resolved.white_prisoners, 0);
}

#[test]
pub fn no_capture_without_surround() {
    let mut state = BoardState::new();
    state.board.set_intersection(4, 4, IntersectionState::Black).unwrap();
    state.board.set_intersection(4, 5, IntersectionState::White).unwrap();

    let resolved = state.removed_dead_groups(Some((4, 5)));

    assert_eq!(resolved.board.get_intersection(4, 4), Some(IntersectionState::Black));
    assert_eq!(resolved.board.get_intersection(4, 5), Some(IntersectionState::White));
    assert_eq!(resolved.white_prisoners, 0);
    assert_eq!(resolved.black_prisoners, 0);
}

#[test]
pub fn undo_reverts_place() {
    let game = GameState::new();
    assert_eq!(game.history.len(), 1);

    let after_first = game
        .apply_command(GameCommand::Place(2, 2, IntersectionState::Black))
        .unwrap();
    let after_second = after_first
        .apply_command(GameCommand::Place(3, 3, IntersectionState::White))
        .unwrap();
    assert_eq!(after_second.history.len(), 3);

    let undone = after_second.apply_command(GameCommand::Undo).unwrap();
    assert_eq!(undone.history.len(), 2);
    // Bit for bit, the latest snapshot is again the one before the undone move.
    assert_eq!(undone.history[undone.history.len() - 1], after_first.history[1]);
    assert_eq!(undone.history[0], game.history[0]);
}

#[test]
pub fn undo_on_initial_history_fails() {
    let game = GameState::new();
    assert_eq!(
        game.apply_command(GameCommand::Undo),
        Err(GoError::NothingLeftToUndo)
    );
    assert_eq!(game.history.len(), 1);
}

#[test]
pub fn place_out_of_bounds_fails() {
    let game = GameState::new();
    assert_eq!(
        game.apply_command(GameCommand::Place(9, 9, IntersectionState::Black)),
        Err(GoError::InvalidPosition { x: 9, y: 9, size: 9 })
    );
    assert_eq!(game.history.len(), 1);
}

#[test]
pub fn place_applies_captures() {
    let game = GameState::new();
    let game = game
        .apply_command(GameCommand::Place(0, 0, IntersectionState::Black))
        .unwrap();
    let game = game
        .apply_command(GameCommand::Place(1, 0, IntersectionState::White))
        .unwrap();
    let game = game
        .apply_command(GameCommand::Place(0, 1, IntersectionState::White))
        .unwrap();

    let latest = &game.history[game.history.len() - 1];
    assert_eq!(latest.board.get_intersection(0, 0), Some(IntersectionState::Empty));
    assert_eq!(latest.white_prisoners, 1);
    assert_eq!(game.history.len(), 4);
}

#[test]
pub fn ko_detection_through_board_repeats() {
    let game = GameState::new();
    let after = game
        .apply_command(GameCommand::Place(4, 4, IntersectionState::Black))
        .unwrap();

    // The empty board is still in history, so an empty candidate repeats it.
    assert!(after.board_repeats(&Board::new(9)));
    // The current position repeats itself.
    let latest = &after.history[after.history.len() - 1];
    assert!(after.board_repeats(&latest.board));

    let mut fresh = Board::new(9);
    fresh.set_intersection(8, 8, IntersectionState::White).unwrap();
    assert!(!after.board_repeats(&fresh));
}

#[test]
pub fn snapshot_defaults() {
    let snap = BoardState::new();
    assert_eq!(snap.board.size(), 9);
    assert_eq!(snap.white_prisoners, 0);
    assert_eq!(snap.black_prisoners, 0);
    assert_eq!(BoardState::default(), snap);
}
