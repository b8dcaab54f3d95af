use std::collections::HashSet;

use gorst::board::{Board, IntersectionState};
use gorst::errors::GoError;

fn to_set(v: Vec<(usize, usize)>) -> HashSet<(usize, usize)> {
    v.into_iter().collect()
}

#[test]
pub fn direct_liberites() {
    let board = Board::new(9);

    let liberties = to_set(board.interesection_direct_liberties(4, 4).unwrap());

    assert_eq!(liberties.len(), 4);
    assert_eq!(
        liberties,
        HashSet::from_iter(vec![(4, 3), (3, 4), (5, 4), (4, 5)].iter().cloned())
    );

    let edge_liberties = to_set(board.interesection_direct_liberties(0, 0).unwrap());

    assert_eq!(edge_liberties.len(), 2);
    assert_eq!(
        edge_liberties,
        HashSet::from_iter(vec![(0, 1), (1, 0)].iter().cloned())
    );
}

#[test]
pub fn direct_liberties_edge() {
    let board = Board::new(9);

    let edge = to_set(board.interesection_direct_liberties(4, 0).unwrap());
    assert_eq!(edge.len(), 3);
    assert_eq!(
        edge,
        HashSet::from_iter(vec![(3, 0), (5, 0), (4, 1)].iter().cloned())
    );

    let corner = to_set(board.interesection_direct_liberties(8, 8).unwrap());
    assert_eq!(corner.len(), 2);
}

#[test]
pub fn find_group_empty_board() {
    let board = Board::new(9);

    let group: HashSet<(usize, usize)> = to_set(board.find_intersections_in_group(5, 5).unwrap());

    assert_eq!(group.len(), 81);
}

#[test]
pub fn find_group_1() {
    let mut board = Board::new(9);

    board.set_intersection(5, 5, IntersectionState::Black).unwrap();
    board.set_intersection(6, 5, IntersectionState::Black).unwrap();
    board.set_intersection(6, 6, IntersectionState::Black).unwrap();

    let group: HashSet<(usize, usize)> = to_set(board.find_intersections_in_group(5, 5).unwrap());

    assert_eq!(group.len(), 3);
}

#[test]
pub fn group_liberties_1() {
    let mut board = Board::new(9);

    board.set_intersection(5, 5, IntersectionState::Black).unwrap();
    board.set_intersection(6, 5, IntersectionState::Black).unwrap();
    board.set_intersection(6, 6, IntersectionState::Black).unwrap();

    let liberties: HashSet<(usize, usize)> = to_set(board.find_true_liberties(5, 5).unwrap());

    assert_eq!(liberties.len(), 7);
}

#[test]
pub fn group_liberties_2() {
    let mut board = Board::new(9);

    board.set_intersection(5, 5, IntersectionState::Black).unwrap();
    board.set_intersection(6, 5, IntersectionState::Black).unwrap();
    board.set_intersection(6, 6, IntersectionState::Black).unwrap();

    board.set_intersection(7, 7, IntersectionState::Black).unwrap();

    board.set_intersection(8, 6, IntersectionState::Black).unwrap();

    board.set_intersection(4, 5, IntersectionState::White).unwrap();

    board.set_intersection(5, 4, IntersectionState::White).unwrap();

    let liberties: HashSet<(usize, usize)> = to_set(board.find_true_liberties(5, 5).unwrap());

    assert_eq!(liberties.len(), 5);
}

#[test]
pub fn group_liberties_3() {
    let mut board = Board::new(9);

    board.set_intersection(5, 5, IntersectionState::Black).unwrap();
    board.set_intersection(6, 5, IntersectionState::Black).unwrap();
    board.set_intersection(6, 6, IntersectionState::Black).unwrap();

    board.set_intersection(7, 6, IntersectionState::Black).unwrap();

    board.set_intersection(7, 7, IntersectionState::Black).unwrap();

    board.set_intersection(8, 6, IntersectionState::Black).unwrap();

    board.set_intersection(4, 5, IntersectionState::White).unwrap();

    board.set_intersection(5, 4, IntersectionState::White).unwrap();

    let liberties: HashSet<(usize, usize)> = to_set(board.find_true_liberties(7, 6).unwrap());

    assert_eq!(liberties.len(), 7);
}

#[test]
pub fn set_get_round_trip() {
    let mut board = Board::new(9);

    assert_eq!(board.get_intersection(3, 4), Some(IntersectionState::Empty));
    board.set_intersection(3, 4, IntersectionState::White).unwrap();
    assert_eq!(board.get_intersection(3, 4), Some(IntersectionState::White));

    assert_eq!(board.get_intersection(9, 0), None);
    assert_eq!(board.get_intersection(0, 9), None);
    assert_eq!(
        board.set_intersection(9, 0, IntersectionState::Black),
        Err(GoError::InvalidPosition { x: 9, y: 0, size: 9 })
    );
    assert_eq!(
        board.interesection_direct_liberties(9, 9),
        Err(GoError::InvalidPosition { x: 9, y: 9, size: 9 })
    );
    assert!(board.find_intersections_in_group(10, 2).is_err());
    assert!(board.find_true_liberties(2, 10).is_err());
}

#[test]
pub fn data_and_size() {
    let board = Board::new(5);
    assert_eq!(board.size(), 5);

    let data = board.get_data();
    assert_eq!(data.len(), 5);
    for row in &data {
        assert_eq!(row.len(), 5);
        for cell in row {
            assert_eq!(*cell, IntersectionState::Empty);
        }
    }

    let mut other = Board::new(5);
    other.set_data(data);
    assert!(board.same_position(&other));
    assert_eq!(other.size(), 5);

    let deviant = {
        let mut b = Board::new(5);
        b.set_intersection(2, 2, IntersectionState::Black).unwrap();
        b
    };
    assert!(!board.same_position(&deviant));
    assert!(!board.same_position(&Board::new(4)));

    assert_eq!(Board::default().size(), 9);
    assert_eq!(IntersectionState::default(), IntersectionState::Empty);
}

#[test]
pub fn empty_group_is_open_territory() {
    let mut board = Board::new(9);
    board.set_intersection(0, 1, IntersectionState::Black).unwrap();
    board.set_intersection(1, 0, IntersectionState::Black).unwrap();

    // The empty corner cell forms a contiguous open region of its own.
    let group = to_set(board.find_intersections_in_group(0, 0).unwrap());
    assert_eq!(group, HashSet::from_iter(vec![(0, 0)].iter().cloned()));
}
