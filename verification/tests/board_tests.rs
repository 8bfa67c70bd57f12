use std::collections::HashSet;

use sparse_life::board::Board;
use sparse_life::cell::Cell;

fn live_pairs(board: &Board) -> HashSet<(i64, i64)> {
    board.get_cells().iter().map(|c| (c.x, c.y)).collect()
}

fn board_of(pairs: &[(i64, i64)]) -> Board {
    let mut board = Board::default();
    for &(x, y) in pairs {
        board.insert(Cell::new(x, y));
    }
    board
}

#[test]
fn default_board_is_empty() {
    let board = Board::default();
    assert!(board.get_cells().is_empty());
    assert!(!board.contains(&Cell::new(0, 0)));
}

#[test]
fn insert_and_remove_change_membership() {
    let mut board = Board::default();
    let c = Cell::new(2, 3);
    board.insert(c);
    assert!(board.contains(&c));
    board.remove(&c);
    assert!(!board.contains(&c));
}

#[test]
fn insert_is_idempotent() {
    let mut board = Board::default();
    board.insert(Cell::new(1, 1));
    board.insert(Cell::new(1, 1));
    assert_eq!(board.get_cells().len(), 1);
}

#[test]
fn remove_of_an_absent_cell_is_a_no_op() {
    let mut board = board_of(&[(0, 0)]);
    board.remove(&Cell::new(5, 5));
    assert_eq!(live_pairs(&board), HashSet::from([(0, 0)]));
}

#[test]
fn set_and_unset_use_raw_coordinates() {
    let mut board = Board::default();
    board.set(-4, 9);
    assert!(board.contains(&Cell::new(-4, 9)));
    board.unset(-4, 9);
    assert!(!board.contains(&Cell::new(-4, 9)));
}

#[test]
fn toggle_flips_exactly_one_membership() {
    let mut board = board_of(&[(0, 0)]);
    board.toggle(1, 1);
    assert!(board.contains(&Cell::new(1, 1)));
    assert!(board.contains(&Cell::new(0, 0)));
    board.toggle(0, 0);
    assert!(!board.contains(&Cell::new(0, 0)));
    assert!(board.contains(&Cell::new(1, 1)));
}

#[test]
fn toggle_twice_restores_the_original_state() {
    let mut board = board_of(&[(2, 2)]);
    let before = live_pairs(&board);
    board.toggle(7, -7);
    board.toggle(7, -7);
    assert_eq!(live_pairs(&board), before);
    board.toggle(2, 2);
    board.toggle(2, 2);
    assert_eq!(live_pairs(&board), before);
}

#[test]
fn copy_is_independent_of_the_original() {
    let mut board = board_of(&[(1, 1), (2, 2)]);
    let snapshot = board.copy();
    board.set(9, 9);
    board.unset(1, 1);
    assert_eq!(live_pairs(&snapshot), HashSet::from([(1, 1), (2, 2)]));
    assert_eq!(live_pairs(&board), HashSet::from([(2, 2), (9, 9)]));
}

#[test]
fn surrounds_returns_the_eight_offsets_in_order() {
    let board = Board::default();
    let c = Cell::new(10, 20);
    let n = board.surrounds(&c);
    let expected = [
        (9, 21),
        (9, 20),
        (9, 19),
        (10, 21),
        (10, 19),
        (11, 21),
        (11, 20),
        (11, 19),
    ];
    assert_eq!(n.len(), 8);
    for (cell, want) in n.iter().zip(expected.iter()) {
        assert_eq!((cell.x, cell.y), *want);
    }
    let distinct: HashSet<(i64, i64)> = n.iter().map(|c| (c.x, c.y)).collect();
    assert_eq!(distinct.len(), 8);
    assert!(!distinct.contains(&(10, 20)));
}

#[test]
fn surround_count_counts_live_neighbors_exactly() {
    let board = board_of(&[(0, 0), (1, 0), (0, 1), (5, 5), (2, 2)]);
    assert_eq!(board.surround_count(&Cell::new(0, 0)), 2);
    assert_eq!(board.surround_count(&Cell::new(1, 1)), 4);
    assert_eq!(board.surround_count(&Cell::new(5, 5)), 0);
    assert_eq!(board.surround_count(&Cell::new(-5, -5)), 0);
}

#[test]
fn a_single_cell_dies_of_underpopulation() {
    let mut board = board_of(&[(5, 5)]);
    board.evaluate();
    assert!(board.get_cells().is_empty());
}

#[test]
fn a_block_is_a_still_life() {
    let mut board = board_of(&[(0, 0), (1, 0), (0, 1), (1, 1)]);
    board.evaluate();
    assert_eq!(
        live_pairs(&board),
        HashSet::from([(0, 0), (1, 0), (0, 1), (1, 1)])
    );
}

#[test]
fn a_blinker_oscillates_with_period_two() {
    let mut board = board_of(&[(-1, 0), (0, 0), (1, 0)]);
    board.evaluate();
    assert_eq!(live_pairs(&board), HashSet::from([(0, -1), (0, 0), (0, 1)]));
    board.evaluate();
    assert_eq!(live_pairs(&board), HashSet::from([(-1, 0), (0, 0), (1, 0)]));
}

#[test]
fn a_fully_surrounded_cell_dies_of_overpopulation() {
    let mut board = board_of(&[
        (0, 0),
        (0, 1),
        (0, 2),
        (1, 0),
        (1, 1),
        (1, 2),
        (2, 0),
        (2, 1),
        (2, 2),
    ]);
    board.evaluate();
    // The center had eight live neighbors and dies; each corner had three
    // and survives.
    assert!(!board.contains(&Cell::new(1, 1)));
    assert!(board.contains(&Cell::new(0, 0)));
    assert!(board.contains(&Cell::new(0, 2)));
    assert!(board.contains(&Cell::new(2, 0)));
    assert!(board.contains(&Cell::new(2, 2)));
    // The edge cells had five live neighbors and die.
    assert!(!board.contains(&Cell::new(0, 1)));
    assert!(!board.contains(&Cell::new(1, 0)));
    assert!(!board.contains(&Cell::new(1, 2)));
    assert!(!board.contains(&Cell::new(2, 1)));
}

#[test]
fn evaluation_works_far_from_the_origin() {
    let mut board = board_of(&[(999999999, -999999999)]);
    board.evaluate();
    assert!(board.get_cells().is_empty());
}
