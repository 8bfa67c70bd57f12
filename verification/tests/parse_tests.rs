use std::collections::HashSet;

use sparse_life::board::Board;
use sparse_life::cell::Cell;

fn live_pairs(board: &Board) -> HashSet<(i64, i64)> {
    board.get_cells().iter().map(|c| (c.x, c.y)).collect()
}

#[test]
fn an_empty_text_is_an_empty_board() {
    let board = Board::from_string("").unwrap();
    assert!(board.get_cells().is_empty());
}

#[test]
fn each_line_becomes_one_live_cell() {
    let board = Board::from_string("0 0\n-3 17\n42 -1").unwrap();
    assert_eq!(live_pairs(&board), HashSet::from([(0, 0), (-3, 17), (42, -1)]));
}

#[test]
fn a_trailing_newline_is_accepted() {
    let board = Board::from_string("1 2\n3 4\n").unwrap();
    assert_eq!(live_pairs(&board), HashSet::from([(1, 2), (3, 4)]));
}

#[test]
fn carriage_returns_before_newlines_are_stripped() {
    let board = Board::from_string("1 2\r\n3 4").unwrap();
    assert_eq!(live_pairs(&board), HashSet::from([(1, 2), (3, 4)]));
}

#[test]
fn signed_tokens_are_accepted() {
    let board = Board::from_string("+5 -3").unwrap();
    assert_eq!(live_pairs(&board), HashSet::from([(5, -3)]));
}

#[test]
fn the_full_64_bit_range_is_accepted() {
    let board =
        Board::from_string("9223372036854775807 -9223372036854775808").unwrap();
    assert!(board.contains(&Cell::new(i64::MAX, i64::MIN)));
}

#[test]
fn duplicate_records_collapse_to_one_cell() {
    let board = Board::from_string("7 7\n7 7").unwrap();
    assert_eq!(board.get_cells().len(), 1);
}

#[test]
fn a_line_without_a_separator_is_rejected() {
    assert!(Board::from_string("5").is_err());
}

#[test]
fn an_empty_line_is_rejected() {
    assert!(Board::from_string("1 2\n\n3 4").is_err());
}

#[test]
fn a_non_numeric_token_is_rejected() {
    assert!(Board::from_string("a 1").is_err());
    assert!(Board::from_string("1 b").is_err());
}

#[test]
fn a_double_space_is_rejected() {
    assert!(Board::from_string("1  2").is_err());
}

#[test]
fn a_third_token_is_rejected() {
    assert!(Board::from_string("1 2 3").is_err());
}

#[test]
fn a_bare_sign_is_rejected() {
    assert!(Board::from_string("- 2").is_err());
    assert!(Board::from_string("1 +").is_err());
}

#[test]
fn values_out_of_the_64_bit_range_are_rejected() {
    assert!(Board::from_string("9223372036854775808 0").is_err());
    assert!(Board::from_string("0 -9223372036854775809").is_err());
}

#[test]
fn one_malformed_line_fails_the_whole_import() {
    assert!(Board::from_string("1 2\nbad\n3 4").is_err());
}

#[test]
fn import_then_export_round_trips_as_a_set() {
    let pairs = [(0, 0), (1, 0), (0, 1), (1, 1), (-9, 33)];
    let text = pairs
        .iter()
        .map(|(x, y)| format!("{} {}", x, y))
        .collect::<Vec<_>>()
        .join("\n");
    let board = Board::from_string(&text).unwrap();
    let exported = live_pairs(&board);
    assert_eq!(exported, HashSet::from(pairs));
    assert_eq!(board.get_cells().len(), pairs.len());
}
