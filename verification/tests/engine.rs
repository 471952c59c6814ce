use std::collections::HashSet;

use game_of_life::game::{center_board, next_turn, parse_input_board, Board};
use game_of_life::logic::{find_max_x, find_max_y, find_min_x, find_min_y, neighbours, Pos};

fn as_pairs(b: &Vec<Pos>) -> HashSet<(i32, i32)> {
    b.iter().map(|p| (p.0, p.1)).collect()
}

fn board_of(pairs: &[(i32, i32)]) -> Vec<Pos> {
    pairs.iter().map(|&(x, y)| Pos(x, y)).collect()
}

#[test]
fn neighbours_of_lone_cell_is_zero() {
    let b = board_of(&[(3, 3)]);
    assert_eq!(neighbours(&Pos(3, 3), &b), 0);
}

#[test]
fn neighbours_does_not_count_the_cell_itself() {
    // p is live and has one true neighbour: only that neighbour is counted.
    let b = board_of(&[(0, 0), (1, 1), (5, 5)]);
    assert_eq!(neighbours(&Pos(0, 0), &b), 1);
    // p absent from the board: same count.
    let without = board_of(&[(1, 1), (5, 5)]);
    assert_eq!(neighbours(&Pos(0, 0), &without), 1);
}

#[test]
fn neighbours_of_full_ring_is_eight() {
    let b = board_of(&[
        (0, 0),
        (1, 0),
        (2, 0),
        (0, 1),
        (2, 1),
        (0, 2),
        (1, 2),
        (2, 2),
    ]);
    assert_eq!(neighbours(&Pos(1, 1), &b), 8);
}

#[test]
fn neighbours_ignores_distant_cells() {
    let b = board_of(&[(0, 0), (2, 0), (0, 2), (10, 10)]);
    assert_eq!(neighbours(&Pos(0, 0), &b), 0);
}

#[test]
fn isolated_cell_dies() {
    let b = board_of(&[(5, 5)]);
    let next = next_turn(&b, &Board(20, 20));
    assert!(next.is_empty());
}

#[test]
fn block_is_stable() {
    let block = board_of(&[(10, 10), (11, 10), (10, 11), (11, 11)]);
    let next = next_turn(&block, &Board(40, 20));
    assert_eq!(as_pairs(&next), as_pairs(&block));
}

#[test]
fn blinker_oscillates_with_period_two() {
    let horizontal = board_of(&[(10, 10), (11, 10), (12, 10)]);
    let dims = Board(30, 30);
    let vertical = next_turn(&horizontal, &dims);
    let expected: HashSet<(i32, i32)> = [(11, 9), (11, 10), (11, 11)].into_iter().collect();
    assert_eq!(as_pairs(&vertical), expected);
    let again = next_turn(&vertical, &dims);
    assert_eq!(as_pairs(&again), as_pairs(&horizontal));
}

#[test]
fn pre_block_fills_in() {
    let b = board_of(&[(1, 1), (2, 1), (1, 2)]);
    let next = next_turn(&b, &Board(10, 10));
    let expected: HashSet<(i32, i32)> = [(1, 1), (2, 1), (1, 2), (2, 2)].into_iter().collect();
    assert_eq!(as_pairs(&next), expected);
}

#[test]
fn overcrowded_cell_dies_and_edges_are_born() {
    // An X of five cells: the centre has 4 neighbours and dies, each side
    // midpoint has exactly 3 and is born, each corner has 1 and dies.
    let b = board_of(&[(1, 1), (0, 0), (2, 0), (0, 2), (2, 2)]);
    let next = next_turn(&b, &Board(10, 10));
    let expected: HashSet<(i32, i32)> = [(1, 0), (0, 1), (2, 1), (1, 2)].into_iter().collect();
    assert_eq!(as_pairs(&next), expected);
}

#[test]
fn next_turn_sees_only_the_viewport() {
    // Row 0 is the whole viewport: the middle cell keeps 2 neighbours and
    // survives; nothing outside the single row can be born.
    let b = board_of(&[(0, 0), (1, 0), (2, 0)]);
    let next = next_turn(&b, &Board(3, 1));
    let expected: HashSet<(i32, i32)> = [(1, 0)].into_iter().collect();
    assert_eq!(as_pairs(&next), expected);
}

#[test]
fn empty_board_stays_empty() {
    let b: Vec<Pos> = Vec::new();
    let next = next_turn(&b, &Board(10, 10));
    assert!(next.is_empty());
}

#[test]
fn parse_single_mark() {
    // One '#' at row 2, column 4.
    let text: Vec<char> = "\n\n    #".chars().collect();
    let b = parse_input_board(&text);
    assert_eq!(b.len(), 1);
    assert_eq!(as_pairs(&b), [(4, 2)].into_iter().collect());
}

#[test]
fn parse_treats_everything_else_as_dead() {
    let text: Vec<char> = "ab.\n.#x\n# #".chars().collect();
    let b = parse_input_board(&text);
    let expected: HashSet<(i32, i32)> = [(1, 1), (0, 2), (2, 2)].into_iter().collect();
    assert_eq!(as_pairs(&b), expected);
}

#[test]
fn parse_empty_text_gives_empty_board() {
    let text: Vec<char> = Vec::new();
    let b = parse_input_board(&text);
    assert!(b.is_empty());
}

#[test]
fn parse_trailing_newlines_add_no_cells() {
    let text: Vec<char> = "#\n\n\n".chars().collect();
    let b = parse_input_board(&text);
    assert_eq!(as_pairs(&b), [(0, 0)].into_iter().collect());
}

#[test]
fn bounding_box_of_scattered_cells() {
    let b = board_of(&[(7, 1), (2, 3), (4, 2)]);
    assert_eq!(find_min_x(&b), 2);
    assert_eq!(find_max_x(&b), 7);
    assert_eq!(find_min_y(&b), 1);
    assert_eq!(find_max_y(&b), 3);
}

#[test]
fn find_max_y_returns_the_y_coordinate() {
    // The greatest y sits on a cell whose x is far larger: the answer is
    // still the y-coordinate.
    let b = board_of(&[(100, 1), (0, 9)]);
    assert_eq!(find_max_y(&b), 9);
}

#[test]
fn bounding_box_of_empty_board_is_sentinel() {
    let b: Vec<Pos> = Vec::new();
    assert_eq!(find_min_x(&b), -1);
    assert_eq!(find_max_x(&b), -1);
    assert_eq!(find_min_y(&b), -1);
    assert_eq!(find_max_y(&b), -1);
}

#[test]
fn center_of_empty_board_is_a_noop() {
    let b: Vec<Pos> = Vec::new();
    let centered = center_board(&b, &Board(80, 24));
    assert!(centered.is_empty());
}

#[test]
fn center_single_cell() {
    let b = board_of(&[(0, 0)]);
    let centered = center_board(&b, &Board(10, 10));
    assert_eq!(as_pairs(&centered), [(5, 5)].into_iter().collect());
}

#[test]
fn center_keeps_the_pattern_shape() {
    let b = board_of(&[(0, 0), (2, 2)]);
    let centered = center_board(&b, &Board(10, 8));
    let expected: HashSet<(i32, i32)> = [(4, 3), (6, 5)].into_iter().collect();
    assert_eq!(as_pairs(&centered), expected);
}

#[test]
fn parse_then_center_then_step() {
    // A blinker drawn in a file, centered on a 21x21 viewport, flips to
    // vertical after one generation.
    let text: Vec<char> = "###".chars().collect();
    let dims = Board(21, 21);
    let b = parse_input_board(&text);
    let centered = center_board(&b, &dims);
    let expected: HashSet<(i32, i32)> = [(9, 10), (10, 10), (11, 10)].into_iter().collect();
    assert_eq!(as_pairs(&centered), expected);
    let next = next_turn(&centered, &dims);
    let expected_next: HashSet<(i32, i32)> = [(10, 9), (10, 10), (10, 11)].into_iter().collect();
    assert_eq!(as_pairs(&next), expected_next);
}
