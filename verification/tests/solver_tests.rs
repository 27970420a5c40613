use sudoku_x::board::Board;
use sudoku_x::search::{DecisionStrategy, SolveError};
use sudoku_x::solver::{launch_algorithm_x, solve_boards};
use sudoku_x::validity::{board_is_complete_and_valid, board_preserves_seed};

fn nearly_solved_board() -> Board {
    let mut board = Board::new();
    // Set column 0
    board.set(0, 0, 1);
    board.set(0, 1, 7);
    board.set(0, 2, 4);
    board.set(0, 3, 2);
    board.set(0, 4, 8);
    board.set(0, 5, 3);
    board.set(0, 6, 6);
    board.set(0, 7, 5);
    board.set(0, 8, 0);
    // Set column 1
    board.set(1, 0, 2);
    board.set(1, 1, 8);
    board.set(1, 2, 5);
    board.set(1, 3, 1);
    board.set(1, 4, 9);
    board.set(1, 5, 6);
    board.set(1, 6, 7);
    board.set(1, 7, 4);
    board.set(1, 8, 3);
    // Set column 2
    board.set(2, 0, 3);
    board.set(2, 1, 9);
    board.set(2, 2, 6);
    board.set(2, 3, 4);
    board.set(2, 4, 7);
    board.set(2, 5, 5);
    board.set(2, 6, 1);
    board.set(2, 7, 8);
    board.set(2, 8, 2);
    // Set column 3
    board.set(3, 0, 4);
    board.set(3, 1, 1);
    board.set(3, 2, 7);
    board.set(3, 3, 3);
    board.set(3, 4, 2);
    board.set(3, 5, 9);
    board.set(3, 6, 8);
    board.set(3, 7, 6);
    board.set(3, 8, 0);
    // Set column 4
    board.set(4, 0, 5);
    board.set(4, 1, 2);
    board.set(4, 2, 8);
    board.set(4, 3, 6);
    board.set(4, 4, 1);
    board.set(4, 5, 7);
    board.set(4, 6, 9);
    board.set(4, 7, 3);
    board.set(4, 8, 0);
    // Set column 5
    board.set(5, 0, 6);
    board.set(5, 1, 3);
    board.set(5, 2, 9);
    board.set(5, 3, 5);
    board.set(5, 4, 4);
    board.set(5, 5, 8);
    board.set(5, 6, 2);
    board.set(5, 7, 7);
    board.set(5, 8, 1);
    // Set column 6
    board.set(6, 0, 7);
    board.set(6, 1, 6);
    board.set(6, 2, 1);
    board.set(6, 3, 9);
    board.set(6, 4, 5);
    board.set(6, 5, 4);
    board.set(6, 6, 3);
    board.set(6, 7, 2);
    board.set(6, 8, 0);
    // Set column 7
    board.set(7, 0, 8);
    board.set(7, 1, 5);
    board.set(7, 2, 2);
    board.set(7, 3, 7);
    board.set(7, 4, 3);
    board.set(7, 5, 1);
    board.set(7, 6, 4);
    board.set(7, 7, 9);
    board.set(7, 8, 0);
    // Set column 8
    board.set(8, 0, 9);
    board.set(8, 1, 4);
    board.set(8, 2, 3);
    board.set(8, 3, 8);
    board.set(8, 4, 6);
    board.set(8, 5, 2);
    board.set(8, 6, 5);
    board.set(8, 7, 1);
    board.set(8, 8, 0);

    board
}

#[test]
fn test_no_unnecessary_backtracks() {
    let board = nearly_solved_board();
    let solution = launch_algorithm_x(Some(&board), None).unwrap();

    let mut zero_exists = false;
    for row_idx in 0..9 {
        zero_exists = zero_exists || solution.get_row(row_idx).iter().any(|e| e == &0);
    }
    assert_eq!(zero_exists, false);
}

#[test]
fn test_algorithm_x() {
    let solution = launch_algorithm_x(None, None).unwrap();
    let mut zero_exists = false;
    for row_idx in 0..9 {
        zero_exists = zero_exists || solution.get_row(row_idx).iter().any(|e| e == &0);
    }
    assert_eq!(zero_exists, false);
}

#[test]
fn solutions_are_valid_and_preserve_the_seed() {
    let board = nearly_solved_board();
    let solution = launch_algorithm_x(Some(&board), None).unwrap();
    assert!(board_is_complete_and_valid(&solution));
    assert!(board_preserves_seed(&board, &solution));
    // spot-check two seeded cells
    assert_eq!(solution.get(0, 0), 1);
    assert_eq!(solution.get(8, 4), 6);
}

#[test]
fn a_duplicate_digit_in_one_row_is_unsolvable() {
    let mut board = Board::new();
    board.set(0, 0, 5);
    board.set(1, 0, 5);
    let result = launch_algorithm_x(Some(&board), None);
    assert!(matches!(result, Err(SolveError::Unsolvable)));
}

#[test]
fn a_solved_board_comes_back_unchanged() {
    let mut board = Board::new();
    let digits = [
        [3, 1, 6, 5, 7, 8, 4, 9, 2],
        [5, 2, 9, 1, 3, 4, 7, 6, 8],
        [4, 8, 7, 6, 2, 9, 5, 3, 1],
        [2, 6, 3, 4, 1, 5, 9, 8, 7],
        [9, 7, 4, 8, 6, 3, 1, 2, 5],
        [8, 5, 1, 7, 9, 2, 6, 4, 3],
        [1, 3, 8, 9, 4, 7, 2, 5, 6],
        [6, 9, 2, 3, 5, 1, 8, 7, 4],
        [7, 4, 5, 2, 8, 6, 3, 1, 9],
    ];
    for (row, row_digits) in digits.iter().enumerate() {
        for (col, digit) in row_digits.iter().enumerate() {
            board.set(col, row, *digit);
        }
    }
    let solution = launch_algorithm_x(Some(&board), None).unwrap();
    for row in 0..9 {
        for col in 0..9 {
            assert_eq!(solution.get(col, row), board.get(col, row));
        }
    }
}

#[test]
fn enumerating_two_solutions_yields_two_valid_grids() {
    let board = nearly_solved_board();
    let solutions = solve_boards(Some(&board), DecisionStrategy::First, 2).unwrap();
    assert!(!solutions.is_empty());
    assert!(solutions.len() <= 2);
    for solution in solutions.iter() {
        assert!(board_is_complete_and_valid(solution));
        assert!(board_preserves_seed(&board, solution));
    }
}

#[test]
fn the_random_strategy_also_solves() {
    let board = nearly_solved_board();
    let solution = launch_algorithm_x(Some(&board), Some(DecisionStrategy::Random)).unwrap();
    assert!(board_is_complete_and_valid(&solution));
    assert!(board_preserves_seed(&board, &solution));
}

#[test]
fn an_open_grid_yields_two_distinct_solutions() {
    let solutions = solve_boards(None, DecisionStrategy::First, 2).unwrap();
    assert_eq!(solutions.len(), 2);
    for solution in solutions.iter() {
        assert!(board_is_complete_and_valid(solution));
    }
    let mut some_cell_differs = false;
    for row in 0..9 {
        for col in 0..9 {
            if solutions[0].get(col, row) != solutions[1].get(col, row) {
                some_cell_differs = true;
            }
        }
    }
    assert!(some_cell_differs);
}
