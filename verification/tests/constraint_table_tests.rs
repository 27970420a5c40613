use sudoku_x::board::Board;
use sudoku_x::constraints::{
    fill_column_constraints, fill_constraint_table_row, fill_existence_constraints,
    fill_row_constraints, fill_sub_grid_constraints, generate_constraint_table, ConstraintType,
};

#[test]
fn on_an_empty_board_it_returns_the_correct_constraints() {
    let board = Board::new();

    let mut constraint_row = vec![false; 324];
    fill_row_constraints(&board, &mut constraint_row);

    let all_false = constraint_row
        .iter()
        .all(|element| -> bool { element == &false });

    assert!(all_false);
}

#[test]
fn correctly_resolves_first_row() {
    let mut board = Board::new();
    board.set(0, 0, 1);
    board.set(1, 0, 2);
    board.set(2, 0, 3);
    board.set(3, 0, 4);

    let mut constraint_row = vec![false; 324];
    fill_row_constraints(&board, &mut constraint_row);

    let first_four_true = &constraint_row[0..4]
        .iter()
        .all(|element| -> bool { element == &true });
    let last_five_false = &constraint_row[4..9]
        .iter()
        .all(|element| -> bool { element == &false });

    assert!(first_four_true);
    assert!(last_five_false);
}

#[test]
fn correctly_resolves_two_rows() {
    let mut board = Board::new();
    board.set(0, 3, 5);
    board.set(4, 3, 6);
    board.set(7, 3, 7);
    board.set(8, 3, 8);

    board.set(0, 5, 1);
    board.set(1, 5, 4);
    board.set(2, 5, 5);
    board.set(3, 5, 8);

    let mut constraint_row = vec![false; 324];
    fill_row_constraints(&board, &mut constraint_row);

    // fourth row will be from index [3*9, 4*9)
    let fourth_row_section_of_constraints = &constraint_row[27..36];
    let expected_fourth_row = [false, false, false, false, true, true, true, true, false];
    assert_eq!(fourth_row_section_of_constraints, expected_fourth_row);

    let sixth_row_section_of_constraints = &constraint_row[45..54];
    let expected_sixth_row = [true, false, false, true, true, false, false, true, false];
    assert_eq!(sixth_row_section_of_constraints, expected_sixth_row);
}

#[test]
fn test_no_false_positives() {
    let board = Board::new();
    let mut constraint_column = vec![false; 324];
    fill_column_constraints(&board, &mut constraint_column);
    let all_false = constraint_column
        .iter()
        .all(|element| -> bool { element == &false });
    assert!(all_false);
}

#[test]
fn test_detects_first_column_constraints() {
    let mut board = Board::new();
    board.set(0, 3, 9);
    board.set(0, 0, 8);
    board.set(0, 8, 1);

    let mut constraint_row = vec![false; 324];
    fill_column_constraints(&board, &mut constraint_row);

    let offset = ConstraintType::Column.get_offset();
    let first_col_slice = &constraint_row[offset..(offset + 9)];

    let expected_first_column_constraints =
        [true, false, false, false, false, false, false, true, true];
    assert_eq!(first_col_slice, expected_first_column_constraints);
}

#[test]
fn test_detects_two_random_column_constraints() {
    let mut board = Board::new();
    board.set(2, 1, 1);
    board.set(2, 2, 2);
    board.set(2, 3, 5);

    board.set(8, 6, 4);
    board.set(8, 7, 6);
    board.set(8, 8, 7);

    let mut column_constraints = vec![false; 324];
    fill_column_constraints(&board, &mut column_constraints);

    let column_two_offset = ConstraintType::Column.get_offset() + (9 * 2);
    let column_two_constraints = &column_constraints[column_two_offset..(column_two_offset + 9)];

    let expected_column_two_constraints =
        [true, true, false, false, true, false, false, false, false];
    assert_eq!(column_two_constraints, expected_column_two_constraints);

    let column_eight_offset = ConstraintType::Column.get_offset() + (9 * 8);
    let column_eight_constraints =
        &column_constraints[column_eight_offset..(column_eight_offset + 9)];

    let expected_column_eight_constraints =
        [false, false, false, true, false, true, true, false, false];
    assert_eq!(column_eight_constraints, expected_column_eight_constraints);
}

#[test]
fn test_detects_sub_grid_constraints() {
    let mut board = Board::new();
    // Set the top left sub grid
    board.set(0, 0, 1);
    board.set(1, 1, 2);
    board.set(2, 2, 5);
    board.set(1, 2, 4);
    board.set(2, 0, 9);
    board.set(1, 0, 1);
    // | 1 | 1 | 9 |
    // |   | 2 |   |
    // | 4 |   | 5 |

    // Set the middle subgrid
    board.set(3, 3, 9);
    board.set(4, 3, 5);
    board.set(5, 3, 1);
    board.set(4, 4, 1);
    board.set(5, 4, 3);
    board.set(3, 5, 4);
    // | 9 | 5 | 1 |
    // |   | 1 | 3 |
    // | 4 |   |   |

    // Set the bottom right subgrid
    board.set(6, 6, 2);
    board.set(7, 6, 5);
    board.set(8, 6, 6);
    board.set(6, 7, 8);
    board.set(7, 7, 7);
    board.set(8, 7, 4);
    board.set(6, 8, 3);
    board.set(7, 8, 9);
    board.set(8, 8, 9);
    // | 2 | 5 | 6 |
    // | 8 | 7 | 4 |
    // | 3 | 9 | 9 |

    let top_left_offset = ConstraintType::SubGrid.get_offset();
    let mut sub_grid_constraints = vec![false; 324];
    fill_sub_grid_constraints(&board, &mut sub_grid_constraints);

    let top_left_constraints = &sub_grid_constraints[top_left_offset..(top_left_offset + 9)];
    let expected_top_left_constraints =
        [true, true, false, true, true, false, false, false, true];
    assert_eq!(top_left_constraints, expected_top_left_constraints);

    let middle_sub_grid_offset = ConstraintType::SubGrid.get_offset() + (9 * 4);
    let middle_constraints =
        &sub_grid_constraints[middle_sub_grid_offset..(middle_sub_grid_offset + 9)];
    let expected_middle_constraints = [true, false, true, true, true, false, false, false, true];
    assert_eq!(middle_constraints, expected_middle_constraints);

    let bottom_left_offset = ConstraintType::SubGrid.get_offset() + (9 * 8);
    let bottom_left_constraints =
        &sub_grid_constraints[bottom_left_offset..(bottom_left_offset + 9)];
    let expected_bottom_left_constraints =
        [false, true, true, true, true, true, true, true, true];
    assert_eq!(bottom_left_constraints, expected_bottom_left_constraints);
}

fn solved_board() -> Board {
    let mut board = Board::new();

    // Set row 1
    board.set(0, 0, 3);
    board.set(1, 0, 1);
    board.set(2, 0, 6);
    board.set(3, 0, 5);
    board.set(4, 0, 7);
    board.set(5, 0, 8);
    board.set(6, 0, 4);
    board.set(7, 0, 9);
    board.set(8, 0, 2);
    // Set row 2
    board.set(0, 1, 5);
    board.set(1, 1, 2);
    board.set(2, 1, 9);
    board.set(3, 1, 1);
    board.set(4, 1, 3);
    board.set(5, 1, 4);
    board.set(6, 1, 7);
    board.set(7, 1, 6);
    board.set(8, 1, 8);

    // Set row 3
    board.set(0, 2, 4);
    board.set(1, 2, 8);
    board.set(2, 2, 7);
    board.set(3, 2, 6);
    board.set(4, 2, 2);
    board.set(5, 2, 9);
    board.set(6, 2, 5);
    board.set(7, 2, 3);
    board.set(8, 2, 1);

    // Set row 4
    board.set(0, 3, 2);
    board.set(1, 3, 6);
    board.set(2, 3, 3);
    board.set(3, 3, 4);
    board.set(4, 3, 1);
    board.set(5, 3, 5);
    board.set(6, 3, 9);
    board.set(7, 3, 8);
    board.set(8, 3, 7);

    // Set row 5
    board.set(0, 4, 9);
    board.set(1, 4, 7);
    board.set(2, 4, 4);
    board.set(3, 4, 8);
    board.set(4, 4, 6);
    board.set(5, 4, 3);
    board.set(6, 4, 1);
    board.set(7, 4, 2);
    board.set(8, 4, 5);

    // Set row 6
    board.set(0, 5, 8);
    board.set(1, 5, 5);
    board.set(2, 5, 1);
    board.set(3, 5, 7);
    board.set(4, 5, 9);
    board.set(5, 5, 2);
    board.set(6, 5, 6);
    board.set(7, 5, 4);
    board.set(8, 5, 3);

    // Set row 7
    board.set(0, 6, 1);
    board.set(1, 6, 3);
    board.set(2, 6, 8);
    board.set(3, 6, 9);
    board.set(4, 6, 4);
    board.set(5, 6, 7);
    board.set(6, 6, 2);
    board.set(7, 6, 5);
    board.set(8, 6, 6);

    // Set row 8
    board.set(0, 7, 6);
    board.set(1, 7, 9);
    board.set(2, 7, 2);
    board.set(3, 7, 3);
    board.set(4, 7, 5);
    board.set(5, 7, 1);
    board.set(6, 7, 8);
    board.set(7, 7, 7);
    board.set(8, 7, 4);

    // Set row 9
    board.set(0, 8, 7);
    board.set(1, 8, 4);
    board.set(2, 8, 5);
    board.set(3, 8, 2);
    board.set(4, 8, 8);
    board.set(5, 8, 6);
    board.set(6, 8, 3);
    board.set(7, 8, 1);
    board.set(8, 8, 9);

    board
}

#[test]
fn test_detects_all_constraints_satisfied() {
    let board = solved_board();

    let mut constraints_row = vec![false; 324];
    fill_row_constraints(&board, &mut constraints_row);
    fill_column_constraints(&board, &mut constraints_row);
    fill_sub_grid_constraints(&board, &mut constraints_row);
    fill_existence_constraints(&board, &mut constraints_row);

    let all_true = constraints_row
        .iter()
        .all(|constraint| -> bool { constraint == &true });
    assert!(all_true);
}

#[test]
fn test_generate_constraint_table() {
    // The constraint table's indexes represent this:
    //
    //                | Row 0 has a 1 | Row 0 has a 2 | Row 0 has a 9 | ... | Row 1 has a 1 | ... |
    //
    // Place 1 at 0,0 |     true      |    false      |     false     | ... |    false      | ... |
    // Place 2 at 0,0
    // ...
    // Place 9 at 0,0 |     false     |    false      |      true     | ... |    false      | ... |
    // Place 1 at 1,0 |     true      |    false      |      false    | ... |    false      | ... |
    // ...
    let ct = generate_constraint_table();

    // =====================================
    // For choice of placing 4 at 0,1
    // =====================================
    let first_choice_row = &ct.table[9 * 9 * 1 + 4 - 1];
    // Asserting that the "Row 1 has a 4" constraint is true for choice "Place 4 at 0,1"
    assert!(first_choice_row[9 + 4 - 1]);
    // Asserting that the "Column 0 has a 4" constraint is true for choice "Place 4 at 0,1"
    assert!(first_choice_row[ConstraintType::Column.get_offset() + 4 - 1]);
    // Asserting that the "Subgrid 0 has a 4" constraint is true for choice "Place 4 at 0,1"
    assert!(first_choice_row[ConstraintType::SubGrid.get_offset() + 4 - 1]);
    // Asserting that the "Cell 0,1 contains a value" constraint is true for choice "Place 4 at 0,1"
    assert!(first_choice_row[ConstraintType::Existence.get_offset() + 9]);
    // Asserting that all other constraints are false
    assert!(first_choice_row.iter().filter(|var| **var).count() == 4);

    // =====================================
    // For choice of placing 7 at 8, 4
    // =====================================
    let second_choice_row = &ct.table[(9 * 8) + (9 * 9 * 4) + 7 - 1];
    // Asserting that the "Row 4 has a 7" constraint is true for choice "Place 7 at 8, 4"
    assert!(second_choice_row[(9 * 4) + 7 - 1]);
    // Asserting that the "Column 8 has a 7" constraint is true for choice "Place 7 at 8,4"
    assert!(second_choice_row[ConstraintType::Column.get_offset() + (9 * 8) + 7 - 1]);
    // Asserting that the "Subgrid 5 has a 7" constraint is true for choice "Place 7 at 8,4"
    assert!(second_choice_row[ConstraintType::SubGrid.get_offset() + (9 * 5) + 7 - 1]);
    // Asserting that the "Cell 8,4 has a value" constraint is true for choice "Place 7 at 8,4"
    assert!(second_choice_row[ConstraintType::Existence.get_offset() + (4 * 9) + 8]);
    // Asserting that all other constraints are false
    assert!(second_choice_row.iter().filter(|var| **var).count() == 4);

    // =====================================
    // For choice of placting 1 at 3,0
    // =====================================
    let third_choice_row = &ct.table[(9 * 3) + 1 - 1];
    // Assert that the "Row 0 has a 1" constraint is true for "Place 1 at 3,0"
    assert!(third_choice_row[1 - 1]);
    // Assert that the "Column 3 has a 1" constraint is true for "Place 1 at 3,0"
    assert!(third_choice_row[ConstraintType::Column.get_offset() + (9 * 3) + 1 - 1]);
    // Assert that the "Subgrid 1 has a 1" constraint is true for "Place 1 at 3,0"
    assert!(third_choice_row[ConstraintType::SubGrid.get_offset() + 9 + 1 - 1]);
    // Assert that all other constraints are false
    assert!(third_choice_row.iter().filter(|var| **var).count() == 4);
}

#[test]
fn every_choice_satisfies_exactly_four_constraints() {
    let ct = generate_constraint_table();
    for row in ct.table.iter() {
        assert_eq!(row.iter().filter(|entry| **entry).count(), 4);
    }
}

#[test]
fn every_constraint_is_satisfied_by_exactly_nine_choices() {
    let ct = generate_constraint_table();
    for k in 0..324 {
        let mut count = 0;
        for i in 0..729 {
            if ct.table[i][k] {
                count += 1;
            }
        }
        assert_eq!(count, 9);
    }
}

#[test]
fn building_the_table_twice_gives_identical_matrices() {
    let first = generate_constraint_table();
    let second = generate_constraint_table();
    assert_eq!(first.table, second.table);
}
