use std::collections::HashSet;

use sudoku_x::search::{
    backtrack, find_satisfying_rows, find_unsatisfied_constraint, get_conflicting_rows, pick_row,
    Decision, DecisionStrategy,
};

#[test]
fn test_find_satisfying_row_scenarios() {
    // 1) No row satisfies the column -> empty
    let mut ct = vec![vec![false; 324]; 729];
    let col = 137;
    let hidden = HashSet::<usize>::new();
    assert_eq!(find_satisfying_rows(&ct, &hidden, col), vec![]);

    // 2) A single row satisfies -> that row index
    ct[10][col] = true;
    assert_eq!(find_satisfying_rows(&ct, &hidden, col), vec![10]);

    // 3) An earlier row also satisfies, but it's hidden -> return next visible (10)
    ct[3][col] = true;
    let mut hidden = HashSet::new();
    hidden.insert(3);
    assert_eq!(find_satisfying_rows(&ct, &hidden, col), vec![10]);

    // 4) If earlier row isn't hidden -> earliest match (3) wins
    let hidden = HashSet::<usize>::new();
    assert_eq!(find_satisfying_rows(&ct, &hidden, col).first(), Some(&3));

    // 5) Hide both earlier matches; ensure it finds a later satisfying row
    let mut hidden = HashSet::new();
    hidden.insert(3);
    hidden.insert(10);
    ct[400][col] = true;
    assert_eq!(find_satisfying_rows(&ct, &hidden, col).first(), Some(&400));

    // 6) Boundary columns: 0 and 241
    let mut ct2 = vec![vec![false; 324]; 729];

    ct2[5][0] = true;
    assert_eq!(
        find_satisfying_rows(&ct2, &HashSet::new(), 0).first(),
        Some(&5)
    );

    ct2[5][0] = false;
    ct2[25][241] = true;
    assert_eq!(
        find_satisfying_rows(&ct2, &HashSet::new(), 241).first(),
        Some(&25)
    );
}

fn row_with(cols_true: &[usize]) -> Vec<bool> {
    let mut row = vec![false; 324];
    for &c in cols_true {
        row[c] = true;
    }
    row
}

#[test]
fn test_get_conflicting_rows() {
    // Build a full constraint table with a few meaningful rows, rest all-false.
    let mut ct = vec![vec![false; 324]; 729];

    // Selected row: true at columns 0, 5, 241
    ct[10] = row_with(&[0, 5, 241]);

    // Conflicting rows (share at least one true col with row 10)
    ct[3] = row_with(&[5]); // shares 5
    ct[7] = row_with(&[241]); // shares 241
    ct[15] = row_with(&[0, 100]); // shares 0 (and some other)
    ct[20] = row_with(&[0, 5, 241]); // shares many

    // Non-conflicting rows
    ct[8] = row_with(&[1, 2, 3]); // no overlap
    ct[9] = row_with(&[]); // all false
    ct[11] = row_with(&[6, 7]); // no overlap with 0,5,241

    // Hidden rows: one conflicting row is hidden, one non-conflicting row hidden too
    let mut hidden = HashSet::new();
    hidden.insert(7); // would conflict, but hidden -> should be excluded
    hidden.insert(8); // doesn't conflict anyway

    // Act
    let mut got = get_conflicting_rows(&ct, &hidden, 10);
    got.sort_unstable();

    // Expect: conflicting rows except selected (10) and hidden (7)
    let mut expected = vec![3, 15, 20];
    expected.sort_unstable();
    assert_eq!(got, expected);

    // Additional check: if we hide nothing, we should get 7 back too
    let empty_hidden = HashSet::new();
    let mut got2 = get_conflicting_rows(&ct, &empty_hidden, 10);
    got2.sort_unstable();

    let mut expected2 = vec![3, 7, 15, 20];
    expected2.sort_unstable();
    assert_eq!(got2, expected2);

    // Additional check: selecting a row with no trues should yield no conflicts
    // (since a conflict needs a column true in both rows)
    let got3 = get_conflicting_rows(&ct, &empty_hidden, 9);
    assert!(got3.is_empty());
}

#[test]
fn test_pick_row() {
    // Single element -> always that element, remainder empty (both strategies)
    let r = pick_row(vec![42], DecisionStrategy::First);
    assert_eq!(r.0, 42);
    assert!(r.1.is_empty());

    let r = pick_row(vec![42], DecisionStrategy::Random);
    assert_eq!(r.0, 42);
    assert!(r.1.is_empty());

    // Multiple elements, First strategy: selects index 0, remainder is original without that element
    let input = vec![10, 20, 30, 40];
    let (selected, remaining) = pick_row(input.clone(), DecisionStrategy::First);
    assert_eq!(selected, 10);
    assert_eq!(remaining.len(), input.len() - 1);

    // Remaining should contain all originals except selected
    let mut remaining_set: HashSet<usize> = remaining.into_iter().collect();
    assert_eq!(remaining_set.len(), 3); // no duplicates introduced
    assert!(remaining_set.remove(&20));
    assert!(remaining_set.remove(&30));
    assert!(remaining_set.remove(&40));
    assert!(remaining_set.is_empty());

    // Multiple elements, Random strategy:
    // We can't assert which element was picked, but we can assert invariants.
    let input = vec![1, 2, 3, 4, 5];
    let (selected, remaining) = pick_row(input.clone(), DecisionStrategy::Random);
    assert_eq!(remaining.len(), input.len() - 1);
    assert!(input.contains(&selected));

    // Selected + remaining should equal the original multiset (no loss/duplication)
    let mut all: HashSet<usize> = remaining.into_iter().collect();
    assert!(all.insert(selected)); // selected shouldn't already be in remaining
    let input_set: HashSet<usize> = input.into_iter().collect();
    assert_eq!(all, input_set);
}

#[test]
fn test_backtracking() {
    let mut decisions: Vec<Decision> = vec![
        Decision {
            selected_row: 0,
            potential_rows: vec![1, 2, 3],
            rows_conflicting_with_selected_row: vec![4, 5, 6],
        },
        Decision {
            selected_row: 7,
            potential_rows: vec![],
            rows_conflicting_with_selected_row: vec![8, 9, 10],
        },
        Decision {
            selected_row: 11,
            potential_rows: vec![12],
            rows_conflicting_with_selected_row: vec![13, 14, 15],
        },
    ];
    let mut hidden_rows: HashSet<usize> = HashSet::from([4, 5, 6, 8, 9, 10, 13, 14, 15]);
    let mut solution_set: HashSet<usize> = HashSet::from([0, 7, 11]);

    let (selected_row, potential_rows) = backtrack(
        &mut decisions,
        &mut hidden_rows,
        &mut solution_set,
        DecisionStrategy::First,
    )
    .unwrap();

    assert_eq!(selected_row, 12);
    assert_eq!(potential_rows, vec![]);
    assert_eq!(
        decisions,
        vec![
            Decision {
                selected_row: 0,
                potential_rows: vec![1, 2, 3],
                rows_conflicting_with_selected_row: vec![4, 5, 6]
            },
            Decision {
                selected_row: 7,
                potential_rows: vec![],
                rows_conflicting_with_selected_row: vec![8, 9, 10]
            },
        ]
    );
    assert_eq!(hidden_rows, HashSet::from([4, 5, 6, 8, 9, 10]));
    assert_eq!(solution_set, HashSet::from([0, 7]));

    let (selected_row, potential_rows) = backtrack(
        &mut decisions,
        &mut hidden_rows,
        &mut solution_set,
        DecisionStrategy::First,
    )
    .unwrap();
    assert_eq!(selected_row, 1);
    assert_eq!(potential_rows, vec![3, 2]);
    assert_eq!(decisions, vec![]);
    assert_eq!(hidden_rows, HashSet::new());
    assert_eq!(solution_set, HashSet::new());
}

#[test]
fn backtracking_an_exhausted_stack_is_unsolvable() {
    let mut decisions: Vec<Decision> = vec![Decision {
        selected_row: 5,
        potential_rows: vec![],
        rows_conflicting_with_selected_row: vec![6, 7],
    }];
    let mut hidden_rows: HashSet<usize> = HashSet::from([6, 7]);
    let mut solution_set: HashSet<usize> = HashSet::from([5]);

    let result = backtrack(
        &mut decisions,
        &mut hidden_rows,
        &mut solution_set,
        DecisionStrategy::First,
    );
    assert!(matches!(result, Err(sudoku_x::search::SolveError::Unsolvable)));
    assert!(decisions.is_empty());
    assert!(hidden_rows.is_empty());
    assert!(solution_set.is_empty());
}

#[test]
fn finds_the_first_unsatisfied_column() {
    let mut ct = vec![vec![false; 324]; 729];
    ct[50][0] = true;
    ct[60][1] = true;
    ct[60][2] = true;

    let empty = HashSet::<usize>::new();
    assert_eq!(find_unsatisfied_constraint(&ct, &empty), Some(0));

    let partial = HashSet::from([50]);
    assert_eq!(find_unsatisfied_constraint(&ct, &partial), Some(1));

    let both = HashSet::from([50, 60]);
    assert_eq!(find_unsatisfied_constraint(&ct, &both), Some(3));
}
