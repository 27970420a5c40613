use sudoku_x::constraints::generate_constraint_table;
use sudoku_x::links::{
    generate_column_headers, generate_linked_rows, generate_linked_table, launch_dancing_links,
    ColumnHeader, Link,
};

#[test]
fn test_generate_column_headers() {
    let constraint_table = generate_constraint_table();
    let headers = generate_column_headers(&constraint_table);
    let correct_header = Link::ColumnHeader(ColumnHeader {
        cell_count: 9,
        up: None,
        down: None,
        left: None,
        right: None,
    });

    for header in headers {
        assert_eq!(header, correct_header);
    }
}

#[test]
fn test_generate_linked_rows() {
    let constraint_table = generate_constraint_table();
    let rows = generate_linked_rows(&constraint_table);

    let num_cells_first_row = rows[0].iter().filter(|x| **x != Link::EmptyLink).count();

    assert_eq!(num_cells_first_row, 4);

    let mut num_cells_last_column = 0;
    for index in 0..729 {
        if rows[index][323] != Link::EmptyLink {
            num_cells_last_column += 1;
        }
    }

    assert_eq!(num_cells_last_column, 9);
}

#[test]
fn linking_wires_each_row_into_a_cycle() {
    let linked = generate_linked_table();
    assert_eq!(linked.table.len(), 730);

    // The header row is fully occupied, so its links are simple neighbours.
    match linked.table[0][0] {
        Link::ColumnHeader(h) => {
            assert_eq!(h.cell_count, 9);
            assert_eq!(h.left, Some(323));
            assert_eq!(h.right, Some(1));
        }
        _ => panic!("expected a column header"),
    }
    match linked.table[0][323] {
        Link::ColumnHeader(h) => {
            assert_eq!(h.left, Some(322));
            assert_eq!(h.right, Some(0));
        }
        _ => panic!("expected a column header"),
    }

    // The first choice (digit 1 at the top-left cell) satisfies columns
    // 0, 81, 162 and 243; its row links cycle through exactly those.
    let first_choice_row = &linked.table[1];
    let occupied: Vec<usize> = (0..324)
        .filter(|k| first_choice_row[*k] != Link::EmptyLink)
        .collect();
    assert_eq!(occupied, vec![0, 81, 162, 243]);
    match first_choice_row[0] {
        Link::Cell(c) => {
            assert_eq!(c.row_index, 0);
            assert_eq!(c.column_index, 0);
            assert_eq!(c.left, Some(243));
            assert_eq!(c.right, Some(81));
        }
        _ => panic!("expected a cell"),
    }
    match first_choice_row[243] {
        Link::Cell(c) => {
            assert_eq!(c.left, Some(162));
            assert_eq!(c.right, Some(0));
        }
        _ => panic!("expected a cell"),
    }
}

#[test]
fn launch_dancing_links_builds_the_linked_table() {
    let linked = launch_dancing_links();
    assert_eq!(linked.table.len(), 730);
    for row in linked.table.iter() {
        assert_eq!(row.len(), 324);
    }
}
