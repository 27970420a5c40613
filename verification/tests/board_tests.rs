use sudoku_x::board::Board;

#[test]
fn it_adds() {
    let result = sudoku_x::board::add(1, 2);
    assert_eq!(result, 3);
}

#[test]
fn it_greets() {
    let mut greeter = Board::new();
    greeter.set(0, 5, 1);
    assert_eq!(greeter.get(0, 5), 1);
}

#[test]
fn rows_and_columns_read_back() {
    let mut board = Board::new();
    board.set(3, 0, 7);
    board.set(0, 4, 2);
    let row = board.get_row(0);
    assert_eq!(row, vec![0, 0, 0, 7, 0, 0, 0, 0, 0]);
    let column = board.get_column(0);
    assert_eq!(column, vec![0, 0, 0, 0, 2, 0, 0, 0, 0]);
    let copy = Board::from_board(&board);
    assert_eq!(copy.get(3, 0), 7);
    assert_eq!(copy.get(0, 4), 2);
}
