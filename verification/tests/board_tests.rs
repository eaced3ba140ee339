use sudoku_solver::board::{InvalidBoard, InvalidUnit, SetError, SudokuBoard};

#[test]
fn test_as_ascii() {
    let mut board = SudokuBoard::new();
    let _ = board.set_value(0, 0, 1);
    let _ = board.set_value(0, 8, 8);
    let _ = board.set_value(4, 4, 4);
    let _ = board.set_value(1, 1, 7);
    let _ = board.set_value(2, 2, 3);
    let _ = board.set_value(8, 8, 6);

    let ascii = board.as_ascii();

    let expected = "1 . . | . . . | . . 8 
. 7 . | . . . | . . . 
. . 3 | . . . | . . . 
---------------------
. . . | . . . | . . . 
. . . | . 4 . | . . . 
. . . | . . . | . . . 
---------------------
. . . | . . . | . . . 
. . . | . . . | . . . 
. . . | . . . | . . 6 
";

    assert_eq!(ascii, expected);
}

#[test]
fn test_is_unit_legal_all_empty() {
    let unit = vec![0; 9];
    assert_eq!(
        SudokuBoard::is_unit_legal(&unit, false),
        Err(InvalidUnit::Empty)
    );
}

#[test]
fn test_is_unit_legal_all_empty_skip() {
    let unit = vec![0; 9];
    assert_eq!(SudokuBoard::is_unit_legal(&unit, true), Ok(()));
}

#[test]
fn test_is_unit_legal_all_seen_once() {
    let unit = vec![1, 2, 3, 4, 5, 6, 7, 8, 9];
    assert_eq!(SudokuBoard::is_unit_legal(&unit, false), Ok(()));
}

#[test]
fn test_is_unit_legal_all_seen_once_reversed() {
    let unit = vec![9, 8, 7, 6, 5, 4, 3, 2, 1];
    assert_eq!(SudokuBoard::is_unit_legal(&unit, false), Ok(()));
}

#[test]
fn test_is_unit_legal_all_one_duplicate() {
    let unit = vec![2, 2, 3, 4, 5, 6, 7, 8, 9];
    assert_eq!(
        SudokuBoard::is_unit_legal(&unit, false),
        Err(InvalidUnit::Duplicate(2))
    );
}

#[test]
fn test_is_unit_legal_missing_one() {
    let unit = vec![0, 2, 3, 4, 5, 6, 7, 8, 9];
    assert_eq!(
        SudokuBoard::is_unit_legal(&unit, false),
        Err(InvalidUnit::Empty)
    );
}

#[test]
fn test_is_unit_legal_missing_one_skip() {
    let unit = vec![0, 2, 3, 4, 5, 6, 7, 8, 9];
    assert_eq!(SudokuBoard::is_unit_legal(&unit, true), Ok(()));
}

#[test]
fn test_unit_permutation_legal() {
    let unit = vec![3, 1, 4, 5, 9, 2, 6, 8, 7];
    assert_eq!(SudokuBoard::is_unit_legal(&unit, true), Ok(()));
    assert_eq!(SudokuBoard::is_unit_legal(&unit, false), Ok(()));
}

#[test]
fn test_is_legal_row_duplicate() {
    let grid = [
        [2, 2, 3, 4, 5, 6, 7, 8, 9],
        [0; 9],
        [0; 9],
        [0; 9],
        [0; 9],
        [0; 9],
        [0; 9],
        [0; 9],
        [0; 9],
    ];

    let board = SudokuBoard::new_with_grid(grid);

    assert_eq!(
        board.is_legal(),
        Err(InvalidBoard::Row(0, InvalidUnit::Duplicate(2)))
    );
}

#[test]
fn test_is_legal_row_duplicate_second() {
    let grid = [
        [1, 2, 3, 4, 5, 6, 7, 8, 9],
        [1, 3, 3, 4, 5, 6, 7, 8, 9],
        [0; 9],
        [0; 9],
        [0; 9],
        [0; 9],
        [0; 9],
        [0; 9],
        [0; 9],
    ];

    let board = SudokuBoard::new_with_grid(grid);

    assert_eq!(
        board.is_legal(),
        Err(InvalidBoard::Row(1, InvalidUnit::Duplicate(3)))
    );
}

#[test]
fn test_is_legal_row_empty() {
    let grid = [
        [0; 9], [0; 9], [0; 9], [0; 9], [0; 9], [0; 9], [0; 9], [0; 9], [0; 9],
    ];

    let board = SudokuBoard::new_with_grid(grid);

    assert_eq!(board.is_legal(), Ok(()));
    assert!(!board.is_complete());
}

#[test]
fn test_is_legal_row_empty_second() {
    let grid = [
        [1, 2, 3, 4, 5, 6, 7, 8, 9],
        [0; 9],
        [0; 9],
        [0; 9],
        [0; 9],
        [0; 9],
        [0; 9],
        [0; 9],
        [0; 9],
    ];

    let board = SudokuBoard::new_with_grid(grid);

    assert_eq!(board.is_legal(), Ok(()));
    assert!(!board.is_complete());
}

#[test]
fn test_is_legal_valid_board() {
    let grid = [
        [8, 2, 7, 1, 5, 4, 3, 9, 6],
        [9, 6, 5, 3, 2, 7, 1, 4, 8],
        [3, 4, 1, 6, 8, 9, 7, 5, 2],
        [5, 9, 3, 4, 6, 8, 2, 7, 1],
        [4, 7, 2, 5, 1, 3, 6, 8, 9],
        [6, 1, 8, 9, 7, 2, 4, 3, 5],
        [7, 8, 6, 2, 3, 5, 9, 1, 4],
        [1, 5, 4, 7, 9, 6, 8, 2, 3],
        [2, 3, 9, 8, 4, 1, 5, 6, 7],
    ];

    let board = SudokuBoard::new_with_grid(grid);

    assert!(board.is_complete());
}

#[test]
fn test_is_legal_valid_board_missing() {
    let grid = [
        [0, 2, 7, 1, 5, 4, 3, 9, 6],
        [9, 6, 5, 3, 2, 7, 1, 4, 8],
        [3, 4, 1, 6, 8, 9, 0, 5, 2],
        [5, 9, 3, 4, 6, 8, 2, 7, 1],
        [4, 7, 2, 5, 1, 3, 6, 8, 9],
        [6, 1, 8, 9, 7, 2, 4, 3, 5],
        [7, 8, 6, 2, 3, 5, 9, 1, 4],
        [1, 5, 4, 7, 0, 6, 8, 2, 3],
        [2, 3, 9, 8, 4, 1, 5, 6, 7],
    ];

    let board = SudokuBoard::new_with_grid(grid);

    assert!(!board.is_complete());
    assert_eq!(board.is_legal(), Ok(()));
}

#[test]
fn test_set_move_valid() {
    let mut board = SudokuBoard::new();
    let _ = board.set_value(0, 0, 0);
    let _ = board.set_value(8, 0, 0);
    let _ = board.set_value(0, 8, 0);
    let _ = board.set_value(0, 0, 9);
}

#[test]
fn test_set_value_rejects_bad_row() {
    let mut board = SudokuBoard::new();
    assert_eq!(board.set_value(9, 0, 0), Err(SetError::Row));
}

#[test]
fn test_set_value_rejects_bad_col() {
    let mut board = SudokuBoard::new();
    assert_eq!(board.set_value(0, 9, 0), Err(SetError::Col));
}

#[test]
fn test_set_value_rejects_bad_value() {
    let mut board = SudokuBoard::new();
    assert_eq!(board.set_value(0, 0, 10), Err(SetError::Value));
}

#[test]
fn test_set_then_get_round_trip() {
    let mut board = SudokuBoard::new();
    for value in 0..=9u8 {
        assert_eq!(board.set_value(4, 7, value), Ok(()));
        assert_eq!(board.get_value(4, 7), value);
    }
    // Clearing a cell (value 0) round-trips like any other write.
    assert_eq!(board.set_value(4, 7, 5), Ok(()));
    assert_eq!(board.set_value(4, 7, 0), Ok(()));
    assert_eq!(board.get_value(4, 7), 0);
}

#[test]
fn test_legality_check_idempotent() {
    let grid = [
        [1, 2, 3, 4, 5, 6, 7, 8, 9],
        [1, 3, 3, 4, 5, 6, 7, 8, 9],
        [0; 9],
        [0; 9],
        [0; 9],
        [0; 9],
        [0; 9],
        [0; 9],
        [0; 9],
    ];
    let board = SudokuBoard::new_with_grid(grid);
    let first = board.is_legal();
    let second = board.is_legal();
    assert_eq!(first, second);
    assert_eq!(board.is_complete(), board.is_complete());
}

#[test]
fn test_column_duplicate_reported() {
    let mut board = SudokuBoard::new();
    // Two 4s in column 2, in rows far enough apart to share no section.
    let _ = board.set_value(0, 2, 4);
    let _ = board.set_value(6, 2, 4);
    assert_eq!(
        board.is_legal(),
        Err(InvalidBoard::Column(2, InvalidUnit::Duplicate(4)))
    );
}

#[test]
fn test_section_duplicate_reported() {
    let mut board = SudokuBoard::new();
    // Two 5s in section 0, sharing neither a row nor a column.
    let _ = board.set_value(0, 0, 5);
    let _ = board.set_value(1, 1, 5);
    assert_eq!(
        board.is_legal(),
        Err(InvalidBoard::Section(0, InvalidUnit::Duplicate(5)))
    );
}

#[test]
fn test_row_duplicate_reported_before_column() {
    let mut board = SudokuBoard::new();
    // A column duplicate (4s in column 0) and a later row duplicate (7s in
    // row 5): the row violation wins whatever the other unit kinds hold.
    let _ = board.set_value(0, 0, 4);
    let _ = board.set_value(3, 0, 4);
    let _ = board.set_value(5, 2, 7);
    let _ = board.set_value(5, 5, 7);
    assert_eq!(
        board.is_legal(),
        Err(InvalidBoard::Row(5, InvalidUnit::Duplicate(7)))
    );
}

#[test]
fn test_strict_check_reports_first_empty_row() {
    let grid = [
        [1, 2, 3, 4, 5, 6, 7, 8, 9],
        [0; 9],
        [0; 9],
        [0; 9],
        [0; 9],
        [0; 9],
        [0; 9],
        [0; 9],
        [0; 9],
    ];
    let board = SudokuBoard::new_with_grid(grid);
    assert!(!board.is_complete());
}
