use sudoku_solver::board::SudokuBoard;
use sudoku_solver::solver::backtracking::{Backtracking, SolveError};

fn set_row(board: &mut SudokuBoard, row: u8, value: u8) {
    for col in 0..9 {
        let _ = board.set_value(row, col, value);
    }
}

#[test]
fn test_find_next_empty() {
    let board = SudokuBoard::new();
    let mut solver = Backtracking::new(board);

    assert_eq!(solver.find_next_empty(0, 0), Some((0, 0)));

    set_row(&mut solver.board, 1, 1);
    assert_eq!(solver.find_next_empty(0, 0), Some((0, 0)));
    assert_eq!(solver.find_next_empty(1, 0), Some((2, 0)));
    assert_eq!(solver.find_next_empty(1, 1), Some((2, 0)));
    assert_eq!(solver.find_next_empty(1, 5), Some((2, 0)));

    assert_eq!(solver.find_next_empty(2, 3), Some((2, 3)));

    set_row(&mut solver.board, 0, 1);
    assert_eq!(solver.find_next_empty(0, 0), Some((2, 0)));

    for row in 0..9 {
        set_row(&mut solver.board, row, 1);
    }
    assert_eq!(solver.find_next_empty(0, 0), None);
}

#[test]
fn test_1() {
    let grid = [
        [0, 2, 7, 1, 5, 4, 3, 9, 6],
        [9, 6, 5, 3, 2, 7, 1, 4, 8],
        [3, 4, 1, 6, 8, 9, 7, 5, 2],
        [5, 9, 3, 4, 6, 8, 2, 7, 1],
        [4, 7, 2, 5, 1, 3, 6, 8, 9],
        [6, 1, 8, 9, 7, 2, 4, 3, 5],
        [7, 8, 6, 2, 3, 5, 9, 1, 4],
        [1, 5, 4, 7, 9, 6, 8, 2, 3],
        [2, 3, 9, 8, 4, 1, 5, 6, 7],
    ];
    let board = SudokuBoard::new_with_grid(grid);
    let mut solver = Backtracking::new(board);
    let outcome = solver.solve();

    println!("{}", solver.board.as_ascii());

    assert_eq!(outcome, Ok(()));
    assert_eq!(solver.board.get_value(0, 0), 8);
    assert!(solver.board.is_complete());
}

#[test]
fn test_solve_known_puzzle() {
    let grid = [
        [5, 3, 0, 0, 7, 0, 0, 0, 0],
        [6, 0, 0, 1, 9, 5, 0, 0, 0],
        [0, 9, 8, 0, 0, 0, 0, 6, 0],
        [8, 0, 0, 0, 6, 0, 0, 0, 3],
        [4, 0, 0, 8, 0, 3, 0, 0, 1],
        [7, 0, 0, 0, 2, 0, 0, 0, 6],
        [0, 6, 0, 0, 0, 0, 2, 8, 0],
        [0, 0, 0, 4, 1, 9, 0, 0, 5],
        [0, 0, 0, 0, 8, 0, 0, 7, 9],
    ];
    let board = SudokuBoard::new_with_grid(grid);
    let mut solver = Backtracking::new(board);

    assert_eq!(solver.solve(), Ok(()));
    assert!(solver.board.is_complete());

    let expected_first_row = [5, 3, 4, 6, 7, 8, 9, 1, 2];
    for col in 0..9u8 {
        assert_eq!(solver.board.get_value(0, col), expected_first_row[col as usize]);
    }
    // The clues of the puzzle survive in the solution.
    for row in 0..9u8 {
        for col in 0..9u8 {
            let clue = grid[row as usize][col as usize];
            if clue != 0 {
                assert_eq!(solver.board.get_value(row, col), clue);
            }
        }
    }
}

#[test]
fn test_invalid_input_refused_before_search() {
    // Two 5s in row 0 and an otherwise empty grid: the solver refuses the
    // input and leaves the board exactly as it was.
    let mut board = SudokuBoard::new();
    let _ = board.set_value(0, 0, 5);
    let _ = board.set_value(0, 4, 5);
    let mut solver = Backtracking::new(board);

    assert_eq!(solver.solve(), Err(SolveError::InvalidInput));

    for row in 0..9u8 {
        for col in 0..9u8 {
            let expected = if (row, col) == (0, 0) || (row, col) == (0, 4) {
                5
            } else {
                0
            };
            assert_eq!(solver.board.get_value(row, col), expected);
        }
    }
}

#[test]
fn test_empty_grid_solvable_within_bounded_steps() {
    let board = SudokuBoard::new();
    let mut solver = Backtracking::new(board);

    // An empty grid is solvable, and the search must finish within a fixed
    // step budget rather than loop forever.
    assert_eq!(solver.solve_with_budget(500_000), Ok(()));
    assert!(solver.board.is_complete());
    // The solver scans cells row-major and tries candidates ascending, so
    // it lands on the lexicographically least completion: row 0 is 1..=9.
    for col in 0..9u8 {
        assert_eq!(solver.board.get_value(0, col), col + 1);
    }
}

#[test]
fn test_solve_already_complete_board() {
    let grid = [
        [8, 2, 7, 1, 5, 4, 3, 9, 6],
        [9, 6, 5, 3, 2, 7, 1, 4, 8],
        [3, 4, 1, 6, 8, 9, 7, 5, 2],
        [5, 9, 3, 4, 6, 8, 2, 7, 1],
        [4, 7, 2, 5, 1, 3, 6, 8, 9],
        [6, 1, 8, 9, 7, 2, 4, 3, 5],
        [7, 8, 6, 2, 3, 5, 9, 1, 4],
        [1, 5, 4, 7, 9, 6, 8, 2, 3],
        [2, 3, 9, 8, 4, 1, 5, 6, 7],
    ];
    let board = SudokuBoard::new_with_grid(grid);
    let mut solver = Backtracking::new(board);

    assert_eq!(solver.solve(), Ok(()));
    for row in 0..9u8 {
        for col in 0..9u8 {
            assert_eq!(
                solver.board.get_value(row, col),
                grid[row as usize][col as usize]
            );
        }
    }
}

#[test]
fn test_unsolvable_grid_reported_and_restored() {
    // Row 0 holds 1..=8 with its last cell empty, and a 9 below that cell:
    // no digit fits at (0, 8), so the search space is exhausted at once.
    let grid = [
        [1, 2, 3, 4, 5, 6, 7, 8, 0],
        [0, 0, 0, 0, 0, 0, 0, 0, 9],
        [0; 9],
        [0; 9],
        [0; 9],
        [0; 9],
        [0; 9],
        [0; 9],
        [0; 9],
    ];
    let board = SudokuBoard::new_with_grid(grid);
    let mut solver = Backtracking::new(board);

    assert_eq!(solver.solve(), Err(SolveError::Unsolvable));

    // The board is restored to exactly the initial grid.
    for row in 0..9u8 {
        for col in 0..9u8 {
            assert_eq!(
                solver.board.get_value(row, col),
                grid[row as usize][col as usize]
            );
        }
    }
}

#[test]
fn test_budget_exhausted_reported() {
    let board = SudokuBoard::new();
    let mut solver = Backtracking::new(board);
    assert_eq!(
        solver.solve_with_budget(0),
        Err(SolveError::BudgetExhausted)
    );
}

#[test]
fn test_solve_needs_consecutive_backtracks() {
    // Rows 0 and 1 are nearly full, shaped so that the first candidates the
    // scan commits at (0, 7), (0, 8) and (1, 8) cannot all stand: reaching
    // the solution takes backtracking across different cells.
    let grid = [
        [1, 2, 3, 4, 5, 6, 0, 0, 0],
        [4, 5, 6, 7, 8, 9, 0, 0, 0],
        [0; 9],
        [0; 9],
        [0; 9],
        [0; 9],
        [0; 9],
        [0; 9],
        [0; 9],
    ];
    let board = SudokuBoard::new_with_grid(grid);
    let mut solver = Backtracking::new(board);

    assert_eq!(solver.solve(), Ok(()));
    assert!(solver.board.is_complete());
    // The clues survive.
    for row in 0..2u8 {
        for col in 0..9u8 {
            let clue = grid[row as usize][col as usize];
            if clue != 0 {
                assert_eq!(solver.board.get_value(row, col), clue);
            }
        }
    }
}
