//! End-to-end tests of parsing and solving.

use sudoku_core::sudoku::{Sudoku, SudokuError};

/// The classic puzzle of the form page.
const PUZZLE: &str = "5,3,_,_,7,_,_,_,_ 6,_,_,1,9,5,_,_,_ _,9,8,_,_,_,_,6,_ 8,_,_,_,6,_,_,_,3 4,_,_,8,_,3,_,_,1 7,_,_,_,2,_,_,_,6 _,6,_,_,_,_,2,8,_ _,_,_,4,1,9,_,_,5 _,_,_,_,8,_,_,7,9";

/// Its unique solution.
const SOLUTION: [[u8; 9]; 9] = [
    [5, 3, 4, 6, 7, 8, 9, 1, 2],
    [6, 7, 2, 1, 9, 5, 3, 4, 8],
    [1, 9, 8, 3, 4, 2, 5, 6, 7],
    [8, 5, 9, 7, 6, 1, 4, 2, 3],
    [4, 2, 6, 8, 5, 3, 7, 9, 1],
    [7, 1, 3, 9, 2, 4, 8, 5, 6],
    [9, 6, 1, 5, 3, 7, 2, 8, 4],
    [2, 8, 7, 4, 1, 9, 6, 3, 5],
    [3, 4, 5, 2, 8, 6, 1, 7, 9],
];

fn default_sudoku() -> Sudoku {
    Sudoku { grid: [[0u8; 9]; 9] }
}

#[test]
fn classic_puzzle_solves_to_unique_solution() {
    let mut sudoku = default_sudoku();
    assert!(sudoku.parse(PUZZLE).is_ok());
    assert!(sudoku.solve_fast().is_ok());
    for r in 0..9 {
        for c in 0..9 {
            assert_eq!(sudoku.cell(r, c), SOLUTION[r][c]);
        }
    }
    assert_eq!(
        [
            sudoku.cell(0, 0),
            sudoku.cell(0, 1),
            sudoku.cell(0, 2),
            sudoku.cell(0, 3),
            sudoku.cell(0, 4),
            sudoku.cell(0, 5),
            sudoku.cell(0, 6),
            sudoku.cell(0, 7),
            sudoku.cell(0, 8)
        ],
        [5, 3, 4, 6, 7, 8, 9, 1, 2]
    );
}

#[test]
fn solved_grid_has_every_digit_once_per_unit() {
    let mut sudoku = default_sudoku();
    sudoku.parse(PUZZLE).unwrap();
    sudoku.solve_fast().unwrap();
    for d in 1..=9u8 {
        for u in 0..9 {
            let row_count = (0..9).filter(|&c| sudoku.cell(u, c) == d).count();
            let col_count = (0..9).filter(|&r| sudoku.cell(r, u) == d).count();
            let box_count = (0..9)
                .filter(|&k| sudoku.cell((u / 3) * 3 + k / 3, (u % 3) * 3 + k % 3) == d)
                .count();
            assert_eq!(row_count, 1);
            assert_eq!(col_count, 1);
            assert_eq!(box_count, 1);
        }
    }
}

#[test]
fn row_duplicate_makes_puzzle_unsolvable() {
    // The solved board with the 3 of the first row overwritten by a second
    // 5 and the 5 of column 1 removed: the empty cell can only take a 5,
    // which the duplicate blocks.
    let schema = "5,5,4,6,7,8,9,1,2 6,7,2,1,9,5,3,4,8 1,9,8,3,4,2,5,6,7 8,_,9,7,6,1,4,2,3 4,2,6,8,5,3,7,9,1 7,1,3,9,2,4,8,5,6 9,6,1,5,3,7,2,8,4 2,8,7,4,1,9,6,3,5 3,4,5,2,8,6,1,7,9";
    let mut sudoku = default_sudoku();
    sudoku.parse(schema).unwrap();
    let before: Vec<u8> = (0..81).map(|i| sudoku.cell(i / 9, i % 9)).collect();
    let res = sudoku.solve_fast();
    assert!(matches!(res, Err(SudokuError::NoSolution)));
    // A failed solve leaves the board untouched.
    let after: Vec<u8> = (0..81).map(|i| sudoku.cell(i / 9, i % 9)).collect();
    assert_eq!(before, after);
}

#[test]
fn complete_valid_grid_solves_immediately() {
    let mut sudoku = Sudoku { grid: SOLUTION };
    assert!(sudoku.solve_fast().is_ok());
    for r in 0..9 {
        for c in 0..9 {
            assert_eq!(sudoku.cell(r, c), SOLUTION[r][c]);
        }
    }
}

/// A plain reference backtracker, written independently of the library.
fn reference_solve(grid: &mut [[u8; 9]; 9]) -> bool {
    for r in 0..9 {
        for c in 0..9 {
            if grid[r][c] == 0 {
                for d in 1..=9u8 {
                    let b = (r / 3) * 3 + c / 3;
                    let clash = (0..9).any(|k| {
                        grid[r][k] == d
                            || grid[k][c] == d
                            || grid[(b / 3) * 3 + k / 3][(b % 3) * 3 + k % 3] == d
                    });
                    if !clash {
                        grid[r][c] = d;
                        if reference_solve(grid) {
                            return true;
                        }
                        grid[r][c] = 0;
                    }
                }
                return false;
            }
        }
    }
    true
}

#[test]
fn search_order_is_deterministic_on_empty_grid() {
    // The empty grid has many solutions; the solver must return the one the
    // row-major, ascending-digit search finds.
    let mut expected = [[0u8; 9]; 9];
    assert!(reference_solve(&mut expected));
    let mut sudoku = default_sudoku();
    assert!(sudoku.solve_fast().is_ok());
    for r in 0..9 {
        for c in 0..9 {
            assert_eq!(sudoku.cell(r, c), expected[r][c]);
        }
    }
}

#[test]
fn solve_rejects_unfillable_single_gap() {
    // All digits 1..=9 blocked at the single empty cell.
    let mut grid = SOLUTION;
    grid[0][0] = 0;
    grid[0][1] = 5; // duplicates the digit the gap needs
    let mut sudoku = Sudoku { grid };
    assert!(matches!(sudoku.solve_fast(), Err(SudokuError::NoSolution)));
}

#[test]
fn valid_but_unsolvable_grid_returns_no_solution() {
    // No duplicate anywhere, yet unsolvable: the first row forces a 9 into
    // its last cell, and that cell's box already holds a 9.
    let schema = "1,2,3,4,5,6,7,8,_ _,_,_,_,_,_,_,_,_ _,_,_,_,_,_,_,_,9 _,_,_,_,_,_,_,_,_ _,_,_,_,_,_,_,_,_ _,_,_,_,_,_,_,_,_ _,_,_,_,_,_,_,_,_ _,_,_,_,_,_,_,_,_ _,_,_,_,_,_,_,_,_";
    let mut sudoku = default_sudoku();
    sudoku.parse(schema).unwrap();
    assert!(matches!(sudoku.solve_fast(), Err(SudokuError::NoSolution)));
}

#[test]
fn error_messages_match_error_kinds() {
    assert_eq!(SudokuError::InvalidFormat.message(), "Invalid format");
    assert_eq!(SudokuError::InvalidNumber.message(), "Invalid number");
    assert_eq!(SudokuError::NotEnoughArguments.message(), "Not enough arguments");
    assert_eq!(SudokuError::NoSolution.message(), "No solution found");
}
