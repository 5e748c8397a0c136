//! Tests of the schema parser and the canonical serializer.

use sudoku_core::sudoku::{Sudoku, SudokuError};

fn default_sudoku() -> Sudoku {
    Sudoku { grid: [[0u8; 9]; 9] }
}

#[test]
fn non_numeric_tokens_fail_with_invalid_number() {
    let row = "a,b,c,d,e,f,g,h,i";
    let schema = [row; 9].join(" ");
    let mut sudoku = default_sudoku();
    assert!(matches!(sudoku.parse(&schema), Err(SudokuError::InvalidNumber)));
}

#[test]
fn eight_row_groups_fail_with_not_enough_arguments() {
    let row = "1,2,3,4,5,6,7,8,9";
    let schema = [row; 8].join(" ");
    let mut sudoku = default_sudoku();
    assert!(matches!(sudoku.parse(&schema), Err(SudokuError::NotEnoughArguments)));
}

#[test]
fn ten_row_groups_fail_with_not_enough_arguments() {
    let row = "1,2,3,4,5,6,7,8,9";
    let schema = [row; 10].join(" ");
    let mut sudoku = default_sudoku();
    assert!(matches!(sudoku.parse(&schema), Err(SudokuError::NotEnoughArguments)));
}

#[test]
fn empty_schema_fails_with_not_enough_arguments() {
    let mut sudoku = default_sudoku();
    assert!(matches!(sudoku.parse(""), Err(SudokuError::NotEnoughArguments)));
}

#[test]
fn wrong_token_count_fails_with_invalid_number() {
    let short_row = "1,2,3,4,5,6,7,8";
    let full_row = "1,2,3,4,5,6,7,8,9";
    let schema = format!("{short} {rest}", short = short_row, rest = [full_row; 8].join(" "));
    let mut sudoku = default_sudoku();
    assert!(matches!(sudoku.parse(&schema), Err(SudokuError::InvalidNumber)));

    let long_row = "1,2,3,4,5,6,7,8,9,1";
    let schema = format!("{long} {rest}", long = long_row, rest = [full_row; 8].join(" "));
    let mut sudoku = default_sudoku();
    assert!(matches!(sudoku.parse(&schema), Err(SudokuError::InvalidNumber)));
}

#[test]
fn tokens_are_trimmed_and_underscore_is_empty() {
    // Spaces would split the row-groups apart, but any other whitespace
    // around a token is trimmed away.
    let row = "\t1\t,\t2,3,4,_,6,7,8,\t9\t";
    let rest = "_,_,_,_,_,_,_,_,_";
    let schema = format!("{row} {}", [rest; 8].join(" "), row = row);
    let mut sudoku = default_sudoku();
    assert!(sudoku.parse(&schema).is_ok());
    assert_eq!(sudoku.cell(0, 0), 1);
    assert_eq!(sudoku.cell(0, 1), 2);
    assert_eq!(sudoku.cell(0, 4), 0);
    assert_eq!(sudoku.cell(0, 8), 9);
    assert_eq!(sudoku.cell(5, 5), 0);
}

#[test]
fn numeric_token_forms_accepted_like_a_byte_parser() {
    // A leading plus and leading zeros are how the byte parser reads text.
    let row = "+1,007,0,2,3,4,5,6,7";
    let rest = "_,_,_,_,_,_,_,_,_";
    let schema = format!("{row} {}", [rest; 8].join(" "), row = row);
    let mut sudoku = default_sudoku();
    assert!(sudoku.parse(&schema).is_ok());
    assert_eq!(sudoku.cell(0, 0), 1);
    assert_eq!(sudoku.cell(0, 1), 7);
    assert_eq!(sudoku.cell(0, 2), 0);
}

#[test]
fn out_of_range_cell_values_fail_with_invalid_number() {
    for bad in ["10", "255", "256", "-1", "", "+", "5.0"] {
        let row = format!("{bad},2,3,4,5,6,7,8,9", bad = bad);
        let rest = "_,_,_,_,_,_,_,_,_";
        let schema = format!("{row} {}", [rest; 8].join(" "), row = row);
        let mut sudoku = default_sudoku();
        assert!(
            matches!(sudoku.parse(&schema), Err(SudokuError::InvalidNumber)),
            "token {bad:?} should be rejected"
        );
    }
}

#[test]
fn rejected_schema_leaves_grid_untouched() {
    let mut sudoku = default_sudoku();
    let good = "1,2,3,4,5,6,7,8,9";
    let schema = [good; 9].join(" ");
    sudoku.parse(&schema).unwrap();
    let bad = format!("{} x,2,3,4,5,6,7,8,9", [good; 8].join(" "));
    assert!(sudoku.parse(&bad).is_err());
    for c in 0..9 {
        assert_eq!(sudoku.cell(0, c), (c + 1) as u8);
        assert_eq!(sudoku.cell(8, c), (c + 1) as u8);
    }
}

#[test]
fn serializer_round_trips_through_parse() {
    let puzzle = "5,3,_,_,7,_,_,_,_ 6,_,_,1,9,5,_,_,_ _,9,8,_,_,_,_,6,_ 8,_,_,_,6,_,_,_,3 4,_,_,8,_,3,_,_,1 7,_,_,_,2,_,_,_,6 _,6,_,_,_,_,2,8,_ _,_,_,4,1,9,_,_,5 _,_,_,_,8,_,_,7,9";
    let mut first = default_sudoku();
    first.parse(puzzle).unwrap();
    let text = first.to_schema();
    let mut reparsed = default_sudoku();
    assert!(reparsed.parse(&text).is_ok());
    for r in 0..9 {
        for c in 0..9 {
            assert_eq!(reparsed.cell(r, c), first.cell(r, c));
        }
    }
}

#[test]
fn serializer_writes_empty_cells_as_zero() {
    let sudoku = default_sudoku();
    let row = "0,0,0,0,0,0,0,0,0";
    assert_eq!(sudoku.to_schema(), [row; 9].join(" "));
}
