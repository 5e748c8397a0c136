//! Tests of the HTML renderer, the two-phase response protocol and the
//! instrumentation guard.

use sudoku_core::form_value::FormValue;
use sudoku_core::instrumentation::{Sm2Guard, Sm2Handle, Sm2State};
use sudoku_core::sudoku::SudokuError;
use sudoku_core::utility::{error_html, html_table};

const HEADER: &str = "<!DOCTYPE html><html><head><meta charset=\"utf-8\"><title>Sudoku Result</title></head><body>";
const FOOTER: &str = "</body></html>";
const CAP: usize = 1024;

const SOLUTION: [[u8; 9]; 9] = [
    [5, 3, 4, 6, 7, 8, 9, 1, 2],
    [6, 7, 2, 1, 9, 5, 3, 4, 8],
    [1, 9, 8, 3, 4, 2, 5, 6, 7],
    [8, 5, 9, 7, 6, 1, 4, 2, 3],
    [4, 2, 6, 8, 5, 3, 7, 9, 1],
    [7, 1, 3, 9, 2, 4, 8, 5, 6],
    [9, 6, 1, 5, 3, 7, 2, 8, 4],
    [2, 8, 7, 4, 1, 9, 6, 3, 5],
    [3, 4, 5, 2, 8, 6, 1, 7, 9],
];

/// Append a piece only while the whole result fits the body capacity, as
/// the bounded body buffer does.
fn capped_push(out: &mut String, piece: &str) {
    if out.len() + piece.len() <= CAP {
        out.push_str(piece);
    }
}

fn expected_table(grid: &[[u8; 9]; 9]) -> String {
    let mut out = String::new();
    capped_push(&mut out, HEADER);
    capped_push(&mut out, "<h1>Solved Sudoku</h1><table border=\"1\">");
    for row in grid.iter() {
        capped_push(&mut out, "<tr>");
        for cell in row.iter() {
            capped_push(&mut out, &format!("<td>{cell}</td>"));
        }
        capped_push(&mut out, "</tr>");
    }
    capped_push(&mut out, "</table>");
    capped_push(&mut out, FOOTER);
    out
}

#[test]
fn table_page_is_the_capped_concatenation() {
    let body = html_table(&SOLUTION);
    assert_eq!(body, expected_table(&SOLUTION));
}

#[test]
fn table_page_is_truncated_at_the_capacity() {
    // Header, banner and the 81 cells come to 1021 characters, so the
    // closing table and footer markup no longer fit.
    let body = html_table(&SOLUTION);
    assert_eq!(body.len(), 1021);
    assert!(body.starts_with(HEADER));
    assert!(body.ends_with("</tr>"));
    assert!(!body.contains("</table>"));
    assert!(!body.contains(FOOTER));
}

#[test]
fn error_page_wraps_message_and_error_text() {
    let body = error_html("Error solving schema", &SudokuError::NoSolution);
    let expected = format!(
        "{HEADER}<h1>Error solving schema: No solution found</h1>{FOOTER}",
        HEADER = HEADER,
        FOOTER = FOOTER
    );
    assert_eq!(body, expected);

    let body = error_html("Error parsing schema", &SudokuError::NotEnoughArguments);
    let expected = format!(
        "{HEADER}<h1>Error parsing schema: Not enough arguments</h1>{FOOTER}",
        HEADER = HEADER,
        FOOTER = FOOTER
    );
    assert_eq!(body, expected);
}

#[test]
fn oversized_error_page_degrades_to_empty() {
    let long_message = "x".repeat(2000);
    let body = error_html(&long_message, &SudokuError::InvalidFormat);
    assert_eq!(body, "");
}

fn classic_form() -> FormValue {
    FormValue::new(
        "5,3,_,_,7,_,_,_,_".to_string(),
        "6,_,_,1,9,5,_,_,_".to_string(),
        "_,9,8,_,_,_,_,6,_".to_string(),
        "8,_,_,_,6,_,_,_,3".to_string(),
        "4,_,_,8,_,3,_,_,1".to_string(),
        "7,_,_,_,2,_,_,_,6".to_string(),
        "_,6,_,_,_,_,2,8,_".to_string(),
        "_,_,_,4,1,9,_,_,5".to_string(),
        "_,_,_,_,8,_,_,7,9".to_string(),
    )
}

#[test]
fn content_type_is_html() {
    let form = classic_form();
    assert_eq!(form.content_type(), "text/html");
}

#[test]
fn length_phase_caches_body_and_returns_its_length() {
    let mut form = classic_form();
    let mut handle = Sm2Handle::new();
    let n = form.content_length(&mut handle);
    let body = form.write_content();
    assert_eq!(n, body.len());
    assert_eq!(body, expected_table(&SOLUTION));
}

#[test]
fn write_phase_reuses_the_cached_body() {
    let mut form = classic_form();
    let mut handle = Sm2Handle::new();
    form.content_length(&mut handle);
    let first = form.write_content();
    let second = form.write_content();
    assert_eq!(first, second);
}

#[test]
fn write_phase_without_length_phase_yields_empty_body() {
    let form = classic_form();
    assert_eq!(form.write_content(), "");
}

#[test]
fn unsolvable_submission_renders_the_solving_error_page() {
    let mut form = FormValue::new(
        "5,5,4,6,7,8,9,1,2".to_string(),
        "6,7,2,1,9,5,3,4,8".to_string(),
        "1,9,8,3,4,2,5,6,7".to_string(),
        "8,_,9,7,6,1,4,2,3".to_string(),
        "4,2,6,8,5,3,7,9,1".to_string(),
        "7,1,3,9,2,4,8,5,6".to_string(),
        "9,6,1,5,3,7,2,8,4".to_string(),
        "2,8,7,4,1,9,6,3,5".to_string(),
        "3,4,5,2,8,6,1,7,9".to_string(),
    );
    let mut handle = Sm2Handle::new();
    form.content_length(&mut handle);
    let expected = format!(
        "{HEADER}<h1>Error solving schema: No solution found</h1>{FOOTER}",
        HEADER = HEADER,
        FOOTER = FOOTER
    );
    assert_eq!(form.write_content(), expected);
}

#[test]
fn malformed_submission_renders_the_parsing_error_page() {
    let mut form = FormValue::new(
        "a,b,c,d,e,f,g,h,i".to_string(),
        "a,b,c,d,e,f,g,h,i".to_string(),
        "a,b,c,d,e,f,g,h,i".to_string(),
        "a,b,c,d,e,f,g,h,i".to_string(),
        "a,b,c,d,e,f,g,h,i".to_string(),
        "a,b,c,d,e,f,g,h,i".to_string(),
        "a,b,c,d,e,f,g,h,i".to_string(),
        "a,b,c,d,e,f,g,h,i".to_string(),
        "a,b,c,d,e,f,g,h,i".to_string(),
    );
    let mut handle = Sm2Handle::new();
    form.content_length(&mut handle);
    let expected = format!(
        "{HEADER}<h1>Error parsing schema: Invalid number</h1>{FOOTER}",
        HEADER = HEADER,
        FOOTER = FOOTER
    );
    assert_eq!(form.write_content(), expected);
}

#[test]
fn guard_enables_then_disables_the_device() {
    let mut sm2 = Sm2State { locked: false, enabled: false };
    let guard = Sm2Guard::new(&mut sm2);
    assert!(guard.is_some());
    assert!(sm2.enabled);
    guard.unwrap().release(&mut sm2);
    assert!(!sm2.enabled);
}

#[test]
fn contended_guard_leaves_the_device_alone() {
    let mut sm2 = Sm2State { locked: true, enabled: false };
    let guard = Sm2Guard::new(&mut sm2);
    assert!(guard.is_none());
    assert!(!sm2.enabled);
    assert!(sm2.locked);
}

#[test]
fn contention_never_changes_the_response_or_leaves_the_device_enabled() {
    // The same submission under an uninitialized handle, a contended device
    // and a free device: one body, and the device always ends disabled.
    let mut free = Sm2Handle::new();
    free.set_shared_sm2(Sm2State { locked: false, enabled: false });
    let mut contended = Sm2Handle::new();
    contended.set_shared_sm2(Sm2State { locked: true, enabled: false });
    let mut uninitialized = Sm2Handle::new();

    let mut bodies = Vec::new();
    for handle in [&mut free, &mut contended, &mut uninitialized] {
        let mut form = classic_form();
        let n = form.content_length(handle);
        let body = form.write_content();
        assert_eq!(n, body.len());
        assert!(!handle.sm2.enabled, "device left enabled after a request");
        bodies.push(body);
    }
    assert_eq!(bodies[0], bodies[1]);
    assert_eq!(bodies[1], bodies[2]);
    assert_eq!(bodies[0], expected_table(&SOLUTION));
}

#[test]
fn error_path_also_leaves_the_device_disabled() {
    let mut handle = Sm2Handle::new();
    handle.set_shared_sm2(Sm2State { locked: false, enabled: false });
    let mut form = FormValue::new(
        "x".to_string(),
        String::new(),
        String::new(),
        String::new(),
        String::new(),
        String::new(),
        String::new(),
        String::new(),
        String::new(),
    );
    form.content_length(&mut handle);
    assert!(!handle.sm2.enabled);
    assert!(form.write_content().contains("Error parsing schema"));
}
