//! HTML page generation and configuration parsing.
//!
//! The response body lives in a fixed 1024-character buffer, as on the
//! device that serves it: every piece of a page is appended only if it still
//! fits ([`bpush`]), so an oversized page is cut off after the last piece
//! that fit rather than reported as an error.

use vstd::prelude::*;

use crate::form_value::{rows_of, FormValue};
use crate::grid::{flat, in_grid, lemma_cells_eq, lex_le, tracker_solution, wf_cells, Cells};
use crate::sudoku::{digit_ch, digit_str, parse_err, parse_ok, parsed_cell, Sudoku, SudokuError};
use crate::text::{parse_u8_chars, split_ch, split_vec, to_char_vec, trim_chars, trimmed_u8};

verus! {

/// The capacity of a response body, in characters.
pub const BODY_CAP: usize = 1024;

/// The fixed markup that opens every page.
pub open spec fn header_text() -> Seq<char> {
    "<!DOCTYPE html><html><head><meta charset=\"utf-8\"><title>Sudoku Result</title></head><body>"@
}

/// The fixed markup that closes every page.
pub open spec fn footer_text() -> Seq<char> {
    "</body></html>"@
}

fn header_str() -> (r: &'static str)
    ensures
        r@ == header_text(),
{
    "<!DOCTYPE html><html><head><meta charset=\"utf-8\"><title>Sudoku Result</title></head><body>"
}

fn footer_str() -> (r: &'static str)
    ensures
        r@ == footer_text(),
{
    "</body></html>"
}

/// Appends `p` to a bounded buffer holding `s`: the piece goes in whole if
/// the result still fits the body capacity, and is dropped whole otherwise.
pub open spec fn bpush(s: Seq<char>, p: Seq<char>) -> Seq<char> {
    if s.len() + p.len() <= BODY_CAP {
        s + p
    } else {
        s
    }
}

/// Appends `piece` to `out` exactly when the result stays within the body
/// capacity.
fn bounded_append(out: &mut String, piece: &str)
    ensures
        final(out)@ == bpush(old(out)@, piece@),
{
    let cur = out.as_str().unicode_len();
    let plen = piece.unicode_len();
    if cur <= BODY_CAP && plen <= BODY_CAP && cur + plen <= BODY_CAP {
        out.append(piece);
    }
}

/// One table cell of the success page.
pub open spec fn td_text(v: u8) -> Seq<char> {
    "<td>"@ + seq![digit_ch(v)] + "</td>"@
}

/// The success page after the cells of row `r` from column `c` on have been
/// appended to `acc`.
pub open spec fn cells_html(g: Cells, r: int, c: int, acc: Seq<char>) -> Seq<char>
    decreases 9 - c,
{
    if c < 0 || c >= 9 {
        acc
    } else {
        cells_html(g, r, c + 1, bpush(acc, td_text(g[r][c])))
    }
}

/// The success page after the rows from `r` on have been appended to `acc`.
pub open spec fn rows_html(g: Cells, r: int, acc: Seq<char>) -> Seq<char>
    decreases 9 - r,
{
    if r < 0 || r >= 9 {
        acc
    } else {
        rows_html(g, r + 1, bpush(cells_html(g, r, 0, bpush(acc, "<tr>"@)), "</tr>"@))
    }
}

/// The whole success page for a solved board: header, banner, one table row
/// per board row, each piece kept only while the body capacity allows.
pub open spec fn table_html(g: Cells) -> Seq<char> {
    bpush(
        bpush(
            rows_html(
                g,
                0,
                bpush(bpush(Seq::empty(), header_text()), "<h1>Solved Sudoku</h1><table border=\"1\">"@),
            ),
            "</table>"@,
        ),
        footer_text(),
    )
}

/// One table cell, rendered.
fn td_str(v: u8) -> (r: String)
    requires
        v <= 9,
    ensures
        r@ == td_text(v),
{
    let mut s = "<td>".to_owned();
    s.append(digit_str(v));
    s.append("</td>");
    s
}

/// Generates the HTML table page for a solved Sudoku grid. The page is cut
/// off once the body capacity is reached; the table itself always fits, so
/// only closing markup can be lost.
pub fn html_table(grid: &Cells) -> (r: String)
    requires
        wf_cells(*grid),
    ensures
        r@ == table_html(*grid),
{
    let mut html = String::new();
    bounded_append(&mut html, header_str());
    bounded_append(&mut html, "<h1>Solved Sudoku</h1><table border=\"1\">");
    let ghost body_acc = html@;
    let mut r: usize = 0;
    while r < 9
        invariant
            r <= 9,
            wf_cells(*grid),
            rows_html(*grid, r as int, html@) == rows_html(*grid, 0, body_acc),
        decreases 9 - r,
    {
        bounded_append(&mut html, "<tr>");
        let ghost row_acc = html@;
        let mut c: usize = 0;
        while c < 9
            invariant
                c <= 9,
                r < 9,
                wf_cells(*grid),
                cells_html(*grid, r as int, c as int, html@) == cells_html(
                    *grid,
                    r as int,
                    0,
                    row_acc,
                ),
            decreases 9 - c,
        {
            let piece = td_str(grid[r][c]);
            bounded_append(&mut html, piece.as_str());
            c += 1;
        }
        bounded_append(&mut html, "</tr>");
        r += 1;
    }
    bounded_append(&mut html, "</table>");
    bounded_append(&mut html, footer_str());
    html
}

proof fn lemma_cells_html_exact(g: Cells, r: int, c: int, acc: Seq<char>)
    requires
        wf_cells(g),
        0 <= r < 9,
        0 <= c <= 9,
        acc.len() + (9 - c) * 10 <= BODY_CAP,
    ensures
        cells_html(g, r, c, acc).len() == acc.len() + (9 - c) * 10,
    decreases 9 - c,
{
    reveal_strlit("<td>");
    reveal_strlit("</td>");
    if c < 9 {
        assert(in_grid(r, c) && g[r][c] <= 9);
        assert(td_text(g[r][c]).len() == 10);
        lemma_cells_html_exact(g, r, c + 1, bpush(acc, td_text(g[r][c])));
    }
}

proof fn lemma_rows_html_exact(g: Cells, r: int, acc: Seq<char>)
    requires
        wf_cells(g),
        0 <= r <= 9,
        acc.len() + (9 - r) * 99 <= BODY_CAP,
    ensures
        rows_html(g, r, acc).len() == acc.len() + (9 - r) * 99,
    decreases 9 - r,
{
    reveal_strlit("<tr>");
    reveal_strlit("</tr>");
    if r < 9 {
        let acc1 = bpush(acc, "<tr>"@);
        assert(acc1.len() == acc.len() + 4);
        lemma_cells_html_exact(g, r, 0, acc1);
        let acc2 = bpush(cells_html(g, r, 0, acc1), "</tr>"@);
        assert(acc2.len() == acc.len() + 99);
        lemma_rows_html_exact(g, r + 1, acc2);
    }
}

/// The success page is cut off at exactly the same point for every board:
/// header, banner and the 81 single-digit cells come to 1021 characters, and
/// the closing table and footer markup, which no longer fit the capacity,
/// are the only pieces ever lost.
pub proof fn lemma_table_html_len(g: Cells)
    requires
        wf_cells(g),
    ensures
        table_html(g).len() == 1021,
{
    reveal_strlit(
        "<!DOCTYPE html><html><head><meta charset=\"utf-8\"><title>Sudoku Result</title></head><body>",
    );
    reveal_strlit("<h1>Solved Sudoku</h1><table border=\"1\">");
    reveal_strlit("</table>");
    reveal_strlit("</body></html>");
    let acc0 = bpush(
        bpush(Seq::empty(), header_text()),
        "<h1>Solved Sudoku</h1><table border=\"1\">"@,
    );
    assert(acc0.len() == 130);
    lemma_rows_html_exact(g, 0, acc0);
}

/// The error page for `e` under the context line `msg`, or the empty body
/// when even that page would not fit the capacity.
pub open spec fn error_page(msg: Seq<char>, e: SudokuError) -> Seq<char> {
    let whole = header_text() + "<h1>"@ + msg + ": "@ + e.text() + "</h1>"@ + footer_text();
    if whole.len() <= BODY_CAP {
        whole
    } else {
        Seq::empty()
    }
}

/// Generates an HTML error page: the fixed context message, then the error's
/// own text. An oversized page degrades to an empty body.
pub fn error_html(msg: &str, err: &SudokuError) -> (r: String)
    ensures
        r@ == error_page(msg@, *err),
{
    let mut s = header_str().to_owned();
    s.append("<h1>");
    s.append(msg);
    s.append(": ");
    s.append(err.message());
    s.append("</h1>");
    s.append(footer_str());
    if s.as_str().unicode_len() <= BODY_CAP {
        s
    } else {
        String::new()
    }
}

/// Nine row texts joined by single spaces: the submission text of a form.
pub open spec fn joined_rows(rows: Seq<Seq<char>>) -> Seq<char> {
    rows[0] + seq![' '] + rows[1] + seq![' '] + rows[2] + seq![' '] + rows[3] + seq![' '] + rows[4]
        + seq![' '] + rows[5] + seq![' '] + rows[6] + seq![' '] + rows[7] + seq![' '] + rows[8]
}

/// The schema text handed to the parser: the joined rows while they fit the
/// body capacity, else the empty text, which the parser then rejects.
pub open spec fn schema_of(rows: Seq<Seq<char>>) -> Seq<char> {
    if joined_rows(rows).len() <= BODY_CAP {
        joined_rows(rows)
    } else {
        Seq::empty()
    }
}

/// `g` holds exactly the cells the submission text `s` denotes.
pub open spec fn grid_matches(s: Seq<char>, g: Cells) -> bool {
    forall|r: int, c: int| in_grid(r, c) ==> #[trigger] g[r][c] == parsed_cell(s, r, c)
}

/// The body the pipeline produces for the board `g`: the table page of the
/// least conflict-free completion in row-major order when one exists — the
/// one the ascending, row-major backtracking search finds — else the
/// solving-error page.
pub open spec fn response_for_grid(g: Cells, body: Seq<char>) -> bool {
    if exists|sol: Cells| tracker_solution(g, sol) {
        exists|sol: Cells|
            {
                &&& #[trigger] tracker_solution(g, sol)
                &&& forall|t: Cells| #[trigger] tracker_solution(g, t) ==> lex_le(flat(sol), flat(t))
                &&& body == table_html(sol)
            }
    } else {
        body == error_page("Error solving schema"@, SudokuError::NoSolution)
    }
}

/// The body the pipeline produces for a submission text: the parsing-error
/// page for a rejected text, else the response for the denoted board.
pub open spec fn response_body(schema: Seq<char>, body: Seq<char>) -> bool {
    if !parse_ok(schema) {
        body == error_page("Error parsing schema"@, parse_err(schema))
    } else {
        &&& exists|g: Cells| #[trigger] grid_matches(schema, g)
        &&& forall|g: Cells| #[trigger] grid_matches(schema, g) ==> response_for_grid(g, body)
    }
}

proof fn lemma_cells_html_len(g: Cells, r: int, c: int, acc: Seq<char>)
    ensures
        cells_html(g, r, c, acc).len() >= acc.len(),
    decreases 9 - c,
{
    if 0 <= c < 9 {
        lemma_cells_html_len(g, r, c + 1, bpush(acc, td_text(g[r][c])));
    }
}

proof fn lemma_rows_html_len(g: Cells, r: int, acc: Seq<char>)
    ensures
        rows_html(g, r, acc).len() >= acc.len(),
    decreases 9 - r,
{
    if 0 <= r < 9 {
        let acc2 = bpush(cells_html(g, r, 0, bpush(acc, "<tr>"@)), "</tr>"@);
        lemma_cells_html_len(g, r, 0, bpush(acc, "<tr>"@));
        lemma_rows_html_len(g, r + 1, acc2);
    }
}

/// The cached-slot invariant of the two-phase protocol: whatever the
/// submission, the body the pipeline produces is never empty, so an empty
/// cached slot means the length phase has not run.
pub proof fn lemma_response_nonempty(schema: Seq<char>, body: Seq<char>)
    requires
        response_body(schema, body),
    ensures
        body.len() > 0,
{
    reveal_strlit(
        "<!DOCTYPE html><html><head><meta charset=\"utf-8\"><title>Sudoku Result</title></head><body>",
    );
    reveal_strlit("</body></html>");
    reveal_strlit("<h1>Solved Sudoku</h1><table border=\"1\">");
    reveal_strlit("<h1>");
    reveal_strlit(": ");
    reveal_strlit("</h1>");
    reveal_strlit("Error parsing schema");
    reveal_strlit("Error solving schema");
    reveal_strlit("Invalid format");
    reveal_strlit("Invalid number");
    reveal_strlit("Not enough arguments");
    reveal_strlit("No solution found");
    assert(header_text().len() == 90);
    assert(footer_text().len() == 14);
    if !parse_ok(schema) {
        assert(body.len() > 0);
    } else {
        let g = choose|g: Cells| #[trigger] grid_matches(schema, g);
        assert(response_for_grid(g, body));
        if exists|sol: Cells| tracker_solution(g, sol) {
            let sol = choose|sol: Cells|
                {
                    &&& #[trigger] tracker_solution(g, sol)
                    &&& forall|t: Cells| #[trigger] tracker_solution(g, t) ==> lex_le(
                        flat(sol),
                        flat(t),
                    )
                    &&& body == table_html(sol)
                };
            let acc0 = bpush(
                bpush(Seq::empty(), header_text()),
                "<h1>Solved Sudoku</h1><table border=\"1\">"@,
            );
            assert(acc0.len() >= 90);
            lemma_rows_html_len(sol, 0, acc0);
            assert(body.len() > 0);
        } else {
            assert(body.len() > 0);
        }
    }
}

/// Generates the HTML response for a submitted form: joins the nine rows
/// into a schema, parses and solves it, renders the solution table or an
/// error page, and caches the body in the form's `message` slot.
pub fn generate_html(form: &mut FormValue) -> (r: String)
    ensures
        rows_of(*final(form)) == rows_of(*old(form)),
        final(form).message@ == r@,
        response_body(schema_of(rows_of(*old(form))), r@),
{
    let mut schema = form.row_1.clone();
    schema.append(" ");
    schema.append(form.row_2.as_str());
    schema.append(" ");
    schema.append(form.row_3.as_str());
    schema.append(" ");
    schema.append(form.row_4.as_str());
    schema.append(" ");
    schema.append(form.row_5.as_str());
    schema.append(" ");
    schema.append(form.row_6.as_str());
    schema.append(" ");
    schema.append(form.row_7.as_str());
    schema.append(" ");
    schema.append(form.row_8.as_str());
    schema.append(" ");
    schema.append(form.row_9.as_str());
    proof {
        reveal_strlit(" ");
        assert(schema@ =~= joined_rows(rows_of(*form)));
    }
    let schema = if schema.as_str().unicode_len() <= BODY_CAP {
        schema
    } else {
        String::new()
    };
    let ghost stext = schema_of(rows_of(*form));
    proof {
        assert(schema@ == stext);
    }
    let mut sudoku = Sudoku::default();
    let processing = match sudoku.parse(schema.as_str()) {
        Ok(()) => {
            let ghost gp = sudoku.grid;
            let out = match sudoku.solve_fast() {
                Ok(()) => html_table(&sudoku.grid),
                Err(e) => error_html("Error solving schema", &e),
            };
            proof {
                assert(grid_matches(stext, gp));
                assert forall|g: Cells| #[trigger] grid_matches(stext, g) implies response_for_grid(
                    g,
                    out@,
                ) by {
                    lemma_cells_eq(g, gp);
                }
            }
            out
        },
        Err(e) => error_html("Error parsing schema", &e),
    };
    form.message = processing.clone();
    proof {
        assert(rows_of(*form) =~= rows_of(*old(form)));
    }
    processing
}

/// The embedded configuration: one `KEY=value` entry per line. Adjust the
/// values to the network the service runs in.
pub open spec fn config_text() -> Seq<char> {
    "\nIP_ADDRESS=192, 168, 1, 115\nGATEWAY_ADDRESS=192, 168, 1, 1\nWIFI_NETWORK=HomeNetwork\nWIFI_PASSWORD=ChangeMe123\nSUBNET_MASK=24\n"@
}

fn config_str() -> (r: &'static str)
    ensures
        r@ == config_text(),
{
    "\nIP_ADDRESS=192, 168, 1, 115\nGATEWAY_ADDRESS=192, 168, 1, 1\nWIFI_NETWORK=HomeNetwork\nWIFI_PASSWORD=ChangeMe123\nSUBNET_MASK=24\n"
}

/// Index of the line break that ends the line beginning at `i`, or the text
/// length when the last line is unterminated.
pub open spec fn line_end(s: Seq<char>, i: int) -> int
    decreases s.len() - i,
{
    if i < 0 || i >= s.len() {
        s.len() as int
    } else if s[i] == '\n' {
        i
    } else {
        line_end(s, i + 1)
    }
}

/// `l` starts with `key`.
pub open spec fn has_prefix(l: Seq<char>, key: Seq<char>) -> bool {
    l.len() >= key.len() && l.take(key.len() as int) == key
}

/// What follows `key` on the first line starting with it, scanning the lines
/// that begin at or after `i`; empty when no line matches.
pub open spec fn config_value_from(s: Seq<char>, i: int, key: Seq<char>) -> Seq<char>
    decreases s.len() - i,
{
    if !(0 <= i <= s.len()) {
        Seq::empty()
    } else {
        let e = line_end(s, i);
        if has_prefix(s.subrange(i, e), key) {
            s.subrange(i + key.len(), e)
        } else if e < i || e >= s.len() {
            Seq::empty()
        } else {
            config_value_from(s, e + 1, key)
        }
    }
}

/// What follows `key` on the first configuration line starting with it.
pub open spec fn config_value(s: Seq<char>, key: Seq<char>) -> Seq<char> {
    config_value_from(s, 0, key)
}

proof fn lemma_line_end(s: Seq<char>, i: int)
    requires
        0 <= i <= s.len(),
    ensures
        i <= line_end(s, i) <= s.len(),
        line_end(s, i) < s.len() ==> s[line_end(s, i)] == '\n',
    decreases s.len() - i,
{
    if i < s.len() && s[i] != '\n' {
        lemma_line_end(s, i + 1);
    }
}

/// Finds the value of the first `key`-prefixed line of `cfg`.
fn lookup<'a>(cfg: &'a str, key: &str) -> (r: &'a str)
    ensures
        r@ == config_value(cfg@, key@),
{
    let n = cfg.unicode_len();
    let kl = key.unicode_len();
    let ghost s = cfg@;
    let ghost k = key@;
    let mut i: usize = 0;
    loop
        invariant
            0 <= i <= n,
            n == s.len(),
            kl == k.len(),
            s == cfg@,
            k == key@,
            config_value(s, k) == config_value_from(s, i as int, k),
        decreases n - i,
    {
        // Find the end of the current line.
        let mut j: usize = i;
        while j < n && cfg.get_char(j) != '\n'
            invariant
                i <= j <= n,
                n == s.len(),
                s == cfg@,
                line_end(s, i as int) == line_end(s, j as int),
            decreases n - j,
        {
            j += 1;
        }
        proof {
            assert(line_end(s, i as int) == j);
        }
        // Does this line start with the key?
        let matched = j - i >= kl && str_prefix_at(cfg, i, key);
        if matched {
            proof {
                let l = s.subrange(i as int, j as int);
                assert(l.take(kl as int) =~= s.subrange(i as int, i + kl));
                assert(has_prefix(l, k));
            }
            return cfg.substring_char(i + kl, j);
        }
        proof {
            let l = s.subrange(i as int, j as int);
            if has_prefix(l, k) {
                assert(l.take(kl as int) =~= s.subrange(i as int, i + kl));
            }
        }
        if j >= n {
            proof {
                reveal_strlit("");
                assert(""@ =~= Seq::<char>::empty());
            }
            return "";
        }
        proof {
            lemma_line_end(s, i as int);
        }
        i = j + 1;
    }
}

/// Whether `key` occurs in `cfg` starting at character `i`.
fn str_prefix_at(cfg: &str, i: usize, key: &str) -> (r: bool)
    requires
        i + key@.len() <= cfg@.len(),
        cfg@.len() <= usize::MAX,
    ensures
        r == (cfg@.subrange(i as int, i + key@.len()) == key@),
{
    let kl = key.unicode_len();
    let mut m: usize = 0;
    while m < kl
        invariant
            0 <= m <= kl,
            kl == key@.len(),
            i + kl <= cfg@.len(),
            cfg@.len() <= usize::MAX,
            forall|q: int| 0 <= q < m ==> cfg@[i + q] == #[trigger] key@[q],
        decreases kl - m,
    {
        if cfg.get_char(i + m) != key.get_char(m) {
            proof {
                if cfg@.subrange(i as int, i + key@.len()) == key@ {
                    assert(cfg@.subrange(i as int, i + key@.len())[m as int] == key@[m as int]);
                }
            }
            return false;
        }
        m += 1;
    }
    proof {
        assert(cfg@.subrange(i as int, i + kl as int) =~= key@);
    }
    true
}

/// Extracts the WiFi SSID from the configuration.
pub fn get_ssid() -> (r: &'static str)
    ensures
        r@ == config_value(config_text(), "WIFI_NETWORK="@),
{
    lookup(config_str(), "WIFI_NETWORK=")
}

/// Extracts the WiFi password from the configuration.
pub fn get_wifi_password() -> (r: &'static str)
    ensures
        r@ == config_value(config_text(), "WIFI_PASSWORD="@),
{
    lookup(config_str(), "WIFI_PASSWORD=")
}

/// Extracts the subnet mask from the configuration, as a CIDR prefix
/// length; `24` when the entry is missing or unreadable.
pub fn get_subnet_mask() -> (r: u8)
    ensures
        r == match trimmed_u8(config_value(config_text(), "SUBNET_MASK="@)) {
            Option::Some(v) => v,
            Option::None => 24u8,
        },
{
    let v = lookup(config_str(), "SUBNET_MASK=");
    let chars = to_char_vec(v);
    let t = trim_chars(&chars);
    match parse_u8_chars(&t) {
        Some(x) => x,
        None => 24,
    }
}

/// The octets among the comma-separated tokens of `v` that read as unsigned
/// bytes after trimming; unreadable tokens are skipped.
pub open spec fn kept_octets(toks: Seq<Seq<char>>) -> Seq<u8>
    decreases toks.len(),
{
    if toks.len() == 0 {
        Seq::empty()
    } else {
        let rest = kept_octets(toks.drop_first());
        match trimmed_u8(toks[0]) {
            Option::Some(v) => seq![v] + rest,
            Option::None => rest,
        }
    }
}

/// The four-octet address a configuration value denotes, against a default.
pub open spec fn quad_value(v: Seq<char>, dflt: Seq<u8>) -> Seq<u8> {
    let os = kept_octets(split_ch(v, ','));
    if os.len() == 4 {
        os
    } else {
        dflt
    }
}

/// Reads a four-octet address from the value of `key`, falling back to the
/// given default when the entry is missing or not four readable octets.
fn quad_lookup(key: &str, dflt: [u8; 4]) -> (r: [u8; 4])
    ensures
        r@ == quad_value(config_value(config_text(), key@), dflt@),
{
    let v = lookup(config_str(), key);
    let chars = to_char_vec(v);
    let toks = split_vec(&chars, ',');
    let ghost all = split_ch(v@, ',');
    let mut octs: Vec<u8> = Vec::new();
    let mut i: usize = 0;
    proof {
        assert(all.skip(0) =~= all);
        assert(octs@ + kept_octets(all) =~= kept_octets(all));
    }
    while i < toks.len()
        invariant
            0 <= i <= toks@.len(),
            toks@.len() == all.len(),
            forall|q: int| 0 <= q < all.len() ==> #[trigger] toks@[q]@ == all[q],
            kept_octets(all) == octs@ + kept_octets(all.skip(i as int)),
        decreases toks@.len() - i,
    {
        let t = trim_chars(&toks[i]);
        proof {
            assert(all.skip(i as int)[0] == all[i as int]);
            assert(all.skip(i as int).drop_first() =~= all.skip(i as int + 1));
        }
        match parse_u8_chars(&t) {
            Some(x) => {
                octs.push(x);
                proof {
                    assert(octs@ + kept_octets(all.skip(i as int + 1)) =~= kept_octets(all));
                }
            },
            None => {},
        }
        i += 1;
    }
    proof {
        assert(all.skip(i as int) =~= Seq::<Seq<char>>::empty());
        assert(octs@ + kept_octets(all.skip(i as int)) =~= octs@);
    }
    if octs.len() == 4 {
        let mut out: [u8; 4] = [0u8; 4];
        out[0] = octs[0];
        out[1] = octs[1];
        out[2] = octs[2];
        out[3] = octs[3];
        proof {
            assert(out@ =~= octs@);
        }
        out
    } else {
        dflt
    }
}

/// Extracts the device's IP address from the configuration;
/// `192.168.1.115` when the entry is missing or malformed.
pub fn get_ip_address() -> (r: [u8; 4])
    ensures
        r@ == quad_value(
            config_value(config_text(), "IP_ADDRESS="@),
            seq![192u8, 168u8, 1u8, 115u8],
        ),
{
    let dflt: [u8; 4] = [192u8, 168u8, 1u8, 115u8];
    proof {
        assert(dflt@ =~= seq![192u8, 168u8, 1u8, 115u8]);
    }
    quad_lookup("IP_ADDRESS=", dflt)
}

/// Extracts the gateway address from the configuration; `192.168.1.1` when
/// the entry is missing or malformed.
pub fn get_gateway_address() -> (r: [u8; 4])
    ensures
        r@ == quad_value(
            config_value(config_text(), "GATEWAY_ADDRESS="@),
            seq![192u8, 168u8, 1u8, 1u8],
        ),
{
    let dflt: [u8; 4] = [192u8, 168u8, 1u8, 1u8];
    proof {
        assert(dflt@ =~= seq![192u8, 168u8, 1u8, 1u8]);
    }
    quad_lookup("GATEWAY_ADDRESS=", dflt)
}

} // verus!
