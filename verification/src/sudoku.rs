//! The Sudoku puzzle type and its constraint-tracked backtracking solver.

use vstd::prelude::*;

use crate::grid::{
    box_of, cell_at, complete, conflict, first_gap, flat, in_grid, lemma_cells_eq,
    lemma_first_gap_from, lemma_first_gap_from_ge, lemma_marks_eq, lemma_solution_after_place,
    lex_le, no_new_conflicts, tracker_solution, trackers_ok, wf_cells, Cells, Marks,
};
use crate::text::{
    char_at, parse_u8_chars, parse_u8_val, split_ch, split_vec, to_char_vec, trim_chars, trimmed,
};

verus! {

/// Possible errors during Sudoku parsing or solving.
#[derive(Clone, Copy, Debug, PartialEq, Eq, Structural)]
pub enum SudokuError {
    InvalidFormat,
    InvalidNumber,
    NotEnoughArguments,
    NoSolution,
}

impl SudokuError {
    /// The fixed display text of each error kind.
    pub open spec fn text(self) -> Seq<char> {
        match self {
            SudokuError::InvalidFormat => "Invalid format"@,
            SudokuError::InvalidNumber => "Invalid number"@,
            SudokuError::NotEnoughArguments => "Not enough arguments"@,
            SudokuError::NoSolution => "No solution found"@,
        }
    }

    /// Renders the error kind for display.
    pub fn message(&self) -> (r: &'static str)
        ensures
            r@ == self.text(),
    {
        match self {
            SudokuError::InvalidFormat => "Invalid format",
            SudokuError::InvalidNumber => "Invalid number",
            SudokuError::NotEnoughArguments => "Not enough arguments",
            SudokuError::NoSolution => "No solution found",
        }
    }
}

/// The character a cell value `0..=9` is written as.
pub open spec fn digit_ch(d: u8) -> char {
    if d == 0 {
        '0'
    } else if d == 1 {
        '1'
    } else if d == 2 {
        '2'
    } else if d == 3 {
        '3'
    } else if d == 4 {
        '4'
    } else if d == 5 {
        '5'
    } else if d == 6 {
        '6'
    } else if d == 7 {
        '7'
    } else if d == 8 {
        '8'
    } else {
        '9'
    }
}

/// The canonical text of row `r` from cell `c` on: digits separated by
/// commas.
pub open spec fn row_text_from(g: Cells, r: int, c: int) -> Seq<char>
    decreases 9 - c,
{
    if c < 0 || c >= 9 {
        Seq::empty()
    } else if c == 8 {
        seq![digit_ch(g[r][8])]
    } else {
        seq![digit_ch(g[r][c]), ','] + row_text_from(g, r, c + 1)
    }
}

/// The canonical text of the whole board from row `r` on: row texts
/// separated by single spaces.
pub open spec fn schema_text_from(g: Cells, r: int) -> Seq<char>
    decreases 9 - r,
{
    if r < 0 || r >= 9 {
        Seq::empty()
    } else if r == 8 {
        row_text_from(g, 8, 0)
    } else {
        row_text_from(g, r, 0) + seq![' '] + schema_text_from(g, r + 1)
    }
}

/// The canonical serialization of a board, written so that `parse` reads it
/// back: empty cells appear as `0`.
pub open spec fn schema_text(g: Cells) -> Seq<char> {
    schema_text_from(g, 0)
}

proof fn lemma_row_text_chars(g: Cells, r: int, c: int)
    requires
        wf_cells(g),
        0 <= r < 9,
        0 <= c < 9,
    ensures
        forall|i: int|
            0 <= i < row_text_from(g, r, c).len() ==> 44 <= #[trigger] row_text_from(g, r, c)[i]
                as int <= 57,
    decreases 9 - c,
{
    let whole = row_text_from(g, r, c);
    assert(in_grid(r, c) && g[r][c] <= 9);
    if c == 8 {
        assert(whole[0] == digit_ch(g[r][8]));
    } else {
        lemma_row_text_chars(g, r, c + 1);
        let rest = row_text_from(g, r, c + 1);
        assert forall|i: int| 0 <= i < whole.len() implies 44 <= #[trigger] whole[i] as int
            <= 57 by {
            if i == 0 {
                assert(whole[i] == digit_ch(g[r][c]));
            } else if i == 1 {
                assert(whole[i] == ',');
            } else {
                assert(whole[i] == rest[i - 2]);
            }
        }
    }
}

proof fn lemma_row_text_tokens(g: Cells, r: int, c: int)
    requires
        wf_cells(g),
        0 <= r < 9,
        0 <= c < 9,
    ensures
        split_ch(row_text_from(g, r, c), ',').len() == 9 - c,
        forall|j: int|
            0 <= j < 9 - c ==> #[trigger] split_ch(row_text_from(g, r, c), ',')[j] == seq![
                digit_ch(g[r][c + j]),
            ],
    decreases 9 - c,
{
    let whole = row_text_from(g, r, c);
    if c == 8 {
        crate::text::lemma_split_acc_no_sep(whole, ',', Seq::<char>::empty());
        assert(Seq::<char>::empty() + whole =~= whole);
    } else {
        let a = seq![digit_ch(g[r][c])];
        let b = row_text_from(g, r, c + 1);
        assert(whole =~= a + seq![','] + b);
        crate::text::lemma_split_acc_sep(a, ',', b, Seq::<char>::empty());
        assert(Seq::<char>::empty() + a =~= a);
        lemma_row_text_tokens(g, r, c + 1);
        assert forall|j: int|
            0 <= j < 9 - c implies #[trigger] split_ch(whole, ',')[j] == seq![
            digit_ch(g[r][c + j]),
        ] by {
            if j > 0 {
                assert(split_ch(whole, ',')[j] == split_ch(b, ',')[j - 1]);
            }
        }
    }
}

proof fn lemma_schema_text_groups(g: Cells, r: int)
    requires
        wf_cells(g),
        0 <= r < 9,
    ensures
        split_ch(schema_text_from(g, r), ' ').len() == 9 - r,
        forall|j: int|
            0 <= j < 9 - r ==> #[trigger] split_ch(schema_text_from(g, r), ' ')[j] == row_text_from(
                g,
                r + j,
                0,
            ),
    decreases 9 - r,
{
    let whole = schema_text_from(g, r);
    lemma_row_text_chars(g, r, 0);
    if r == 8 {
        crate::text::lemma_split_acc_no_sep(whole, ' ', Seq::<char>::empty());
        assert(Seq::<char>::empty() + whole =~= whole);
    } else {
        let a = row_text_from(g, r, 0);
        let b = schema_text_from(g, r + 1);
        assert(whole =~= a + seq![' '] + b);
        assert(forall|i: int| 0 <= i < a.len() ==> #[trigger] a[i] != ' ');
        crate::text::lemma_split_acc_sep(a, ' ', b, Seq::<char>::empty());
        assert(Seq::<char>::empty() + a =~= a);
        lemma_schema_text_groups(g, r + 1);
        assert forall|j: int|
            0 <= j < 9 - r implies #[trigger] split_ch(whole, ' ')[j] == row_text_from(
            g,
            r + j,
            0,
        ) by {
            if j > 0 {
                assert(split_ch(whole, ' ')[j] == split_ch(b, ' ')[j - 1]);
            }
        }
    }
}

proof fn lemma_token_digit(v: u8)
    requires
        v <= 9,
    ensures
        token_val(seq![digit_ch(v)]) == Some(v),
{
    let t = seq![digit_ch(v)];
    assert(!crate::text::is_ws(t[0]));
    assert(crate::text::drop_leading_ws(t) == t);
    assert(crate::text::drop_trailing_ws(t) == t);
    assert(trimmed(t) == t);
    assert(t != seq!['_']) by {
        if t == seq!['_'] {
            assert(t[0] == '_');
        }
    }
    assert(t[0] != '+');
    assert(crate::text::all_digits(t));
    assert(crate::text::digits_val(t) == v) by {
        assert(t.take(0) =~= Seq::<char>::empty());
        assert(crate::text::digits_val(t.take(0)) == 0);
    }
    assert(parse_u8_val(t) == Some(v));
}

/// `parse` is a left inverse of the canonical serializer: the canonical text
/// of any board parses back to exactly that board.
pub proof fn lemma_parse_round_trip(g: Cells)
    requires
        wf_cells(g),
    ensures
        parse_ok(schema_text(g)),
        forall|r: int, c: int|
            in_grid(r, c) ==> #[trigger] parsed_cell(schema_text(g), r, c) == g[r][c],
{
    lemma_schema_text_groups(g, 0);
    let groups = schema_groups(schema_text(g));
    assert forall|r: int| 0 <= r < 9 implies row_values(#[trigger] groups[r]) is Some
        && (forall|c: int| 0 <= c < 9 ==> row_values(groups[r]).unwrap()[c] == g[r][c]) by {
        assert(groups[r] == row_text_from(g, r, 0));
        lemma_row_text_tokens(g, r, 0);
        let toks = split_ch(groups[r], ',');
        assert forall|c: int| 0 <= c < 9 implies token_val(#[trigger] toks[c]) == Some(
            g[r][c],
        ) by {
            assert(toks[c] == seq![digit_ch(g[r][c + 0])]);
            lemma_token_digit(g[r][c]);
        }
        assert(row_values(groups[r]) is Some);
    }
}

/// Sudoku puzzle representation.
#[derive(Clone, Copy)]
pub struct Sudoku {
    /// 9x9 grid containing the puzzle values (0 represents empty cells)
    pub grid: Cells,
}

impl Default for Sudoku {
    /// An all-empty board.
    fn default() -> (s: Sudoku)
        ensures
            forall|r: int, c: int| in_grid(r, c) ==> #[trigger] s.grid[r][c] == 0,
    {
        Sudoku { grid: [[0u8; 9]; 9] }
    }
}

/// The cell value a submission token denotes: after trimming, `_` is an
/// empty cell, and any other token must read as an unsigned byte no larger
/// than 9, the only values a cell can hold.
pub open spec fn token_val(t: Seq<char>) -> Option<u8> {
    let u = trimmed(t);
    if u == seq!['_'] {
        Some(0u8)
    } else {
        match parse_u8_val(u) {
            Option::None => None,
            Option::Some(v) => if v <= 9 {
                Some(v)
            } else {
                None
            },
        }
    }
}

/// The nine cell values a row-group denotes, or `None` when the group does
/// not hold exactly nine comma-separated valid tokens.
pub open spec fn row_values(group: Seq<char>) -> Option<Seq<u8>> {
    let toks = split_ch(group, ',');
    if toks.len() != 9 {
        None
    } else if exists|j: int| 0 <= j < 9 && token_val(#[trigger] toks[j]) is None {
        None
    } else {
        Some(Seq::new(9, |j: int| token_val(toks[j]).unwrap()))
    }
}

/// The space-separated row-groups of a submission text.
pub open spec fn schema_groups(s: Seq<char>) -> Seq<Seq<char>> {
    split_ch(s, ' ')
}

/// The submission text denotes a board: nine row-groups of nine valid tokens.
pub open spec fn parse_ok(s: Seq<char>) -> bool {
    &&& schema_groups(s).len() == 9
    &&& forall|i: int| 0 <= i < 9 ==> row_values(#[trigger] schema_groups(s)[i]) is Some
}

/// The error a rejected submission text is reported with: a wrong row-group
/// count before anything else, then any bad row-group.
pub open spec fn parse_err(s: Seq<char>) -> SudokuError {
    if schema_groups(s).len() != 9 {
        SudokuError::NotEnoughArguments
    } else {
        SudokuError::InvalidNumber
    }
}

/// The value of cell `(r, c)` in an accepted submission text.
pub open spec fn parsed_cell(s: Seq<char>, r: int, c: int) -> u8 {
    row_values(schema_groups(s)[r]).unwrap()[c]
}

/// Every token an accepted row-group holds is a cell value.
proof fn lemma_token_val_le9(t: Seq<char>)
    ensures
        token_val(t) is Some ==> token_val(t).unwrap() <= 9,
{
}

/// Reads one submission token.
fn token_value(t: &Vec<char>) -> (r: Option<u8>)
    ensures
        r == token_val(t@),
{
    let u = trim_chars(t);
    if u.len() == 1 && char_at(&u, 0) == '_' {
        proof {
            assert(u@ =~= seq!['_']);
        }
        return Some(0);
    }
    proof {
        if u@ == seq!['_'] {
            assert(u@.len() == 1 && u@[0] == '_');
            assert(false);
        }
    }
    match parse_u8_chars(&u) {
        None => None,
        Some(v) => if v <= 9 {
            Some(v)
        } else {
            None
        },
    }
}

/// The one-character text of a cell value.
pub(crate) fn digit_str(d: u8) -> (r: &'static str)
    requires
        d <= 9,
    ensures
        r@ == seq![digit_ch(d)],
{
    proof {
        reveal_strlit("0");
        reveal_strlit("1");
        reveal_strlit("2");
        reveal_strlit("3");
        reveal_strlit("4");
        reveal_strlit("5");
        reveal_strlit("6");
        reveal_strlit("7");
        reveal_strlit("8");
        reveal_strlit("9");
    }
    let r = match d {
        0 => "0",
        1 => "1",
        2 => "2",
        3 => "3",
        4 => "4",
        5 => "5",
        6 => "6",
        7 => "7",
        8 => "8",
        _ => "9",
    };
    proof {
        assert(r@ =~= seq![digit_ch(d)]);
    }
    r
}

/// Renders row `r` from cell `c` on in the canonical format.
fn row_text_exec(g: &Cells, r: usize, c: usize) -> (s: String)
    requires
        wf_cells(*g),
        r < 9,
        c < 9,
    ensures
        s@ == row_text_from(*g, r as int, c as int),
    decreases 9 - c,
{
    let d = digit_str(g[r][c]);
    if c == 8 {
        d.to_owned()
    } else {
        let mut out = d.to_owned();
        out.append(",");
        let rest = row_text_exec(g, r, c + 1);
        out.append(rest.as_str());
        proof {
            reveal_strlit(",");
            assert(out@ =~= row_text_from(*g, r as int, c as int));
        }
        out
    }
}

/// Renders the whole board from row `r` on in the canonical format.
fn schema_text_exec(g: &Cells, r: usize) -> (s: String)
    requires
        wf_cells(*g),
        r < 9,
    ensures
        s@ == schema_text_from(*g, r as int),
    decreases 9 - r,
{
    if r == 8 {
        row_text_exec(g, 8, 0)
    } else {
        let mut out = row_text_exec(g, r, 0);
        out.append(" ");
        let rest = schema_text_exec(g, r + 1);
        out.append(rest.as_str());
        proof {
            reveal_strlit(" ");
            assert(out@ =~= schema_text_from(*g, r as int));
        }
        out
    }
}

/// Reads one row-group into nine cell values.
fn parse_row(group: &Vec<char>) -> (r: Option<[u8; 9]>)
    ensures
        r is Some <==> row_values(group@) is Some,
        r is Some ==> forall|j: int|
            0 <= j < 9 ==> #[trigger] r.unwrap()[j] == row_values(group@).unwrap()[j],
{
    let toks = split_vec(group, ',');
    if toks.len() != 9 {
        return None;
    }
    let mut out: [u8; 9] = [0u8; 9];
    let mut j: usize = 0;
    while j < 9
        invariant
            j <= 9,
            toks@.len() == 9,
            split_ch(group@, ',').len() == 9,
            forall|k: int| 0 <= k < 9 ==> #[trigger] toks@[k]@ == split_ch(group@, ',')[k],
            forall|k: int| 0 <= k < j ==> token_val(#[trigger] split_ch(group@, ',')[k]) is Some,
            forall|k: int|
                0 <= k < j ==> #[trigger] out[k] == token_val(split_ch(group@, ',')[k]).unwrap(),
        decreases 9 - j,
    {
        match token_value(&toks[j]) {
            None => {
                proof {
                    assert(token_val(split_ch(group@, ',')[j as int]) is None);
                }
                return None;
            },
            Some(v) => {
                out[j] = v;
            },
        }
        j += 1;
    }
    proof {
        let rv = row_values(group@);
        assert(rv is Some);
        assert(forall|k: int| 0 <= k < 9 ==> #[trigger] out[k] == rv.unwrap()[k]);
    }
    Some(out)
}

impl Sudoku {
    /// The cell at row `r`, column `c`.
    pub fn cell(&self, r: usize, c: usize) -> (v: u8)
        requires
            r < 9,
            c < 9,
        ensures
            v == self.grid[r as int][c as int],
    {
        self.grid[r][c]
    }

    /// Renders the board in the canonical submission format that `parse`
    /// reads back: rows separated by single spaces, cells by commas, every
    /// cell as its digit (an empty cell as `0`).
    pub fn to_schema(&self) -> (r: String)
        requires
            wf_cells(self.grid),
        ensures
            r@ == schema_text(self.grid),
    {
        schema_text_exec(&self.grid, 0)
    }

    /// Parses a Sudoku schema from a string: nine row-groups separated by
    /// single spaces, each of nine comma-separated tokens, where a token is
    /// `_` for an empty cell or a digit `0..=9`, with whitespace around
    /// tokens ignored.
    ///
    /// Accepts the text exactly when it denotes a board, and then overwrites
    /// the grid with the denoted cells; a wrong row-group count is reported
    /// as `NotEnoughArguments`, any other flaw as `InvalidNumber`, and a
    /// rejected text leaves the grid untouched.
    pub fn parse(&mut self, schema: &str) -> (res: Result<(), SudokuError>)
        ensures
            res is Ok <==> parse_ok(schema@),
            res is Ok ==> wf_cells(final(self).grid),
            res is Ok ==> forall|r: int, c: int|
                in_grid(r, c) ==> #[trigger] final(self).grid[r][c] == parsed_cell(schema@, r, c),
            res is Err ==> *final(self) == *old(self) && res == Err::<(), SudokuError>(
                parse_err(schema@),
            ),
    {
        let chars = to_char_vec(schema);
        let lines = split_vec(&chars, ' ');
        if lines.len() != 9 {
            return Err(SudokuError::NotEnoughArguments);
        }
        let mut g: Cells = [[0u8; 9]; 9];
        let mut i: usize = 0;
        while i < 9
            invariant
                i <= 9,
                lines@.len() == 9,
                schema_groups(schema@).len() == 9,
                forall|k: int|
                    0 <= k < 9 ==> #[trigger] lines@[k]@ == schema_groups(schema@)[k],
                forall|k: int|
                    0 <= k < i ==> row_values(#[trigger] schema_groups(schema@)[k]) is Some,
                forall|k: int, c: int|
                    0 <= k < i && 0 <= c < 9 ==> #[trigger] g[k][c] == parsed_cell(schema@, k, c),
            decreases 9 - i,
        {
            match parse_row(&lines[i]) {
                None => {
                    return Err(SudokuError::InvalidNumber);
                },
                Some(row) => {
                    g[i] = row;
                },
            }
            i += 1;
        }
        self.grid = g;
        proof {
            assert forall|r: int, c: int| in_grid(r, c) implies #[trigger] g[r][c] <= 9 by {
                lemma_token_val_le9(split_ch(schema_groups(schema@)[r], ',')[c]);
            }
        }
        Ok(())
    }

    /// Solves the puzzle in place by backtracking over the cells in row-major
    /// order, trying digits in ascending order and pruning with per-row,
    /// per-column and per-box presence tables.
    ///
    /// Succeeds exactly when the board has a completion that keeps every
    /// placed digit and adds no duplicate to any unit. On success the board
    /// holds the completion the fixed search order finds — the least one
    /// under row-major comparison, so puzzles with several solutions give a
    /// deterministic answer; on failure the board is left unchanged.
    pub fn solve_fast(&mut self) -> (res: Result<(), SudokuError>)
        requires
            wf_cells(old(self).grid),
        ensures
            wf_cells(final(self).grid),
            res is Ok <==> exists|s: Cells| tracker_solution(old(self).grid, s),
            res is Ok ==> tracker_solution(old(self).grid, final(self).grid),
            res is Ok ==> forall|s: Cells|
                #[trigger] tracker_solution(old(self).grid, s) ==> lex_le(
                    flat(final(self).grid),
                    flat(s),
                ),
            res is Err ==> final(self).grid == old(self).grid && res == Err::<(), SudokuError>(
                SudokuError::NoSolution,
            ),
    {
        let mut rt: Marks = [[false; 10]; 9];
        let mut ct: Marks = [[false; 10]; 9];
        let mut bt: Marks = [[false; 10]; 9];

        // Record every digit already placed on the board.
        let mut idx: usize = 0;
        while idx < 81
            invariant
                idx <= 81,
                wf_cells(self.grid),
                self.grid == old(self).grid,
                forall|r: int, d: int|
                    0 <= r < 9 && 1 <= d <= 9 ==> (#[trigger] rt[r][d] <==> exists|c: int|
                        0 <= c < 9 && r * 9 + c < idx && #[trigger] self.grid[r][c] == d),
                forall|c: int, d: int|
                    0 <= c < 9 && 1 <= d <= 9 ==> (#[trigger] ct[c][d] <==> exists|r: int|
                        0 <= r < 9 && r * 9 + c < idx && #[trigger] self.grid[r][c] == d),
                forall|b: int, d: int|
                    0 <= b < 9 && 1 <= d <= 9 ==> (#[trigger] bt[b][d] <==> exists|r: int, c: int|
                        in_grid(r, c) && box_of(r, c) == b && r * 9 + c < idx
                            && #[trigger] self.grid[r][c] == d),
            decreases 81 - idx,
        {
            let r = idx / 9;
            let c = idx % 9;
            let num = self.grid[r][c];
            let ghost rt_pre = rt;
            let ghost ct_pre = ct;
            let ghost bt_pre = bt;
            if num != 0 {
                let bx = (r / 3) * 3 + c / 3;
                let mut m = rt[r];
                m[num as usize] = true;
                rt[r] = m;
                let mut m2 = ct[c];
                m2[num as usize] = true;
                ct[c] = m2;
                let mut m3 = bt[bx];
                m3[num as usize] = true;
                bt[bx] = m3;
            }
            proof {
                let g = self.grid;
                let ri = idx as int / 9;
                let ci = idx as int % 9;
                assert(ri * 9 + ci == idx);
                assert forall|r2: int, d: int|
                    0 <= r2 < 9 && 1 <= d <= 9 implies (#[trigger] rt[r2][d] <==> exists|c2: int|
                    0 <= c2 < 9 && r2 * 9 + c2 < idx + 1 && #[trigger] g[r2][c2] == d) by {
                    if rt[r2][d] {
                        if rt_pre[r2][d] {
                            let c2 = choose|c2: int|
                                0 <= c2 < 9 && r2 * 9 + c2 < idx && #[trigger] g[r2][c2] == d;
                            assert(0 <= c2 < 9 && r2 * 9 + c2 < idx + 1 && g[r2][c2] == d);
                        } else {
                            assert(r2 == ri && d == num && num != 0);
                            assert(g[ri][ci] == d && ri * 9 + ci < idx + 1);
                        }
                    }
                    if exists|c2: int| 0 <= c2 < 9 && r2 * 9 + c2 < idx + 1 && #[trigger] g[r2][c2]
                        == d {
                        let c2 = choose|c2: int|
                            0 <= c2 < 9 && r2 * 9 + c2 < idx + 1 && #[trigger] g[r2][c2] == d;
                        if r2 * 9 + c2 < idx {
                            assert(rt_pre[r2][d]);
                        } else {
                            assert(r2 * 9 + c2 == idx);
                            assert(r2 == ri && c2 == ci) by (nonlinear_arith)
                                requires
                                    0 <= r2 < 9 && 0 <= c2 < 9 && 0 <= ri < 9 && 0 <= ci < 9 && r2
                                        * 9 + c2 == ri * 9 + ci,
                            ;
                            assert(num == d && num != 0);
                        }
                        assert(rt[r2][d]);
                    }
                }
                assert forall|c2: int, d: int|
                    0 <= c2 < 9 && 1 <= d <= 9 implies (#[trigger] ct[c2][d] <==> exists|r2: int|
                    0 <= r2 < 9 && r2 * 9 + c2 < idx + 1 && #[trigger] g[r2][c2] == d) by {
                    if ct[c2][d] {
                        if ct_pre[c2][d] {
                            let r2 = choose|r2: int|
                                0 <= r2 < 9 && r2 * 9 + c2 < idx && #[trigger] g[r2][c2] == d;
                            assert(0 <= r2 < 9 && r2 * 9 + c2 < idx + 1 && g[r2][c2] == d);
                        } else {
                            assert(c2 == ci && d == num && num != 0);
                            assert(g[ri][ci] == d && ri * 9 + ci < idx + 1);
                        }
                    }
                    if exists|r2: int| 0 <= r2 < 9 && r2 * 9 + c2 < idx + 1 && #[trigger] g[r2][c2]
                        == d {
                        let r2 = choose|r2: int|
                            0 <= r2 < 9 && r2 * 9 + c2 < idx + 1 && #[trigger] g[r2][c2] == d;
                        if r2 * 9 + c2 < idx {
                            assert(ct_pre[c2][d]);
                        } else {
                            assert(r2 * 9 + c2 == idx);
                            assert(r2 == ri && c2 == ci) by (nonlinear_arith)
                                requires
                                    0 <= r2 < 9 && 0 <= c2 < 9 && 0 <= ri < 9 && 0 <= ci < 9 && r2
                                        * 9 + c2 == ri * 9 + ci,
                            ;
                            assert(num == d && num != 0);
                        }
                        assert(ct[c2][d]);
                    }
                }
                assert forall|b: int, d: int|
                    0 <= b < 9 && 1 <= d <= 9 implies (#[trigger] bt[b][d] <==> exists|
                    r2: int,
                    c2: int,
                |
                    in_grid(r2, c2) && box_of(r2, c2) == b && r2 * 9 + c2 < idx + 1
                        && #[trigger] g[r2][c2] == d) by {
                    if bt[b][d] {
                        if bt_pre[b][d] {
                            let (r2, c2) = choose|r2: int, c2: int|
                                in_grid(r2, c2) && box_of(r2, c2) == b && r2 * 9 + c2 < idx
                                    && #[trigger] g[r2][c2] == d;
                            assert(in_grid(r2, c2) && box_of(r2, c2) == b && r2 * 9 + c2 < idx + 1
                                && g[r2][c2] == d);
                        } else {
                            assert(b == box_of(ri, ci) && d == num && num != 0);
                            assert(g[ri][ci] == d && ri * 9 + ci < idx + 1);
                        }
                    }
                    if exists|r2: int, c2: int|
                        in_grid(r2, c2) && box_of(r2, c2) == b && r2 * 9 + c2 < idx + 1
                            && #[trigger] g[r2][c2] == d {
                        let (r2, c2) = choose|r2: int, c2: int|
                            in_grid(r2, c2) && box_of(r2, c2) == b && r2 * 9 + c2 < idx + 1
                                && #[trigger] g[r2][c2] == d;
                        if r2 * 9 + c2 < idx {
                            assert(bt_pre[b][d]);
                        } else {
                            assert(r2 * 9 + c2 == idx);
                            assert(r2 == ri && c2 == ci) by (nonlinear_arith)
                                requires
                                    0 <= r2 < 9 && 0 <= c2 < 9 && 0 <= ri < 9 && 0 <= ci < 9 && r2
                                        * 9 + c2 == ri * 9 + ci,
                            ;
                            assert(num == d && num != 0);
                        }
                        assert(bt[b][d]);
                    }
                }
            }
            idx += 1;
        }
        proof {
            let g = self.grid;
            assert forall|r: int, c: int| in_grid(r, c) implies r * 9 + c < 81 by {
                assert(r * 9 + c <= 8 * 9 + 8) by (nonlinear_arith)
                    requires
                        0 <= r < 9 && 0 <= c < 9,
                ;
            }
            assert(trackers_ok(g, rt, ct, bt));
        }

        if solve_rec(&mut self.grid, &mut rt, &mut ct, &mut bt) {
            Ok(())
        } else {
            Err(SudokuError::NoSolution)
        }
    }
}

/// Finds the first empty cell of the board in row-major order.
fn find_gap(g: &Cells) -> (res: Option<usize>)
    ensures
        match res {
            Some(i) => i == first_gap(*g) && i < 81 && cell_at(*g, i as int) == 0,
            None => first_gap(*g) == 81 && (forall|r: int, c: int|
                in_grid(r, c) ==> #[trigger] g[r][c] != 0),
        },
{
    let mut idx: usize = 0;
    while idx < 81
        invariant
            idx <= 81,
            forall|j: int| 0 <= j < idx ==> #[trigger] cell_at(*g, j) != 0,
        decreases 81 - idx,
    {
        let r = idx / 9;
        let c = idx % 9;
        if g[r][c] == 0 {
            proof {
                assert(cell_at(*g, idx as int) == 0);
                lemma_first_gap_from_ge(*g, 0, idx as int);
                lemma_first_gap_from(*g, 0);
            }
            return Some(idx);
        }
        proof {
            assert(cell_at(*g, idx as int) != 0);
        }
        idx += 1;
    }
    proof {
        lemma_first_gap_from_ge(*g, 0, 81);
        lemma_first_gap_from(*g, 0);
        assert forall|r: int, c: int| in_grid(r, c) implies #[trigger] g[r][c] != 0 by {
            assert(0 <= r * 9 + c < 81 && (r * 9 + c) / 9 == r && (r * 9 + c) % 9 == c)
                by (nonlinear_arith)
                requires
                    0 <= r < 9 && 0 <= c < 9,
            ;
            assert(cell_at(*g, r * 9 + c) != 0);
        }
    }
    None
}

/// Writes digit `d` into empty cell `(r, c)` and marks it in the three
/// tracker tables, keeping the tables in step with the board.
fn place(grid: &mut Cells, rt: &mut Marks, ct: &mut Marks, bt: &mut Marks, r: usize, c: usize, d: u8)
    requires
        r < 9,
        c < 9,
        1 <= d <= 9,
        old(grid)[r as int][c as int] == 0,
        trackers_ok(*old(grid), *old(rt), *old(ct), *old(bt)),
    ensures
        final(grid)[r as int][c as int] == d,
        forall|r2: int, c2: int|
            in_grid(r2, c2) && !(r2 == r && c2 == c) ==> #[trigger] final(grid)[r2][c2] == old(
                grid,
            )[r2][c2],
        final(rt)[r as int][d as int],
        forall|u: int, k: int|
            0 <= u < 9 && 0 <= k < 10 && !(u == r && k == d) ==> #[trigger] final(rt)[u][k] == old(
                rt,
            )[u][k],
        forall|u: int, k: int|
            0 <= u < 9 && 0 <= k < 10 && !(u == c && k == d) ==> #[trigger] final(ct)[u][k] == old(
                ct,
            )[u][k],
        forall|u: int, k: int|
            0 <= u < 9 && 0 <= k < 10 && !(u == box_of(r as int, c as int) && k == d)
                ==> #[trigger] final(bt)[u][k] == old(bt)[u][k],
        trackers_ok(*final(grid), *final(rt), *final(ct), *final(bt)),
{
    let ghost g0 = *grid;
    let ghost rt0 = *rt;
    let ghost ct0 = *ct;
    let ghost bt0 = *bt;
    let mut row = grid[r];
    row[c] = d;
    grid[r] = row;
    let mut m = rt[r];
    m[d as usize] = true;
    rt[r] = m;
    let mut m2 = ct[c];
    m2[d as usize] = true;
    ct[c] = m2;
    let bx = (r / 3) * 3 + c / 3;
    let mut m3 = bt[bx];
    m3[d as usize] = true;
    bt[bx] = m3;
    proof {
        let g = *grid;
        let ri = r as int;
        let ci = c as int;
        let bi = box_of(ri, ci);
        assert(bx == bi);
        assert(g[ri][ci] == d);
        assert forall|r2: int, d2: int|
            0 <= r2 < 9 && 1 <= d2 <= 9 implies (#[trigger] rt[r2][d2] <==> exists|c2: int|
            0 <= c2 < 9 && #[trigger] g[r2][c2] == d2) by {
            if rt[r2][d2] {
                if r2 == ri && d2 == d {
                    assert(g[ri][ci] == d);
                } else {
                    assert(rt0[r2][d2]);
                    let c2 = choose|c2: int| 0 <= c2 < 9 && #[trigger] g0[r2][c2] == d2;
                    assert(g[r2][c2] == d2);
                }
            }
            if exists|c2: int| 0 <= c2 < 9 && #[trigger] g[r2][c2] == d2 {
                let c2 = choose|c2: int| 0 <= c2 < 9 && #[trigger] g[r2][c2] == d2;
                if r2 == ri && c2 == ci {
                    assert(d2 == d);
                    assert(rt[r2][d2]);
                } else {
                    assert(g0[r2][c2] == d2);
                    assert(rt0[r2][d2]);
                    assert(rt[r2][d2]);
                }
            }
        }
        assert forall|c2: int, d2: int|
            0 <= c2 < 9 && 1 <= d2 <= 9 implies (#[trigger] ct[c2][d2] <==> exists|r2: int|
            0 <= r2 < 9 && #[trigger] g[r2][c2] == d2) by {
            if ct[c2][d2] {
                if c2 == ci && d2 == d {
                    assert(g[ri][ci] == d);
                } else {
                    assert(ct0[c2][d2]);
                    let r2 = choose|r2: int| 0 <= r2 < 9 && #[trigger] g0[r2][c2] == d2;
                    assert(g[r2][c2] == d2);
                }
            }
            if exists|r2: int| 0 <= r2 < 9 && #[trigger] g[r2][c2] == d2 {
                let r2 = choose|r2: int| 0 <= r2 < 9 && #[trigger] g[r2][c2] == d2;
                if r2 == ri && c2 == ci {
                    assert(d2 == d);
                    assert(ct[c2][d2]);
                } else {
                    assert(g0[r2][c2] == d2);
                    assert(ct0[c2][d2]);
                    assert(ct[c2][d2]);
                }
            }
        }
        assert forall|b2: int, d2: int|
            0 <= b2 < 9 && 1 <= d2 <= 9 implies (#[trigger] bt[b2][d2] <==> exists|
            r2: int,
            c2: int,
        |
            in_grid(r2, c2) && box_of(r2, c2) == b2 && #[trigger] g[r2][c2] == d2) by {
            if bt[b2][d2] {
                if b2 == bi && d2 == d {
                    assert(in_grid(ri, ci) && box_of(ri, ci) == b2 && g[ri][ci] == d2);
                } else {
                    assert(bt0[b2][d2]);
                    let (r2, c2) = choose|r2: int, c2: int|
                        in_grid(r2, c2) && box_of(r2, c2) == b2 && #[trigger] g0[r2][c2] == d2;
                    assert(g[r2][c2] == d2);
                }
            }
            if exists|r2: int, c2: int|
                in_grid(r2, c2) && box_of(r2, c2) == b2 && #[trigger] g[r2][c2] == d2 {
                let (r2, c2) = choose|r2: int, c2: int|
                    in_grid(r2, c2) && box_of(r2, c2) == b2 && #[trigger] g[r2][c2] == d2;
                if r2 == ri && c2 == ci {
                    assert(d2 == d && b2 == bi);
                    assert(bt[b2][d2]);
                } else {
                    assert(g0[r2][c2] == d2);
                    assert(bt0[b2][d2]);
                    assert(bt[b2][d2]);
                }
            }
        }
    }
}

/// Clears cell `(r, c)`, which holds digit `d` and is the only cell of its
/// row, column and box holding `d`, and unmarks it in the tracker tables.
fn unplace(
    grid: &mut Cells,
    rt: &mut Marks,
    ct: &mut Marks,
    bt: &mut Marks,
    r: usize,
    c: usize,
    d: u8,
)
    requires
        r < 9,
        c < 9,
        1 <= d <= 9,
        old(grid)[r as int][c as int] == d,
        trackers_ok(*old(grid), *old(rt), *old(ct), *old(bt)),
        forall|c2: int| 0 <= c2 < 9 && c2 != c ==> #[trigger] old(grid)[r as int][c2] != d,
        forall|r2: int| 0 <= r2 < 9 && r2 != r ==> #[trigger] old(grid)[r2][c as int] != d,
        forall|r2: int, c2: int|
            in_grid(r2, c2) && box_of(r2, c2) == box_of(r as int, c as int) && !(r2 == r && c2 == c)
                ==> #[trigger] old(grid)[r2][c2] != d,
    ensures
        final(grid)[r as int][c as int] == 0,
        forall|r2: int, c2: int|
            in_grid(r2, c2) && !(r2 == r && c2 == c) ==> #[trigger] final(grid)[r2][c2] == old(
                grid,
            )[r2][c2],
        !final(rt)[r as int][d as int],
        forall|u: int, k: int|
            0 <= u < 9 && 0 <= k < 10 && !(u == r && k == d) ==> #[trigger] final(rt)[u][k] == old(
                rt,
            )[u][k],
        !final(ct)[c as int][d as int],
        forall|u: int, k: int|
            0 <= u < 9 && 0 <= k < 10 && !(u == c && k == d) ==> #[trigger] final(ct)[u][k] == old(
                ct,
            )[u][k],
        !final(bt)[box_of(r as int, c as int)][d as int],
        forall|u: int, k: int|
            0 <= u < 9 && 0 <= k < 10 && !(u == box_of(r as int, c as int) && k == d)
                ==> #[trigger] final(bt)[u][k] == old(bt)[u][k],
        trackers_ok(*final(grid), *final(rt), *final(ct), *final(bt)),
{
    let ghost g0 = *grid;
    let ghost rt0 = *rt;
    let ghost ct0 = *ct;
    let ghost bt0 = *bt;
    let mut row = grid[r];
    row[c] = 0;
    grid[r] = row;
    let mut m = rt[r];
    m[d as usize] = false;
    rt[r] = m;
    let mut m2 = ct[c];
    m2[d as usize] = false;
    ct[c] = m2;
    let bx = (r / 3) * 3 + c / 3;
    let mut m3 = bt[bx];
    m3[d as usize] = false;
    bt[bx] = m3;
    proof {
        let g = *grid;
        let ri = r as int;
        let ci = c as int;
        let bi = box_of(ri, ci);
        assert(bx == bi);
        assert forall|r2: int, d2: int|
            0 <= r2 < 9 && 1 <= d2 <= 9 implies (#[trigger] rt[r2][d2] <==> exists|c2: int|
            0 <= c2 < 9 && #[trigger] g[r2][c2] == d2) by {
            if rt[r2][d2] {
                assert(!(r2 == ri && d2 == d));
                assert(rt0[r2][d2]);
                let c2 = choose|c2: int| 0 <= c2 < 9 && #[trigger] g0[r2][c2] == d2;
                assert(!(r2 == ri && c2 == ci));
                assert(g[r2][c2] == d2);
            }
            if exists|c2: int| 0 <= c2 < 9 && #[trigger] g[r2][c2] == d2 {
                let c2 = choose|c2: int| 0 <= c2 < 9 && #[trigger] g[r2][c2] == d2;
                assert(!(r2 == ri && c2 == ci));
                assert(g0[r2][c2] == d2);
                assert(rt0[r2][d2]);
                if r2 == ri && d2 == d {
                    assert(g0[ri][c2] != d);
                }
                assert(rt[r2][d2]);
            }
        }
        assert forall|c2: int, d2: int|
            0 <= c2 < 9 && 1 <= d2 <= 9 implies (#[trigger] ct[c2][d2] <==> exists|r2: int|
            0 <= r2 < 9 && #[trigger] g[r2][c2] == d2) by {
            if ct[c2][d2] {
                assert(!(c2 == ci && d2 == d));
                assert(ct0[c2][d2]);
                let r2 = choose|r2: int| 0 <= r2 < 9 && #[trigger] g0[r2][c2] == d2;
                assert(!(r2 == ri && c2 == ci));
                assert(g[r2][c2] == d2);
            }
            if exists|r2: int| 0 <= r2 < 9 && #[trigger] g[r2][c2] == d2 {
                let r2 = choose|r2: int| 0 <= r2 < 9 && #[trigger] g[r2][c2] == d2;
                assert(!(r2 == ri && c2 == ci));
                assert(g0[r2][c2] == d2);
                assert(ct0[c2][d2]);
                if c2 == ci && d2 == d {
                    assert(g0[r2][ci] != d);
                }
                assert(ct[c2][d2]);
            }
        }
        assert forall|b2: int, d2: int|
            0 <= b2 < 9 && 1 <= d2 <= 9 implies (#[trigger] bt[b2][d2] <==> exists|
            r2: int,
            c2: int,
        |
            in_grid(r2, c2) && box_of(r2, c2) == b2 && #[trigger] g[r2][c2] == d2) by {
            if bt[b2][d2] {
                assert(!(b2 == bi && d2 == d));
                assert(bt0[b2][d2]);
                let (r2, c2) = choose|r2: int, c2: int|
                    in_grid(r2, c2) && box_of(r2, c2) == b2 && #[trigger] g0[r2][c2] == d2;
                assert(!(r2 == ri && c2 == ci));
                assert(g[r2][c2] == d2);
            }
            if exists|r2: int, c2: int|
                in_grid(r2, c2) && box_of(r2, c2) == b2 && #[trigger] g[r2][c2] == d2 {
                let (r2, c2) = choose|r2: int, c2: int|
                    in_grid(r2, c2) && box_of(r2, c2) == b2 && #[trigger] g[r2][c2] == d2;
                assert(!(r2 == ri && c2 == ci));
                assert(g0[r2][c2] == d2);
                assert(bt0[b2][d2]);
                if b2 == bi && d2 == d {
                    assert(g0[r2][c2] != d);
                }
                assert(bt[b2][d2]);
            }
        }
    }
}

/// The backtracking search: fills the first empty cell with the least viable
/// digit and recurses, undoing the placement when the recursion fails.
///
/// Returns `true` exactly when the board as given has a completion that adds
/// no conflict; on `true` the board holds such a completion, on `false` the
/// board and the tracker tables are exactly as given.
fn solve_rec(grid: &mut Cells, rt: &mut Marks, ct: &mut Marks, bt: &mut Marks) -> (found: bool)
    requires
        wf_cells(*old(grid)),
        trackers_ok(*old(grid), *old(rt), *old(ct), *old(bt)),
    ensures
        wf_cells(*final(grid)),
        trackers_ok(*final(grid), *final(rt), *final(ct), *final(bt)),
        found ==> tracker_solution(*old(grid), *final(grid)),
        found ==> forall|s: Cells|
            #[trigger] tracker_solution(*old(grid), s) ==> lex_le(flat(*final(grid)), flat(s)),
        !found ==> *final(grid) == *old(grid) && *final(rt) == *old(rt) && *final(ct) == *old(ct)
            && *final(bt) == *old(bt),
        !found ==> forall|s: Cells| !tracker_solution(*old(grid), s),
    decreases 81 - first_gap(*grid),
{
    let ghost g0 = *grid;
    let ghost rt0 = *rt;
    let ghost ct0 = *ct;
    let ghost bt0 = *bt;
    match find_gap(grid) {
        None => {
            proof {
                assert(complete(g0));
                assert(no_new_conflicts(g0, g0)) by {
                    assert forall|r1: int, c1: int, r2: int, c2: int|
                        #[trigger] conflict(g0, r1, c1, r2, c2) implies g0[r1][c1] != 0
                        && g0[r2][c2] != 0 by {}
                }
                // A complete board is its own only completion, so it is the
                // least one.
                assert forall|s: Cells| #[trigger] tracker_solution(g0, s) implies lex_le(
                    flat(g0),
                    flat(s),
                ) by {
                    assert forall|i: int| 0 <= i < 81 implies flat(g0)[i] == flat(s)[i] by {
                        let rj = i / 9;
                        let cj = i % 9;
                        assert(in_grid(rj, cj));
                        assert(g0[rj][cj] != 0);
                        assert(s[rj][cj] == g0[rj][cj]);
                    }
                    assert(flat(g0) =~= flat(s));
                }
            }
            true
        },
        Some(idx) => {
            let r = idx / 9;
            let c = idx % 9;
            let bx = (r / 3) * 3 + c / 3;
            let ghost ri = r as int;
            let ghost ci = c as int;
            let ghost bi = box_of(ri, ci);
            proof {
                assert(g0[ri][ci] == 0);
                lemma_first_gap_from(g0, 0);
            }
            let mut d: u8 = 1;
            while d <= 9
                invariant
                    1 <= d <= 10,
                    g0 == *old(grid),
                    rt0 == *old(rt),
                    ct0 == *old(ct),
                    bt0 == *old(bt),
                    r == idx / 9,
                    c == idx % 9,
                    ri == r as int,
                    ci == c as int,
                    bi == box_of(ri, ci),
                    bx == bi,
                    idx < 81,
                    idx == first_gap(g0),
                    g0[ri][ci] == 0,
                    wf_cells(g0),
                    trackers_ok(g0, rt0, ct0, bt0),
                    *grid == g0,
                    *rt == rt0,
                    *ct == ct0,
                    *bt == bt0,
                    forall|s: Cells| #[trigger] tracker_solution(g0, s) ==> s[ri][ci] >= d,
                decreases 10 - d,
            {
                let viable = !rt[r][d as usize] && !ct[c][d as usize] && !bt[bx][d as usize];
                if viable {
                    place(grid, rt, ct, bt, r, c, d);
                    let ghost g1 = *grid;
                    let ghost rt1 = *rt;
                    let ghost ct1 = *ct;
                    let ghost bt1 = *bt;
                    proof {
                        // The next scan starts past this cell, so the search
                        // shrinks.
                        lemma_first_gap_from(g0, 0);
                        assert forall|j: int| 0 <= j < idx + 1 implies #[trigger] cell_at(g1, j)
                            != 0 by {
                            let rj = j / 9;
                            let cj = j % 9;
                            assert(j == rj * 9 + cj && 0 <= rj < 9 && 0 <= cj < 9);
                            if rj == ri && cj == ci {
                                assert(g1[rj][cj] == d);
                            } else {
                                assert(g1[rj][cj] == g0[rj][cj]);
                                assert(cell_at(g0, j) != 0);
                            }
                        }
                        lemma_first_gap_from_ge(g1, 0, idx + 1);
                        lemma_first_gap_from(g1, 0);
                    }
                    if solve_rec(grid, rt, ct, bt) {
                        proof {
                            let gf = *grid;
                            assert(tracker_solution(g1, gf));
                            // A solution of the extended board also solves
                            // the board as given: the new cell conflicts
                            // with nothing, since its digit was absent from
                            // its row, column and box.
                            assert forall|r2: int, c2: int|
                                in_grid(r2, c2) && #[trigger] g0[r2][c2] != 0 implies gf[r2][c2]
                                == g0[r2][c2] by {
                                assert(g1[r2][c2] == g0[r2][c2]);
                            }
                            assert forall|r1: int, c1: int, r2: int, c2: int|
                                #[trigger] conflict(gf, r1, c1, r2, c2) implies g0[r1][c1] != 0
                                && g0[r2][c2] != 0 by {
                                assert(g1[r1][c1] != 0 && g1[r2][c2] != 0);
                                if r1 == ri && c1 == ci {
                                    assert(gf[r1][c1] == d);
                                    assert(g1[r2][c2] == g0[r2][c2]);
                                    assert(gf[r2][c2] == g1[r2][c2]);
                                    assert(g0[r2][c2] == d);
                                    if r2 == r1 {
                                        assert(rt0[ri][d as int]);
                                    } else if c2 == c1 {
                                        assert(ct0[ci][d as int]);
                                    } else {
                                        assert(box_of(r2, c2) == bi);
                                        assert(bt0[bi][d as int]);
                                    }
                                } else if r2 == ri && c2 == ci {
                                    assert(gf[r2][c2] == d);
                                    assert(g1[r1][c1] == g0[r1][c1]);
                                    assert(gf[r1][c1] == g1[r1][c1]);
                                    assert(g0[r1][c1] == d);
                                    if r1 == r2 {
                                        assert(rt0[ri][d as int]);
                                    } else if c1 == c2 {
                                        assert(ct0[ci][d as int]);
                                    } else {
                                        assert(box_of(r1, c1) == bi);
                                        assert(bt0[bi][d as int]);
                                    }
                                } else {
                                    assert(g1[r1][c1] == g0[r1][c1] && g1[r2][c2] == g0[r2][c2]);
                                }
                            }
                            assert(tracker_solution(g0, *grid));
                            // And it is the least one: smaller digits at this
                            // cell are already refuted, and among completions
                            // sharing this digit the recursion returned the
                            // least.
                            lemma_first_gap_from(g0, 0);
                            assert forall|s: Cells| #[trigger] tracker_solution(g0, s) implies
                                lex_le(flat(gf), flat(s)) by {
                                assert(s[ri][ci] >= d);
                                if s[ri][ci] == d {
                                    lemma_solution_after_place(g0, g1, ri, ci, d, s);
                                    assert(tracker_solution(g1, s));
                                    assert(lex_le(flat(gf), flat(s)));
                                } else {
                                    assert forall|j: int| 0 <= j < idx implies flat(gf)[j] == flat(
                                        s,
                                    )[j] by {
                                        assert(cell_at(g0, j) != 0);
                                        let rj = j / 9;
                                        let cj = j % 9;
                                        assert(in_grid(rj, cj));
                                        assert(g0[rj][cj] != 0);
                                        assert(gf[rj][cj] == g0[rj][cj]);
                                        assert(s[rj][cj] == g0[rj][cj]);
                                    }
                                    assert(flat(gf).take(idx as int) =~= flat(s).take(idx as int));
                                    assert(g1[ri][ci] != 0);
                                    assert(gf[ri][ci] == d);
                                    assert(idx as int / 9 == ri && idx as int % 9 == ci);
                                    assert(flat(gf)[idx as int] == d);
                                    assert(flat(s)[idx as int] == s[ri][ci]);
                                    assert(lex_le(flat(gf), flat(s)));
                                }
                            }
                        }
                        return true;
                    }
                    proof {
                        assert(*grid == g1 && *rt == rt1 && *ct == ct1 && *bt == bt1);
                        assert forall|c2: int| 0 <= c2 < 9 && c2 != ci implies #[trigger] g1[ri][c2]
                            != d by {
                            if g1[ri][c2] == d {
                                assert(g0[ri][c2] == d);
                                assert(rt0[ri][d as int]);
                            }
                        }
                        assert forall|r2: int| 0 <= r2 < 9 && r2 != ri implies #[trigger] g1[r2][ci]
                            != d by {
                            if g1[r2][ci] == d {
                                assert(g0[r2][ci] == d);
                                assert(ct0[ci][d as int]);
                            }
                        }
                        assert forall|r2: int, c2: int|
                            in_grid(r2, c2) && box_of(r2, c2) == bi && !(r2 == ri && c2 == ci)
                            implies #[trigger] g1[r2][c2] != d by {
                            if g1[r2][c2] == d {
                                assert(g0[r2][c2] == d);
                                assert(bt0[bi][d as int]);
                            }
                        }
                    }
                    unplace(grid, rt, ct, bt, r, c, d);
                    proof {
                        assert forall|r2: int, c2: int| in_grid(r2, c2) implies #[trigger] (
                        *grid)[r2][c2] == g0[r2][c2] by {
                            if r2 == ri && c2 == ci {
                                assert((*grid)[r2][c2] == 0 && g0[ri][ci] == 0);
                            } else {
                                assert((*grid)[r2][c2] == g1[r2][c2]);
                                assert(g1[r2][c2] == g0[r2][c2]);
                            }
                        }
                        lemma_cells_eq(*grid, g0);
                        assert forall|u: int, k: int|
                            0 <= u < 9 && 0 <= k < 10 implies #[trigger] (*rt)[u][k]
                            == rt0[u][k] by {
                            if u == ri && k == d {
                                assert(!(*rt)[u][k] && !rt0[ri][d as int]);
                            } else {
                                assert((*rt)[u][k] == rt1[u][k] && rt1[u][k] == rt0[u][k]);
                            }
                        }
                        lemma_marks_eq(*rt, rt0);
                        assert forall|u: int, k: int|
                            0 <= u < 9 && 0 <= k < 10 implies #[trigger] (*ct)[u][k]
                            == ct0[u][k] by {
                            if u == ci && k == d {
                                assert(!(*ct)[u][k] && !ct0[ci][d as int]);
                            } else {
                                assert((*ct)[u][k] == ct1[u][k] && ct1[u][k] == ct0[u][k]);
                            }
                        }
                        lemma_marks_eq(*ct, ct0);
                        assert forall|u: int, k: int|
                            0 <= u < 9 && 0 <= k < 10 implies #[trigger] (*bt)[u][k]
                            == bt0[u][k] by {
                            if u == bi && k == d {
                                assert(!(*bt)[u][k] && !bt0[bi][d as int]);
                            } else {
                                assert((*bt)[u][k] == bt1[u][k] && bt1[u][k] == bt0[u][k]);
                            }
                        }
                        lemma_marks_eq(*bt, bt0);
                        // Digit `d` is refuted: a solution placing `d` here
                        // would solve the extended board, and none does.
                        assert forall|s: Cells| #[trigger] tracker_solution(g0, s) implies s[ri][ci]
                            >= d + 1 by {
                            assert(s[ri][ci] >= d);
                            if s[ri][ci] == d {
                                lemma_solution_after_place(g0, g1, ri, ci, d, s);
                                assert(tracker_solution(g1, s));
                            }
                        }
                    }
                } else {
                    proof {
                        // Digit `d` already sits in this row, column or box,
                        // so no conflict-free completion can repeat it here.
                        assert forall|s: Cells| #[trigger] tracker_solution(g0, s) implies s[ri][ci]
                            >= d + 1 by {
                            assert(s[ri][ci] >= d);
                            if s[ri][ci] == d {
                                if rt0[ri][d as int] {
                                    let c2 = choose|c2: int|
                                        0 <= c2 < 9 && #[trigger] g0[ri][c2] == d;
                                    assert(s[ri][c2] == d);
                                    assert(c2 != ci);
                                    assert(conflict(s, ri, ci, ri, c2));
                                    assert(g0[ri][ci] != 0);
                                } else if ct0[ci][d as int] {
                                    let r2 = choose|r2: int|
                                        0 <= r2 < 9 && #[trigger] g0[r2][ci] == d;
                                    assert(s[r2][ci] == d);
                                    assert(r2 != ri);
                                    assert(conflict(s, ri, ci, r2, ci));
                                    assert(g0[ri][ci] != 0);
                                } else {
                                    assert(bt0[bi][d as int]);
                                    let (r2, c2) = choose|r2: int, c2: int|
                                        in_grid(r2, c2) && box_of(r2, c2) == bi
                                            && #[trigger] g0[r2][c2] == d;
                                    assert(s[r2][c2] == d);
                                    assert(!(r2 == ri && c2 == ci));
                                    assert(conflict(s, ri, ci, r2, c2));
                                    assert(g0[ri][ci] != 0);
                                }
                            }
                        }
                    }
                }
                d += 1;
            }
            proof {
                // Every digit 1..=9 is refuted at the first empty cell: the
                // board has no conflict-free completion.
                assert forall|s: Cells| !tracker_solution(g0, s) by {
                    if tracker_solution(g0, s) {
                        assert(s[ri][ci] >= 10);
                        assert(in_grid(ri, ci));
                        assert(1 <= s[ri][ci] <= 9);
                    }
                }
            }
            false
        },
    }
}

} // verus!
