//! The 9x9 grid model: cell layout, validity predicates, and the notions of
//! completion the solver is specified against.

use vstd::prelude::*;

verus! {

/// A puzzle board: nine rows of nine cells, `0` for an empty cell and
/// `1..=9` for a placed digit.
pub type Cells = [[u8; 9]; 9];

/// `(r, c)` addresses a cell of the board.
pub open spec fn in_grid(r: int, c: int) -> bool {
    0 <= r < 9 && 0 <= c < 9
}

/// Every cell holds `0..=9`: the format invariant of a freshly parsed board.
pub open spec fn wf_cells(g: Cells) -> bool {
    forall|r: int, c: int| in_grid(r, c) ==> #[trigger] g[r][c] <= 9
}

/// Every cell holds a digit `1..=9`.
pub open spec fn complete(g: Cells) -> bool {
    forall|r: int, c: int| in_grid(r, c) ==> 1 <= #[trigger] g[r][c] <= 9
}

/// Index of the 3x3 box containing cell `(r, c)`.
pub open spec fn box_of(r: int, c: int) -> int {
    (r / 3) * 3 + c / 3
}

/// The two cells share a row, a column, or a box.
pub open spec fn same_unit(r1: int, c1: int, r2: int, c2: int) -> bool {
    r1 == r2 || c1 == c2 || box_of(r1, c1) == box_of(r2, c2)
}

/// Two distinct cells of one unit carrying the same placed digit.
pub open spec fn conflict(g: Cells, r1: int, c1: int, r2: int, c2: int) -> bool {
    &&& in_grid(r1, c1)
    &&& in_grid(r2, c2)
    &&& !(r1 == r2 && c1 == c2)
    &&& same_unit(r1, c1, r2, c2)
    &&& g[r1][c1] == g[r2][c2]
    &&& g[r1][c1] != 0
}

/// No unit contains a placed digit twice.
pub open spec fn valid(g: Cells) -> bool {
    forall|r1: int, c1: int, r2: int, c2: int|
        !conflict(g, r1, c1, r2, c2)
}

/// Every placed digit of `g0` is kept unchanged in `g`.
pub open spec fn extends(g0: Cells, g: Cells) -> bool {
    forall|r: int, c: int|
        in_grid(r, c) && #[trigger] g0[r][c] != 0 ==> g[r][c] == g0[r][c]
}

/// Any conflict of `g` was already present between placed cells of `g0`:
/// filling in `g0`'s empty cells introduced no duplicate in any unit. This is
/// exactly what the solver's constraint tracker enforces; on a `valid` start
/// it coincides with `valid` (see [`lemma_tracker_solution_valid`]).
pub open spec fn no_new_conflicts(g0: Cells, g: Cells) -> bool {
    forall|r1: int, c1: int, r2: int, c2: int|
        #[trigger] conflict(g, r1, c1, r2, c2) ==> g0[r1][c1] != 0 && g0[r2][c2] != 0
}

/// What the backtracking search finds: a complete board that keeps every
/// placed digit of `g0` and adds no conflict beyond those already in `g0`.
pub open spec fn tracker_solution(g0: Cells, g: Cells) -> bool {
    complete(g) && extends(g0, g) && no_new_conflicts(g0, g)
}

/// A complete, fully valid board that keeps every placed digit of `g0`.
pub open spec fn is_solution(g0: Cells, g: Cells) -> bool {
    complete(g) && extends(g0, g) && valid(g)
}

/// Cell `i` of the board in row-major order, for `i` in `0..81`.
pub open spec fn cell_at(g: Cells, i: int) -> u8 {
    g[i / 9][i % 9]
}

/// Row-major index of the first empty cell at or after index `i`, or `81`
/// when every cell from `i` on is filled.
pub open spec fn first_gap_from(g: Cells, i: int) -> int
    decreases 81 - i,
{
    if i < 0 || i >= 81 {
        81
    } else if cell_at(g, i) == 0 {
        i
    } else {
        first_gap_from(g, i + 1)
    }
}

/// Row-major index of the first empty cell of the board, or `81`.
pub open spec fn first_gap(g: Cells) -> int {
    first_gap_from(g, 0)
}

pub proof fn lemma_first_gap_from(g: Cells, i: int)
    requires
        0 <= i <= 81,
    ensures
        i <= first_gap_from(g, i) <= 81,
        first_gap_from(g, i) < 81 ==> cell_at(g, first_gap_from(g, i)) == 0,
        forall|j: int| i <= j < first_gap_from(g, i) ==> #[trigger] cell_at(g, j) != 0,
    decreases 81 - i,
{
    if i < 81 && cell_at(g, i) != 0 {
        lemma_first_gap_from(g, i + 1);
    }
}

pub proof fn lemma_first_gap_from_ge(g: Cells, i: int, k: int)
    requires
        0 <= i <= k <= 81,
        forall|j: int| i <= j < k ==> #[trigger] cell_at(g, j) != 0,
    ensures
        first_gap_from(g, i) >= k,
    decreases k - i,
{
    if i < k {
        assert(cell_at(g, i) != 0);
        lemma_first_gap_from_ge(g, i + 1, k);
    } else {
        lemma_first_gap_from(g, i);
    }
}

/// Two boards equal at every cell are equal.
pub proof fn lemma_cells_eq(a: Cells, b: Cells)
    requires
        forall|r: int, c: int| in_grid(r, c) ==> #[trigger] a[r][c] == b[r][c],
    ensures
        a == b,
{
    assert forall|r: int| 0 <= r < 9 implies a@[r] == b@[r] by {
        assert forall|c: int| 0 <= c < 9 implies a[r][c] == b[r][c] by {
            assert(in_grid(r, c));
        }
        assert(a[r] =~= b[r]);
    }
    assert(a =~= b);
}

/// One presence table of the constraint tracker: entry `[u][d]` says whether
/// digit `d` is already placed in unit `u` (slot `0` is unused).
pub type Marks = [[bool; 10]; 9];

/// Two tables equal at every entry are equal.
pub proof fn lemma_marks_eq(a: Marks, b: Marks)
    requires
        forall|u: int, d: int| 0 <= u < 9 && 0 <= d < 10 ==> #[trigger] a[u][d] == b[u][d],
    ensures
        a == b,
{
    assert forall|u: int| 0 <= u < 9 implies a@[u] == b@[u] by {
        assert forall|d: int| 0 <= d < 10 implies a[u][d] == b[u][d] by {
            assert(0 <= u < 9 && 0 <= d < 10);
        }
        assert(a[u] =~= b[u]);
    }
    assert(a =~= b);
}

/// `t` records exactly which digits are placed in each row of `g`.
pub open spec fn rows_ok(g: Cells, t: Marks) -> bool {
    forall|r: int, d: int|
        0 <= r < 9 && 1 <= d <= 9 ==> (#[trigger] t[r][d] <==> exists|c: int|
            0 <= c < 9 && #[trigger] g[r][c] == d)
}

/// `t` records exactly which digits are placed in each column of `g`.
pub open spec fn cols_ok(g: Cells, t: Marks) -> bool {
    forall|c: int, d: int|
        0 <= c < 9 && 1 <= d <= 9 ==> (#[trigger] t[c][d] <==> exists|r: int|
            0 <= r < 9 && #[trigger] g[r][c] == d)
}

/// `t` records exactly which digits are placed in each 3x3 box of `g`.
pub open spec fn boxes_ok(g: Cells, t: Marks) -> bool {
    forall|b: int, d: int|
        0 <= b < 9 && 1 <= d <= 9 ==> (#[trigger] t[b][d] <==> exists|r: int, c: int|
            in_grid(r, c) && box_of(r, c) == b && #[trigger] g[r][c] == d)
}

/// The three tracker tables agree with the board.
pub open spec fn trackers_ok(g: Cells, rt: Marks, ct: Marks, bt: Marks) -> bool {
    rows_ok(g, rt) && cols_ok(g, ct) && boxes_ok(g, bt)
}

/// On a valid start the tracker's notion of success is exactly a valid
/// solution: the search neither accepts an invalid board nor misses a valid
/// one.
pub proof fn lemma_tracker_solution_valid(g0: Cells, g: Cells)
    requires
        valid(g0),
    ensures
        tracker_solution(g0, g) <==> is_solution(g0, g),
{
    if tracker_solution(g0, g) {
        assert forall|r1: int, c1: int, r2: int, c2: int|
            !conflict(g, r1, c1, r2, c2) by {
            if conflict(g, r1, c1, r2, c2) {
                assert(g0[r1][c1] != 0 && g0[r2][c2] != 0);
                assert(g[r1][c1] == g0[r1][c1] && g[r2][c2] == g0[r2][c2]);
                assert(conflict(g0, r1, c1, r2, c2));
            }
        }
    }
    if is_solution(g0, g) {
        assert forall|r1: int, c1: int, r2: int, c2: int|
            #[trigger] conflict(g, r1, c1, r2, c2) implies g0[r1][c1] != 0 && g0[r2][c2] != 0 by {
            assert(!conflict(g, r1, c1, r2, c2));
        }
    }
}

/// Nine pairwise distinct values drawn from `1..=9` cover all of `1..=9`.
proof fn lemma_nine_distinct_cover(s: Seq<int>)
    requires
        s.len() == 9,
        forall|i: int| 0 <= i < 9 ==> 1 <= #[trigger] s[i] <= 9,
        forall|i: int, j: int| 0 <= i < j < 9 ==> s[i] != s[j],
    ensures
        forall|d: int| 1 <= d <= 9 ==> #[trigger] s.contains(d),
{
    assert(s.no_duplicates());
    s.unique_seq_to_set();
    let ts = s.to_set();
    let whole = vstd::set_lib::set_int_range(1, 10);
    vstd::set_lib::lemma_int_range(1, 10);
    assert forall|d: int| 1 <= d <= 9 implies #[trigger] s.contains(d) by {
        if !ts.contains(d) {
            assert(ts.subset_of(whole.remove(d))) by {
                assert forall|x: int| ts.contains(x) implies whole.remove(d).contains(x) by {
                    assert(s.contains(x));
                    let i = choose|i: int| 0 <= i < s.len() && s[i] == x;
                    assert(1 <= s[i] <= 9);
                }
            }
            vstd::set_lib::lemma_len_subset(ts, whole.remove(d));
            assert(whole.remove(d).len() == 8);
            assert(false);
        }
        assert(s.contains(d));
    }
}

/// The 81 cells of a board as one row-major sequence.
pub open spec fn flat(g: Cells) -> Seq<u8> {
    Seq::new(81, |i: int| cell_at(g, i))
}

/// `a` is lexicographically no later than `b`, for sequences of equal
/// length: equal, or smaller at the first differing position.
pub open spec fn lex_le(a: Seq<u8>, b: Seq<u8>) -> bool {
    a == b || exists|k: int|
        0 <= k < a.len() && #[trigger] a.take(k) == b.take(k) && a[k] < b[k]
}

/// A conflict-free completion of `g0` that places `d` in the empty cell
/// `(r, c)` is also a conflict-free completion of the board with `d`
/// already placed there.
pub proof fn lemma_solution_after_place(g0: Cells, g1: Cells, r: int, c: int, d: u8, s: Cells)
    requires
        in_grid(r, c),
        g0[r][c] == 0,
        d != 0,
        g1[r][c] == d,
        forall|r2: int, c2: int|
            in_grid(r2, c2) && !(r2 == r && c2 == c) ==> #[trigger] g1[r2][c2] == g0[r2][c2],
        tracker_solution(g0, s),
        s[r][c] == d,
    ensures
        tracker_solution(g1, s),
{
    assert forall|r2: int, c2: int|
        in_grid(r2, c2) && #[trigger] g1[r2][c2] != 0 implies s[r2][c2] == g1[r2][c2] by {
        if !(r2 == r && c2 == c) {
            assert(g1[r2][c2] == g0[r2][c2]);
        }
    }
    assert forall|r1: int, c1: int, r2: int, c2: int|
        #[trigger] conflict(s, r1, c1, r2, c2) implies g1[r1][c1] != 0 && g1[r2][c2] != 0 by {
        assert(g0[r1][c1] != 0 && g0[r2][c2] != 0);
        assert(g1[r1][c1] == g0[r1][c1] || (r1 == r && c1 == c));
        assert(g1[r2][c2] == g0[r2][c2] || (r2 == r && c2 == c));
    }
}

/// Digit `d` appears somewhere in row `r`.
pub open spec fn row_has(g: Cells, r: int, d: int) -> bool {
    exists|c: int| 0 <= c < 9 && #[trigger] g[r][c] == d
}

/// Digit `d` appears somewhere in column `c`.
pub open spec fn col_has(g: Cells, c: int, d: int) -> bool {
    exists|r: int| 0 <= r < 9 && #[trigger] g[r][c] == d
}

/// Digit `d` appears somewhere in box `b`.
pub open spec fn box_has(g: Cells, b: int, d: int) -> bool {
    exists|r: int, c: int| in_grid(r, c) && box_of(r, c) == b && #[trigger] g[r][c] == d
}

/// In a complete, valid board every row, column and box holds each digit
/// `1..=9` exactly once: at least once by this lemma's `exists` clauses, and
/// at most once since `valid` forbids a repeated digit in a unit.
pub proof fn lemma_complete_valid_units(g: Cells)
    requires
        complete(g),
        valid(g),
    ensures
        forall|r: int, d: int| 0 <= r < 9 && 1 <= d <= 9 ==> #[trigger] row_has(g, r, d),
        forall|c: int, d: int| 0 <= c < 9 && 1 <= d <= 9 ==> #[trigger] col_has(g, c, d),
        forall|b: int, d: int| 0 <= b < 9 && 1 <= d <= 9 ==> #[trigger] box_has(g, b, d),
{
    assert forall|r: int, d: int|
        0 <= r < 9 && 1 <= d <= 9 implies #[trigger] row_has(g, r, d) by {
        let s = Seq::new(9, |c: int| g[r][c] as int);
        assert forall|i: int, j: int| 0 <= i < j < 9 implies s[i] != s[j] by {
            assert(!conflict(g, r, i, r, j));
            assert(1 <= g[r][i] <= 9 && 1 <= g[r][j] <= 9);
        }
        assert(forall|i: int| 0 <= i < 9 ==> 1 <= #[trigger] s[i] <= 9);
        lemma_nine_distinct_cover(s);
        assert(s.contains(d));
        let c = choose|i: int| 0 <= i < s.len() && s[i] == d;
        assert(g[r][c] == d);
    }
    assert forall|c: int, d: int|
        0 <= c < 9 && 1 <= d <= 9 implies #[trigger] col_has(g, c, d) by {
        let s = Seq::new(9, |r: int| g[r][c] as int);
        assert forall|i: int, j: int| 0 <= i < j < 9 implies s[i] != s[j] by {
            assert(!conflict(g, i, c, j, c));
            assert(1 <= g[i][c] <= 9 && 1 <= g[j][c] <= 9);
        }
        assert(forall|i: int| 0 <= i < 9 ==> 1 <= #[trigger] s[i] <= 9);
        lemma_nine_distinct_cover(s);
        assert(s.contains(d));
        let r = choose|i: int| 0 <= i < s.len() && s[i] == d;
        assert(g[r][c] == d);
    }
    assert forall|b: int, d: int|
        0 <= b < 9 && 1 <= d <= 9 implies #[trigger] box_has(g, b, d) by {
        let s = Seq::new(9, |k: int| g[(b / 3) * 3 + k / 3][(b % 3) * 3 + k % 3] as int);
        assert forall|i: int, j: int| 0 <= i < j < 9 implies s[i] != s[j] by {
            lemma_box_cell(b, i);
            lemma_box_cell(b, j);
            let r1 = (b / 3) * 3 + i / 3;
            let c1 = (b % 3) * 3 + i % 3;
            let r2 = (b / 3) * 3 + j / 3;
            let c2 = (b % 3) * 3 + j % 3;
            assert(!(r1 == r2 && c1 == c2)) by {
                assert(i == (i / 3) * 3 + i % 3 && j == (j / 3) * 3 + j % 3);
            }
            assert(!conflict(g, r1, c1, r2, c2));
            assert(1 <= g[r1][c1] <= 9 && 1 <= g[r2][c2] <= 9);
        }
        assert forall|i: int| 0 <= i < 9 implies 1 <= #[trigger] s[i] <= 9 by {
            lemma_box_cell(b, i);
        }
        lemma_nine_distinct_cover(s);
        assert(s.contains(d));
        let k = choose|i: int| 0 <= i < s.len() && s[i] == d;
        lemma_box_cell(b, k);
        let r = (b / 3) * 3 + k / 3;
        let c = (b % 3) * 3 + k % 3;
        assert(g[r][c] == d);
    }
}

/// What a successful solve of a valid puzzle delivers: the completion the
/// search accepts is a fully valid board that keeps the givens, and each of
/// its rows, columns and boxes holds every digit `1..=9` — exactly once,
/// since `valid` already forbids a second occurrence in a unit.
pub proof fn lemma_solved_valid_puzzle(g0: Cells, g: Cells)
    requires
        valid(g0),
        tracker_solution(g0, g),
    ensures
        is_solution(g0, g),
        forall|r: int, d: int| 0 <= r < 9 && 1 <= d <= 9 ==> #[trigger] row_has(g, r, d),
        forall|c: int, d: int| 0 <= c < 9 && 1 <= d <= 9 ==> #[trigger] col_has(g, c, d),
        forall|b: int, d: int| 0 <= b < 9 && 1 <= d <= 9 ==> #[trigger] box_has(g, b, d),
{
    lemma_tracker_solution_valid(g0, g);
    lemma_complete_valid_units(g);
}

proof fn lemma_box_cell(b: int, k: int)
    requires
        0 <= b < 9,
        0 <= k < 9,
    ensures
        in_grid((b / 3) * 3 + k / 3, (b % 3) * 3 + k % 3),
        box_of((b / 3) * 3 + k / 3, (b % 3) * 3 + k % 3) == b,
{
    assert(((b / 3) * 3 + k / 3) / 3 == b / 3 && ((b % 3) * 3 + k % 3) / 3 == b % 3)
        by (nonlinear_arith)
        requires
            0 <= b < 9 && 0 <= k < 9,
    ;
    assert((b / 3) * 3 + b % 3 == b);
}

} // verus!
