//! The backtracking search engine: depth-first search over candidate values
//! with an explicit trail of committed cells, undone cell by cell on a dead
//! end.

use vstd::prelude::*;

use crate::board::{
    board_check, board_full, board_strict_ok, grid_wf, lemma_board_check_ok_iff,
    lemma_full_lenient_is_strict, lemma_illegal_partial_not_completable, set_cell, SudokuBoard,
};

verus! {

/// Why a solve call did not produce a solution.
#[derive(Debug, Clone, Copy, PartialEq, Eq, Structural)]
pub enum SolveError {
    /// The initial grid already violates the uniqueness constraints; no
    /// search step was attempted.
    InvalidInput,
    /// Backtracking was requested with an empty trail: the search space is
    /// exhausted and the puzzle has no solution.
    Unsolvable,
    /// The step budget ran out before the search finished.
    BudgetExhausted,
}

/// The row-major position of the cell `(r, c)`: rows ascend first, columns
/// within a row.
pub open spec fn cell_pos(r: int, c: int) -> int {
    9 * r + c
}

/// The row-major position of a (row, column) pair.
pub open spec fn pos_of(p: (u8, u8)) -> int {
    cell_pos(p.0 as int, p.1 as int)
}

/// Does the trail `t` contain the cell `(r, c)`?
pub open spec fn trail_contains(t: Seq<(u8, u8)>, r: int, c: int) -> bool {
    exists|k: int| 0 <= k < t.len() && (#[trigger] t[k]).0 as int == r && t[k].1 as int == c
}

/// The shape of a trail over a grid `g`: every entry is an in-range cell,
/// entries are committed in strictly increasing row-major order, and every
/// committed cell is still filled in `g`.
pub open spec fn trail_struct(t: Seq<(u8, u8)>, g: Seq<Seq<u8>>) -> bool {
    &&& forall|k: int| 0 <= k < t.len() ==> (#[trigger] t[k]).0 <= 8 && t[k].1 <= 8
    &&& forall|k: int| 0 <= k && k + 1 < t.len() ==> pos_of(#[trigger] t[k]) < pos_of(t[k + 1])
    &&& forall|k: int| 0 <= k < t.len() ==> g[(#[trigger] t[k]).0 as int][t[k].1 as int] != 0
}

/// No cell at or before the most recently committed cell is empty in `g`.
pub open spec fn trail_covers(t: Seq<(u8, u8)>, g: Seq<Seq<u8>>) -> bool {
    t.len() > 0 ==> forall|r: int, c: int|
        0 <= r < 9 && 0 <= c < 9 && cell_pos(r, c) <= pos_of(t[t.len() - 1]) ==> #[trigger] g[r][c]
            != 0
}

/// The grid `g` differs from the initial grid `g0` exactly on trail cells:
/// every committed cell was empty initially, and every cell off the trail
/// still holds its initial value.
pub open spec fn trail_tracks(t: Seq<(u8, u8)>, g0: Seq<Seq<u8>>, g: Seq<Seq<u8>>) -> bool {
    &&& forall|k: int| 0 <= k < t.len() ==> g0[(#[trigger] t[k]).0 as int][t[k].1 as int] == 0
    &&& forall|r: int, c: int|
        0 <= r < 9 && 0 <= c < 9 && #[trigger] g[r][c] != g0[r][c] ==> trail_contains(t, r, c)
}

/// The grid `g` extends `g0`: every clue (non-zero cell) of `g0` is intact.
pub open spec fn extends(g0: Seq<Seq<u8>>, g: Seq<Seq<u8>>) -> bool {
    forall|r: int, c: int|
        0 <= r < 9 && 0 <= c < 9 && #[trigger] g0[r][c] != 0 ==> g[r][c] == g0[r][c]
}

/// A solution of the puzzle `g0`: a well-formed, fully filled, strictly
/// legal grid on which every clue of `g0` is intact.
pub open spec fn is_solution(g0: Seq<Seq<u8>>, s: Seq<Seq<u8>>) -> bool {
    &&& grid_wf(s)
    &&& board_full(s)
    &&& board_strict_ok(s)
    &&& extends(g0, s)
}

/// `s` agrees with the committed values (those stored in `g`) at the first
/// `j` trail cells.
spec fn prefix_match(s: Seq<Seq<u8>>, t: Seq<(u8, u8)>, g: Seq<Seq<u8>>, j: int) -> bool {
    forall|m: int|
        0 <= m < j ==> s[(#[trigger] t[m]).0 as int][t[m].1 as int] == g[t[m].0 as int][t[m].1 as int]
}

/// No solution branches below the committed values: wherever a solution
/// agrees with the first `j` commits, its value at commit `j` is at least
/// the committed one. This is what the candidate order (ascending from 1)
/// has already ruled out.
spec fn no_lower_branch(g0: Seq<Seq<u8>>, t: Seq<(u8, u8)>, g: Seq<Seq<u8>>) -> bool {
    forall|s: Seq<Seq<u8>>, j: int|
        is_solution(g0, s) && 0 <= j < t.len() && #[trigger] prefix_match(s, t, g, j)
            ==> s[(t[j]).0 as int][t[j].1 as int] >= g[(t[j]).0 as int][t[j].1 as int]
}

/// No solution agrees with all the committed values: the whole subtree
/// under the current trail has been ruled out.
spec fn no_full_match(g0: Seq<Seq<u8>>, t: Seq<(u8, u8)>, g: Seq<Seq<u8>>) -> bool {
    forall|s: Seq<Seq<u8>>|
        #[trigger] is_solution(g0, s) ==> !prefix_match(s, t, g, t.len() as int)
}

/// Every solution that agrees with all the committed values holds at least
/// `v` at the target cell: the candidates below `v` have been ruled out.
spec fn no_candidate_below(
    g0: Seq<Seq<u8>>,
    t: Seq<(u8, u8)>,
    g: Seq<Seq<u8>>,
    cell: (u8, u8),
    v: u8,
) -> bool {
    forall|s: Seq<Seq<u8>>|
        #[trigger] is_solution(g0, s) && prefix_match(s, t, g, t.len() as int) ==> s[cell.0 as int][cell.1 as int] >= v
}

/// `a` comes before `b` in row-major lexicographic order: at the first
/// cell (scanning rows first, then columns) where they differ, `a` holds
/// the smaller value.
pub open spec fn lex_before(a: Seq<Seq<u8>>, b: Seq<Seq<u8>>) -> bool {
    exists|r: int, c: int|
        {
            &&& 0 <= r < 9 && 0 <= c < 9
            &&& #[trigger] a[r][c] < b[r][c]
            &&& forall|r2: int, c2: int|
                0 <= r2 < 9 && 0 <= c2 < 9 && cell_pos(r2, c2) < cell_pos(r, c)
                    ==> #[trigger] a[r2][c2] == b[r2][c2]
        }
}

/// Powers of eleven, the base of the search measure.
spec fn pow11(e: int) -> int
    decreases e,
{
    if e <= 0 {
        1
    } else {
        11 * pow11(e - 1)
    }
}

/// One digit of the search measure. The committed value `v` at trail index
/// `k` contributes `10 - v`, so committing a larger value shrinks the
/// digit; positions past the trail read 10 while the search descends and 0
/// while it backtracks, so both failing forward and popping shrink one.
spec fn state_digit(t: Seq<(u8, u8)>, g: Seq<Seq<u8>>, backtrack_needed: bool, k: int) -> int {
    if 0 <= k < t.len() {
        10 - g[(t[k]).0 as int][t[k].1 as int]
    } else if backtrack_needed {
        0
    } else {
        10
    }
}

/// The search measure from digit `k` on: the digits read as a base-11
/// number, most significant first.
spec fn state_weight_from(
    t: Seq<(u8, u8)>,
    g: Seq<Seq<u8>>,
    backtrack_needed: bool,
    k: int,
) -> int
    decreases 81 - k,
{
    if k < 0 || k >= 81 {
        0
    } else {
        state_digit(t, g, backtrack_needed, k) * pow11(80 - k) + state_weight_from(
            t,
            g,
            backtrack_needed,
            k + 1,
        )
    }
}

/// The search measure of a whole solver state. Every kind of search step
/// strictly shrinks it, which is what proves the search terminates.
spec fn state_weight(t: Seq<(u8, u8)>, g: Seq<Seq<u8>>, backtrack_needed: bool) -> int {
    state_weight_from(t, g, backtrack_needed, 0)
}

proof fn lemma_pow11_pos(e: int)
    ensures
        pow11(e) >= 1,
    decreases e,
{
    if e > 0 {
        lemma_pow11_pos(e - 1);
    }
}

proof fn lemma_state_weight_bounds(t: Seq<(u8, u8)>, g: Seq<Seq<u8>>, b: bool, k: int)
    requires
        0 <= k <= 81,
        forall|m: int| k <= m < 81 ==> 0 <= #[trigger] state_digit(t, g, b, m) <= 10,
    ensures
        0 <= state_weight_from(t, g, b, k) <= pow11(81 - k) - 1,
    decreases 81 - k,
{
    if k < 81 {
        lemma_state_weight_bounds(t, g, b, k + 1);
        lemma_pow11_pos(80 - k);
        let d = state_digit(t, g, b, k);
        let p = pow11(80 - k);
        let rest = state_weight_from(t, g, b, k + 1);
        assert(0 <= d * p + rest <= 11 * p - 1) by (nonlinear_arith)
            requires
                0 <= d <= 10,
                p >= 1,
                0 <= rest <= p - 1,
        ;
        assert(pow11(81 - k) == 11 * pow11(80 - k));
    }
}

/// A state whose digits agree with another's up to position `p` and drop
/// strictly at `p` has the strictly smaller measure, whatever the digits
/// past `p` hold.
proof fn lemma_state_weight_lt(
    t1: Seq<(u8, u8)>,
    g1: Seq<Seq<u8>>,
    b1: bool,
    t2: Seq<(u8, u8)>,
    g2: Seq<Seq<u8>>,
    b2: bool,
    p: int,
    k: int,
)
    requires
        0 <= k <= p < 81,
        forall|m: int|
            k <= m < p ==> #[trigger] state_digit(t2, g2, b2, m) == state_digit(t1, g1, b1, m),
        state_digit(t2, g2, b2, p) < state_digit(t1, g1, b1, p),
        forall|m: int| k <= m < 81 ==> 0 <= #[trigger] state_digit(t1, g1, b1, m) <= 10,
        forall|m: int| k <= m < 81 ==> 0 <= #[trigger] state_digit(t2, g2, b2, m) <= 10,
    ensures
        state_weight_from(t2, g2, b2, k) < state_weight_from(t1, g1, b1, k),
    decreases p - k,
{
    if k == p {
        lemma_state_weight_bounds(t1, g1, b1, p + 1);
        lemma_state_weight_bounds(t2, g2, b2, p + 1);
        lemma_pow11_pos(80 - p);
        let d1 = state_digit(t1, g1, b1, p);
        let d2 = state_digit(t2, g2, b2, p);
        let pw = pow11(80 - p);
        let r1 = state_weight_from(t1, g1, b1, p + 1);
        let r2 = state_weight_from(t2, g2, b2, p + 1);
        assert(d2 * pw + r2 < d1 * pw + r1) by (nonlinear_arith)
            requires
                d2 <= d1 - 1,
                pw >= 1,
                0 <= r2 <= pw - 1,
                r1 >= 0,
        ;
    } else {
        lemma_state_weight_lt(t1, g1, b1, t2, g2, b2, p, k + 1);
    }
}

/// Every digit of a state over a well-formed grid and an in-range trail
/// lies in 0..=10.
proof fn lemma_digit_bounds(t: Seq<(u8, u8)>, g: Seq<Seq<u8>>, b: bool)
    requires
        grid_wf(g),
        forall|k: int| 0 <= k < t.len() ==> (#[trigger] t[k]).0 <= 8 && t[k].1 <= 8,
    ensures
        forall|m: int| 0 <= m < 81 ==> 0 <= #[trigger] state_digit(t, g, b, m) <= 10,
{
    assert forall|m: int| 0 <= m < 81 implies 0 <= #[trigger] state_digit(t, g, b, m) <= 10 by {
        if 0 <= m < t.len() {
            assert(g[(t[m]).0 as int][(t[m]).1 as int] <= 9);
        }
    }
}

/// A strictly position-ascending trail over a 9x9 board holds at most 81
/// entries, and its last entry sits at position at least its index.
proof fn lemma_trail_len_le(t: Seq<(u8, u8)>)
    requires
        forall|m: int| 0 <= m && m + 1 < t.len() ==> pos_of(#[trigger] t[m]) < pos_of(t[m + 1]),
        forall|m: int| 0 <= m < t.len() ==> (#[trigger] t[m]).0 <= 8 && t[m].1 <= 8,
    ensures
        t.len() <= 81,
        t.len() > 0 ==> pos_of(t[t.len() - 1]) >= t.len() - 1,
{
    if t.len() > 0 {
        lemma_trail_pos_lower(t, t.len() - 1);
        assert(pos_of(t[t.len() - 1]) <= 80);
    }
}

/// A state whose digits agree with another's up to position `p` and drop
/// strictly there has the strictly smaller, still non-negative, measure.
proof fn lemma_weight_drop(
    t1: Seq<(u8, u8)>,
    g1: Seq<Seq<u8>>,
    b1: bool,
    t2: Seq<(u8, u8)>,
    g2: Seq<Seq<u8>>,
    b2: bool,
    p: int,
)
    requires
        0 <= p < 81,
        forall|m: int|
            0 <= m < p ==> #[trigger] state_digit(t2, g2, b2, m) == state_digit(t1, g1, b1, m),
        state_digit(t2, g2, b2, p) < state_digit(t1, g1, b1, p),
        forall|m: int| 0 <= m < 81 ==> 0 <= #[trigger] state_digit(t1, g1, b1, m) <= 10,
        forall|m: int| 0 <= m < 81 ==> 0 <= #[trigger] state_digit(t2, g2, b2, m) <= 10,
    ensures
        0 <= state_weight(t2, g2, b2) < state_weight(t1, g1, b1),
{
    lemma_state_weight_lt(t1, g1, b1, t2, g2, b2, p, 0);
    lemma_state_weight_bounds(t2, g2, b2, 0);
}

/// In a trail whose positions strictly ascend, the entry at index `k` sits
/// at position at least `k`; in particular a trail over a 9x9 board holds
/// at most 81 entries.
proof fn lemma_trail_pos_lower(t: Seq<(u8, u8)>, k: int)
    requires
        forall|m: int| 0 <= m && m + 1 < t.len() ==> pos_of(#[trigger] t[m]) < pos_of(t[m + 1]),
        forall|m: int| 0 <= m < t.len() ==> (#[trigger] t[m]).0 <= 8 && t[m].1 <= 8,
        0 <= k < t.len(),
    ensures
        pos_of(t[k]) >= k,
    decreases k,
{
    if k > 0 {
        lemma_trail_pos_lower(t, k - 1);
    }
}

/// The least trail index at or after `k` where `s` and `gf` disagree, given
/// that some such index exists.
proof fn lemma_first_diff_index(
    s: Seq<Seq<u8>>,
    gf: Seq<Seq<u8>>,
    t: Seq<(u8, u8)>,
    k: int,
) -> (j: int)
    requires
        0 <= k,
        exists|m: int|
            k <= m < t.len() && s[(#[trigger] t[m]).0 as int][t[m].1 as int] != gf[(t[m]).0 as int][t[m].1 as int],
    ensures
        k <= j < t.len(),
        s[(t[j]).0 as int][t[j].1 as int] != gf[(t[j]).0 as int][t[j].1 as int],
        forall|m: int|
            k <= m < j ==> s[(#[trigger] t[m]).0 as int][t[m].1 as int] == gf[(t[m]).0 as int][t[m].1 as int],
    decreases t.len() - k,
{
    if s[(t[k]).0 as int][t[k].1 as int] != gf[(t[k]).0 as int][t[k].1 as int] {
        k
    } else {
        lemma_first_diff_index(s, gf, t, k + 1)
    }
}

/// The grid a finished search leaves behind is the row-major
/// lexicographically least solution: candidates were tried in ascending
/// order at cells visited in row-major order, so any other solution exceeds
/// it at the first cell where they differ.
proof fn lemma_solution_lex_minimal(g0: Seq<Seq<u8>>, t: Seq<(u8, u8)>, gf: Seq<Seq<u8>>)
    requires
        grid_wf(g0),
        grid_wf(gf),
        board_full(gf),
        trail_struct(t, gf),
        trail_tracks(t, g0, gf),
        no_lower_branch(g0, t, gf),
    ensures
        forall|s: Seq<Seq<u8>>|
            #[trigger] is_solution(g0, s) && s != gf ==> lex_before(gf, s),
{
    assert forall|s: Seq<Seq<u8>>| #[trigger] is_solution(g0, s) && s != gf implies lex_before(
        gf,
        s,
    ) by {
        if forall|r: int, c: int| 0 <= r < 9 && 0 <= c < 9 ==> #[trigger] s[r][c] == gf[r][c] {
            assert forall|r: int| 0 <= r < 9 implies s[r] == gf[r] by {
                assert(s[r] =~= gf[r]);
            }
            assert(s =~= gf);
            assert(false);
        }
        let (rd, cd) = choose|rd: int, cd: int|
            0 <= rd < 9 && 0 <= cd < 9 && #[trigger] s[rd][cd] != gf[rd][cd];
        if g0[rd][cd] != 0 {
            assert(s[rd][cd] == g0[rd][cd]);
            lemma_tracks_extends(t, g0, gf);
            assert(gf[rd][cd] == g0[rd][cd]);
            assert(false);
        }
        assert(gf[rd][cd] != 0);
        assert(trail_contains(t, rd, cd));
        let kd = choose|kd: int|
            0 <= kd < t.len() && (#[trigger] t[kd]).0 as int == rd && t[kd].1 as int == cd;
        let j = lemma_first_diff_index(s, gf, t, 0);
        let rj = (t[j]).0 as int;
        let cj = (t[j]).1 as int;
        assert(prefix_match(s, t, gf, j));
        assert(s[rj][cj] >= gf[rj][cj]);
        assert(s[rj][cj] != gf[rj][cj]);
        assert(gf[rj][cj] < s[rj][cj]);
        assert forall|r2: int, c2: int|
            0 <= r2 < 9 && 0 <= c2 < 9 && cell_pos(r2, c2) < cell_pos(rj, cj)
        implies #[trigger] gf[r2][c2] == s[r2][c2] by {
            if g0[r2][c2] != 0 {
                lemma_tracks_extends(t, g0, gf);
                assert(s[r2][c2] == g0[r2][c2] && gf[r2][c2] == g0[r2][c2]);
            } else {
                assert(gf[r2][c2] != 0);
                assert(trail_contains(t, r2, c2));
                let m = choose|m: int|
                    0 <= m < t.len() && (#[trigger] t[m]).0 as int == r2 && t[m].1 as int == c2;
                assert(pos_of(t[m]) == cell_pos(r2, c2));
                if m > j {
                    lemma_trail_pos_monotone(t, j, m);
                    assert(false);
                }
                if m == j {
                    assert(false);
                }
                assert(s[(t[m]).0 as int][t[m].1 as int] == gf[(t[m]).0 as int][t[m].1 as int]);
            }
        }
        assert(0 <= rj < 9 && 0 <= cj < 9 && gf[rj][cj] < s[rj][cj] && (forall|r2: int, c2: int|
            0 <= r2 < 9 && 0 <= c2 < 9 && cell_pos(r2, c2) < cell_pos(rj, cj)
                ==> #[trigger] gf[r2][c2] == s[r2][c2]));
    }
}

/// What one search step decided: a cell to try candidates at (with the first
/// candidate value), a fully filled board, or an exhausted search space.
enum SearchStep {
    /// Try candidate values at this cell, starting from this value.
    Target((u8, u8), u8),
    /// No empty cell remains anywhere on the board.
    Filled,
    /// Backtracking was requested with an empty trail.
    Exhausted,
}

/// What one search step produced: continue searching (with whether the
/// next step backtracks), a solved board, or an exhausted search space.
enum StepOutcome {
    Continue(bool),
    Solved,
    Exhausted,
}

/// A backtracking solver; it owns the board for the duration of the search.
pub struct Backtracking {
    pub board: SudokuBoard,
    history: Vec<(u8, u8)>,
}

impl Backtracking {
    /// The trail of committed cells, in commit order.
    pub closed spec fn trail(self) -> Seq<(u8, u8)> {
        self.history@
    }

    /// The current contents of the board, as its mathematical view.
    pub closed spec fn grid(self) -> Seq<Seq<u8>> {
        self.board@
    }

    /// The invariant the search maintains between steps.
    spec fn search_inv(self) -> bool {
        &&& trail_struct(self.trail(), self.board@)
        &&& trail_covers(self.trail(), self.board@)
    }

    /// A fresh solver for the given board, with an empty trail.
    pub fn new(board: SudokuBoard) -> (solver: Self)
        ensures
            solver.grid() == board@,
            solver.trail() == Seq::<(u8, u8)>::empty(),
    {
        let solver = Self { board, history: vec![] };
        proof {
            assert(solver.trail() =~= Seq::<(u8, u8)>::empty());
        }
        solver
    }

    /// Find the first empty cell at or after `(start_row, start_col)` in
    /// row-major order; `None` when every cell from there on is filled.
    pub fn find_next_empty(&self, start_row: u8, start_col: u8) -> (r: Option<(u8, u8)>)
        requires
            start_row <= 8,
            start_col <= 8,
        ensures
            match r {
                Some(cell) => {
                    &&& cell.0 <= 8 && cell.1 <= 8
                    &&& self.grid()[cell.0 as int][cell.1 as int] == 0
                    &&& cell_pos(start_row as int, start_col as int) <= pos_of(cell)
                    &&& forall|r2: int, c2: int|
                        0 <= r2 < 9 && 0 <= c2 < 9 && cell_pos(start_row as int, start_col as int)
                            <= cell_pos(r2, c2) < pos_of(cell) ==> #[trigger] self.grid()[r2][c2]
                            != 0
                },
                None => forall|r2: int, c2: int|
                    0 <= r2 < 9 && 0 <= c2 < 9 && cell_pos(start_row as int, start_col as int)
                        <= cell_pos(r2, c2) ==> #[trigger] self.grid()[r2][c2] != 0,
            },
    {
        let mut row: u8 = start_row;
        while row < 9
            invariant
                start_row <= 8,
                start_col <= 8,
                start_row <= row <= 9,
                forall|r2: int, c2: int|
                    0 <= r2 < 9 && 0 <= c2 < 9 && cell_pos(start_row as int, start_col as int)
                        <= cell_pos(r2, c2) < cell_pos(
                        row as int,
                        if row == start_row {
                            start_col as int
                        } else {
                            0
                        },
                    ) ==> #[trigger] self.board@[r2][c2] != 0,
            decreases 9 - row,
        {
            // Start from the indicated column in the start row, otherwise
            // from the beginning of each following row.
            let real_start_col: u8 = if row == start_row {
                start_col
            } else {
                0
            };
            let mut col: u8 = real_start_col;
            while col < 9
                invariant
                    start_row <= 8,
                    start_col <= 8,
                    start_row <= row <= 8,
                    real_start_col == (if row == start_row {
                        start_col
                    } else {
                        0
                    }),
                    real_start_col <= col <= 9,
                    forall|r2: int, c2: int|
                        0 <= r2 < 9 && 0 <= c2 < 9 && cell_pos(start_row as int, start_col as int)
                            <= cell_pos(r2, c2) < cell_pos(row as int, col as int)
                            ==> #[trigger] self.board@[r2][c2] != 0,
                decreases 9 - col,
            {
                if self.board.get_value(row, col) == 0 {
                    return Some((row, col));
                }
                col = col + 1;
            }
            row = row + 1;
        }
        proof {
            assert forall|r2: int, c2: int|
                0 <= r2 < 9 && 0 <= c2 < 9 && cell_pos(start_row as int, start_col as int)
                    <= cell_pos(r2, c2) implies #[trigger] self.board@[r2][c2] != 0 by {
                assert(cell_pos(r2, c2) < cell_pos(9, 0));
            }
        }
        None
    }

    /// Decide the next cell to work at. On a backtrack, pop the most recent
    /// commit and resume there at its value plus one; otherwise scan for the
    /// next empty cell after the most recent commit.
    fn get_next(&mut self, backtrack_needed: bool) -> (r: SearchStep)
        requires
            old(self).search_inv(),
        ensures
            final(self).board == old(self).board,
            match r {
                SearchStep::Target(cell, start) => {
                    &&& cell.0 <= 8 && cell.1 <= 8
                    &&& 1 <= start <= 10
                    &&& forall|r2: int, c2: int|
                        0 <= r2 < 9 && 0 <= c2 < 9 && cell_pos(r2, c2) < pos_of(cell)
                            ==> #[trigger] final(self).board@[r2][c2] != 0
                    &&& forall|k: int|
                        0 <= k < final(self).trail().len() ==> pos_of(
                            #[trigger] final(self).trail()[k],
                        ) < pos_of(cell)
                    &&& if backtrack_needed {
                        &&& old(self).trail().len() > 0
                        &&& final(self).trail() == old(self).trail().drop_last()
                        &&& cell == old(self).trail().last()
                        &&& start == final(self).board@[cell.0 as int][cell.1 as int] + 1
                        &&& final(self).board@[cell.0 as int][cell.1 as int] != 0
                    } else {
                        &&& final(self).trail() == old(self).trail()
                        &&& start == 1
                        &&& final(self).board@[cell.0 as int][cell.1 as int] == 0
                    }
                },
                SearchStep::Filled => {
                    &&& final(self).trail() == old(self).trail()
                    &&& !backtrack_needed
                    &&& board_full(final(self).board@)
                },
                SearchStep::Exhausted => {
                    &&& final(self).trail() == old(self).trail()
                    &&& backtrack_needed
                    &&& old(self).trail().len() == 0
                },
            },
    {
        if backtrack_needed {
            match self.history.pop() {
                None => SearchStep::Exhausted,
                Some(current) => {
                    proof {
                        use_type_invariant(&self.board);
                        let t = old(self).trail();
                        assert(t.len() > 0);
                        assert(trail_covers(t, old(self).board@));
                        assert(current == t[t.len() - 1]);
                        assert(self.trail() =~= t.drop_last());
                        assert forall|k: int| 0 <= k < self.trail().len() implies pos_of(
                            #[trigger] self.trail()[k],
                        ) < pos_of(current) by {
                            lemma_trail_pos_monotone(t, k, t.len() - 1);
                        }
                        assert forall|r2: int, c2: int|
                            0 <= r2 < 9 && 0 <= c2 < 9 && cell_pos(r2, c2) < pos_of(current)
                            implies #[trigger] self.board@[r2][c2] != 0 by {
                            assert(cell_pos(r2, c2) <= pos_of(t[t.len() - 1]));
                            assert(old(self).board@[r2][c2] != 0);
                        }
                    }
                    let value: u8 = self.board.get_value(current.0, current.1);
                    SearchStep::Target(current, value + 1)
                },
            }
        } else {
            let previous: (u8, u8) = if self.history.len() == 0 {
                (0, 0)
            } else {
                self.history[self.history.len() - 1]
            };
            match self.find_next_empty(previous.0, previous.1) {
                None => {
                    proof {
                        let t = self.trail();
                        assert forall|r2: int, c2: int| 0 <= r2 < 9 && 0 <= c2 < 9
                        implies #[trigger] self.board@[r2][c2] != 0 by {
                            assert(self.grid()[r2][c2] == self.board@[r2][c2]);
                            if t.len() > 0 {
                                assert(previous == t[t.len() - 1]);
                                assert(cell_pos(r2, c2) <= pos_of(previous) || cell_pos(r2, c2)
                                    >= pos_of(previous));
                            } else {
                                assert(cell_pos(previous.0 as int, previous.1 as int) == 0);
                                assert(cell_pos(r2, c2) >= 0);
                            }
                        }
                    }
                    SearchStep::Filled
                },
                Some(next) => {
                    proof {
                        let t = self.trail();
                        if t.len() > 0 {
                            assert(previous == t[t.len() - 1]);
                            assert(self.board@[previous.0 as int][previous.1 as int] != 0);
                            assert(self.grid()[previous.0 as int][previous.1 as int] != 0);
                            assert(pos_of(previous) < pos_of(next));
                            assert forall|k: int| 0 <= k < t.len() implies pos_of(#[trigger] t[k])
                                < pos_of(next) by {
                                if k < t.len() - 1 {
                                    lemma_trail_pos_monotone(t, k, t.len() - 1);
                                }
                            }
                        }
                        assert forall|r2: int, c2: int|
                            0 <= r2 < 9 && 0 <= c2 < 9 && cell_pos(r2, c2) < pos_of(next)
                        implies #[trigger] self.board@[r2][c2] != 0 by {
                            assert(self.grid()[r2][c2] == self.board@[r2][c2]);
                            if t.len() > 0 {
                                assert(cell_pos(r2, c2) <= pos_of(t[t.len() - 1]) || cell_pos(
                                    r2,
                                    c2,
                                ) >= cell_pos(previous.0 as int, previous.1 as int));
                            }
                        }
                    }
                    SearchStep::Target(next, 1)
                },
            }
        }
    }

    /// Run the backtracking search on the owned board, taking at most
    /// `max_steps` search steps. On success the board holds a solution of
    /// the initial puzzle; `InvalidInput` comes exactly when the initial
    /// grid fails the lenient check, and leaves it untouched; `Unsolvable`
    /// restores the initial grid and guarantees that no solution of it
    /// exists; the initial clues survive in every outcome.
    /// The invariant that holds between search steps, tying the board and
    /// the trail to the initial grid `g0`.
    spec fn solving_inv(self, g0: Seq<Seq<u8>>, backtrack_needed: bool) -> bool {
        &&& grid_wf(g0)
        &&& board_check(g0, true) is Ok
        &&& self.search_inv()
        &&& trail_tracks(self.trail(), g0, self.board@)
        &&& no_lower_branch(g0, self.trail(), self.board@)
        &&& (backtrack_needed ==> no_full_match(g0, self.trail(), self.board@))
        &&& (!backtrack_needed ==> board_check(self.board@, true) is Ok)
    }

    /// One step of the search's state machine: decide the next target cell
    /// (or finish), and run one commit attempt at it. Each step strictly
    /// shrinks the search measure, which is why the search terminates.
    #[verifier::rlimit(100)]
    fn step(&mut self, backtrack_needed: bool, Ghost(g0): Ghost<Seq<Seq<u8>>>) -> (r: StepOutcome)
        requires
            old(self).solving_inv(g0, backtrack_needed),
        ensures
            match r {
                StepOutcome::Continue(next_backtrack) => {
                    &&& final(self).solving_inv(g0, next_backtrack)
                    &&& 0 <= state_weight(final(self).trail(), final(self).board@, next_backtrack)
                        < state_weight(old(self).trail(), old(self).board@, backtrack_needed)
                },
                StepOutcome::Solved => {
                    &&& is_solution(g0, final(self).board@)
                    &&& board_check(final(self).board@, false) is Ok
                    &&& extends(g0, final(self).board@)
                    &&& forall|s: Seq<Seq<u8>>|
                        #[trigger] is_solution(g0, s) && s != final(self).board@ ==> lex_before(
                            final(self).board@,
                            s,
                        )
                },
                StepOutcome::Exhausted => {
                    &&& final(self).board@ == g0
                    &&& final(self).trail().len() == 0
                    &&& forall|s: Seq<Seq<u8>>| !is_solution(g0, s)
                },
            },
    {
        let ghost t0 = self.trail();
        let step = self.get_next(backtrack_needed);
        match step {
            SearchStep::Exhausted => {
                proof {
                    use_type_invariant(&self.board);
                    assert forall|r2: int| 0 <= r2 < 9 implies self.board@[r2] == g0[r2] by {
                        assert forall|c2: int| 0 <= c2 < 9 implies self.board@[r2][c2]
                            == g0[r2][c2] by {
                            if self.board@[r2][c2] != g0[r2][c2] {
                                assert(trail_contains(self.trail(), r2, c2));
                            }
                        }
                        assert(self.board@[r2] =~= g0[r2]);
                    }
                    assert(self.board@ =~= g0);
                    assert forall|s: Seq<Seq<u8>>| !is_solution(g0, s) by {
                        if is_solution(g0, s) {
                            assert(prefix_match(s, self.trail(), self.board@, 0));
                            assert(!prefix_match(
                                s,
                                self.trail(),
                                self.board@,
                                self.trail().len() as int,
                            ));
                        }
                    }
                    assert(self.trail().len() == 0);
                }
                return StepOutcome::Exhausted;
            },
            SearchStep::Filled => {
                proof {
                    use_type_invariant(&self.board);
                    lemma_board_check_ok_iff(self.board@, true);
                    lemma_full_lenient_is_strict(self.board@);
                    lemma_board_check_ok_iff(self.board@, false);
                    lemma_tracks_extends(self.trail(), g0, self.board@);
                    assert(is_solution(g0, self.board@));
                    lemma_solution_lex_minimal(g0, self.trail(), self.board@);
                }
                return StepOutcome::Solved;
            },
            SearchStep::Target(cell, start) => {
                let mut next_backtrack = false;
                let row: u8 = cell.0;
                let col: u8 = cell.1;
                let ghost t1 = self.trail();
                let ghost g1 = self.board@;
                proof {
                    use_type_invariant(&self.board);
                    lemma_target_facts(t0, t1, g0, g1, cell, backtrack_needed);
                    lemma_target_prune(t0, t1, g0, g1, cell, start, backtrack_needed);
                }
                let mut value: u8 = start;
                let mut committed = false;
                while value <= 9 && !committed
                    invariant
                        row <= 8,
                        col <= 8,
                        row == cell.0,
                        col == cell.1,
                        1 <= value <= 10,
                        start <= value,
                        committed ==> self.board@[row as int][col as int] >= start,
                        grid_wf(g1),
                        forall|k: int|
                            0 <= k < t1.len() ==> (#[trigger] t1[k]).0 <= 8 && t1[k].1 <= 8,
                        forall|r2: int, c2: int|
                            0 <= r2 < 9 && 0 <= c2 < 9 && !(r2 == row as int && c2
                                == col as int) && #[trigger] g1[r2][c2] != g0[r2][c2]
                                ==> trail_contains(t1, r2, c2),
                        !committed ==> no_candidate_below(g0, t1, g1, cell, value),
                        committed ==> no_candidate_below(
                            g0,
                            t1,
                            g1,
                            cell,
                            self.board@[row as int][col as int],
                        ),
                        !committed ==> self.trail() == t1,
                        !committed ==> forall|r2: int, c2: int|
                            0 <= r2 < 9 && 0 <= c2 < 9 && !(r2 == row as int && c2
                                == col as int) ==> #[trigger] self.board@[r2][c2]
                                == g1[r2][c2],
                        committed ==> {
                            &&& self.trail() == t1.push((row, col))
                            &&& board_check(self.board@, true) is Ok
                            &&& 1 <= self.board@[row as int][col as int] <= 9
                            &&& forall|r2: int, c2: int|
                                0 <= r2 < 9 && 0 <= c2 < 9 && !(r2 == row as int && c2
                                    == col as int) ==> #[trigger] self.board@[r2][c2]
                                    == g1[r2][c2]
                        },
                    decreases 10 - value,
                {
                    proof {
                        use_type_invariant(&self.board);
                    }
                    let ghost pre = self.board@;
                    let _ = self.board.set_value(row, col, value);
                    proof {
                        assert(grid_wf(pre));
                        assert(self.board@ == set_cell(pre, row as int, col as int, value));
                        assert forall|r2: int, c2: int|
                            0 <= r2 < 9 && 0 <= c2 < 9 && !(r2 == row as int && c2
                                == col as int) implies #[trigger] self.board@[r2][c2]
                            == g1[r2][c2] by {
                            assert(self.board@[r2][c2] == pre[r2][c2]);
                        }
                        assert(self.board@[row as int][col as int] == value);
                    }
                    if self.board.is_legal().is_ok() {
                        self.history.push((row, col));
                        committed = true;
                    } else {
                        proof {
                            use_type_invariant(&self.board);
                            lemma_failed_candidate(g0, t1, g1, self.board@, cell, value);
                            assert forall|s: Seq<Seq<u8>>|
                                #[trigger] is_solution(g0, s) && prefix_match(
                                    s,
                                    t1,
                                    g1,
                                    t1.len() as int,
                                ) implies s[cell.0 as int][cell.1 as int] >= value + 1 by {}
                        }
                    }
                    value = value + 1;
                }
                if committed {
                    next_backtrack = false;
                    proof {
                        assert(self.trail() == t1.push(cell));
                        lemma_commit_step(t1, self.trail(), g0, g1, self.board@, cell);
                        lemma_commit_prune(t1, self.trail(), g0, g1, self.board@, cell);
                        use_type_invariant(&self.board);
                        let t2 = self.trail();
                        let g2 = self.board@;
                        lemma_digit_bounds(t0, g1, backtrack_needed);
                        lemma_digit_bounds(t2, g2, false);
                        lemma_trail_len_le(t0);
                        assert forall|m: int| 0 <= m < t1.len() implies #[trigger] t2[m]
                            == t1[m] by {
                            assert(t1.push(cell)[m] == t1[m]);
                        }
                        assert(t2[t1.len() as int] == cell) by {
                            assert(t1.push(cell)[t1.len() as int] == cell);
                        }
                        if backtrack_needed {
                            let p = t0.len() - 1;
                            assert(t0[p] == cell);
                            assert forall|m: int|
                                0 <= m < p implies #[trigger] state_digit(t2, g2, false, m)
                                == state_digit(t0, g1, backtrack_needed, m) by {
                                assert(t2[m] == t1[m] && t1[m] == t0[m]);
                                assert(pos_of(t1[m]) < pos_of(cell));
                                assert((t1[m]).0 as int != cell.0 as int || (t1[m]).1 as int
                                    != cell.1 as int);
                                assert(g2[(t1[m]).0 as int][(t1[m]).1 as int] == g1[(t1[m]).0 as int][(t1[m]).1 as int]);
                            }
                            assert(state_digit(t0, g1, backtrack_needed, p) == 10 - g1[cell.0 as int][cell.1 as int]);
                            assert(t2.len() == t0.len() && t2[p] == cell);
                            assert(state_digit(t2, g2, false, p) == 10 - g2[cell.0 as int][cell.1 as int]);
                            assert(g2[cell.0 as int][cell.1 as int] >= start);
                            lemma_weight_drop(t0, g1, backtrack_needed, t2, g2, false, p);
                        } else {
                            let p = t0.len() as int;
                            if t0.len() > 0 {
                                assert(pos_of(t0[t0.len() - 1]) < pos_of(cell));
                                assert(pos_of(cell) <= 80);
                            }
                            assert(p < 81);
                            assert forall|m: int|
                                0 <= m < p implies #[trigger] state_digit(t2, g2, false, m)
                                == state_digit(t0, g1, backtrack_needed, m) by {
                                assert(t2[m] == t1[m]);
                                assert(pos_of(t1[m]) < pos_of(cell));
                                assert((t1[m]).0 as int != cell.0 as int || (t1[m]).1 as int
                                    != cell.1 as int);
                                assert(g2[(t1[m]).0 as int][(t1[m]).1 as int] == g1[(t1[m]).0 as int][(t1[m]).1 as int]);
                            }
                            assert(state_digit(t0, g1, backtrack_needed, p) == 10);
                            assert(t2[p] == cell);
                            assert(state_digit(t2, g2, false, p) == 10 - g2[cell.0 as int][cell.1 as int]);
                            assert(1 <= g2[cell.0 as int][cell.1 as int]);
                            lemma_weight_drop(t0, g1, backtrack_needed, t2, g2, false, p);
                        }
                    }
                } else {
                    proof {
                        use_type_invariant(&self.board);
                    }
                    let ghost pre = self.board@;
                    let _ = self.board.set_value(row, col, 0);
                    next_backtrack = true;
                    proof {
                        assert(grid_wf(pre));
                        assert(self.board@ == set_cell(pre, row as int, col as int, 0u8));
                        assert forall|r2: int, c2: int|
                            0 <= r2 < 9 && 0 <= c2 < 9 && !(r2 == row as int && c2
                                == col as int) implies #[trigger] self.board@[r2][c2]
                            == g1[r2][c2] by {
                            assert(self.board@[r2][c2] == pre[r2][c2]);
                        }
                        assert(self.board@[row as int][col as int] == 0);
                        lemma_fail_step(t1, g0, g1, self.board@, cell);
                        lemma_fail_prune(t1, g0, g1, self.board@, cell);
                        use_type_invariant(&self.board);
                        let g2 = self.board@;
                        lemma_digit_bounds(t0, g1, backtrack_needed);
                        lemma_digit_bounds(t1, g2, true);
                        lemma_trail_len_le(t0);
                        if backtrack_needed {
                            let p = t0.len() - 1;
                            assert(t0[p] == cell);
                            assert forall|m: int|
                                0 <= m < p implies #[trigger] state_digit(t1, g2, true, m)
                                == state_digit(t0, g1, backtrack_needed, m) by {
                                assert(t1[m] == t0[m]);
                                assert(pos_of(t1[m]) < pos_of(cell));
                                assert((t1[m]).0 as int != cell.0 as int || (t1[m]).1 as int
                                    != cell.1 as int);
                                assert(g2[(t1[m]).0 as int][(t1[m]).1 as int] == g1[(t1[m]).0 as int][(t1[m]).1 as int]);
                            }
                            assert(state_digit(t0, g1, backtrack_needed, p) == 10 - g1[cell.0 as int][cell.1 as int]);
                            assert(g1[cell.0 as int][cell.1 as int] != 0);
                            assert(t1.len() == p);
                            assert(state_digit(t1, g2, true, p) == 0);
                            lemma_weight_drop(t0, g1, backtrack_needed, t1, g2, true, p);
                        } else {
                            let p = t0.len() as int;
                            if t0.len() > 0 {
                                assert(pos_of(t0[t0.len() - 1]) < pos_of(cell));
                                assert(pos_of(cell) <= 80);
                            }
                            assert(p < 81);
                            assert forall|m: int|
                                0 <= m < p implies #[trigger] state_digit(t1, g2, true, m)
                                == state_digit(t0, g1, backtrack_needed, m) by {
                                assert(t1[m] == t0[m]);
                                assert(pos_of(t1[m]) < pos_of(cell));
                                assert((t1[m]).0 as int != cell.0 as int || (t1[m]).1 as int
                                    != cell.1 as int);
                                assert(g2[(t1[m]).0 as int][(t1[m]).1 as int] == g1[(t1[m]).0 as int][(t1[m]).1 as int]);
                            }
                            assert(state_digit(t0, g1, backtrack_needed, p) == 10);
                            assert(state_digit(t1, g2, true, p) == 0);
                            lemma_weight_drop(t0, g1, backtrack_needed, t1, g2, true, p);
                        }
                    }
                }
                return StepOutcome::Continue(next_backtrack);
            },
        }
    }

    /// Run the backtracking search with a cooperative step budget, polled
    /// once per search step, so that a caller can bound the work done on a
    /// pathological input. The outcomes promise what `solve`'s do, except
    /// that exhausting the budget may preempt the search; a budget error
    /// only arises on an input that passed the lenient check, and even then
    /// every initial clue survives on the board.
    pub fn solve_with_budget(&mut self, max_steps: u64) -> (r: Result<(), SolveError>)
        requires
            old(self).trail().len() == 0,
        ensures
            r == Err::<(), SolveError>(SolveError::InvalidInput) <==> !(board_check(old(self).grid(), true) is Ok),
            r == Err::<(), SolveError>(SolveError::InvalidInput) ==> final(self).grid() == old(self).grid()
                && final(self).trail() == old(self).trail(),
            r is Ok ==> board_check(final(self).grid(), false) is Ok,
            r is Ok ==> is_solution(old(self).grid(), final(self).grid()),
            r is Ok ==> (forall|s: Seq<Seq<u8>>|
                #[trigger] is_solution(old(self).grid(), s) && s != final(self).grid()
                    ==> lex_before(final(self).grid(), s)),
            r == Err::<(), SolveError>(SolveError::Unsolvable) ==> final(self).grid() == old(self).grid()
                && final(self).trail() == old(self).trail(),
            r == Err::<(), SolveError>(SolveError::Unsolvable) ==> (forall|s: Seq<Seq<u8>>|
                !is_solution(old(self).grid(), s)),
            r == Err::<(), SolveError>(SolveError::BudgetExhausted) ==> board_check(
                old(self).grid(),
                true,
            ) is Ok,
            extends(old(self).grid(), final(self).grid()),
    {
        if let Err(_) = self.board.is_legal() {
            return Err(SolveError::InvalidInput);
        }
        let ghost g0 = self.board@;
        proof {
            use_type_invariant(&self.board);
        }
        let mut backtrack_needed = false;
        let mut steps: u64 = 0;
        while steps < max_steps
            invariant
                g0 == old(self).grid(),
                old(self).trail().len() == 0,
                self.solving_inv(g0, backtrack_needed),
                steps <= max_steps,
            decreases max_steps - steps,
        {
            steps = steps + 1;
            match self.step(backtrack_needed, Ghost(g0)) {
                StepOutcome::Continue(next_backtrack) => {
                    backtrack_needed = next_backtrack;
                },
                StepOutcome::Solved => {
                    return Ok(());
                },
                StepOutcome::Exhausted => {
                    proof {
                        assert(self.trail() =~= old(self).trail());
                    }
                    return Err(SolveError::Unsolvable);
                },
            }
        }
        proof {
            lemma_tracks_extends(self.trail(), g0, self.board@);
        }
        Err(SolveError::BudgetExhausted)
    }

    /// Run the backtracking search to completion. The search is proved to
    /// terminate, so the outcomes partition the inputs: an input that fails
    /// the lenient check is rejected untouched; a legal input with a
    /// solution yields success, and the board then holds the row-major
    /// lexicographically least solution; a legal input with no solution is
    /// reported unsolvable with the board restored.
    pub fn solve(&mut self) -> (r: Result<(), SolveError>)
        requires
            old(self).trail().len() == 0,
        ensures
            r == Err::<(), SolveError>(SolveError::InvalidInput) <==> !(board_check(old(self).grid(), true) is Ok),
            r == Err::<(), SolveError>(SolveError::InvalidInput) ==> final(self).grid() == old(self).grid()
                && final(self).trail() == old(self).trail(),
            r is Ok <==> (board_check(old(self).grid(), true) is Ok && (exists|s: Seq<Seq<u8>>|
                is_solution(old(self).grid(), s))),
            r is Ok ==> board_check(final(self).grid(), false) is Ok,
            r is Ok ==> is_solution(old(self).grid(), final(self).grid()),
            r is Ok ==> (forall|s: Seq<Seq<u8>>|
                #[trigger] is_solution(old(self).grid(), s) && s != final(self).grid()
                    ==> lex_before(final(self).grid(), s)),
            r == Err::<(), SolveError>(SolveError::Unsolvable) <==> (board_check(
                old(self).grid(),
                true,
            ) is Ok && !(exists|s: Seq<Seq<u8>>| is_solution(old(self).grid(), s))),
            r == Err::<(), SolveError>(SolveError::Unsolvable) ==> final(self).grid() == old(self).grid()
                && final(self).trail() == old(self).trail(),
            extends(old(self).grid(), final(self).grid()),
    {
        if let Err(_) = self.board.is_legal() {
            return Err(SolveError::InvalidInput);
        }
        let ghost g0 = self.board@;
        proof {
            use_type_invariant(&self.board);
        }
        let mut backtrack_needed = false;
        loop
            invariant
                g0 == old(self).grid(),
                old(self).trail().len() == 0,
                self.solving_inv(g0, backtrack_needed),
            decreases state_weight(self.trail(), self.board@, backtrack_needed),
        {
            match self.step(backtrack_needed, Ghost(g0)) {
                StepOutcome::Continue(next_backtrack) => {
                    backtrack_needed = next_backtrack;
                },
                StepOutcome::Solved => {
                    proof {
                        assert(is_solution(g0, self.board@));
                    }
                    return Ok(());
                },
                StepOutcome::Exhausted => {
                    proof {
                        assert(self.trail() =~= old(self).trail());
                    }
                    return Err(SolveError::Unsolvable);
                },
            }
        }
    }
}

/// The facts the candidate loop starts from, for both ways of arriving at a
/// target cell: the remaining trail keeps its shape, every committed cell
/// and the target itself were empty initially, and off the target cell the
/// board still tracks the remaining trail.
#[verifier::rlimit(100)]
proof fn lemma_target_facts(
    t0: Seq<(u8, u8)>,
    t1: Seq<(u8, u8)>,
    g0: Seq<Seq<u8>>,
    g1: Seq<Seq<u8>>,
    cell: (u8, u8),
    backtrack_needed: bool,
)
    requires
        trail_struct(t0, g1),
        trail_tracks(t0, g0, g1),
        cell.0 <= 8 && cell.1 <= 8,
        forall|k: int| 0 <= k < t1.len() ==> pos_of(#[trigger] t1[k]) < pos_of(cell),
        if backtrack_needed {
            &&& t0.len() > 0
            &&& t1 == t0.drop_last()
            &&& cell == t0[t0.len() - 1]
        } else {
            &&& t1 == t0
            &&& g1[cell.0 as int][cell.1 as int] == 0
        },
    ensures
        trail_struct(t1, g1),
        forall|k: int|
            0 <= k < t1.len() ==> g0[(#[trigger] t1[k]).0 as int][t1[k].1 as int] == 0,
        g0[cell.0 as int][cell.1 as int] == 0,
        forall|r2: int, c2: int|
            0 <= r2 < 9 && 0 <= c2 < 9 && !(r2 == cell.0 as int && c2 == cell.1 as int)
                && #[trigger] g1[r2][c2] != g0[r2][c2] ==> trail_contains(t1, r2, c2),
{
    if backtrack_needed {
        assert(t1 =~= t0.drop_last());
        assert forall|k: int| 0 <= k < t1.len() implies (#[trigger] t1[k]).0 <= 8 && t1[k].1 <= 8
            && g1[t1[k].0 as int][t1[k].1 as int] != 0 && g0[t1[k].0 as int][t1[k].1 as int]
            == 0 by {
            assert(t1[k] == t0[k]);
        }
        assert forall|k: int| 0 <= k && k + 1 < t1.len() implies pos_of(#[trigger] t1[k]) < pos_of(
            t1[k + 1],
        ) by {
            assert(t1[k] == t0[k] && t1[k + 1] == t0[k + 1]);
        }
        assert(g0[cell.0 as int][cell.1 as int] == 0);
    } else {
        if g1[cell.0 as int][cell.1 as int] != g0[cell.0 as int][cell.1 as int] {
            assert(trail_contains(t1, cell.0 as int, cell.1 as int));
            let k = choose|k: int|
                0 <= k < t1.len() && (#[trigger] t1[k]).0 as int == cell.0 as int && t1[k].1 as int
                    == cell.1 as int;
            assert(g1[t1[k].0 as int][t1[k].1 as int] != 0);
        }
    }
    assert forall|r2: int, c2: int|
        0 <= r2 < 9 && 0 <= c2 < 9 && !(r2 == cell.0 as int && c2 == cell.1 as int)
            && #[trigger] g1[r2][c2] != g0[r2][c2] implies trail_contains(t1, r2, c2) by {
        assert(trail_contains(t0, r2, c2));
        let k = choose|k: int|
            0 <= k < t0.len() && (#[trigger] t0[k]).0 as int == r2 && t0[k].1 as int == c2;
        if backtrack_needed {
            assert(t0[k] != cell);
            assert(k < t0.len() - 1);
            assert(t1[k] == t0[k]);
        }
    }
}

/// Re-establish the search invariant after a successful commit: the trail
/// grows by the target cell, which now holds a digit.
proof fn lemma_commit_step(
    t1: Seq<(u8, u8)>,
    t2: Seq<(u8, u8)>,
    g0: Seq<Seq<u8>>,
    g1: Seq<Seq<u8>>,
    g2: Seq<Seq<u8>>,
    cell: (u8, u8),
)
    requires
        cell.0 <= 8 && cell.1 <= 8,
        trail_struct(t1, g1),
        forall|k: int| 0 <= k < t1.len() ==> pos_of(#[trigger] t1[k]) < pos_of(cell),
        forall|k: int|
            0 <= k < t1.len() ==> g0[(#[trigger] t1[k]).0 as int][t1[k].1 as int] == 0,
        forall|r2: int, c2: int|
            0 <= r2 < 9 && 0 <= c2 < 9 && cell_pos(r2, c2) < pos_of(cell) ==> #[trigger] g1[r2][c2]
                != 0,
        g0[cell.0 as int][cell.1 as int] == 0,
        forall|r2: int, c2: int|
            0 <= r2 < 9 && 0 <= c2 < 9 && !(r2 == cell.0 as int && c2 == cell.1 as int)
                && #[trigger] g1[r2][c2] != g0[r2][c2] ==> trail_contains(t1, r2, c2),
        t2 == t1.push(cell),
        1 <= g2[cell.0 as int][cell.1 as int] <= 9,
        forall|r2: int, c2: int|
            0 <= r2 < 9 && 0 <= c2 < 9 && !(r2 == cell.0 as int && c2 == cell.1 as int)
                ==> #[trigger] g2[r2][c2] == g1[r2][c2],
    ensures
        trail_struct(t2, g2),
        trail_covers(t2, g2),
        trail_tracks(t2, g0, g2),
{
    assert(t2.len() == t1.len() + 1);
    assert forall|i: int| 0 <= i < t1.len() implies #[trigger] t2[i] == t1[i] by {
        assert(t1.push(cell)[i] == t1[i]);
    }
    assert(t2[t1.len() as int] == cell) by {
        assert(t1.push(cell)[t1.len() as int] == cell);
    }
    assert forall|k: int| 0 <= k < t2.len() implies (#[trigger] t2[k]).0 <= 8 && t2[k].1 <= 8
        && g2[t2[k].0 as int][t2[k].1 as int] != 0 && g0[t2[k].0 as int][t2[k].1 as int] == 0 by {
        if k < t1.len() {
            assert(t2[k] == t1[k]);
            assert(pos_of(t1[k]) < pos_of(cell));
            assert(t1[k].0 as int != cell.0 as int || t1[k].1 as int != cell.1 as int);
            assert(g2[t1[k].0 as int][t1[k].1 as int] == g1[t1[k].0 as int][t1[k].1 as int]);
        } else {
            assert(t2[k] == cell);
        }
    }
    assert forall|k: int| 0 <= k && k + 1 < t2.len() implies pos_of(#[trigger] t2[k]) < pos_of(
        t2[k + 1],
    ) by {
        if k + 1 < t1.len() {
            assert(t2[k] == t1[k] && t2[k + 1] == t1[k + 1]);
        } else {
            assert(t2[k] == t1[k] && t2[k + 1] == cell);
        }
    }
    assert(trail_struct(t2, g2));
    assert(t2[t2.len() - 1] == cell);
    assert forall|r2: int, c2: int|
        0 <= r2 < 9 && 0 <= c2 < 9 && cell_pos(r2, c2) <= pos_of(t2[t2.len() - 1])
    implies #[trigger] g2[r2][c2] != 0 by {
        if cell_pos(r2, c2) < pos_of(cell) {
            assert(r2 != cell.0 as int || c2 != cell.1 as int);
            assert(g2[r2][c2] == g1[r2][c2]);
        } else {
            assert(r2 == cell.0 as int && c2 == cell.1 as int);
        }
    }
    assert(trail_covers(t2, g2));
    assert forall|r2: int, c2: int|
        0 <= r2 < 9 && 0 <= c2 < 9 && #[trigger] g2[r2][c2] != g0[r2][c2] implies trail_contains(
        t2,
        r2,
        c2,
    ) by {
        if r2 == cell.0 as int && c2 == cell.1 as int {
            assert((#[trigger] t2[t2.len() - 1]).0 as int == r2 && t2[t2.len() - 1].1 as int
                == c2);
        } else {
            assert(g2[r2][c2] == g1[r2][c2]);
            assert(trail_contains(t1, r2, c2));
            let k = choose|k: int|
                0 <= k < t1.len() && (#[trigger] t1[k]).0 as int == r2 && t1[k].1 as int == c2;
            assert(t2[k] == t1[k]);
        }
    }
    assert(trail_tracks(t2, g0, g2));
}

/// Re-establish the search invariant after a dead end: the target cell is
/// cleared back to empty and the trail is unchanged.
proof fn lemma_fail_step(
    t1: Seq<(u8, u8)>,
    g0: Seq<Seq<u8>>,
    g1: Seq<Seq<u8>>,
    g2: Seq<Seq<u8>>,
    cell: (u8, u8),
)
    requires
        cell.0 <= 8 && cell.1 <= 8,
        trail_struct(t1, g1),
        forall|k: int| 0 <= k < t1.len() ==> pos_of(#[trigger] t1[k]) < pos_of(cell),
        forall|k: int|
            0 <= k < t1.len() ==> g0[(#[trigger] t1[k]).0 as int][t1[k].1 as int] == 0,
        forall|r2: int, c2: int|
            0 <= r2 < 9 && 0 <= c2 < 9 && cell_pos(r2, c2) < pos_of(cell) ==> #[trigger] g1[r2][c2]
                != 0,
        g0[cell.0 as int][cell.1 as int] == 0,
        forall|r2: int, c2: int|
            0 <= r2 < 9 && 0 <= c2 < 9 && !(r2 == cell.0 as int && c2 == cell.1 as int)
                && #[trigger] g1[r2][c2] != g0[r2][c2] ==> trail_contains(t1, r2, c2),
        g2[cell.0 as int][cell.1 as int] == 0,
        forall|r2: int, c2: int|
            0 <= r2 < 9 && 0 <= c2 < 9 && !(r2 == cell.0 as int && c2 == cell.1 as int)
                ==> #[trigger] g2[r2][c2] == g1[r2][c2],
    ensures
        trail_struct(t1, g2),
        trail_covers(t1, g2),
        trail_tracks(t1, g0, g2),
{
    assert forall|k: int| 0 <= k < t1.len() implies g2[(#[trigger] t1[k]).0 as int][t1[k].1 as int]
        != 0 by {
        assert(pos_of(t1[k]) < pos_of(cell));
        assert(t1[k].0 as int != cell.0 as int || t1[k].1 as int != cell.1 as int);
    }
    assert(trail_struct(t1, g2));
    if t1.len() > 0 {
        assert forall|r2: int, c2: int|
            0 <= r2 < 9 && 0 <= c2 < 9 && cell_pos(r2, c2) <= pos_of(t1[t1.len() - 1])
        implies #[trigger] g2[r2][c2] != 0 by {
            assert(pos_of(t1[t1.len() - 1]) < pos_of(cell));
            assert(r2 != cell.0 as int || c2 != cell.1 as int);
            assert(g2[r2][c2] == g1[r2][c2]);
        }
    }
    assert(trail_covers(t1, g2));
    assert forall|r2: int, c2: int|
        0 <= r2 < 9 && 0 <= c2 < 9 && #[trigger] g2[r2][c2] != g0[r2][c2] implies trail_contains(
        t1,
        r2,
        c2,
    ) by {
        assert(r2 != cell.0 as int || c2 != cell.1 as int);
        assert(g2[r2][c2] == g1[r2][c2]);
    }
    assert(trail_tracks(t1, g0, g2));
}

/// Matching a prefix does not depend on which grid supplies the committed
/// values, as long as both grids agree on the prefix cells.
proof fn lemma_prefix_transfer(
    s: Seq<Seq<u8>>,
    t: Seq<(u8, u8)>,
    ga: Seq<Seq<u8>>,
    gb: Seq<Seq<u8>>,
    j: int,
)
    requires
        forall|m: int|
            0 <= m < j ==> ga[(#[trigger] t[m]).0 as int][t[m].1 as int] == gb[t[m].0 as int][t[m].1 as int],
    ensures
        prefix_match(s, t, ga, j) == prefix_match(s, t, gb, j),
{
    if prefix_match(s, t, ga, j) {
        assert forall|m: int| 0 <= m < j implies s[(#[trigger] t[m]).0 as int][t[m].1 as int]
            == gb[t[m].0 as int][t[m].1 as int] by {}
    }
    if prefix_match(s, t, gb, j) {
        assert forall|m: int| 0 <= m < j implies s[(#[trigger] t[m]).0 as int][t[m].1 as int]
            == ga[t[m].0 as int][t[m].1 as int] by {}
    }
}

/// Matching a prefix does not depend on which trail supplies the cells, as
/// long as both trails agree on the first `j` entries.
proof fn lemma_prefix_same_cells(
    s: Seq<Seq<u8>>,
    ta: Seq<(u8, u8)>,
    tb: Seq<(u8, u8)>,
    g: Seq<Seq<u8>>,
    j: int,
)
    requires
        forall|m: int| 0 <= m < j ==> #[trigger] ta[m] == tb[m],
    ensures
        prefix_match(s, ta, g, j) == prefix_match(s, tb, g, j),
{
    if prefix_match(s, ta, g, j) {
        assert forall|m: int| 0 <= m < j implies s[(#[trigger] tb[m]).0 as int][tb[m].1 as int]
            == g[tb[m].0 as int][tb[m].1 as int] by {
            assert(ta[m] == tb[m]);
        }
    }
    if prefix_match(s, tb, g, j) {
        assert forall|m: int| 0 <= m < j implies s[(#[trigger] ta[m]).0 as int][ta[m].1 as int]
            == g[ta[m].0 as int][ta[m].1 as int] by {
            assert(ta[m] == tb[m]);
        }
    }
}

/// A candidate value that makes the board illegal appears in no solution
/// that agrees with the commits: an illegal partial grid cannot be
/// completed, and every such solution would complete it.
proof fn lemma_failed_candidate(
    g0: Seq<Seq<u8>>,
    t1: Seq<(u8, u8)>,
    g1: Seq<Seq<u8>>,
    gc: Seq<Seq<u8>>,
    cell: (u8, u8),
    v: u8,
)
    requires
        grid_wf(g1),
        grid_wf(gc),
        cell.0 <= 8 && cell.1 <= 8,
        1 <= v <= 9,
        gc[cell.0 as int][cell.1 as int] == v,
        forall|r2: int, c2: int|
            0 <= r2 < 9 && 0 <= c2 < 9 && !(r2 == cell.0 as int && c2 == cell.1 as int)
                ==> #[trigger] gc[r2][c2] == g1[r2][c2],
        forall|r2: int, c2: int|
            0 <= r2 < 9 && 0 <= c2 < 9 && !(r2 == cell.0 as int && c2 == cell.1 as int)
                && #[trigger] g1[r2][c2] != g0[r2][c2] ==> trail_contains(t1, r2, c2),
        forall|k: int| 0 <= k < t1.len() ==> (#[trigger] t1[k]).0 <= 8 && t1[k].1 <= 8,
        !(board_check(gc, true) is Ok),
    ensures
        forall|s: Seq<Seq<u8>>|
            #[trigger] is_solution(g0, s) && prefix_match(s, t1, g1, t1.len() as int)
                ==> s[cell.0 as int][cell.1 as int] != v,
{
    assert forall|s: Seq<Seq<u8>>|
        #[trigger] is_solution(g0, s) && prefix_match(s, t1, g1, t1.len() as int)
    implies s[cell.0 as int][cell.1 as int] != v by {
        if s[cell.0 as int][cell.1 as int] == v {
            assert forall|r2: int, c2: int|
                0 <= r2 < 9 && 0 <= c2 < 9 && #[trigger] gc[r2][c2] != 0 implies s[r2][c2]
                == gc[r2][c2] by {
                if r2 == cell.0 as int && c2 == cell.1 as int {
                } else {
                    assert(gc[r2][c2] == g1[r2][c2]);
                    if g1[r2][c2] == g0[r2][c2] {
                        assert(g0[r2][c2] != 0);
                        assert(s[r2][c2] == g0[r2][c2]);
                    } else {
                        assert(trail_contains(t1, r2, c2));
                        let k = choose|k: int|
                            0 <= k < t1.len() && (#[trigger] t1[k]).0 as int == r2
                                && t1[k].1 as int == c2;
                        assert(s[(t1[k]).0 as int][t1[k].1 as int] == g1[(t1[k]).0 as int][t1[k].1 as int]);
                    }
                }
            }
            lemma_illegal_partial_not_completable(gc, s);
            assert(false);
        }
    }
}

/// Carry the pruning facts across the arrival at a target cell: on a fresh
/// cell no candidate below 1 exists; on a backtrack the popped value and
/// everything below it are already ruled out, so the search resumes one
/// above it without skipping or repeating a candidate.
proof fn lemma_target_prune(
    t0: Seq<(u8, u8)>,
    t1: Seq<(u8, u8)>,
    g0: Seq<Seq<u8>>,
    g1: Seq<Seq<u8>>,
    cell: (u8, u8),
    start: u8,
    backtrack_needed: bool,
)
    requires
        grid_wf(g1),
        cell.0 <= 8 && cell.1 <= 8,
        no_lower_branch(g0, t0, g1),
        backtrack_needed ==> no_full_match(g0, t0, g1),
        if backtrack_needed {
            &&& t0.len() > 0
            &&& t1 == t0.drop_last()
            &&& cell == t0[t0.len() - 1]
            &&& start == g1[cell.0 as int][cell.1 as int] + 1
        } else {
            &&& t1 == t0
            &&& start == 1
        },
    ensures
        no_lower_branch(g0, t1, g1),
        no_candidate_below(g0, t1, g1, cell, start),
{
    if backtrack_needed {
        let k = t1.len() as int;
        assert forall|s: Seq<Seq<u8>>, j: int|
            is_solution(g0, s) && 0 <= j < t1.len() && #[trigger] prefix_match(s, t1, g1, j)
        implies s[(t1[j]).0 as int][t1[j].1 as int] >= g1[(t1[j]).0 as int][t1[j].1 as int] by {
            lemma_prefix_same_cells(s, t1, t0, g1, j);
            assert(prefix_match(s, t0, g1, j));
            assert(t1[j] == t0[j]);
        }
        assert forall|s: Seq<Seq<u8>>|
            #[trigger] is_solution(g0, s) && prefix_match(s, t1, g1, k)
        implies s[cell.0 as int][cell.1 as int] >= start by {
            lemma_prefix_same_cells(s, t1, t0, g1, k);
            assert(prefix_match(s, t0, g1, k));
            let v_old = g1[cell.0 as int][cell.1 as int];
            if s[cell.0 as int][cell.1 as int] < v_old {
                assert(t0[k] == cell);
                assert(s[(t0[k]).0 as int][t0[k].1 as int] >= g1[(t0[k]).0 as int][t0[k].1 as int]);
            } else if s[cell.0 as int][cell.1 as int] == v_old {
                assert forall|m: int| 0 <= m < t0.len() implies s[(#[trigger] t0[m]).0 as int][t0[m].1 as int]
                    == g1[t0[m].0 as int][t0[m].1 as int] by {
                    if m < k {
                        assert(prefix_match(s, t0, g1, k));
                    } else {
                        assert(t0[m] == cell);
                    }
                }
                assert(prefix_match(s, t0, g1, t0.len() as int));
                assert(false);
            }
        }
    } else {
        assert forall|s: Seq<Seq<u8>>|
            #[trigger] is_solution(g0, s) && prefix_match(s, t1, g1, t1.len() as int)
        implies s[cell.0 as int][cell.1 as int] >= start by {
            assert(s[cell.0 as int][cell.1 as int] != 0);
        }
    }
}

/// Carry the pruning facts across a successful commit: the new trail keeps
/// every branch bound, and the committed value carries the bound for the
/// target cell.
proof fn lemma_commit_prune(
    t1: Seq<(u8, u8)>,
    t2: Seq<(u8, u8)>,
    g0: Seq<Seq<u8>>,
    g1: Seq<Seq<u8>>,
    g2: Seq<Seq<u8>>,
    cell: (u8, u8),
)
    requires
        cell.0 <= 8 && cell.1 <= 8,
        forall|k: int| 0 <= k < t1.len() ==> (#[trigger] t1[k]).0 <= 8 && t1[k].1 <= 8,
        forall|k: int| 0 <= k < t1.len() ==> pos_of(#[trigger] t1[k]) < pos_of(cell),
        no_lower_branch(g0, t1, g1),
        no_candidate_below(g0, t1, g1, cell, g2[cell.0 as int][cell.1 as int]),
        t2 == t1.push(cell),
        forall|r2: int, c2: int|
            0 <= r2 < 9 && 0 <= c2 < 9 && !(r2 == cell.0 as int && c2 == cell.1 as int)
                ==> #[trigger] g2[r2][c2] == g1[r2][c2],
    ensures
        no_lower_branch(g0, t2, g2),
{
    assert(t2.len() == t1.len() + 1);
    assert forall|i: int| 0 <= i < t1.len() implies #[trigger] t2[i] == t1[i] by {
        assert(t1.push(cell)[i] == t1[i]);
    }
    assert(t2[t1.len() as int] == cell) by {
        assert(t1.push(cell)[t1.len() as int] == cell);
    }
    assert forall|m: int|
        0 <= m < t1.len() implies g2[(#[trigger] t1[m]).0 as int][t1[m].1 as int]
        == g1[t1[m].0 as int][t1[m].1 as int] by {
        assert(pos_of(t1[m]) < pos_of(cell));
        assert(t1[m].0 as int != cell.0 as int || t1[m].1 as int != cell.1 as int);
    }
    assert forall|s: Seq<Seq<u8>>, j: int|
        is_solution(g0, s) && 0 <= j < t2.len() && #[trigger] prefix_match(s, t2, g2, j)
    implies s[(t2[j]).0 as int][t2[j].1 as int] >= g2[(t2[j]).0 as int][t2[j].1 as int] by {
        lemma_prefix_same_cells(s, t2, t1, g2, j);
        lemma_prefix_transfer(s, t1, g2, g1, j);
        assert(prefix_match(s, t1, g1, j));
        if j < t1.len() {
            assert(t2[j] == t1[j]);
            assert(s[(t1[j]).0 as int][t1[j].1 as int] >= g1[(t1[j]).0 as int][t1[j].1 as int]);
            assert(g2[(t1[j]).0 as int][t1[j].1 as int] == g1[(t1[j]).0 as int][t1[j].1 as int]);
        } else {
            assert(j == t1.len());
            assert(t2[j] == cell);
            assert(s[cell.0 as int][cell.1 as int] >= g2[cell.0 as int][cell.1 as int]);
        }
    }
}

/// Carry the pruning facts across a dead end: with every candidate at the
/// target cell ruled out, no solution matches the full trail at all.
proof fn lemma_fail_prune(
    t1: Seq<(u8, u8)>,
    g0: Seq<Seq<u8>>,
    g1: Seq<Seq<u8>>,
    g2: Seq<Seq<u8>>,
    cell: (u8, u8),
)
    requires
        cell.0 <= 8 && cell.1 <= 8,
        forall|k: int| 0 <= k < t1.len() ==> (#[trigger] t1[k]).0 <= 8 && t1[k].1 <= 8,
        forall|k: int| 0 <= k < t1.len() ==> pos_of(#[trigger] t1[k]) < pos_of(cell),
        no_lower_branch(g0, t1, g1),
        no_candidate_below(g0, t1, g1, cell, 10),
        forall|r2: int, c2: int|
            0 <= r2 < 9 && 0 <= c2 < 9 && !(r2 == cell.0 as int && c2 == cell.1 as int)
                ==> #[trigger] g2[r2][c2] == g1[r2][c2],
    ensures
        no_lower_branch(g0, t1, g2),
        no_full_match(g0, t1, g2),
{
    assert forall|m: int|
        0 <= m < t1.len() implies g2[(#[trigger] t1[m]).0 as int][t1[m].1 as int]
        == g1[t1[m].0 as int][t1[m].1 as int] by {
        assert(pos_of(t1[m]) < pos_of(cell));
        assert(t1[m].0 as int != cell.0 as int || t1[m].1 as int != cell.1 as int);
    }
    assert forall|s: Seq<Seq<u8>>, j: int|
        is_solution(g0, s) && 0 <= j < t1.len() && #[trigger] prefix_match(s, t1, g2, j)
    implies s[(t1[j]).0 as int][t1[j].1 as int] >= g2[(t1[j]).0 as int][t1[j].1 as int] by {
        lemma_prefix_transfer(s, t1, g2, g1, j);
        assert(prefix_match(s, t1, g1, j));
        assert(g2[(t1[j]).0 as int][t1[j].1 as int] == g1[(t1[j]).0 as int][t1[j].1 as int]);
    }
    assert forall|s: Seq<Seq<u8>>| #[trigger] is_solution(g0, s) implies !prefix_match(
        s,
        t1,
        g2,
        t1.len() as int,
    ) by {
        if prefix_match(s, t1, g2, t1.len() as int) {
            lemma_prefix_transfer(s, t1, g2, g1, t1.len() as int);
            assert(prefix_match(s, t1, g1, t1.len() as int));
            assert(s[cell.0 as int][cell.1 as int] >= 10);
            assert(s[cell.0 as int][cell.1 as int] <= 9);
            assert(false);
        }
    }
}

/// A grid that differs from the initial one only on trail cells, all of them
/// initially empty, keeps every initial clue.
proof fn lemma_tracks_extends(t: Seq<(u8, u8)>, g0: Seq<Seq<u8>>, g: Seq<Seq<u8>>)
    requires
        trail_tracks(t, g0, g),
    ensures
        extends(g0, g),
{
    assert forall|r: int, c: int|
        0 <= r < 9 && 0 <= c < 9 && #[trigger] g0[r][c] != 0 implies g[r][c] == g0[r][c] by {
        if g[r][c] != g0[r][c] {
            assert(trail_contains(t, r, c));
            let k = choose|k: int|
                0 <= k < t.len() && (#[trigger] t[k]).0 as int == r && t[k].1 as int == c;
            assert(g0[t[k].0 as int][t[k].1 as int] == 0);
        }
    }
}

/// In a trail whose positions ascend step by step, every earlier entry sits
/// at a strictly smaller position than every later one.
proof fn lemma_trail_pos_monotone(t: Seq<(u8, u8)>, k1: int, k2: int)
    requires
        forall|k: int| 0 <= k && k + 1 < t.len() ==> pos_of(#[trigger] t[k]) < pos_of(t[k + 1]),
        0 <= k1 < k2 < t.len(),
    ensures
        pos_of(t[k1]) < pos_of(t[k2]),
    decreases k2 - k1,
{
    if k1 + 1 < k2 {
        lemma_trail_pos_monotone(t, k1 + 1, k2);
    }
}

} // verus!
