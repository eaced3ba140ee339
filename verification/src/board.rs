//! The 9x9 board: bounded cell access and the two legality-checking modes.

use vstd::prelude::*;

verus! {

/// The reason a single unit (a row, a column, or a 3x3 section) is not legal.
#[derive(Debug, Clone, Copy, PartialEq, Eq, Structural)]
pub enum InvalidUnit {
    /// The unit contains this value more than once.
    Duplicate(u8),
    /// The unit contains an empty cell (only reported by the strict check).
    Empty,
}

/// The first violation found on the board: the kind of unit, its index, and
/// the reason that unit is not legal.
#[derive(Debug, Clone, Copy, PartialEq, Eq, Structural)]
pub enum InvalidBoard {
    Row(u8, InvalidUnit),
    Column(u8, InvalidUnit),
    Section(u8, InvalidUnit),
}

/// An out-of-domain argument to `set_value`: the first offending argument,
/// checked in the order row, column, value.
#[derive(Debug, Clone, Copy, PartialEq, Eq, Structural)]
pub enum SetError {
    Row,
    Col,
    Value,
}

/// The mathematical view of a raw 9x9 matrix of cells.
pub open spec fn grid_view(grid: [[u8; 9]; 9]) -> Seq<Seq<u8>> {
    Seq::new(9, |r: int| grid@[r]@)
}

/// The view of the empty board: 9 rows of 9 empty (zero) cells.
pub open spec fn empty_grid() -> Seq<Seq<u8>> {
    Seq::new(9, |r: int| Seq::new(9, |c: int| 0u8))
}

/// A well-formed grid view: 9 rows of 9 cells, every cell in 0..=9.
pub open spec fn grid_wf(g: Seq<Seq<u8>>) -> bool {
    &&& g.len() == 9
    &&& forall|r: int| 0 <= r < 9 ==> (#[trigger] g[r]).len() == 9
    &&& forall|r: int, c: int| 0 <= r < 9 && 0 <= c < 9 ==> #[trigger] g[r][c] <= 9
}

/// The view `g` with the cell at `(r, c)` overwritten by `v`.
pub open spec fn set_cell(g: Seq<Seq<u8>>, r: int, c: int, v: u8) -> Seq<Seq<u8>> {
    g.update(r, g[r].update(c, v))
}

/// The row with index `i`: the sequence of its 9 cells, left to right.
pub open spec fn row_of(g: Seq<Seq<u8>>, i: int) -> Seq<u8> {
    g[i]
}

/// The column with index `i`: the sequence of its 9 cells, top to bottom.
pub open spec fn col_of(g: Seq<Seq<u8>>, i: int) -> Seq<u8> {
    Seq::new(9, |r: int| g[r][i])
}

/// The 3x3 section with index `i` (sections numbered left to right, top to
/// bottom), scanned cell by cell in the same order.
pub open spec fn section_of(g: Seq<Seq<u8>>, i: int) -> Seq<u8> {
    Seq::new(9, |k: int| g[3 * (i / 3) + k / 3][3 * (i % 3) + k % 3])
}

/// The check of one unit, scanning cells from index `i` upward: the first
/// violation wins. An empty cell is a violation unless `skip_empty_check`;
/// a repeated non-zero value is always one. Empty cells never count as
/// duplicates.
pub open spec fn unit_check_from(u: Seq<u8>, skip_empty_check: bool, i: int) -> Result<
    (),
    InvalidUnit,
>
    decreases u.len() - i,
{
    if i < 0 || i >= u.len() {
        Ok(())
    } else if !skip_empty_check && u[i] == 0 {
        Err(InvalidUnit::Empty)
    } else if u[i] != 0 && (exists|j: int| 0 <= j < i && u[j] == u[i]) {
        Err(InvalidUnit::Duplicate(u[i]))
    } else {
        unit_check_from(u, skip_empty_check, i + 1)
    }
}

/// The check of one whole unit: the first violation in scan order, if any.
pub open spec fn unit_check(u: Seq<u8>, skip_empty_check: bool) -> Result<(), InvalidUnit> {
    unit_check_from(u, skip_empty_check, 0)
}

/// A unit is leniently legal when no non-zero value occurs twice in it;
/// empty cells are wildcards and conflict with nothing.
pub open spec fn unit_lenient_ok(u: Seq<u8>) -> bool {
    forall|i: int, j: int|
        0 <= i < j < u.len() ==> (#[trigger] u[i] == 0 || u[i] != #[trigger] u[j])
}

/// A unit is strictly legal when it is leniently legal and fully filled.
pub open spec fn unit_strict_ok(u: Seq<u8>) -> bool {
    &&& forall|i: int| 0 <= i < u.len() ==> #[trigger] u[i] != 0
    &&& unit_lenient_ok(u)
}

/// The scan of the 9 rows from index `i` upward.
pub open spec fn rows_check_from(g: Seq<Seq<u8>>, skip_empty_check: bool, i: int) -> Result<
    (),
    InvalidBoard,
>
    decreases 9 - i,
{
    if i < 0 || i >= 9 {
        Ok(())
    } else {
        match unit_check(row_of(g, i), skip_empty_check) {
            Err(e) => Err(InvalidBoard::Row(i as u8, e)),
            Ok(_) => rows_check_from(g, skip_empty_check, i + 1),
        }
    }
}

/// The scan of the 9 columns from index `i` upward.
pub open spec fn cols_check_from(g: Seq<Seq<u8>>, skip_empty_check: bool, i: int) -> Result<
    (),
    InvalidBoard,
>
    decreases 9 - i,
{
    if i < 0 || i >= 9 {
        Ok(())
    } else {
        match unit_check(col_of(g, i), skip_empty_check) {
            Err(e) => Err(InvalidBoard::Column(i as u8, e)),
            Ok(_) => cols_check_from(g, skip_empty_check, i + 1),
        }
    }
}

/// The scan of the 9 sections from index `i` upward.
pub open spec fn sections_check_from(g: Seq<Seq<u8>>, skip_empty_check: bool, i: int) -> Result<
    (),
    InvalidBoard,
>
    decreases 9 - i,
{
    if i < 0 || i >= 9 {
        Ok(())
    } else {
        match unit_check(section_of(g, i), skip_empty_check) {
            Err(e) => Err(InvalidBoard::Section(i as u8, e)),
            Ok(_) => sections_check_from(g, skip_empty_check, i + 1),
        }
    }
}

/// The legality check of the whole board: rows first, then columns, then
/// sections, each in increasing index order; the first violation wins.
pub open spec fn board_check(g: Seq<Seq<u8>>, skip_empty_check: bool) -> Result<
    (),
    InvalidBoard,
> {
    match rows_check_from(g, skip_empty_check, 0) {
        Err(e) => Err(e),
        Ok(_) => match cols_check_from(g, skip_empty_check, 0) {
            Err(e) => Err(e),
            Ok(_) => sections_check_from(g, skip_empty_check, 0),
        },
    }
}

/// Every row, column and section is leniently legal.
pub open spec fn board_lenient_ok(g: Seq<Seq<u8>>) -> bool {
    &&& forall|i: int| 0 <= i < 9 ==> unit_lenient_ok(#[trigger] row_of(g, i))
    &&& forall|i: int| 0 <= i < 9 ==> unit_lenient_ok(#[trigger] col_of(g, i))
    &&& forall|i: int| 0 <= i < 9 ==> unit_lenient_ok(#[trigger] section_of(g, i))
}

/// Every row, column and section is strictly legal: the board is solved.
pub open spec fn board_strict_ok(g: Seq<Seq<u8>>) -> bool {
    &&& forall|i: int| 0 <= i < 9 ==> unit_strict_ok(#[trigger] row_of(g, i))
    &&& forall|i: int| 0 <= i < 9 ==> unit_strict_ok(#[trigger] col_of(g, i))
    &&& forall|i: int| 0 <= i < 9 ==> unit_strict_ok(#[trigger] section_of(g, i))
}

/// No cell of the board is empty.
pub open spec fn board_full(g: Seq<Seq<u8>>) -> bool {
    forall|r: int, c: int| 0 <= r < 9 && 0 <= c < 9 ==> #[trigger] g[r][c] != 0
}

/// The two characters a cell is rendered as: its digit, or a dot when
/// empty, followed by a space.
pub open spec fn cell_chars(v: u8) -> Seq<char> {
    if v == 1 {
        "1 "@
    } else if v == 2 {
        "2 "@
    } else if v == 3 {
        "3 "@
    } else if v == 4 {
        "4 "@
    } else if v == 5 {
        "5 "@
    } else if v == 6 {
        "6 "@
    } else if v == 7 {
        "7 "@
    } else if v == 8 {
        "8 "@
    } else if v == 9 {
        "9 "@
    } else {
        ". "@
    }
}

/// One rendered row from cell `j` on: a column separator before cells 3 and
/// 6, each cell as two characters, and a newline at the end.
pub open spec fn row_chars_from(row: Seq<u8>, j: int) -> Seq<char>
    decreases 9 - j,
{
    if j < 0 || j >= 9 {
        "\n"@
    } else {
        (if j == 3 || j == 6 {
            "| "@
        } else {
            Seq::<char>::empty()
        }) + cell_chars(row[j]) + row_chars_from(row, j + 1)
    }
}

/// The rendered board from row `i` on: a horizontal rule before rows 3 and
/// 6, then each row on its own line.
pub open spec fn grid_chars_from(g: Seq<Seq<u8>>, i: int) -> Seq<char>
    decreases 9 - i,
{
    if i < 0 || i >= 9 {
        Seq::<char>::empty()
    } else {
        (if i == 3 || i == 6 {
            "---------------------\n"@
        } else {
            Seq::<char>::empty()
        }) + row_chars_from(g[i], 0) + grid_chars_from(g, i + 1)
    }
}

/// The fixed-width text rendering of the whole board.
pub open spec fn ascii_chars(g: Seq<Seq<u8>>) -> Seq<char> {
    grid_chars_from(g, 0)
}

/// Does the scan of `u` find a violation at index `i`: an empty cell (unless
/// `skip_empty_check`), or a non-zero value already seen at an earlier index?
pub open spec fn unit_violation_at(u: Seq<u8>, skip_empty_check: bool, i: int) -> bool {
    ||| (!skip_empty_check && u[i] == 0)
    ||| (u[i] != 0 && exists|j: int| 0 <= j < i && u[j] == u[i])
}

/// The section index of the cell at `(r, c)`.
pub open spec fn section_index_of_cell(r: int, c: int) -> int {
    3 * (r / 3) + c / 3
}

proof fn lemma_unit_check_from_ok_iff(u: Seq<u8>, skip_empty_check: bool, i: int)
    requires
        0 <= i,
    ensures
        unit_check_from(u, skip_empty_check, i) is Ok <==> (forall|k: int|
            i <= k < u.len() ==> !unit_violation_at(u, skip_empty_check, k)),
    decreases u.len() - i,
{
    if i < u.len() {
        lemma_unit_check_from_ok_iff(u, skip_empty_check, i + 1);
        if unit_violation_at(u, skip_empty_check, i) {
            assert(unit_check_from(u, skip_empty_check, i) is Err);
        } else {
            assert(unit_check_from(u, skip_empty_check, i) == unit_check_from(
                u,
                skip_empty_check,
                i + 1,
            ));
        }
    }
}

/// The unit check succeeds exactly on leniently legal units (lenient mode)
/// and exactly on strictly legal units (strict mode).
pub proof fn lemma_unit_check_ok_iff(u: Seq<u8>, skip_empty_check: bool)
    ensures
        skip_empty_check ==> (unit_check(u, skip_empty_check) is Ok <==> unit_lenient_ok(u)),
        !skip_empty_check ==> (unit_check(u, skip_empty_check) is Ok <==> unit_strict_ok(u)),
{
    lemma_unit_check_from_ok_iff(u, skip_empty_check, 0);
    if forall|k: int| 0 <= k < u.len() ==> !unit_violation_at(u, skip_empty_check, k) {
        assert forall|i: int, j: int| 0 <= i < j < u.len() implies (#[trigger] u[i] == 0 || u[i]
            != #[trigger] u[j]) by {
            assert(!unit_violation_at(u, skip_empty_check, j));
        }
        if !skip_empty_check {
            assert forall|i: int| 0 <= i < u.len() implies #[trigger] u[i] != 0 by {
                assert(!unit_violation_at(u, skip_empty_check, i));
            }
        }
    }
    if unit_lenient_ok(u) && (skip_empty_check || forall|i: int|
        0 <= i < u.len() ==> #[trigger] u[i] != 0) {
        assert forall|k: int| 0 <= k < u.len() implies !unit_violation_at(
            u,
            skip_empty_check,
            k,
        ) by {
            if u[k] != 0 {
                assert forall|j: int| 0 <= j < k implies u[j] != u[k] by {
                    assert(u[j] == 0 || u[j] != u[k]);
                }
            }
        }
    }
}

proof fn lemma_rows_check_from_ok_iff(g: Seq<Seq<u8>>, skip_empty_check: bool, i: int)
    requires
        0 <= i,
    ensures
        rows_check_from(g, skip_empty_check, i) is Ok <==> (forall|k: int|
            i <= k < 9 ==> #[trigger] unit_check(row_of(g, k), skip_empty_check) is Ok),
    decreases 9 - i,
{
    if i < 9 {
        lemma_rows_check_from_ok_iff(g, skip_empty_check, i + 1);
    }
}

proof fn lemma_cols_check_from_ok_iff(g: Seq<Seq<u8>>, skip_empty_check: bool, i: int)
    requires
        0 <= i,
    ensures
        cols_check_from(g, skip_empty_check, i) is Ok <==> (forall|k: int|
            i <= k < 9 ==> #[trigger] unit_check(col_of(g, k), skip_empty_check) is Ok),
    decreases 9 - i,
{
    if i < 9 {
        lemma_cols_check_from_ok_iff(g, skip_empty_check, i + 1);
    }
}

proof fn lemma_sections_check_from_ok_iff(g: Seq<Seq<u8>>, skip_empty_check: bool, i: int)
    requires
        0 <= i,
    ensures
        sections_check_from(g, skip_empty_check, i) is Ok <==> (forall|k: int|
            i <= k < 9 ==> #[trigger] unit_check(section_of(g, k), skip_empty_check) is Ok),
    decreases 9 - i,
{
    if i < 9 {
        lemma_sections_check_from_ok_iff(g, skip_empty_check, i + 1);
    }
}

/// The board check succeeds exactly on leniently legal boards (lenient mode)
/// and exactly on solved boards (strict mode).
pub proof fn lemma_board_check_ok_iff(g: Seq<Seq<u8>>, skip_empty_check: bool)
    ensures
        skip_empty_check ==> (board_check(g, skip_empty_check) is Ok <==> board_lenient_ok(g)),
        !skip_empty_check ==> (board_check(g, skip_empty_check) is Ok <==> board_strict_ok(g)),
{
    lemma_rows_check_from_ok_iff(g, skip_empty_check, 0);
    lemma_cols_check_from_ok_iff(g, skip_empty_check, 0);
    lemma_sections_check_from_ok_iff(g, skip_empty_check, 0);
    assert forall|i: int| 0 <= i < 9 implies (unit_check(#[trigger] row_of(g, i), skip_empty_check)
        is Ok <==> (if skip_empty_check {
        unit_lenient_ok(row_of(g, i))
    } else {
        unit_strict_ok(row_of(g, i))
    })) by {
        lemma_unit_check_ok_iff(row_of(g, i), skip_empty_check);
    }
    assert forall|i: int| 0 <= i < 9 implies (unit_check(#[trigger] col_of(g, i), skip_empty_check)
        is Ok <==> (if skip_empty_check {
        unit_lenient_ok(col_of(g, i))
    } else {
        unit_strict_ok(col_of(g, i))
    })) by {
        lemma_unit_check_ok_iff(col_of(g, i), skip_empty_check);
    }
    assert forall|i: int| 0 <= i < 9 implies (unit_check(
        #[trigger] section_of(g, i),
        skip_empty_check,
    ) is Ok <==> (if skip_empty_check {
        unit_lenient_ok(section_of(g, i))
    } else {
        unit_strict_ok(section_of(g, i))
    })) by {
        lemma_unit_check_ok_iff(section_of(g, i), skip_empty_check);
    }
}

/// A leniently legal board with no empty cell is solved: on a full board the
/// two checking modes agree.
pub proof fn lemma_full_lenient_is_strict(g: Seq<Seq<u8>>)
    requires
        grid_wf(g),
        board_lenient_ok(g),
        board_full(g),
    ensures
        board_strict_ok(g),
{
    assert forall|i: int| 0 <= i < 9 implies unit_strict_ok(#[trigger] row_of(g, i)) by {
        assert(forall|k: int| 0 <= k < 9 ==> #[trigger] row_of(g, i)[k] == g[i][k]);
    }
    assert forall|i: int| 0 <= i < 9 implies unit_strict_ok(#[trigger] col_of(g, i)) by {
        assert(forall|k: int| 0 <= k < 9 ==> #[trigger] col_of(g, i)[k] == g[k][i]);
    }
    assert forall|i: int| 0 <= i < 9 implies unit_strict_ok(#[trigger] section_of(g, i)) by {
        assert forall|k: int| 0 <= k < 9 implies #[trigger] section_of(g, i)[k] != 0 by {
            assert(0 <= 3 * (i / 3) + k / 3 < 9 && 0 <= 3 * (i % 3) + k % 3 < 9);
            assert(section_of(g, i)[k] == g[3 * (i / 3) + k / 3][3 * (i % 3) + k % 3]);
        }
    }
}

/// A unit holding a permutation of the digits 1 through 9 passes both the
/// strict and the lenient check.
pub proof fn lemma_unit_permutation_legal(u: Seq<u8>)
    requires
        u.len() == 9,
        forall|i: int| 0 <= i < 9 ==> 1 <= #[trigger] u[i] <= 9,
        forall|i: int, j: int| 0 <= i < j < 9 ==> u[i] != u[j],
    ensures
        unit_check(u, true) is Ok,
        unit_check(u, false) is Ok,
{
    lemma_unit_check_ok_iff(u, true);
    lemma_unit_check_ok_iff(u, false);
}

/// A partial grid that fails the lenient check cannot be completed: any
/// full grid that agrees with it on its filled cells fails the strict check.
pub proof fn lemma_illegal_partial_not_completable(gp: Seq<Seq<u8>>, s: Seq<Seq<u8>>)
    requires
        grid_wf(gp),
        grid_wf(s),
        !(board_check(gp, true) is Ok),
        forall|r: int, c: int|
            0 <= r < 9 && 0 <= c < 9 && #[trigger] gp[r][c] != 0 ==> s[r][c] == gp[r][c],
    ensures
        !board_strict_ok(s),
{
    lemma_board_check_ok_iff(gp, true);
    assert(!board_lenient_ok(gp));
    if exists|i: int| 0 <= i < 9 && !unit_lenient_ok(#[trigger] row_of(gp, i)) {
        let i = choose|i: int| 0 <= i < 9 && !unit_lenient_ok(#[trigger] row_of(gp, i));
        let u = row_of(gp, i);
        let (a, b) = choose|a: int, b: int|
            0 <= a < b < u.len() && #[trigger] u[a] != 0 && u[a] == #[trigger] u[b];
        assert(gp[i][a] != 0 && gp[i][b] != 0 && gp[i][a] == gp[i][b]);
        assert(row_of(s, i)[a] == s[i][a] && row_of(s, i)[b] == s[i][b]);
        assert(!unit_lenient_ok(row_of(s, i)));
        assert(!unit_strict_ok(row_of(s, i)));
    } else if exists|i: int| 0 <= i < 9 && !unit_lenient_ok(#[trigger] col_of(gp, i)) {
        let i = choose|i: int| 0 <= i < 9 && !unit_lenient_ok(#[trigger] col_of(gp, i));
        let u = col_of(gp, i);
        let (a, b) = choose|a: int, b: int|
            0 <= a < b < u.len() && #[trigger] u[a] != 0 && u[a] == #[trigger] u[b];
        assert(u[a] == gp[a][i] && u[b] == gp[b][i]);
        assert(gp[a][i] != 0 && gp[b][i] != 0 && gp[a][i] == gp[b][i]);
        assert(col_of(s, i)[a] == s[a][i] && col_of(s, i)[b] == s[b][i]);
        assert(!unit_lenient_ok(col_of(s, i)));
        assert(!unit_strict_ok(col_of(s, i)));
    } else {
        assert(exists|i: int| 0 <= i < 9 && !unit_lenient_ok(#[trigger] section_of(gp, i)));
        let i = choose|i: int| 0 <= i < 9 && !unit_lenient_ok(#[trigger] section_of(gp, i));
        let u = section_of(gp, i);
        let (a, b) = choose|a: int, b: int|
            0 <= a < b < u.len() && #[trigger] u[a] != 0 && u[a] == #[trigger] u[b];
        assert(0 <= 3 * (i / 3) + a / 3 < 9 && 0 <= 3 * (i % 3) + a % 3 < 9);
        assert(0 <= 3 * (i / 3) + b / 3 < 9 && 0 <= 3 * (i % 3) + b % 3 < 9);
        assert(u[a] == gp[3 * (i / 3) + a / 3][3 * (i % 3) + a % 3]);
        assert(u[b] == gp[3 * (i / 3) + b / 3][3 * (i % 3) + b % 3]);
        assert(section_of(s, i)[a] == s[3 * (i / 3) + a / 3][3 * (i % 3) + a % 3]);
        assert(section_of(s, i)[b] == s[3 * (i / 3) + b / 3][3 * (i % 3) + b % 3]);
        assert(section_of(s, i)[a] != 0 && section_of(s, i)[a] == section_of(s, i)[b]);
        assert(!unit_lenient_ok(section_of(s, i)));
        assert(!unit_strict_ok(section_of(s, i)));
    }
}

/// Two equal non-zero values in one row make the board illegal in both modes.
pub proof fn lemma_duplicate_in_row_illegal(g: Seq<Seq<u8>>, r: int, c1: int, c2: int)
    requires
        grid_wf(g),
        0 <= r < 9,
        0 <= c1 < c2 < 9,
        g[r][c1] == g[r][c2],
        g[r][c1] != 0,
    ensures
        board_check(g, true) is Err,
        board_check(g, false) is Err,
{
    lemma_board_check_ok_iff(g, true);
    lemma_board_check_ok_iff(g, false);
    assert(row_of(g, r)[c1] == g[r][c1] && row_of(g, r)[c2] == g[r][c2]);
    assert(!unit_lenient_ok(row_of(g, r)));
}

/// Two equal non-zero values in one column make the board illegal in both
/// modes.
pub proof fn lemma_duplicate_in_col_illegal(g: Seq<Seq<u8>>, c: int, r1: int, r2: int)
    requires
        grid_wf(g),
        0 <= c < 9,
        0 <= r1 < r2 < 9,
        g[r1][c] == g[r2][c],
        g[r1][c] != 0,
    ensures
        board_check(g, true) is Err,
        board_check(g, false) is Err,
{
    lemma_board_check_ok_iff(g, true);
    lemma_board_check_ok_iff(g, false);
    assert(col_of(g, c)[r1] == g[r1][c] && col_of(g, c)[r2] == g[r2][c]);
    assert(!unit_lenient_ok(col_of(g, c)));
}

/// Two equal non-zero values in distinct cells of one 3x3 section make the
/// board illegal in both modes.
pub proof fn lemma_duplicate_in_section_illegal(
    g: Seq<Seq<u8>>,
    r1: int,
    c1: int,
    r2: int,
    c2: int,
)
    requires
        grid_wf(g),
        0 <= r1 < 9 && 0 <= c1 < 9,
        0 <= r2 < 9 && 0 <= c2 < 9,
        (r1, c1) != (r2, c2),
        section_index_of_cell(r1, c1) == section_index_of_cell(r2, c2),
        g[r1][c1] == g[r2][c2],
        g[r1][c1] != 0,
    ensures
        board_check(g, true) is Err,
        board_check(g, false) is Err,
{
    let s = section_index_of_cell(r1, c1);
    let k1 = 3 * (r1 % 3) + c1 % 3;
    let k2 = 3 * (r2 % 3) + c2 % 3;
    assert(0 <= s < 9 && 0 <= k1 < 9 && 0 <= k2 < 9);
    assert(3 * (s / 3) + k1 / 3 == r1 && 3 * (s % 3) + k1 % 3 == c1) by (nonlinear_arith)
        requires
            s == 3 * (r1 / 3) + c1 / 3,
            k1 == 3 * (r1 % 3) + c1 % 3,
            0 <= r1 < 9,
            0 <= c1 < 9,
    ;
    assert(3 * (s / 3) + k2 / 3 == r2 && 3 * (s % 3) + k2 % 3 == c2) by (nonlinear_arith)
        requires
            s == 3 * (r2 / 3) + c2 / 3,
            k2 == 3 * (r2 % 3) + c2 % 3,
            0 <= r2 < 9,
            0 <= c2 < 9,
    ;
    assert(section_of(g, s)[k1] == g[r1][c1] && section_of(g, s)[k2] == g[r2][c2]);
    assert(k1 != k2);
    lemma_board_check_ok_iff(g, true);
    lemma_board_check_ok_iff(g, false);
    if k1 < k2 {
        assert(!unit_lenient_ok(section_of(g, s)));
    } else {
        assert(!unit_lenient_ok(section_of(g, s)));
    }
}

proof fn lemma_rows_check_from_first_err(
    g: Seq<Seq<u8>>,
    skip_empty_check: bool,
    i: int,
    r: int,
    e: InvalidUnit,
)
    requires
        0 <= i <= r < 9,
        forall|k: int| i <= k < r ==> #[trigger] unit_check(row_of(g, k), skip_empty_check) is Ok,
        unit_check(row_of(g, r), skip_empty_check) == Err::<(), InvalidUnit>(e),
    ensures
        rows_check_from(g, skip_empty_check, i) == Err::<(), InvalidBoard>(
            InvalidBoard::Row(r as u8, e),
        ),
    decreases r - i,
{
    if i < r {
        lemma_rows_check_from_first_err(g, skip_empty_check, i + 1, r, e);
    }
}

proof fn lemma_cols_check_from_first_err(
    g: Seq<Seq<u8>>,
    skip_empty_check: bool,
    i: int,
    c: int,
    e: InvalidUnit,
)
    requires
        0 <= i <= c < 9,
        forall|k: int| i <= k < c ==> #[trigger] unit_check(col_of(g, k), skip_empty_check) is Ok,
        unit_check(col_of(g, c), skip_empty_check) == Err::<(), InvalidUnit>(e),
    ensures
        cols_check_from(g, skip_empty_check, i) == Err::<(), InvalidBoard>(
            InvalidBoard::Column(c as u8, e),
        ),
    decreases c - i,
{
    if i < c {
        lemma_cols_check_from_first_err(g, skip_empty_check, i + 1, c, e);
    }
}

proof fn lemma_sections_check_from_first_err(
    g: Seq<Seq<u8>>,
    skip_empty_check: bool,
    i: int,
    s: int,
    e: InvalidUnit,
)
    requires
        0 <= i <= s < 9,
        forall|k: int|
            i <= k < s ==> #[trigger] unit_check(section_of(g, k), skip_empty_check) is Ok,
        unit_check(section_of(g, s), skip_empty_check) == Err::<(), InvalidUnit>(e),
    ensures
        sections_check_from(g, skip_empty_check, i) == Err::<(), InvalidBoard>(
            InvalidBoard::Section(s as u8, e),
        ),
    decreases s - i,
{
    if i < s {
        lemma_sections_check_from_first_err(g, skip_empty_check, i + 1, s, e);
    }
}

/// Row violations are reported before any column or section violation: if
/// row `r` is the first row whose unit check fails, the board check reports
/// exactly that row and that reason, whatever the other units hold.
pub proof fn lemma_first_row_violation_reported(
    g: Seq<Seq<u8>>,
    skip_empty_check: bool,
    r: int,
    e: InvalidUnit,
)
    requires
        0 <= r < 9,
        forall|k: int| 0 <= k < r ==> #[trigger] unit_check(row_of(g, k), skip_empty_check) is Ok,
        unit_check(row_of(g, r), skip_empty_check) == Err::<(), InvalidUnit>(e),
    ensures
        board_check(g, skip_empty_check) == Err::<(), InvalidBoard>(InvalidBoard::Row(r as u8, e)),
{
    lemma_rows_check_from_first_err(g, skip_empty_check, 0, r, e);
}

/// Column violations are reported once every row passes: if all rows pass
/// and column `c` is the first column whose unit check fails, the board
/// check reports exactly that column and that reason.
pub proof fn lemma_first_col_violation_reported(
    g: Seq<Seq<u8>>,
    skip_empty_check: bool,
    c: int,
    e: InvalidUnit,
)
    requires
        0 <= c < 9,
        forall|k: int| 0 <= k < 9 ==> #[trigger] unit_check(row_of(g, k), skip_empty_check) is Ok,
        forall|k: int| 0 <= k < c ==> #[trigger] unit_check(col_of(g, k), skip_empty_check) is Ok,
        unit_check(col_of(g, c), skip_empty_check) == Err::<(), InvalidUnit>(e),
    ensures
        board_check(g, skip_empty_check) == Err::<(), InvalidBoard>(
            InvalidBoard::Column(c as u8, e),
        ),
{
    lemma_rows_check_from_ok_iff(g, skip_empty_check, 0);
    lemma_cols_check_from_first_err(g, skip_empty_check, 0, c, e);
}

/// Section violations are reported last: if every row and every column
/// passes and section `s` is the first section whose unit check fails, the
/// board check reports exactly that section and that reason.
pub proof fn lemma_first_section_violation_reported(
    g: Seq<Seq<u8>>,
    skip_empty_check: bool,
    s: int,
    e: InvalidUnit,
)
    requires
        0 <= s < 9,
        forall|k: int| 0 <= k < 9 ==> #[trigger] unit_check(row_of(g, k), skip_empty_check) is Ok,
        forall|k: int| 0 <= k < 9 ==> #[trigger] unit_check(col_of(g, k), skip_empty_check) is Ok,
        forall|k: int|
            0 <= k < s ==> #[trigger] unit_check(section_of(g, k), skip_empty_check) is Ok,
        unit_check(section_of(g, s), skip_empty_check) == Err::<(), InvalidUnit>(e),
    ensures
        board_check(g, skip_empty_check) == Err::<(), InvalidBoard>(
            InvalidBoard::Section(s as u8, e),
        ),
{
    lemma_rows_check_from_ok_iff(g, skip_empty_check, 0);
    lemma_cols_check_from_ok_iff(g, skip_empty_check, 0);
    lemma_sections_check_from_first_err(g, skip_empty_check, 0, s, e);
}

/// Writing `v` at `(r, c)` and reading the same cell gives back `v`; every
/// other cell is untouched.
pub proof fn lemma_set_then_get(g: Seq<Seq<u8>>, r: int, c: int, v: u8)
    requires
        grid_wf(g),
        0 <= r < 9,
        0 <= c < 9,
    ensures
        set_cell(g, r, c, v)[r][c] == v,
        forall|r2: int, c2: int|
            0 <= r2 < 9 && 0 <= c2 < 9 && (r2 != r || c2 != c) ==> #[trigger] set_cell(
                g,
                r,
                c,
                v,
            )[r2][c2] == g[r2][c2],
{
}

/// A 9x9 sudoku board; cell value 0 denotes an empty cell, 1..=9 a digit.
#[derive(Debug)]
pub struct SudokuBoard {
    grid: [[u8; 9]; 9],
}

impl View for SudokuBoard {
    type V = Seq<Seq<u8>>;

    closed spec fn view(&self) -> Seq<Seq<u8>> {
        grid_view(self.grid)
    }
}

impl SudokuBoard {
    /// Every board ever constructed is well formed: dimensions are fixed at
    /// 9x9 and every stored value lies in 0..=9.
    #[verifier::type_invariant]
    pub open spec fn wf(self) -> bool {
        grid_wf(self@)
    }

    /// A board with every cell empty.
    pub fn new() -> (board: Self)
        ensures
            board@ == empty_grid(),
    {
        let board = Self { grid: [[0; 9]; 9] };
        proof {
            assert(board@ =~= empty_grid()) by {
                assert forall|r: int| 0 <= r < 9 implies board@[r] =~= empty_grid()[r] by {
                    assert(board.grid@[r]@ =~= Seq::new(9, |c: int| 0u8));
                }
            }
        }
        board
    }

    /// A board holding the given initial puzzle.
    pub fn new_with_grid(grid: [[u8; 9]; 9]) -> (board: Self)
        requires
            forall|r: int, c: int| 0 <= r < 9 && 0 <= c < 9 ==> #[trigger] grid_view(grid)[r][c] <= 9,
        ensures
            board@ == grid_view(grid),
    {
        Self { grid }
    }

    /// Render the board as fixed-width text with section separators.
    pub fn as_ascii(&self) -> (r: String)
        ensures
            r@ == ascii_chars(self@),
    {
        proof {
            use_type_invariant(&*self);
        }
        let ghost g = self@;
        let mut board_text = String::new();
        proof {
            assert(board_text@ + ascii_chars(g) =~= ascii_chars(g));
        }
        let mut i: usize = 0;
        while i < 9
            invariant
                grid_wf(g),
                g == self@,
                i <= 9,
                board_text@ + grid_chars_from(g, i as int) == ascii_chars(g),
            decreases 9 - i,
        {
            let ghost t_row = board_text@;
            if i == 3 || i == 6 {
                board_text.append("---------------------\n");
            }
            proof {
                let sep: Seq<char> = if i == 3 || i == 6 {
                    "---------------------\n"@
                } else {
                    Seq::<char>::empty()
                };
                assert(board_text@ =~= t_row + sep);
                assert(grid_chars_from(g, i as int) == sep + row_chars_from(g[i as int], 0)
                    + grid_chars_from(g, i as int + 1));
                assert((board_text@ + row_chars_from(g[i as int], 0)) + grid_chars_from(
                    g,
                    i as int + 1,
                ) =~= t_row + grid_chars_from(g, i as int));
            }
            let mut j: usize = 0;
            while j < 9
                invariant
                    grid_wf(g),
                    g == self@,
                    i <= 8,
                    j <= 9,
                    (board_text@ + row_chars_from(g[i as int], j as int)) + grid_chars_from(
                        g,
                        i as int + 1,
                    ) == ascii_chars(g),
                decreases 9 - j,
            {
                let ghost t_cell = board_text@;
                if j % 3 == 0 && j != 0 {
                    board_text.append("| ");
                }
                let num: u8 = self.grid[i][j];
                proof {
                    assert(num == g[i as int][j as int]);
                }
                if num == 0 {
                    board_text.append(". ");
                } else if num == 1 {
                    board_text.append("1 ");
                } else if num == 2 {
                    board_text.append("2 ");
                } else if num == 3 {
                    board_text.append("3 ");
                } else if num == 4 {
                    board_text.append("4 ");
                } else if num == 5 {
                    board_text.append("5 ");
                } else if num == 6 {
                    board_text.append("6 ");
                } else if num == 7 {
                    board_text.append("7 ");
                } else if num == 8 {
                    board_text.append("8 ");
                } else {
                    board_text.append("9 ");
                }
                proof {
                    let sep: Seq<char> = if j == 3 || j == 6 {
                        "| "@
                    } else {
                        Seq::<char>::empty()
                    };
                    assert(board_text@ =~= (t_cell + sep) + cell_chars(num));
                    assert(row_chars_from(g[i as int], j as int) == (sep + cell_chars(num))
                        + row_chars_from(g[i as int], j as int + 1));
                    assert((board_text@ + row_chars_from(g[i as int], j as int + 1))
                        + grid_chars_from(g, i as int + 1) =~= (t_cell + row_chars_from(
                        g[i as int],
                        j as int,
                    )) + grid_chars_from(g, i as int + 1));
                }
                j = j + 1;
            }
            let ghost t_end = board_text@;
            board_text.append("\n");
            proof {
                assert(row_chars_from(g[i as int], 9) == "\n"@);
                assert(board_text@ + grid_chars_from(g, i as int + 1) =~= (t_end
                    + row_chars_from(g[i as int], 9)) + grid_chars_from(g, i as int + 1));
            }
            i = i + 1;
        }
        proof {
            assert(grid_chars_from(g, 9) == Seq::<char>::empty());
            assert(board_text@ =~= board_text@ + grid_chars_from(g, 9));
        }
        board_text
    }

    /// The value of the cell at `(row, col)`; 0 if the cell is empty.
    pub fn get_value(&self, row: u8, col: u8) -> (value: u8)
        requires
            row <= 8,
            col <= 8,
        ensures
            value == self@[row as int][col as int],
    {
        self.grid[row as usize][col as usize]
    }

    /// Overwrite the cell at `(row, col)` with `value`, unconditionally: no
    /// legality check is made at write time. Out-of-domain arguments are
    /// rejected and leave the board untouched.
    pub fn set_value(&mut self, row: u8, col: u8, value: u8) -> (r: Result<(), SetError>)
        ensures
            match r {
                Ok(_) => {
                    &&& row <= 8 && col <= 8 && value <= 9
                    &&& final(self)@ == set_cell(old(self)@, row as int, col as int, value)
                },
                Err(e) => {
                    &&& *final(self) == *old(self)
                    &&& match e {
                        SetError::Row => row > 8,
                        SetError::Col => row <= 8 && col > 8,
                        SetError::Value => row <= 8 && col <= 8 && value > 9,
                    }
                },
            },
    {
        if row > 8 {
            return Err(SetError::Row);
        }
        if col > 8 {
            return Err(SetError::Col);
        }
        if value > 9 {
            return Err(SetError::Value);
        }
        proof {
            use_type_invariant(&*self);
        }
        let mut grid = self.grid;
        grid[row as usize][col as usize] = value;
        proof {
            assert(grid_view(grid) =~= set_cell(old(self)@, row as int, col as int, value)) by {
                assert forall|r: int| 0 <= r < 9 implies grid_view(grid)[r] =~= set_cell(
                    old(self)@,
                    row as int,
                    col as int,
                    value,
                )[r] by {}
            }
            assert(grid_wf(grid_view(grid)));
        }
        self.grid = grid;
        Ok(())
    }

    /// Is the board fully filled and free of duplicates, i.e. solved?
    /// The answer is a function of the board's contents alone, so repeated
    /// calls on an unmodified board agree.
    pub fn is_complete(&self) -> (r: bool)
        ensures
            r == (board_check(self@, false) is Ok),
    {
        self.do_is_legal(false).is_ok()
    }

    /// The lenient legality check: empty cells are wildcards; the first
    /// duplicate in row/column/section scan order is reported. The result is
    /// a function of the board's contents alone, so repeated checks of an
    /// unmodified board return identical results.
    pub fn is_legal(&self) -> (r: Result<(), InvalidBoard>)
        ensures
            r == board_check(self@, true),
    {
        self.do_is_legal(true)
    }

    fn do_is_legal(&self, skip_empty_check: bool) -> (r: Result<(), InvalidBoard>)
        ensures
            r == board_check(self@, skip_empty_check),
    {
        proof {
            use_type_invariant(&*self);
        }
        // Check rows
        let mut i: usize = 0;
        while i < 9
            invariant
                grid_wf(self@),
                i <= 9,
                rows_check_from(self@, skip_empty_check, 0) == rows_check_from(
                    self@,
                    skip_empty_check,
                    i as int,
                ),
            decreases 9 - i,
        {
            let row = self.grid[i].as_slice();
            proof {
                assert(row@ == self@[i as int]);
            }
            if let Err(reason) = Self::is_unit_legal(row, skip_empty_check) {
                return Err(InvalidBoard::Row(i as u8, reason));
            }
            i = i + 1;
        }
        // Check columns
        let mut col: usize = 0;
        while col < 9
            invariant
                grid_wf(self@),
                col <= 9,
                rows_check_from(self@, skip_empty_check, 0) is Ok,
                cols_check_from(self@, skip_empty_check, 0) == cols_check_from(
                    self@,
                    skip_empty_check,
                    col as int,
                ),
            decreases 9 - col,
        {
            let mut column: Vec<u8> = Vec::new();
            let mut r: usize = 0;
            while r < 9
                invariant
                    grid_wf(self@),
                    col < 9,
                    r <= 9,
                    column@.len() == r,
                    forall|k: int| 0 <= k < r ==> #[trigger] column@[k] == self@[k][col as int],
                decreases 9 - r,
            {
                column.push(self.grid[r][col]);
                r = r + 1;
            }
            proof {
                assert(column@ =~= col_of(self@, col as int));
            }
            if let Err(reason) = Self::is_unit_legal(column.as_slice(), skip_empty_check) {
                return Err(InvalidBoard::Column(col as u8, reason));
            }
            col = col + 1;
        }
        // Check 3x3 sections
        let mut section: usize = 0;
        while section < 9
            invariant
                grid_wf(self@),
                section <= 9,
                rows_check_from(self@, skip_empty_check, 0) is Ok,
                cols_check_from(self@, skip_empty_check, 0) is Ok,
                sections_check_from(self@, skip_empty_check, 0) == sections_check_from(
                    self@,
                    skip_empty_check,
                    section as int,
                ),
            decreases 9 - section,
        {
            let start_row: usize = 3 * (section / 3);
            let start_col: usize = 3 * (section % 3);
            let mut subgrid: Vec<u8> = Vec::new();
            let mut bi: usize = 0;
            while bi < 3
                invariant
                    grid_wf(self@),
                    section < 9,
                    start_row == 3 * (section / 3),
                    start_col == 3 * (section % 3),
                    bi <= 3,
                    subgrid@.len() == 3 * bi,
                    forall|k: int|
                        0 <= k < subgrid@.len() ==> #[trigger] subgrid@[k] == self@[start_row + k
                            / 3][start_col + k % 3],
                decreases 3 - bi,
            {
                let mut bj: usize = 0;
                while bj < 3
                    invariant
                        grid_wf(self@),
                        section < 9,
                        start_row == 3 * (section / 3),
                        start_col == 3 * (section % 3),
                        bi < 3,
                        bj <= 3,
                        subgrid@.len() == 3 * bi + bj,
                        forall|k: int|
                            0 <= k < subgrid@.len() ==> #[trigger] subgrid@[k] == self@[start_row
                                + k / 3][start_col + k % 3],
                    decreases 3 - bj,
                {
                    subgrid.push(self.grid[start_row + bi][start_col + bj]);
                    proof {
                        let k = subgrid@.len() - 1;
                        assert(k / 3 == bi && k % 3 == bj) by (nonlinear_arith)
                            requires
                                k == 3 * bi + bj,
                                0 <= bj < 3,
                                0 <= bi < 3,
                        ;
                    }
                    bj = bj + 1;
                }
                bi = bi + 1;
            }
            proof {
                assert(subgrid@ =~= section_of(self@, section as int));
            }
            if let Err(reason) = Self::is_unit_legal(subgrid.as_slice(), skip_empty_check) {
                return Err(InvalidBoard::Section(section as u8, reason));
            }
            section = section + 1;
        }
        Ok(())
    }

    /// The check of one unit of 9 cells: the first violation in scan order
    /// wins. An empty cell is a violation unless `skip_empty_check`; a
    /// repeated non-zero value is always one.
    pub fn is_unit_legal(unit: &[u8], skip_empty_check: bool) -> (r: Result<(), InvalidUnit>)
        requires
            unit@.len() == 9,
            forall|i: int| 0 <= i < 9 ==> #[trigger] unit@[i] <= 9,
        ensures
            r == unit_check(unit@, skip_empty_check),
    {
        // 0 is not used, so we use indices 1 through 9.
        let mut seen = [false; 10];
        let mut i: usize = 0;
        while i < 9
            invariant
                unit@.len() == 9,
                forall|k: int| 0 <= k < 9 ==> #[trigger] unit@[k] <= 9,
                i <= 9,
                forall|v: int|
                    0 <= v < 10 ==> (#[trigger] seen@[v] <==> exists|k: int|
                        0 <= k < i && unit@[k] == v),
                unit_check(unit@, skip_empty_check) == unit_check_from(
                    unit@,
                    skip_empty_check,
                    i as int,
                ),
            decreases 9 - i,
        {
            let num: u8 = unit[i];
            if !skip_empty_check && num == 0 {
                return Err(InvalidUnit::Empty);
            }
            if seen[num as usize] && num != 0 {
                return Err(InvalidUnit::Duplicate(num));
            }
            seen[num as usize] = true;
            proof {
                assert forall|v: int| 0 <= v < 10 implies (#[trigger] seen@[v] <==> exists|k: int|
                    0 <= k < i + 1 && unit@[k] == v) by {
                    if v == num as int {
                        assert(unit@[i as int] == v);
                    }
                }
            }
            i = i + 1;
        }
        Ok(())
    }
}

impl Default for SudokuBoard {
    /// The default board is the empty board.
    fn default() -> (board: Self)
        ensures
            board@ == empty_grid(),
    {
        Self::new()
    }
}

} // verus!
