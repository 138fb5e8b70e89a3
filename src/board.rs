use vstd::prelude::*;

verus! {

/// A 9×9 grid of digits; 0 marks an empty cell.
pub type Board = [[u8; 9]; 9];

/// The board as a sequence of rows, each a sequence of cell values.
pub open spec fn grid(b: Board) -> Seq<Seq<u8>> {
    Seq::new(9, |r: int| b[r]@)
}

pub open spec fn cell_ok(r: int, c: int) -> bool {
    0 <= r < 9 && 0 <= c < 9
}

/// Row-major rank of a cell; (9, 0) stands for "past the last cell".
pub open spec fn lin(r: int, c: int) -> int {
    9 * r + c
}

pub open spec fn shaped(g: Seq<Seq<u8>>) -> bool {
    g.len() == 9 && forall|r: int| 0 <= r < 9 ==> #[trigger] g[r].len() == 9
}

/// Every cell holds 0 (empty) or a digit 1..9.
pub open spec fn digits_ok(g: Seq<Seq<u8>>) -> bool {
    forall|r: int, c: int| cell_ok(r, c) ==> #[trigger] g[r][c] <= 9
}

pub open spec fn box_of(r: int, c: int) -> int {
    (r / 3) * 3 + c / 3
}

pub open spec fn row_has(g: Seq<Seq<u8>>, r: int, d: int) -> bool {
    exists|j: int| 0 <= j < 9 && g[r][j] == d
}

pub open spec fn col_has(g: Seq<Seq<u8>>, c: int, d: int) -> bool {
    exists|i: int| 0 <= i < 9 && g[i][c] == d
}

pub open spec fn box_has(g: Seq<Seq<u8>>, b: int, d: int) -> bool {
    exists|i: int, j: int| cell_ok(i, j) && box_of(i, j) == b && g[i][j] == d
}

/// Digit `d` occurs nowhere in the row, the column or the box of cell (r, c).
pub open spec fn allowed(g: Seq<Seq<u8>>, r: int, c: int, d: int) -> bool {
    !row_has(g, r, d) && !col_has(g, c, d) && !box_has(g, box_of(r, c), d)
}

pub open spec fn place(g: Seq<Seq<u8>>, r: int, c: int, d: u8) -> Seq<Seq<u8>> {
    g.update(r, g[r].update(c, d))
}

pub open spec fn next_row(r: int, c: int) -> int {
    if c >= 8 { r + 1 } else { r }
}

pub open spec fn next_col(r: int, c: int) -> int {
    if c >= 8 { 0 } else { c + 1 }
}

/// The first completion found by a backtracking search that visits cells in
/// row-major order from (r, c) and tries digits in ascending order.
pub open spec fn search(g: Seq<Seq<u8>>, r: int, c: int) -> Option<Seq<Seq<u8>>>
    decreases 9 - r, 9 - c, 10int,
{
    if !cell_ok(r, c) {
        Some(g)
    } else if g[r][c] != 0 {
        search(g, next_row(r, c), next_col(r, c))
    } else {
        try_digits(g, r, c, 1)
    }
}

/// The search at empty cell (r, c), trying digits d, d + 1, ..., 9.
pub open spec fn try_digits(g: Seq<Seq<u8>>, r: int, c: int, d: int) -> Option<Seq<Seq<u8>>>
    decreases 9 - r, 9 - c, 10 - d,
{
    if !cell_ok(r, c) || d < 1 || d > 9 {
        None
    } else {
        let rest = search(place(g, r, c, d as u8), next_row(r, c), next_col(r, c));
        if allowed(g, r, c, d) && rest is Some {
            rest
        } else {
            try_digits(g, r, c, d + 1)
        }
    }
}

/// The solution that the solvers of this crate return for `g`, if any.
pub open spec fn solution(g: Seq<Seq<u8>>) -> Option<Seq<Seq<u8>>> {
    search(g, 0, 0)
}

/// A solve call on `before` that returned `ok` and left `after`: success exactly
/// when the search finds a solution, the board then holding it; on failure the
/// board is left as it was.
pub open spec fn solved_as(before: Board, after: Board, ok: bool) -> bool {
    &&& ok == solution(grid(before)) is Some
    &&& ok ==> solution(grid(before)) == Some(grid(after))
    &&& !ok ==> after == before
}

/// Number of empty cells from (r, c) on, in row-major order.
pub open spec fn zeros_from(g: Seq<Seq<u8>>, r: int, c: int) -> nat
    decreases 9 - r, 9 - c,
{
    if !cell_ok(r, c) {
        0
    } else {
        (if g[r][c] == 0 { 1nat } else { 0nat }) + zeros_from(g, next_row(r, c), next_col(r, c))
    }
}

pub proof fn lemma_grid_shaped(b: Board)
    ensures
        shaped(grid(b)),
        forall|r: int, c: int| cell_ok(r, c) ==> #[trigger] grid(b)[r][c] == b[r][c],
{
}

/// Where every cell from (r1, c1) up to (r2, c2) is filled, the search passes over them.
pub proof fn lemma_skip(g: Seq<Seq<u8>>, r1: int, c1: int, r2: int, c2: int)
    requires
        shaped(g),
        cell_ok(r1, c1) || (r1 == 9 && c1 == 0),
        cell_ok(r2, c2) || (r2 == 9 && c2 == 0),
        lin(r1, c1) <= lin(r2, c2),
        forall|i: int, j: int|
            cell_ok(i, j) && lin(r1, c1) <= lin(i, j) < lin(r2, c2) ==> #[trigger] g[i][j] != 0,
    ensures
        search(g, r1, c1) == search(g, r2, c2),
    decreases 9 - r1, 9 - c1,
{
    if lin(r1, c1) < lin(r2, c2) {
        assert(g[r1][c1] != 0);
        lemma_skip(g, next_row(r1, c1), next_col(r1, c1), r2, c2);
    }
}

/// Filling an empty cell at or after (r, c) removes one empty cell from the count.
pub proof fn lemma_zeros_place(g: Seq<Seq<u8>>, r0: int, c0: int, d: u8, r: int, c: int)
    requires
        shaped(g),
        cell_ok(r0, c0),
        g[r0][c0] == 0,
        d != 0,
        cell_ok(r, c) || (r == 9 && c == 0),
    ensures
        lin(r, c) <= lin(r0, c0) ==> zeros_from(place(g, r0, c0, d), r, c) + 1 == zeros_from(g, r, c),
        lin(r, c) > lin(r0, c0) ==> zeros_from(place(g, r0, c0, d), r, c) == zeros_from(g, r, c),
    decreases 9 - r, 9 - c,
{
    if cell_ok(r, c) {
        lemma_zeros_place(g, r0, c0, d, next_row(r, c), next_col(r, c));
    }
}

/// Two boards with the same cells are the same board.
pub proof fn lemma_grid_injective(a: Board, b: Board)
    requires
        grid(a) == grid(b),
    ensures
        a == b,
{
    assert forall|r: int| 0 <= r < 9 implies a[r] == b[r] by {
        assert(grid(a)[r] == grid(b)[r]);
        assert(a[r] =~= b[r]);
    }
    assert(a =~= b);
}

/// Solving a board with no empty cell succeeds and leaves the board as it was,
/// so solving a solver's own output again changes nothing.
pub proof fn lemma_full_board_is_fixed(b: Board, after: Board, ok: bool)
    requires
        forall|i: int, j: int| cell_ok(i, j) ==> #[trigger] grid(b)[i][j] != 0,
        solved_as(b, after, ok),
    ensures
        solution(grid(b)) == Some(grid(b)),
        ok,
        after == b,
{
    lemma_grid_shaped(b);
    lemma_skip(grid(b), 0, 0, 9, 0);
    lemma_grid_injective(after, b);
}

/// Any two solve calls on the same board (the naive and the bitmask solver
/// meet the same contract) agree on success and leave identical boards.
pub proof fn lemma_solvers_agree(input: Board, after1: Board, ok1: bool, after2: Board, ok2: bool)
    requires
        solved_as(input, after1, ok1),
        solved_as(input, after2, ok2),
    ensures
        ok1 == ok2,
        after1 == after2,
{
    if ok1 {
        lemma_grid_injective(after1, after2);
    }
}

} // verus!
