use vstd::prelude::*;
use crate::board::{
    allowed, box_of, cell_ok, grid, lemma_grid_shaped, lemma_skip, lemma_zeros_place, lin, next_col,
    next_row, place, search, solved_as, try_digits, zeros_from, Board,
};

verus! {

/// The first empty cell in row-major order, or `None` when the board is full.
#[verifier::loop_isolation(false)]
pub fn find_empty_position(board: &Board) -> (res: Option<(usize, usize)>)
    ensures
        match res {
            None => forall|i: int, j: int| cell_ok(i, j) ==> #[trigger] grid(*board)[i][j] != 0,
            Some((r, c)) => {
                &&& r < 9 && c < 9
                &&& grid(*board)[r as int][c as int] == 0
                &&& forall|i: int, j: int|
                    cell_ok(i, j) && lin(i, j) < lin(r as int, c as int)
                        ==> #[trigger] grid(*board)[i][j] != 0
            },
        },
{
    proof { lemma_grid_shaped(*board); }
    let mut row: usize = 0;
    while row < 9
        invariant
            row <= 9,
            forall|i: int, j: int| cell_ok(i, j) && i < row ==> #[trigger] grid(*board)[i][j] != 0,
        decreases 9 - row,
    {
        let mut col: usize = 0;
        while col < 9
            invariant
                row < 9,
                col <= 9,
                forall|i: int, j: int| cell_ok(i, j) && i < row ==> #[trigger] grid(*board)[i][j] != 0,
                forall|j: int| 0 <= j < col ==> #[trigger] grid(*board)[row as int][j] != 0,
            decreases 9 - col,
        {
            if board[row][col] == 0 {
                return Some((row, col));
            }
            col += 1;
        }
        row += 1;
    }
    None
}

/// Whether `num` may go at (row, col): it occurs nowhere in the row, the column
/// or the 3×3 box of that cell.
#[verifier::loop_isolation(false)]
pub fn is_valid(board: &Board, row: usize, col: usize, num: u8) -> (ok: bool)
    requires
        row < 9,
        col < 9,
    ensures
        ok == allowed(grid(*board), row as int, col as int, num as int),
{
    proof { lemma_grid_shaped(*board); }
    let ghost g = grid(*board);
    let mut x: usize = 0;
    while x < 9
        invariant
            row < 9,
            x <= 9,
            forall|j: int| 0 <= j < x ==> #[trigger] g[row as int][j] != num,
        decreases 9 - x,
    {
        if board[row][x] == num {
            assert(g[row as int][x as int] == num);
            return false;
        }
        x += 1;
    }
    x = 0;
    while x < 9
        invariant
            col < 9,
            x <= 9,
            forall|i: int| 0 <= i < x ==> #[trigger] g[i][col as int] != num,
        decreases 9 - x,
    {
        if board[x][col] == num {
            assert(g[x as int][col as int] == num);
            return false;
        }
        x += 1;
    }
    let subgrid_row: usize = (row / 3) * 3;
    let subgrid_col: usize = (col / 3) * 3;
    let mut r: usize = subgrid_row;
    while r < subgrid_row + 3
        invariant
            row < 9,
            col < 9,
            subgrid_row == (row / 3) * 3,
            subgrid_col == (col / 3) * 3,
            subgrid_row <= r <= subgrid_row + 3,
            forall|i: int, j: int|
                subgrid_row <= i < r && subgrid_col <= j < subgrid_col + 3 ==> #[trigger] g[i][j] != num,
        decreases subgrid_row + 3 - r,
    {
        let mut c: usize = subgrid_col;
        while c < subgrid_col + 3
            invariant
                row < 9,
                col < 9,
                subgrid_row == (row / 3) * 3,
                subgrid_col == (col / 3) * 3,
                subgrid_row <= r < subgrid_row + 3,
                subgrid_col <= c <= subgrid_col + 3,
                forall|i: int, j: int|
                    subgrid_row <= i < r && subgrid_col <= j < subgrid_col + 3 ==> #[trigger] g[i][j] != num,
                forall|j: int| subgrid_col <= j < c ==> #[trigger] g[r as int][j] != num,
            decreases subgrid_col + 3 - c,
        {
            if board[r][c] == num {
                assert(g[r as int][c as int] == num);
                assert(box_of(r as int, c as int) == box_of(row as int, col as int));
                return false;
            }
            c += 1;
        }
        r += 1;
    }
    assert forall|i: int, j: int| cell_ok(i, j) && box_of(i, j) == box_of(row as int, col as int)
        implies g[i][j] != num by {
        assert(subgrid_row <= i < subgrid_row + 3 && subgrid_col <= j < subgrid_col + 3);
    }
    true
}

/// Solves the board in place by backtracking: fills the first empty cell with
/// each digit that the row, column and box allow, in ascending order, and
/// recurses. On failure every placement is undone.
#[verifier::loop_isolation(false)]
pub fn solve_sudoku(board: &mut Board) -> (solved: bool)
    ensures
        solved_as(*old(board), *final(board), solved),
    decreases zeros_from(grid(*old(board)), 0, 0),
{
    let ghost start = *board;
    let ghost g = grid(start);
    proof { lemma_grid_shaped(start); }
    let empty_pos = find_empty_position(board);
    if empty_pos.is_none() {
        proof { lemma_skip(g, 0, 0, 9, 0); }
        return true;
    }
    let (row, col) = empty_pos.unwrap();
    proof { lemma_skip(g, 0, 0, row as int, col as int); }
    let mut num: u8 = 1;
    while num <= 9
        invariant
            1 <= num <= 10,
            row < 9,
            col < 9,
            *board == start,
            g[row as int][col as int] == 0,
            forall|i: int, j: int|
                cell_ok(i, j) && lin(i, j) < lin(row as int, col as int) ==> #[trigger] g[i][j] != 0,
            try_digits(g, row as int, col as int, num as int) == search(g, 0, 0),
        decreases 10 - num,
    {
        if is_valid(board, row, col, num) {
            board[row][col] = num;
            let ghost g2 = place(g, row as int, col as int, num);
            proof {
                assert(grid(*board) =~~= g2);
                lemma_zeros_place(g, row as int, col as int, num, 0, 0);
                lemma_skip(g2, 0, 0, next_row(row as int, col as int), next_col(row as int, col as int));
            }
            if solve_sudoku(board) {
                return true;
            }
            board[row][col] = 0;
            proof {
                assert(board[row as int] =~= start[row as int]);
                assert(*board =~= start);
            }
        }
        num += 1;
    }
    false
}

} // verus!
