use vstd::prelude::*;
use vstd::set_lib::{lemma_int_range, lemma_subset_equality, set_int_range};
use crate::board::{
    allowed, box_has, box_of, cell_ok, col_has, grid, lemma_grid_shaped, lin, next_col, next_row,
    place, row_has, search, shaped, solution, solved_as, try_digits, Board, lemma_skip,
};

verus! {

pub open spec fn same_unit(i1: int, j1: int, i2: int, j2: int) -> bool {
    i1 == i2 || j1 == j2 || box_of(i1, j1) == box_of(i2, j2)
}

/// `s` keeps every given of `g`, puts a digit 1..9 into each empty cell of `g`,
/// and no cell that was empty shares its digit with another cell of its row,
/// column or box.
pub open spec fn completes(g: Seq<Seq<u8>>, s: Seq<Seq<u8>>) -> bool {
    &&& shaped(s)
    &&& forall|i: int, j: int| cell_ok(i, j) && g[i][j] != 0 ==> #[trigger] s[i][j] == g[i][j]
    &&& forall|i: int, j: int| cell_ok(i, j) && g[i][j] == 0 ==> 1 <= #[trigger] s[i][j] <= 9
    &&& forall|i1: int, j1: int, i2: int, j2: int|
        #![trigger s[i1][j1], s[i2][j2]]
        cell_ok(i1, j1) && cell_ok(i2, j2) && (i1 != i2 || j1 != j2) && same_unit(i1, j1, i2, j2)
            && (g[i1][j1] == 0 || g[i2][j2] == 0) ==> s[i1][j1] != s[i2][j2]
}

/// Going back from a board with digit `d` in cell (r, c) to the board with that
/// cell empty keeps every completion, where `d` was allowed there.
proof fn lemma_completes_back(g: Seq<Seq<u8>>, r: int, c: int, d: int, s: Seq<Seq<u8>>)
    requires
        shaped(g),
        cell_ok(r, c),
        g[r][c] == 0,
        1 <= d <= 9,
        allowed(g, r, c, d),
        completes(place(g, r, c, d as u8), s),
    ensures
        completes(g, s),
{
    let g2 = place(g, r, c, d as u8);
    assert(s[r][c] == d);
    assert forall|i1: int, j1: int, i2: int, j2: int|
        #![trigger s[i1][j1], s[i2][j2]]
        cell_ok(i1, j1) && cell_ok(i2, j2) && (i1 != i2 || j1 != j2) && same_unit(i1, j1, i2, j2)
            && (g[i1][j1] == 0 || g[i2][j2] == 0) implies s[i1][j1] != s[i2][j2] by {
        if i1 == r && j1 == c && g2[i2][j2] != 0 {
            assert(s[i2][j2] == g[i2][j2]);
            if i2 == r {
                assert(!(0 <= j2 < 9 && g[r][j2] == d));
            } else if j2 == c {
                assert(!(0 <= i2 < 9 && g[i2][c] == d));
            } else {
                assert(!(cell_ok(i2, j2) && box_of(i2, j2) == box_of(r, c) && g[i2][j2] == d));
            }
        } else if i2 == r && j2 == c && g2[i1][j1] != 0 {
            assert(s[i1][j1] == g[i1][j1]);
            if i1 == r {
                assert(!(0 <= j1 < 9 && g[r][j1] == d));
            } else if j1 == c {
                assert(!(0 <= i1 < 9 && g[i1][c] == d));
            } else {
                assert(!(cell_ok(i1, j1) && box_of(i1, j1) == box_of(r, c) && g[i1][j1] == d));
            }
        } else {
            assert(g2[i1][j1] == 0 || g2[i2][j2] == 0);
        }
    }
}

/// A completion of a board with cell (r, c) empty allows its own digit there, and
/// completes the board with that digit placed.
proof fn lemma_completes_forward(g: Seq<Seq<u8>>, r: int, c: int, t: Seq<Seq<u8>>)
    requires
        shaped(g),
        cell_ok(r, c),
        g[r][c] == 0,
        completes(g, t),
    ensures
        allowed(g, r, c, t[r][c] as int),
        completes(place(g, r, c, t[r][c]), t),
{
    let d = t[r][c];
    assert(1 <= d <= 9);
    if row_has(g, r, d as int) {
        let j = choose|j: int| 0 <= j < 9 && g[r][j] == d;
        assert(t[r][j] == d);
        assert(t[r][c] != t[r][j]);
    }
    if col_has(g, c, d as int) {
        let i = choose|i: int| 0 <= i < 9 && g[i][c] == d;
        assert(t[i][c] == d);
        assert(t[r][c] != t[i][c]);
    }
    if box_has(g, box_of(r, c), d as int) {
        let (i, j) = choose|i: int, j: int| cell_ok(i, j) && box_of(i, j) == box_of(r, c) && g[i][j] == d;
        assert(t[i][j] == d);
        assert(t[r][c] != t[i][j]);
    }
    let g2 = place(g, r, c, d);
    assert forall|i1: int, j1: int, i2: int, j2: int|
        #![trigger t[i1][j1], t[i2][j2]]
        cell_ok(i1, j1) && cell_ok(i2, j2) && (i1 != i2 || j1 != j2) && same_unit(i1, j1, i2, j2)
            && (g2[i1][j1] == 0 || g2[i2][j2] == 0) implies t[i1][j1] != t[i2][j2] by {
        assert(g[i1][j1] == 0 || g[i2][j2] == 0);
    }
}

/// What the search returns from (r, c), where every earlier cell is filled,
/// completes the board.
pub proof fn lemma_search_sound(g: Seq<Seq<u8>>, r: int, c: int)
    requires
        shaped(g),
        cell_ok(r, c) || (r == 9 && c == 0),
        forall|i: int, j: int| cell_ok(i, j) && lin(i, j) < lin(r, c) ==> #[trigger] g[i][j] != 0,
        search(g, r, c) is Some,
    ensures
        completes(g, search(g, r, c)->0),
    decreases 9 - r, 9 - c, 10int,
{
    if !cell_ok(r, c) {
        assert forall|i1: int, j1: int, i2: int, j2: int|
            #![trigger g[i1][j1], g[i2][j2]]
            cell_ok(i1, j1) && cell_ok(i2, j2) && (i1 != i2 || j1 != j2) && same_unit(i1, j1, i2, j2)
                && (g[i1][j1] == 0 || g[i2][j2] == 0) implies g[i1][j1] != g[i2][j2] by {
            assert(g[i1][j1] != 0);
            assert(g[i2][j2] != 0);
        }
    } else if g[r][c] != 0 {
        lemma_search_sound(g, next_row(r, c), next_col(r, c));
    } else {
        lemma_try_sound(g, r, c, 1);
    }
}

proof fn lemma_try_sound(g: Seq<Seq<u8>>, r: int, c: int, d: int)
    requires
        shaped(g),
        cell_ok(r, c),
        g[r][c] == 0,
        forall|i: int, j: int| cell_ok(i, j) && lin(i, j) < lin(r, c) ==> #[trigger] g[i][j] != 0,
        try_digits(g, r, c, d) is Some,
    ensures
        completes(g, try_digits(g, r, c, d)->0),
    decreases 9 - r, 9 - c, 10 - d,
{
    if 1 <= d <= 9 {
        let g2 = place(g, r, c, d as u8);
        let rest = search(g2, next_row(r, c), next_col(r, c));
        if allowed(g, r, c, d) && rest is Some {
            lemma_search_sound(g2, next_row(r, c), next_col(r, c));
            lemma_completes_back(g, r, c, d, rest->0);
        } else {
            lemma_try_sound(g, r, c, d + 1);
        }
    }
}

/// Where the board from (r, c) on has a completion `t`, and every earlier cell
/// is filled, the search finds one.
pub proof fn lemma_search_complete(g: Seq<Seq<u8>>, r: int, c: int, t: Seq<Seq<u8>>)
    requires
        shaped(g),
        cell_ok(r, c) || (r == 9 && c == 0),
        forall|i: int, j: int| cell_ok(i, j) && lin(i, j) < lin(r, c) ==> #[trigger] g[i][j] != 0,
        completes(g, t),
    ensures
        search(g, r, c) is Some,
    decreases 9 - r, 9 - c, 10int,
{
    if cell_ok(r, c) {
        if g[r][c] != 0 {
            lemma_search_complete(g, next_row(r, c), next_col(r, c), t);
        } else {
            lemma_try_complete(g, r, c, 1, t);
        }
    }
}

proof fn lemma_try_complete(g: Seq<Seq<u8>>, r: int, c: int, d: int, t: Seq<Seq<u8>>)
    requires
        shaped(g),
        cell_ok(r, c),
        g[r][c] == 0,
        forall|i: int, j: int| cell_ok(i, j) && lin(i, j) < lin(r, c) ==> #[trigger] g[i][j] != 0,
        completes(g, t),
        1 <= d <= t[r][c],
    ensures
        try_digits(g, r, c, d) is Some,
    decreases 9 - r, 9 - c, 10 - d,
{
    assert(t[r][c] <= 9);
    let g2 = place(g, r, c, d as u8);
    let rest = search(g2, next_row(r, c), next_col(r, c));
    if !(allowed(g, r, c, d) && rest is Some) {
        if d == t[r][c] {
            lemma_completes_forward(g, r, c, t);
            lemma_search_complete(g2, next_row(r, c), next_col(r, c), t);
        } else {
            lemma_try_complete(g, r, c, d + 1, t);
        }
    }
}

/// The solvers succeed exactly on the boards that have a completion, and the
/// board they then leave is one.
pub proof fn lemma_solution_meaning(g: Seq<Seq<u8>>)
    requires
        shaped(g),
    ensures
        solution(g) is Some ==> completes(g, solution(g)->0),
        solution(g) is None ==> forall|t: Seq<Seq<u8>>| !completes(g, t),
{
    if solution(g) is Some {
        lemma_search_sound(g, 0, 0);
    }
    assert forall|t: Seq<Seq<u8>>| completes(g, t) implies solution(g) is Some by {
        lemma_search_complete(g, 0, 0, t);
    }
}

/// No two cells of a row, column or box hold the same digit.
pub open spec fn consistent(g: Seq<Seq<u8>>) -> bool {
    forall|i1: int, j1: int, i2: int, j2: int|
        #![trigger g[i1][j1], g[i2][j2]]
        cell_ok(i1, j1) && cell_ok(i2, j2) && (i1 != i2 || j1 != j2) && same_unit(i1, j1, i2, j2)
            && g[i1][j1] != 0 ==> g[i1][j1] != g[i2][j2]
}

/// Every cell holds a digit 1..9 and no row, column or box repeats one.
pub open spec fn solved_grid(s: Seq<Seq<u8>>) -> bool {
    &&& shaped(s)
    &&& forall|i: int, j: int| cell_ok(i, j) ==> 1 <= #[trigger] s[i][j] <= 9
    &&& consistent(s)
}

/// Nine distinct digits from 1..9 are all of them.
proof fn lemma_nine_distinct(vals: Seq<int>)
    requires
        vals.len() == 9,
        vals.no_duplicates(),
        forall|k: int| 0 <= k < 9 ==> 1 <= #[trigger] vals[k] <= 9,
    ensures
        forall|d: int| 1 <= d <= 9 ==> #[trigger] vals.contains(d),
{
    vals.unique_seq_to_set();
    lemma_int_range(1, 10);
    let all = set_int_range(1, 10);
    assert(vals.to_set().subset_of(all));
    lemma_subset_equality(vals.to_set(), all);
    assert forall|d: int| 1 <= d <= 9 implies #[trigger] vals.contains(d) by {
        assert(all.contains(d));
        assert(vals.to_set().contains(d));
    }
}

/// In a solved grid every row, column and box holds each digit 1..9, and only once.
pub proof fn lemma_every_digit_once(s: Seq<Seq<u8>>)
    requires
        solved_grid(s),
    ensures
        forall|i: int, d: int| 0 <= i < 9 && 1 <= d <= 9 ==>
            #[trigger] row_has(s, i, d) && col_has(s, i, d) && box_has(s, i, d),
        forall|i1: int, j1: int, i2: int, j2: int|
            #![trigger s[i1][j1], s[i2][j2]]
            cell_ok(i1, j1) && cell_ok(i2, j2) && (i1 != i2 || j1 != j2) && same_unit(i1, j1, i2, j2)
                ==> s[i1][j1] != s[i2][j2],
{
    assert forall|i: int, d: int| 0 <= i < 9 && 1 <= d <= 9 implies
        #[trigger] row_has(s, i, d) && col_has(s, i, d) && box_has(s, i, d) by {
        let rv = Seq::new(9, |k: int| s[i][k] as int);
        assert forall|k1: int, k2: int| 0 <= k1 < rv.len() && 0 <= k2 < rv.len() && k1 != k2
            implies rv[k1] != rv[k2] by {
            assert(s[i][k1] != s[i][k2]);
        }
        lemma_nine_distinct(rv);
        assert(rv.contains(d));
        let cv = Seq::new(9, |k: int| s[k][i] as int);
        assert forall|k1: int, k2: int| 0 <= k1 < cv.len() && 0 <= k2 < cv.len() && k1 != k2
            implies cv[k1] != cv[k2] by {
            assert(s[k1][i] != s[k2][i]);
        }
        lemma_nine_distinct(cv);
        assert(cv.contains(d));
        let br = (i / 3) * 3;
        let bc = (i % 3) * 3;
        let bv = Seq::new(9, |k: int| s[br + k / 3][bc + k % 3] as int);
        assert forall|k: int| 0 <= k < 9 implies #[trigger] box_of(br + k / 3, bc + k % 3) == i by {}
        assert forall|k1: int, k2: int| 0 <= k1 < bv.len() && 0 <= k2 < bv.len() && k1 != k2
            implies bv[k1] != bv[k2] by {
            assert(s[br + k1 / 3][bc + k1 % 3] != s[br + k2 / 3][bc + k2 % 3]);
        }
        lemma_nine_distinct(bv);
        assert(bv.contains(d));
        let k = choose|k: int| 0 <= k < 9 && bv[k] == d;
        assert(cell_ok(br + k / 3, bc + k % 3) && box_of(br + k / 3, bc + k % 3) == i
            && s[br + k / 3][bc + k % 3] == d);
    }
}

/// A completion of a board whose givens repeat no digit in a unit is a solved grid.
pub proof fn lemma_completion_is_solved(g: Seq<Seq<u8>>, s: Seq<Seq<u8>>)
    requires
        consistent(g),
        completes(g, s),
        forall|i: int, j: int| cell_ok(i, j) ==> 1 <= #[trigger] g[i][j] <= 9 || g[i][j] == 0,
    ensures
        solved_grid(s),
{
    assert forall|i: int, j: int| cell_ok(i, j) implies 1 <= #[trigger] s[i][j] <= 9 by {
        if g[i][j] != 0 {
            assert(s[i][j] == g[i][j]);
        }
    }
    assert forall|i1: int, j1: int, i2: int, j2: int|
        #![trigger s[i1][j1], s[i2][j2]]
        cell_ok(i1, j1) && cell_ok(i2, j2) && (i1 != i2 || j1 != j2) && same_unit(i1, j1, i2, j2)
            && s[i1][j1] != 0 implies s[i1][j1] != s[i2][j2] by {
        if g[i1][j1] != 0 && g[i2][j2] != 0 {
            assert(s[i1][j1] == g[i1][j1] && s[i2][j2] == g[i2][j2]);
            assert(g[i1][j1] != g[i2][j2]);
        }
    }
}

/// A successful solve of a board with digits 0..9 whose givens repeat no digit
/// in a unit leaves a grid where every row, column and box holds each digit
/// 1..9 exactly once, and every given is kept.
pub proof fn lemma_solved_output(input: Board, after: Board)
    requires
        consistent(grid(input)),
        forall|i: int, j: int| cell_ok(i, j) ==> #[trigger] grid(input)[i][j] <= 9,
        solved_as(input, after, true),
    ensures
        solved_grid(grid(after)),
        forall|i: int, d: int| 0 <= i < 9 && 1 <= d <= 9 ==>
            #[trigger] row_has(grid(after), i, d) && col_has(grid(after), i, d) && box_has(grid(after), i, d),
        forall|i: int, j: int| cell_ok(i, j) && grid(input)[i][j] != 0 ==>
            #[trigger] grid(after)[i][j] == grid(input)[i][j],
{
    lemma_grid_shaped(input);
    lemma_solution_meaning(grid(input));
    lemma_completion_is_solved(grid(input), grid(after));
    lemma_every_digit_once(grid(after));
}

/// A successful solve never overwrites a given digit.
pub proof fn lemma_givens_kept(input: Board, after: Board)
    requires
        solved_as(input, after, true),
    ensures
        forall|i: int, j: int| cell_ok(i, j) && grid(input)[i][j] != 0 ==>
            #[trigger] grid(after)[i][j] == grid(input)[i][j],
{
    lemma_grid_shaped(input);
    lemma_solution_meaning(grid(input));
}

/// A board with a digit repeated in one row never ends up solved: on success the
/// repeated givens stay, on failure the board is left as it was.
pub proof fn lemma_row_duplicate_never_solved(input: Board, after: Board, ok: bool, r: int, j1: int, j2: int)
    requires
        solved_as(input, after, ok),
        cell_ok(r, j1),
        cell_ok(r, j2),
        j1 != j2,
        grid(input)[r][j1] != 0,
        grid(input)[r][j1] == grid(input)[r][j2],
    ensures
        !solved_grid(grid(after)),
{
    if ok {
        lemma_givens_kept(input, after);
        assert(grid(after)[r][j1] == grid(input)[r][j1]);
        assert(grid(after)[r][j2] == grid(input)[r][j2]);
    }
    assert(grid(after)[r][j1] == grid(after)[r][j2]);
}

proof fn lemma_try_first_allowed(g: Seq<Seq<u8>>, r: int, c: int, e: int, d: int)
    requires
        cell_ok(r, c),
        1 <= e <= d <= 9,
        forall|x: int| e <= x < d ==> !#[trigger] allowed(g, r, c, x),
    ensures
        try_digits(g, r, c, e) == try_digits(g, r, c, d),
    decreases d - e,
{
    if e < d {
        assert(!allowed(g, r, c, e));
        lemma_try_first_allowed(g, r, c, e + 1, d);
    }
}

/// A board whose one empty cell admits exactly one digit, by its row, column
/// and box, is solved by writing that digit there.
pub proof fn lemma_single_empty_cell(input: Board, after: Board, ok: bool, r: int, c: int, d: int)
    requires
        solved_as(input, after, ok),
        cell_ok(r, c),
        grid(input)[r][c] == 0,
        forall|i: int, j: int| cell_ok(i, j) && (i != r || j != c) ==> #[trigger] grid(input)[i][j] != 0,
        1 <= d <= 9,
        allowed(grid(input), r, c, d),
        forall|e: int| 1 <= e <= 9 && e != d ==> !#[trigger] allowed(grid(input), r, c, e),
    ensures
        ok,
        grid(after) == place(grid(input), r, c, d as u8),
{
    let g = grid(input);
    let g2 = place(g, r, c, d as u8);
    lemma_grid_shaped(input);
    lemma_skip(g, 0, 0, r, c);
    lemma_try_first_allowed(g, r, c, 1, d);
    assert forall|i: int, j: int|
        cell_ok(i, j) && lin(next_row(r, c), next_col(r, c)) <= lin(i, j) < lin(9, 0)
        implies #[trigger] g2[i][j] != 0 by {
        assert(g[i][j] != 0);
    }
    lemma_skip(g2, next_row(r, c), next_col(r, c), 9, 0);
}

} // verus!
