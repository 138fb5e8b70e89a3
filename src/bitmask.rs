use vstd::prelude::*;
use crate::board::{
    allowed, box_has, box_of, cell_ok, col_has, grid, lemma_grid_shaped, lemma_skip, lin, next_col,
    next_row, place, row_has, search, shaped, solved_as, try_digits, Board, digits_ok,
};

verus! {

/// The bit that stands for digit `d` (1..9) in a used-digit set.
pub open spec fn bit(d: int) -> u16 {
    1u16 << ((d - 1) as u16)
}

/// Digit `d` is in the used-digit set `m`.
pub open spec fn holds(m: u16, d: int) -> bool {
    m & bit(d) != 0
}

/// Each table entry holds exactly the digits present in its row, column or box.
pub open spec fn masks_ok(g: Seq<Seq<u8>>, rows: [u16; 9], cols: [u16; 9], boxes: [u16; 9]) -> bool {
    &&& forall|i: int, d: int| 0 <= i < 9 && 1 <= d <= 9 ==> #[trigger] holds(rows[i], d) == row_has(g, i, d)
    &&& forall|i: int, d: int| 0 <= i < 9 && 1 <= d <= 9 ==> #[trigger] holds(cols[i], d) == col_has(g, i, d)
    &&& forall|i: int, d: int| 0 <= i < 9 && 1 <= d <= 9 ==> #[trigger] holds(boxes[i], d) == box_has(g, i, d)
}

proof fn lemma_bits(m: u16, x: u16, y: u16)
    requires
        x < 9,
        y < 9,
    ensures
        ((m | (1u16 << x)) & (1u16 << y)) != 0 <==> ((m & (1u16 << y)) != 0 || x == y),
        (m & (1u16 << x)) == 0 ==> ((m | (1u16 << x)) & !(1u16 << x)) == m,
{
    assert(((m | (1u16 << x)) & (1u16 << y)) != 0 <==> ((m & (1u16 << y)) != 0 || x == y))
        by (bit_vector)
        requires
            x < 9,
            y < 9,
    ;
    assert((m & (1u16 << x)) == 0 ==> ((m | (1u16 << x)) & !(1u16 << x)) == m) by (bit_vector)
        requires
            x < 9,
    ;
}

/// Adding digit `d` to a set adds exactly that digit.
proof fn lemma_add_digit(m: u16, d: int)
    requires
        1 <= d <= 9,
    ensures
        forall|e: int| 1 <= e <= 9 ==> #[trigger] holds(m | bit(d), e) == (holds(m, e) || e == d),
        !holds(m, d) ==> (m | bit(d)) & !bit(d) == m,
{
    assert forall|e: int| 1 <= e <= 9 implies #[trigger] holds(m | bit(d), e) == (holds(m, e) || e == d) by {
        lemma_bits(m, (d - 1) as u16, (e - 1) as u16);
    }
    lemma_bits(m, (d - 1) as u16, (d - 1) as u16);
}

/// Writing digit `d` into an empty cell adds `d` to the cell's row, column and box.
proof fn lemma_place_units(g: Seq<Seq<u8>>, r: int, c: int, d: int)
    requires
        shaped(g),
        cell_ok(r, c),
        g[r][c] == 0,
        1 <= d <= 9,
    ensures
        forall|i: int, e: int| 0 <= i < 9 && 1 <= e <= 9 ==>
            #[trigger] row_has(place(g, r, c, d as u8), i, e) == (row_has(g, i, e) || (i == r && e == d)),
        forall|i: int, e: int| 0 <= i < 9 && 1 <= e <= 9 ==>
            #[trigger] col_has(place(g, r, c, d as u8), i, e) == (col_has(g, i, e) || (i == c && e == d)),
        forall|i: int, e: int| 0 <= i < 9 && 1 <= e <= 9 ==>
            #[trigger] box_has(place(g, r, c, d as u8), i, e) == (box_has(g, i, e) || (i == box_of(r, c) && e == d)),
{
    let g2 = place(g, r, c, d as u8);
    assert forall|i: int, e: int| 0 <= i < 9 && 1 <= e <= 9 implies
        #[trigger] row_has(g2, i, e) == (row_has(g, i, e) || (i == r && e == d)) by {
        if row_has(g2, i, e) {
            let j = choose|j: int| 0 <= j < 9 && g2[i][j] == e;
            if !(i == r && j == c) {
                assert(g[i][j] == e);
            }
        }
        if row_has(g, i, e) {
            let j = choose|j: int| 0 <= j < 9 && g[i][j] == e;
            assert(g2[i][j] == e);
        }
        if i == r && e == d {
            assert(g2[r][c] == d);
        }
    }
    assert forall|i: int, e: int| 0 <= i < 9 && 1 <= e <= 9 implies
        #[trigger] col_has(g2, i, e) == (col_has(g, i, e) || (i == c && e == d)) by {
        if col_has(g2, i, e) {
            let j = choose|j: int| 0 <= j < 9 && g2[j][i] == e;
            if !(j == r && i == c) {
                assert(g[j][i] == e);
            }
        }
        if col_has(g, i, e) {
            let j = choose|j: int| 0 <= j < 9 && g[j][i] == e;
            assert(g2[j][i] == e);
        }
        if i == c && e == d {
            assert(g2[r][c] == d);
        }
    }
    assert forall|b: int, e: int| 0 <= b < 9 && 1 <= e <= 9 implies
        #[trigger] box_has(g2, b, e) == (box_has(g, b, e) || (b == box_of(r, c) && e == d)) by {
        if box_has(g2, b, e) {
            let (x, y) = choose|x: int, y: int| cell_ok(x, y) && box_of(x, y) == b && g2[x][y] == e;
            if !(x == r && y == c) {
                assert(g[x][y] == e);
            }
        }
        if box_has(g, b, e) {
            let (x, y) = choose|x: int, y: int| cell_ok(x, y) && box_of(x, y) == b && g[x][y] == e;
            assert(g2[x][y] == e);
        }
        if b == box_of(r, c) && e == d {
            assert(g2[r][c] == d);
        }
    }
}

/// Row of the k-th listed position; (9, 0) past the end of the list.
pub open spec fn pos_row(pos: Seq<(usize, usize)>, k: int) -> int {
    if 0 <= k < pos.len() { pos[k].0 as int } else { 9 }
}

pub open spec fn pos_col(pos: Seq<(usize, usize)>, k: int) -> int {
    if 0 <= k < pos.len() { pos[k].1 as int } else { 0 }
}

pub open spec fn start_of(pos: Seq<(usize, usize)>, k: int) -> int {
    lin(pos_row(pos, k), pos_col(pos, k))
}

/// The listed positions are cells in strictly increasing row-major order; from
/// `idx` on they are empty, and every empty cell after the position at `idx` is listed.
pub open spec fn positions_ok(g: Seq<Seq<u8>>, pos: Seq<(usize, usize)>, idx: int) -> bool {
    &&& 0 <= idx <= pos.len()
    &&& forall|k: int| 0 <= k < pos.len() ==> cell_ok(#[trigger] pos[k].0 as int, pos[k].1 as int)
    &&& forall|k1: int, k2: int|
        0 <= k1 < k2 <= pos.len() ==> #[trigger] start_of(pos, k1) < #[trigger] start_of(pos, k2)
    &&& forall|k: int| idx <= k < pos.len() ==> #[trigger] g[pos[k].0 as int][pos[k].1 as int] == 0
    &&& forall|k: int, i: int, j: int|
        #![trigger start_of(pos, k), g[i][j]]
        idx <= k < pos.len() && cell_ok(i, j) && start_of(pos, k) < lin(i, j) < start_of(pos, k + 1)
            ==> g[i][j] != 0
}

/// Writing digit `d` into an empty cell and adding it to that cell's three
/// table entries keeps the tables exact.
proof fn lemma_masks_place(
    g: Seq<Seq<u8>>,
    rows: [u16; 9],
    cols: [u16; 9],
    boxes: [u16; 9],
    rows2: [u16; 9],
    cols2: [u16; 9],
    boxes2: [u16; 9],
    r: int,
    c: int,
    d: int,
)
    requires
        shaped(g),
        cell_ok(r, c),
        g[r][c] == 0,
        1 <= d <= 9,
        masks_ok(g, rows, cols, boxes),
        rows2@ == rows@.update(r, rows[r] | bit(d)),
        cols2@ == cols@.update(c, cols[c] | bit(d)),
        boxes2@ == boxes@.update(box_of(r, c), boxes[box_of(r, c)] | bit(d)),
    ensures
        masks_ok(place(g, r, c, d as u8), rows2, cols2, boxes2),
{
    let g2 = place(g, r, c, d as u8);
    lemma_place_units(g, r, c, d);
    lemma_add_digit(rows[r], d);
    lemma_add_digit(cols[c], d);
    lemma_add_digit(boxes[box_of(r, c)], d);
    assert forall|i: int, e: int| 0 <= i < 9 && 1 <= e <= 9 implies #[trigger] holds(rows2[i], e) == row_has(g2, i, e) by {
        assert(row_has(g2, i, e) == (row_has(g, i, e) || (i == r && e == d)));
    }
    assert forall|i: int, e: int| 0 <= i < 9 && 1 <= e <= 9 implies #[trigger] holds(cols2[i], e) == col_has(g2, i, e) by {
        assert(col_has(g2, i, e) == (col_has(g, i, e) || (i == c && e == d)));
    }
    assert forall|i: int, e: int| 0 <= i < 9 && 1 <= e <= 9 implies #[trigger] holds(boxes2[i], e) == box_has(g2, i, e) by {
        assert(box_has(g2, i, e) == (box_has(g, i, e) || (i == box_of(r, c) && e == d)));
    }
}

/// After a digit goes into the position at `idx`, the rest of the list is in
/// order for the next step, and the search from the next cell reaches the next
/// listed position unchanged.
proof fn lemma_next_position(g: Seq<Seq<u8>>, pos: Seq<(usize, usize)>, idx: int, d: u8)
    requires
        shaped(g),
        positions_ok(g, pos, idx),
        idx < pos.len(),
        d != 0,
    ensures
        positions_ok(place(g, pos[idx].0 as int, pos[idx].1 as int, d), pos, idx + 1),
        search(place(g, pos[idx].0 as int, pos[idx].1 as int, d),
            next_row(pos[idx].0 as int, pos[idx].1 as int), next_col(pos[idx].0 as int, pos[idx].1 as int))
            == search(place(g, pos[idx].0 as int, pos[idx].1 as int, d), pos_row(pos, idx + 1), pos_col(pos, idx + 1)),
{
    let r = pos[idx].0 as int;
    let c = pos[idx].1 as int;
    let g2 = place(g, r, c, d);
    assert(cell_ok(r, c));
    assert(start_of(pos, idx) < start_of(pos, idx + 1));
    assert forall|i: int, j: int|
        cell_ok(i, j) && lin(next_row(r, c), next_col(r, c)) <= lin(i, j) < lin(pos_row(pos, idx + 1), pos_col(pos, idx + 1))
        implies #[trigger] g2[i][j] != 0 by {
        assert(g[i][j] != 0);
    }
    lemma_skip(g2, next_row(r, c), next_col(r, c), pos_row(pos, idx + 1), pos_col(pos, idx + 1));
    assert forall|k: int| idx + 1 <= k < pos.len() implies #[trigger] g2[pos[k].0 as int][pos[k].1 as int] == 0 by {
        assert(start_of(pos, idx) < start_of(pos, k));
    }
    assert forall|k: int, i: int, j: int|
        #![trigger start_of(pos, k), g2[i][j]]
        idx + 1 <= k < pos.len() && cell_ok(i, j) && start_of(pos, k) < lin(i, j) < start_of(pos, k + 1)
        implies g2[i][j] != 0 by {
        assert(start_of(pos, idx) < start_of(pos, k));
        assert(g[i][j] != 0);
    }
}

/// Fills the listed empty positions from `idx` on by backtracking, keeping the
/// used-digit tables in step with the board. On failure the board and the
/// tables are left as they were.
pub fn backtrack(
    board: &mut Board,
    idx: usize,
    empty_positions: &[(usize, usize)],
    row_used: &mut [u16; 9],
    col_used: &mut [u16; 9],
    box_used: &mut [u16; 9],
) -> (ok: bool)
    requires
        positions_ok(grid(*old(board)), empty_positions@, idx as int),
        masks_ok(grid(*old(board)), *old(row_used), *old(col_used), *old(box_used)),
    ensures
        ok == search(grid(*old(board)), pos_row(empty_positions@, idx as int), pos_col(empty_positions@, idx as int)) is Some,
        ok ==> search(grid(*old(board)), pos_row(empty_positions@, idx as int), pos_col(empty_positions@, idx as int))
            == Some(grid(*final(board))),
        !ok ==> *final(board) == *old(board),
        !ok ==> *final(row_used) == *old(row_used) && *final(col_used) == *old(col_used) && *final(box_used) == *old(box_used),
    decreases empty_positions@.len() - idx,
{
    let ghost pos = empty_positions@;
    let ghost start = *board;
    let ghost g = grid(start);
    let ghost rows0 = *row_used;
    let ghost cols0 = *col_used;
    let ghost boxes0 = *box_used;
    proof { lemma_grid_shaped(start); }
    if idx == empty_positions.len() {
        return true;
    }
    let (r, c) = empty_positions[idx];
    let b = (r / 3) * 3 + (c / 3);
    assert(g[r as int][c as int] == 0);
    assert(cell_ok(r as int, c as int));
    assert(b == box_of(r as int, c as int));
    let next: usize = idx + 1;
    let mut digit: u16 = 1;
    while digit <= 9
        invariant
            1 <= digit <= 10,
            next == idx + 1,
            start == *old(board),
            rows0 == *old(row_used),
            cols0 == *old(col_used),
            boxes0 == *old(box_used),
            shaped(g),
            g == grid(start),
            positions_ok(g, pos, idx as int),
            masks_ok(g, rows0, cols0, boxes0),
            pos == empty_positions@,
            idx < pos.len(),
            pos[idx as int] == (r, c),
            cell_ok(r as int, c as int),
            b == box_of(r as int, c as int),
            g[r as int][c as int] == 0,
            *board == start,
            *row_used == rows0,
            *col_used == cols0,
            *box_used == boxes0,
            try_digits(g, r as int, c as int, digit as int) == search(g, r as int, c as int),
        decreases 10 - digit,
    {
        let mask: u16 = 1u16 << (digit - 1);
        assert(mask == bit(digit as int));
        if (row_used[r] & mask) == 0 && (col_used[c] & mask) == 0 && (box_used[b] & mask) == 0 {
            assert(!holds(rows0[r as int], digit as int));
            assert(!holds(cols0[c as int], digit as int));
            assert(!holds(boxes0[b as int], digit as int));
            assert(allowed(g, r as int, c as int, digit as int));
            board[r][c] = digit as u8;
            proof {
                lemma_add_digit(rows0[r as int], digit as int);
                lemma_add_digit(cols0[c as int], digit as int);
                lemma_add_digit(boxes0[b as int], digit as int);
            }
            row_used[r] |= mask;
            col_used[c] |= mask;
            box_used[b] |= mask;
            let ghost g2 = place(g, r as int, c as int, digit as u8);
            proof {
                assert(grid(*board) =~~= g2);
                lemma_masks_place(g, rows0, cols0, boxes0, *row_used, *col_used, *box_used, r as int, c as int, digit as int);
                lemma_next_position(g, pos, idx as int, digit as u8);
            }
            if backtrack(board, next, empty_positions, row_used, col_used, box_used) {
                return true;
            }
            board[r][c] = 0;
            row_used[r] &= !mask;
            col_used[c] &= !mask;
            box_used[b] &= !mask;
            proof {
                assert(board[r as int] =~= start[r as int]);
                assert(*board =~= start);
                assert(*row_used =~= rows0);
                assert(*col_used =~= cols0);
                assert(*box_used =~= boxes0);
            }
        } else {
            assert(holds(rows0[r as int], digit as int) || holds(cols0[c as int], digit as int)
                || holds(boxes0[b as int], digit as int));
            assert(!allowed(g, r as int, c as int, digit as int));
        }
        digit += 1;
    }
    false
}

pub open spec fn row_has_before(g: Seq<Seq<u8>>, i: int, d: int, n: int) -> bool {
    exists|j: int| 0 <= j < 9 && lin(i, j) < n && g[i][j] == d
}

pub open spec fn col_has_before(g: Seq<Seq<u8>>, j: int, d: int, n: int) -> bool {
    exists|i: int| 0 <= i < 9 && lin(i, j) < n && g[i][j] == d
}

pub open spec fn box_has_before(g: Seq<Seq<u8>>, b: int, d: int, n: int) -> bool {
    exists|i: int, j: int| cell_ok(i, j) && box_of(i, j) == b && lin(i, j) < n && g[i][j] == d
}

/// The tables hold the digits of the cells before rank `n`.
pub open spec fn masks_upto(g: Seq<Seq<u8>>, rows: [u16; 9], cols: [u16; 9], boxes: [u16; 9], n: int) -> bool {
    &&& forall|i: int, d: int| 0 <= i < 9 && 1 <= d <= 9 ==> #[trigger] holds(rows[i], d) == row_has_before(g, i, d, n)
    &&& forall|i: int, d: int| 0 <= i < 9 && 1 <= d <= 9 ==> #[trigger] holds(cols[i], d) == col_has_before(g, i, d, n)
    &&& forall|i: int, d: int| 0 <= i < 9 && 1 <= d <= 9 ==> #[trigger] holds(boxes[i], d) == box_has_before(g, i, d, n)
}

pub open spec fn bound(pos: Seq<(usize, usize)>, k: int, n: int) -> int {
    if k < pos.len() { start_of(pos, k) } else { n }
}

/// The list holds, in order, exactly the empty cells before rank `n`.
pub open spec fn positions_upto(g: Seq<Seq<u8>>, pos: Seq<(usize, usize)>, n: int) -> bool {
    &&& forall|k: int| 0 <= k < pos.len() ==> cell_ok(#[trigger] pos[k].0 as int, pos[k].1 as int)
    &&& forall|k: int| 0 <= k < pos.len() ==> #[trigger] start_of(pos, k) < n
    &&& forall|k1: int, k2: int|
        0 <= k1 < k2 < pos.len() ==> #[trigger] start_of(pos, k1) < #[trigger] start_of(pos, k2)
    &&& forall|k: int| 0 <= k < pos.len() ==> #[trigger] g[pos[k].0 as int][pos[k].1 as int] == 0
    &&& forall|i: int, j: int| cell_ok(i, j) && lin(i, j) < bound(pos, 0, n) ==> #[trigger] g[i][j] != 0
    &&& forall|k: int, i: int, j: int|
        #![trigger start_of(pos, k), g[i][j]]
        0 <= k < pos.len() && cell_ok(i, j) && start_of(pos, k) < lin(i, j) < bound(pos, k + 1, n)
            ==> g[i][j] != 0
}

proof fn lemma_scan_positions(g: Seq<Seq<u8>>, pos: Seq<(usize, usize)>, r: usize, c: usize)
    requires
        shaped(g),
        cell_ok(r as int, c as int),
        positions_upto(g, pos, lin(r as int, c as int)),
    ensures
        g[r as int][c as int] == 0 ==> positions_upto(g, pos.push((r, c)), lin(r as int, c as int) + 1),
        g[r as int][c as int] != 0 ==> positions_upto(g, pos, lin(r as int, c as int) + 1),
{
    let n = lin(r as int, c as int);
    if g[r as int][c as int] == 0 {
        let p2 = pos.push((r, c));
        assert forall|k: int| 0 <= k < pos.len() implies #[trigger] start_of(p2, k) == start_of(pos, k) by {}
        assert(start_of(p2, pos.len() as int) == n);
        assert forall|k1: int, k2: int| 0 <= k1 < k2 < p2.len() implies
            #[trigger] start_of(p2, k1) < #[trigger] start_of(p2, k2) by {
            assert(start_of(p2, k1) == start_of(pos, k1));
            if k2 < pos.len() {
                assert(start_of(p2, k2) == start_of(pos, k2));
            }
        }
        assert forall|k: int| 0 <= k < p2.len() implies #[trigger] g[p2[k].0 as int][p2[k].1 as int] == 0 by {
            if k < pos.len() {
                assert(p2[k] == pos[k]);
            }
        }
        assert forall|k: int, i: int, j: int|
            #![trigger start_of(p2, k), g[i][j]]
            0 <= k < p2.len() && cell_ok(i, j) && start_of(p2, k) < lin(i, j) < bound(p2, k + 1, n + 1)
            implies g[i][j] != 0 by {
            if k < pos.len() {
                assert(start_of(p2, k) == start_of(pos, k));
                if k + 1 < pos.len() {
                    assert(start_of(p2, k + 1) == start_of(pos, k + 1));
                }
            }
        }
        assert forall|i: int, j: int| cell_ok(i, j) && lin(i, j) < bound(p2, 0, n + 1) implies #[trigger] g[i][j] != 0 by {
            if 0 < pos.len() {
                assert(start_of(p2, 0) == start_of(pos, 0));
            }
        }
    } else {
        assert forall|k: int, i: int, j: int|
            #![trigger start_of(pos, k), g[i][j]]
            0 <= k < pos.len() && cell_ok(i, j) && start_of(pos, k) < lin(i, j) < bound(pos, k + 1, n + 1)
            implies g[i][j] != 0 by {
            if lin(i, j) == n {
                assert(i == r && j == c);
            }
        }
        assert forall|i: int, j: int| cell_ok(i, j) && lin(i, j) < bound(pos, 0, n + 1) implies #[trigger] g[i][j] != 0 by {
            if lin(i, j) == n {
                assert(i == r && j == c);
            }
        }
    }
}

proof fn lemma_scan_masks(
    g: Seq<Seq<u8>>,
    rows: [u16; 9],
    cols: [u16; 9],
    boxes: [u16; 9],
    rows2: [u16; 9],
    cols2: [u16; 9],
    boxes2: [u16; 9],
    r: int,
    c: int,
)
    requires
        shaped(g),
        cell_ok(r, c),
        g[r][c] <= 9,
        masks_upto(g, rows, cols, boxes, lin(r, c)),
        g[r][c] == 0 ==> rows2 == rows && cols2 == cols && boxes2 == boxes,
        g[r][c] != 0 ==> rows2@ == rows@.update(r, rows[r] | bit(g[r][c] as int)),
        g[r][c] != 0 ==> cols2@ == cols@.update(c, cols[c] | bit(g[r][c] as int)),
        g[r][c] != 0 ==> boxes2@ == boxes@.update(box_of(r, c), boxes[box_of(r, c)] | bit(g[r][c] as int)),
    ensures
        masks_upto(g, rows2, cols2, boxes2, lin(r, c) + 1),
{
    let n = lin(r, c);
    let v = g[r][c] as int;
    if v != 0 {
        lemma_add_digit(rows[r], v);
        lemma_add_digit(cols[c], v);
        lemma_add_digit(boxes[box_of(r, c)], v);
    }
    assert forall|i: int, e: int| 0 <= i < 9 && 1 <= e <= 9 implies
        #[trigger] holds(rows2[i], e) == row_has_before(g, i, e, n + 1) by {
        if row_has_before(g, i, e, n + 1) {
            let j = choose|j: int| 0 <= j < 9 && lin(i, j) < n + 1 && g[i][j] == e;
            if lin(i, j) < n {
                assert(row_has_before(g, i, e, n));
            } else {
                assert(i == r && j == c);
            }
        }
        if row_has_before(g, i, e, n) {
            let j = choose|j: int| 0 <= j < 9 && lin(i, j) < n && g[i][j] == e;
            assert(lin(i, j) < n + 1);
        }
        if i == r && e == v {
            assert(lin(r, c) < n + 1);
        }
    }
    assert forall|j: int, e: int| 0 <= j < 9 && 1 <= e <= 9 implies
        #[trigger] holds(cols2[j], e) == col_has_before(g, j, e, n + 1) by {
        if col_has_before(g, j, e, n + 1) {
            let i = choose|i: int| 0 <= i < 9 && lin(i, j) < n + 1 && g[i][j] == e;
            if lin(i, j) < n {
                assert(col_has_before(g, j, e, n));
            } else {
                assert(i == r && j == c);
            }
        }
        if col_has_before(g, j, e, n) {
            let i = choose|i: int| 0 <= i < 9 && lin(i, j) < n && g[i][j] == e;
            assert(lin(i, j) < n + 1);
        }
        if j == c && e == v {
            assert(lin(r, c) < n + 1);
        }
    }
    assert forall|b: int, e: int| 0 <= b < 9 && 1 <= e <= 9 implies
        #[trigger] holds(boxes2[b], e) == box_has_before(g, b, e, n + 1) by {
        if box_has_before(g, b, e, n + 1) {
            let (i, j) = choose|i: int, j: int| cell_ok(i, j) && box_of(i, j) == b && lin(i, j) < n + 1 && g[i][j] == e;
            if lin(i, j) < n {
                assert(box_has_before(g, b, e, n));
            } else {
                assert(i == r && j == c);
            }
        }
        if box_has_before(g, b, e, n) {
            let (i, j) = choose|i: int, j: int| cell_ok(i, j) && box_of(i, j) == b && lin(i, j) < n && g[i][j] == e;
            assert(lin(i, j) < n + 1);
        }
        if b == box_of(r, c) && e == v {
            assert(lin(r, c) < n + 1);
        }
    }
}

/// One row-major scan of the board: the list of its empty cells in that order,
/// and the used-digit tables of its rows, columns and boxes.
pub fn precompute(board: &Board) -> (res: (Vec<(usize, usize)>, [u16; 9], [u16; 9], [u16; 9]))
    requires
        digits_ok(grid(*board)),
    ensures
        positions_ok(grid(*board), res.0@, 0),
        forall|i: int, j: int| cell_ok(i, j) && lin(i, j) < start_of(res.0@, 0) ==> #[trigger] grid(*board)[i][j] != 0,
        masks_ok(grid(*board), res.1, res.2, res.3),
{
    let ghost g = grid(*board);
    proof { lemma_grid_shaped(*board); }
    let mut row_used = [0u16; 9];
    let mut col_used = [0u16; 9];
    let mut box_used = [0u16; 9];
    let mut empty_positions: Vec<(usize, usize)> = Vec::new();
    assert forall|d: int| 1 <= d <= 9 implies !#[trigger] holds(0u16, d) by {
        let m = bit(d);
        assert(0u16 & m == 0) by (bit_vector);
    }
    let mut r: usize = 0;
    while r < 9
        invariant
            r <= 9,
            g == grid(*board),
            shaped(g),
            digits_ok(g),
            positions_upto(g, empty_positions@, lin(r as int, 0)),
            masks_upto(g, row_used, col_used, box_used, lin(r as int, 0)),
        decreases 9 - r,
    {
        let mut c: usize = 0;
        while c < 9
            invariant
                r < 9,
                c <= 9,
                g == grid(*board),
                shaped(g),
                digits_ok(g),
                positions_upto(g, empty_positions@, lin(r as int, c as int)),
                masks_upto(g, row_used, col_used, box_used, lin(r as int, c as int)),
            decreases 9 - c,
        {
            let val = board[r][c];
            let ghost rows0 = row_used;
            let ghost cols0 = col_used;
            let ghost boxes0 = box_used;
            proof { lemma_scan_positions(g, empty_positions@, r, c); }
            if val == 0 {
                empty_positions.push((r, c));
            } else {
                let bit: u16 = 1u16 << (val - 1);
                let box_index = (r / 3) * 3 + (c / 3);
                row_used[r] |= bit;
                col_used[c] |= bit;
                box_used[box_index] |= bit;
            }
            proof {
                lemma_scan_masks(g, rows0, cols0, boxes0, row_used, col_used, box_used, r as int, c as int);
            }
            c += 1;
        }
        r += 1;
    }
    proof {
        let pos = empty_positions@;
        assert forall|k1: int, k2: int| 0 <= k1 < k2 <= pos.len() implies
            #[trigger] start_of(pos, k1) < #[trigger] start_of(pos, k2) by {
            if k2 < pos.len() {
            }
        }
        assert forall|i: int, d: int| 0 <= i < 9 && 1 <= d <= 9 implies
            row_has(g, i, d) == row_has_before(g, i, d, 81) && col_has(g, i, d) == col_has_before(g, i, d, 81)
            && box_has(g, i, d) == #[trigger] box_has_before(g, i, d, 81) by {
            if row_has(g, i, d) {
                let j = choose|j: int| 0 <= j < 9 && g[i][j] == d;
                assert(lin(i, j) < 81);
            }
            if col_has(g, i, d) {
                let j = choose|j: int| 0 <= j < 9 && g[j][i] == d;
                assert(lin(j, i) < 81);
            }
            if box_has(g, i, d) {
                let (x, y) = choose|x: int, y: int| cell_ok(x, y) && box_of(x, y) == i && g[x][y] == d;
                assert(lin(x, y) < 81);
            }
        }
        assert forall|i: int, d: int| 0 <= i < 9 && 1 <= d <= 9 implies
            #[trigger] holds(row_used[i], d) == row_has(g, i, d) by {
            assert(box_has(g, i, d) == box_has_before(g, i, d, 81));
        }
        assert forall|i: int, d: int| 0 <= i < 9 && 1 <= d <= 9 implies
            #[trigger] holds(col_used[i], d) == col_has(g, i, d) by {
            assert(box_has(g, i, d) == box_has_before(g, i, d, 81));
        }
        assert forall|i: int, d: int| 0 <= i < 9 && 1 <= d <= 9 implies
            #[trigger] holds(box_used[i], d) == box_has(g, i, d) by {
            assert(box_has(g, i, d) == box_has_before(g, i, d, 81));
        }
    }
    (empty_positions, row_used, col_used, box_used)
}

/// Solves the board in place by backtracking over its empty cells in row-major
/// order, testing each digit against used-digit tables of the rows, columns
/// and boxes. On failure the board is left as it was.
pub fn solve_sudoku(board: &mut Board) -> (solved: bool)
    requires
        digits_ok(grid(*old(board))),
    ensures
        solved_as(*old(board), *final(board), solved),
{
    let ghost g = grid(*board);
    proof { lemma_grid_shaped(*board); }
    let (empty_positions, mut row_used, mut col_used, mut box_used) = precompute(board);
    proof {
        lemma_skip(g, 0, 0, pos_row(empty_positions@, 0), pos_col(empty_positions@, 0));
    }
    backtrack(board, 0, empty_positions.as_slice(), &mut row_used, &mut col_used, &mut box_used)
}

} // verus!
