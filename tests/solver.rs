use sudoku::bitmask;
use sudoku::board::Board;
use sudoku::naive;

fn classic() -> Board {
    [
        [5, 3, 0, 0, 7, 0, 0, 0, 0],
        [6, 0, 0, 1, 9, 5, 0, 0, 0],
        [0, 9, 8, 0, 0, 0, 0, 6, 0],
        [8, 0, 0, 0, 6, 0, 0, 0, 3],
        [4, 0, 0, 8, 0, 3, 0, 0, 1],
        [7, 0, 0, 0, 2, 0, 0, 0, 6],
        [0, 6, 0, 0, 0, 0, 2, 8, 0],
        [0, 0, 0, 4, 1, 9, 0, 0, 5],
        [0, 0, 0, 0, 8, 0, 0, 7, 9],
    ]
}

fn classic_solved() -> Board {
    [
        [5, 3, 4, 6, 7, 8, 9, 1, 2],
        [6, 7, 2, 1, 9, 5, 3, 4, 8],
        [1, 9, 8, 3, 4, 2, 5, 6, 7],
        [8, 5, 9, 7, 6, 1, 4, 2, 3],
        [4, 2, 6, 8, 5, 3, 7, 9, 1],
        [7, 1, 3, 9, 2, 4, 8, 5, 6],
        [9, 6, 1, 5, 3, 7, 2, 8, 4],
        [2, 8, 7, 4, 1, 9, 6, 3, 5],
        [3, 4, 5, 2, 8, 6, 1, 7, 9],
    ]
}

fn each_digit_once(cells: &[u8]) -> bool {
    let mut seen = [false; 10];
    for &v in cells {
        if v == 0 || v > 9 || seen[v as usize] {
            return false;
        }
        seen[v as usize] = true;
    }
    cells.len() == 9
}

fn is_solved(b: &Board) -> bool {
    for i in 0..9 {
        let row: Vec<u8> = (0..9).map(|j| b[i][j]).collect();
        let col: Vec<u8> = (0..9).map(|j| b[j][i]).collect();
        let bx: Vec<u8> = (0..9).map(|k| b[(i / 3) * 3 + k / 3][(i % 3) * 3 + k % 3]).collect();
        if !each_digit_once(&row) || !each_digit_once(&col) || !each_digit_once(&bx) {
            return false;
        }
    }
    true
}

fn keeps_givens(input: &Board, output: &Board) -> bool {
    (0..9).all(|i| (0..9).all(|j| input[i][j] == 0 || input[i][j] == output[i][j]))
}

#[test]
fn naive_solves_classic_puzzle() {
    let mut b = classic();
    assert!(naive::solve_sudoku(&mut b));
    assert_eq!(b[0], [5, 3, 4, 6, 7, 8, 9, 1, 2]);
    assert_eq!(b, classic_solved());
}

#[test]
fn bitmask_solves_classic_puzzle() {
    let mut b = classic();
    assert!(bitmask::solve_sudoku(&mut b));
    assert_eq!(b[0], [5, 3, 4, 6, 7, 8, 9, 1, 2]);
    assert_eq!(b, classic_solved());
}

#[test]
fn solved_output_is_valid_and_keeps_givens() {
    let input = classic();
    let mut a = input;
    let mut b = input;
    assert!(naive::solve_sudoku(&mut a));
    assert!(bitmask::solve_sudoku(&mut b));
    assert!(is_solved(&a) && keeps_givens(&input, &a));
    assert!(is_solved(&b) && keeps_givens(&input, &b));
}

#[test]
fn resolving_solved_board_changes_nothing() {
    let mut b = classic();
    assert!(naive::solve_sudoku(&mut b));
    let once = b;
    assert!(naive::solve_sudoku(&mut b));
    assert_eq!(b, once);
    assert!(bitmask::solve_sudoku(&mut b));
    assert_eq!(b, once);
}

#[test]
fn solvers_agree_on_classic_and_empty() {
    for input in [classic(), [[0u8; 9]; 9]] {
        let mut a = input;
        let mut b = input;
        let ra = naive::solve_sudoku(&mut a);
        let rb = bitmask::solve_sudoku(&mut b);
        assert_eq!(ra, rb);
        assert_eq!(a, b);
    }
}

fn blocked_duplicate() -> Board {
    let mut b = [[0u8; 9]; 9];
    b[0] = [1, 1, 2, 3, 4, 5, 6, 7, 0];
    b[1][8] = 8;
    b[2][8] = 9;
    b
}

#[test]
fn duplicate_in_row_fails_and_restores() {
    let input = blocked_duplicate();
    let mut a = input;
    let mut b = input;
    assert!(!naive::solve_sudoku(&mut a));
    assert!(!bitmask::solve_sudoku(&mut b));
    assert_eq!(a, input);
    assert_eq!(b, input);
}

#[test]
fn unsolvable_consistent_board_fails_and_restores() {
    // (0, 7) can only take 9, after which (0, 8) has no digit left.
    let mut input = [[0u8; 9]; 9];
    input[0] = [1, 2, 3, 4, 5, 6, 7, 0, 0];
    input[1][7] = 8;
    let mut a = input;
    let mut b = input;
    assert!(!naive::solve_sudoku(&mut a));
    assert!(!bitmask::solve_sudoku(&mut b));
    assert_eq!(a, input);
    assert_eq!(b, input);
}

#[test]
fn empty_board_is_solved() {
    let mut a = [[0u8; 9]; 9];
    let mut b = [[0u8; 9]; 9];
    assert!(naive::solve_sudoku(&mut a));
    assert!(bitmask::solve_sudoku(&mut b));
    assert!(is_solved(&a));
    assert!(is_solved(&b));
    assert_eq!(a[0], [1, 2, 3, 4, 5, 6, 7, 8, 9]);
}

#[test]
fn single_empty_cell_gets_its_digit() {
    let mut input = classic_solved();
    input[4][4] = 0;
    let mut a = input;
    let mut b = input;
    assert!(naive::solve_sudoku(&mut a));
    assert!(bitmask::solve_sudoku(&mut b));
    assert_eq!(a[4][4], 5);
    assert_eq!(b[4][4], 5);
    assert_eq!(a, classic_solved());
}

#[test]
fn find_empty_position_is_row_major() {
    let mut b = classic_solved();
    assert_eq!(naive::find_empty_position(&b), None);
    b[7][2] = 0;
    b[3][6] = 0;
    assert_eq!(naive::find_empty_position(&b), Some((3, 6)));
    assert_eq!(naive::find_empty_position(&classic()), Some((0, 2)));
}

#[test]
fn is_valid_checks_row_column_and_box() {
    let b = classic();
    assert!(!naive::is_valid(&b, 0, 2, 5)); // row
    assert!(!naive::is_valid(&b, 0, 2, 8)); // column
    assert!(!naive::is_valid(&b, 0, 2, 6)); // box
    assert!(naive::is_valid(&b, 0, 2, 1));
    assert!(naive::is_valid(&b, 0, 2, 4));
}

#[test]
fn precompute_lists_empties_and_tables() {
    let (pos, rows, cols, boxes) = bitmask::precompute(&classic());
    assert_eq!(pos.len(), 51);
    assert_eq!(pos[0], (0, 2));
    assert_eq!(pos[1], (0, 3));
    assert_eq!(*pos.last().unwrap(), (8, 6));
    // row 0 holds 3, 5, 7
    assert_eq!(rows[0], (1 << 2) | (1 << 4) | (1 << 6));
    // column 0 holds 4, 5, 6, 7, 8
    assert_eq!(cols[0], (1 << 3) | (1 << 4) | (1 << 5) | (1 << 6) | (1 << 7));
    // box 0 holds 3, 5, 6, 8, 9
    assert_eq!(boxes[0], (1 << 2) | (1 << 4) | (1 << 5) | (1 << 7) | (1 << 8));
}

#[test]
fn backtrack_past_end_succeeds() {
    let mut b = classic_solved();
    let (pos, mut rows, mut cols, mut boxes) = bitmask::precompute(&b);
    assert!(pos.is_empty());
    assert!(bitmask::backtrack(&mut b, 0, &pos, &mut rows, &mut cols, &mut boxes));
    assert_eq!(b, classic_solved());
}

#[test]
fn backtrack_fills_from_index() {
    let mut b = classic();
    let (pos, mut rows, mut cols, mut boxes) = bitmask::precompute(&b);
    assert!(bitmask::backtrack(&mut b, 0, &pos, &mut rows, &mut cols, &mut boxes));
    assert_eq!(b, classic_solved());
    assert_eq!(rows, [0x1ff; 9]);
    assert_eq!(cols, [0x1ff; 9]);
    assert_eq!(boxes, [0x1ff; 9]);
}
