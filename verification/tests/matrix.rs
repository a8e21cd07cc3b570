use polyomino_solver::matrix::Matrix;

fn grid(rows: &[&str]) -> Matrix<bool> {
    Matrix { buf: rows.iter().map(|r| r.chars().map(|c| c == '#').collect()).collect() }
}

#[test]
fn matrix_new_has_default_cells() {
    let m: Matrix<bool> = Matrix::new(2, 3);
    assert_eq!(m.buf, vec![vec![false, false, false], vec![false, false, false]]);
    let n: Matrix<u8> = Matrix::new(1, 2);
    assert_eq!(n.buf, vec![vec![0u8, 0u8]]);
}

#[test]
fn matrix_new_without_rows_or_columns() {
    let m: Matrix<bool> = Matrix::new(0, 4);
    assert!(m.buf.is_empty());
    let n: Matrix<bool> = Matrix::new(2, 0);
    assert_eq!(n.buf, vec![Vec::<bool>::new(), Vec::<bool>::new()]);
}

#[test]
fn matrix_bound_is_rows_then_columns() {
    assert_eq!(grid(&["#..", "##."]).bound(), (2, 3));
    assert_eq!(Matrix::<bool>::new(5, 1).bound(), (5, 1));
}

#[test]
fn transpose_swaps_rows_and_columns() {
    let mut m = grid(&["#..", "##."]);
    m.transpose();
    assert_eq!(m, grid(&["##", ".#", ".."]));
    assert_eq!(m.bound(), (3, 2));
}

#[test]
fn transpose_of_numbers() {
    let mut m = Matrix { buf: vec![vec![1, 2, 3], vec![4, 5, 6]] };
    m.transpose();
    assert_eq!(m.buf, vec![vec![1, 4], vec![2, 5], vec![3, 6]]);
}

#[test]
fn flip_hz_reverses_the_rows() {
    let mut m = grid(&["#..", "##.", "..#"]);
    m.flip_hz();
    assert_eq!(m, grid(&["..#", "##.", "#.."]));
}

#[test]
fn flip_vt_reverses_each_row() {
    let mut m = grid(&["#..", "##.", "..#"]);
    m.flip_vt();
    assert_eq!(m, grid(&["..#", ".##", "#.."]));
}

#[test]
fn rot90_is_transpose_then_flip_vt() {
    let mut m = grid(&["#.", "##"]);
    m.rot90();
    assert_eq!(m, grid(&["##", "#."]));
    let mut n = Matrix { buf: vec![vec![1, 2, 3], vec![4, 5, 6]] };
    n.rot90();
    assert_eq!(n.buf, vec![vec![4, 1], vec![5, 2], vec![6, 3]]);
}

#[test]
fn rot180_is_flip_hz_then_flip_vt() {
    let mut m = grid(&["#.", "##"]);
    m.rot180();
    assert_eq!(m, grid(&["##", ".#"]));
    let mut n = Matrix { buf: vec![vec![1, 2, 3], vec![4, 5, 6]] };
    n.rot180();
    assert_eq!(n.buf, vec![vec![6, 5, 4], vec![3, 2, 1]]);
}

#[test]
fn transforms_chain() {
    let mut m = Matrix { buf: vec![vec![1, 2, 3], vec![4, 5, 6]] };
    m.transpose().flip_hz().flip_vt();
    assert_eq!(m.buf, vec![vec![6, 3], vec![5, 2], vec![4, 1]]);
}

#[test]
fn four_quarter_turns_give_the_grid_back() {
    let start = grid(&["#..", "###", ".#."]);
    let mut m = start.clone();
    m.rot90().rot90().rot90().rot90();
    assert_eq!(m, start);
    let wide = Matrix { buf: vec![vec![1, 2, 3, 4], vec![5, 6, 7, 8]] };
    let mut n = wide.clone();
    n.rot90();
    assert_ne!(n, wide);
    n.rot90().rot90().rot90();
    assert_eq!(n, wide);
}

#[test]
fn flipping_twice_gives_the_grid_back() {
    let start = grid(&["#..", "###", ".#.", "..#"]);
    let mut m = start.clone();
    m.flip_hz();
    assert_ne!(m, start);
    m.flip_hz();
    assert_eq!(m, start);
    m.flip_vt();
    assert_ne!(m, start);
    m.flip_vt();
    assert_eq!(m, start);
}

#[test]
fn flips_take_ragged_and_empty_grids() {
    let mut m = Matrix { buf: vec![vec![1], vec![2, 3], vec![]] };
    m.flip_hz();
    assert_eq!(m.buf, vec![vec![], vec![2, 3], vec![1]]);
    m.flip_vt();
    assert_eq!(m.buf, vec![vec![], vec![3, 2], vec![1]]);
    let mut e: Matrix<bool> = Matrix { buf: vec![] };
    e.flip_hz().flip_vt();
    assert!(e.buf.is_empty());
    e.rot180();
    assert!(e.buf.is_empty());
}

#[test]
fn clone_is_equal_and_independent() {
    let start = grid(&["#.", "##"]);
    let mut copy = start.clone();
    assert_eq!(copy, start);
    copy.flip_vt();
    assert_eq!(start, grid(&["#.", "##"]));
    assert_eq!(copy, grid(&[".#", "##"]));
}
