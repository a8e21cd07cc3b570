use polyomino_solver::matrix::Matrix;
use polyomino_solver::polyomino::{PieceError, Polyomino};

const OFF: (usize, usize) = (usize::MAX, usize::MAX);

fn grid(rows: &[&str]) -> Matrix<bool> {
    Matrix { buf: rows.iter().map(|r| r.chars().map(|c| c == '#').collect()).collect() }
}

fn piece(name: &str, pos: &[(usize, usize)]) -> Polyomino {
    Polyomino::new(name, pos.to_vec()).unwrap()
}

fn shapes(v: &[Polyomino]) -> Vec<Matrix<bool>> {
    v.iter().map(|p| p.shape.clone()).collect()
}

#[test]
fn new_builds_name_shape_size_and_anchor() {
    let p = piece("L", &[(0, 0), (1, 0), (1, 1)]);
    assert_eq!(p.name, "L");
    assert_eq!(p.shape, grid(&["#.", "##"]));
    assert_eq!(p.size, 3);
    assert_eq!(p.start, OFF);
}

#[test]
fn new_takes_coordinates_in_any_order() {
    let x = piece("X", &[(1, 0), (0, 1), (1, 1), (2, 1), (1, 2)]);
    assert_eq!(x.shape, grid(&[".#.", "###", ".#."]));
    assert_eq!(x.size, 5);
    let i = piece("I", &[(0, 0), (1, 0), (2, 0), (3, 0), (4, 0)]);
    assert_eq!(i.shape, grid(&["#", "#", "#", "#", "#"]));
    assert_eq!(i.shape.bound(), (5, 1));
}

#[test]
fn new_moves_the_shape_to_the_origin() {
    let p = piece("L", &[(5, 7), (6, 7), (6, 8)]);
    assert_eq!(p.shape, grid(&["#.", "##"]));
    assert_eq!(p.size, 3);
    let far = piece("dot", &[(usize::MAX, usize::MAX)]);
    assert_eq!(far.shape, grid(&["#"]));
    assert_eq!(far.size, 1);
}

#[test]
fn new_counts_a_repeated_coordinate_once() {
    let p = piece("D", &[(0, 0), (0, 0), (0, 1), (0, 0)]);
    assert_eq!(p.shape, grid(&["##"]));
    assert_eq!(p.size, 2);
}

#[test]
fn new_rejects_an_empty_list() {
    assert_eq!(Polyomino::new("none", vec![]).err(), Some(PieceError::Empty));
}

#[test]
fn new_rejects_a_bounding_box_beyond_a_machine_word() {
    assert_eq!(
        Polyomino::new("tall", vec![(0, 0), (usize::MAX, 0)]).err(),
        Some(PieceError::TooLarge)
    );
    assert_eq!(
        Polyomino::new("wide", vec![(3, usize::MAX), (3, 0)]).err(),
        Some(PieceError::TooLarge)
    );
    assert!(Polyomino::new("ok", vec![(1, 0), (1, 2)]).is_ok());
}

#[test]
fn square_has_one_orientation() {
    let mut s = piece("O", &[(0, 0), (0, 1), (1, 0), (1, 1)]);
    let forms = s.feasible_orientations();
    assert_eq!(shapes(&forms), vec![grid(&["##", "##"])]);
}

#[test]
fn l_tromino_orientations_in_order() {
    let mut l = piece("L", &[(0, 0), (1, 0), (1, 1)]);
    let forms = l.feasible_orientations();
    assert_eq!(
        shapes(&forms),
        vec![
            grid(&["#.", "##"]),
            grid(&["##", "#."]),
            grid(&["##", ".#"]),
            grid(&[".#", "##"]),
            grid(&["##", "#."]),
            grid(&["##", ".#"]),
            grid(&[".#", "##"]),
            grid(&["#.", "##"]),
        ]
    );
}

#[test]
fn only_neighbouring_duplicates_are_collapsed() {
    let mut d = piece("D", &[(0, 0), (0, 1)]);
    let forms = d.feasible_orientations();
    let flat = grid(&["##"]);
    let tall = grid(&["#", "#"]);
    assert_eq!(
        shapes(&forms),
        vec![
            flat.clone(),
            tall.clone(),
            flat.clone(),
            tall.clone(),
            flat.clone(),
            tall.clone(),
            flat,
            tall
        ]
    );
}

#[test]
fn pentomino_without_symmetry_has_eight_distinct_orientations() {
    let mut f = piece("F", &[(0, 0), (1, 0), (1, 1), (1, 2), (2, 1)]);
    let forms = f.feasible_orientations();
    assert_eq!(
        shapes(&forms),
        vec![
            grid(&["#..", "###", ".#."]),
            grid(&[".##", "##.", ".#."]),
            grid(&[".#.", "###", "..#"]),
            grid(&[".#.", ".##", "##."]),
            grid(&[".#.", "###", "#.."]),
            grid(&["##.", ".##", ".#."]),
            grid(&["..#", "###", ".#."]),
            grid(&[".#.", "##.", ".##"]),
        ]
    );
}

#[test]
fn orientations_keep_name_and_size_and_are_off_the_board() {
    let mut t = piece("T", &[(0, 0), (0, 1), (0, 2), (1, 1)]);
    let before = t.clone();
    let forms = t.feasible_orientations();
    assert_eq!(t, before);
    assert!(1 <= forms.len() && forms.len() <= 8);
    for f in forms.iter() {
        assert_eq!(f.name, "T");
        assert_eq!(f.size, 4);
        assert_eq!(f.start, OFF);
        let cells: usize = f.shape.buf.iter().map(|r| r.iter().filter(|c| **c).count()).sum();
        assert_eq!(cells, 4);
    }
    for pair in forms.windows(2) {
        assert_ne!(pair[0], pair[1]);
    }
}

#[test]
fn orientations_of_a_placed_piece_are_off_the_board() {
    let mut l = piece("L", &[(0, 0), (1, 0), (1, 1)]);
    l.start = (2, 3);
    let forms = l.feasible_orientations();
    assert_eq!(l.start, (2, 3));
    assert_eq!(forms.len(), 8);
    assert!(forms.iter().all(|f| f.start == OFF));
}

#[test]
fn flip_mirrors_top_and_bottom() {
    let mut l = piece("L", &[(0, 0), (1, 0), (1, 1)]);
    l.flip();
    assert_eq!(l.shape, grid(&["##", "#."]));
    assert_eq!((l.name.as_str(), l.size, l.start), ("L", 3, OFF));
}

#[test]
fn rotations_of_a_piece() {
    let mut a = piece("L", &[(0, 0), (1, 0), (1, 1)]);
    a.rot90();
    assert_eq!(a.shape, grid(&["##", "#."]));
    let mut b = piece("L", &[(0, 0), (1, 0), (1, 1)]);
    b.rot180();
    assert_eq!(b.shape, grid(&["##", ".#"]));
    let mut c = piece("L", &[(0, 0), (1, 0), (1, 1)]);
    c.rot270();
    assert_eq!(c.shape, grid(&[".#", "##"]));
    assert_eq!((c.name.as_str(), c.size, c.start), ("L", 3, OFF));
}

#[test]
fn rot270_is_three_quarter_turns() {
    let mut a = piece("F", &[(0, 0), (1, 0), (1, 1), (1, 2), (2, 1)]);
    let mut b = a.clone();
    a.rot270();
    b.rot90().rot90().rot90();
    assert_eq!(a, b);
    a.rot90();
    assert_eq!(a.shape, grid(&["#..", "###", ".#."]));
}

#[test]
fn flip_then_turn_chains() {
    let mut a = piece("F", &[(0, 0), (1, 0), (1, 1), (1, 2), (2, 1)]);
    a.flip().rot90();
    assert_eq!(a.shape, grid(&["##.", ".##", ".#."]));
}

#[test]
fn clone_copies_every_field() {
    let mut l = piece("L", &[(0, 0), (1, 0), (1, 1)]);
    l.start = (4, 2);
    let copy = l.clone();
    assert_eq!(copy, l);
    assert_eq!(copy.start, (4, 2));
}
