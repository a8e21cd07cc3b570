use polyomino_solver::board::{Board, BoardError};
use polyomino_solver::matrix::Matrix;
use polyomino_solver::polyomino::Polyomino;

const OFF: (usize, usize) = (usize::MAX, usize::MAX);

fn grid(rows: &[&str]) -> Matrix<bool> {
    Matrix { buf: rows.iter().map(|r| r.chars().map(|c| c == '#').collect()).collect() }
}

fn piece(name: &str, pos: &[(usize, usize)]) -> Polyomino {
    Polyomino::new(name, pos.to_vec()).unwrap()
}

fn l3() -> Polyomino {
    piece("L", &[(0, 0), (1, 0), (1, 1)])
}

fn domino() -> Polyomino {
    piece("D", &[(0, 0), (0, 1)])
}

fn board(size: (usize, usize), pieces: Vec<Polyomino>) -> Board {
    Board::new(size, pieces).unwrap()
}

#[test]
fn new_board_is_empty_and_unsolved() {
    let b = board((2, 3), vec![l3(), l3()]);
    assert_eq!(b.size, (2, 3));
    assert_eq!(b.b, grid(&["...", "..."]));
    assert_eq!(b.polyominoes, vec![l3(), l3()]);
    assert!(b.call_stack.is_empty());
    assert!(!b.solution_found);
    assert!(b.solution.is_none());
}

#[test]
fn new_takes_the_smallest_cell_count_as_threshold() {
    let i4 = piece("I", &[(0, 0), (1, 0), (2, 0), (3, 0)]);
    let b = board((3, 3), vec![i4.clone(), domino(), l3()]);
    assert_eq!(b.min_poliomino_size, 2);
    let c = board((1, 4), vec![i4]);
    assert_eq!(c.min_poliomino_size, 4);
}

#[test]
fn new_rejects_an_empty_piece_list() {
    assert_eq!(Board::new((2, 2), vec![]).err(), Some(BoardError::NoPieces));
    assert_eq!(Board::new((0, 0), vec![]).err(), Some(BoardError::NoPieces));
}

#[test]
fn new_rejects_an_area_that_the_pieces_do_not_cover() {
    assert_eq!(Board::new((1, 3), vec![domino()]).err(), Some(BoardError::AreaMismatch));
    assert_eq!(Board::new((2, 2), vec![l3(), l3()]).err(), Some(BoardError::AreaMismatch));
    assert_eq!(Board::new((0, 5), vec![domino()]).err(), Some(BoardError::AreaMismatch));
    assert_eq!(
        Board::new((usize::MAX, usize::MAX), vec![domino()]).err(),
        Some(BoardError::AreaMismatch)
    );
}

#[test]
fn placeable_needs_the_bounding_box_on_the_board() {
    let b = board((2, 3), vec![l3(), l3()]);
    let mut l = l3();
    assert!(b.placeable((0, 0), &mut l));
    assert!(b.placeable((0, 1), &mut l));
    assert!(!b.placeable((0, 2), &mut l));
    assert!(!b.placeable((1, 0), &mut l));
    assert!(!b.placeable((2, 3), &mut l));
    assert!(!b.placeable((usize::MAX, 0), &mut l));
    assert!(!b.placeable((0, usize::MAX), &mut l));
    assert_eq!(l, l3());
}

#[test]
fn placeable_needs_free_cells_under_the_shape_only() {
    let mut b = board((2, 3), vec![l3(), l3()]);
    b.b = grid(&[".#.", "..#"]);
    let mut l = l3();
    assert!(b.placeable((0, 0), &mut l));
    assert!(!b.placeable((0, 1), &mut l));
    b.b = grid(&["...", ".#."]);
    assert!(!b.placeable((0, 0), &mut l));
    assert!(!b.placeable((0, 1), &mut l));
}

#[test]
fn place_marks_the_cells_and_sets_the_anchor() {
    let mut b = board((2, 3), vec![l3(), l3()]);
    let mut l = l3();
    b.place((0, 1), &mut l);
    assert_eq!(b.b, grid(&[".#.", ".##"]));
    assert_eq!(l.start, (0, 1));
    assert_eq!(l.shape, l3().shape);
    assert!(b.call_stack.is_empty());
}

#[test]
fn place_is_a_logical_or() {
    let mut b = board((2, 3), vec![l3(), l3()]);
    b.b = grid(&["##.", "..."]);
    let mut l = l3();
    b.place((0, 0), &mut l);
    assert_eq!(b.b, grid(&["##.", "##."]));
}

#[test]
fn unplace_clears_the_cells_and_the_anchor() {
    let mut b = board((2, 3), vec![l3(), l3()]);
    b.b = grid(&["###", "###"]);
    let mut l = l3();
    l.start = (0, 1);
    b.unplace(&mut l);
    assert_eq!(b.b, grid(&["#.#", "#.."]));
    assert_eq!(l.start, OFF);
}

#[test]
fn place_then_unplace_restores_the_board() {
    let mut b = board((3, 3), vec![l3(), l3(), l3()]);
    b.b = grid(&["#..", "...", "..#"]);
    let before = b.b.clone();
    let mut forms = l3().feasible_orientations();
    let mut tried = 0;
    for f in forms.iter_mut() {
        for row in 0..3 {
            for col in 0..3 {
                if b.placeable((row, col), f) {
                    b.place((row, col), f);
                    assert_ne!(b.b, before);
                    assert_eq!(f.start, (row, col));
                    b.unplace(f);
                    assert_eq!(b.b, before);
                    assert_eq!(f.start, OFF);
                    tried += 1;
                }
            }
        }
    }
    assert_eq!(tried, 20);
}

#[test]
fn isolated_empty_cell_is_unfillable() {
    let mut b = board((2, 3), vec![l3(), l3()]);
    b.b = grid(&["#.#", "###"]);
    assert!(b.has_unfillable_space());
    b.b = grid(&["...", ".#."]);
    assert!(!b.has_unfillable_space());
    b.b = grid(&[".#.", "#.."]);
    assert!(b.has_unfillable_space());
}

#[test]
fn empty_board_is_fillable() {
    let b = board((2, 3), vec![l3(), l3()]);
    assert!(!b.has_unfillable_space());
    let c = board((1, 2), vec![domino()]);
    assert!(!c.has_unfillable_space());
}

#[test]
fn region_of_exactly_the_threshold_is_fillable() {
    let mut b = board((2, 3), vec![l3(), l3()]);
    b.b = grid(&["#..", "##."]);
    assert!(!b.has_unfillable_space());
    b.b = grid(&["#.#", "#.#"]);
    assert!(b.has_unfillable_space());
}

#[test]
fn regions_touching_only_at_a_corner_are_apart() {
    let mut d = board((2, 2), vec![domino(), domino()]);
    d.b = grid(&[".#", "#."]);
    assert!(d.has_unfillable_space());
    d.b = grid(&["..", "##"]);
    assert!(!d.has_unfillable_space());
    let mut b = board((3, 3), vec![l3(), l3(), l3()]);
    b.b = grid(&["..#", ".#.", "#.."]);
    assert!(!b.has_unfillable_space());
    b.b = grid(&["..#", "...", "#.."]);
    assert!(!b.has_unfillable_space());
    b.b = grid(&["...", "###", ".##"]);
    assert!(b.has_unfillable_space());
}

#[test]
fn full_board_has_no_unfillable_space() {
    let mut b = board((2, 3), vec![l3(), l3()]);
    b.b = grid(&["###", "###"]);
    assert!(!b.has_unfillable_space());
}

#[test]
fn threshold_of_one_never_prunes() {
    let dot = piece("dot", &[(0, 0)]);
    let mut b = board((2, 2), vec![dot.clone(), l3()]);
    assert_eq!(b.min_poliomino_size, 1);
    b.b = grid(&["#.", ".#"]);
    assert!(!b.has_unfillable_space());
}

#[test]
fn pruning_leaves_the_board_as_it_was() {
    let mut b = board((2, 3), vec![l3(), l3()]);
    b.b = grid(&["#.#", "#.."]);
    assert!(!b.has_unfillable_space());
    assert_eq!(b.b, grid(&["#.#", "#.."]));
}

#[test]
fn check_is_true_on_a_full_board_only() {
    let mut b = board((2, 3), vec![l3(), l3()]);
    assert!(!b.check());
    b.b = grid(&["###", "#.#"]);
    assert!(!b.check());
    b.b = grid(&["###", "###"]);
    assert!(b.check());
}
