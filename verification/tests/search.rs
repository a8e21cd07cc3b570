use polyomino_solver::board::{Board, BoardError};
use polyomino_solver::matrix::Matrix;
use polyomino_solver::polyomino::Polyomino;

fn grid(rows: &[&str]) -> Matrix<bool> {
    Matrix { buf: rows.iter().map(|r| r.chars().map(|c| c == '#').collect()).collect() }
}

fn piece(name: &str, pos: &[(usize, usize)]) -> Polyomino {
    Polyomino::new(name, pos.to_vec()).unwrap()
}

fn l3(name: &str) -> Polyomino {
    piece(name, &[(0, 0), (1, 0), (1, 1)])
}

fn l4(name: &str) -> Polyomino {
    piece(name, &[(0, 0), (1, 0), (2, 0), (2, 1)])
}

fn t4(name: &str) -> Polyomino {
    piece(name, &[(0, 0), (0, 1), (0, 2), (1, 1)])
}

fn square() -> Polyomino {
    piece("O", &[(0, 0), (0, 1), (1, 0), (1, 1)])
}

/// Name, shape and anchor of each piece of a solution.
fn summary(solution: &[Polyomino]) -> Vec<(String, Matrix<bool>, (usize, usize))> {
    solution.iter().map(|p| (p.name.clone(), p.shape.clone(), p.start)).collect()
}

fn entry(name: &str, rows: &[&str], at: (usize, usize)) -> (String, Matrix<bool>, (usize, usize)) {
    (name.to_string(), grid(rows), at)
}

/// How many pieces of the solution cover each cell of the board.
fn coverage(size: (usize, usize), solution: &[Polyomino]) -> Vec<Vec<usize>> {
    let mut seen = vec![vec![0usize; size.1]; size.0];
    for p in solution {
        for (r, row) in p.shape.buf.iter().enumerate() {
            for (c, cell) in row.iter().enumerate() {
                if *cell {
                    seen[p.start.0 + r][p.start.1 + c] += 1;
                }
            }
        }
    }
    seen
}

#[test]
fn square_on_two_by_two_board() {
    let mut b = Board::new((2, 2), vec![square()]).unwrap();
    let found = b.find_solution().cloned();
    let solution = found.expect("a solution");
    assert_eq!(summary(&solution), vec![entry("O", &["##", "##"], (0, 0))]);
    assert_eq!(coverage((2, 2), &solution), vec![vec![1, 1], vec![1, 1]]);
    assert!(b.solution_found);
}

#[test]
fn domino_on_one_by_three_board_has_no_solution() {
    let d = piece("D", &[(0, 0), (0, 1)]);
    let made = Board::new((1, 3), vec![d]);
    assert_eq!(made.err(), Some(BoardError::AreaMismatch));
}

#[test]
fn two_l_trominoes_on_two_by_three_board() {
    let mut b = Board::new((2, 3), vec![l3("L1"), l3("L2")]).unwrap();
    let solution = b.find_solution().cloned().expect("a solution");
    assert_eq!(
        summary(&solution),
        vec![entry("L1", &["#.", "##"], (0, 0)), entry("L2", &["##", ".#"], (0, 1))]
    );
    assert_eq!(coverage((2, 3), &solution), vec![vec![1, 1, 1], vec![1, 1, 1]]);
    assert_eq!(solution[0].size, 3);
    assert_eq!(solution[1].size, 3);
}

#[test]
fn pruning_keeps_the_tilings_of_two_by_three() {
    let mut b = Board::new((2, 3), vec![l3("L1"), l3("L2")]).unwrap();
    assert!(!b.has_unfillable_space());
    let mut first = l3("L1");
    b.place((0, 0), &mut first);
    assert_eq!(b.b, grid(&["#..", "##."]));
    assert!(!b.has_unfillable_space());
    let mut second = l3("L2");
    second.rot180();
    assert!(b.placeable((0, 1), &mut second));
    b.place((0, 1), &mut second);
    assert!(b.check());
    assert!(!b.has_unfillable_space());
}

#[test]
fn pruning_cuts_a_placement_that_strands_a_cell() {
    let mut b = Board::new((2, 3), vec![l3("L1"), l3("L2")]).unwrap();
    let mut first = l3("L1");
    first.rot270();
    assert_eq!(first.shape, grid(&[".#", "##"]));
    assert!(b.placeable((0, 0), &mut first));
    b.place((0, 0), &mut first);
    assert!(b.has_unfillable_space());
}

#[test]
fn two_bars_on_two_by_three_board() {
    let bar = |n: &str| piece(n, &[(0, 0), (0, 1), (0, 2)]);
    let mut b = Board::new((2, 3), vec![bar("I1"), bar("I2")]).unwrap();
    let solution = b.find_solution().cloned().expect("a solution");
    assert_eq!(
        summary(&solution),
        vec![entry("I1", &["###"], (0, 0)), entry("I2", &["###"], (1, 0))]
    );
}

#[test]
fn l_and_bar_do_not_tile_two_by_three() {
    let bar = piece("I", &[(0, 0), (0, 1), (0, 2)]);
    let mut b = Board::new((2, 3), vec![l3("L"), bar]).unwrap();
    assert!(b.find_solution().is_none());
    assert!(!b.solution_found);
    assert!(b.solution.is_none());
    assert_eq!(b.b, grid(&["...", "..."]));
    assert!(b.call_stack.is_empty());
}

#[test]
fn four_l_tetrominoes_on_four_by_four_board() {
    let mut b =
        Board::new((4, 4), vec![l4("a"), l4("b"), l4("c"), l4("d")]).unwrap();
    let solution = b.find_solution().cloned().expect("a solution");
    assert_eq!(
        summary(&solution),
        vec![
            entry("a", &["#.", "#.", "##"], (0, 0)),
            entry("b", &["###", "#.."], (0, 1)),
            entry("c", &["##", ".#", ".#"], (1, 2)),
            entry("d", &["..#", "###"], (2, 0)),
        ]
    );
    assert_eq!(coverage((4, 4), &solution), vec![vec![1; 4]; 4]);
}

#[test]
fn search_backtracks_to_a_later_position() {
    let mut b = Board::new(
        (4, 5),
        vec![l4("L1"), t4("T1"), t4("T2"), l4("L2"), square()],
    )
    .unwrap();
    let solution = b.find_solution().cloned().expect("a solution");
    assert_eq!(
        summary(&solution),
        vec![
            entry("L1", &["#.", "#.", "##"], (1, 0)),
            entry("T1", &["###", ".#."], (0, 0)),
            entry("T2", &[".#.", "###"], (1, 1)),
            entry("L2", &["..#", "###"], (2, 2)),
            entry("O", &["##", "##"], (0, 3)),
        ]
    );
    assert_eq!(coverage((4, 5), &solution), vec![vec![1; 5]; 4]);
}

#[test]
fn four_l_trominoes_on_three_by_four_board() {
    let mut b =
        Board::new((3, 4), vec![l3("a"), l3("b"), l3("c"), l3("d")]).unwrap();
    let solution = b.find_solution().cloned().expect("a solution");
    assert_eq!(
        summary(&solution),
        vec![
            entry("a", &["#.", "##"], (1, 0)),
            entry("b", &["#.", "##"], (1, 2)),
            entry("c", &["##", ".#"], (0, 0)),
            entry("d", &["##", ".#"], (0, 2)),
        ]
    );
}

#[test]
fn pieces_that_cannot_tile_exhaust_the_search() {
    let i4 = piece("I", &[(0, 0), (1, 0), (2, 0), (3, 0)]);
    let z4 = piece("Z", &[(0, 0), (0, 1), (1, 1), (1, 2)]);
    let mut b =
        Board::new((4, 5), vec![i4, l4("L"), t4("T"), z4, square()]).unwrap();
    assert!(b.find_solution().is_none());
    assert_eq!(b.b, Matrix::new(4, 5));
    assert!(b.call_stack.is_empty());
}

#[test]
fn search_is_deterministic() {
    let pieces = || vec![l4("L1"), t4("T1"), t4("T2"), l4("L2"), square()];
    let mut one = Board::new((4, 5), pieces()).unwrap();
    let mut two = Board::new((4, 5), pieces()).unwrap();
    let first = one.find_solution().cloned();
    let second = two.find_solution().cloned();
    assert!(first.is_some());
    assert_eq!(first, second);
}

#[test]
fn searching_again_returns_the_recorded_solution() {
    let mut b = Board::new((2, 3), vec![l3("L1"), l3("L2")]).unwrap();
    let first = b.find_solution().cloned();
    let again = b.find_solution().cloned();
    assert!(first.is_some());
    assert_eq!(first, again);
    b.solve(0);
    assert_eq!(b.solution, first);
}

#[test]
fn search_leaves_board_and_stack_as_they_were() {
    let mut b = Board::new((2, 3), vec![l3("L1"), l3("L2")]).unwrap();
    assert!(b.find_solution().is_some());
    assert_eq!(b.b, grid(&["...", "..."]));
    assert!(b.call_stack.is_empty());
    assert_eq!(b.polyominoes, vec![l3("L1"), l3("L2")]);
    assert_eq!(b.size, (2, 3));
    assert_eq!(b.min_poliomino_size, 3);
}

#[test]
fn solve_records_the_solution() {
    let mut b = Board::new((2, 2), vec![square()]).unwrap();
    b.solve(0);
    assert!(b.solution_found);
    let solution = b.solution.clone().expect("a solution");
    assert_eq!(summary(&solution), vec![entry("O", &["##", "##"], (0, 0))]);
}

#[test]
fn solve_continues_from_a_partly_filled_board() {
    let mut b = Board::new((2, 3), vec![l3("L1"), l3("L2")]).unwrap();
    let mut first = l3("L1");
    first.rot90();
    b.place((0, 0), &mut first);
    b.call_stack.push(first.clone());
    b.solve(1);
    let solution = b.solution.clone().expect("a solution");
    assert_eq!(
        summary(&solution),
        vec![entry("L1", &["##", "#."], (0, 0)), entry("L2", &[".#", "##"], (0, 1))]
    );
    assert_eq!(b.b, grid(&["##.", "#.."]));
    assert_eq!(b.call_stack, vec![first]);
}

#[test]
fn pieces_are_placed_in_the_given_order() {
    let bar = piece("I", &[(0, 0), (0, 1), (0, 2), (0, 3)]);
    let mut b = Board::new((3, 4), vec![l4("L1"), bar, l4("L2")]).unwrap();
    let solution = b.find_solution().cloned().expect("a solution");
    let names: Vec<&str> = solution.iter().map(|p| p.name.as_str()).collect();
    assert_eq!(names, vec!["L1", "I", "L2"]);
    assert_eq!(
        summary(&solution),
        vec![
            entry("L1", &["###", "#.."], (0, 0)),
            entry("I", &["####"], (2, 0)),
            entry("L2", &["..#", "###"], (0, 1)),
        ]
    );
    assert_eq!(coverage((3, 4), &solution), vec![vec![1; 4]; 3]);
}
