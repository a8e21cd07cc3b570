//! The occupancy board, the placement primitives, the pruning test and the
//! depth-first search for a tiling.

use crate::flood::{at, fill_region, lemma_swept_after_fill, lemma_swept_all, swept};
use crate::grid::{has_shape, lemma_bool_grid_cloned};
use crate::matrix::Matrix;
use crate::placement::{
    before, blank, cell_of, covers, fits, is_full, lemma_piece_upto_bounds,
    lemma_place_then_unplace, lemma_with_piece_step, lemma_without_piece_step, placeable_at,
    with_piece, with_piece_upto, without_piece, without_piece_upto,
};
use crate::polyomino::{lowest, oriented, unplaced, PieceModel, Polyomino};
use crate::region::has_small_region;
use crate::search::{
    attempt, first_solution, lemma_stacked_push, lemma_total_size_step, models, painted, placed,
    scan, search, sizes, stacked, total_size, Puzzle,
};
use crate::tiling::{
    exact_cover, in_order, lemma_completable_is_solved, lemma_exact_cover_lays,
    lemma_full_iff_all_placed, lemma_in_order_push, lemma_lays_is_exact_cover, lemma_search_lays,
    lemma_stack_lays, made_of_polyominoes, solvable, uses_form, well_posed,
};
use vstd::prelude::*;

verus! {

/// Why a board and a list of pieces do not make a puzzle.
#[derive(Clone, Copy, Debug, PartialEq, Eq, Structural)]
pub enum BoardError {
    /// The list of pieces is empty.
    NoPieces,
    /// The cell counts of the pieces do not add up to the board's area.
    AreaMismatch,
}

/// A board with the pieces to place on it, and the state of the search.
#[derive(Debug)]
pub struct Board {
    /// The pieces, in the order in which they are placed.
    pub polyominoes: Vec<Polyomino>,
    /// Rows and columns of the board.
    pub size: (usize, usize),
    /// The occupancy grid: `true` is covered.
    pub b: Matrix<bool>,
    /// Whether a solution is recorded.
    pub solution_found: bool,
    /// The pieces on the board, in the order in which they were placed.
    pub call_stack: Vec<Polyomino>,
    /// The cell count of the smallest piece.
    pub min_poliomino_size: usize,
    /// The recorded solution: the pieces in the order of the puzzle, each
    /// in the form and at the anchor at which it was placed.
    pub solution: Option<Vec<Polyomino>>,
}

/// Why `size` and `pieces` do not make a puzzle, if they do not.
pub open spec fn setup_error(size: (usize, usize), pieces: Seq<PieceModel>) -> Option<BoardError> {
    if pieces.len() == 0 {
        Some(BoardError::NoPieces)
    } else if total_size(pieces) != size.0 * size.1 {
        Some(BoardError::AreaMismatch)
    } else {
        None
    }
}

/// A copy of a list of pieces.
fn copy_of(pieces: &Vec<Polyomino>) -> (copy: Vec<Polyomino>)
    ensures
        models(copy@) == models(pieces@),
{
    let mut copy: Vec<Polyomino> = Vec::new();
    let mut i: usize = 0;
    while i < pieces.len()
        invariant
            i <= pieces.len(),
            copy@.len() == i,
            forall|k: int| 0 <= k < i ==> (#[trigger] copy@[k])@ == pieces@[k]@,
        decreases pieces.len() - i,
    {
        copy.push(pieces[i].clone());
        i += 1;
    }
    assert(models(copy@) =~= models(pieces@));
    copy
}

impl Board {
    /// The pieces to place, as plain values.
    pub open spec fn pieces(&self) -> Seq<PieceModel> {
        models(self.polyominoes@)
    }

    /// The pieces on the board, as plain values.
    pub open spec fn stack(&self) -> Seq<PieceModel> {
        models(self.call_stack@)
    }

    /// The recorded solution, as plain values.
    pub open spec fn recorded(&self) -> Option<Seq<PieceModel>> {
        match self.solution {
            Some(v) => Some(models(v@)),
            None => None,
        }
    }

    /// The tiling problem that the board poses.
    pub open spec fn puzzle(&self) -> Puzzle {
        Puzzle { rows: self.size.0 as nat, cols: self.size.1 as nat, pieces: self.pieces() }
    }

    /// The occupancy grid has the board's dimensions.
    pub open spec fn grid_wf(&self) -> bool {
        has_shape(self.b@, self.size.0 as nat, self.size.1 as nat)
    }

    /// The board poses a puzzle and its state is that of a search: there is
    /// a piece, every piece is well formed, the threshold is the smallest
    /// cell count, the cell counts add up to the area, the flag says whether
    /// a solution is recorded, the pieces on the stack are the first pieces
    /// of the puzzle, no two of them cover the same cell, and the occupancy
    /// grid shows exactly them.
    pub open spec fn wf(&self) -> bool {
        &&& self.grid_wf()
        &&& self.polyominoes@.len() > 0
        &&& forall|k: int|
            0 <= k < self.polyominoes@.len() ==> (#[trigger] self.polyominoes@[k]).wf()
        &&& self.min_poliomino_size == self.puzzle().threshold()
        &&& total_size(self.pieces()) == self.size.0 * self.size.1
        &&& self.solution_found == (self.solution is Some)
        &&& self.b@ == painted(self.size.0 as nat, self.size.1 as nat, self.stack())
        &&& stacked(self.size.0 as nat, self.size.1 as nat, self.stack())
        &&& in_order(self.puzzle(), self.stack())
    }

    /// What a search from this state has established when it ends with
    /// `found` recorded: a recorded tiling is an exact cover of the board;
    /// and where the pieces are polyominoes and none is recorded, no exact
    /// cover of the board begins with the pieces on the stack.
    pub open spec fn tiles_or_cannot(&self, found: Option<Seq<PieceModel>>) -> bool {
        match found {
            Some(s) => exact_cover(self.puzzle(), s),
            None => made_of_polyominoes(self.puzzle()) ==> forall|t: Seq<PieceModel>|
                !exact_cover(self.puzzle(), #[trigger] (self.stack() + t)),
        }
    }

    /// The two boards pose the same puzzle.
    pub open spec fn same_setup(&self, other: &Board) -> bool {
        &&& self.polyominoes@ == other.polyominoes@
        &&& self.size == other.size
        &&& self.min_poliomino_size == other.min_poliomino_size
    }

    /// Everything but the occupancy grid is as in `other`.
    pub open spec fn same_but_grid(&self, other: &Board) -> bool {
        &&& self.polyominoes == other.polyominoes
        &&& self.size == other.size
        &&& self.solution_found == other.solution_found
        &&& self.call_stack == other.call_stack
        &&& self.min_poliomino_size == other.min_poliomino_size
        &&& self.solution == other.solution
    }

    /// What a search from this state, with piece `index` next, leaves
    /// recorded: the solution that was recorded before, if there was one;
    /// else the pieces on the stack followed by what the search finds.
    pub open spec fn outcome(&self, index: nat) -> Option<Seq<PieceModel>> {
        if self.solution_found {
            self.recorded()
        } else {
            match search(self.puzzle(), self.b@, index) {
                Some(rest) => Some(self.stack() + rest),
                None => None,
            }
        }
    }

    /// A well-formed board poses a well-posed puzzle.
    pub proof fn lemma_wf_well_posed(&self)
        requires
            self.wf(),
        ensures
            well_posed(self.puzzle()),
    {
        let z = self.puzzle();
        assert forall|i: int| 0 <= i < z.pieces.len() implies crate::cells::normalized(
            (#[trigger] z.pieces[i]).shape,
        ) && z.pieces[i].size == crate::cells::count(z.pieces[i].shape) by {
            assert(self.polyominoes@[i].wf());
        }
    }

    /// The board is full exactly when every piece lies on it.
    pub proof fn lemma_full_iff_all_placed(&self)
        requires
            self.wf(),
        ensures
            is_full(self.b@) <==> self.call_stack@.len() == self.polyominoes@.len(),
    {
        self.lemma_wf_well_posed();
        lemma_full_iff_all_placed(self.puzzle(), self.stack());
    }

    /// Soundness and completeness of the search from any state: what the
    /// search leaves recorded is an exact cover of the board, and it leaves
    /// none recorded only where polyominoes have no exact cover that begins
    /// with the pieces on the stack.
    pub proof fn lemma_outcome_tiles_or_cannot(&self, index: nat)
        requires
            self.wf(),
            index == self.call_stack@.len(),
            !self.solution_found,
        ensures
            self.tiles_or_cannot(self.outcome(index)),
    {
        let z = self.puzzle();
        let st = self.stack();
        self.lemma_wf_well_posed();
        match search(z, self.b@, index) {
            Some(rest) => {
                lemma_search_lays(z, self.b@, index);
                lemma_stack_lays(z, st, rest, 0);
                assert(st.take(0) =~= Seq::empty());
                assert(st.skip(0) + rest =~= st + rest);
                lemma_lays_is_exact_cover(z, st + rest);
            },
            None => {
                if made_of_polyominoes(z) {
                    assert forall|t: Seq<PieceModel>| !exact_cover(z, #[trigger] (st + t)) by {
                        if exact_cover(z, st + t) {
                            lemma_exact_cover_lays(z, st + t, index as int);
                            assert((st + t).take(index as int) =~= st);
                            assert((st + t).skip(index as int) =~= t);
                            lemma_completable_is_solved(z, self.b@, index, t);
                        }
                    }
                }
            },
        }
    }

    /// With the pieces off the board and no solution recorded, a search
    /// from the first piece records the puzzle's solution.
    pub proof fn lemma_fresh_outcome(&self)
        requires
            self.wf(),
            self.call_stack@.len() == 0,
            !self.solution_found,
        ensures
            self.b@ == blank(self.size.0 as nat, self.size.1 as nat),
            self.outcome(0) == first_solution(self.puzzle()),
    {
        assert(self.stack() =~= Seq::empty());
        match first_solution(self.puzzle()) {
            Some(s) => {
                assert(self.stack() + s =~= s);
            },
            None => {},
        }
    }

    /// Determinism: two boards that pose the same puzzle, each with its
    /// pieces off the board and no solution recorded, record the same
    /// solution, or both none.
    pub proof fn lemma_same_puzzle_same_outcome(&self, other: &Board)
        requires
            self.wf(),
            other.wf(),
            self.puzzle() == other.puzzle(),
            self.call_stack@.len() == 0,
            other.call_stack@.len() == 0,
            !self.solution_found,
            !other.solution_found,
        ensures
            self.outcome(0) == other.outcome(0),
    {
        self.lemma_fresh_outcome();
        other.lemma_fresh_outcome();
    }

    /// The state of a search from `entry` while it tries piece `index` in
    /// the forms `fo`, between two tries: no solution is recorded yet, the
    /// board and the stack are as in `entry`, and the forms are off the
    /// board.
    spec fn trying(&self, entry: &Board, index: usize, fo: Seq<Polyomino>) -> bool {
        let z = entry.puzzle();
        let k = index as nat;
        &&& self.wf()
        &&& entry.wf()
        &&& !entry.solution_found
        &&& !self.solution_found
        &&& entry.tiles_or_cannot(entry.outcome(k))
        &&& search(z, entry.b@, k) == scan(z, entry.b@, k, 0, 0, 0)
        &&& self.same_setup(entry)
        &&& self.b@ == entry.b@
        &&& self.call_stack@ == entry.call_stack@
        &&& index == entry.call_stack@.len()
        &&& index < entry.polyominoes@.len()
        &&& index < usize::MAX
        &&& fo.len() == z.forms(k as int).len()
        &&& forall|j: int|
            0 <= j < fo.len() ==> (#[trigger] fo[j])@ == oriented(
                z.pieces[k as int],
                z.forms(k as int)[j],
            ) && fo[j].wf()
    }

    /// An empty board of `size` rows and columns for the given pieces.
    pub fn new(size: (usize, usize), polyominoes: Vec<Polyomino>) -> (r: Result<Self, BoardError>)
        requires
            forall|k: int| 0 <= k < polyominoes@.len() ==> (#[trigger] polyominoes@[k]).wf(),
        ensures
            match r {
                Ok(board) => {
                    &&& setup_error(size, models(polyominoes@)) is None
                    &&& board.wf()
                    &&& board.size == size
                    &&& board.polyominoes@ == polyominoes@
                    &&& board.b@ == blank(size.0 as nat, size.1 as nat)
                    &&& board.call_stack@.len() == 0
                    &&& board.solution is None
                },
                Err(e) => setup_error(size, models(polyominoes@)) == Some(e),
            },
    {
        let (rows, cols) = size;
        let n = polyominoes.len();
        if n == 0 {
            return Err(BoardError::NoPieces);
        }
        let ghost ps = models(polyominoes@);
        let ghost sz = sizes(ps);
        let mut total: u128 = 0;
        let mut min_size: usize = polyominoes[0].size;
        let mut i: usize = 0;
        assert(ps.take(0) =~= Seq::empty());
        while i < n
            invariant
                n == polyominoes@.len(),
                ps == models(polyominoes@),
                sz == sizes(ps),
                i <= n,
                total == total_size(ps.take(i as int)),
                total <= i * usize::MAX,
                i == 0 ==> min_size == sz[0],
                i > 0 ==> min_size == lowest(sz.take(i as int)),
            decreases n - i,
        {
            let s = polyominoes[i].size;
            proof {
                lemma_total_size_step(ps, i as int);
                assert(ps[i as int].size == s);
                assert(sz[i as int] == s);
                assert((i + 1) * usize::MAX <= usize::MAX * usize::MAX) by (nonlinear_arith)
                    requires
                        i + 1 <= usize::MAX,
                ;
                assert(usize::MAX * usize::MAX <= 0xffff_ffff_ffff_ffff * 0xffff_ffff_ffff_ffff)
                    by (nonlinear_arith)
                    requires
                        usize::MAX <= 0xffff_ffff_ffff_ffff,
                ;
                assert(i * usize::MAX + usize::MAX == (i + 1) * usize::MAX) by (nonlinear_arith);
                assert(sz.take(i + 1).drop_last() =~= sz.take(i as int));
                assert(sz.take(i + 1).last() == s);
                if i == 0 {
                    assert(sz.take(1).len() == 1);
                }
            }
            total = total + s as u128;
            if s < min_size {
                min_size = s;
            }
            i += 1;
        }
        proof {
            assert(ps.take(n as int) =~= ps);
            assert(sz.take(n as int) =~= sz);
            assert(rows * cols <= 0xffff_ffff_ffff_ffff * 0xffff_ffff_ffff_ffff) by (nonlinear_arith)
                requires
                    0 <= rows <= 0xffff_ffff_ffff_ffff,
                    0 <= cols <= 0xffff_ffff_ffff_ffff,
            ;
        }
        let area: u128 = (rows as u128) * (cols as u128);
        if total != area {
            return Err(BoardError::AreaMismatch);
        }
        let board = Board {
            call_stack: Vec::with_capacity(n),
            size,
            polyominoes,
            b: Matrix::new(rows, cols),
            solution_found: false,
            min_poliomino_size: min_size,
            solution: None,
        };
        proof {
            assert(board.stack() =~= Seq::empty());
            assert(board.b@ =~~= blank(rows as nat, cols as nat));
        }
        Ok(board)
    }

    /// Whether `pol` can be laid with its top-left corner at `pos`: its
    /// bounding box lies on the board and it covers no cell that is covered
    /// already.
    pub fn placeable(&self, pos: (usize, usize), pol: &mut Polyomino) -> (ok: bool)
        requires
            self.grid_wf(),
            old(pol).shape.is_rect(),
        ensures
            *final(pol) == *old(pol),
            ok == placeable_at(self.b@, cell_of(pos), old(pol).shape@),
    {
        let (row, col) = pos;
        let (brows, bcols) = self.size;
        let (prows, pcols) = pol.shape.bound();
        let ghost g = self.b@;
        let ghost s = pol.shape@;
        let ghost at = cell_of(pos);
        if prows > brows || row > brows - prows || pcols > bcols || col > bcols - pcols {
            return false;
        }
        assert(g[0].len() == bcols);
        let mut r: usize = 0;
        while r < prows
            invariant
                self.grid_wf(),
                g == self.b@,
                s == pol.shape@,
                pol.shape.is_rect(),
                at == cell_of(pos),
                (row, col) == pos,
                (brows, bcols) == self.size,
                prows == s.len(),
                pcols == s[0].len(),
                row + prows <= brows,
                col + pcols <= bcols,
                r <= prows,
                forall|a: int, b: int|
                    0 <= a < r && 0 <= b < pcols ==> !(g[row + a][col + b] && #[trigger] s[a][b]),
            decreases prows - r,
        {
            let mut c: usize = 0;
            while c < pcols
                invariant
                    self.grid_wf(),
                    g == self.b@,
                    s == pol.shape@,
                    pol.shape.is_rect(),
                    at == cell_of(pos),
                    (row, col) == pos,
                    (brows, bcols) == self.size,
                    prows == s.len(),
                    pcols == s[0].len(),
                    row + prows <= brows,
                    col + pcols <= bcols,
                    r < prows,
                    c <= pcols,
                    forall|a: int, b: int|
                        0 <= a < r && 0 <= b < pcols ==> !(g[row + a][col + b] && #[trigger] s[a][b]),
                    forall|b: int| 0 <= b < c ==> !(g[row + r][col + b] && #[trigger] s[r as int][b]),
                decreases pcols - c,
            {
                assert(s[r as int].len() == pcols);
                assert(g[row + r].len() == bcols);
                assert(s[r as int] == pol.shape.buf@[r as int]@);
                assert(g[row + r] == self.b.buf@[row + r]@);
                if self.b.buf[row + r][col + c] && pol.shape.buf[r][c] {
                    proof {
                        let p = (row + r, col + c);
                        assert(covers(at, s, p));
                        assert(crate::cells::filled(g, p));
                    }
                    return false;
                }
                c += 1;
            }
            r += 1;
        }
        proof {
            assert forall|p: (int, int)| #[trigger] covers(at, s, p) implies !crate::cells::filled(
                g,
                p,
            ) by {
                let a = p.0 - at.0;
                let b = p.1 - at.1;
                assert(s[a].len() == pcols);
                assert(!(g[row + a][col + b] && s[a][b]));
            }
        }
        true
    }

    /// Lays `pol` with its top-left corner at `pos`: marks the cells it
    /// covers and sets its anchor.
    pub fn place(&mut self, pos: (usize, usize), pol: &mut Polyomino)
        requires
            old(self).grid_wf(),
            old(pol).shape.is_rect(),
            fits(old(self).b@, cell_of(pos), old(pol).shape@),
        ensures
            final(self).b@ == with_piece(old(self).b@, cell_of(pos), old(pol).shape@),
            final(self).same_but_grid(old(self)),
            final(pol)@ == (PieceModel { start: pos, ..old(pol)@ }),
            final(pol).wf() == old(pol).wf(),
    {
        let (row, col) = pos;
        let (prows, pcols) = pol.shape.bound();
        pol.start = pos;
        let ghost entry = *self;
        let ghost g = self.b@;
        let ghost s = pol.shape@;
        let ghost at = cell_of(pos);
        let ghost brows = self.size.0;
        let ghost bcols = self.size.1;
        proof {
            lemma_piece_upto_bounds(g, at, s, 0);
            assert(g[0].len() == bcols);
        }
        let mut r: usize = 0;
        while r < prows
            invariant
                has_shape(g, brows as nat, bcols as nat),
                self.same_but_grid(&entry),
                s == pol.shape@,
                pol.shape.is_rect(),
                at == cell_of(pos),
                (row, col) == pos,
                prows == s.len(),
                pcols == s[0].len(),
                row + prows <= brows,
                col + pcols <= bcols,
                r <= prows,
                self.b@ == with_piece_upto(g, at, s, (r as int, 0)),
            decreases prows - r,
        {
            let mut c: usize = 0;
            while c < pcols
                invariant
                    has_shape(g, brows as nat, bcols as nat),
                    self.same_but_grid(&entry),
                    s == pol.shape@,
                    pol.shape.is_rect(),
                    at == cell_of(pos),
                    (row, col) == pos,
                    prows == s.len(),
                    pcols == s[0].len(),
                    row + prows <= brows,
                    col + pcols <= bcols,
                    r < prows,
                    c <= pcols,
                    self.b@ == with_piece_upto(g, at, s, (r as int, c as int)),
                decreases pcols - c,
            {
                assert(s[r as int].len() == pcols);
                assert(g[row + r].len() == bcols);
                assert(s[r as int] == pol.shape.buf@[r as int]@);
                assert(self.b@.len() == brows);
                assert(self.b@[row + r] == self.b.buf@[row + r]@);
                assert(self.b@[row + r].len() == bcols);
                let v = self.b.buf[row + r][col + c] || pol.shape.buf[r][c];
                self.b.put(row + r, col + c, v);
                proof {
                    lemma_with_piece_step(g, at, s, r as int, c as int);
                }
                c += 1;
            }
            proof {
                lemma_piece_upto_bounds(g, at, s, r as int);
                assert(s[r as int].len() == pcols);
            }
            r += 1;
        }
        proof {
            lemma_piece_upto_bounds(g, at, s, 0);
        }
    }

    /// Takes `pol` off the board: empties the cells it covers at its anchor
    /// and clears the anchor.
    pub fn unplace(&mut self, pol: &mut Polyomino)
        requires
            old(self).grid_wf(),
            old(pol).shape.is_rect(),
            fits(old(self).b@, cell_of(old(pol).start), old(pol).shape@),
        ensures
            final(self).b@ == without_piece(
                old(self).b@,
                cell_of(old(pol).start),
                old(pol).shape@,
            ),
            final(self).same_but_grid(old(self)),
            final(pol)@ == (PieceModel { start: unplaced(), ..old(pol)@ }),
            final(pol).wf() == old(pol).wf(),
    {
        let (row, col) = pol.start;
        let (prows, pcols) = pol.shape.bound();
        let ghost pos = pol.start;
        pol.start = (usize::MAX, usize::MAX);
        let ghost entry = *self;
        let ghost g = self.b@;
        let ghost s = pol.shape@;
        let ghost at = cell_of(pos);
        let ghost brows = self.size.0;
        let ghost bcols = self.size.1;
        proof {
            lemma_piece_upto_bounds(g, at, s, 0);
            assert(g[0].len() == bcols);
        }
        let mut r: usize = 0;
        while r < prows
            invariant
                has_shape(g, brows as nat, bcols as nat),
                self.same_but_grid(&entry),
                s == pol.shape@,
                pol.shape.is_rect(),
                at == cell_of(pos),
                (row, col) == pos,
                prows == s.len(),
                pcols == s[0].len(),
                row + prows <= brows,
                col + pcols <= bcols,
                r <= prows,
                self.b@ == without_piece_upto(g, at, s, (r as int, 0)),
            decreases prows - r,
        {
            let mut c: usize = 0;
            while c < pcols
                invariant
                    has_shape(g, brows as nat, bcols as nat),
                    self.same_but_grid(&entry),
                    s == pol.shape@,
                    pol.shape.is_rect(),
                    at == cell_of(pos),
                    (row, col) == pos,
                    prows == s.len(),
                    pcols == s[0].len(),
                    row + prows <= brows,
                    col + pcols <= bcols,
                    r < prows,
                    c <= pcols,
                    self.b@ == without_piece_upto(g, at, s, (r as int, c as int)),
                decreases pcols - c,
            {
                assert(s[r as int].len() == pcols);
                assert(g[row + r].len() == bcols);
                assert(s[r as int] == pol.shape.buf@[r as int]@);
                assert(self.b@[row + r].len() == bcols);
                if pol.shape.buf[r][c] {
                    self.b.put(row + r, col + c, false);
                }
                proof {
                    lemma_without_piece_step(g, at, s, r as int, c as int);
                }
                c += 1;
            }
            proof {
                lemma_piece_upto_bounds(g, at, s, r as int);
                assert(s[r as int].len() == pcols);
            }
            r += 1;
        }
        proof {
            lemma_piece_upto_bounds(g, at, s, 0);
        }
    }

    /// Whether some region of empty cells is too small for any piece: the
    /// empty cells fall into maximal four-connected regions, and one of them
    /// has fewer cells than the smallest piece.
    pub fn has_unfillable_space(&self) -> (small: bool)
        requires
            self.grid_wf(),
        ensures
            small == has_small_region(self.b@, self.min_poliomino_size as nat),
    {
        let (rows, cols) = self.size;
        let ghost g = self.b@;
        let ghost min = self.min_poliomino_size as nat;
        let mut mask = self.b.clone();
        proof {
            lemma_bool_grid_cloned(g, mask@);
        }
        let mut y: usize = 0;
        while y < rows
            invariant
                g == self.b@,
                (rows, cols) == self.size,
                min == self.min_poliomino_size,
                y <= rows,
                swept(g, mask@, rows as nat, cols as nat, min, (y as int, 0)),
            decreases rows - y,
        {
            let mut x: usize = 0;
            while x < cols
                invariant
                    g == self.b@,
                    (rows, cols) == self.size,
                    min == self.min_poliomino_size,
                    y < rows,
                    x <= cols,
                    swept(g, mask@, rows as nat, cols as nat, min, (y as int, x as int)),
                decreases cols - x,
            {
                assert(mask@[y as int] == mask.buf@[y as int]@);
                assert(mask@[y as int].len() == cols);
                if !mask.buf[y][x] {
                    let ghost m0 = mask@;
                    let size = fill_region(&mut mask, rows, cols, y, x, Ghost(g));
                    if size < self.min_poliomino_size {
                        return true;
                    }
                    proof {
                        lemma_swept_after_fill(
                            g,
                            m0,
                            mask@,
                            rows as nat,
                            cols as nat,
                            min,
                            (y as int, x as int),
                        );
                    }
                } else {
                    assert(at(mask@, (y as int, x as int)));
                    assert forall|p: (int, int)|
                        crate::cells::rectangle(rows as nat, cols as nat).contains(p) && before(
                            p,
                            (y as int, x + 1),
                        ) implies #[trigger] at(mask@, p) by {
                        if p != (y as int, x as int) {
                            assert(before(p, (y as int, x as int)));
                        }
                    }
                }
                x += 1;
            }
            assert forall|p: (int, int)|
                crate::cells::rectangle(rows as nat, cols as nat).contains(p) && before(
                    p,
                    (y + 1, 0),
                ) implies #[trigger] at(mask@, p) by {
                assert(before(p, (y as int, cols as int)));
            }
            y += 1;
        }
        proof {
            lemma_swept_all(g, mask@, rows as nat, cols as nat, min);
        }
        false
    }

    /// Whether every cell of the board is covered.
    pub fn check(&self) -> (full: bool)
        ensures
            full == is_full(self.b@),
    {
        let ghost g = self.b@;
        let mut i: usize = 0;
        while i < self.b.buf.len()
            invariant
                g == self.b@,
                i <= self.b.buf@.len(),
                forall|a: int, b: int| 0 <= a < i && 0 <= b < g[a].len() ==> #[trigger] g[a][b],
            decreases self.b.buf@.len() - i,
        {
            let mut j: usize = 0;
            assert(g[i as int] == self.b.buf@[i as int]@);
            while j < self.b.buf[i].len()
                invariant
                    g == self.b@,
                    i < self.b.buf@.len(),
                    g[i as int] == self.b.buf@[i as int]@,
                    j <= g[i as int].len(),
                    forall|a: int, b: int| 0 <= a < i && 0 <= b < g[a].len() ==> #[trigger] g[a][b],
                    forall|b: int| 0 <= b < j ==> #[trigger] g[i as int][b],
                decreases g[i as int].len() - j,
            {
                if !self.b.buf[i][j] {
                    assert(!g[i as int][j as int]);
                    return false;
                }
                j += 1;
            }
            i += 1;
        }
        true
    }

    /// Runs the search from the first piece and returns the recorded
    /// solution, if there is one: the solution that was recorded before, or
    /// else the first tiling in the search's order. A tiling that the search
    /// records is an exact cover of the board; and where the pieces are
    /// polyominoes and the search records none, no exact cover exists.
    pub fn find_solution(&mut self) -> (found: Option<&Vec<Polyomino>>)
        requires
            old(self).wf(),
            old(self).call_stack@.len() == 0,
        ensures
            final(self).wf(),
            final(self).same_setup(old(self)),
            final(self).b@ == old(self).b@,
            final(self).call_stack@ == old(self).call_stack@,
            final(self).recorded() == (if old(self).solution_found {
                old(self).recorded()
            } else {
                first_solution(old(self).puzzle())
            }),
            !old(self).solution_found ==> match final(self).recorded() {
                Some(s) => exact_cover(old(self).puzzle(), s),
                None => made_of_polyominoes(old(self).puzzle()) ==> !solvable(old(self).puzzle()),
            },
            match found {
                Some(v) => final(self).solution == Some(*v),
                None => final(self).solution is None,
            },
    {
        proof {
            if !self.solution_found {
                self.lemma_fresh_outcome();
                let z = self.puzzle();
                if first_solution(z) is None && made_of_polyominoes(z) && solvable(z) {
                    let t = choose|t: Seq<PieceModel>| exact_cover(z, t);
                    assert(self.stack() + t =~= t);
                    self.lemma_outcome_tiles_or_cannot(0);
                }
            }
        }
        self.solve(0);
        self.solution.as_ref()
    }

    /// The search with piece `index` next: records the first tiling that
    /// the search finds from the present state, and leaves the board and the
    /// stack as they were. With a solution recorded already it does nothing.
    ///
    /// The search succeeds where the board is full, which is where every
    /// piece lies on it. Otherwise it gives the branch up where an empty
    /// region is too small for any piece, and else tries piece `index` in
    /// each of its forms, in order, at each position in row-major order,
    /// searching on with the next piece after each placement and taking the
    /// piece off again. It stops at the first success.
    pub fn solve(&mut self, index: usize)
        requires
            old(self).wf(),
            index == old(self).call_stack@.len(),
        ensures
            final(self).wf(),
            final(self).same_setup(old(self)),
            final(self).b@ == old(self).b@,
            final(self).call_stack@ == old(self).call_stack@,
            final(self).recorded() == old(self).outcome(index as nat),
            !old(self).solution_found ==> old(self).tiles_or_cannot(final(self).recorded()),
        decreases old(self).polyominoes@.len() - index,
    {
        if self.solution_found {
            return;
        }
        proof {
            self.lemma_outcome_tiles_or_cannot(index as nat);
        }
        if self.check() {
            let copy = copy_of(&self.call_stack);
            self.solution_found = true;
            self.solution = Some(copy);
            proof {
                assert(old(self).stack() + Seq::empty() =~= old(self).stack());
            }
            return;
        }
        proof {
            self.lemma_full_iff_all_placed();
            assert(self.stack().len() == index);
            assert(self.puzzle().pieces.len() == self.polyominoes.len());
            assert(index < self.polyominoes.len());
        }
        if self.has_unfillable_space() {
            return;
        }
        let ghost entry = *self;
        let ghost z = entry.puzzle();
        let ghost occ = entry.b@;
        let ghost k = index as nat;
        assert(entry == *old(self));
        let mut fo = self.polyominoes[index].feasible_orientations();
        let (rows, cols) = self.size;
        proof {
            assert(self.polyominoes@ =~= entry.polyominoes@);
            assert(entry.polyominoes@[index as int].wf());
            assert(entry.polyominoes@[index as int]@ == z.pieces[index as int]);
        }
        let mut o: usize = 0;
        while o < fo.len()
            invariant
                entry == *old(self),
                z == entry.puzzle(),
                occ == entry.b@,
                k == index,
                (rows, cols) == self.size,
                self.trying(&entry, index, fo@),
                o <= fo@.len(),
                scan(z, occ, k, 0, 0, 0) == scan(z, occ, k, o as nat, 0, 0),
            decreases fo@.len() - o,
        {
            let mut row: usize = 0;
            while row < rows
                invariant
                    entry == *old(self),
                    z == entry.puzzle(),
                    occ == entry.b@,
                    k == index,
                    (rows, cols) == self.size,
                    self.trying(&entry, index, fo@),
                    o < fo@.len(),
                    row <= rows,
                    scan(z, occ, k, 0, 0, 0) == scan(z, occ, k, o as nat, row as nat, 0),
                decreases rows - row,
            {
                let mut col: usize = 0;
                while col < cols
                    invariant
                        entry == *old(self),
                        z == entry.puzzle(),
                        occ == entry.b@,
                        k == index,
                        (rows, cols) == self.size,
                        self.trying(&entry, index, fo@),
                        o < fo@.len(),
                        row < rows,
                        col <= cols,
                        scan(z, occ, k, 0, 0, 0) == scan(z, occ, k, o as nat, row as nat, col as nat),
                    decreases cols - col,
                {
                    let ghost form = z.forms(k as int)[o as int];
                    let ghost pos = (row as int, col as int);
                    let ghost fo0 = fo@;
                    assert(fo@[o as int]@ == oriented(z.pieces[k as int], form) && fo@[o as int].wf());
                    if self.placeable((row, col), &mut fo[o]) {
                        self.place((row, col), &mut fo[o]);
                        let piece = fo[o].clone();
                        let ghost pm = placed(z.pieces[k as int], form, (row, col));
                        let ghost occ1 = with_piece(occ, pos, form);
                        assert(piece@ == pm);
                        self.call_stack.push(piece);
                        proof {
                            assert(self.stack() =~= entry.stack().push(pm));
                            lemma_stacked_push(rows as nat, cols as nat, entry.stack(), pm);
                            assert(pm == placed(
                                z.pieces[k as int],
                                z.forms(k as int)[o as int],
                                pm.start,
                            ));
                            assert(uses_form(z, k as int, pm));
                            lemma_in_order_push(z, entry.stack(), pm);
                            assert(self.b@ == occ1);
                        }
                        let ghost mid = *self;
                        self.solve(index + 1);
                        self.call_stack.pop();
                        self.unplace(&mut fo[o]);
                        proof {
                            lemma_place_then_unplace(occ, pos, form);
                            assert(self.call_stack@ =~= entry.call_stack@);
                            assert forall|j: int| 0 <= j < fo@.len() implies (#[trigger] fo@[j])@
                                == oriented(z.pieces[k as int], z.forms(k as int)[j])
                                && fo@[j].wf() by {
                                if j != o {
                                    assert(fo@[j] == fo0[j]);
                                }
                            }
                            assert(self.puzzle() == z);
                            assert(mid.puzzle() == z);
                            if self.solution_found {
                                let rest = search(z, occ1, k + 1)->Some_0;
                                assert(mid.stack() + rest =~= entry.stack() + (seq![pm] + rest));
                                assert(attempt(z, occ, k, o as nat, row as nat, col as nat) == Some(
                                    seq![pm] + rest,
                                ));
                            } else {
                                assert(search(z, occ1, k + 1) is None);
                                assert(attempt(z, occ, k, o as nat, row as nat, col as nat) is None);
                            }
                        }
                        if self.solution_found {
                            return;
                        }
                    } else {
                        assert(attempt(z, occ, k, o as nat, row as nat, col as nat) is None);
                    }
                    assert(scan(z, occ, k, o as nat, row as nat, col as nat) == scan(
                        z,
                        occ,
                        k,
                        o as nat,
                        row as nat,
                        (col + 1) as nat,
                    ));
                    col += 1;
                }
                row += 1;
            }
            o += 1;
        }
    }
}

} // verus!
