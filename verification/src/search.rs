//! The placement search as mathematics: what the depth-first search returns
//! from any state of the board.

use crate::placement::{blank, cell_of, is_full, placeable_at, with_piece};
use crate::polyomino::{lowest, orientations, PieceModel, Polyomino};
use crate::region::has_small_region;
use vstd::prelude::*;

verus! {

/// A tiling problem: the board's dimensions and the pieces, in the order in
/// which they are placed.
pub struct Puzzle {
    pub rows: nat,
    pub cols: nat,
    pub pieces: Seq<PieceModel>,
}

/// The pieces of a list as plain values.
pub open spec fn models(pieces: Seq<Polyomino>) -> Seq<PieceModel> {
    Seq::new(pieces.len(), |k: int| pieces[k]@)
}

/// The cell counts of the pieces.
pub open spec fn sizes(pieces: Seq<PieceModel>) -> Seq<int> {
    Seq::new(pieces.len(), |k: int| pieces[k].size as int)
}

/// The sum of the cell counts of the pieces.
pub open spec fn total_size(pieces: Seq<PieceModel>) -> nat
    decreases pieces.len(),
{
    if pieces.len() == 0 {
        0
    } else {
        total_size(pieces.drop_last()) + pieces.last().size as nat
    }
}

/// The piece `p` in the form `form`, its top-left corner at `pos`.
pub open spec fn placed(p: PieceModel, form: Seq<Seq<bool>>, pos: (usize, usize)) -> PieceModel {
    PieceModel { name: p.name, shape: form, size: p.size, start: pos }
}

/// The occupancy grid that the pieces of `stack` leave on an empty board,
/// each laid at its anchor.
pub open spec fn painted(rows: nat, cols: nat, stack: Seq<PieceModel>) -> Seq<Seq<bool>>
    decreases stack.len(),
{
    if stack.len() == 0 {
        blank(rows, cols)
    } else {
        with_piece(
            painted(rows, cols, stack.drop_last()),
            cell_of(stack.last().start),
            stack.last().shape,
        )
    }
}

/// Each piece of `stack` was placeable where it lies when the pieces before
/// it lay on the board: no two of them cover the same cell, and none
/// reaches beyond the board.
pub open spec fn stacked(rows: nat, cols: nat, stack: Seq<PieceModel>) -> bool {
    forall|j: int|
        0 <= j < stack.len() ==> placeable_at(
            painted(rows, cols, #[trigger] stack.take(j)),
            cell_of(stack[j].start),
            stack[j].shape,
        )
}

/// A stack stays well stacked when a piece is laid on it where it is
/// placeable.
pub proof fn lemma_stacked_push(rows: nat, cols: nat, stack: Seq<PieceModel>, p: PieceModel)
    requires
        stacked(rows, cols, stack),
        placeable_at(painted(rows, cols, stack), cell_of(p.start), p.shape),
    ensures
        stacked(rows, cols, stack.push(p)),
        painted(rows, cols, stack.push(p)) == with_piece(
            painted(rows, cols, stack),
            cell_of(p.start),
            p.shape,
        ),
{
    let more = stack.push(p);
    assert(more.drop_last() =~= stack);
    assert forall|j: int| 0 <= j < more.len() implies placeable_at(
        painted(rows, cols, #[trigger] more.take(j)),
        cell_of(more[j].start),
        more[j].shape,
    ) by {
        if j < stack.len() {
            assert(more.take(j) =~= stack.take(j));
        } else {
            assert(more.take(j) =~= stack);
        }
    }
}

/// The sum of the cell counts grows piece by piece.
pub proof fn lemma_total_size_step(pieces: Seq<PieceModel>, i: int)
    requires
        0 <= i < pieces.len(),
    ensures
        total_size(pieces.take(i + 1)) == total_size(pieces.take(i)) + pieces[i].size,
{
    assert(pieces.take(i + 1).drop_last() =~= pieces.take(i));
}

impl Puzzle {
    /// The pruning threshold: the cell count of the smallest piece.
    pub open spec fn threshold(self) -> nat {
        lowest(sizes(self.pieces)) as nat
    }

    /// The forms in which piece `k` is tried, in order.
    pub open spec fn forms(self, k: int) -> Seq<Seq<Seq<bool>>> {
        orientations(self.pieces[k].shape)
    }
}

/// What the search returns from the occupancy `occ` with the pieces before
/// `k` placed: the placements of the remaining pieces that it finds first,
/// or `None` where it finds none.
///
/// A full board is solved. Otherwise, with no piece left, or with an empty
/// region smaller than the smallest piece, the branch is given up.
/// Otherwise piece `k` is tried in each of its forms, at each position in
/// row-major order.
pub open spec fn search(z: Puzzle, occ: Seq<Seq<bool>>, k: nat) -> Option<Seq<PieceModel>>
    decreases z.pieces.len() - k, 2nat, 0nat, 0nat, 0nat,
{
    if is_full(occ) {
        Some(Seq::empty())
    } else if k >= z.pieces.len() {
        None
    } else if has_small_region(occ, z.threshold()) {
        None
    } else {
        scan(z, occ, k, 0, 0, 0)
    }
}

/// The first success among the tries of piece `k` from form `o`, row `r`,
/// column `c` on.
pub open spec fn scan(z: Puzzle, occ: Seq<Seq<bool>>, k: nat, o: nat, r: nat, c: nat) -> Option<
    Seq<PieceModel>,
>
    decreases z.pieces.len() - k, 1nat, z.forms(k as int).len() - o, z.rows - r, z.cols - c,
{
    if k >= z.pieces.len() || o >= z.forms(k as int).len() {
        None
    } else if r >= z.rows {
        scan(z, occ, k, o + 1, 0, 0)
    } else if c >= z.cols {
        scan(z, occ, k, o, r + 1, 0)
    } else {
        match attempt(z, occ, k, o, r, c) {
            Some(s) => Some(s),
            None => scan(z, occ, k, o, r, c + 1),
        }
    }
}

/// One try: piece `k` in form `o` at `(r, c)`. Where it is placeable there
/// and the search goes through with it laid, the placement followed by the
/// placements of the pieces after it.
pub open spec fn attempt(z: Puzzle, occ: Seq<Seq<bool>>, k: nat, o: nat, r: nat, c: nat) -> Option<
    Seq<PieceModel>,
>
    decreases z.pieces.len() - k, 0nat, 0nat, 0nat, 0nat,
{
    let form = z.forms(k as int)[o as int];
    let pos = (r as int, c as int);
    if k < z.pieces.len() && placeable_at(occ, pos, form) {
        match search(z, with_piece(occ, pos, form), k + 1) {
            Some(rest) => Some(
                seq![placed(z.pieces[k as int], form, (r as usize, c as usize))] + rest,
            ),
            None => None,
        }
    } else {
        None
    }
}

/// The solution of a puzzle: what the search returns from the empty board.
pub open spec fn first_solution(z: Puzzle) -> Option<Seq<PieceModel>> {
    search(z, blank(z.rows, z.cols), 0)
}

} // verus!
