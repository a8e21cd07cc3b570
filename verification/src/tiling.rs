//! What a solution is, and what the search has to do with it: the solution
//! that the search returns is an exact cover of the board by the pieces, and
//! where polyominoes have an exact cover the search returns one.

use crate::cells::{
    cells, count, filled, lemma_cells_bounded, lemma_full_count, normalized, rectangle,
};
use crate::grid::{has_shape, width};
use crate::placement::{blank, cell_of, covers, fits, is_full, placeable_at, with_piece};
use crate::polyomino::{eight, lemma_dedup, lemma_orientations, PieceModel};
use crate::search::{
    attempt, first_solution, lemma_total_size_step, placed, scan, search, total_size, Puzzle,
};
use crate::polyomino::{lemma_eight, lemma_lowest, orientations};
use crate::region::{
    component, connected, has_small_region, holes, lemma_closed_keeps_path, lemma_component_closed,
    lemma_connected_image, lemma_holes_bounded, linked, linked_within,
};
use crate::search::{painted, sizes, stacked};
use vstd::prelude::*;
use vstd::relations::injective_on;
use vstd::set_lib::{lemma_len_subset, lemma_map_size, lemma_set_disjoint_lens};

verus! {

/// The cells of the board that a placed piece covers.
pub open spec fn footprint(p: PieceModel) -> Set<(int, int)> {
    Set::new(|c: (int, int)| covers(cell_of(p.start), p.shape, c))
}

/// The cells that some piece of `s` covers.
pub open spec fn covered(s: Seq<PieceModel>) -> Set<(int, int)> {
    Set::new(|c: (int, int)| exists|i: int| 0 <= i < s.len() && #[trigger] footprint(s[i]).contains(c))
}

/// `shape` is one of the eight images of `g` under the symmetries of the
/// square.
pub open spec fn is_image(g: Seq<Seq<bool>>, shape: Seq<Seq<bool>>) -> bool {
    exists|o: int| 0 <= o < 8 && #[trigger] eight(g)[o] == shape
}

/// The bounding box of the placed piece lies on the board of `z`.
pub open spec fn on_board(z: Puzzle, p: PieceModel) -> bool {
    &&& p.start.0 + p.shape.len() <= z.rows
    &&& p.start.1 + width(p.shape) <= z.cols
}

/// `p` is piece `i` of the puzzle, in one of its eight images, placed on
/// the board.
pub open spec fn uses(z: Puzzle, i: int, p: PieceModel) -> bool {
    &&& p.name == z.pieces[i].name
    &&& p.size == z.pieces[i].size
    &&& is_image(z.pieces[i].shape, p.shape)
    &&& on_board(z, p)
}

/// `s` tiles the board of `z`: it places each piece once, in the order of
/// the puzzle, no two pieces cover the same cell, and every cell of the
/// board is covered.
pub open spec fn exact_cover(z: Puzzle, s: Seq<PieceModel>) -> bool {
    &&& s.len() == z.pieces.len()
    &&& forall|i: int| 0 <= i < s.len() ==> uses(z, i, #[trigger] s[i])
    &&& forall|i: int, j: int|
        0 <= i < j < s.len() ==> footprint(#[trigger] s[i]).disjoint(footprint(#[trigger] s[j]))
    &&& covered(s) == rectangle(z.rows, z.cols)
}

/// The puzzle is well posed: the board is no larger than a machine word
/// can index, there is a piece, each piece's shape is its own bounding box
/// and its size counts its cells, and the sizes add up to the board's area.
pub open spec fn well_posed(z: Puzzle) -> bool {
    &&& z.rows <= usize::MAX
    &&& z.cols <= usize::MAX
    &&& z.pieces.len() > 0
    &&& forall|i: int|
        0 <= i < z.pieces.len() ==> normalized((#[trigger] z.pieces[i]).shape) && z.pieces[i].size
            == count(z.pieces[i].shape)
    &&& total_size(z.pieces) == z.rows * z.cols
}

/// `p` is piece `k` in one of the forms in which the search tries it.
pub open spec fn uses_form(z: Puzzle, k: int, p: PieceModel) -> bool {
    exists|o: int|
        0 <= o < z.forms(k).len() && p == placed(z.pieces[k], #[trigger] z.forms(k)[o], p.start)
}

/// Laid one after the other on the occupancy `occ`, each where it is
/// placeable, the pieces of `s`, which are the pieces from `k` on, leave the
/// board full.
pub open spec fn lays(z: Puzzle, occ: Seq<Seq<bool>>, k: nat, s: Seq<PieceModel>) -> bool
    decreases s.len(),
{
    if s.len() == 0 {
        is_full(occ)
    } else {
        &&& k < z.pieces.len()
        &&& uses_form(z, k as int, s[0])
        &&& placeable_at(occ, cell_of(s[0].start), s[0].shape)
        &&& lays(z, with_piece(occ, cell_of(s[0].start), s[0].shape), k + 1, s.drop_first())
    }
}

/// What the search returns lays the remaining pieces out on the board.
pub proof fn lemma_search_lays(z: Puzzle, occ: Seq<Seq<bool>>, k: nat)
    requires
        z.rows <= usize::MAX,
        z.cols <= usize::MAX,
    ensures
        search(z, occ, k) matches Some(s) ==> lays(z, occ, k, s),
    decreases z.pieces.len() - k, 2nat, 0nat, 0nat, 0nat,
{
    if !is_full(occ) && k < z.pieces.len() && !crate::region::has_small_region(occ, z.threshold()) {
        lemma_scan_lays(z, occ, k, 0, 0, 0);
    }
}

/// What a scan of the tries of piece `k` returns lays the remaining pieces
/// out on the board.
pub proof fn lemma_scan_lays(z: Puzzle, occ: Seq<Seq<bool>>, k: nat, o: nat, r: nat, c: nat)
    requires
        z.rows <= usize::MAX,
        z.cols <= usize::MAX,
    ensures
        scan(z, occ, k, o, r, c) matches Some(s) ==> lays(z, occ, k, s),
    decreases z.pieces.len() - k, 1nat, z.forms(k as int).len() - o, z.rows - r, z.cols - c,
{
    if k >= z.pieces.len() || o >= z.forms(k as int).len() {
    } else if r >= z.rows {
        lemma_scan_lays(z, occ, k, o + 1, 0, 0);
    } else if c >= z.cols {
        lemma_scan_lays(z, occ, k, o, r + 1, 0);
    } else {
        lemma_attempt_lays(z, occ, k, o, r, c);
        lemma_scan_lays(z, occ, k, o, r, c + 1);
    }
}

/// What a try of piece `k` returns lays the remaining pieces out on the
/// board.
pub proof fn lemma_attempt_lays(z: Puzzle, occ: Seq<Seq<bool>>, k: nat, o: nat, r: nat, c: nat)
    requires
        z.rows <= usize::MAX,
        z.cols <= usize::MAX,
        k < z.pieces.len(),
        o < z.forms(k as int).len(),
        r < z.rows,
        c < z.cols,
    ensures
        attempt(z, occ, k, o, r, c) matches Some(s) ==> lays(z, occ, k, s),
    decreases z.pieces.len() - k, 0nat, 0nat, 0nat, 0nat,
{
    let form = z.forms(k as int)[o as int];
    let pos = (r as int, c as int);
    if placeable_at(occ, pos, form) {
        let occ1 = with_piece(occ, pos, form);
        lemma_search_lays(z, occ1, k + 1);
        if search(z, occ1, k + 1) is Some {
            let rest = search(z, occ1, k + 1)->Some_0;
            let pm = placed(z.pieces[k as int], form, (r as usize, c as usize));
            let s = seq![pm] + rest;
            assert(s[0] == pm);
            assert(s.drop_first() =~= rest);
            assert(cell_of(pm.start) == pos);
            assert(pm == placed(z.pieces[k as int], z.forms(k as int)[o as int], pm.start));
            assert(uses_form(z, k as int, pm));
        }
    }
}

/// A placed piece covers as many cells as its shape has.
pub proof fn lemma_footprint_len(p: PieceModel)
    requires
        normalized(p.shape),
    ensures
        footprint(p).finite(),
        footprint(p).len() == count(p.shape),
        connected(cells(p.shape)) ==> connected(footprint(p)),
{
    let pos = cell_of(p.start);
    let g = p.shape;
    lemma_cells_bounded(g, g.len(), g[0].len());
    let f = |c: (int, int)| (c.0 + pos.0, c.1 + pos.1);
    assert(injective_on(f, cells(g)));
    assert forall|q: (int, int)| footprint(p).contains(q) implies cells(g).map(f).contains(q) by {
        let c = (q.0 - pos.0, q.1 - pos.1);
        assert(cells(g).contains(c));
        assert(f(c) == q);
    }
    assert forall|q: (int, int)| cells(g).map(f).contains(q) implies footprint(p).contains(q) by {
        let c = choose|c: (int, int)| cells(g).contains(c) && f(c) == q;
        assert((q.0 - pos.0, q.1 - pos.1) == c);
    }
    assert(cells(g).map(f) =~= footprint(p));
    lemma_map_size(cells(g), footprint(p), f);
    if connected(cells(g)) {
        assert forall|a: (int, int)| cells(g).contains(a) implies footprint(p).contains(
            #[trigger] f(a),
        ) by {
            assert(cells(g).map(f).contains(f(a)));
        }
        assert forall|b: (int, int)| footprint(p).contains(b) implies exists|a: (int, int)|
            cells(g).contains(a) && #[trigger] f(a) == b by {
            assert(cells(g).map(f).contains(b));
        }
        lemma_connected_image(cells(g), footprint(p), f);
    }
}

/// Laying a piece where it fits adds its footprint to the covered cells.
pub proof fn lemma_with_piece_cells(occ: Seq<Seq<bool>>, rows: nat, cols: nat, p: PieceModel)
    requires
        has_shape(occ, rows, cols),
        normalized(p.shape),
        fits(occ, cell_of(p.start), p.shape),
    ensures
        has_shape(with_piece(occ, cell_of(p.start), p.shape), rows, cols),
        cells(with_piece(occ, cell_of(p.start), p.shape)) == cells(occ) + footprint(p),
        footprint(p).subset_of(rectangle(rows, cols)),
        p.start.0 + p.shape.len() <= rows,
        p.start.1 + width(p.shape) <= cols,
{
    let pos = cell_of(p.start);
    let g = p.shape;
    let occ1 = with_piece(occ, pos, g);
    assert(occ[0].len() == cols);
    assert forall|i: int| 0 <= i < rows implies (#[trigger] occ1[i]).len() == cols by {
        assert(occ[i].len() == cols);
    }
    assert forall|q: (int, int)| footprint(p).contains(q) implies rectangle(rows, cols).contains(
        q,
    ) by {
        assert(g[q.0 - pos.0].len() == g[0].len());
    }
    assert forall|q: (int, int)| cells(occ1).contains(q) <==> (cells(occ) + footprint(p)).contains(
        q,
    ) by {
        if 0 <= q.0 < rows {
            assert(occ[q.0].len() == cols);
            assert(occ1[q.0].len() == cols);
        }
        if footprint(p).contains(q) {
            assert(rectangle(rows, cols).contains(q));
        }
    }
    assert(cells(occ1) =~= cells(occ) + footprint(p));
}

/// Each form in which the search tries a piece is one of the piece's eight
/// images, is normalized, and has the piece's cell count.
pub proof fn lemma_form_is_image(z: Puzzle, k: int, o: int)
    requires
        well_posed(z),
        0 <= k < z.pieces.len(),
        0 <= o < z.forms(k).len(),
    ensures
        normalized(z.forms(k)[o]),
        count(z.forms(k)[o]) == z.pieces[k].size,
        is_image(z.pieces[k].shape, z.forms(k)[o]),
{
    let g = z.pieces[k].shape;
    lemma_orientations(g);
    lemma_dedup(eight(g));
    assert(eight(g).contains(z.forms(k)[o]));
    let e = choose|e: int| 0 <= e < eight(g).len() && eight(g)[e] == z.forms(k)[o];
    assert(eight(g)[e] == z.forms(k)[o]);
}

/// The first of the pieces that are laid out is the puzzle's next piece, on
/// the board, on cells that were not covered; laying it adds its cells to
/// the covered ones, and the other pieces are laid out after it.
pub proof fn lemma_lays_head(z: Puzzle, occ: Seq<Seq<bool>>, k: nat, s: Seq<PieceModel>)
    requires
        well_posed(z),
        has_shape(occ, z.rows, z.cols),
        lays(z, occ, k, s),
        s.len() > 0,
    ensures
        k < z.pieces.len(),
        uses(z, k as int, s[0]),
        normalized(s[0].shape),
        has_shape(with_piece(occ, cell_of(s[0].start), s[0].shape), z.rows, z.cols),
        footprint(s[0]).disjoint(cells(occ)),
        footprint(s[0]).finite(),
        footprint(s[0]).len() == z.pieces[k as int].size,
        cells(with_piece(occ, cell_of(s[0].start), s[0].shape)) == cells(occ) + footprint(s[0]),
        count(with_piece(occ, cell_of(s[0].start), s[0].shape)) == count(occ) + z.pieces[k as int].size,
        lays(z, with_piece(occ, cell_of(s[0].start), s[0].shape), k + 1, s.drop_first()),
{
    let p = s[0];
    let pos = cell_of(p.start);
    let o = choose|o: int|
        0 <= o < z.forms(k as int).len() && p == placed(
            z.pieces[k as int],
            #[trigger] z.forms(k as int)[o],
            p.start,
        );
    lemma_form_is_image(z, k as int, o);
    assert(p.shape == z.forms(k as int)[o]);
    lemma_with_piece_cells(occ, z.rows, z.cols, p);
    lemma_footprint_len(p);
    lemma_cells_bounded(occ, z.rows, z.cols);
    assert(footprint(p).disjoint(cells(occ))) by {
        assert forall|q: (int, int)| footprint(p).contains(q) implies !cells(occ).contains(q) by {
            assert(covers(pos, p.shape, q));
        }
    }
    lemma_set_disjoint_lens(cells(occ), footprint(p));
}

/// The cells that a list of pieces covers are those that its first piece
/// covers and those that the others cover.
pub proof fn lemma_covered_split(s: Seq<PieceModel>)
    requires
        s.len() > 0,
    ensures
        covered(s) == footprint(s[0]) + covered(s.drop_first()),
{
    let rest = s.drop_first();
    assert forall|q: (int, int)| covered(s).contains(q) <==> (footprint(s[0]) + covered(
        rest,
    )).contains(q) by {
        if covered(s).contains(q) {
            let i = choose|i: int| 0 <= i < s.len() && #[trigger] footprint(s[i]).contains(q);
            if i > 0 {
                assert(s[i] == rest[i - 1]);
                assert(footprint(rest[i - 1]).contains(q));
            }
        }
        if covered(rest).contains(q) {
            let i = choose|i: int| 0 <= i < rest.len() && #[trigger] footprint(rest[i]).contains(q);
            assert(s[i + 1] == rest[i]);
            assert(footprint(s[i + 1]).contains(q));
        }
        if footprint(s[0]).contains(q) {
        }
    }
    assert(covered(s) =~= footprint(s[0]) + covered(rest));
}

/// Pieces that are laid out on the board, one after the other, are the
/// puzzle's next pieces, cover no cell that was covered and no cell twice,
/// and together with the cells that were covered they make up the board.
/// The cell counts of all pieces up to the last one laid add up to the
/// board's area.
pub proof fn lemma_lays_cover(z: Puzzle, occ: Seq<Seq<bool>>, k: nat, s: Seq<PieceModel>)
    requires
        well_posed(z),
        has_shape(occ, z.rows, z.cols),
        lays(z, occ, k, s),
    ensures
        k + s.len() <= z.pieces.len() || s.len() == 0,
        forall|i: int| 0 <= i < s.len() ==> uses(z, k + i, #[trigger] s[i]),
        forall|i: int| 0 <= i < s.len() ==> footprint(#[trigger] s[i]).disjoint(cells(occ)),
        forall|i: int, j: int|
            0 <= i < j < s.len() ==> footprint(#[trigger] s[i]).disjoint(footprint(#[trigger] s[j])),
        cells(occ) + covered(s) == rectangle(z.rows, z.cols),
        k <= z.pieces.len() && count(occ) == total_size(z.pieces.take(k as int)) ==> total_size(
            z.pieces.take((k + s.len()) as int),
        ) == z.rows * z.cols,
    decreases s.len(),
{
    if s.len() == 0 {
        assert forall|i: int, j: int| 0 <= i < z.rows && 0 <= j < z.cols implies #[trigger] occ[i][j] by {
            assert(occ[i].len() == z.cols);
        }
        lemma_full_count(occ, z.rows, z.cols);
        assert(covered(s) =~= Set::empty());
        assert(cells(occ) + covered(s) =~= rectangle(z.rows, z.cols));
    } else {
        let p = s[0];
        let rest = s.drop_first();
        let occ1 = with_piece(occ, cell_of(p.start), p.shape);
        lemma_lays_head(z, occ, k, s);
        lemma_lays_cover(z, occ1, k + 1, rest);
        lemma_covered_split(s);
        assert forall|i: int| 0 <= i < s.len() implies uses(z, k + i, #[trigger] s[i]) by {
            if i > 0 {
                assert(s[i] == rest[i - 1]);
                assert(uses(z, k + 1 + (i - 1), rest[i - 1]));
            }
        }
        assert forall|i: int| 0 <= i < s.len() implies footprint(#[trigger] s[i]).disjoint(
            cells(occ),
        ) by {
            if i > 0 {
                assert(s[i] == rest[i - 1]);
                assert(footprint(rest[i - 1]).disjoint(cells(occ1)));
            }
        }
        assert forall|i: int, j: int| 0 <= i < j < s.len() implies footprint(
            #[trigger] s[i],
        ).disjoint(footprint(#[trigger] s[j])) by {
            assert(s[j] == rest[j - 1]);
            if i > 0 {
                assert(s[i] == rest[i - 1]);
                assert(footprint(rest[i - 1]).disjoint(footprint(rest[j - 1])));
            } else {
                assert(footprint(rest[j - 1]).disjoint(cells(occ1)));
            }
        }
        assert(cells(occ) + covered(s) =~= cells(occ1) + covered(rest));
        if k <= z.pieces.len() && count(occ) == total_size(z.pieces.take(k as int)) {
            lemma_total_size_step(z.pieces, k as int);
            assert(count(occ1) == total_size(z.pieces.take((k + 1) as int)));
        }
    }
}

/// The sizes of more pieces add up to more.
pub proof fn lemma_total_size_grows(z: Puzzle, m: int, n: int)
    requires
        well_posed(z),
        0 <= m <= n <= z.pieces.len(),
    ensures
        total_size(z.pieces.take(m)) + (n - m) <= total_size(z.pieces.take(n)),
    decreases n - m,
{
    if m < n {
        lemma_total_size_grows(z, m, n - 1);
        lemma_total_size_step(z.pieces, n - 1);
        crate::polyomino::lemma_normalized_count(z.pieces[n - 1].shape);
    }
}

/// The pieces of `stack` are the puzzle's first pieces, in the order of the
/// puzzle, each in one of the forms in which the search tries it.
pub open spec fn in_order(z: Puzzle, stack: Seq<PieceModel>) -> bool {
    &&& stack.len() <= z.pieces.len()
    &&& forall|j: int| 0 <= j < stack.len() ==> uses_form(z, j, #[trigger] stack[j])
}

/// A stack stays in order when the next piece is laid on it in one of its
/// forms.
pub proof fn lemma_in_order_push(z: Puzzle, stack: Seq<PieceModel>, p: PieceModel)
    requires
        in_order(z, stack),
        stack.len() < z.pieces.len(),
        uses_form(z, stack.len() as int, p),
    ensures
        in_order(z, stack.push(p)),
{
    let more = stack.push(p);
    assert forall|j: int| 0 <= j < more.len() implies uses_form(z, j, #[trigger] more[j]) by {
        if j < stack.len() {
            assert(more[j] == stack[j]);
        }
    }
}

/// Where the pieces after those on the stack are laid out on the board
/// that the stack leaves, the pieces of the stack from the `j`-th on and
/// those after them are laid out on the board that the first `j` leave.
pub proof fn lemma_stack_lays(z: Puzzle, stack: Seq<PieceModel>, rest: Seq<PieceModel>, j: int)
    requires
        in_order(z, stack),
        stacked(z.rows, z.cols, stack),
        lays(z, painted(z.rows, z.cols, stack), stack.len(), rest),
        0 <= j <= stack.len(),
    ensures
        lays(z, painted(z.rows, z.cols, stack.take(j)), j as nat, stack.skip(j) + rest),
    decreases stack.len() - j,
{
    let s = stack.skip(j) + rest;
    if j == stack.len() {
        assert(stack.take(j) =~= stack);
        assert(s =~= rest);
    } else {
        lemma_stack_lays(z, stack, rest, j + 1);
        assert(s[0] == stack[j]);
        assert(s.drop_first() =~= stack.skip(j + 1) + rest);
        assert(stack.take(j + 1).drop_last() =~= stack.take(j));
        assert(stack.take(j + 1).last() == stack[j]);
        assert(uses_form(z, j, stack[j]));
    }
}

/// The first `j` pieces of a stack that is in order cover as many cells as
/// the sizes of the puzzle's first `j` pieces add up to.
pub proof fn lemma_stack_count(z: Puzzle, stack: Seq<PieceModel>, j: int)
    requires
        well_posed(z),
        in_order(z, stack),
        stacked(z.rows, z.cols, stack),
        0 <= j <= stack.len(),
    ensures
        has_shape(painted(z.rows, z.cols, stack.take(j)), z.rows, z.cols),
        count(painted(z.rows, z.cols, stack.take(j))) == total_size(z.pieces.take(j)),
    decreases j,
{
    if j == 0 {
        assert(stack.take(0) =~= Seq::empty());
        assert(z.pieces.take(0) =~= Seq::empty());
        assert(cells(blank(z.rows, z.cols)) =~= Set::empty());
    } else {
        lemma_stack_count(z, stack, j - 1);
        let occ = painted(z.rows, z.cols, stack.take(j - 1));
        let p = stack[j - 1];
        assert(stack.take(j).drop_last() =~= stack.take(j - 1));
        assert(stack.take(j).last() == p);
        assert(uses_form(z, j - 1, p));
        let o = choose|o: int|
            0 <= o < z.forms(j - 1).len() && p == placed(
                z.pieces[j - 1],
                #[trigger] z.forms(j - 1)[o],
                p.start,
            );
        lemma_form_is_image(z, j - 1, o);
        assert(placeable_at(occ, cell_of(p.start), p.shape));
        lemma_with_piece_cells(occ, z.rows, z.cols, p);
        lemma_footprint_len(p);
        lemma_cells_bounded(occ, z.rows, z.cols);
        assert(cells(occ).disjoint(footprint(p))) by {
            assert forall|q: (int, int)| footprint(p).contains(q) implies !cells(occ).contains(q) by {
                assert(covers(cell_of(p.start), p.shape, q));
            }
        }
        lemma_set_disjoint_lens(cells(occ), footprint(p));
        lemma_total_size_step(z.pieces, j - 1);
    }
}

/// In a well-posed puzzle the board is full exactly when every piece lies
/// on it.
pub proof fn lemma_full_iff_all_placed(z: Puzzle, stack: Seq<PieceModel>)
    requires
        well_posed(z),
        in_order(z, stack),
        stacked(z.rows, z.cols, stack),
    ensures
        is_full(painted(z.rows, z.cols, stack)) <==> stack.len() == z.pieces.len(),
{
    let occ = painted(z.rows, z.cols, stack);
    let n = z.pieces.len() as int;
    lemma_stack_count(z, stack, stack.len() as int);
    assert(stack.take(stack.len() as int) =~= stack);
    assert(z.pieces.take(n) =~= z.pieces);
    lemma_cells_bounded(occ, z.rows, z.cols);
    crate::cells::lemma_rectangle_len(z.rows, z.cols);
    if stack.len() == n {
        vstd::set_lib::lemma_subset_equality(cells(occ), rectangle(z.rows, z.cols));
        assert forall|a: int, b: int| 0 <= a < occ.len() && 0 <= b < occ[a].len() implies #[trigger] occ[a][b] by {
            assert(occ[a].len() == z.cols);
            assert(rectangle(z.rows, z.cols).contains((a, b)));
            assert(cells(occ).contains((a, b)));
        }
    } else {
        lemma_total_size_grows(z, stack.len() as int, n);
        if is_full(occ) {
            assert forall|i: int, j: int| 0 <= i < z.rows && 0 <= j < z.cols implies #[trigger] occ[i][j] by {
                assert(occ[i].len() == z.cols);
            }
            lemma_full_count(occ, z.rows, z.cols);
        }
    }
}

/// Pieces that are laid out on the empty board are an exact cover of it.
pub proof fn lemma_lays_is_exact_cover(z: Puzzle, s: Seq<PieceModel>)
    requires
        well_posed(z),
        lays(z, blank(z.rows, z.cols), 0, s),
    ensures
        exact_cover(z, s),
{
    let occ = blank(z.rows, z.cols);
    assert(has_shape(occ, z.rows, z.cols));
    lemma_lays_cover(z, occ, 0, s);
    assert(cells(occ) =~= Set::empty());
    assert(z.pieces.take(0) =~= Seq::empty());
    assert(cells(occ) + covered(s) =~= covered(s));
    assert(count(occ) == 0);
    assert(total_size(z.pieces.take(s.len() as int)) == z.rows * z.cols);
    if s.len() < z.pieces.len() {
        lemma_total_size_grows(z, s.len() as int, z.pieces.len() as int);
        assert(z.pieces.take(z.pieces.len() as int) =~= z.pieces);
    }
    assert(s.len() <= z.pieces.len()) by {
        if s.len() == 0 {
        }
    }
}

/// Soundness of the search: the solution of a well-posed puzzle is an
/// exact cover of its board.
pub proof fn lemma_solution_is_exact_cover(z: Puzzle, s: Seq<PieceModel>)
    requires
        well_posed(z),
        first_solution(z) == Some(s),
    ensures
        exact_cover(z, s),
{
    lemma_search_lays(z, blank(z.rows, z.cols), 0);
    lemma_lays_is_exact_cover(z, s);
}

/// Every piece of the puzzle is a polyomino: its cells are connected edge
/// to edge.
pub open spec fn made_of_polyominoes(z: Puzzle) -> bool {
    forall|i: int| 0 <= i < z.pieces.len() ==> connected(cells((#[trigger] z.pieces[i]).shape))
}

/// Some placement of the pieces tiles the board.
pub open spec fn solvable(z: Puzzle) -> bool {
    exists|t: Seq<PieceModel>| exact_cover(z, t)
}

/// Soundness of the pruning rule: where polyominoes can still be laid out
/// to fill the board, no region of empty cells is smaller than the smallest
/// piece.
pub proof fn lemma_completable_is_not_pruned(
    z: Puzzle,
    occ: Seq<Seq<bool>>,
    k: nat,
    t: Seq<PieceModel>,
)
    requires
        well_posed(z),
        made_of_polyominoes(z),
        has_shape(occ, z.rows, z.cols),
        lays(z, occ, k, t),
    ensures
        !has_small_region(occ, z.threshold()),
{
    let free = holes(occ);
    lemma_lays_cover(z, occ, k, t);
    lemma_holes_bounded(occ, z.rows, z.cols);
    assert forall|p: (int, int)| free.contains(p) implies (#[trigger] component(free, p)).len()
        >= z.threshold() by {
        assert(occ[p.0].len() == z.cols);
        assert(rectangle(z.rows, z.cols).contains(p));
        assert(!cells(occ).contains(p));
        assert((cells(occ) + covered(t)).contains(p));
        assert(covered(t).contains(p));
        let i = choose|i: int| 0 <= i < t.len() && #[trigger] footprint(t[i]).contains(p);
        let piece = t[i];
        let area = footprint(piece);
        let g = z.pieces[k + i].shape;
        assert(uses(z, k + i, piece));
        let e = choose|e: int| 0 <= e < 8 && #[trigger] eight(g)[e] == piece.shape;
        assert(connected(cells(g)));
        lemma_eight(g);
        assert(normalized(eight(g)[e]) && count(eight(g)[e]) == count(g));
        assert(connected(cells(eight(g)[e])));
        lemma_footprint_len(piece);
        assert(area.disjoint(cells(occ)));
        assert forall|q: (int, int)| area.contains(q) implies free.contains(q) by {
            assert(covered(t).contains(q));
            assert((cells(occ) + covered(t)).contains(q));
            assert(rectangle(z.rows, z.cols).contains(q));
            assert(occ[q.0].len() == z.cols);
            assert(!cells(occ).contains(q));
        }
        lemma_component_closed(free, p);
        assert forall|q: (int, int)| area.contains(q) implies component(free, p).contains(q) by {
            assert(linked(area, p, q));
            let n = choose|n: nat| linked_within(area, p, q, n);
            lemma_closed_keeps_path(free, component(free, p), area, p, q, n);
        }
        assert(component(free, p).subset_of(free));
        lemma_len_subset(component(free, p), free);
        lemma_len_subset(area, component(free, p));
        lemma_lowest(sizes(z.pieces));
        assert(sizes(z.pieces)[k + i] == z.pieces[k + i].size);
    }
}

/// A scan that starts at or before a try that goes through returns a
/// solution.
pub proof fn lemma_scan_finds(
    z: Puzzle,
    occ: Seq<Seq<bool>>,
    k: nat,
    o: nat,
    r: nat,
    c: nat,
    o2: nat,
    r2: nat,
    c2: nat,
)
    requires
        k < z.pieces.len(),
        o2 < z.forms(k as int).len(),
        r2 < z.rows,
        c2 < z.cols,
        attempt(z, occ, k, o2, r2, c2) is Some,
        o < o2 || (o == o2 && (r < r2 || (r == r2 && c <= c2))),
    ensures
        scan(z, occ, k, o, r, c) is Some,
    decreases z.forms(k as int).len() - o, z.rows - r, z.cols - c,
{
    if r >= z.rows {
        lemma_scan_finds(z, occ, k, o + 1, 0, 0, o2, r2, c2);
    } else if c >= z.cols {
        lemma_scan_finds(z, occ, k, o, r + 1, 0, o2, r2, c2);
    } else if o == o2 && r == r2 && c == c2 {
    } else if attempt(z, occ, k, o, r, c) is None {
        lemma_scan_finds(z, occ, k, o, r, c + 1, o2, r2, c2);
    }
}

/// Completeness of the search from any state: where polyominoes can be
/// laid out to fill the board, the search returns a solution.
pub proof fn lemma_completable_is_solved(z: Puzzle, occ: Seq<Seq<bool>>, k: nat, t: Seq<PieceModel>)
    requires
        well_posed(z),
        made_of_polyominoes(z),
        has_shape(occ, z.rows, z.cols),
        lays(z, occ, k, t),
    ensures
        search(z, occ, k) is Some,
    decreases t.len(),
{
    if !is_full(occ) {
        let p = t[0];
        let pos = cell_of(p.start);
        let occ1 = with_piece(occ, pos, p.shape);
        lemma_lays_head(z, occ, k, t);
        lemma_completable_is_not_pruned(z, occ, k, t);
        lemma_completable_is_solved(z, occ1, k + 1, t.drop_first());
        let o = choose|o: int|
            0 <= o < z.forms(k as int).len() && p == placed(
                z.pieces[k as int],
                #[trigger] z.forms(k as int)[o],
                p.start,
            );
        assert(p.shape == z.forms(k as int)[o]);
        assert(p.shape.len() >= 1 && width(p.shape) >= 1);
        assert(attempt(z, occ, k, o as nat, p.start.0 as nat, p.start.1 as nat) is Some);
        lemma_scan_finds(z, occ, k, 0, 0, 0, o as nat, p.start.0 as nat, p.start.1 as nat);
    }
}

/// The pieces of a list, laid on the empty board, leave the cells covered
/// that the list covers.
pub proof fn lemma_painted_cells(z: Puzzle, t: Seq<PieceModel>, i: int)
    requires
        0 <= i <= t.len(),
        forall|j: int| 0 <= j < t.len() ==> on_board(z, #[trigger] t[j]) && normalized(t[j].shape),
    ensures
        has_shape(painted(z.rows, z.cols, t.take(i)), z.rows, z.cols),
        cells(painted(z.rows, z.cols, t.take(i))) == covered(t.take(i)),
    decreases i,
{
    let s = t.take(i);
    if i == 0 {
        assert(cells(painted(z.rows, z.cols, s)) =~= covered(s));
    } else {
        lemma_painted_cells(z, t, i - 1);
        let before = t.take(i - 1);
        assert(s.drop_last() =~= before);
        assert(s.last() == t[i - 1]);
        let occ = painted(z.rows, z.cols, before);
        let p = t[i - 1];
        assert(on_board(z, p) && normalized(p.shape));
        assert(occ.len() > 0);
        assert(occ[0].len() == z.cols);
        lemma_with_piece_cells(occ, z.rows, z.cols, p);
        assert forall|q: (int, int)| covered(s).contains(q) <==> (covered(before) + footprint(
            p,
        )).contains(q) by {
            if covered(s).contains(q) {
                let j = choose|j: int| 0 <= j < s.len() && #[trigger] footprint(s[j]).contains(q);
                if j < i - 1 {
                    assert(before[j] == s[j]);
                    assert(footprint(before[j]).contains(q));
                }
            }
            if covered(before).contains(q) {
                let j = choose|j: int|
                    0 <= j < before.len() && #[trigger] footprint(before[j]).contains(q);
                assert(before[j] == s[j]);
                assert(footprint(s[j]).contains(q));
            }
            if footprint(p).contains(q) {
                assert(footprint(s[i - 1]).contains(q));
            }
        }
        assert(covered(s) =~= covered(before) + footprint(p));
    }
}

/// The pieces of an exact cover can be laid out one after the other, in
/// the order of the puzzle, in forms in which the search tries them.
pub proof fn lemma_exact_cover_lays(z: Puzzle, t: Seq<PieceModel>, i: int)
    requires
        well_posed(z),
        exact_cover(z, t),
        0 <= i <= t.len(),
    ensures
        lays(z, painted(z.rows, z.cols, t.take(i)), i as nat, t.skip(i)),
    decreases t.len() - i,
{
    assert forall|j: int| 0 <= j < t.len() implies on_board(z, #[trigger] t[j]) && normalized(
        t[j].shape,
    ) by {
        assert(uses(z, j, t[j]));
        let g = z.pieces[j].shape;
        let e = choose|e: int| 0 <= e < 8 && #[trigger] eight(g)[e] == t[j].shape;
        lemma_eight(g);
        assert(normalized(eight(g)[e]));
    }
    lemma_painted_cells(z, t, i);
    let occ = painted(z.rows, z.cols, t.take(i));
    let s = t.skip(i);
    if i == t.len() {
        assert(t.take(i) =~= t);
        assert forall|a: int, b: int| 0 <= a < occ.len() && 0 <= b < occ[a].len() implies #[trigger] occ[a][b] by {
            assert(occ[a].len() == z.cols);
            assert(rectangle(z.rows, z.cols).contains((a, b)));
            assert(cells(occ).contains((a, b)));
        }
    } else {
        let p = t[i];
        let pos = cell_of(p.start);
        let g = z.pieces[i].shape;
        assert(s[0] == p);
        assert(s.drop_first() =~= t.skip(i + 1));
        assert(t.take(i + 1).drop_last() =~= t.take(i));
        assert(t.take(i + 1).last() == p);
        assert(with_piece(occ, pos, p.shape) == painted(z.rows, z.cols, t.take(i + 1)));
        lemma_exact_cover_lays(z, t, i + 1);
        // the form
        assert(uses(z, i, p));
        let e = choose|e: int| 0 <= e < 8 && #[trigger] eight(g)[e] == p.shape;
        lemma_eight(g);
        lemma_dedup(eight(g));
        assert(orientations(g).contains(eight(g)[e]));
        let o = choose|o: int| 0 <= o < orientations(g).len() && orientations(g)[o] == eight(g)[e];
        assert(p == placed(z.pieces[i], z.forms(i)[o], p.start));
        assert(uses_form(z, i, p));
        // placeable
        assert(p.shape.len() >= 1);
        assert(occ[0].len() == z.cols);
        assert(fits(occ, pos, p.shape));
        assert forall|q: (int, int)| #[trigger] covers(pos, p.shape, q) implies !filled(occ, q) by {
            if filled(occ, q) {
                assert(cells(occ).contains(q));
                assert(covered(t.take(i)).contains(q));
                let j = choose|j: int|
                    0 <= j < t.take(i).len() && #[trigger] footprint(t.take(i)[j]).contains(q);
                assert(t.take(i)[j] == t[j]);
                assert(footprint(t[j]).disjoint(footprint(t[i])));
                assert(footprint(t[i]).contains(q));
            }
        }
    }
}

/// Completeness of the search: where some placement of polyominoes tiles
/// the board, the search finds a solution.
pub proof fn lemma_solvable_is_solved(z: Puzzle)
    requires
        well_posed(z),
        made_of_polyominoes(z),
        solvable(z),
    ensures
        first_solution(z) is Some,
{
    let t = choose|t: Seq<PieceModel>| exact_cover(z, t);
    lemma_exact_cover_lays(z, t, 0);
    assert(t.take(0) =~= Seq::empty());
    assert(t.skip(0) =~= t);
    let occ = blank(z.rows, z.cols);
    assert(has_shape(occ, z.rows, z.cols));
    lemma_completable_is_solved(z, occ, 0, t);
}

} // verus!
