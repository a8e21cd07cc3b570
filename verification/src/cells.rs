//! Boolean grids seen as sets of filled cells: counting, bounding boxes, and
//! how the symmetries of the square act on both.

use crate::grid::{
    flipped_hz, flipped_vt, has_shape, proper, rotated180, rotated270, rotated90, transposed,
};
use crate::region::{connected, lemma_connected_image};
use vstd::prelude::*;
use vstd::relations::injective_on;
use vstd::set_lib::{lemma_int_range, lemma_len_subset, lemma_map_size, set_int_range};

verus! {

/// `p` lies inside `g` and the cell there is `true`.
pub open spec fn filled(g: Seq<Seq<bool>>, p: (int, int)) -> bool {
    0 <= p.0 < g.len() && 0 <= p.1 < g[p.0].len() && g[p.0][p.1]
}

/// The coordinates of the `true` cells of `g`.
pub open spec fn cells(g: Seq<Seq<bool>>) -> Set<(int, int)> {
    Set::new(|p: (int, int)| filled(g, p))
}

/// The number of `true` cells of `g`.
pub open spec fn count(g: Seq<Seq<bool>>) -> nat {
    cells(g).len()
}

/// All coordinates of a `rows` by `cols` grid.
pub open spec fn rectangle(rows: nat, cols: nat) -> Set<(int, int)> {
    Set::new(|p: (int, int)| 0 <= p.0 < rows && 0 <= p.1 < cols)
}

/// Some cell of row `i` is `true`.
pub open spec fn row_used(g: Seq<Seq<bool>>, i: int) -> bool {
    exists|j: int| 0 <= j < g[i].len() && #[trigger] g[i][j]
}

/// Some cell of column `j` is `true`.
pub open spec fn col_used(g: Seq<Seq<bool>>, j: int) -> bool {
    exists|i: int| 0 <= i < g.len() && #[trigger] g[i][j]
}

/// The grid is its own bounding box: it is proper, and its first and last
/// row and its first and last column each hold a `true` cell.
pub open spec fn normalized(g: Seq<Seq<bool>>) -> bool {
    &&& proper(g)
    &&& row_used(g, 0)
    &&& row_used(g, g.len() - 1)
    &&& col_used(g, 0)
    &&& col_used(g, g[0].len() - 1)
}

/// A `rows` by `cols` rectangle has `rows * cols` coordinates.
pub proof fn lemma_rectangle_len(rows: nat, cols: nat)
    ensures
        rectangle(rows, cols).finite(),
        rectangle(rows, cols).len() == rows * cols,
    decreases rows,
{
    if rows == 0 {
        assert(rectangle(rows, cols) =~= Set::empty());
        assert(rows * cols == 0) by (nonlinear_arith)
            requires
                rows == 0,
        ;
    } else {
        let r = (rows - 1) as nat;
        lemma_rectangle_len(r, cols);
        let line = set_int_range(0, cols as int);
        lemma_int_range(0, cols as int);
        let f = |j: int| (r as int, j);
        let last = line.map(f);
        assert(injective_on(f, line));
        lemma_map_size(line, last, f);
        let rest = rectangle(r, cols);
        assert forall|p: (int, int)| rectangle(rows, cols).contains(p) implies (rest + last).contains(
            p,
        ) by {
            if p.0 == r {
                assert(line.contains(p.1));
                assert(f(p.1) == p);
            }
        }
        assert(rectangle(rows, cols) =~= rest + last);
        assert(rest.disjoint(last));
        vstd::set_lib::lemma_set_disjoint_lens(rest, last);
        assert(r * cols + cols == rows * cols) by (nonlinear_arith)
            requires
                r + 1 == rows,
        ;
    }
}

/// The filled cells of a grid lie in its rectangle, so there are finitely
/// many of them, and no more than the grid has cells.
pub proof fn lemma_cells_bounded(g: Seq<Seq<bool>>, rows: nat, cols: nat)
    requires
        has_shape(g, rows, cols),
    ensures
        cells(g).subset_of(rectangle(rows, cols)),
        cells(g).finite(),
        count(g) <= rows * cols,
{
    lemma_rectangle_len(rows, cols);
    assert forall|p: (int, int)| cells(g).contains(p) implies rectangle(rows, cols).contains(p) by {
        assert(g[p.0].len() == cols);
    }
    lemma_len_subset(cells(g), rectangle(rows, cols));
}

/// A grid whose every cell is `true` has as many filled cells as cells.
pub proof fn lemma_full_count(g: Seq<Seq<bool>>, rows: nat, cols: nat)
    requires
        has_shape(g, rows, cols),
        forall|i: int, j: int| 0 <= i < rows && 0 <= j < cols ==> #[trigger] g[i][j],
    ensures
        cells(g) == rectangle(rows, cols),
        count(g) == rows * cols,
{
    lemma_rectangle_len(rows, cols);
    assert forall|p: (int, int)| rectangle(rows, cols).contains(p) implies cells(g).contains(p) by {
        assert(g[p.0].len() == cols);
        assert(g[p.0][p.1]);
    }
    lemma_cells_bounded(g, rows, cols);
    assert(cells(g) =~= rectangle(rows, cols));
}

/// Setting one more cell of a grid adds its coordinate to the filled cells.
pub proof fn lemma_cells_after_set(g: Seq<Seq<bool>>, h: Seq<Seq<bool>>, p: (int, int))
    requires
        0 <= p.0 < g.len(),
        0 <= p.1 < g[p.0].len(),
        h == g.update(p.0, g[p.0].update(p.1, true)),
    ensures
        cells(h) == cells(g).insert(p),
{
    assert forall|q: (int, int)| cells(h).contains(q) <==> cells(g).insert(p).contains(q) by {
        if 0 <= q.0 < g.len() {
            if q.0 == p.0 {
                assert(h[q.0] == g[p.0].update(p.1, true));
            } else {
                assert(h[q.0] == g[q.0]);
            }
        }
    }
    assert(cells(h) =~= cells(g).insert(p));
}

/// Transposing a normalized grid keeps it normalized and keeps its count.
pub proof fn lemma_transposed_piece(g: Seq<Seq<bool>>)
    requires
        normalized(g),
    ensures
        normalized(transposed(g)),
        has_shape(transposed(g), g[0].len(), g.len()),
        count(transposed(g)) == count(g),
        connected(cells(g)) ==> connected(cells(transposed(g))),
{
    let t = transposed(g);
    let h = g.len() as int;
    let w = g[0].len() as int;
    assert(has_shape(t, w as nat, h as nat));
    assert forall|i: int, j: int| 0 <= i < w && 0 <= j < h implies #[trigger] t[i][j] == g[j][i] by {}
    assert(proper(t));
    // bounding box
    let a = choose|j: int| 0 <= j < g[0].len() && #[trigger] g[0][j];
    let b = choose|j: int| 0 <= j < g[h - 1].len() && #[trigger] g[h - 1][j];
    let c = choose|i: int| 0 <= i < g.len() && #[trigger] g[i][0];
    let d = choose|i: int| 0 <= i < g.len() && #[trigger] g[i][w - 1];
    assert(g[h - 1].len() == w);
    assert(t[a][0] == g[0][a] && t[a][0]);
    assert(col_used(t, 0));
    assert(t[b][h - 1] == g[h - 1][b] && t[b][h - 1]);
    assert(col_used(t, h - 1));
    assert(t[0][c] == g[c][0] && t[0][c]);
    assert(row_used(t, 0));
    assert(t[w - 1][d] == g[d][w - 1] && t[w - 1][d]);
    assert(row_used(t, w - 1));
    // count
    lemma_cells_bounded(g, h as nat, w as nat);
    let f = |p: (int, int)| (p.1, p.0);
    assert(injective_on(f, cells(g)));
    assert forall|q: (int, int)| cells(t).contains(q) implies cells(g).map(f).contains(q) by {
        let p = (q.1, q.0);
        assert(t[q.0][q.1] == g[q.1][q.0]);
        assert(g[p.0].len() == w);
        assert(cells(g).contains(p));
        assert(f(p) == q);
    }
    assert forall|q: (int, int)| cells(g).map(f).contains(q) implies cells(t).contains(q) by {
        let p = choose|p: (int, int)| cells(g).contains(p) && f(p) == q;
        assert(g[p.0].len() == w);
        assert(t[p.1][p.0] == g[p.0][p.1]);
    }
    assert(cells(g).map(f) =~= cells(t));
    lemma_map_size(cells(g), cells(t), f);
    if connected(cells(g)) {
        assert forall|a: (int, int)| cells(g).contains(a) implies cells(t).contains(
            #[trigger] f(a),
        ) by {
            assert(cells(g).map(f).contains(f(a)));
        }
        assert forall|b: (int, int)| cells(t).contains(b) implies exists|a: (int, int)|
            cells(g).contains(a) && #[trigger] f(a) == b by {
            assert(cells(g).map(f).contains(b));
        }
        lemma_connected_image(cells(g), cells(t), f);
    }
}

/// Mirroring a normalized grid top/bottom keeps it normalized and keeps its
/// count.
pub proof fn lemma_flipped_hz_piece(g: Seq<Seq<bool>>)
    requires
        normalized(g),
    ensures
        normalized(flipped_hz(g)),
        has_shape(flipped_hz(g), g.len(), g[0].len()),
        count(flipped_hz(g)) == count(g),
        connected(cells(g)) ==> connected(cells(flipped_hz(g))),
{
    let t = flipped_hz(g);
    let h = g.len() as int;
    let w = g[0].len() as int;
    assert forall|i: int| 0 <= i < h implies #[trigger] t[i] == g[h - 1 - i] by {}
    assert forall|i: int| 0 <= i < h implies (#[trigger] t[i]).len() == w by {
        assert(g[h - 1 - i].len() == w);
    }
    assert(proper(t));
    let a = choose|j: int| 0 <= j < g[0].len() && #[trigger] g[0][j];
    let b = choose|j: int| 0 <= j < g[h - 1].len() && #[trigger] g[h - 1][j];
    let c = choose|i: int| 0 <= i < g.len() && #[trigger] g[i][0];
    let d = choose|i: int| 0 <= i < g.len() && #[trigger] g[i][w - 1];
    assert(t[0] == g[h - 1]);
    assert(t[0][b]);
    assert(row_used(t, 0));
    assert(t[h - 1] == g[0]);
    assert(t[h - 1][a]);
    assert(row_used(t, h - 1));
    assert(t[h - 1 - c] == g[c]);
    assert(t[h - 1 - c][0]);
    assert(col_used(t, 0));
    assert(t[h - 1 - d] == g[d]);
    assert(t[h - 1 - d][w - 1]);
    assert(col_used(t, w - 1));
    lemma_cells_bounded(g, h as nat, w as nat);
    let f = |p: (int, int)| (h - 1 - p.0, p.1);
    assert(injective_on(f, cells(g)));
    assert forall|q: (int, int)| cells(t).contains(q) implies cells(g).map(f).contains(q) by {
        let p = (h - 1 - q.0, q.1);
        assert(t[q.0] == g[h - 1 - q.0]);
        assert(cells(g).contains(p));
        assert(f(p) == q);
    }
    assert forall|q: (int, int)| cells(g).map(f).contains(q) implies cells(t).contains(q) by {
        let p = choose|p: (int, int)| cells(g).contains(p) && f(p) == q;
        assert(t[h - 1 - p.0] == g[p.0]);
    }
    assert(cells(g).map(f) =~= cells(t));
    lemma_map_size(cells(g), cells(t), f);
    if connected(cells(g)) {
        assert forall|a: (int, int)| cells(g).contains(a) implies cells(t).contains(
            #[trigger] f(a),
        ) by {
            assert(cells(g).map(f).contains(f(a)));
        }
        assert forall|b: (int, int)| cells(t).contains(b) implies exists|a: (int, int)|
            cells(g).contains(a) && #[trigger] f(a) == b by {
            assert(cells(g).map(f).contains(b));
        }
        lemma_connected_image(cells(g), cells(t), f);
    }
}

/// Mirroring a normalized grid left/right keeps it normalized and keeps its
/// count.
pub proof fn lemma_flipped_vt_piece(g: Seq<Seq<bool>>)
    requires
        normalized(g),
    ensures
        normalized(flipped_vt(g)),
        has_shape(flipped_vt(g), g.len(), g[0].len()),
        count(flipped_vt(g)) == count(g),
        connected(cells(g)) ==> connected(cells(flipped_vt(g))),
{
    let t = flipped_vt(g);
    let h = g.len() as int;
    let w = g[0].len() as int;
    assert forall|i: int| 0 <= i < h implies (#[trigger] t[i]).len() == w by {
        assert(g[i].len() == w);
    }
    assert forall|i: int, j: int| 0 <= i < h && 0 <= j < w implies #[trigger] t[i][j] == g[i][w - 1
        - j] by {
        assert(g[i].len() == w);
    }
    assert(proper(t));
    let a = choose|j: int| 0 <= j < g[0].len() && #[trigger] g[0][j];
    let b = choose|j: int| 0 <= j < g[h - 1].len() && #[trigger] g[h - 1][j];
    let c = choose|i: int| 0 <= i < g.len() && #[trigger] g[i][0];
    let d = choose|i: int| 0 <= i < g.len() && #[trigger] g[i][w - 1];
    assert(g[h - 1].len() == w);
    assert(t[0][w - 1 - a] == g[0][a] && t[0][w - 1 - a]);
    assert(row_used(t, 0));
    assert(t[h - 1][w - 1 - b] == g[h - 1][b] && t[h - 1][w - 1 - b]);
    assert(row_used(t, h - 1));
    assert(t[c][w - 1] == g[c][0] && t[c][w - 1]);
    assert(col_used(t, w - 1));
    assert(t[d][0] == g[d][w - 1] && t[d][0]);
    assert(col_used(t, 0));
    lemma_cells_bounded(g, h as nat, w as nat);
    let f = |p: (int, int)| (p.0, w - 1 - p.1);
    assert(injective_on(f, cells(g)));
    assert forall|q: (int, int)| cells(t).contains(q) implies cells(g).map(f).contains(q) by {
        let p = (q.0, w - 1 - q.1);
        assert(t[q.0][q.1] == g[q.0][w - 1 - q.1]);
        assert(g[p.0].len() == w);
        assert(cells(g).contains(p));
        assert(f(p) == q);
    }
    assert forall|q: (int, int)| cells(g).map(f).contains(q) implies cells(t).contains(q) by {
        let p = choose|p: (int, int)| cells(g).contains(p) && f(p) == q;
        assert(g[p.0].len() == w);
        assert(t[p.0][w - 1 - p.1] == g[p.0][p.1]);
    }
    assert(cells(g).map(f) =~= cells(t));
    lemma_map_size(cells(g), cells(t), f);
    if connected(cells(g)) {
        assert forall|a: (int, int)| cells(g).contains(a) implies cells(t).contains(
            #[trigger] f(a),
        ) by {
            assert(cells(g).map(f).contains(f(a)));
        }
        assert forall|b: (int, int)| cells(t).contains(b) implies exists|a: (int, int)|
            cells(g).contains(a) && #[trigger] f(a) == b by {
            assert(cells(g).map(f).contains(b));
        }
        lemma_connected_image(cells(g), cells(t), f);
    }
}

/// A quarter turn of a normalized grid is normalized and has the same count.
pub proof fn lemma_rotated90_piece(g: Seq<Seq<bool>>)
    requires
        normalized(g),
    ensures
        normalized(rotated90(g)),
        has_shape(rotated90(g), g[0].len(), g.len()),
        count(rotated90(g)) == count(g),
        connected(cells(g)) ==> connected(cells(rotated90(g))),
{
    lemma_transposed_piece(g);
    lemma_flipped_vt_piece(transposed(g));
}

/// A half turn of a normalized grid is normalized and has the same count.
pub proof fn lemma_rotated180_piece(g: Seq<Seq<bool>>)
    requires
        normalized(g),
    ensures
        normalized(rotated180(g)),
        has_shape(rotated180(g), g.len(), g[0].len()),
        count(rotated180(g)) == count(g),
        connected(cells(g)) ==> connected(cells(rotated180(g))),
{
    lemma_flipped_hz_piece(g);
    lemma_flipped_vt_piece(flipped_hz(g));
}

/// A three-quarter turn of a normalized grid is normalized and has the same
/// count.
pub proof fn lemma_rotated270_piece(g: Seq<Seq<bool>>)
    requires
        normalized(g),
    ensures
        normalized(rotated270(g)),
        has_shape(rotated270(g), g[0].len(), g.len()),
        count(rotated270(g)) == count(g),
        connected(cells(g)) ==> connected(cells(rotated270(g))),
{
    lemma_rotated180_piece(g);
    lemma_rotated90_piece(rotated180(g));
}

} // verus!
