//! Rectangular grids as sequences of rows, and the symmetries of the square
//! acting on them.

use vstd::prelude::*;

verus! {

/// Number of columns of a grid: the length of its first row, or zero for a
/// grid without rows.
pub open spec fn width<T>(g: Seq<Seq<T>>) -> nat {
    if g.len() == 0 {
        0
    } else {
        g[0].len()
    }
}

/// Every row is as long as the first one.
pub open spec fn rectangular<T>(g: Seq<Seq<T>>) -> bool {
    forall|i: int| 0 <= i < g.len() ==> (#[trigger] g[i]).len() == g[0].len()
}

/// A rectangular grid with at least one row and one column.
pub open spec fn proper<T>(g: Seq<Seq<T>>) -> bool {
    &&& g.len() > 0
    &&& g[0].len() > 0
    &&& rectangular(g)
}

/// `g` has exactly `rows` rows of `cols` cells each.
pub open spec fn has_shape<T>(g: Seq<Seq<T>>, rows: nat, cols: nat) -> bool {
    &&& g.len() == rows
    &&& forall|i: int| 0 <= i < rows ==> (#[trigger] g[i]).len() == cols
}

/// Rows become columns: cell `(i, j)` of the result is cell `(j, i)` of `g`.
pub open spec fn transposed<T>(g: Seq<Seq<T>>) -> Seq<Seq<T>> {
    Seq::new(width(g), |i: int| Seq::new(g.len(), |j: int| g[j][i]))
}

/// Top/bottom mirror: the rows in reverse order.
pub open spec fn flipped_hz<T>(g: Seq<Seq<T>>) -> Seq<Seq<T>> {
    Seq::new(g.len(), |i: int| g[g.len() - 1 - i])
}

/// Left/right mirror: every row reversed.
pub open spec fn flipped_vt<T>(g: Seq<Seq<T>>) -> Seq<Seq<T>> {
    Seq::new(g.len(), |i: int| Seq::new(g[i].len(), |j: int| g[i][g[i].len() - 1 - j]))
}

/// Quarter turn: transpose, then mirror left/right.
pub open spec fn rotated90<T>(g: Seq<Seq<T>>) -> Seq<Seq<T>> {
    flipped_vt(transposed(g))
}

/// Half turn: mirror top/bottom, then left/right.
pub open spec fn rotated180<T>(g: Seq<Seq<T>>) -> Seq<Seq<T>> {
    flipped_vt(flipped_hz(g))
}

/// Three-quarter turn: a half turn followed by a quarter turn.
pub open spec fn rotated270<T>(g: Seq<Seq<T>>) -> Seq<Seq<T>> {
    rotated90(rotated180(g))
}

/// Cell by cell, `b` is a clone of `a`.
pub open spec fn grid_cloned<T: Clone>(a: Seq<Seq<T>>, b: Seq<Seq<T>>) -> bool {
    &&& a.len() == b.len()
    &&& forall|i: int| 0 <= i < a.len() ==> (#[trigger] a[i]).len() == b[i].len()
    &&& forall|i: int, j: int|
        0 <= i < a.len() && 0 <= j < a[i].len() ==> cloned(#[trigger] a[i][j], b[i][j])
}

/// A clone of a boolean grid is the grid itself.
pub proof fn lemma_bool_grid_cloned(a: Seq<Seq<bool>>, b: Seq<Seq<bool>>)
    requires
        grid_cloned(a, b),
    ensures
        a == b,
{
    assert forall|i: int| 0 <= i < a.len() implies a[i] == b[i] by {
        assert(a[i].len() == b[i].len());
        assert forall|j: int| 0 <= j < a[i].len() implies a[i][j] == b[i][j] by {
            assert(cloned(a[i][j], b[i][j]));
        }
        assert(a[i] =~= b[i]);
    }
    assert(a =~= b);
}

/// The shape and the cells of a quarter turn of a proper grid.
pub proof fn lemma_rotated90_cells<T>(g: Seq<Seq<T>>)
    requires
        proper(g),
    ensures
        proper(rotated90(g)),
        has_shape(rotated90(g), g[0].len(), g.len()),
        forall|i: int, j: int|
            0 <= i < g[0].len() && 0 <= j < g.len() ==> #[trigger] rotated90(g)[i][j] == g[g.len()
                - 1 - j][i],
{
    let t = transposed(g);
    assert(has_shape(t, g[0].len(), g.len()));
    let r = rotated90(g);
    assert forall|i: int| 0 <= i < r.len() implies (#[trigger] r[i]).len() == g.len() by {
        assert(t[i].len() == g.len());
    }
    assert forall|i: int, j: int| 0 <= i < g[0].len() && 0 <= j < g.len() implies #[trigger] r[i][j]
        == g[g.len() - 1 - j][i] by {
        assert(t[i].len() == g.len());
        assert(r[i][j] == t[i][g.len() - 1 - j]);
    }
    assert(r[0].len() == g.len());
}

/// A half turn keeps the number of rows and the length of each row's mirror
/// image, so a rectangular grid stays rectangular.
pub proof fn lemma_rotated180_shape<T>(g: Seq<Seq<T>>)
    ensures
        rotated180(g).len() == g.len(),
        forall|i: int|
            0 <= i < g.len() ==> (#[trigger] rotated180(g)[i]).len() == g[g.len() - 1 - i].len(),
        rectangular(g) ==> rectangular(rotated180(g)),
{
    let f = flipped_hz(g);
    let r = rotated180(g);
    assert forall|i: int| 0 <= i < g.len() implies (#[trigger] r[i]).len() == g[g.len() - 1
        - i].len() by {
        assert(f[i] == g[g.len() - 1 - i]);
    }
    if rectangular(g) && g.len() > 0 {
        assert forall|i: int| 0 <= i < r.len() implies (#[trigger] r[i]).len() == r[0].len() by {
            assert(g[g.len() - 1 - i].len() == g[0].len());
            assert(g[g.len() - 1 - 0].len() == g[0].len());
        }
    }
}

/// Mirroring top/bottom twice gives the grid back.
pub proof fn lemma_flipped_hz_twice<T>(g: Seq<Seq<T>>)
    ensures
        flipped_hz(flipped_hz(g)) == g,
{
    assert(flipped_hz(flipped_hz(g)) =~= g);
}

/// Mirroring left/right twice gives the grid back.
pub proof fn lemma_flipped_vt_twice<T>(g: Seq<Seq<T>>)
    ensures
        flipped_vt(flipped_vt(g)) == g,
{
    let f = flipped_vt(g);
    let ff = flipped_vt(f);
    assert forall|i: int| 0 <= i < g.len() implies ff[i] == g[i] by {
        assert(f[i].len() == g[i].len());
        assert(ff[i] =~= g[i]);
    }
    assert(ff =~= g);
}

/// Four quarter turns of a proper grid give the grid back.
pub proof fn lemma_rotated90_four_times<T>(g: Seq<Seq<T>>)
    requires
        proper(g),
    ensures
        rotated90(rotated90(rotated90(rotated90(g)))) == g,
{
    let g1 = rotated90(g);
    let g2 = rotated90(g1);
    let g3 = rotated90(g2);
    let g4 = rotated90(g3);
    lemma_rotated90_cells(g);
    lemma_rotated90_cells(g1);
    lemma_rotated90_cells(g2);
    lemma_rotated90_cells(g3);
    let h = g.len() as int;
    let w = g[0].len() as int;
    assert forall|i: int| 0 <= i < h implies g4[i] == g[i] by {
        assert(g4[i].len() == w);
        assert(g[i].len() == w);
        assert forall|j: int| 0 <= j < w implies g4[i][j] == g[i][j] by {
            assert(g4[i][j] == g3[w - 1 - j][i]);
            assert(g3[w - 1 - j][i] == g2[h - 1 - i][w - 1 - j]);
            assert(g2[h - 1 - i][w - 1 - j] == g1[j][h - 1 - i]);
            assert(g1[j][h - 1 - i] == g[i][j]);
        }
        assert(g4[i] =~= g[i]);
    }
    assert(g4 =~= g);
}

} // verus!
