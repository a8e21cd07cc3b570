//! A growable two-dimensional grid stored row by row.

use crate::grid::{
    flipped_hz, flipped_vt, grid_cloned, has_shape, rectangular, rotated180, rotated90, transposed,
};
use vstd::prelude::*;

verus! {

/// A grid of cells, one `Vec` per row.
#[derive(Debug, PartialEq)]
pub struct Matrix<T> {
    pub buf: Vec<Vec<T>>,
}

impl<T> View for Matrix<T> {
    type V = Seq<Seq<T>>;

    /// The rows as sequences of cells.
    open spec fn view(&self) -> Seq<Seq<T>> {
        Seq::new(self.buf@.len(), |i: int| self.buf@[i]@)
    }
}

impl<T: Clone> Clone for Matrix<T> {
    /// A cell-by-cell copy with the same dimensions.
    fn clone(&self) -> (m: Self)
        ensures
            grid_cloned(self@, m@),
    {
        let mut buf: Vec<Vec<T>> = Vec::new();
        let mut i: usize = 0;
        while i < self.buf.len()
            invariant
                i <= self.buf.len(),
                buf@.len() == i,
                forall|k: int| 0 <= k < i ==> (#[trigger] buf@[k])@.len() == self.buf@[k]@.len(),
                forall|k: int, j: int|
                    0 <= k < i && 0 <= j < self.buf@[k]@.len() ==> cloned(
                        #[trigger] self.buf@[k]@[j],
                        buf@[k]@[j],
                    ),
            decreases self.buf.len() - i,
        {
            let mut row: Vec<T> = Vec::new();
            let mut j: usize = 0;
            while j < self.buf[i].len()
                invariant
                    i < self.buf.len(),
                    j <= self.buf@[i as int]@.len(),
                    row@.len() == j,
                    forall|k: int| 0 <= k < j ==> cloned(#[trigger] self.buf@[i as int]@[k], row@[k]),
                decreases self.buf@[i as int]@.len() - j,
            {
                row.push(self.buf[i][j].clone());
                j += 1;
            }
            buf.push(row);
            i += 1;
        }
        let m = Matrix { buf };
        proof {
            assert forall|k: int| 0 <= k < self@.len() implies (#[trigger] self@[k]).len()
                == m@[k].len() by {
                assert(buf@[k]@.len() == self.buf@[k]@.len());
            }
            assert forall|k: int, j: int| 0 <= k < self@.len() && 0 <= j < self@[k].len() implies cloned(
                #[trigger] self@[k][j],
                m@[k][j],
            ) by {
                assert(cloned(self.buf@[k]@[j], buf@[k]@[j]));
            }
        }
        m
    }
}

/// The elements of `v` in reverse order.
pub(crate) fn reversed<T>(v: Vec<T>) -> (r: Vec<T>)
    ensures
        r@ == v@.reverse(),
{
    let mut v = v;
    let ghost orig = v@;
    let mut r: Vec<T> = Vec::new();
    while v.len() > 0
        invariant
            v@.len() <= orig.len(),
            v@ == orig.subrange(0, v@.len() as int),
            r@.len() == orig.len() - v@.len(),
            forall|k: int| 0 <= k < r@.len() ==> #[trigger] r@[k] == orig[orig.len() - 1 - k],
        decreases v.len(),
    {
        let x = v.pop().unwrap();
        r.push(x);
    }
    assert(r@ =~= orig.reverse());
    r
}

impl<T: Default + Clone> Matrix<T> {
    /// The matrix has at least one row and all its rows have the same length.
    pub open spec fn is_rect(&self) -> bool {
        self@.len() > 0 && rectangular(self@)
    }

    /// A matrix of `rows` by `cols` default cells.
    pub fn new(rows: usize, cols: usize) -> (m: Self)
        ensures
            has_shape(m@, rows as nat, cols as nat),
            forall|i: int, j: int|
                0 <= i < rows && 0 <= j < cols ==> call_ensures(T::default, (), #[trigger] m@[i][j]),
    {
        let mut buf: Vec<Vec<T>> = Vec::new();
        let mut i: usize = 0;
        while i < rows
            invariant
                i <= rows,
                buf@.len() == i,
                forall|k: int| 0 <= k < i ==> (#[trigger] buf@[k])@.len() == cols,
                forall|k: int, j: int|
                    0 <= k < i && 0 <= j < cols ==> call_ensures(
                        T::default,
                        (),
                        #[trigger] buf@[k]@[j],
                    ),
            decreases rows - i,
        {
            let mut row: Vec<T> = Vec::new();
            let mut j: usize = 0;
            while j < cols
                invariant
                    j <= cols,
                    row@.len() == j,
                    forall|k: int| 0 <= k < j ==> call_ensures(T::default, (), #[trigger] row@[k]),
                decreases cols - j,
            {
                row.push(T::default());
                j += 1;
            }
            buf.push(row);
            i += 1;
        }
        let m = Matrix { buf };
        proof {
            assert forall|k: int| 0 <= k < rows implies (#[trigger] m@[k]).len() == cols by {
                assert(buf@[k]@.len() == cols);
            }
            assert forall|k: int, j: int| 0 <= k < rows && 0 <= j < cols implies call_ensures(
                T::default,
                (),
                #[trigger] m@[k][j],
            ) by {
                assert(call_ensures(T::default, (), buf@[k]@[j]));
            }
        }
        m
    }

    /// The number of rows and the length of the first row.
    pub fn bound(&self) -> (b: (usize, usize))
        requires
            self@.len() > 0,
        ensures
            b.0 == self@.len(),
            b.1 == self@[0].len(),
    {
        (self.buf.len(), self.buf[0].len())
    }

    /// Overwrites the cell in row `i`, column `j`.
    pub(crate) fn put(&mut self, i: usize, j: usize, x: T)
        requires
            i < old(self)@.len(),
            j < old(self)@[i as int].len(),
        ensures
            final(self)@ == old(self)@.update(i as int, old(self)@[i as int].update(j as int, x)),
    {
        let ghost g = self@;
        assert(g[i as int] == self.buf@[i as int]@);
        self.buf[i][j] = x;
        proof {
            let h = g.update(i as int, g[i as int].update(j as int, x));
            assert forall|k: int| 0 <= k < g.len() implies #[trigger] self@[k] == h[k] by {
                if k != i {
                    assert(g[k] == old(self).buf@[k]@);
                }
            }
            assert(self@ =~= h);
        }
    }

    /// Swaps rows and columns in place.
    pub fn transpose(&mut self) -> (r: &mut Self)
        requires
            old(self).is_rect(),
        ensures
            grid_cloned(transposed(old(self)@), r@),
            *final(self) == *final(r),
    {
        let (rows, cols) = self.bound();
        let ghost g = self@;
        let mut buf: Vec<Vec<T>> = Vec::new();
        let mut i: usize = 0;
        while i < cols
            invariant
                self@ == g,
                self.is_rect(),
                rows == g.len(),
                cols == g[0].len(),
                i <= cols,
                buf@.len() == i,
                forall|k: int| 0 <= k < i ==> (#[trigger] buf@[k])@.len() == rows,
                forall|k: int, j: int|
                    0 <= k < i && 0 <= j < rows ==> cloned(g[j][k], #[trigger] buf@[k]@[j]),
            decreases cols - i,
        {
            let mut row: Vec<T> = Vec::new();
            let mut j: usize = 0;
            while j < rows
                invariant
                    self@ == g,
                    self.is_rect(),
                    rows == g.len(),
                    cols == g[0].len(),
                    i < cols,
                    j <= rows,
                    row@.len() == j,
                    forall|k: int| 0 <= k < j ==> cloned(g[k][i as int], #[trigger] row@[k]),
                decreases rows - j,
            {
                assert(self@[j as int].len() == cols);
                assert(self@[j as int] == self.buf@[j as int]@);
                row.push(self.buf[j][i].clone());
                j += 1;
            }
            buf.push(row);
            i += 1;
        }
        self.buf = buf;
        proof {
            let t = transposed(g);
            assert forall|k: int| 0 <= k < t.len() implies (#[trigger] t[k]).len() == self@[k].len() by {
                assert(buf@[k]@.len() == rows);
            }
            assert forall|k: int, j: int| 0 <= k < t.len() && 0 <= j < t[k].len() implies cloned(
                #[trigger] t[k][j],
                self@[k][j],
            ) by {
                assert(cloned(g[j][k], buf@[k]@[j]));
            }
        }
        self
    }

    /// Reverses the order of the rows in place: a top/bottom mirror.
    pub fn flip_hz(&mut self) -> (r: &mut Self)
        ensures
            r@ == flipped_hz(old(self)@),
            *final(self) == *final(r),
    {
        let ghost g = self@;
        let mut rows: Vec<Vec<T>> = Vec::new();
        core::mem::swap(&mut self.buf, &mut rows);
        let ghost taken = rows@;
        self.buf = reversed(rows);
        proof {
            assert forall|i: int| 0 <= i < g.len() implies #[trigger] self@[i] == flipped_hz(g)[i] by {
                assert(self.buf@[i] == taken[taken.len() - 1 - i]);
                assert(g[g.len() - 1 - i] == taken[taken.len() - 1 - i]@);
            }
            assert(self@ =~= flipped_hz(g));
        }
        self
    }

    /// Reverses every row in place: a left/right mirror.
    pub fn flip_vt(&mut self) -> (r: &mut Self)
        ensures
            r@ == flipped_vt(old(self)@),
            *final(self) == *final(r),
    {
        let ghost g = self@;
        let mut rows: Vec<Vec<T>> = Vec::new();
        core::mem::swap(&mut self.buf, &mut rows);
        let ghost taken = rows@;
        let mut pending = reversed(rows);
        while pending.len() > 0
            invariant
                pending@.len() + self.buf@.len() == taken.len(),
                forall|k: int| 0 <= k < pending@.len() ==> #[trigger] pending@[k] == taken[taken.len() - 1 - k],
                forall|k: int| 0 <= k < self.buf@.len() ==> (#[trigger] self.buf@[k])@ == taken[k]@.reverse(),
            decreases pending.len(),
        {
            let row = pending.pop().unwrap();
            self.buf.push(reversed(row));
        }
        proof {
            assert forall|i: int| 0 <= i < g.len() implies #[trigger] self@[i] == flipped_vt(g)[i] by {
                assert(self.buf@[i]@ == taken[i]@.reverse());
                assert(g[i] == taken[i]@);
                assert(self@[i] =~= flipped_vt(g)[i]);
            }
            assert(self@ =~= flipped_vt(g));
        }
        self
    }

    /// A quarter turn in place: transpose, then mirror left/right.
    pub fn rot90(&mut self) -> (r: &mut Self)
        requires
            old(self).is_rect(),
        ensures
            grid_cloned(rotated90(old(self)@), r@),
            *final(self) == *final(r),
    {
        let ghost g = self@;
        let r = self.transpose().flip_vt();
        proof {
            let t = transposed(g);
            let u = flipped_vt(t);
            assert forall|i: int| 0 <= i < u.len() implies (#[trigger] u[i]).len() == r@[i].len() by {
                assert(t[i].len() == r@[i].len());
            }
            assert forall|i: int, j: int| 0 <= i < u.len() && 0 <= j < u[i].len() implies cloned(
                #[trigger] u[i][j],
                r@[i][j],
            ) by {
                assert(t[i].len() == u[i].len());
                assert(cloned(t[i][t[i].len() - 1 - j], r@[i][j]));
            }
        }
        r
    }

    /// A half turn in place: mirror top/bottom, then left/right.
    pub fn rot180(&mut self) -> (r: &mut Self)
        ensures
            r@ == rotated180(old(self)@),
            *final(self) == *final(r),
    {
        self.flip_hz().flip_vt()
    }
}

} // verus!
