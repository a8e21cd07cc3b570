//! A named piece: its canonical shape, its cell count, where it currently
//! sits, and the distinct forms it can be placed in.

use crate::cells::{
    cells, col_used, count, lemma_cells_after_set, lemma_cells_bounded, lemma_flipped_hz_piece,
    lemma_rotated180_piece, lemma_rotated270_piece, lemma_rotated90_piece, normalized, row_used,
};
use crate::grid::{
    flipped_hz, has_shape, lemma_bool_grid_cloned, proper, rotated180, rotated270, rotated90,
};
use crate::matrix::{reversed, Matrix};
use crate::region::connected;
use vstd::prelude::*;

verus! {

/// Why a list of coordinates does not describe a piece.
#[derive(Clone, Copy, Debug, PartialEq, Eq, Structural)]
pub enum PieceError {
    /// The list holds no coordinate.
    Empty,
    /// The bounding box of the coordinates has more rows or more columns
    /// than a machine word can count.
    TooLarge,
}

/// A piece: a display name, a shape, the number of cells of the shape, and
/// the board coordinate of the shape's top-left corner while the piece is
/// placed.
#[derive(Debug, PartialEq)]
pub struct Polyomino {
    /// The display name.
    pub name: String,
    /// The cells of the piece inside its bounding box.
    pub shape: Matrix<bool>,
    /// The number of cells of the piece.
    pub size: usize,
    /// Where the top-left corner of the bounding box sits on the board, or
    /// `(usize::MAX, usize::MAX)` while the piece is off the board.
    pub start: (usize, usize),
}

/// What a piece is, as plain mathematical values.
pub struct PieceModel {
    pub name: Seq<char>,
    pub shape: Seq<Seq<bool>>,
    pub size: usize,
    pub start: (usize, usize),
}

/// The anchor of a piece that is not on the board.
pub open spec fn unplaced() -> (usize, usize) {
    (usize::MAX, usize::MAX)
}

/// The smallest element of a non-empty sequence.
pub open spec fn lowest(s: Seq<int>) -> int
    decreases s.len(),
{
    if s.len() <= 1 {
        s[0]
    } else {
        let rest = lowest(s.drop_last());
        if s.last() < rest {
            s.last()
        } else {
            rest
        }
    }
}

/// The largest element of a non-empty sequence.
pub open spec fn highest(s: Seq<int>) -> int
    decreases s.len(),
{
    if s.len() <= 1 {
        s[0]
    } else {
        let rest = highest(s.drop_last());
        if s.last() > rest {
            s.last()
        } else {
            rest
        }
    }
}

/// The row numbers of a coordinate list.
pub open spec fn rows_of(pos: Seq<(usize, usize)>) -> Seq<int> {
    Seq::new(pos.len(), |k: int| pos[k].0 as int)
}

/// The column numbers of a coordinate list.
pub open spec fn cols_of(pos: Seq<(usize, usize)>) -> Seq<int> {
    Seq::new(pos.len(), |k: int| pos[k].1 as int)
}

/// The coordinate `(r, c)` occurs in the list.
pub open spec fn marks(pos: Seq<(usize, usize)>, r: int, c: int) -> bool {
    exists|k: int| 0 <= k < pos.len() && (#[trigger] pos[k]).0 == r && pos[k].1 == c
}

/// Number of rows of the bounding box of a non-empty coordinate list.
pub open spec fn span_rows(pos: Seq<(usize, usize)>) -> int {
    highest(rows_of(pos)) - lowest(rows_of(pos)) + 1
}

/// Number of columns of the bounding box of a non-empty coordinate list.
pub open spec fn span_cols(pos: Seq<(usize, usize)>) -> int {
    highest(cols_of(pos)) - lowest(cols_of(pos)) + 1
}

/// The shape that a coordinate list describes: its bounding box, moved so
/// that its top-left corner is `(0, 0)`, with exactly the listed cells set.
/// A coordinate that is listed twice marks its cell once.
pub open spec fn outline(pos: Seq<(usize, usize)>) -> Result<Seq<Seq<bool>>, PieceError> {
    if pos.len() == 0 {
        Err(PieceError::Empty)
    } else if span_rows(pos) > usize::MAX || span_cols(pos) > usize::MAX {
        Err(PieceError::TooLarge)
    } else {
        Ok(
            Seq::new(
                span_rows(pos) as nat,
                |i: int|
                    Seq::new(
                        span_cols(pos) as nat,
                        |j: int| marks(pos, lowest(rows_of(pos)) + i, lowest(cols_of(pos)) + j),
                    ),
            ),
        )
    }
}

/// The eight images of a shape under the symmetries of the square, in the
/// order in which orientations are listed: the four rotations of the shape,
/// then the four rotations of its top/bottom mirror image.
pub open spec fn eight(g: Seq<Seq<bool>>) -> Seq<Seq<Seq<bool>>> {
    seq![
        g,
        rotated90(g),
        rotated180(g),
        rotated270(g),
        flipped_hz(g),
        rotated90(flipped_hz(g)),
        rotated180(flipped_hz(g)),
        rotated270(flipped_hz(g)),
    ]
}

/// `s` without the elements that equal their predecessor.
pub open spec fn dedup<A>(s: Seq<A>) -> Seq<A>
    decreases s.len(),
{
    if s.len() == 0 {
        s
    } else {
        let d = dedup(s.drop_last());
        if d.len() > 0 && d.last() == s.last() {
            d
        } else {
            d.push(s.last())
        }
    }
}

/// The forms a shape is placed in: its eight images, runs of equal
/// neighbours collapsed to one. Equal images that are not neighbours in the
/// list both stay.
pub open spec fn orientations(g: Seq<Seq<bool>>) -> Seq<Seq<Seq<bool>>> {
    dedup(eight(g))
}

/// The piece `p` with shape `g`, off the board.
pub open spec fn oriented(p: PieceModel, g: Seq<Seq<bool>>) -> PieceModel {
    PieceModel { name: p.name, shape: g, size: p.size, start: unplaced() }
}

/// The smallest element occurs in the sequence and bounds it from below.
pub proof fn lemma_lowest(s: Seq<int>)
    requires
        s.len() > 0,
    ensures
        exists|k: int| 0 <= k < s.len() && #[trigger] s[k] == lowest(s),
        forall|k: int| 0 <= k < s.len() ==> lowest(s) <= #[trigger] s[k],
    decreases s.len(),
{
    if s.len() <= 1 {
        assert(s[0] == lowest(s));
    } else {
        let t = s.drop_last();
        lemma_lowest(t);
        let k0 = choose|k: int| 0 <= k < t.len() && #[trigger] t[k] == lowest(t);
        assert(s[k0] == t[k0]);
        assert(s[s.len() - 1] == s.last());
        assert forall|k: int| 0 <= k < s.len() implies lowest(s) <= #[trigger] s[k] by {
            if k < t.len() {
                assert(t[k] == s[k]);
            }
        }
    }
}

/// The largest element occurs in the sequence and bounds it from above.
pub proof fn lemma_highest(s: Seq<int>)
    requires
        s.len() > 0,
    ensures
        exists|k: int| 0 <= k < s.len() && #[trigger] s[k] == highest(s),
        forall|k: int| 0 <= k < s.len() ==> highest(s) >= #[trigger] s[k],
    decreases s.len(),
{
    if s.len() <= 1 {
        assert(s[0] == highest(s));
    } else {
        let t = s.drop_last();
        lemma_highest(t);
        let k0 = choose|k: int| 0 <= k < t.len() && #[trigger] t[k] == highest(t);
        assert(s[k0] == t[k0]);
        assert(s[s.len() - 1] == s.last());
        assert forall|k: int| 0 <= k < s.len() implies highest(s) >= #[trigger] s[k] by {
            if k < t.len() {
                assert(t[k] == s[k]);
            }
        }
    }
}

/// The shape of a coordinate list is its own bounding box.
pub proof fn lemma_outline_normalized(pos: Seq<(usize, usize)>)
    requires
        outline(pos) is Ok,
    ensures
        normalized(outline(pos)->Ok_0),
        has_shape(outline(pos)->Ok_0, span_rows(pos) as nat, span_cols(pos) as nat),
{
    let g = outline(pos)->Ok_0;
    let rs = rows_of(pos);
    let cs = cols_of(pos);
    lemma_lowest(rs);
    lemma_highest(rs);
    lemma_lowest(cs);
    lemma_highest(cs);
    let top = lowest(rs);
    let left = lowest(cs);
    let h = span_rows(pos);
    let w = span_cols(pos);
    let kt = choose|k: int| 0 <= k < rs.len() && #[trigger] rs[k] == lowest(rs);
    let kb = choose|k: int| 0 <= k < rs.len() && #[trigger] rs[k] == highest(rs);
    let kl = choose|k: int| 0 <= k < cs.len() && #[trigger] cs[k] == lowest(cs);
    let kr = choose|k: int| 0 <= k < cs.len() && #[trigger] cs[k] == highest(cs);
    assert(h >= 1) by {
        assert(rs[kt] <= highest(rs));
    }
    assert(w >= 1) by {
        assert(cs[kl] <= highest(cs));
    }
    assert(has_shape(g, h as nat, w as nat));
    assert(proper(g));
    assert forall|k: int| 0 <= k < pos.len() implies 0 <= (#[trigger] pos[k]).0 - top < h && 0
        <= pos[k].1 - left < w && g[pos[k].0 - top][pos[k].1 - left] by {
        assert(rs[k] == pos[k].0);
        assert(cs[k] == pos[k].1);
        assert(marks(pos, top + (pos[k].0 - top), left + (pos[k].1 - left)));
    }
    assert(rs[kt] == pos[kt].0 && rs[kb] == pos[kb].0);
    assert(cs[kl] == pos[kl].1 && cs[kr] == pos[kr].1);
    assert(g[0][pos[kt].1 - left]);
    assert(row_used(g, 0));
    assert(g[h - 1][pos[kb].1 - left]);
    assert(row_used(g, h - 1));
    assert(g[pos[kl].0 - top][0]);
    assert(col_used(g, 0));
    assert(g[0].len() == w);
    assert(g[pos[kr].0 - top][w - 1]);
    assert(col_used(g, w - 1));
}

/// A normalized shape has at least one cell.
pub proof fn lemma_normalized_count(g: Seq<Seq<bool>>)
    requires
        normalized(g),
    ensures
        cells(g).finite(),
        count(g) >= 1,
{
    lemma_cells_bounded(g, g.len(), g[0].len());
    let j = choose|j: int| 0 <= j < g[0].len() && #[trigger] g[0][j];
    assert(cells(g).contains((0, j)));
    if count(g) == 0 {
        assert(cells(g) =~= Set::empty());
    }
}

/// What collapsing runs keeps: at least one element of a non-empty
/// sequence and never more than there were; every element that occurred
/// and no other; and no two equal neighbours.
pub proof fn lemma_dedup<A>(s: Seq<A>)
    ensures
        dedup(s).len() <= s.len(),
        s.len() > 0 ==> dedup(s).len() >= 1 && dedup(s).last() == s.last(),
        forall|k: int| 0 <= k < dedup(s).len() ==> s.contains(#[trigger] dedup(s)[k]),
        forall|k: int| 0 <= k < s.len() ==> dedup(s).contains(#[trigger] s[k]),
        forall|k: int| 0 <= k < dedup(s).len() - 1 ==> #[trigger] dedup(s)[k] != dedup(s)[k + 1],
    decreases s.len(),
{
    if s.len() > 0 {
        let t = s.drop_last();
        lemma_dedup(t);
        let d = dedup(t);
        let e = dedup(s);
        assert forall|k: int| 0 <= k < e.len() implies s.contains(#[trigger] e[k]) by {
            if k < d.len() {
                assert(e[k] == d[k]);
                assert(t.contains(d[k]));
                let m = choose|m: int| 0 <= m < t.len() && t[m] == d[k];
                assert(s[m] == d[k]);
            } else {
                assert(e[k] == s[s.len() - 1]);
            }
        }
        assert forall|k: int| 0 <= k < s.len() implies e.contains(#[trigger] s[k]) by {
            if k < t.len() {
                assert(t[k] == s[k]);
                assert(d.contains(t[k]));
                let m = choose|m: int| 0 <= m < d.len() && d[m] == t[k];
                assert(e[m] == s[k]);
            } else {
                assert(e[e.len() - 1] == s[k]);
            }
        }
        assert forall|k: int| 0 <= k < e.len() - 1 implies #[trigger] e[k] != e[k + 1] by {
            if k + 1 < d.len() {
                assert(d[k] != d[k + 1]);
            }
        }
    }
}

/// A piece has between one and eight orientations. Each is normalized and
/// has as many cells as the canonical shape; each of the eight images of the
/// shape is among them; and no orientation equals the one listed before it.
pub proof fn lemma_orientations(g: Seq<Seq<bool>>)
    requires
        normalized(g),
    ensures
        1 <= orientations(g).len() <= 8,
        forall|k: int|
            0 <= k < orientations(g).len() ==> normalized(#[trigger] orientations(g)[k]) && count(
                orientations(g)[k],
            ) == count(g),
        forall|k: int| 0 <= k < 8 ==> orientations(g).contains(#[trigger] eight(g)[k]),
        forall|k: int|
            0 <= k < orientations(g).len() - 1 ==> #[trigger] orientations(g)[k] != orientations(
                g,
            )[k + 1],
        connected(cells(g)) ==> forall|k: int|
            0 <= k < orientations(g).len() ==> connected(cells(#[trigger] orientations(g)[k])),
{
    let e = eight(g);
    lemma_dedup(e);
    lemma_eight(g);
    assert forall|k: int| 0 <= k < orientations(g).len() implies normalized(
        #[trigger] orientations(g)[k],
    ) && count(orientations(g)[k]) == count(g) by {
        assert(e.contains(orientations(g)[k]));
    }
    if connected(cells(g)) {
        assert forall|k: int| 0 <= k < orientations(g).len() implies connected(
            cells(#[trigger] orientations(g)[k]),
        ) by {
            assert(e.contains(orientations(g)[k]));
        }
    }
}

/// Each of the eight images of a normalized shape is normalized and has as
/// many cells as the shape.
pub proof fn lemma_eight(g: Seq<Seq<bool>>)
    requires
        normalized(g),
    ensures
        eight(g).len() == 8,
        forall|k: int|
            0 <= k < 8 ==> normalized(#[trigger] eight(g)[k]) && count(eight(g)[k]) == count(g),
        connected(cells(g)) ==> forall|k: int| 0 <= k < 8 ==> connected(cells(#[trigger] eight(g)[k])),
{
    let f = flipped_hz(g);
    lemma_rotated90_piece(g);
    lemma_rotated180_piece(g);
    lemma_rotated270_piece(g);
    lemma_flipped_hz_piece(g);
    lemma_rotated90_piece(f);
    lemma_rotated180_piece(f);
    lemma_rotated270_piece(f);
}

/// Whether two grids have the same rows.
fn same_grid(a: &Matrix<bool>, b: &Matrix<bool>) -> (same: bool)
    ensures
        same == (a@ == b@),
{
    if a.buf.len() != b.buf.len() {
        return false;
    }
    let mut i: usize = 0;
    while i < a.buf.len()
        invariant
            a.buf.len() == b.buf.len(),
            i <= a.buf.len(),
            forall|k: int| 0 <= k < i ==> #[trigger] a@[k] == b@[k],
        decreases a.buf.len() - i,
    {
        assert(a@[i as int] == a.buf@[i as int]@ && b@[i as int] == b.buf@[i as int]@);
        if a.buf[i].len() != b.buf[i].len() {
            return false;
        }
        let mut j: usize = 0;
        while j < a.buf[i].len()
            invariant
                i < a.buf.len(),
                a.buf.len() == b.buf.len(),
                a@[i as int] == a.buf@[i as int]@,
                b@[i as int] == b.buf@[i as int]@,
                a.buf@[i as int]@.len() == b.buf@[i as int]@.len(),
                j <= a.buf@[i as int]@.len(),
                forall|k: int| 0 <= k < j ==> a@[i as int][k] == b@[i as int][k],
            decreases a.buf@[i as int]@.len() - j,
        {
            if a.buf[i][j] != b.buf[i][j] {
                assert(a@[i as int][j as int] != b@[i as int][j as int]);
                return false;
            }
            j += 1;
        }
        assert(a@[i as int] =~= b@[i as int]);
        i += 1;
    }
    assert(a@ =~= b@);
    true
}

impl View for Polyomino {
    type V = PieceModel;

    open spec fn view(&self) -> PieceModel {
        PieceModel { name: self.name@, shape: self.shape@, size: self.size, start: self.start }
    }
}

impl Clone for Polyomino {
    /// A copy with the same name, shape, size and anchor.
    fn clone(&self) -> (p: Self)
        ensures
            p@ == self@,
    {
        let shape = self.shape.clone();
        proof {
            lemma_bool_grid_cloned(self.shape@, shape@);
        }
        Polyomino { name: self.name.clone(), shape, size: self.size, start: self.start }
    }
}

impl Polyomino {
    /// The shape is its own bounding box and `size` counts its cells.
    pub open spec fn wf(&self) -> bool {
        &&& normalized(self.shape@)
        &&& self.size == count(self.shape@)
    }

    /// Builds a piece from the coordinates of its cells, relative to any
    /// origin. The shape is the bounding box of the coordinates, the size
    /// is the number of distinct coordinates, and the piece is off the
    /// board. An empty list is rejected, and so is one whose bounding box
    /// has more rows or columns than `usize` can count.
    pub fn new(name: &str, pos: Vec<(usize, usize)>) -> (r: Result<Self, PieceError>)
        ensures
            match (r, outline(pos@)) {
                (Ok(p), Ok(g)) => {
                    &&& p.name@ == name@
                    &&& p.shape@ == g
                    &&& p.size == count(g)
                    &&& p.start == unplaced()
                    &&& p.wf()
                },
                (Err(e), Err(f)) => e == f,
                _ => false,
            },
    {
        let n = pos.len();
        if n == 0 {
            return Err(PieceError::Empty);
        }
        let ghost rs = rows_of(pos@);
        let ghost cs = cols_of(pos@);
        let mut top: usize = pos[0].0;
        let mut bottom: usize = pos[0].0;
        let mut left: usize = pos[0].1;
        let mut right: usize = pos[0].1;
        assert(rs.take(1).len() == 1 && rs.take(1)[0] == pos@[0].0);
        assert(cs.take(1).len() == 1 && cs.take(1)[0] == pos@[0].1);
        let mut i: usize = 1;
        while i < n
            invariant
                n == pos@.len(),
                rs == rows_of(pos@),
                cs == cols_of(pos@),
                1 <= i <= n,
                top == lowest(rs.take(i as int)),
                bottom == highest(rs.take(i as int)),
                left == lowest(cs.take(i as int)),
                right == highest(cs.take(i as int)),
            decreases n - i,
        {
            let (r, c) = pos[i];
            proof {
                assert(rs.take(i + 1).drop_last() =~= rs.take(i as int));
                assert(cs.take(i + 1).drop_last() =~= cs.take(i as int));
                assert(rs.take(i + 1).last() == r);
                assert(cs.take(i + 1).last() == c);
            }
            if r < top {
                top = r;
            }
            if r > bottom {
                bottom = r;
            }
            if c < left {
                left = c;
            }
            if c > right {
                right = c;
            }
            i += 1;
        }
        proof {
            assert(rs.take(n as int) =~= rs);
            assert(cs.take(n as int) =~= cs);
            lemma_lowest(rs);
            lemma_highest(rs);
            lemma_lowest(cs);
            lemma_highest(cs);
            assert(top <= bottom) by {
                assert(lowest(rs) <= rs[0] <= highest(rs));
            }
            assert(left <= right) by {
                assert(lowest(cs) <= cs[0] <= highest(cs));
            }
        }
        if bottom - top == usize::MAX || right - left == usize::MAX {
            return Err(PieceError::TooLarge);
        }
        let rows = bottom - top + 1;
        let cols = right - left + 1;
        let ghost goal = outline(pos@)->Ok_0;
        let mut shape: Matrix<bool> = Matrix::new(rows, cols);
        let mut size: usize = 0;
        proof {
            assert(cells(shape@) =~= Set::empty());
            assert forall|m: int| 0 <= m < n implies top <= (#[trigger] pos@[m]).0 <= top + rows - 1
                && left <= pos@[m].1 <= left + cols - 1 by {
                assert(rs[m] == pos@[m].0);
                assert(cs[m] == pos@[m].1);
            }
        }
        let mut k: usize = 0;
        while k < n
            invariant
                n == pos@.len(),
                k <= n,
                rs == rows_of(pos@),
                cs == cols_of(pos@),
                top == lowest(rs),
                left == lowest(cs),
                rows == span_rows(pos@),
                cols == span_cols(pos@),
                forall|m: int| 0 <= m < n ==> top <= (#[trigger] pos@[m]).0 <= top + rows - 1,
                forall|m: int| 0 <= m < n ==> left <= (#[trigger] pos@[m]).1 <= left + cols - 1,
                has_shape(shape@, rows as nat, cols as nat),
                forall|a: int, b: int|
                    0 <= a < rows && 0 <= b < cols ==> #[trigger] shape@[a][b] == marks(
                        pos@.take(k as int),
                        top + a,
                        left + b,
                    ),
                size == count(shape@),
                size <= k,
            decreases n - k,
        {
            let (r, c) = pos[k];
            let ghost before = shape@;
            let ghost seen = pos@.take(k as int);
            let ghost next = pos@.take(k + 1);
            assert(top <= pos@[k as int].0 <= top + rows - 1);
            assert(left <= pos@[k as int].1 <= left + cols - 1);
            let a = r - top;
            let b = c - left;
            assert(before[a as int].len() == cols);
            let fresh = !shape.buf[a][b];
            assert(shape@[a as int] == shape.buf@[a as int]@);
            shape.put(a, b, true);
            proof {
                lemma_cells_bounded(before, rows as nat, cols as nat);
                lemma_cells_after_set(before, shape@, (a as int, b as int));
                assert(next[k as int] == pos@[k as int]);
                assert forall|x: int, y: int| 0 <= x < rows && 0 <= y < cols implies #[trigger] shape@[x][y]
                    == marks(next, top + x, left + y) by {
                    assert(before[x].len() == cols);
                    if marks(seen, top + x, left + y) {
                        let m = choose|m: int|
                            0 <= m < seen.len() && (#[trigger] seen[m]).0 == top + x && seen[m].1
                                == left + y;
                        assert(next[m] == seen[m]);
                    }
                    if marks(next, top + x, left + y) {
                        let m = choose|m: int|
                            0 <= m < next.len() && (#[trigger] next[m]).0 == top + x && next[m].1
                                == left + y;
                        if m < k {
                            assert(seen[m] == next[m]);
                        }
                    }
                }
                if fresh {
                    assert(!cells(before).contains((a as int, b as int)));
                } else {
                    assert(cells(before).contains((a as int, b as int)));
                    assert(cells(before).insert((a as int, b as int)) =~= cells(before));
                }
            }
            if fresh {
                size += 1;
            }
            k += 1;
        }
        proof {
            assert(pos@.take(n as int) =~= pos@);
            lemma_outline_normalized(pos@);
            assert forall|x: int| 0 <= x < rows implies #[trigger] shape@[x] == goal[x] by {
                assert(shape@[x].len() == cols);
                assert(shape@[x] =~= goal[x]);
            }
            assert(shape@ =~= goal);
        }
        Ok(Polyomino { name: name.to_owned(), shape, size, start: (usize::MAX, usize::MAX) })
    }

    /// The forms in which the piece can be placed, each off the board and
    /// with the piece's name and size: the four rotations of the shape and
    /// the four rotations of its mirror image, in that order, without the
    /// forms that equal the one listed just before them. A form that equals
    /// an earlier one that is not its neighbour in the list is listed again.
    /// The piece itself is left as it was.
    pub fn feasible_orientations(&mut self) -> (v: Vec<Self>)
        requires
            old(self).shape.is_rect(),
        ensures
            *final(self) == *old(self),
            v@.len() == orientations(old(self)@.shape).len(),
            forall|k: int|
                0 <= k < v@.len() ==> (#[trigger] v@[k])@ == oriented(
                    old(self)@,
                    orientations(old(self)@.shape)[k],
                ),
            old(self).wf() ==> 1 <= v@.len() <= 8 && forall|k: int|
                0 <= k < v@.len() ==> (#[trigger] v@[k]).wf(),
    {
        let mut origin = self.clone();
        origin.start = (usize::MAX, usize::MAX);

        let mut rot90 = origin.clone();
        rot90.rot90();

        let mut rot180 = origin.clone();
        rot180.rot180();

        let mut rot270 = origin.clone();
        rot270.rot270();

        let mut flip = origin.clone();
        flip.flip();

        let mut flip_rot90 = origin.clone();
        flip_rot90.flip().rot90();

        let mut flip_rot180 = origin.clone();
        flip_rot180.flip().rot180();

        let mut flip_rot270 = origin.clone();
        flip_rot270.flip().rot270();

        let ghost g = self@.shape;
        let ghost all = eight(g);
        let mut images: Vec<Polyomino> = Vec::new();
        images.push(origin);
        images.push(rot90);
        images.push(rot180);
        images.push(rot270);
        images.push(flip);
        images.push(flip_rot90);
        images.push(flip_rot180);
        images.push(flip_rot270);
        assert(forall|k: int| 0 <= k < 8 ==> (#[trigger] images@[k])@ == oriented(self@, all[k]));

        let mut pending = reversed(images);
        let mut kept: Vec<Polyomino> = Vec::new();
        assert(all.take(0) =~= Seq::empty());
        while pending.len() > 0
            invariant
                all == eight(g),
                all.len() == 8,
                pending@.len() <= 8,
                forall|k: int|
                    0 <= k < pending@.len() ==> (#[trigger] pending@[k])@ == oriented(
                        self@,
                        all[7 - k],
                    ),
                kept@.len() == dedup(all.take(8 - pending@.len())).len(),
                forall|k: int|
                    0 <= k < kept@.len() ==> (#[trigger] kept@[k])@ == oriented(
                        self@,
                        dedup(all.take(8 - pending@.len()))[k],
                    ),
            decreases pending.len(),
        {
            let ghost i = 8 - pending@.len();
            let ghost done = dedup(all.take(i));
            let image = pending.pop().unwrap();
            proof {
                assert(all.take(i + 1).drop_last() =~= all.take(i));
                assert(all.take(i + 1).last() == all[i]);
                assert(image@ == oriented(self@, all[i]));
            }
            let repeat = kept.len() > 0 && same_grid(&kept[kept.len() - 1].shape, &image.shape);
            if !repeat {
                kept.push(image);
            }
        }
        proof {
            assert(all.take(8) =~= all);
            if self.wf() {
                lemma_orientations(g);
                assert forall|k: int| 0 <= k < kept@.len() implies (#[trigger] kept@[k]).wf() by {
                    assert(kept@[k]@ == oriented(self@, orientations(g)[k]));
                }
            }
        }
        kept
    }

    /// Mirrors the shape top/bottom.
    pub fn flip(&mut self) -> (r: &mut Self)
        ensures
            r@ == (PieceModel { shape: flipped_hz(old(self)@.shape), ..old(self)@ }),
            old(self).wf() ==> r.wf(),
            *final(self) == *final(r),
    {
        proof {
            if self.wf() {
                lemma_flipped_hz_piece(self.shape@);
            }
        }
        self.shape.flip_hz();
        self
    }

    /// Turns the shape by a quarter turn.
    pub fn rot90(&mut self) -> (r: &mut Self)
        requires
            old(self).shape.is_rect(),
        ensures
            r@ == (PieceModel { shape: rotated90(old(self)@.shape), ..old(self)@ }),
            old(self).wf() ==> r.wf(),
            *final(self) == *final(r),
    {
        let ghost g = self.shape@;
        proof {
            if self.wf() {
                lemma_rotated90_piece(g);
            }
        }
        self.shape.rot90();
        proof {
            lemma_bool_grid_cloned(rotated90(g), self.shape@);
        }
        self
    }

    /// Turns the shape by a half turn.
    pub fn rot180(&mut self) -> (r: &mut Self)
        ensures
            r@ == (PieceModel { shape: rotated180(old(self)@.shape), ..old(self)@ }),
            old(self).wf() ==> r.wf(),
            *final(self) == *final(r),
    {
        proof {
            if self.wf() {
                lemma_rotated180_piece(self.shape@);
            }
        }
        self.shape.rot180();
        self
    }

    /// Turns the shape by three quarter turns: a half turn, then a quarter
    /// turn.
    pub fn rot270(&mut self) -> (r: &mut Self)
        requires
            old(self).shape.is_rect(),
        ensures
            r@ == (PieceModel { shape: rotated270(old(self)@.shape), ..old(self)@ }),
            old(self).wf() ==> r.wf(),
            *final(self) == *final(r),
    {
        let ghost g = self.shape@;
        proof {
            if self.wf() {
                lemma_rotated270_piece(g);
            }
            crate::grid::lemma_rotated180_shape(g);
        }
        self.shape.rot180().rot90();
        proof {
            lemma_bool_grid_cloned(rotated270(g), self.shape@);
        }
        self
    }
}

} // verus!
