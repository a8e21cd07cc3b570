//! Laying a shape on an occupancy grid and taking it off again.

use crate::cells::filled;
use crate::grid::width;
use vstd::prelude::*;

verus! {

/// A coordinate as mathematical integers.
pub open spec fn cell_of(pos: (usize, usize)) -> (int, int) {
    (pos.0 as int, pos.1 as int)
}

/// The shape `s`, its top-left corner at `pos`, covers the cell `p`.
pub open spec fn covers(pos: (int, int), s: Seq<Seq<bool>>, p: (int, int)) -> bool {
    filled(s, (p.0 - pos.0, p.1 - pos.1))
}

/// The bounding box of `s`, its top-left corner at `pos`, lies inside `g`.
pub open spec fn fits(g: Seq<Seq<bool>>, pos: (int, int), s: Seq<Seq<bool>>) -> bool {
    &&& 0 <= pos.0
    &&& 0 <= pos.1
    &&& pos.0 + s.len() <= g.len()
    &&& pos.1 + width(s) <= width(g)
}

/// The shape fits at `pos`, and no cell it covers is already covered.
pub open spec fn placeable_at(g: Seq<Seq<bool>>, pos: (int, int), s: Seq<Seq<bool>>) -> bool {
    &&& fits(g, pos, s)
    &&& forall|p: (int, int)| #[trigger] covers(pos, s, p) ==> !filled(g, p)
}

/// `g` with the cells that `s` covers at `pos` marked as covered.
pub open spec fn with_piece(g: Seq<Seq<bool>>, pos: (int, int), s: Seq<Seq<bool>>) -> Seq<
    Seq<bool>,
> {
    Seq::new(g.len(), |i: int| Seq::new(g[i].len(), |j: int| g[i][j] || covers(pos, s, (i, j))))
}

/// `g` with the cells that `s` covers at `pos` marked as empty.
pub open spec fn without_piece(g: Seq<Seq<bool>>, pos: (int, int), s: Seq<Seq<bool>>) -> Seq<
    Seq<bool>,
> {
    Seq::new(g.len(), |i: int| Seq::new(g[i].len(), |j: int| g[i][j] && !covers(pos, s, (i, j))))
}

/// The shape-relative coordinate `a` comes before `b` in row-major order.
pub open spec fn before(a: (int, int), b: (int, int)) -> bool {
    a.0 < b.0 || (a.0 == b.0 && a.1 < b.1)
}

/// `g` with the cells marked that `s` covers at `pos` and that come before
/// the shape-relative coordinate `upto` in row-major order.
pub open spec fn with_piece_upto(
    g: Seq<Seq<bool>>,
    pos: (int, int),
    s: Seq<Seq<bool>>,
    upto: (int, int),
) -> Seq<Seq<bool>> {
    Seq::new(
        g.len(),
        |i: int|
            Seq::new(
                g[i].len(),
                |j: int|
                    g[i][j] || (covers(pos, s, (i, j)) && before((i - pos.0, j - pos.1), upto)),
            ),
    )
}

/// `g` with the cells emptied that `s` covers at `pos` and that come before
/// the shape-relative coordinate `upto` in row-major order.
pub open spec fn without_piece_upto(
    g: Seq<Seq<bool>>,
    pos: (int, int),
    s: Seq<Seq<bool>>,
    upto: (int, int),
) -> Seq<Seq<bool>> {
    Seq::new(
        g.len(),
        |i: int|
            Seq::new(
                g[i].len(),
                |j: int|
                    g[i][j] && !(covers(pos, s, (i, j)) && before((i - pos.0, j - pos.1), upto)),
            ),
    )
}

/// A grid of `rows` by `cols` empty cells.
pub open spec fn blank(rows: nat, cols: nat) -> Seq<Seq<bool>> {
    Seq::new(rows, |i: int| Seq::new(cols, |j: int| false))
}

/// Every cell of the grid is covered.
pub open spec fn is_full(g: Seq<Seq<bool>>) -> bool {
    forall|i: int, j: int| 0 <= i < g.len() && 0 <= j < g[i].len() ==> #[trigger] g[i][j]
}

/// Marking the next cell of the shape, in row-major order, advances the
/// partly laid grid by one cell.
pub proof fn lemma_with_piece_step(
    g: Seq<Seq<bool>>,
    pos: (int, int),
    s: Seq<Seq<bool>>,
    r: int,
    c: int,
)
    requires
        0 <= pos.0 && 0 <= pos.1,
        0 <= r < s.len(),
        0 <= c < s[r].len(),
        pos.0 + r < g.len(),
        pos.1 + c < g[pos.0 + r].len(),
    ensures
        ({
            let u = with_piece_upto(g, pos, s, (r, c));
            with_piece_upto(g, pos, s, (r, c + 1)) == u.update(
                pos.0 + r,
                u[pos.0 + r].update(pos.1 + c, u[pos.0 + r][pos.1 + c] || s[r][c]),
            )
        }),
{
    let u = with_piece_upto(g, pos, s, (r, c));
    let v = with_piece_upto(g, pos, s, (r, c + 1));
    let w = u.update(pos.0 + r, u[pos.0 + r].update(pos.1 + c, u[pos.0 + r][pos.1 + c] || s[r][c]));
    assert forall|i: int| 0 <= i < g.len() implies #[trigger] v[i] == w[i] by {
        assert(u[i].len() == g[i].len());
        assert(v[i] =~= w[i]);
    }
    assert(v =~= w);
}

/// Emptying the next cell of the shape, in row-major order, if the shape
/// covers it, advances the partly cleared grid by one cell.
pub proof fn lemma_without_piece_step(
    g: Seq<Seq<bool>>,
    pos: (int, int),
    s: Seq<Seq<bool>>,
    r: int,
    c: int,
)
    requires
        0 <= pos.0 && 0 <= pos.1,
        0 <= r < s.len(),
        0 <= c < s[r].len(),
        pos.0 + r < g.len(),
        pos.1 + c < g[pos.0 + r].len(),
    ensures
        ({
            let u = without_piece_upto(g, pos, s, (r, c));
            without_piece_upto(g, pos, s, (r, c + 1)) == (if s[r][c] {
                u.update(pos.0 + r, u[pos.0 + r].update(pos.1 + c, false))
            } else {
                u
            })
        }),
{
    let u = without_piece_upto(g, pos, s, (r, c));
    let v = without_piece_upto(g, pos, s, (r, c + 1));
    let w = if s[r][c] {
        u.update(pos.0 + r, u[pos.0 + r].update(pos.1 + c, false))
    } else {
        u
    };
    assert forall|i: int| 0 <= i < g.len() implies #[trigger] v[i] == w[i] by {
        assert(u[i].len() == g[i].len());
        assert(v[i] =~= w[i]);
    }
    assert(v =~= w);
}

/// Where the partly laid and partly cleared grids start, pass from one row
/// of the shape to the next, and end.
pub proof fn lemma_piece_upto_bounds(g: Seq<Seq<bool>>, pos: (int, int), s: Seq<Seq<bool>>, r: int)
    requires
        0 <= r < s.len(),
    ensures
        with_piece_upto(g, pos, s, (0, 0)) == g,
        without_piece_upto(g, pos, s, (0, 0)) == g,
        with_piece_upto(g, pos, s, (r, s[r].len() as int)) == with_piece_upto(g, pos, s, (r + 1, 0)),
        without_piece_upto(g, pos, s, (r, s[r].len() as int)) == without_piece_upto(
            g,
            pos,
            s,
            (r + 1, 0),
        ),
        with_piece_upto(g, pos, s, (s.len() as int, 0)) == with_piece(g, pos, s),
        without_piece_upto(g, pos, s, (s.len() as int, 0)) == without_piece(g, pos, s),
{
    assert(with_piece_upto(g, pos, s, (0, 0)) =~~= g);
    assert(without_piece_upto(g, pos, s, (0, 0)) =~~= g);
    assert(with_piece_upto(g, pos, s, (r, s[r].len() as int)) =~~= with_piece_upto(
        g,
        pos,
        s,
        (r + 1, 0),
    ));
    assert(without_piece_upto(g, pos, s, (r, s[r].len() as int)) =~~= without_piece_upto(
        g,
        pos,
        s,
        (r + 1, 0),
    ));
    assert(with_piece_upto(g, pos, s, (s.len() as int, 0)) =~~= with_piece(g, pos, s));
    assert(without_piece_upto(g, pos, s, (s.len() as int, 0)) =~~= without_piece(g, pos, s));
}

/// Taking a shape off right after laying it where it was placeable gives
/// the grid back, cell for cell.
pub proof fn lemma_place_then_unplace(g: Seq<Seq<bool>>, pos: (int, int), s: Seq<Seq<bool>>)
    requires
        placeable_at(g, pos, s),
    ensures
        without_piece(with_piece(g, pos, s), pos, s) == g,
{
    let placed = with_piece(g, pos, s);
    let back = without_piece(placed, pos, s);
    assert forall|i: int| 0 <= i < g.len() implies #[trigger] back[i] == g[i] by {
        assert(placed[i].len() == g[i].len());
        assert forall|j: int| 0 <= j < g[i].len() implies back[i][j] == g[i][j] by {
            if covers(pos, s, (i, j)) {
                assert(!filled(g, (i, j)));
            }
        }
        assert(back[i] =~= g[i]);
    }
    assert(back =~= g);
}

} // verus!
