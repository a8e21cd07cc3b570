//! Flood fill over an occupancy grid: marking the region of empty cells
//! around a seed and counting it.

use crate::cells::{lemma_rectangle_len, rectangle};
use crate::grid::has_shape;
use crate::matrix::Matrix;
use crate::placement::{before, cell_of};
use crate::region::{
    adjacent, closed_in, component, holes, lemma_closed_holds_component, lemma_component_shared,
    lemma_linked_self, lemma_linked_step, linked,
};
use vstd::prelude::*;
use vstd::set_lib::lemma_len_subset;

verus! {

/// The cell of `m` at `p`.
pub open spec fn at(m: Seq<Seq<bool>>, p: (int, int)) -> bool {
    m[p.0][p.1]
}

/// Every covered cell of `g` is marked in `m`.
pub open spec fn above(g: Seq<Seq<bool>>, m: Seq<Seq<bool>>, rows: nat, cols: nat) -> bool {
    forall|p: (int, int)| rectangle(rows, cols).contains(p) && #[trigger] at(g, p) ==> at(m, p)
}

/// The marked empty cells of `g` are whole regions: an empty neighbour of a
/// marked empty cell is marked.
pub open spec fn sealed(g: Seq<Seq<bool>>, m: Seq<Seq<bool>>, rows: nat, cols: nat) -> bool {
    forall|a: (int, int), b: (int, int)|
        rectangle(rows, cols).contains(a) && rectangle(rows, cols).contains(b) && #[trigger] adjacent(
            a,
            b,
        ) && at(m, a) && !at(g, a) && !at(g, b) ==> at(m, b)
}

/// Where a sweep over the empty regions of `g` stands: `m` marks the covered
/// cells and whole regions of empty ones, every cell before `upto` in
/// row-major order is marked, and no marked region has fewer than `min`
/// cells.
pub open spec fn swept(
    g: Seq<Seq<bool>>,
    m: Seq<Seq<bool>>,
    rows: nat,
    cols: nat,
    min: nat,
    upto: (int, int),
) -> bool {
    &&& has_shape(g, rows, cols)
    &&& has_shape(m, rows, cols)
    &&& above(g, m, rows, cols)
    &&& sealed(g, m, rows, cols)
    &&& forall|p: (int, int)| rectangle(rows, cols).contains(p) && before(p, upto) ==> #[trigger] at(m, p)
    &&& forall|p: (int, int)|
        rectangle(rows, cols).contains(p) && #[trigger] at(m, p) && !at(g, p) ==> component(
            holes(g),
            p,
        ).len() >= min
}

/// Every neighbour of `p` on the board is marked.
spec fn settled(m: Seq<Seq<bool>>, rows: nat, cols: nat, p: (int, int)) -> bool {
    forall|q: (int, int)| rectangle(rows, cols).contains(q) && #[trigger] adjacent(p, q) ==> at(m, q)
}

/// `p` is in the queue at an index from `from` on.
spec fn waiting(queue: Seq<(usize, usize)>, from: int, p: (int, int)) -> bool {
    exists|k: int| from <= k < queue.len() && cell_of(#[trigger] queue[k]) == p
}

/// The state of a fill from `seed`: `seen` are the cells marked so far, each
/// queued once and each linked to the seed; a seen cell has all its
/// neighbours marked unless it still waits in the queue.
spec fn filling(
    g: Seq<Seq<bool>>,
    start: Seq<Seq<bool>>,
    m: Seq<Seq<bool>>,
    queue: Seq<(usize, usize)>,
    from: int,
    seen: Set<(int, int)>,
    seed: (int, int),
    rows: nat,
    cols: nat,
) -> bool {
    &&& rows <= usize::MAX && cols <= usize::MAX
    &&& has_shape(g, rows, cols)
    &&& has_shape(start, rows, cols)
    &&& has_shape(m, rows, cols)
    &&& above(g, start, rows, cols)
    &&& sealed(g, start, rows, cols)
    &&& 0 <= from <= queue.len()
    &&& seen.finite()
    &&& seen.len() == queue.len()
    &&& seen.contains(seed)
    &&& forall|k: int| 0 <= k < queue.len() ==> seen.contains(cell_of(#[trigger] queue[k]))
    &&& forall|p: (int, int)|
        rectangle(rows, cols).contains(p) ==> #[trigger] at(m, p) == (at(start, p) || seen.contains(p))
    &&& forall|p: (int, int)| #[trigger]
        seen.contains(p) ==> rectangle(rows, cols).contains(p) && !at(start, p) && linked(
            holes(g),
            seed,
            p,
        )
    &&& forall|p: (int, int)| #[trigger]
        seen.contains(p) ==> settled(m, rows, cols, p) || waiting(queue, from, p)
}

/// No more cells are seen than the board has.
proof fn lemma_filling_bounded(
    g: Seq<Seq<bool>>,
    start: Seq<Seq<bool>>,
    m: Seq<Seq<bool>>,
    queue: Seq<(usize, usize)>,
    from: int,
    seen: Set<(int, int)>,
    seed: (int, int),
    rows: nat,
    cols: nat,
)
    requires
        filling(g, start, m, queue, from, seen, seed, rows, cols),
    ensures
        queue.len() <= rectangle(rows, cols).len(),
        rectangle(rows, cols).finite(),
{
    lemma_rectangle_len(rows, cols);
    assert(seen.subset_of(rectangle(rows, cols)));
    lemma_len_subset(seen, rectangle(rows, cols));
}

/// Looking at a neighbour `n` of a seen cell `c`, and marking and queueing
/// it if it was not marked, keeps the fill's state and leaves `n` marked.
proof fn lemma_visit(
    g: Seq<Seq<bool>>,
    start: Seq<Seq<bool>>,
    m: Seq<Seq<bool>>,
    queue: Seq<(usize, usize)>,
    from: int,
    seen: Set<(int, int)>,
    seed: (int, int),
    rows: nat,
    cols: nat,
    c: (int, int),
    n: (int, int),
    m2: Seq<Seq<bool>>,
    queue2: Seq<(usize, usize)>,
)
    requires
        filling(g, start, m, queue, from, seen, seed, rows, cols),
        seen.contains(c),
        rectangle(rows, cols).contains(n),
        adjacent(c, n),
        m2 == (if !at(m, n) {
            m.update(n.0, m[n.0].update(n.1, true))
        } else {
            m
        }),
        queue2 == (if !at(m, n) {
            queue.push((n.0 as usize, n.1 as usize))
        } else {
            queue
        }),
    ensures
        filling(
            g,
            start,
            m2,
            queue2,
            from,
            if !at(m, n) {
                seen.insert(n)
            } else {
                seen
            },
            seed,
            rows,
            cols,
        ),
        at(m2, n),
        forall|p: (int, int)| rectangle(rows, cols).contains(p) && at(m, p) ==> #[trigger] at(m2, p),
{
    let all = rectangle(rows, cols);
    if !at(m, n) {
        let seen2 = seen.insert(n);
        assert(!seen.contains(n));
        assert(!at(start, n));
        assert(m[n.0].len() == cols);
        assert forall|i: int| 0 <= i < rows implies (#[trigger] m2[i]).len() == cols by {
            assert(m[i].len() == cols);
        }
        assert forall|p: (int, int)| all.contains(p) implies #[trigger] at(m2, p) == (at(m, p) || p
            == n) by {
            assert(m[p.0].len() == cols);
        }
        assert(!at(g, n)) by {
            if at(g, n) {
                assert(at(start, n));
            }
        }
        assert(g[n.0].len() == cols);
        assert(holes(g).contains(n));
        lemma_linked_step(holes(g), seed, c, n);
        assert(queue2.len() == queue.len() + 1);
        assert(cell_of(queue2[queue.len() as int]) == n);
        assert forall|k: int| 0 <= k < queue2.len() implies seen2.contains(
            cell_of(#[trigger] queue2[k]),
        ) by {
            if k < queue.len() {
                assert(queue2[k] == queue[k]);
            }
        }
        assert forall|p: (int, int)| #[trigger] seen2.contains(p) implies settled(m2, rows, cols, p)
            || waiting(queue2, from, p) by {
            if p == n {
                assert(waiting(queue2, from, p));
            } else if settled(m, rows, cols, p) {
                assert forall|q: (int, int)| all.contains(q) && #[trigger] adjacent(p, q) implies at(
                    m2,
                    q,
                ) by {
                    assert(at(m, q));
                }
            } else {
                let k = choose|k: int| from <= k < queue.len() && cell_of(#[trigger] queue[k]) == p;
                assert(queue2[k] == queue[k]);
            }
        }
        assert forall|p: (int, int)| all.contains(p) implies #[trigger] at(m2, p) == (at(start, p)
            || seen2.contains(p)) by {
            assert(at(m2, p) == (at(m, p) || p == n));
        }
    }
}

/// Once every neighbour of the first waiting cell is marked, the cell no
/// longer waits.
proof fn lemma_advance(
    g: Seq<Seq<bool>>,
    start: Seq<Seq<bool>>,
    m: Seq<Seq<bool>>,
    queue: Seq<(usize, usize)>,
    from: int,
    seen: Set<(int, int)>,
    seed: (int, int),
    rows: nat,
    cols: nat,
)
    requires
        filling(g, start, m, queue, from, seen, seed, rows, cols),
        from < queue.len(),
        settled(m, rows, cols, cell_of(queue[from])),
    ensures
        filling(g, start, m, queue, from + 1, seen, seed, rows, cols),
{
    assert forall|p: (int, int)| #[trigger] seen.contains(p) implies settled(m, rows, cols, p)
        || waiting(queue, from + 1, p) by {
        if !settled(m, rows, cols, p) {
            let k = choose|k: int| from <= k < queue.len() && cell_of(#[trigger] queue[k]) == p;
            assert(k != from);
        }
    }
}

/// When no cell waits any more, the seen cells are the region of the seed,
/// and the marks again cover the covered cells and whole regions.
proof fn lemma_fill_done(
    g: Seq<Seq<bool>>,
    start: Seq<Seq<bool>>,
    m: Seq<Seq<bool>>,
    queue: Seq<(usize, usize)>,
    seen: Set<(int, int)>,
    seed: (int, int),
    rows: nat,
    cols: nat,
)
    requires
        filling(g, start, m, queue, queue.len() as int, seen, seed, rows, cols),
    ensures
        seen == component(holes(g), seed),
        above(g, m, rows, cols),
        sealed(g, m, rows, cols),
{
    let all = rectangle(rows, cols);
    let free = holes(g);
    assert forall|p: (int, int)| #[trigger] seen.contains(p) implies settled(m, rows, cols, p) by {
        if waiting(queue, queue.len() as int, p) {
        }
    }
    assert forall|p: (int, int)| seen.contains(p) implies free.contains(p) by {
        assert(all.contains(p));
        assert(g[p.0].len() == cols);
        if at(g, p) {
            assert(at(start, p));
        }
    }
    assert forall|a: (int, int), b: (int, int)|
        seen.contains(a) && free.contains(b) && #[trigger] adjacent(a, b) implies seen.contains(
        b,
    ) by {
        assert(g[b.0].len() == cols);
        assert(all.contains(a) && all.contains(b));
        assert(settled(m, rows, cols, a));
        assert(at(m, b));
        if at(start, b) {
            assert(adjacent(b, a));
            assert(!at(g, a)) by {
                if at(g, a) {
                    assert(at(start, a));
                }
            }
            assert(at(start, a));
        }
    }
    assert(closed_in(free, seen));
    lemma_closed_holds_component(free, seen, seed);
    assert(seen =~= component(free, seed));
    assert forall|p: (int, int)| all.contains(p) && #[trigger] at(g, p) implies at(m, p) by {
        assert(at(start, p));
    }
    assert forall|a: (int, int), b: (int, int)|
        all.contains(a) && all.contains(b) && #[trigger] adjacent(a, b) && at(m, a) && !at(g, a)
            && !at(g, b) implies at(m, b) by {
        if seen.contains(a) {
            assert(settled(m, rows, cols, a));
        } else {
            assert(at(start, a));
            assert(at(start, b));
        }
    }
}

/// A sweep that has marked the region of `seed`, of at least `min` cells,
/// stands where it stood, with the marks grown by that region.
pub proof fn lemma_swept_after_fill(
    g: Seq<Seq<bool>>,
    m: Seq<Seq<bool>>,
    m2: Seq<Seq<bool>>,
    rows: nat,
    cols: nat,
    min: nat,
    seed: (int, int),
)
    requires
        swept(g, m, rows, cols, min, seed),
        rectangle(rows, cols).contains(seed),
        has_shape(m2, rows, cols),
        above(g, m2, rows, cols),
        sealed(g, m2, rows, cols),
        forall|p: (int, int)|
            rectangle(rows, cols).contains(p) ==> #[trigger] at(m2, p) == (at(m, p) || component(
                holes(g),
                seed,
            ).contains(p)),
        holes(g).contains(seed),
        component(holes(g), seed).len() >= min,
    ensures
        swept(g, m2, rows, cols, min, (seed.0, seed.1 + 1)),
{
    let free = holes(g);
    lemma_linked_self(free, seed);
    assert forall|p: (int, int)|
        rectangle(rows, cols).contains(p) && before(p, (seed.0, seed.1 + 1)) implies #[trigger] at(
        m2,
        p,
    ) by {
        if p == seed {
            assert(component(free, seed).contains(p));
        } else {
            assert(before(p, seed));
            assert(at(m, p));
        }
    }
    assert forall|p: (int, int)|
        rectangle(rows, cols).contains(p) && #[trigger] at(m2, p) && !at(g, p) implies component(
        free,
        p,
    ).len() >= min by {
        if at(m, p) {
        } else {
            assert(component(free, seed).contains(p));
            lemma_component_shared(free, seed, p);
        }
    }
}

/// A sweep that has passed every cell found no small region.
pub proof fn lemma_swept_all(g: Seq<Seq<bool>>, m: Seq<Seq<bool>>, rows: nat, cols: nat, min: nat)
    requires
        swept(g, m, rows, cols, min, (rows as int, 0)),
    ensures
        !crate::region::has_small_region(g, min),
{
    let free = holes(g);
    assert forall|p: (int, int)| free.contains(p) implies (#[trigger] component(free, p)).len()
        >= min by {
        assert(g[p.0].len() == cols);
        assert(rectangle(rows, cols).contains(p));
        assert(before(p, (rows as int, 0)));
        assert(at(m, p));
    }
}

/// Marks the cell `(ny, nx)` and queues it, unless it is marked already.
fn visit(mask: &mut Matrix<bool>, queue: &mut Vec<(usize, usize)>, ny: usize, nx: usize) -> (fresh:
    bool)
    requires
        ny < old(mask)@.len(),
        nx < old(mask)@[ny as int].len(),
    ensures
        fresh == !old(mask)@[ny as int][nx as int],
        final(mask)@ == (if fresh {
            old(mask)@.update(ny as int, old(mask)@[ny as int].update(nx as int, true))
        } else {
            old(mask)@
        }),
        final(queue)@ == (if fresh {
            old(queue)@.push((ny, nx))
        } else {
            old(queue)@
        }),
{
    assert(mask@[ny as int] == mask.buf@[ny as int]@);
    if !mask.buf[ny][nx] {
        mask.put(ny, nx, true);
        queue.push((ny, nx));
        true
    } else {
        false
    }
}

/// Marks the region of empty cells of `g` around the unmarked cell
/// `(y, x)`, and returns the number of its cells.
pub(crate) fn fill_region(
    mask: &mut Matrix<bool>,
    rows: usize,
    cols: usize,
    y: usize,
    x: usize,
    Ghost(g): Ghost<Seq<Seq<bool>>>,
) -> (size: usize)
    requires
        has_shape(g, rows as nat, cols as nat),
        has_shape(old(mask)@, rows as nat, cols as nat),
        above(g, old(mask)@, rows as nat, cols as nat),
        sealed(g, old(mask)@, rows as nat, cols as nat),
        y < rows,
        x < cols,
        !old(mask)@[y as int][x as int],
    ensures
        has_shape(final(mask)@, rows as nat, cols as nat),
        above(g, final(mask)@, rows as nat, cols as nat),
        sealed(g, final(mask)@, rows as nat, cols as nat),
        forall|p: (int, int)|
            rectangle(rows as nat, cols as nat).contains(p) ==> #[trigger] at(final(mask)@, p) == (at(
                old(mask)@,
                p,
            ) || component(holes(g), (y as int, x as int)).contains(p)),
        holes(g).contains((y as int, x as int)),
        size == component(holes(g), (y as int, x as int)).len(),
{
    let ghost start = mask@;
    let ghost seed = (y as int, x as int);
    let ghost r = rows as nat;
    let ghost c = cols as nat;
    let ghost mut seen: Set<(int, int)> = set![seed];
    let mut queue: Vec<(usize, usize)> = Vec::new();
    mask.put(y, x, true);
    queue.push((y, x));
    let mut head: usize = 0;
    proof {
        assert(start[seed.0].len() == c);
        assert(g[seed.0].len() == c);
        assert(!at(g, seed)) by {
            if at(g, seed) {
                assert(rectangle(r, c).contains(seed));
                assert(at(start, seed));
            }
        }
        assert(holes(g).contains(seed));
        lemma_linked_self(holes(g), seed);
        assert forall|i: int| 0 <= i < r implies (#[trigger] mask@[i]).len() == c by {
            assert(start[i].len() == c);
        }
        assert forall|p: (int, int)| rectangle(r, c).contains(p) implies #[trigger] at(mask@, p) == (
        at(start, p) || seen.contains(p)) by {
            assert(start[p.0].len() == c);
        }
        assert(cell_of(queue@[0]) == seed);
        assert(waiting(queue@, 0, seed));
    }
    while head < queue.len()
        invariant
            r == rows,
            c == cols,
            seed == (y as int, x as int),
            filling(g, start, mask@, queue@, head as int, seen, seed, r, c),
        decreases rectangle(r, c).len() - head,
    {
        let (cy, cx) = queue[head];
        let ghost cur = (cy as int, cx as int);
        proof {
            lemma_filling_bounded(g, start, mask@, queue@, head as int, seen, seed, r, c);
            assert(seen.contains(cell_of(queue@[head as int])));
            assert(rectangle(r, c).contains(cur));
        }
        if cy + 1 < rows {
            let ghost m0 = mask@;
            let ghost q0 = queue@;
            let ghost n = (cy + 1, cx as int);
            assert(m0[n.0].len() == c);
            let fresh = visit(mask, &mut queue, cy + 1, cx);
            proof {
                lemma_visit(g, start, m0, q0, head as int, seen, seed, r, c, cur, n, mask@, queue@);
                if fresh {
                    seen = seen.insert(n);
                }
            }
        }
        assert(cy + 1 < rows ==> at(mask@, (cy + 1, cx as int)));
        if cy > 0 {
            let ghost m0 = mask@;
            let ghost q0 = queue@;
            let ghost n = (cy - 1, cx as int);
            assert(m0[n.0].len() == c);
            let fresh = visit(mask, &mut queue, cy - 1, cx);
            proof {
                lemma_visit(g, start, m0, q0, head as int, seen, seed, r, c, cur, n, mask@, queue@);
                if fresh {
                    seen = seen.insert(n);
                }
            }
        }
        assert(cy + 1 < rows ==> at(mask@, (cy + 1, cx as int)));
        assert(cy > 0 ==> at(mask@, (cy - 1, cx as int)));
        if cx + 1 < cols {
            let ghost m0 = mask@;
            let ghost q0 = queue@;
            let ghost n = (cy as int, cx + 1);
            assert(m0[n.0].len() == c);
            let fresh = visit(mask, &mut queue, cy, cx + 1);
            proof {
                lemma_visit(g, start, m0, q0, head as int, seen, seed, r, c, cur, n, mask@, queue@);
                if fresh {
                    seen = seen.insert(n);
                }
            }
        }
        assert(cy + 1 < rows ==> at(mask@, (cy + 1, cx as int)));
        assert(cy > 0 ==> at(mask@, (cy - 1, cx as int)));
        assert(cx + 1 < cols ==> at(mask@, (cy as int, cx + 1)));
        if cx > 0 {
            let ghost m0 = mask@;
            let ghost q0 = queue@;
            let ghost n = (cy as int, cx - 1);
            assert(m0[n.0].len() == c);
            let fresh = visit(mask, &mut queue, cy, cx - 1);
            proof {
                lemma_visit(g, start, m0, q0, head as int, seen, seed, r, c, cur, n, mask@, queue@);
                if fresh {
                    seen = seen.insert(n);
                }
            }
        }
        assert(cy + 1 < rows ==> at(mask@, (cy + 1, cx as int)));
        assert(cy > 0 ==> at(mask@, (cy - 1, cx as int)));
        assert(cx + 1 < cols ==> at(mask@, (cy as int, cx + 1)));
        assert(cx > 0 ==> at(mask@, (cy as int, cx - 1)));
        proof {
            assert(queue@[head as int] == (cy, cx));
            assert forall|q: (int, int)| rectangle(r, c).contains(q) && #[trigger] adjacent(
                cur,
                q,
            ) implies at(mask@, q) by {
                assert(q == (cy + 1, cx as int) || q == (cy - 1, cx as int) || q == (cy as int, cx + 1)
                    || q == (cy as int, cx - 1));
            }
            lemma_advance(g, start, mask@, queue@, head as int, seen, seed, r, c);
            lemma_filling_bounded(g, start, mask@, queue@, head + 1, seen, seed, r, c);
        }
        head += 1;
    }
    proof {
        lemma_fill_done(g, start, mask@, queue@, seen, seed, r, c);
    }
    queue.len()
}

} // verus!
