//! Four-connected regions of a set of cells, and the pruning rule built on
//! them: a board with an empty region smaller than the smallest piece can
//! never be completed.

use crate::cells::{lemma_rectangle_len, rectangle};
use crate::grid::has_shape;
use vstd::prelude::*;

verus! {

/// `p` and `q` share an edge: they are one step apart, up, down, left or
/// right.
pub open spec fn adjacent(p: (int, int), q: (int, int)) -> bool {
    ||| (p.0 == q.0 && (p.1 == q.1 + 1 || p.1 + 1 == q.1))
    ||| (p.1 == q.1 && (p.0 == q.0 + 1 || p.0 + 1 == q.0))
}

/// From `p`, `q` is reached in at most `n` steps, each between adjacent
/// members of `s`.
pub open spec fn linked_within(s: Set<(int, int)>, p: (int, int), q: (int, int), n: nat) -> bool
    decreases n,
{
    &&& s.contains(p)
    &&& s.contains(q)
    &&& (p == q || (n > 0 && exists|m: (int, int)| #[trigger]
        adjacent(m, q) && linked_within(s, p, m, (n - 1) as nat)))
}

/// `p` and `q` are joined by a path of adjacent members of `s`.
pub open spec fn linked(s: Set<(int, int)>, p: (int, int), q: (int, int)) -> bool {
    exists|n: nat| linked_within(s, p, q, n)
}

/// The maximal four-connected part of `s` that holds `p`.
pub open spec fn component(s: Set<(int, int)>, p: (int, int)) -> Set<(int, int)> {
    Set::new(|q: (int, int)| linked(s, p, q))
}

/// Any two members of `s` are joined by a path inside `s`.
pub open spec fn connected(s: Set<(int, int)>) -> bool {
    forall|p: (int, int), q: (int, int)| s.contains(p) && s.contains(q) ==> linked(s, p, q)
}

/// `r` is a part of `s` that no step inside `s` leaves.
pub open spec fn closed_in(s: Set<(int, int)>, r: Set<(int, int)>) -> bool {
    &&& r.subset_of(s)
    &&& forall|a: (int, int), b: (int, int)|
        r.contains(a) && s.contains(b) && #[trigger] adjacent(a, b) ==> r.contains(b)
}

/// The coordinates of the `false` cells of `g`.
pub open spec fn holes(g: Seq<Seq<bool>>) -> Set<(int, int)> {
    Set::new(|p: (int, int)| 0 <= p.0 < g.len() && 0 <= p.1 < g[p.0].len() && !g[p.0][p.1])
}

/// Some maximal four-connected region of empty cells of `g` has fewer than
/// `min` cells.
pub open spec fn has_small_region(g: Seq<Seq<bool>>, min: nat) -> bool {
    exists|p: (int, int)| holes(g).contains(p) && (#[trigger] component(holes(g), p)).len() < min
}

/// Every member of a set is linked to itself.
pub proof fn lemma_linked_self(s: Set<(int, int)>, p: (int, int))
    requires
        s.contains(p),
    ensures
        linked(s, p, p),
{
    assert(linked_within(s, p, p, 0));
}

/// A path can be extended by one step.
pub proof fn lemma_linked_step(s: Set<(int, int)>, p: (int, int), q: (int, int), r: (int, int))
    requires
        linked(s, p, q),
        s.contains(r),
        adjacent(q, r),
    ensures
        linked(s, p, r),
{
    let n = choose|n: nat| linked_within(s, p, q, n);
    assert(linked_within(s, p, q, ((n + 1) - 1) as nat));
    assert(linked_within(s, p, r, n + 1));
}

/// A path of at most `n` steps is a path of at most `n + k` steps.
pub proof fn lemma_linked_within_more(
    s: Set<(int, int)>,
    p: (int, int),
    q: (int, int),
    n: nat,
    k: nat,
)
    requires
        linked_within(s, p, q, n),
    ensures
        linked_within(s, p, q, n + k),
    decreases n,
{
    if p != q {
        let m = choose|m: (int, int)| #[trigger]
            adjacent(m, q) && linked_within(s, p, m, (n - 1) as nat);
        lemma_linked_within_more(s, p, m, (n - 1) as nat, k);
        assert(linked_within(s, p, m, ((n + k) - 1) as nat));
    }
}

/// Two paths that meet make one path.
pub proof fn lemma_linked_within_join(
    s: Set<(int, int)>,
    p: (int, int),
    q: (int, int),
    r: (int, int),
    n: nat,
    k: nat,
)
    requires
        linked_within(s, p, q, n),
        linked_within(s, q, r, k),
    ensures
        linked_within(s, p, r, n + k),
    decreases k,
{
    if q == r {
        lemma_linked_within_more(s, p, q, n, k);
    } else {
        let m = choose|m: (int, int)| #[trigger]
            adjacent(m, r) && linked_within(s, q, m, (k - 1) as nat);
        lemma_linked_within_join(s, p, q, m, n, (k - 1) as nat);
        assert(linked_within(s, p, m, ((n + k) - 1) as nat));
    }
}

/// A path can be walked backwards.
pub proof fn lemma_linked_within_back(s: Set<(int, int)>, p: (int, int), q: (int, int), n: nat)
    requires
        linked_within(s, p, q, n),
    ensures
        linked_within(s, q, p, n),
    decreases n,
{
    if p != q {
        let m = choose|m: (int, int)| #[trigger]
            adjacent(m, q) && linked_within(s, p, m, (n - 1) as nat);
        lemma_linked_within_back(s, p, m, (n - 1) as nat);
        assert(adjacent(q, m));
        assert(linked_within(s, q, q, 0));
        assert(linked_within(s, q, m, 1));
        lemma_linked_within_join(s, q, m, p, 1, (n - 1) as nat);
    }
}

/// Being linked is symmetric.
pub proof fn lemma_linked_back(s: Set<(int, int)>, p: (int, int), q: (int, int))
    requires
        linked(s, p, q),
    ensures
        linked(s, q, p),
{
    let n = choose|n: nat| linked_within(s, p, q, n);
    lemma_linked_within_back(s, p, q, n);
}

/// Being linked is transitive.
pub proof fn lemma_linked_join(s: Set<(int, int)>, p: (int, int), q: (int, int), r: (int, int))
    requires
        linked(s, p, q),
        linked(s, q, r),
    ensures
        linked(s, p, r),
{
    let n = choose|n: nat| linked_within(s, p, q, n);
    let k = choose|k: nat| linked_within(s, q, r, k);
    lemma_linked_within_join(s, p, q, r, n, k);
}

/// Two linked cells have the same component.
pub proof fn lemma_component_shared(s: Set<(int, int)>, p: (int, int), q: (int, int))
    requires
        linked(s, p, q),
    ensures
        component(s, q) == component(s, p),
{
    lemma_linked_back(s, p, q);
    assert forall|x: (int, int)| component(s, q).contains(x) <==> component(s, p).contains(x) by {
        if linked(s, q, x) {
            lemma_linked_join(s, p, q, x);
        }
        if linked(s, p, x) {
            lemma_linked_join(s, q, p, x);
        }
    }
    assert(component(s, q) =~= component(s, p));
}

/// A path inside a part `t` of `s` that starts in a closed part `r` of `s`
/// ends in `r`.
pub proof fn lemma_closed_keeps_path(
    s: Set<(int, int)>,
    r: Set<(int, int)>,
    t: Set<(int, int)>,
    p: (int, int),
    q: (int, int),
    n: nat,
)
    requires
        t.subset_of(s),
        closed_in(s, r),
        r.contains(p),
        linked_within(t, p, q, n),
    ensures
        r.contains(q),
    decreases n,
{
    if p != q {
        let m = choose|m: (int, int)| #[trigger]
            adjacent(m, q) && linked_within(t, p, m, (n - 1) as nat);
        lemma_closed_keeps_path(s, r, t, p, m, (n - 1) as nat);
        assert(s.contains(q));
        assert(adjacent(m, q));
    }
}

/// A closed part that holds `p` holds the whole component of `p`.
pub proof fn lemma_closed_holds_component(s: Set<(int, int)>, r: Set<(int, int)>, p: (int, int))
    requires
        closed_in(s, r),
        r.contains(p),
    ensures
        component(s, p).subset_of(r),
{
    assert forall|q: (int, int)| component(s, p).contains(q) implies r.contains(q) by {
        let n = choose|n: nat| linked_within(s, p, q, n);
        lemma_closed_keeps_path(s, r, s, p, q, n);
    }
}

/// The component of a member of `s` is a closed part of `s` that holds it.
pub proof fn lemma_component_closed(s: Set<(int, int)>, p: (int, int))
    requires
        s.contains(p),
    ensures
        closed_in(s, component(s, p)),
        component(s, p).contains(p),
{
    lemma_linked_self(s, p);
    assert forall|a: (int, int), b: (int, int)|
        component(s, p).contains(a) && s.contains(b) && #[trigger] adjacent(a, b) implies component(
        s,
        p,
    ).contains(b) by {
        lemma_linked_step(s, p, a, b);
    }
}

/// A map that keeps cells adjacent carries a path in `s` to a path in any
/// set that holds the images of the members of `s`.
pub proof fn lemma_linked_within_image(
    s: Set<(int, int)>,
    t: Set<(int, int)>,
    f: spec_fn((int, int)) -> (int, int),
    p: (int, int),
    q: (int, int),
    n: nat,
)
    requires
        forall|a: (int, int)| s.contains(a) ==> t.contains(#[trigger] f(a)),
        forall|a: (int, int), b: (int, int)| #[trigger] adjacent(a, b) ==> adjacent(f(a), f(b)),
        linked_within(s, p, q, n),
    ensures
        linked_within(t, f(p), f(q), n),
    decreases n,
{
    if p != q {
        let m = choose|m: (int, int)| #[trigger]
            adjacent(m, q) && linked_within(s, p, m, (n - 1) as nat);
        lemma_linked_within_image(s, t, f, p, m, (n - 1) as nat);
        assert(adjacent(f(m), f(q)));
    }
}

/// The image of a connected set under a map that keeps cells adjacent is
/// connected.
pub proof fn lemma_connected_image(
    s: Set<(int, int)>,
    t: Set<(int, int)>,
    f: spec_fn((int, int)) -> (int, int),
)
    requires
        connected(s),
        forall|a: (int, int)| s.contains(a) ==> t.contains(#[trigger] f(a)),
        forall|b: (int, int)| t.contains(b) ==> exists|a: (int, int)| s.contains(a) && #[trigger] f(a) == b,
        forall|a: (int, int), b: (int, int)| #[trigger] adjacent(a, b) ==> adjacent(f(a), f(b)),
    ensures
        connected(t),
{
    assert forall|x: (int, int), y: (int, int)| t.contains(x) && t.contains(y) implies linked(
        t,
        x,
        y,
    ) by {
        let a = choose|a: (int, int)| s.contains(a) && #[trigger] f(a) == x;
        let b = choose|b: (int, int)| s.contains(b) && #[trigger] f(b) == y;
        assert(linked(s, a, b));
        let n = choose|n: nat| linked_within(s, a, b, n);
        lemma_linked_within_image(s, t, f, a, b, n);
    }
}

/// The empty cells of a grid lie in its rectangle.
pub proof fn lemma_holes_bounded(g: Seq<Seq<bool>>, rows: nat, cols: nat)
    requires
        has_shape(g, rows, cols),
    ensures
        holes(g).subset_of(rectangle(rows, cols)),
        holes(g).finite(),
{
    lemma_rectangle_len(rows, cols);
    assert forall|p: (int, int)| holes(g).contains(p) implies rectangle(rows, cols).contains(p) by {
        assert(g[p.0].len() == cols);
    }
    vstd::set_lib::lemma_len_subset(holes(g), rectangle(rows, cols));
}

/// An empty cell without an empty neighbour is a region of one cell, so a
/// threshold above one makes the board unfillable.
pub proof fn lemma_isolated_hole_is_small(g: Seq<Seq<bool>>, p: (int, int), min: nat)
    requires
        holes(g).contains(p),
        forall|q: (int, int)| #[trigger] adjacent(p, q) ==> !holes(g).contains(q),
        min > 1,
    ensures
        has_small_region(g, min),
{
    let s = holes(g);
    let one = set![p];
    assert(closed_in(s, one));
    lemma_closed_holds_component(s, one, p);
    lemma_component_closed(s, p);
    assert(component(s, p) =~= one);
    assert(one.len() == 1);
}

/// Any two cells of a rectangle are joined by a path inside it.
pub proof fn lemma_rectangle_connected(rows: nat, cols: nat, p: (int, int), q: (int, int))
    requires
        rectangle(rows, cols).contains(p),
        rectangle(rows, cols).contains(q),
    ensures
        linked(rectangle(rows, cols), p, q),
    decreases
            (if q.0 >= p.0 {
                q.0 - p.0
            } else {
                p.0 - q.0
            }) + (if q.1 >= p.1 {
                q.1 - p.1
            } else {
                p.1 - q.1
            }),
{
    let s = rectangle(rows, cols);
    if p == q {
        lemma_linked_self(s, p);
    } else {
        let m: (int, int) = if q.0 > p.0 {
            (q.0 - 1, q.1)
        } else if q.0 < p.0 {
            (q.0 + 1, q.1)
        } else if q.1 > p.1 {
            (q.0, q.1 - 1)
        } else {
            (q.0, q.1 + 1)
        };
        assert(s.contains(m));
        lemma_rectangle_connected(rows, cols, p, m);
        assert(adjacent(m, q));
        lemma_linked_step(s, p, m, q);
    }
}

/// A board without any covered cell, with room for the threshold, has no
/// small region: its only region is the whole board.
pub proof fn lemma_blank_has_no_small_region(g: Seq<Seq<bool>>, rows: nat, cols: nat, min: nat)
    requires
        has_shape(g, rows, cols),
        forall|i: int, j: int| 0 <= i < rows && 0 <= j < cols ==> !#[trigger] g[i][j],
        min <= rows * cols,
    ensures
        !has_small_region(g, min),
{
    let s = holes(g);
    let all = rectangle(rows, cols);
    lemma_rectangle_len(rows, cols);
    lemma_holes_bounded(g, rows, cols);
    assert forall|p: (int, int)| all.contains(p) implies s.contains(p) by {
        assert(g[p.0].len() == cols);
        assert(!g[p.0][p.1]);
    }
    assert(s =~= all);
    assert forall|p: (int, int)| s.contains(p) implies (#[trigger] component(s, p)).len()
        >= min by {
        assert forall|q: (int, int)| all.contains(q) implies component(s, p).contains(q) by {
            lemma_rectangle_connected(rows, cols, p, q);
        }
        assert(component(s, p) =~= all);
    }
}

} // verus!
