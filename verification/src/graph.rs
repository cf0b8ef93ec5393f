//! The connectivity graph of a grid of pipe pieces.
//!
//! A grid of width `w` and height `h` is described by the openings of its
//! cells, row by row. Two neighbouring cells are joined when each has an
//! opening towards the other.
use crate::model::{lemma_index_in_range, Direction, PortSet};
use vstd::prelude::*;

verus! {

/// The cell lies inside a grid of width `w` and height `h`.
pub open spec fn in_grid(w: int, h: int, c: (int, int)) -> bool {
    0 <= c.0 < w && 0 <= c.1 < h
}

/// Place of a cell in the row-by-row sequence of a grid of width `w`.
pub open spec fn cell_index(w: int, c: (int, int)) -> int {
    c.1 * w + c.0
}

/// The neighbour of a cell in direction `d`.
pub open spec fn step(c: (int, int), d: Direction) -> (int, int) {
    (c.0 + d.delta().0, c.1 + d.delta().1)
}

/// The cell `c` and its neighbour in direction `d` are both inside the grid
/// and each opens towards the other. An opening on one side only joins nothing.
pub open spec fn linked(w: int, h: int, t: Seq<PortSet>, c: (int, int), d: Direction) -> bool {
    &&& in_grid(w, h, c)
    &&& in_grid(w, h, step(c, d))
    &&& t[cell_index(w, c)].has(d)
    &&& t[cell_index(w, step(c, d))].has(d.reversed())
}

/// `b` is a neighbour of `a` and the two are joined.
pub open spec fn adjacent(w: int, h: int, t: Seq<PortSet>, a: (int, int), b: (int, int)) -> bool {
    exists|d: Direction| #[trigger] linked(w, h, t, a, d) && b == step(a, d)
}

/// A walk: a non-empty sequence of cells of the grid in which each cell is
/// joined to the next.
pub open spec fn is_walk(w: int, h: int, t: Seq<PortSet>, p: Seq<(int, int)>) -> bool {
    &&& p.len() >= 1
    &&& in_grid(w, h, p[0])
    &&& forall|i: int| #![trigger p[i]] 0 <= i < p.len() - 1 ==> adjacent(w, h, t, p[i], p[i + 1])
}

/// Some walk leads from `a` to `b`.
pub open spec fn connected(w: int, h: int, t: Seq<PortSet>, a: (int, int), b: (int, int)) -> bool {
    exists|p: Seq<(int, int)>| #[trigger] is_walk(w, h, t, p) && p[0] == a && p.last() == b
}

/// Number of openings in the whole grid.
pub open spec fn total_degree(t: Seq<PortSet>) -> nat
    decreases t.len(),
{
    if t.len() == 0 {
        0
    } else {
        total_degree(t.drop_last()) + t.last().count()
    }
}

/// Every opening of every cell meets an opening of the neighbour it points to.
pub open spec fn all_matched(w: int, h: int, t: Seq<PortSet>) -> bool {
    forall|c: (int, int), d: Direction|
        in_grid(w, h, c) && #[trigger] t[cell_index(w, c)].has(d) ==> linked(w, h, t, c, d)
}

/// The openings form a spanning tree of the grid: no opening is left
/// unmatched, every cell can be walked to from the top-left cell, and the
/// number of joints is one less than the number of cells, so that no walk
/// closes a cycle.
pub open spec fn is_spanning_tree(w: int, h: int, t: Seq<PortSet>) -> bool {
    &&& w >= 1
    &&& h >= 1
    &&& t.len() == w * h
    &&& all_matched(w, h, t)
    &&& forall|c: (int, int)| in_grid(w, h, c) ==> #[trigger] connected(w, h, t, (0, 0), c)
    &&& total_degree(t) == 2 * (w * h - 1)
}

/// Stepping in a direction and then in the reversed direction leads back.
pub proof fn lemma_step_back(c: (int, int), d: Direction)
    ensures
        step(step(c, d), d.reversed()) == c,
        d.reversed().reversed() == d,
        d.reversed() != d,
{
}

/// A joint seen from one cell is the same joint seen from the other.
pub proof fn lemma_linked_symmetric(w: int, h: int, t: Seq<PortSet>, c: (int, int), d: Direction)
    ensures
        linked(w, h, t, c, d) == linked(w, h, t, step(c, d), d.reversed()),
{
    lemma_step_back(c, d);
}

/// Being joined is symmetric: `a` has an edge to `b` exactly when `b` has an
/// edge back to `a`.
pub proof fn lemma_adjacent_symmetric(
    w: int,
    h: int,
    t: Seq<PortSet>,
    a: (int, int),
    b: (int, int),
)
    ensures
        adjacent(w, h, t, a, b) == adjacent(w, h, t, b, a),
{
    if adjacent(w, h, t, a, b) {
        let d = choose|d: Direction| #[trigger] linked(w, h, t, a, d) && b == step(a, d);
        lemma_linked_symmetric(w, h, t, a, d);
        lemma_step_back(a, d);
        assert(linked(w, h, t, b, d.reversed()) && a == step(b, d.reversed()));
    }
    if adjacent(w, h, t, b, a) {
        let d = choose|d: Direction| #[trigger] linked(w, h, t, b, d) && a == step(b, d);
        lemma_linked_symmetric(w, h, t, b, d);
        lemma_step_back(b, d);
        assert(linked(w, h, t, a, d.reversed()) && b == step(a, d.reversed()));
    }
}

/// Every cell of the grid is connected to itself.
pub proof fn lemma_connected_self(w: int, h: int, t: Seq<PortSet>, c: (int, int))
    requires
        in_grid(w, h, c),
    ensures
        connected(w, h, t, c, c),
{
    let p = seq![c];
    assert(is_walk(w, h, t, p) && p[0] == c && p.last() == c);
}

/// A walk can be continued over a joint of its last cell.
pub proof fn lemma_connected_extend(
    w: int,
    h: int,
    t: Seq<PortSet>,
    a: (int, int),
    b: (int, int),
    d: Direction,
)
    requires
        connected(w, h, t, a, b),
        linked(w, h, t, b, d),
    ensures
        connected(w, h, t, a, step(b, d)),
{
    let p = choose|p: Seq<(int, int)>| #[trigger] is_walk(w, h, t, p) && p[0] == a && p.last() == b;
    let q = p.push(step(b, d));
    assert forall|i: int| #![trigger q[i]] 0 <= i < q.len() - 1 implies adjacent(
        w,
        h,
        t,
        q[i],
        q[i + 1],
    ) by {
        if i < p.len() - 1 {
            assert(q[i] == p[i]);
            assert(q[i + 1] == p[i + 1]);
            assert(adjacent(w, h, t, p[i], p[i + 1]));
        } else {
            assert(q[i] == b);
            assert(linked(w, h, t, b, d) && q[i + 1] == step(b, d));
        }
    }
    assert(is_walk(w, h, t, q) && q[0] == a && q.last() == step(b, d));
}

/// A walk read backwards is a walk: what is connected to a cell, that cell
/// is connected to.
pub proof fn lemma_connected_symmetric(
    w: int,
    h: int,
    t: Seq<PortSet>,
    a: (int, int),
    b: (int, int),
)
    requires
        connected(w, h, t, a, b),
    ensures
        connected(w, h, t, b, a),
{
    let p = choose|p: Seq<(int, int)>| #[trigger] is_walk(w, h, t, p) && p[0] == a && p.last() == b;
    let n = p.len() as int;
    let q = Seq::new(p.len(), |i: int| p[n - 1 - i]);
    lemma_walk_in_grid(w, h, t, p, n - 1);
    assert forall|i: int| #![trigger q[i]] 0 <= i < q.len() - 1 implies adjacent(
        w,
        h,
        t,
        q[i],
        q[i + 1],
    ) by {
        let k = n - 2 - i;
        assert(q[i] == p[k + 1]);
        assert(q[i + 1] == p[k]);
        assert(adjacent(w, h, t, p[k], p[k + 1]));
        lemma_adjacent_symmetric(w, h, t, p[k], p[k + 1]);
    }
    assert(is_walk(w, h, t, q) && q[0] == b && q.last() == a);
}

/// Two walks that meet make one walk.
pub proof fn lemma_connected_transitive(
    w: int,
    h: int,
    t: Seq<PortSet>,
    a: (int, int),
    b: (int, int),
    c: (int, int),
)
    requires
        connected(w, h, t, a, b),
        connected(w, h, t, b, c),
    ensures
        connected(w, h, t, a, c),
{
    let p = choose|p: Seq<(int, int)>| #[trigger] is_walk(w, h, t, p) && p[0] == a && p.last() == b;
    let q = choose|q: Seq<(int, int)>| #[trigger] is_walk(w, h, t, q) && q[0] == b && q.last() == c;
    let r = p + q.skip(1);
    assert forall|i: int| #![trigger r[i]] 0 <= i < r.len() - 1 implies adjacent(
        w,
        h,
        t,
        r[i],
        r[i + 1],
    ) by {
        if i < p.len() - 1 {
            assert(r[i] == p[i] && r[i + 1] == p[i + 1]);
            assert(adjacent(w, h, t, p[i], p[i + 1]));
        } else {
            let k = i - (p.len() - 1);
            assert(r[i] == q[k]) by {
                if k == 0 {
                    assert(r[i] == p[i]);
                } else {
                    assert(r[i] == q.skip(1)[k - 1]);
                }
            }
            assert(r[i + 1] == q.skip(1)[k]);
            assert(adjacent(w, h, t, q[k], q[k + 1]));
        }
    }
    assert(r.last() == c) by {
        if q.len() == 1 {
            assert(r =~= p);
        } else {
            assert(r.last() == q.skip(1).last());
        }
    }
    assert(is_walk(w, h, t, r) && r[0] == a && r.last() == c);
}

/// In a spanning tree every cell of the grid is connected to every other.
pub proof fn lemma_tree_connects_all(
    w: int,
    h: int,
    t: Seq<PortSet>,
    a: (int, int),
    b: (int, int),
)
    requires
        is_spanning_tree(w, h, t),
        in_grid(w, h, a),
        in_grid(w, h, b),
    ensures
        connected(w, h, t, a, b),
{
    assert(connected(w, h, t, (0, 0), a));
    assert(connected(w, h, t, (0, 0), b));
    lemma_connected_symmetric(w, h, t, (0, 0), a);
    lemma_connected_transitive(w, h, t, a, (0, 0), b);
}

/// In a spanning tree of a grid of more than one cell every cell has an
/// opening.
pub proof fn lemma_tree_has_no_isolated_cell(w: int, h: int, t: Seq<PortSet>, c: (int, int))
    requires
        is_spanning_tree(w, h, t),
        w * h > 1,
        in_grid(w, h, c),
    ensures
        t[cell_index(w, c)].count() >= 1,
{
    let other: (int, int) = if c == (0int, 0int) {
        if w > 1 {
            (1int, 0int)
        } else {
            (0int, 1int)
        }
    } else {
        (0int, 0int)
    };
    assert(in_grid(w, h, other)) by (nonlinear_arith)
        requires
            w >= 1,
            h >= 1,
            w * h > 1,
            other == (if c == (0int, 0int) {
                if w > 1 {
                    (1int, 0int)
                } else {
                    (0int, 1int)
                }
            } else {
                (0int, 0int)
            }),
    ;
    lemma_tree_connects_all(w, h, t, c, other);
    let p = choose|p: Seq<(int, int)>|
        #[trigger] is_walk(w, h, t, p) && p[0] == c && p.last() == other;
    assert(p.len() > 1);
    assert(adjacent(w, h, t, p[0], p[0int + 1]));
    let d = choose|d: Direction| #[trigger] linked(w, h, t, p[0], d) && p[1] == step(p[0], d);
    assert(t[cell_index(w, c)].has(d));
}

/// Every cell on a walk lies inside the grid.
pub proof fn lemma_walk_in_grid(w: int, h: int, t: Seq<PortSet>, p: Seq<(int, int)>, i: int)
    requires
        is_walk(w, h, t, p),
        0 <= i < p.len(),
    ensures
        in_grid(w, h, p[i]),
    decreases i,
{
    if i > 0 {
        lemma_walk_in_grid(w, h, t, p, i - 1);
        assert(adjacent(w, h, t, p[i - 1], p[i - 1 + 1]));
    }
}

/// A set of cells that is closed under joints holds every cell of a walk
/// that starts in it.
pub proof fn lemma_walk_stays_inside(
    w: int,
    h: int,
    t: Seq<PortSet>,
    inside: Set<(int, int)>,
    p: Seq<(int, int)>,
    i: int,
)
    requires
        is_walk(w, h, t, p),
        0 <= i < p.len(),
        inside.contains(p[0]),
        forall|c: (int, int), d: Direction|
            inside.contains(c) && #[trigger] linked(w, h, t, c, d) ==> inside.contains(step(c, d)),
    ensures
        inside.contains(p[i]),
    decreases i,
{
    if i > 0 {
        lemma_walk_stays_inside(w, h, t, inside, p, i - 1);
        assert(adjacent(w, h, t, p[i - 1], p[i - 1 + 1]));
    }
}

/// A set of cells that is closed under joints holds every cell connected to
/// one of its cells.
pub proof fn lemma_closed_holds_connected(
    w: int,
    h: int,
    t: Seq<PortSet>,
    inside: Set<(int, int)>,
    a: (int, int),
    b: (int, int),
)
    requires
        connected(w, h, t, a, b),
        inside.contains(a),
        forall|c: (int, int), d: Direction|
            inside.contains(c) && #[trigger] linked(w, h, t, c, d) ==> inside.contains(step(c, d)),
    ensures
        inside.contains(b),
{
    let p = choose|p: Seq<(int, int)>| #[trigger] is_walk(w, h, t, p) && p[0] == a && p.last() == b;
    lemma_walk_stays_inside(w, h, t, inside, p, p.len() - 1);
}

/// Adding openings keeps every walk.
pub proof fn lemma_connected_monotone(
    w: int,
    h: int,
    t: Seq<PortSet>,
    u: Seq<PortSet>,
    a: (int, int),
    b: (int, int),
)
    requires
        connected(w, h, t, a, b),
        w >= 1,
        t.len() == w * h,
        u.len() == t.len(),
        forall|i: int| 0 <= i < t.len() ==> (#[trigger] u[i]).covers(t[i]),
    ensures
        connected(w, h, u, a, b),
{
    let p = choose|p: Seq<(int, int)>| #[trigger] is_walk(w, h, t, p) && p[0] == a && p.last() == b;
    assert forall|i: int| #![trigger p[i]] 0 <= i < p.len() - 1 implies adjacent(
        w,
        h,
        u,
        p[i],
        p[i + 1],
    ) by {
        assert(adjacent(w, h, t, p[i], p[i + 1]));
        let d = choose|d: Direction| #[trigger] linked(w, h, t, p[i], d) && p[i + 1] == step(p[i], d);
        lemma_index_in_range(w, h, p[i].0, p[i].1);
        lemma_index_in_range(w, h, step(p[i], d).0, step(p[i], d).1);
        assert(u[cell_index(w, p[i])].covers(t[cell_index(w, p[i])]));
        assert(u[cell_index(w, step(p[i], d))].covers(t[cell_index(w, step(p[i], d))]));
        assert(linked(w, h, u, p[i], d));
    }
    assert(is_walk(w, h, u, p));
}

/// Where no cell has an opening, a cell is connected to itself only.
pub proof fn lemma_no_openings_no_walk(
    w: int,
    h: int,
    t: Seq<PortSet>,
    a: (int, int),
    b: (int, int),
)
    requires
        connected(w, h, t, a, b),
        w >= 1,
        forall|i: int| 0 <= i < w * h ==> #[trigger] t[i] == PortSet::none(),
    ensures
        a == b,
{
    let p = choose|p: Seq<(int, int)>| #[trigger] is_walk(w, h, t, p) && p[0] == a && p.last() == b;
    if p.len() > 1 {
        assert(adjacent(w, h, t, p[0], p[0int + 1]));
        let d = choose|d: Direction| #[trigger] linked(w, h, t, p[0], d) && p[1] == step(p[0], d);
        lemma_index_in_range(w, h, p[0].0, p[0].1);
        assert(t[cell_index(w, p[0])] == PortSet::none());
        assert(false);
    }
}

/// A coordinate pair of the program as a cell of the grid.
pub open spec fn as_cell(c: (usize, usize)) -> (int, int) {
    (c.0 as int, c.1 as int)
}

/// Two cells of a grid that share a place in the row-by-row sequence are
/// the same cell.
pub proof fn lemma_index_injective(w: int, a: (int, int), b: (int, int))
    requires
        0 <= a.0 < w,
        0 <= b.0 < w,
        cell_index(w, a) == cell_index(w, b),
    ensures
        a == b,
{
    if a.1 < b.1 {
        assert(b.1 * w >= (a.1 + 1) * w) by (nonlinear_arith)
            requires
                a.1 < b.1,
                0 < w,
        ;
        assert((a.1 + 1) * w == a.1 * w + w) by (nonlinear_arith);
    } else if b.1 < a.1 {
        assert(a.1 * w >= (b.1 + 1) * w) by (nonlinear_arith)
            requires
                b.1 < a.1,
                0 < w,
        ;
        assert((b.1 + 1) * w == b.1 * w + w) by (nonlinear_arith);
    }
}

/// Number of marks that are set.
pub open spec fn count_set(marks: Seq<bool>) -> nat
    decreases marks.len(),
{
    if marks.len() == 0 {
        0
    } else {
        count_set(marks.drop_last()) + if marks.last() {
            1nat
        } else {
            0nat
        }
    }
}

/// No more marks are set than there are.
pub proof fn lemma_count_set_bound(marks: Seq<bool>)
    ensures
        count_set(marks) <= marks.len(),
    decreases marks.len(),
{
    if marks.len() > 0 {
        lemma_count_set_bound(marks.drop_last());
    }
}

/// Where no mark is set the count is zero.
pub proof fn lemma_count_set_none(marks: Seq<bool>)
    requires
        forall|i: int| 0 <= i < marks.len() ==> !marks[i],
    ensures
        count_set(marks) == 0,
    decreases marks.len(),
{
    if marks.len() > 0 {
        lemma_count_set_none(marks.drop_last());
    }
}

/// Where every mark is set the count is the length.
pub proof fn lemma_count_set_full(marks: Seq<bool>)
    requires
        forall|i: int| 0 <= i < marks.len() ==> marks[i],
    ensures
        count_set(marks) == marks.len(),
    decreases marks.len(),
{
    if marks.len() > 0 {
        lemma_count_set_full(marks.drop_last());
    }
}

/// Setting a mark that was clear raises the count by one.
pub proof fn lemma_count_set_update(marks: Seq<bool>, i: int)
    requires
        0 <= i < marks.len(),
        !marks[i],
    ensures
        count_set(marks.update(i, true)) == count_set(marks) + 1,
    decreases marks.len(),
{
    let after = marks.update(i, true);
    if i == marks.len() - 1 {
        assert(after.drop_last() =~= marks.drop_last());
    } else {
        lemma_count_set_update(marks.drop_last(), i);
        assert(after.drop_last() =~= marks.drop_last().update(i, true));
    }
}

/// Replacing the openings of one cell changes the number of openings by
/// the difference of the two cells.
pub proof fn lemma_total_degree_update(t: Seq<PortSet>, i: int, ports: PortSet)
    requires
        0 <= i < t.len(),
    ensures
        total_degree(t.update(i, ports)) + t[i].count() == total_degree(t) + ports.count(),
    decreases t.len(),
{
    let after = t.update(i, ports);
    if i == t.len() - 1 {
        assert(after.drop_last() =~= t.drop_last());
    } else {
        lemma_total_degree_update(t.drop_last(), i, ports);
        assert(after.drop_last() =~= t.drop_last().update(i, ports));
    }
}

/// A grid without openings has degree zero.
pub proof fn lemma_total_degree_none(t: Seq<PortSet>)
    requires
        forall|i: int| 0 <= i < t.len() ==> #[trigger] t[i] == PortSet::none(),
    ensures
        total_degree(t) == 0,
    decreases t.len(),
{
    if t.len() > 0 {
        lemma_total_degree_none(t.drop_last());
    }
}

/// Place of cell (x, y) in the row-by-row sequence.
pub fn slot_of(width: usize, height: usize, x: usize, y: usize) -> (i: usize)
    requires
        x < width,
        y < height,
        width * height <= usize::MAX,
    ensures
        i == cell_index(width as int, (x as int, y as int)),
        i < width * height,
{
    proof {
        lemma_index_in_range(width as int, height as int, x as int, y as int);
    }
    y * width + x
}

/// A coordinate moved by a delta of -1, 0 or 1, if it stays below `limit`.
fn shifted(v: usize, d: isize, limit: usize) -> (r: Option<usize>)
    requires
        -1 <= d <= 1,
        v < limit,
    ensures
        r == (if 0 <= v + d < limit {
            Some((v + d) as usize)
        } else {
            None
        }),
{
    if d < 0 {
        if v > 0 {
            Some(v - 1)
        } else {
            None
        }
    } else if d > 0 {
        if v + 1 < limit {
            Some(v + 1)
        } else {
            None
        }
    } else {
        Some(v)
    }
}

/// The neighbour of cell (x, y) in direction `dir`, or `None` where the cell
/// or the neighbour lies outside the grid.
pub fn neighbor_of(width: usize, height: usize, x: usize, y: usize, dir: Direction) -> (r: Option<
    (usize, usize),
>)
    ensures
        match r {
            Some(n) => {
                &&& in_grid(width as int, height as int, as_cell((x, y)))
                &&& in_grid(width as int, height as int, as_cell(n))
                &&& as_cell(n) == step(as_cell((x, y)), dir)
            },
            None => !in_grid(width as int, height as int, as_cell((x, y))) || !in_grid(
                width as int,
                height as int,
                step(as_cell((x, y)), dir),
            ),
        },
{
    if x >= width || y >= height {
        return None;
    }
    let (dx, dy) = dir.to_delta();
    match shifted(x, dx, width) {
        None => None,
        Some(nx) => match shifted(y, dy, height) {
            None => None,
            Some(ny) => Some((nx, ny)),
        },
    }
}

} // verus!
