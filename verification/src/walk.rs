//! The randomized depth-first walk that grows a spanning tree of the grid.
//!
//! The walk keeps a stack of cells. It looks at the cell on top: where that
//! cell has neighbours that were not visited yet, one of them is chosen,
//! joined to the cell and pushed; where it has none, the cell is popped.
//! Which neighbour is chosen is up to the caller, so that every run of the
//! walk, whatever is chosen, ends with a spanning tree.
use crate::graph::{
    as_cell, cell_index, connected, count_set, in_grid, is_spanning_tree, lemma_connected_extend,
    lemma_connected_monotone, lemma_connected_self, lemma_count_set_bound, lemma_count_set_full,
    lemma_count_set_none, lemma_count_set_update, lemma_index_injective, lemma_step_back, lemma_total_degree_none,
    lemma_total_degree_update, linked, neighbor_of, slot_of, step, total_degree,
};
use crate::model::{lemma_index_in_range, Direction, PortSet};
use vstd::prelude::*;

verus! {

/// The state of a walk: the marks of the visited cells, the directions in
/// which each cell has been joined to a neighbour, and the stack.
pub struct TreeWalk {
    pub width: usize,
    pub height: usize,
    pub visited: Vec<bool>,
    pub links: Vec<PortSet>,
    pub stack: Vec<(usize, usize)>,
}

/// What holds of a walk at every moment:
/// the top-left cell is visited; the cells on the stack are visited; every
/// recorded direction is recorded from both sides, between visited cells;
/// every visited cell can be walked to from the top-left cell; a visited
/// cell that has left the stack has no neighbour left to visit; and each
/// visited cell but the first has added one joint.
#[verifier::opaque]
pub closed spec fn tree_inv(
    w: int,
    h: int,
    visited: Seq<bool>,
    links: Seq<PortSet>,
    stack: Seq<(usize, usize)>,
) -> bool {
    &&& visited[0]
    &&& forall|i: int|
        0 <= i < stack.len() ==> in_grid(w, h, as_cell(#[trigger] stack[i])) && visited[cell_index(
            w,
            as_cell(stack[i]),
        )]
    &&& forall|c: (int, int), d: Direction|
        in_grid(w, h, c) && #[trigger] links[cell_index(w, c)].has(d) ==> linked(w, h, links, c, d)
            && visited[cell_index(w, c)]
    &&& forall|c: (int, int)|
        in_grid(w, h, c) && visited[cell_index(w, c)] ==> #[trigger] connected(
            w,
            h,
            links,
            (0, 0),
            c,
        )
    &&& forall|c: (int, int), d: Direction|
        in_grid(w, h, c) && visited[cell_index(w, c)] && !stack.contains(
            (c.0 as usize, c.1 as usize),
        ) && in_grid(w, h, #[trigger] step(c, d)) ==> visited[cell_index(w, step(c, d))]
    &&& total_degree(links) + 2 == 2 * count_set(visited)
}

/// Openings that are added to a grid keep every joint.
proof fn lemma_linked_monotone(
    w: int,
    h: int,
    t: Seq<PortSet>,
    u: Seq<PortSet>,
    c: (int, int),
    d: Direction,
)
    requires
        linked(w, h, t, c, d),
        t.len() == w * h,
        u.len() == t.len(),
        forall|i: int| 0 <= i < t.len() ==> (#[trigger] u[i]).covers(t[i]),
    ensures
        linked(w, h, u, c, d),
{
    let n = step(c, d);
    lemma_index_in_range(w, h, c.0, c.1);
    lemma_index_in_range(w, h, n.0, n.1);
    assert(u[cell_index(w, c)].covers(t[cell_index(w, c)]));
    assert(u[cell_index(w, n)].covers(t[cell_index(w, n)]));
}

/// A fresh walk, with the top-left cell visited and on the stack, is in order.
proof fn lemma_tree_starts(w: int, h: int, visited: Seq<bool>, links: Seq<PortSet>)
    requires
        w >= 1,
        h >= 1,
        visited.len() == w * h,
        links.len() == w * h,
        forall|i: int| 0 <= i < visited.len() ==> visited[i] == (i == 0),
        forall|i: int| 0 <= i < links.len() ==> #[trigger] links[i] == PortSet::none(),
    ensures
        tree_inv(w, h, visited, links, seq![(0usize, 0usize)]),
        count_set(visited) == 1,
{
    reveal(tree_inv);
    let stack = seq![(0usize, 0usize)];
    lemma_index_in_range(w, h, 0, 0);
    let cleared = visited.update(0, false);
    lemma_count_set_none(cleared);
    lemma_count_set_update(cleared, 0);
    assert(cleared.update(0, true) =~= visited);
    lemma_total_degree_none(links);
    assert forall|c: (int, int), d: Direction|
        in_grid(w, h, c) && #[trigger] links[cell_index(w, c)].has(d) implies linked(
        w,
        h,
        links,
        c,
        d,
    ) && visited[cell_index(w, c)] by {
        lemma_index_in_range(w, h, c.0, c.1);
        assert(links[cell_index(w, c)] == PortSet::none());
    }
    assert forall|c: (int, int)| in_grid(w, h, c) && visited[cell_index(w, c)] implies #[trigger] connected(
        w,
        h,
        links,
        (0, 0),
        c,
    ) by {
        lemma_index_in_range(w, h, c.0, c.1);
        lemma_index_injective(w, c, (0, 0));
        lemma_connected_self(w, h, links, (0, 0));
    }
    assert forall|c: (int, int), d: Direction|
        in_grid(w, h, c) && visited[cell_index(w, c)] && !stack.contains(
            (c.0 as usize, c.1 as usize),
        ) && in_grid(w, h, #[trigger] step(c, d)) implies visited[cell_index(w, step(c, d))] by {
        lemma_index_in_range(w, h, c.0, c.1);
        lemma_index_injective(w, c, (0, 0));
        assert(stack[0] == (c.0 as usize, c.1 as usize));
    }
}

/// What the walk knows of the cell on top of its stack.
proof fn lemma_tree_top(
    w: int,
    h: int,
    visited: Seq<bool>,
    links: Seq<PortSet>,
    stack: Seq<(usize, usize)>,
)
    requires
        tree_inv(w, h, visited, links, stack),
        stack.len() > 0,
    ensures
        in_grid(w, h, as_cell(stack.last())),
        visited[cell_index(w, as_cell(stack.last()))],
{
    reveal(tree_inv);
    assert(in_grid(w, h, as_cell(stack[stack.len() - 1])));
}

/// A cell whose neighbours are all visited may leave the stack.
proof fn lemma_tree_retreats(
    w: int,
    h: int,
    visited: Seq<bool>,
    links: Seq<PortSet>,
    stack: Seq<(usize, usize)>,
)
    requires
        w <= usize::MAX,
        h <= usize::MAX,
        tree_inv(w, h, visited, links, stack),
        stack.len() > 0,
        forall|d: Direction|
            in_grid(w, h, #[trigger] step(as_cell(stack.last()), d)) ==> visited[cell_index(
                w,
                step(as_cell(stack.last()), d),
            )],
    ensures
        tree_inv(w, h, visited, links, stack.drop_last()),
{
    reveal(tree_inv);
    let rest = stack.drop_last();
    assert forall|i: int| 0 <= i < rest.len() implies in_grid(w, h, as_cell(#[trigger] rest[i]))
        && visited[cell_index(w, as_cell(rest[i]))] by {
        assert(rest[i] == stack[i]);
    }
    assert forall|c: (int, int), d: Direction|
        in_grid(w, h, c) && visited[cell_index(w, c)] && !rest.contains(
            (c.0 as usize, c.1 as usize),
        ) && in_grid(w, h, #[trigger] step(c, d)) implies visited[cell_index(w, step(c, d))] by {
        let cu = (c.0 as usize, c.1 as usize);
        if stack.contains(cu) {
            let i = choose|i: int| 0 <= i < stack.len() && stack[i] == cu;
            if i < rest.len() {
                assert(rest[i] == cu);
            }
            assert(cu == stack.last());
        }
    }
}

/// Joining the cell on top of the stack to an unvisited neighbour, marking
/// the neighbour and pushing it keeps the walk in order, and one more cell
/// is visited.
proof fn lemma_tree_extends(
    w: int,
    h: int,
    visited: Seq<bool>,
    links: Seq<PortSet>,
    stack: Seq<(usize, usize)>,
    d: Direction,
)
    requires
        w >= 1,
        h >= 1,
        w <= usize::MAX,
        h <= usize::MAX,
        visited.len() == w * h,
        links.len() == w * h,
        tree_inv(w, h, visited, links, stack),
        stack.len() > 0,
        in_grid(w, h, step(as_cell(stack.last()), d)),
        !visited[cell_index(w, step(as_cell(stack.last()), d))],
    ensures
        ({
            let c = as_cell(stack.last());
            let n = step(c, d);
            let ic = cell_index(w, c);
            let jn = cell_index(w, n);
            &&& ic != jn
            &&& 0 <= ic < w * h
            &&& 0 <= jn < w * h
            &&& tree_inv(
                w,
                h,
                visited.update(jn, true),
                links.update(ic, links[ic].with(d)).update(jn, links[jn].with(d.reversed())),
                stack.push((n.0 as usize, n.1 as usize)),
            )
            &&& count_set(visited.update(jn, true)) == count_set(visited) + 1
        }),
{
    reveal(tree_inv);
    let c = as_cell(stack.last());
    let n = step(c, d);
    let ic = cell_index(w, c);
    let jn = cell_index(w, n);
    let visited2 = visited.update(jn, true);
    let links1 = links.update(ic, links[ic].with(d));
    let links2 = links1.update(jn, links[jn].with(d.reversed()));
    let nu = (n.0 as usize, n.1 as usize);
    let stack2 = stack.push(nu);

    assert(in_grid(w, h, as_cell(stack[stack.len() - 1])));
    lemma_index_in_range(w, h, c.0, c.1);
    lemma_index_in_range(w, h, n.0, n.1);
    lemma_step_back(c, d);
    assert(ic != jn);
    assert forall|e: Direction| !links[jn].has(e) by {
        if links[jn].has(e) {
            assert(links[cell_index(w, n)].has(e));
        }
    }
    assert(!links[jn].has(Direction::North) && !links[jn].has(Direction::East) && !links[jn].has(
        Direction::South,
    ) && !links[jn].has(Direction::West));
    assert(links[jn] == PortSet::none());
    assert(!links[ic].has(d)) by {
        if links[cell_index(w, c)].has(d) {
            assert(linked(w, h, links, c, d));
        }
    }
    assert forall|i: int| 0 <= i < links.len() implies (#[trigger] links2[i]).covers(links[i]) by {}
    assert(linked(w, h, links2, c, d));

    assert forall|i: int| 0 <= i < stack2.len() implies in_grid(w, h, as_cell(#[trigger] stack2[i]))
        && visited2[cell_index(w, as_cell(stack2[i]))] by {
        if i < stack.len() {
            assert(stack2[i] == stack[i]);
            let s = as_cell(stack[i]);
            lemma_index_in_range(w, h, s.0, s.1);
        }
    }
    assert forall|x: (int, int), e: Direction|
        in_grid(w, h, x) && #[trigger] links2[cell_index(w, x)].has(e) implies linked(
        w,
        h,
        links2,
        x,
        e,
    ) && visited2[cell_index(w, x)] by {
        lemma_index_in_range(w, h, x.0, x.1);
        let ix = cell_index(w, x);
        if ix == jn {
            lemma_index_injective(w, x, n);
            assert(e == d.reversed());
            crate::graph::lemma_linked_symmetric(w, h, links2, c, d);
        } else if ix == ic && e == d {
            lemma_index_injective(w, x, c);
        } else {
            assert(links[ix].has(e));
            assert(linked(w, h, links, x, e));
            lemma_linked_monotone(w, h, links, links2, x, e);
        }
    }
    assert forall|x: (int, int)| in_grid(w, h, x) && visited2[cell_index(w, x)] implies #[trigger] connected(
        w,
        h,
        links2,
        (0, 0),
        x,
    ) by {
        lemma_index_in_range(w, h, x.0, x.1);
        if cell_index(w, x) == jn {
            lemma_index_injective(w, x, n);
            assert(connected(w, h, links, (0, 0), c));
            lemma_connected_monotone(w, h, links, links2, (0, 0), c);
            lemma_connected_extend(w, h, links2, (0, 0), c, d);
        } else {
            assert(connected(w, h, links, (0, 0), x));
            lemma_connected_monotone(w, h, links, links2, (0, 0), x);
        }
    }
    assert forall|x: (int, int), e: Direction|
        in_grid(w, h, x) && visited2[cell_index(w, x)] && !stack2.contains(
            (x.0 as usize, x.1 as usize),
        ) && in_grid(w, h, #[trigger] step(x, e)) implies visited2[cell_index(w, step(x, e))] by {
        lemma_index_in_range(w, h, x.0, x.1);
        let xu = (x.0 as usize, x.1 as usize);
        let m = step(x, e);
        lemma_index_in_range(w, h, m.0, m.1);
        if cell_index(w, x) == jn {
            lemma_index_injective(w, x, n);
            assert(stack2[stack.len() as int] == xu);
        } else {
            if stack.contains(xu) {
                let i = choose|i: int| 0 <= i < stack.len() && stack[i] == xu;
                assert(stack2[i] == xu);
            }
            assert(visited[cell_index(w, m)]);
        }
    }
    lemma_total_degree_update(links, ic, links[ic].with(d));
    lemma_total_degree_update(links1, jn, links[jn].with(d.reversed()));
    lemma_count_set_update(visited, jn);
}

/// When the stack is empty every cell has been visited.
proof fn lemma_tree_visits_all(
    w: int,
    h: int,
    visited: Seq<bool>,
    links: Seq<PortSet>,
    c: (int, int),
)
    requires
        w >= 1,
        h >= 1,
        tree_inv(w, h, visited, links, Seq::<(usize, usize)>::empty()),
        in_grid(w, h, c),
    ensures
        visited[cell_index(w, c)],
    decreases c.0 + c.1,
{
    reveal(tree_inv);
    let none = Seq::<(usize, usize)>::empty();
    if c.0 > 0 {
        let p = (c.0 - 1, c.1);
        lemma_tree_visits_all(w, h, visited, links, p);
        assert(!none.contains((p.0 as usize, p.1 as usize)));
        assert(step(p, Direction::East) == c);
    } else if c.1 > 0 {
        let p = (c.0, c.1 - 1);
        lemma_tree_visits_all(w, h, visited, links, p);
        assert(!none.contains((p.0 as usize, p.1 as usize)));
        assert(step(p, Direction::South) == c);
    } else {
        assert(cell_index(w, c) == 0) by (nonlinear_arith)
            requires
                c.0 == 0,
                c.1 == 0,
        ;
    }
}

/// A walk whose stack is empty has recorded a spanning tree.
proof fn lemma_tree_spans(w: int, h: int, visited: Seq<bool>, links: Seq<PortSet>)
    requires
        w >= 1,
        h >= 1,
        visited.len() == w * h,
        links.len() == w * h,
        tree_inv(w, h, visited, links, Seq::<(usize, usize)>::empty()),
    ensures
        is_spanning_tree(w, h, links),
{
    assert forall|i: int| 0 <= i < visited.len() implies visited[i] by {
        let c = (i % w, i / w);
        assert(0 <= i % w < w && 0 <= i / w < h && (i / w) * w + i % w == i) by (nonlinear_arith)
            requires
                0 <= i < w * h,
                w >= 1,
        ;
        lemma_tree_visits_all(w, h, visited, links, c);
    }
    lemma_count_set_full(visited);
    reveal(tree_inv);
    assert forall|c: (int, int)| in_grid(w, h, c) implies #[trigger] connected(
        w,
        h,
        links,
        (0, 0),
        c,
    ) by {
        lemma_index_in_range(w, h, c.0, c.1);
    }
}

/// The top-left cell is visited, and so is every cell on the stack.
proof fn lemma_tree_stack_visited(
    w: int,
    h: int,
    visited: Seq<bool>,
    links: Seq<PortSet>,
    stack: Seq<(usize, usize)>,
    i: int,
)
    requires
        tree_inv(w, h, visited, links, stack),
        0 <= i < stack.len(),
    ensures
        visited[0],
        in_grid(w, h, as_cell(stack[i])),
        visited[cell_index(w, as_cell(stack[i]))],
{
    reveal(tree_inv);
}

/// A visited cell that is not on the stack has no neighbour left to visit.
proof fn lemma_tree_closed(
    w: int,
    h: int,
    visited: Seq<bool>,
    links: Seq<PortSet>,
    stack: Seq<(usize, usize)>,
    c: (int, int),
    d: Direction,
)
    requires
        tree_inv(w, h, visited, links, stack),
        visited[0],
        in_grid(w, h, c),
        visited[cell_index(w, c)],
        !stack.contains((c.0 as usize, c.1 as usize)),
        in_grid(w, h, step(c, d)),
    ensures
        visited[cell_index(w, step(c, d))],
{
    reveal(tree_inv);
}

/// The state of a walk as mathematical values.
#[verifier::ext_equal]
pub struct WalkState {
    pub width: int,
    pub height: int,
    pub visited: Seq<bool>,
    pub links: Seq<PortSet>,
    pub stack: Seq<(usize, usize)>,
}

impl WalkState {
    /// The marks and the recorded directions cover the grid.
    pub open spec fn sized(self) -> bool {
        &&& 1 <= self.width <= usize::MAX
        &&& 1 <= self.height <= usize::MAX
        &&& self.width * self.height <= usize::MAX
        &&& self.visited.len() == self.width * self.height
        &&& self.links.len() == self.width * self.height
    }

    /// The walk is in order.
    pub open spec fn wf(self) -> bool {
        &&& self.sized()
        &&& tree_inv(self.width, self.height, self.visited, self.links, self.stack)
    }

    /// The state in which a walk begins: only the top-left cell is visited,
    /// nothing is joined, and the top-left cell is on the stack.
    pub open spec fn start(width: int, height: int) -> WalkState {
        WalkState {
            width,
            height,
            visited: Seq::new((width * height) as nat, |i: int| i == 0),
            links: Seq::new((width * height) as nat, |i: int| PortSet::none()),
            stack: seq![(0usize, 0usize)],
        }
    }

    /// The cell on top of the stack.
    pub open spec fn top(self) -> (int, int) {
        as_cell(self.stack.last())
    }

    /// The cell lies in the grid and has not been visited.
    pub open spec fn is_fresh(self, c: (int, int)) -> bool {
        in_grid(self.width, self.height, c) && !self.visited[cell_index(self.width, c)]
    }

    /// Number of cells that have not been visited.
    pub open spec fn fresh_count(self) -> int {
        self.width * self.height - count_set(self.visited)
    }

    /// The neighbour of the top cell in direction `d` with that direction,
    /// if it has not been visited; nothing otherwise.
    pub open spec fn option(self, d: Direction) -> Seq<(usize, usize, Direction)> {
        let n = step(self.top(), d);
        if self.is_fresh(n) {
            seq![(n.0 as usize, n.1 as usize, d)]
        } else {
            Seq::<(usize, usize, Direction)>::empty()
        }
    }

    /// The unvisited neighbours of the top cell, clockwise from North, each
    /// with the direction that leads to it.
    pub open spec fn options(self) -> Seq<(usize, usize, Direction)> {
        self.option(Direction::North) + self.option(Direction::East) + self.option(
            Direction::South,
        ) + self.option(Direction::West)
    }

    /// The state after the top cell has left the stack.
    pub open spec fn retreated(self) -> WalkState {
        WalkState { stack: self.stack.drop_last(), ..self }
    }

    /// The state after the top cell has been joined to its neighbour in
    /// direction `d` from both sides, and the neighbour marked and pushed.
    pub open spec fn extended(self, d: Direction) -> WalkState {
        let c = self.top();
        let n = step(c, d);
        let here = cell_index(self.width, c);
        let there = cell_index(self.width, n);
        WalkState {
            visited: self.visited.update(there, true),
            links: self.links.update(here, self.links[here].with(d)).update(
                there,
                self.links[there].with(d.reversed()),
            ),
            stack: self.stack.push((n.0 as usize, n.1 as usize)),
            ..self
        }
    }

    /// `next` is what one step of the walk makes of this state: the top cell
    /// is popped where it has no option, and joined to one of its options
    /// where it has some.
    pub open spec fn steps_to(self, next: WalkState) -> bool {
        &&& self.stack.len() > 0
        &&& if self.options().len() == 0 {
            next == self.retreated()
        } else {
            exists|k: int|
                0 <= k < self.options().len() && next == self.extended(
                    (#[trigger] self.options()[k]).2,
                )
        }
    }

    /// Every option is an unvisited neighbour of the top cell, with the
    /// direction that leads to it.
    pub proof fn lemma_option_is_fresh(self, o: (usize, usize, Direction))
        requires
            self.sized(),
            self.options().contains(o),
        ensures
            self.is_fresh(as_cell((o.0, o.1))),
            as_cell((o.0, o.1)) == step(self.top(), o.2),
            self.option(o.2) == seq![o],
    {
        let a = self.option(Direction::North);
        let b = self.option(Direction::East);
        let c = self.option(Direction::South);
        let d = self.option(Direction::West);
        let all = self.options();
        let i = choose|i: int| 0 <= i < all.len() && all[i] == o;
        if i < a.len() {
            assert(a[i] == o);
        } else if i < a.len() + b.len() {
            assert(b[i - a.len()] == o);
        } else if i < a.len() + b.len() + c.len() {
            assert(c[i - a.len() - b.len()] == o);
        } else {
            assert(d[i - a.len() - b.len() - c.len()] == o);
        }
    }

    /// Where there is no option, every neighbour of the top cell inside the
    /// grid has been visited.
    pub proof fn lemma_no_option(self, d: Direction)
        requires
            self.options().len() == 0,
        ensures
            !self.is_fresh(step(self.top(), d)),
    {
        assert(self.option(d).len() == 0);
    }

    /// A step keeps the walk in order, and brings it nearer to its end: it
    /// visits a cell, or else it shortens the stack.
    pub proof fn lemma_step_keeps_order(self, next: WalkState)
        requires
            self.wf(),
            self.steps_to(next),
        ensures
            next.wf(),
            next.width == self.width,
            next.height == self.height,
            0 <= next.fresh_count(),
            next.fresh_count() < self.fresh_count() || (next.fresh_count() == self.fresh_count()
                && next.stack.len() < self.stack.len()),
    {
        let w = self.width;
        let h = self.height;
        if self.options().len() == 0 {
            assert forall|d: Direction|
                in_grid(w, h, #[trigger] step(as_cell(self.stack.last()), d)) implies self.visited[cell_index(
                w,
                step(as_cell(self.stack.last()), d),
            )] by {
                self.lemma_no_option(d);
            }
            lemma_tree_retreats(w, h, self.visited, self.links, self.stack);
        } else {
            let k = choose|k: int|
                0 <= k < self.options().len() && next == self.extended(
                    (#[trigger] self.options()[k]).2,
                );
            let o = self.options()[k];
            self.lemma_option_is_fresh(o);
            lemma_tree_extends(w, h, self.visited, self.links, self.stack, o.2);
        }
        lemma_count_set_bound(next.visited);
    }

    /// The state after the top cell has been joined to the option with the
    /// number `pick`, counted from 0.
    pub open spec fn stepped(self, pick: int) -> WalkState {
        self.extended(self.options()[pick].2)
    }

    /// The joints that the walk records when it is run from this state to
    /// its end. Where the top cell has options, the first of `picks` says
    /// which of them is taken, and the walk goes on with the other picks;
    /// where it has none, the cell is popped. `None` where a pick is not
    /// below the number of options, or where picks are missing or left over.
    pub open spec fn finished(self, picks: Seq<usize>) -> Option<Seq<PortSet>>
        decreases self.fresh_count(), self.stack.len(),
        when self.wf()
    {
        if self.stack.len() == 0 {
            if picks.len() == 0 {
                Some(self.links)
            } else {
                None
            }
        } else if self.options().len() == 0 {
            proof {
                self.lemma_step_keeps_order(self.retreated());
            }
            self.retreated().finished(picks)
        } else if picks.len() > 0 && picks[0] < self.options().len() {
            proof {
                self.lemma_step_keeps_order(self.stepped(picks[0] as int));
            }
            self.stepped(picks[0] as int).finished(picks.skip(1))
        } else {
            None
        }
    }

    /// The joints that a walk records at its end form a spanning tree.
    pub proof fn lemma_finished_is_spanning_tree(self, picks: Seq<usize>)
        requires
            self.wf(),
            self.finished(picks) is Some,
        ensures
            is_spanning_tree(self.width, self.height, self.finished(picks)->0),
        decreases self.fresh_count(), self.stack.len(),
    {
        if self.stack.len() == 0 {
            assert(self.stack =~= Seq::<(usize, usize)>::empty());
            lemma_tree_spans(self.width, self.height, self.visited, self.links);
        } else if self.options().len() == 0 {
            self.lemma_step_keeps_order(self.retreated());
            self.retreated().lemma_finished_is_spanning_tree(picks);
        } else {
            let next = self.stepped(picks[0] as int);
            self.lemma_step_keeps_order(next);
            next.lemma_finished_is_spanning_tree(picks.skip(1));
        }
    }

    /// The stack begins with the top-left cell and holds no cell twice.
    pub open spec fn stack_in_order(self) -> bool {
        &&& self.stack.len() > 0 ==> self.stack[0] == (0usize, 0usize)
        &&& self.stack.no_duplicates()
    }

    /// The top-left cell is joined in the direction `d` and in no other,
    /// and its neighbour in that direction is visited.
    pub open spec fn start_joined(self, d: Direction) -> bool {
        &&& self.links[0] == PortSet::none().with(d)
        &&& self.visited[cell_index(self.width, step((0, 0), d))]
    }

    /// A step keeps the stack in order.
    pub proof fn lemma_step_keeps_stack(self, next: WalkState)
        requires
            self.wf(),
            self.stack_in_order(),
            self.steps_to(next),
        ensures
            next.stack_in_order(),
    {
        if self.options().len() == 0 {
            let rest = self.stack.drop_last();
            assert forall|i: int, j: int|
                0 <= i < rest.len() && 0 <= j < rest.len() && i != j implies rest[i] != rest[j] by {
                assert(rest[i] == self.stack[i] && rest[j] == self.stack[j]);
            }
            if rest.len() > 0 {
                assert(rest[0] == self.stack[0]);
            }
        } else {
            let k = choose|k: int|
                0 <= k < self.options().len() && next == self.extended(
                    (#[trigger] self.options()[k]).2,
                );
            let o = self.options()[k];
            self.lemma_option_is_fresh(o);
            let longer = next.stack;
            assert(longer == self.stack.push((o.0, o.1)));
            assert forall|i: int, j: int|
                0 <= i < longer.len() && 0 <= j < longer.len() && i != j implies longer[i]
                != longer[j] by {
                if i < self.stack.len() {
                    lemma_tree_stack_visited(
                        self.width,
                        self.height,
                        self.visited,
                        self.links,
                        self.stack,
                        i,
                    );
                }
                if j < self.stack.len() {
                    lemma_tree_stack_visited(
                        self.width,
                        self.height,
                        self.visited,
                        self.links,
                        self.stack,
                        j,
                    );
                }
            }
            assert(longer[0] == self.stack[0]);
        }
    }

    /// Once the top-left cell of a grid of at least two rows and two
    /// columns has been joined to its eastern or its southern neighbour, no
    /// step joins it to another cell: when the walk comes back to it, the
    /// other neighbour has been visited from elsewhere.
    pub proof fn lemma_step_keeps_start_joined(self, next: WalkState, d: Direction)
        requires
            self.wf(),
            self.stack_in_order(),
            self.width >= 2,
            self.height >= 2,
            d == Direction::East || d == Direction::South,
            self.start_joined(d),
            self.steps_to(next),
        ensures
            next.start_joined(d),
    {
        let w = self.width;
        let h = self.height;
        let origin = (0int, 0int);
        let first = step(origin, d);
        lemma_index_in_range(w, h, first.0, first.1);
        if self.options().len() > 0 {
            let k = choose|k: int|
                0 <= k < self.options().len() && next == self.extended(
                    (#[trigger] self.options()[k]).2,
                );
            let o = self.options()[k];
            self.lemma_option_is_fresh(o);
            let c = self.top();
            let n = step(c, o.2);
            lemma_tree_stack_visited(w, h, self.visited, self.links, self.stack, self.stack.len() - 1);
            lemma_index_in_range(w, h, c.0, c.1);
            lemma_index_in_range(w, h, n.0, n.1);
            if cell_index(w, n) == 0 {
                assert(false);
            }
            if cell_index(w, c) == 0 {
                lemma_index_injective(w, c, origin);
                assert(self.stack.last() == self.stack[0]);
                assert(self.stack.len() == 1);
                let e = if d == Direction::East {
                    Direction::South
                } else {
                    Direction::East
                };
                let diag = step(first, e);
                let other = step(origin, e);
                assert(diag == (1int, 1int));
                assert(other == step(diag, d.reversed()));
                assert(!self.stack.contains((first.0 as usize, first.1 as usize)));
                lemma_tree_closed(w, h, self.visited, self.links, self.stack, first, e);
                assert(!self.stack.contains((diag.0 as usize, diag.1 as usize)));
                lemma_tree_closed(w, h, self.visited, self.links, self.stack, diag, d.reversed());
                assert(!self.is_fresh(first));
                assert(!self.is_fresh(other));
                assert(false);
            }
        }
    }

    /// What is joined to the top-left cell at first stays its only joint
    /// to the end of the walk.
    pub proof fn lemma_finished_keeps_start_joined(self, picks: Seq<usize>, d: Direction)
        requires
            self.wf(),
            self.stack_in_order(),
            self.width >= 2,
            self.height >= 2,
            d == Direction::East || d == Direction::South,
            self.start_joined(d),
            self.finished(picks) is Some,
        ensures
            (self.finished(picks)->0)[0] == PortSet::none().with(d),
        decreases self.fresh_count(), self.stack.len(),
    {
        if self.stack.len() == 0 {
        } else if self.options().len() == 0 {
            let next = self.retreated();
            self.lemma_step_keeps_order(next);
            self.lemma_step_keeps_stack(next);
            self.lemma_step_keeps_start_joined(next, d);
            next.lemma_finished_keeps_start_joined(picks, d);
        } else {
            let next = self.stepped(picks[0] as int);
            self.lemma_step_keeps_order(next);
            self.lemma_step_keeps_stack(next);
            self.lemma_step_keeps_start_joined(next, d);
            next.lemma_finished_keeps_start_joined(picks.skip(1), d);
        }
    }
}

/// The joints that a walk on a grid of the given size records when it is
/// run from its start to its end with the given picks, one for each cell
/// that is joined, in the order in which they are made. `None` where the
/// picks do not fit the walk.
pub open spec fn spec_grown(width: int, height: int, picks: Seq<usize>) -> Option<Seq<PortSet>> {
    WalkState::start(width, height).finished(picks)
}

/// The state in which a walk begins is in order.
pub proof fn lemma_start_in_order(width: int, height: int)
    requires
        1 <= width <= usize::MAX,
        1 <= height <= usize::MAX,
        width * height <= usize::MAX,
    ensures
        WalkState::start(width, height).wf(),
{
    let s = WalkState::start(width, height);
    lemma_tree_starts(width, height, s.visited, s.links);
}

/// Whatever the picks, the joints that a walk records at its end form a
/// spanning tree of the grid.
pub proof fn lemma_grown_is_spanning_tree(width: int, height: int, picks: Seq<usize>)
    requires
        1 <= width <= usize::MAX,
        1 <= height <= usize::MAX,
        width * height <= usize::MAX,
        spec_grown(width, height, picks) is Some,
    ensures
        is_spanning_tree(width, height, spec_grown(width, height, picks)->0),
{
    lemma_start_in_order(width, height);
    WalkState::start(width, height).lemma_finished_is_spanning_tree(picks);
}

/// On a grid of at least two rows and two columns the first pick decides
/// how the top-left cell is joined: pick 0 joins it to its eastern
/// neighbour, pick 1 to its southern neighbour, and it gets no other joint.
pub proof fn lemma_first_pick_joins_start(width: int, height: int, picks: Seq<usize>)
    requires
        2 <= width <= usize::MAX,
        2 <= height <= usize::MAX,
        width * height <= usize::MAX,
        spec_grown(width, height, picks) is Some,
    ensures
        picks.len() > 0,
        picks[0] == 0 || picks[0] == 1,
        picks[0] == 0 ==> (spec_grown(width, height, picks)->0)[0] == PortSet::none().with(
            Direction::East,
        ),
        picks[0] == 1 ==> (spec_grown(width, height, picks)->0)[0] == PortSet::none().with(
            Direction::South,
        ),
{
    let s = WalkState::start(width, height);
    lemma_start_in_order(width, height);
    lemma_index_in_range(width, height, 1, 0);
    lemma_index_in_range(width, height, 0, 1);
    lemma_index_in_range(width, height, 0, 0);
    assert(s.top() == (0int, 0int));
    assert(s.option(Direction::North).len() == 0);
    assert(s.option(Direction::West).len() == 0);
    assert(s.option(Direction::East) == seq![(1usize, 0usize, Direction::East)]);
    assert(s.option(Direction::South) == seq![(0usize, 1usize, Direction::South)]);
    assert(s.options() =~= seq![
        (1usize, 0usize, Direction::East),
        (0usize, 1usize, Direction::South),
    ]);
    let d = s.options()[picks[0] as int].2;
    let next = s.stepped(picks[0] as int);
    assert(s.steps_to(next));
    s.lemma_step_keeps_order(next);
    assert(s.stack_in_order());
    s.lemma_step_keeps_stack(next);
    assert(next.start_joined(d));
    next.lemma_finished_keeps_start_joined(picks.skip(1), d);
}

impl View for TreeWalk {
    type V = WalkState;

    open spec fn view(&self) -> WalkState {
        WalkState {
            width: self.width as int,
            height: self.height as int,
            visited: self.visited@,
            links: self.links@,
            stack: self.stack@,
        }
    }
}

impl TreeWalk {
    /// A walk that has only visited the top-left cell, which is on the stack.
    pub fn new(width: usize, height: usize) -> (walk: TreeWalk)
        requires
            width >= 1,
            height >= 1,
            width * height <= usize::MAX,
        ensures
            walk@.wf(),
            walk@ == WalkState::start(width as int, height as int),
    {
        proof {
            lemma_index_in_range(width as int, height as int, 0, 0);
        }
        let mut visited: Vec<bool> = vec![false; width * height];
        visited[0] = true;
        let links: Vec<PortSet> = vec![PortSet::empty(); width * height];
        let mut stack: Vec<(usize, usize)> = Vec::new();
        stack.push((0, 0));
        proof {
            assert(visited@ =~= Seq::new((width * height) as nat, |i: int| i == 0));
            assert(links@ =~= Seq::new((width * height) as nat, |i: int| PortSet::none()));
            assert(stack@ =~= seq![(0usize, 0usize)]);
            lemma_tree_starts(width as int, height as int, visited@, links@);
        }
        TreeWalk { width, height, visited, links, stack }
    }

    /// Appends the option in direction `dir`, if there is one.
    fn add_option(&self, dir: Direction, out: &mut Vec<(usize, usize, Direction)>)
        requires
            self@.wf(),
            self@.stack.len() > 0,
        ensures
            final(out)@ == old(out)@ + self@.option(dir),
    {
        proof {
            lemma_tree_top(
                self.width as int,
                self.height as int,
                self.visited@,
                self.links@,
                self.stack@,
            );
        }
        let (cx, cy) = self.stack[self.stack.len() - 1];
        if let Some((nx, ny)) = neighbor_of(self.width, self.height, cx, cy, dir) {
            let slot = slot_of(self.width, self.height, nx, ny);
            if !self.visited[slot] {
                out.push((nx, ny, dir));
                assert(out@ =~= old(out)@ + self@.option(dir));
                return ;
            }
        }
        assert(out@ =~= old(out)@ + self@.option(dir));
    }

    /// The unvisited neighbours of the cell on top of the stack, clockwise
    /// from North, each with the direction that leads to it.
    pub fn options(&self) -> (r: Vec<(usize, usize, Direction)>)
        requires
            self@.wf(),
            self@.stack.len() > 0,
        ensures
            r@ == self@.options(),
    {
        let mut r: Vec<(usize, usize, Direction)> = Vec::new();
        self.add_option(Direction::North, &mut r);
        self.add_option(Direction::East, &mut r);
        self.add_option(Direction::South, &mut r);
        self.add_option(Direction::West, &mut r);
        assert(r@ =~= self@.options());
        r
    }

    /// Pops the cell on top of the stack, which has no unvisited neighbour.
    pub fn retreat(&mut self)
        requires
            old(self)@.wf(),
            old(self)@.stack.len() > 0,
            old(self)@.options().len() == 0,
        ensures
            final(self)@.wf(),
            final(self)@ == old(self)@.retreated(),
            old(self)@.steps_to(final(self)@),
    {
        proof {
            self@.lemma_step_keeps_order(self@.retreated());
        }
        self.stack.pop();
    }

    /// Joins the cell on top of the stack to its unvisited neighbour
    /// (nx, ny), which lies in direction `dir`, from both sides, marks the
    /// neighbour as visited and pushes it.
    pub fn extend(&mut self, nx: usize, ny: usize, dir: Direction)
        requires
            old(self)@.wf(),
            old(self)@.stack.len() > 0,
            old(self)@.options().contains((nx, ny, dir)),
        ensures
            final(self)@.wf(),
            final(self)@ == old(self)@.extended(dir),
            final(self)@.stack.last() == (nx, ny),
            old(self)@.steps_to(final(self)@),
    {
        proof {
            let o = (nx, ny, dir);
            let k = choose|k: int| 0 <= k < self@.options().len() && self@.options()[k] == o;
            assert(self@.options()[k].2 == dir);
            self@.lemma_option_is_fresh(o);
            self@.lemma_step_keeps_order(self@.extended(dir));
            lemma_tree_top(
                self.width as int,
                self.height as int,
                self.visited@,
                self.links@,
                self.stack@,
            );
            lemma_index_in_range(self.width as int, self.height as int, nx as int, ny as int);
        }
        let (cx, cy) = self.stack[self.stack.len() - 1];
        let here = slot_of(self.width, self.height, cx, cy);
        let there = slot_of(self.width, self.height, nx, ny);
        let mut ports = self.links[here];
        ports.insert(dir);
        self.links[here] = ports;
        let mut back = self.links[there];
        back.insert(dir.opposite());
        self.links[there] = back;
        self.visited[there] = true;
        self.stack.push((nx, ny));
    }

    /// Joins the cell on top of the stack to its option with the number
    /// `pick`, counted from 0, marks that neighbour and pushes it.
    pub fn step(&mut self, pick: usize)
        requires
            old(self)@.wf(),
            old(self)@.stack.len() > 0,
            pick < old(self)@.options().len(),
        ensures
            final(self)@.wf(),
            final(self)@ == old(self)@.extended(old(self)@.options()[pick as int].2),
            old(self)@.steps_to(final(self)@),
    {
        let options = self.options();
        let (nx, ny, dir) = options[pick];
        self.extend(nx, ny, dir);
    }

    /// The recorded directions of a walk that has come to its end.
    pub fn into_links(self) -> (links: Vec<PortSet>)
        requires
            self@.wf(),
            self@.stack.len() == 0,
        ensures
            links@ == self@.links,
            is_spanning_tree(self@.width, self@.height, links@),
    {
        proof {
            assert(self.stack@ =~= Seq::<(usize, usize)>::empty());
            lemma_tree_spans(self.width as int, self.height as int, self.visited@, self.links@);
        }
        self.links
    }
}

} // verus!
