//! The connectivity engine: which cells does the flow reach from the start?
use crate::graph::{
    adjacent, as_cell, cell_index, connected, in_grid, lemma_adjacent_symmetric,
    lemma_closed_holds_connected,
    lemma_connected_extend, lemma_connected_self, lemma_count_set_bound, lemma_count_set_none,
    lemma_count_set_update, lemma_index_injective, linked, neighbor_of, slot_of, step, count_set,
};
use crate::model::{lemma_index_in_range, lemma_port_table_at, Board, Direction};
use std::collections::VecDeque;
use vstd::prelude::*;

verus! {

impl Board {
    /// The start cell as a cell of the grid.
    pub open spec fn start_cell(self) -> (int, int) {
        as_cell(self.start_pos)
    }

    /// The end cell as a cell of the grid.
    pub open spec fn end_cell(self) -> (int, int) {
        as_cell(self.end_pos)
    }

    /// Some walk over joined cells leads from the start cell to `c`.
    pub open spec fn reaches(self, c: (int, int)) -> bool {
        connected(self.width as int, self.height as int, self.port_table(), self.start_cell(), c)
    }

    /// The cells that the flow reaches from the start cell.
    pub open spec fn energized(self) -> Set<(usize, usize)> {
        Set::new(|c: (usize, usize)| self.reaches(as_cell(c)))
    }

    /// The connectivity graph has an edge from cell `a` to cell `b`: the two
    /// are neighbours and each opens towards the other.
    pub open spec fn has_edge(self, a: (int, int), b: (int, int)) -> bool {
        adjacent(self.width as int, self.height as int, self.port_table(), a, b)
    }
}

/// The edges of the connectivity graph go both ways: `a` has an edge to `b`
/// exactly when `b` has an edge back to `a`.
pub proof fn lemma_edges_are_mutual(board: Board, a: (int, int), b: (int, int))
    ensures
        board.has_edge(a, b) == board.has_edge(b, a),
{
    lemma_adjacent_symmetric(board.width as int, board.height as int, board.port_table(), a, b);
}

/// What the search knows after `done` of the cells in `found` have been
/// taken off the queue: `found` lists the marked cells once each, every one
/// of them is reached from the start, and the joints of the first `done`
/// cells lead to marked cells only.
#[verifier::opaque]
spec fn search_inv(board: Board, seen: Seq<bool>, found: Seq<(usize, usize)>, done: int) -> bool {
    let w = board.width as int;
    let h = board.height as int;
    let t = board.port_table();
    &&& board.wf()
    &&& seen.len() == w * h
    &&& 0 <= done <= found.len()
    &&& found.len() >= 1
    &&& found[0] == board.start_pos
    &&& found.len() == count_set(seen)
    &&& found.no_duplicates()
    &&& forall|i: int|
        0 <= i < found.len() ==> {
            let c = as_cell(#[trigger] found[i]);
            in_grid(w, h, c) && seen[cell_index(w, c)] && board.reaches(c)
        }
    &&& forall|c: (usize, usize)|
        in_grid(w, h, as_cell(c)) && seen[cell_index(w, as_cell(c))] ==> #[trigger] found.contains(c)
    &&& forall|i: int, d: Direction|
        0 <= i < done && #[trigger] linked(w, h, t, as_cell(found[i]), d) ==> seen[cell_index(
            w,
            step(as_cell(found[i]), d),
        )]
}

/// The joints of cell `c` in the first `k` directions of `ports` lead to
/// marked cells.
spec fn joints_seen(board: Board, seen: Seq<bool>, c: (int, int), ports: Seq<Direction>, k: int) -> bool {
    forall|j: int|
        0 <= j < k && #[trigger] linked(
            board.width as int,
            board.height as int,
            board.port_table(),
            c,
            ports[j],
        ) ==> seen[cell_index(board.width as int, step(c, ports[j]))]
}

/// With the start cell marked and listed, and nothing else, the search
/// knows what it has to.
proof fn lemma_search_starts(board: Board, seen: Seq<bool>)
    requires
        board.wf(),
        seen.len() == board.width * board.height,
        forall|i: int| 0 <= i < seen.len() ==> !seen[i],
    ensures
        search_inv(board, seen.update(0, true), seq![board.start_pos], 0),
{
    reveal(search_inv);
    let w = board.width as int;
    let h = board.height as int;
    let t = board.port_table();
    let seen2 = seen.update(0, true);
    let found = seq![board.start_pos];
    lemma_index_in_range(w, h, 0, 0);
    lemma_count_set_none(seen);
    lemma_count_set_update(seen, 0);
    lemma_connected_self(w, h, t, board.start_cell());
    assert forall|c: (usize, usize)|
        in_grid(w, h, as_cell(c)) && seen2[cell_index(w, as_cell(c))] implies #[trigger] found.contains(
        c,
    ) by {
        lemma_index_in_range(w, h, c.0 as int, c.1 as int);
        lemma_index_injective(w, as_cell(c), board.start_cell());
        assert(found[0] == c);
    }
}

/// The next cell to take off the queue lies in the grid and is reached from
/// the start, and no more cells are listed than the grid has.
proof fn lemma_search_front(board: Board, seen: Seq<bool>, found: Seq<(usize, usize)>, done: int)
    requires
        search_inv(board, seen, found, done),
        done < found.len(),
    ensures
        board.wf(),
        0 <= done,
        seen.len() == board.width * board.height,
        found.len() <= board.width * board.height,
        in_grid(board.width as int, board.height as int, as_cell(found[done])),
        board.reaches(as_cell(found[done])),
{
    reveal(search_inv);
    lemma_count_set_bound(seen);
}

/// Marking a cell that was not marked and appending it to `found` keeps what
/// the search knows.
proof fn lemma_search_marks(
    board: Board,
    seen: Seq<bool>,
    found: Seq<(usize, usize)>,
    done: int,
    n: (usize, usize),
)
    requires
        search_inv(board, seen, found, done),
        in_grid(board.width as int, board.height as int, as_cell(n)),
        !seen[cell_index(board.width as int, as_cell(n))],
        board.reaches(as_cell(n)),
    ensures
        search_inv(
            board,
            seen.update(cell_index(board.width as int, as_cell(n)), true),
            found.push(n),
            done,
        ),
{
    reveal(search_inv);
    let w = board.width as int;
    let h = board.height as int;
    let t = board.port_table();
    let slot = cell_index(w, as_cell(n));
    let seen2 = seen.update(slot, true);
    let found2 = found.push(n);
    lemma_index_in_range(w, h, n.0 as int, n.1 as int);
    lemma_count_set_update(seen, slot);
    assert forall|i: int, j: int|
        0 <= i < found2.len() && 0 <= j < found2.len() && i != j implies found2[i] != found2[j] by {
        if i < found.len() {
            assert(seen[cell_index(w, as_cell(found[i]))]);
        }
        if j < found.len() {
            assert(seen[cell_index(w, as_cell(found[j]))]);
        }
    }
    assert forall|i: int| 0 <= i < found2.len() implies {
        let c = as_cell(#[trigger] found2[i]);
        in_grid(w, h, c) && seen2[cell_index(w, c)] && board.reaches(c)
    } by {
        if i < found.len() {
            let c = as_cell(found[i]);
            assert(in_grid(w, h, c) && seen[cell_index(w, c)]);
            lemma_index_in_range(w, h, c.0, c.1);
        }
    }
    assert forall|c: (usize, usize)|
        in_grid(w, h, as_cell(c)) && seen2[cell_index(w, as_cell(c))] implies #[trigger] found2.contains(
        c,
    ) by {
        lemma_index_in_range(w, h, c.0 as int, c.1 as int);
        if cell_index(w, as_cell(c)) == slot {
            lemma_index_injective(w, as_cell(c), as_cell(n));
            assert(found2[found.len() as int] == c);
        } else {
            assert(found.contains(c));
            let i = choose|i: int| 0 <= i < found.len() && found[i] == c;
            assert(found2[i] == c);
        }
    }
    assert forall|i: int, d: Direction|
        0 <= i < done && #[trigger] linked(w, h, t, as_cell(found2[i]), d) implies seen2[cell_index(
        w,
        step(as_cell(found2[i]), d),
    )] by {
        assert(found2[i] == found[i]);
        let m = step(as_cell(found[i]), d);
        lemma_index_in_range(w, h, m.0, m.1);
        assert(seen[cell_index(w, m)]);
    }
}

/// One more direction of `ports` is dealt with once its joint, if there is
/// one, leads to a marked cell. Marks that were set stay set.
proof fn lemma_joints_seen_next(
    board: Board,
    seen: Seq<bool>,
    later: Seq<bool>,
    c: (int, int),
    ports: Seq<Direction>,
    k: int,
)
    requires
        board.wf(),
        joints_seen(board, seen, c, ports, k),
        seen.len() == board.width * board.height,
        later.len() == seen.len(),
        forall|i: int| 0 <= i < seen.len() && seen[i] ==> later[i],
        linked(board.width as int, board.height as int, board.port_table(), c, ports[k]) ==> later[cell_index(
            board.width as int,
            step(c, ports[k]),
        )],
    ensures
        joints_seen(board, later, c, ports, k + 1),
{
    let w = board.width as int;
    let h = board.height as int;
    let t = board.port_table();
    assert forall|j: int| 0 <= j < k + 1 && #[trigger] linked(w, h, t, c, ports[j]) implies later[cell_index(
        w,
        step(c, ports[j]),
    )] by {
        let m = step(c, ports[j]);
        lemma_index_in_range(w, h, m.0, m.1);
        if j < k {
            assert(seen[cell_index(w, m)]);
        }
    }
}

/// Once every joint of the cell at the front leads to a marked cell, the
/// cell is done with.
proof fn lemma_search_closes(
    board: Board,
    seen: Seq<bool>,
    found: Seq<(usize, usize)>,
    done: int,
    ports: Seq<Direction>,
)
    requires
        search_inv(board, seen, found, done),
        done < found.len(),
        ports == board.node_at(found[done].0 as int, found[done].1 as int).spec_ports(),
        joints_seen(board, seen, as_cell(found[done]), ports, ports.len() as int),
    ensures
        search_inv(board, seen, found, done + 1),
{
    reveal(search_inv);
    let w = board.width as int;
    let h = board.height as int;
    let t = board.port_table();
    let c = as_cell(found[done]);
    assert(in_grid(w, h, c));
    lemma_port_table_at(board, c.0, c.1);
    assert forall|i: int, d: Direction|
        0 <= i < done + 1 && #[trigger] linked(w, h, t, as_cell(found[i]), d) implies seen[cell_index(
        w,
        step(as_cell(found[i]), d),
    )] by {
        if i == done {
            assert(t[board.spec_index(c.0, c.1)].has(d));
            assert(board.node_at(c.0, c.1).opens(d));
            let j = choose|j: int| 0 <= j < ports.len() && ports[j] == d;
            assert(linked(w, h, t, c, ports[j]));
        }
    }
}

/// When every cell in `found` has been taken off the queue, `found` holds
/// exactly the cells that the flow reaches.
proof fn lemma_search_complete(board: Board, seen: Seq<bool>, found: Seq<(usize, usize)>)
    requires
        search_inv(board, seen, found, found.len() as int),
    ensures
        found.no_duplicates(),
        found.len() >= 1,
        found[0] == board.start_pos,
        found.to_set() == board.energized(),
        found.len() <= board.width * board.height,
        forall|i: int|
            0 <= i < found.len() ==> board.in_bounds(
                (#[trigger] found[i]).0 as int,
                found[i].1 as int,
            ),
{
    reveal(search_inv);
    lemma_count_set_bound(seen);
    let w = board.width as int;
    let h = board.height as int;
    let t = board.port_table();
    let inside = Set::new(|c: (int, int)| in_grid(w, h, c) && seen[cell_index(w, c)]);
    assert(as_cell(found[0]) == board.start_cell());
    assert(inside.contains(board.start_cell()));
    assert forall|c: (int, int), d: Direction|
        inside.contains(c) && #[trigger] linked(w, h, t, c, d) implies inside.contains(
        step(c, d),
    ) by {
        let cu = (c.0 as usize, c.1 as usize);
        assert(as_cell(cu) == c);
        assert(found.contains(cu));
        let i = choose|i: int| 0 <= i < found.len() && found[i] == cu;
        assert(linked(w, h, t, as_cell(found[i]), d));
    }
    assert forall|c: (usize, usize)| found.to_set().contains(c) == board.energized().contains(
        c,
    ) by {
        if board.reaches(as_cell(c)) {
            lemma_closed_holds_connected(w, h, t, inside, board.start_cell(), as_cell(c));
            assert(found.contains(c));
        }
        if found.contains(c) {
            let i = choose|i: int| 0 <= i < found.len() && found[i] == c;
            assert(board.reaches(as_cell(found[i])));
        }
    }
    assert(found.to_set() =~= board.energized());
}

/// The cells reached from the start cell over joints, each listed once.
///
/// A step from a cell to its neighbour counts only where each of the two
/// opens towards the other. The start cell comes first; the order of the
/// others is the order in which a breadth-first search finds them.
pub fn get_energized_nodes(board: &Board) -> (found: Vec<(usize, usize)>)
    requires
        board.wf(),
    ensures
        found@.no_duplicates(),
        found@.to_set() == board.energized(),
        1 <= found@.len() <= board.width * board.height,
        found@[0] == board.start_pos,
        forall|i: int|
            0 <= i < found@.len() ==> board.in_bounds(
                (#[trigger] found@[i]).0 as int,
                found@[i].1 as int,
            ),
{
    let width = board.width;
    let height = board.height;
    let (start_x, start_y) = board.start_pos;

    let mut seen: Vec<bool> = vec![false; width * height];
    let mut found: Vec<(usize, usize)> = Vec::new();
    let mut queue: VecDeque<(usize, usize)> = VecDeque::new();
    let ghost mut done: int = 0;

    let start_slot = slot_of(width, height, start_x, start_y);
    proof {
        lemma_search_starts(*board, seen@);
    }
    seen[start_slot] = true;
    found.push((start_x, start_y));
    queue.push_back((start_x, start_y));
    assert(queue@ =~= found@.skip(0));
    assert(found@ =~= seq![board.start_pos]);

    while queue.len() > 0
        invariant
            search_inv(*board, seen@, found@, done),
            0 <= done <= found@.len(),
            queue@ == found@.skip(done),
            width == board.width,
            height == board.height,
        decreases board.width * board.height - done,
    {
        proof {
            lemma_search_front(*board, seen@, found@, done);
        }
        let (cx, cy) = queue.pop_front().unwrap();
        assert(queue@ =~= found@.skip(done + 1));
        assert((cx, cy) == found@[done]);
        if let Some(curr_node) = board.get_node(cx, cy) {
            let ports = curr_node.ports();
            let mut k: usize = 0;
            while k < ports.len()
                invariant
                    search_inv(*board, seen@, found@, done),
                    0 <= done < found@.len(),
                    queue@ == found@.skip(done + 1),
                    width == board.width,
                    height == board.height,
                    (cx, cy) == found@[done],
                    k <= ports.len(),
                    *curr_node == board.node_at(cx as int, cy as int),
                    ports@ == curr_node.spec_ports(),
                    joints_seen(*board, seen@, as_cell((cx, cy)), ports@, k as int),
                decreases ports.len() - k,
            {
                let dir = ports[k];
                let ghost seen_before = seen@;
                proof {
                    lemma_search_front(*board, seen@, found@, done);
                    lemma_port_table_at(*board, cx as int, cy as int);
                    assert(ports@.contains(dir));
                }
                if let Some((nx, ny)) = neighbor_of(width, height, cx, cy, dir) {
                    proof {
                        lemma_port_table_at(*board, nx as int, ny as int);
                    }
                    if let Some(neighbor) = board.get_node(nx, ny) {
                        if neighbor.has_port(dir.opposite()) {
                            let slot = slot_of(width, height, nx, ny);
                            if !seen[slot] {
                                proof {
                                    lemma_connected_extend(
                                        board.width as int,
                                        board.height as int,
                                        board.port_table(),
                                        board.start_cell(),
                                        as_cell((cx, cy)),
                                        dir,
                                    );
                                    lemma_search_marks(*board, seen@, found@, done, (nx, ny));
                                }
                                seen[slot] = true;
                                found.push((nx, ny));
                                queue.push_back((nx, ny));
                                assert(queue@ =~= found@.skip(done + 1));
                            }
                        }
                    }
                }
                proof {
                    lemma_joints_seen_next(
                        *board,
                        seen_before,
                        seen@,
                        as_cell((cx, cy)),
                        ports@,
                        k as int,
                    );
                }
                k = k + 1;
            }
            proof {
                lemma_search_closes(*board, seen@, found@, done, ports@);
            }
        }
        proof {
            done = done + 1;
            lemma_search_front(*board, seen@, found@, done - 1);
        }
    }
    proof {
        assert(found@.skip(done).len() == 0);
        lemma_search_complete(*board, seen@, found@);
    }
    found
}

/// The energized cells depend on the size, the nodes and the start cell of
/// a board and on nothing else: two searches of boards that agree in these
/// list the same set of cells.
pub proof fn lemma_energized_by_state(
    a: Board,
    b: Board,
    found_a: Seq<(usize, usize)>,
    found_b: Seq<(usize, usize)>,
)
    requires
        a.width == b.width,
        a.height == b.height,
        a.nodes@ == b.nodes@,
        a.start_pos == b.start_pos,
        found_a.to_set() == a.energized(),
        found_b.to_set() == b.energized(),
    ensures
        a.energized() == b.energized(),
        found_a.to_set() == found_b.to_set(),
{
    assert(a.port_table() =~= b.port_table());
    assert(a.energized() =~= b.energized());
}

/// On a board of empty cells the flow stays in the start cell.
pub proof fn lemma_empty_board_energizes_start(board: Board)
    requires
        board.wf(),
        forall|i: int|
            0 <= i < board.nodes@.len() ==> (#[trigger] board.nodes@[i]).node_type
                == crate::model::NodeType::Empty,
    ensures
        board.energized() == set![board.start_pos],
{
    let w = board.width as int;
    let h = board.height as int;
    let t = board.port_table();
    assert forall|i: int| 0 <= i < w * h implies #[trigger] t[i] == crate::model::PortSet::none() by {
        crate::model::lemma_port_set_is_turned_base(board.nodes@[i]);
    }
    assert forall|c: (usize, usize)| board.energized().contains(c) == (c == board.start_pos) by {
        if board.reaches(as_cell(c)) {
            crate::graph::lemma_no_openings_no_walk(w, h, t, board.start_cell(), as_cell(c));
        }
        if c == board.start_pos {
            lemma_connected_self(w, h, t, board.start_cell());
        }
    }
    assert(board.energized() =~= set![board.start_pos]);
}

} // verus!
