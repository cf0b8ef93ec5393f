//! The board generator: a spanning tree grown by a random walk, the pipe
//! piece that realizes the joints of each cell, and the scrambler.
use crate::graph::{connected, in_grid, is_spanning_tree, lemma_tree_has_no_isolated_cell};
use crate::model::{
    lemma_port_set_is_turned_base, lists, Board, Direction, Node, NodeType, PortSet,
};
use crate::random::{entropy_rng, random_below};
use crate::walk::{lemma_grown_is_spanning_tree, spec_grown, TreeWalk, WalkState};
use rand::rngs::StdRng;
use vstd::prelude::*;

verus! {

/// The shape for a cell that is joined in the directions `dirs`: by their
/// number, and for two of them by whether they are opposite. Every cell
/// with a single joint is a `Source`, the end cell too.
pub open spec fn spec_shape_for(dirs: Seq<Direction>) -> NodeType {
    if dirs.len() == 1 {
        NodeType::Source
    } else if dirs.len() == 2 {
        if dirs[1] == dirs[0].reversed() {
            NodeType::Straight
        } else {
            NodeType::Elbow
        }
    } else if dirs.len() == 3 {
        NodeType::Tee
    } else if dirs.len() == 4 {
        NodeType::Cross
    } else {
        NodeType::Empty
    }
}

/// At this rotation the shape opens towards every direction of `required`.
pub open spec fn fits(node_type: NodeType, rotation: u8, required: Seq<Direction>) -> bool {
    forall|i: int|
        0 <= i < required.len() ==> (Node { node_type, rotation, fixed: false }).opens(
            #[trigger] required[i],
        )
}

/// The lowest rotation at which the shape fits, or 0 where none does.
pub open spec fn spec_find_rotation(node_type: NodeType, required: Seq<Direction>) -> u8 {
    if fits(node_type, 0, required) {
        0
    } else if fits(node_type, 1, required) {
        1
    } else if fits(node_type, 2, required) {
        2
    } else if fits(node_type, 3, required) {
        3
    } else {
        0
    }
}

/// The piece for a cell with the given joints.
pub open spec fn spec_resolve(links: PortSet) -> Node {
    let dirs = links.listed();
    let node_type = spec_shape_for(dirs);
    Node { node_type, rotation: spec_find_rotation(node_type, dirs), fixed: false }
}

/// The pieces for the cells of a grid with the given joints, row by row.
pub open spec fn spec_resolved(links: Seq<PortSet>) -> Seq<Node> {
    Seq::new(links.len(), |i: int| spec_resolve(links[i]))
}

/// The shape for a cell that is joined in the directions `dirs`.
pub fn shape_for(dirs: &[Direction]) -> (t: NodeType)
    ensures
        t == spec_shape_for(dirs@),
{
    match dirs.len() {
        1 => NodeType::Source,
        2 => {
            let d1 = dirs[0];
            let d2 = dirs[1];
            if d2 == d1.opposite() {
                NodeType::Straight
            } else {
                NodeType::Elbow
            }
        },
        3 => NodeType::Tee,
        4 => NodeType::Cross,
        _ => NodeType::Empty,
    }
}

/// The lowest rotation at which a piece of the given shape opens towards
/// every direction of `required_ports`; 0 where no rotation does.
pub fn find_rotation(node_type: NodeType, required_ports: &[Direction]) -> (r: u8)
    ensures
        r == spec_find_rotation(node_type, required_ports@),
        r < 4,
{
    let mut r: u8 = 0;
    while r < 4
        invariant
            r <= 4,
            forall|q: u8| q < r ==> !fits(node_type, q, required_ports@),
        decreases 4 - r,
    {
        let node = Node { node_type, rotation: r, fixed: false };
        let ports = node.ports();
        let mut all_match = true;
        let mut i: usize = 0;
        while i < required_ports.len()
            invariant
                i <= required_ports.len(),
                ports@ == node.spec_ports(),
                all_match == (forall|k: int|
                    0 <= k < i ==> node.opens(#[trigger] required_ports@[k])),
            decreases required_ports.len() - i,
        {
            if !lists(ports.as_slice(), required_ports[i]) {
                all_match = false;
            }
            i = i + 1;
        }
        if all_match {
            return r;
        }
        r = r + 1;
    }
    0
}

/// The shape by the joints of a cell, as a set.
pub open spec fn shape_of(links: PortSet) -> NodeType {
    if links.count() == 1 {
        NodeType::Source
    } else if links.count() == 2 {
        if (links.north && links.south) || (links.east && links.west) {
            NodeType::Straight
        } else {
            NodeType::Elbow
        }
    } else if links.count() == 3 {
        NodeType::Tee
    } else if links.count() == 4 {
        NodeType::Cross
    } else {
        NodeType::Empty
    }
}

/// The listed directions of a set are its members, as many as it counts.
pub proof fn lemma_listed(links: PortSet)
    ensures
        links.listed().len() == links.count(),
        forall|d: Direction| #[trigger] links.listed().contains(d) == links.has(d),
        spec_shape_for(links.listed()) == shape_of(links),
{
    let n = if links.north {
        seq![Direction::North]
    } else {
        Seq::<Direction>::empty()
    };
    let e = if links.east {
        seq![Direction::East]
    } else {
        Seq::<Direction>::empty()
    };
    let s = if links.south {
        seq![Direction::South]
    } else {
        Seq::<Direction>::empty()
    };
    let w = if links.west {
        seq![Direction::West]
    } else {
        Seq::<Direction>::empty()
    };
    let all = links.listed();
    assert(all == n + e + s + w);
    assert forall|d: Direction| #[trigger] all.contains(d) == links.has(d) by {
        if links.has(d) {
            let i: int = match d {
                Direction::North => 0,
                Direction::East => n.len() as int,
                Direction::South => (n.len() + e.len()) as int,
                Direction::West => (n.len() + e.len() + s.len()) as int,
            };
            assert(all[i] == d);
        }
        if all.contains(d) {
            let i = choose|i: int| 0 <= i < all.len() && all[i] == d;
            if i < n.len() {
                assert(n[i] == d);
            } else if i < n.len() + e.len() {
                assert(e[i - n.len()] == d);
            } else if i < n.len() + e.len() + s.len() {
                assert(s[i - n.len() - e.len()] == d);
            } else {
                assert(w[i - n.len() - e.len() - s.len()] == d);
            }
        }
    }
    if all.len() == 2 {
        let a: int = 0;
        let b: int = 1;
        if a < n.len() {
            assert(all[a] == Direction::North);
        } else if a < n.len() + e.len() {
            assert(all[a] == Direction::East);
        } else {
            assert(all[a] == Direction::South);
        }
        if b < n.len() + e.len() {
            assert(all[b] == Direction::East);
        } else if b < n.len() + e.len() + s.len() {
            assert(all[b] == Direction::South);
        } else {
            assert(all[b] == Direction::West);
        }
    }
}

/// A shape fits a set of joints at a rotation exactly when its openings at
/// that rotation cover the set.
pub proof fn lemma_fits_is_covers(node_type: NodeType, rotation: u8, links: PortSet)
    ensures
        fits(node_type, rotation, links.listed()) == node_type.base_set().turned(
            rotation as int,
        ).covers(links),
{
    let node = Node { node_type, rotation, fixed: false };
    let dirs = links.listed();
    lemma_listed(links);
    lemma_port_set_is_turned_base(node);
    if fits(node_type, rotation, dirs) {
        assert forall|d: Direction| links.has(d) implies node.port_set().has(d) by {
            assert(dirs.contains(d));
            let i = choose|i: int| 0 <= i < dirs.len() && dirs[i] == d;
            assert(node.opens(dirs[i]));
        }
        assert(links.has(Direction::North) ==> node.port_set().has(Direction::North));
        assert(links.has(Direction::East) ==> node.port_set().has(Direction::East));
        assert(links.has(Direction::South) ==> node.port_set().has(Direction::South));
        assert(links.has(Direction::West) ==> node.port_set().has(Direction::West));
    }
    if node.port_set().covers(links) {
        assert forall|i: int| 0 <= i < dirs.len() implies node.opens(#[trigger] dirs[i]) by {
            assert(dirs.contains(dirs[i]));
            assert(links.has(dirs[i]));
        }
    }
}

/// The piece chosen for a set of joints opens exactly in the directions of
/// the set: its shape has as many openings as there are joints, and its
/// rotation, which is below 4, is the lowest that brings them into place.
pub proof fn lemma_resolve_realizes(links: PortSet)
    ensures
        spec_resolve(links).port_set() == links,
        spec_resolve(links).node_type == shape_of(links),
        spec_resolve(links).wf(),
{
    let node = spec_resolve(links);
    let t = shape_of(links);
    lemma_listed(links);
    lemma_fits_is_covers(t, 0, links);
    lemma_fits_is_covers(t, 1, links);
    lemma_fits_is_covers(t, 2, links);
    lemma_fits_is_covers(t, 3, links);
    lemma_port_set_is_turned_base(node);
}

impl NodeType {
    /// The scrambler turns pieces of this shape: every shape but the empty
    /// one and the terminals.
    pub open spec fn scrambles(self) -> bool {
        !self.is_terminal() && self != NodeType::Empty
    }
}

impl Board {
    /// Every cell holds the piece that realizes its own openings: the shape
    /// by their number, at the lowest rotation that fits, free to turn.
    pub open spec fn pieces_resolved(self) -> bool {
        forall|i: int|
            0 <= i < self.nodes@.len() ==> #[trigger] self.nodes@[i] == spec_resolve(
                self.nodes@[i].port_set(),
            )
    }

    /// The board is in its solved state: the openings of its pieces form a
    /// spanning tree of the grid.
    pub open spec fn is_solved(self) -> bool {
        &&& self.wf()
        &&& self.pieces_resolved()
        &&& is_spanning_tree(self.width as int, self.height as int, self.port_table())
    }

    /// `self` is `before` after scrambling: only rotations differ, and only
    /// those of pieces that the scrambler turns, which are below 4.
    pub open spec fn is_scramble_of(self, before: Board) -> bool {
        &&& self.width == before.width
        &&& self.height == before.height
        &&& self.start_pos == before.start_pos
        &&& self.end_pos == before.end_pos
        &&& self.nodes@.len() == before.nodes@.len()
        &&& forall|i: int|
            0 <= i < self.nodes@.len() ==> {
                let a = #[trigger] self.nodes@[i];
                let b = before.nodes@[i];
                &&& a.node_type == b.node_type
                &&& a.fixed == b.fixed
                &&& if b.node_type.scrambles() {
                    a.rotation < 4
                } else {
                    a.rotation == b.rotation
                }
            }
    }
}

/// Number of pieces among `nodes` that the scrambler turns.
pub open spec fn spec_turned_count(nodes: Seq<Node>) -> nat
    decreases nodes.len(),
{
    if nodes.len() == 0 {
        0
    } else {
        spec_turned_count(nodes.drop_last()) + if nodes.last().node_type.scrambles() {
            1nat
        } else {
            0nat
        }
    }
}

/// The nodes after scrambling with the drawn rotations `turns`: the piece
/// that is the k-th, in row order and counted from 0, among those that the
/// scrambler turns gets the rotation `turns[k]`; nothing else changes.
pub open spec fn spec_scrambled(nodes: Seq<Node>, turns: Seq<u8>) -> Seq<Node> {
    Seq::new(
        nodes.len(),
        |i: int|
            if nodes[i].node_type.scrambles() {
                Node { rotation: turns[spec_turned_count(nodes.take(i)) as int], ..nodes[i] }
            } else {
                nodes[i]
            },
    )
}

impl Board {
    /// The board is the solved board that the walk grows with the given
    /// picks: its pieces realize the joints that the walk records.
    pub open spec fn is_grown_from(self, picks: Seq<usize>) -> bool {
        &&& self.wf()
        &&& spec_grown(self.width as int, self.height as int, picks) matches Some(links)
        &&& self.nodes@ == spec_resolved(links)
    }

    /// The board is the level made with the given draws: the solved board
    /// that the walk grows with `picks`, scrambled with `turns`.
    pub open spec fn is_level_from(self, picks: Seq<usize>, turns: Seq<u8>) -> bool {
        &&& self.wf()
        &&& spec_grown(self.width as int, self.height as int, picks) matches Some(links)
        &&& turns.len() == spec_turned_count(spec_resolved(links))
        &&& forall|k: int| 0 <= k < turns.len() ==> #[trigger] turns[k] < 4
        &&& self.nodes@ == spec_scrambled(spec_resolved(links), turns)
    }
}

/// A board that the walk grows is solved.
pub proof fn lemma_grown_board_is_solved(board: Board, picks: Seq<usize>)
    requires
        board.is_grown_from(picks),
    ensures
        board.is_solved(),
{
    let w = board.width as int;
    let h = board.height as int;
    let links = spec_grown(w, h, picks)->0;
    lemma_grown_is_spanning_tree(w, h, picks);
    assert forall|i: int| 0 <= i < board.nodes@.len() implies #[trigger] board.nodes@[i]
        == spec_resolve(board.nodes@[i].port_set()) by {
        lemma_resolve_realizes(links[i]);
    }
    assert forall|i: int| 0 <= i < links.len() implies board.port_table()[i] == links[i] by {
        lemma_resolve_realizes(links[i]);
    }
    assert(board.port_table() =~= links);
}

/// On a board of at least two rows and two columns that the walk grows,
/// the first pick decides the opening of the start cell: East for pick 0,
/// South for pick 1. Boards grown with picks that differ in the first one
/// differ in the start cell.
pub proof fn lemma_first_pick_decides_start_cell(board: Board, picks: Seq<usize>)
    requires
        board.is_grown_from(picks),
        board.width >= 2,
        board.height >= 2,
    ensures
        picks.len() > 0,
        picks[0] == 0 || picks[0] == 1,
        picks[0] == 0 ==> board.nodes@[0].spec_ports() == seq![Direction::East],
        picks[0] == 1 ==> board.nodes@[0].spec_ports() == seq![Direction::South],
{
    let w = board.width as int;
    let h = board.height as int;
    let links = spec_grown(w, h, picks)->0;
    crate::walk::lemma_first_pick_joins_start(w, h, picks);
    crate::model::lemma_index_in_range(w, h, 0, 0);
    let node = board.nodes@[0];
    assert(node == spec_resolve(links[0]));
    lemma_resolve_realizes(links[0]);
    lemma_port_set_is_turned_base(node);
    let ports = node.spec_ports();
    assert(ports.len() == 1);
    let d = if picks[0] == 0 {
        Direction::East
    } else {
        Direction::South
    };
    assert(node.opens(d));
    let k = choose|k: int| 0 <= k < ports.len() && ports[k] == d;
    assert(ports =~= seq![d]);
}

/// Generation is a function of the draws: two boards of one size that the
/// walk grows with the same picks are equal field by field.
pub proof fn lemma_same_picks_same_board(a: Board, b: Board, picks: Seq<usize>)
    requires
        a.width == b.width,
        a.height == b.height,
        a.is_grown_from(picks),
        b.is_grown_from(picks),
    ensures
        a.nodes@ == b.nodes@,
        a.start_pos == b.start_pos,
        a.end_pos == b.end_pos,
{
}

/// A level is a function of the draws: two levels of one size made with the
/// same picks and the same turns are equal field by field.
pub proof fn lemma_same_draws_same_level(a: Board, b: Board, picks: Seq<usize>, turns: Seq<u8>)
    requires
        a.width == b.width,
        a.height == b.height,
        a.is_level_from(picks, turns),
        b.is_level_from(picks, turns),
    ensures
        a.nodes@ == b.nodes@,
        a.start_pos == b.start_pos,
        a.end_pos == b.end_pos,
{
}

/// Scrambling is a function of the draws: two boards that are equal field
/// by field and are scrambled with the same turns are equal afterwards.
pub proof fn lemma_same_turns_same_scramble(
    before_a: Board,
    before_b: Board,
    after_a: Board,
    after_b: Board,
    turns: Seq<u8>,
)
    requires
        before_a.width == before_b.width,
        before_a.height == before_b.height,
        before_a.start_pos == before_b.start_pos,
        before_a.end_pos == before_b.end_pos,
        before_a.nodes@ == before_b.nodes@,
        after_a.is_scramble_of(before_a),
        after_b.is_scramble_of(before_b),
        after_a.nodes@ == spec_scrambled(before_a.nodes@, turns),
        after_b.nodes@ == spec_scrambled(before_b.nodes@, turns),
    ensures
        after_a.width == after_b.width,
        after_a.height == after_b.height,
        after_a.start_pos == after_b.start_pos,
        after_a.end_pos == after_b.end_pos,
        after_a.nodes@ == after_b.nodes@,
{
}

/// One more node adds one to the number of turned pieces if it is turned,
/// and a part of the nodes has no more turned pieces than all of them.
pub proof fn lemma_turned_count_prefix(nodes: Seq<Node>, i: int)
    requires
        0 <= i <= nodes.len(),
    ensures
        spec_turned_count(nodes.take(i)) <= spec_turned_count(nodes),
        spec_turned_count(nodes.take(i)) <= i,
        i < nodes.len() ==> spec_turned_count(nodes.take(i + 1)) == spec_turned_count(
            nodes.take(i),
        ) + if nodes[i].node_type.scrambles() {
            1nat
        } else {
            0nat
        },
    decreases nodes.len() - i,
{
    if i == nodes.len() {
        assert(nodes.take(i) =~= nodes);
        lemma_turned_count_bound(nodes);
    } else {
        assert(nodes.take(i + 1).drop_last() =~= nodes.take(i));
        assert(nodes.take(i + 1).last() == nodes[i]);
        lemma_turned_count_prefix(nodes, i + 1);
        lemma_turned_count_bound(nodes.take(i));
    }
}

/// No more pieces are turned than there are.
pub proof fn lemma_turned_count_bound(nodes: Seq<Node>)
    ensures
        spec_turned_count(nodes) <= nodes.len(),
    decreases nodes.len(),
{
    if nodes.len() > 0 {
        lemma_turned_count_bound(nodes.drop_last());
    }
}

/// Scrambling changes rotations only, and only those of the pieces that the
/// scrambler turns, each of which gets one of the drawn rotations.
pub proof fn lemma_scrambled_changes_rotations_only(nodes: Seq<Node>, turns: Seq<u8>, i: int)
    requires
        turns.len() == spec_turned_count(nodes),
        0 <= i < nodes.len(),
    ensures
        spec_scrambled(nodes, turns).len() == nodes.len(),
        spec_scrambled(nodes, turns)[i].node_type == nodes[i].node_type,
        spec_scrambled(nodes, turns)[i].fixed == nodes[i].fixed,
        !nodes[i].node_type.scrambles() ==> spec_scrambled(nodes, turns)[i] == nodes[i],
        nodes[i].node_type.scrambles() ==> 0 <= spec_turned_count(nodes.take(i)) < turns.len()
            && spec_scrambled(nodes, turns)[i].rotation == turns[spec_turned_count(
            nodes.take(i),
        ) as int],
{
    lemma_turned_count_prefix(nodes, i);
    lemma_turned_count_prefix(nodes, i + 1);
}

/// On a solved board the flow reaches every cell, the end cell among them.
pub proof fn lemma_solved_reaches_all(board: Board, c: (int, int))
    requires
        board.is_solved(),
        board.in_bounds(c.0, c.1),
    ensures
        board.reaches(c),
        board.reaches(board.end_cell()),
{
    let w = board.width as int;
    let h = board.height as int;
    assert(in_grid(w, h, c));
    assert(in_grid(w, h, board.end_cell()));
    assert(connected(w, h, board.port_table(), (0, 0), c));
    assert(connected(w, h, board.port_table(), (0, 0), board.end_cell()));
}

/// A solved board of more than one cell has no empty cell: every piece has
/// at least one opening.
pub proof fn lemma_solved_board_has_no_empty_cell(board: Board, i: int)
    requires
        board.is_solved(),
        board.width * board.height > 1,
        0 <= i < board.nodes@.len(),
    ensures
        board.nodes@[i].node_type != NodeType::Empty,
        board.nodes@[i].port_set().count() >= 1,
{
    let w = board.width as int;
    let h = board.height as int;
    let c = (i % w, i / w);
    assert(0 <= i % w < w && 0 <= i / w < h && (i / w) * w + i % w == i) by (nonlinear_arith)
        requires
            0 <= i < w * h,
            w >= 1,
    ;
    lemma_tree_has_no_isolated_cell(w, h, board.port_table(), c);
    lemma_resolve_realizes(board.nodes@[i].port_set());
}

/// A board is solvable by construction: whatever lists the energized cells
/// of a solved board lists its end cell.
pub proof fn lemma_solved_board_energizes_end(board: Board, found: Seq<(usize, usize)>)
    requires
        board.is_solved(),
        found.to_set() == board.energized(),
    ensures
        found.contains(board.end_pos),
{
    lemma_solved_reaches_all(board, board.end_cell());
    assert(board.energized().contains(board.end_pos));
    assert(found.to_set().contains(board.end_pos));
}

/// The piece for a cell with the given joints.
pub fn resolve_node(links: &PortSet) -> (node: Node)
    ensures
        node == spec_resolve(*links),
{
    let dirs = links.to_vec();
    let node_type = shape_for(dirs.as_slice());
    let rotation = find_rotation(node_type, dirs.as_slice());
    Node { node_type, rotation, fixed: false }
}

/// The board whose cells hold the pieces that realize the given joints.
pub fn board_from_links(width: usize, height: usize, links: &Vec<PortSet>) -> (board: Board)
    requires
        width >= 1,
        height >= 1,
        width * height <= usize::MAX,
        links@.len() == width * height,
    ensures
        board.wf(),
        board.width == width,
        board.height == height,
        board.nodes@.len() == links@.len(),
        board.nodes@ == spec_resolved(links@),
        board.port_table() == links@,
        board.pieces_resolved(),
{
    let mut board = Board::new(width, height);
    let mut y: usize = 0;
    while y < height
        invariant
            y <= height,
            board.wf(),
            board.width == width,
            board.height == height,
            links@.len() == width * height,
            forall|i: int| 0 <= i < board.nodes@.len() ==> !(#[trigger] board.nodes@[i]).fixed,
            forall|i: int| 0 <= i < y * width ==> #[trigger] board.nodes@[i] == spec_resolve(links@[i]),
        decreases height - y,
    {
        let mut x: usize = 0;
        while x < width
            invariant
                x <= width,
                y < height,
                board.wf(),
                board.width == width,
                board.height == height,
                links@.len() == width * height,
                forall|i: int| 0 <= i < board.nodes@.len() ==> !(#[trigger] board.nodes@[i]).fixed,
                forall|i: int|
                    0 <= i < y * width + x ==> #[trigger] board.nodes@[i] == spec_resolve(links@[i]),
            decreases width - x,
        {
            let slot = crate::graph::slot_of(width, height, x, y);
            let resolved = resolve_node(&links[slot]);
            proof {
                lemma_resolve_realizes(links@[slot as int]);
            }
            if let Some(node) = board.get_node_mut(x, y) {
                node.node_type = resolved.node_type;
                node.rotation = resolved.rotation;
            }
            x = x + 1;
        }
        proof {
            assert(y * width + width == (y + 1) * width) by (nonlinear_arith);
        }
        y = y + 1;
    }
    proof {
        assert(y * width == width * height) by (nonlinear_arith)
            requires
                y == height,
        ;
        assert forall|i: int| 0 <= i < board.nodes@.len() implies #[trigger] board.nodes@[i]
            == spec_resolve(board.nodes@[i].port_set()) by {
            lemma_resolve_realizes(links@[i]);
        }
        assert forall|i: int| 0 <= i < links@.len() implies board.port_table()[i] == links@[i] by {
            lemma_resolve_realizes(links@[i]);
        }
        assert(board.port_table() =~= links@);
        assert(board.nodes@ =~= spec_resolved(links@));
    }
    board
}

/// Grows a spanning tree of the grid by a depth-first walk that picks the
/// next cell at random among the unvisited neighbours of the cell on top of
/// its stack. Returns the joints of every cell, row by row.
///
/// Whatever the generator draws, the result is a spanning tree: the one
/// that the walk records for the picks that were drawn.
pub fn grow_tree(width: usize, height: usize, rng: &mut StdRng) -> (links: Vec<PortSet>)
    requires
        width >= 1,
        height >= 1,
        width * height <= usize::MAX,
    ensures
        is_spanning_tree(width as int, height as int, links@),
        exists|picks: Seq<usize>|
            #[trigger] spec_grown(width as int, height as int, picks) == Some(links@),
{
    let mut walk = TreeWalk::new(width, height);
    let ghost start = walk@;
    let ghost mut drawn: Seq<usize> = Seq::empty();
    proof {
        assert forall|rest: Seq<usize>| #[trigger]
            walk@.finished(rest) == start.finished(drawn + rest) by {
            assert(drawn + rest =~= rest);
        }
    }
    while walk.stack.len() > 0
        invariant
            walk@.wf(),
            walk.width == width,
            walk.height == height,
            start == WalkState::start(width as int, height as int),
            forall|rest: Seq<usize>| #[trigger]
                walk@.finished(rest) == start.finished(drawn + rest),
        decreases walk@.fresh_count(), walk@.stack.len(),
    {
        let ghost before = walk@;
        let ghost drawn_before = drawn;
        let options = walk.options();
        if options.len() == 0 {
            walk.retreat();
            proof {
                assert forall|rest: Seq<usize>| #[trigger]
                    walk@.finished(rest) == start.finished(drawn + rest) by {
                    assert(before.finished(rest) == walk@.finished(rest));
                }
            }
        } else {
            let pick = random_below(rng, options.len());
            walk.step(pick);
            proof {
                drawn = drawn_before.push(pick);
                assert forall|rest: Seq<usize>| #[trigger]
                    walk@.finished(rest) == start.finished(drawn + rest) by {
                    let longer = seq![pick] + rest;
                    assert(longer[0] == pick);
                    assert(longer.skip(1) =~= rest);
                    assert(drawn_before + longer =~= drawn + rest);
                    assert(before.finished(longer) == walk@.finished(rest));
                }
            }
        }
        proof {
            before.lemma_step_keeps_order(walk@);
        }
    }
    proof {
        let none = Seq::<usize>::empty();
        assert(drawn + none =~= drawn);
        assert(walk@.finished(none) == Some(walk@.links));
        assert(spec_grown(width as int, height as int, drawn) == Some(walk@.links));
    }
    walk.into_links()
}

/// Grows the spanning tree that the walk records for the given picks: each
/// time the cell on top of the stack has unvisited neighbours, the next
/// pick says which of them, counted clockwise from North and from 0, is
/// joined. `None` where a pick is not below the number of such neighbours,
/// or where picks are missing or left over.
pub fn grow_tree_by(width: usize, height: usize, picks: &[usize]) -> (r: Option<Vec<PortSet>>)
    requires
        width >= 1,
        height >= 1,
        width * height <= usize::MAX,
    ensures
        match r {
            Some(links) => spec_grown(width as int, height as int, picks@) == Some(links@),
            None => spec_grown(width as int, height as int, picks@) is None,
        },
{
    let mut walk = TreeWalk::new(width, height);
    let mut used: usize = 0;
    assert(picks@.skip(0) =~= picks@);
    while walk.stack.len() > 0
        invariant
            walk@.wf(),
            walk.width == width,
            walk.height == height,
            used <= picks@.len(),
            spec_grown(width as int, height as int, picks@) == walk@.finished(picks@.skip(used as int)),
        decreases walk@.fresh_count(), walk@.stack.len(),
    {
        let ghost before = walk@;
        let ghost rest = picks@.skip(used as int);
        let options = walk.options();
        if options.len() == 0 {
            walk.retreat();
        } else {
            if used >= picks.len() {
                return None;
            }
            let pick = picks[used];
            assert(rest[0] == pick);
            if pick >= options.len() {
                return None;
            }
            walk.step(pick);
            used = used + 1;
            assert(rest.skip(1) =~= picks@.skip(used as int));
        }
        proof {
            before.lemma_step_keeps_order(walk@);
        }
    }
    if used != picks.len() {
        return None;
    }
    assert(picks@.skip(used as int).len() == 0);
    Some(walk.into_links())
}

/// The solved board that the walk grows with the given picks, or `None`
/// where the picks do not fit the walk.
pub fn generate_solved_board_by(width: usize, height: usize, picks: &[usize]) -> (r: Option<Board>)
    requires
        width >= 1,
        height >= 1,
        width * height <= usize::MAX,
    ensures
        match r {
            Some(board) => board.width == width && board.height == height && board.is_grown_from(
                picks@,
            ) && board.is_solved(),
            None => spec_grown(width as int, height as int, picks@) is None,
        },
{
    match grow_tree_by(width, height, picks) {
        Some(links) => {
            proof {
                lemma_grown_is_spanning_tree(width as int, height as int, picks@);
            }
            let board = board_from_links(width, height, &links);
            proof {
                lemma_grown_board_is_solved(board, picks@);
            }
            Some(board)
        },
        None => None,
    }
}

/// A solved board of the given size, made with the given generator.
///
/// The joints of a random spanning tree decide the piece of each cell, so
/// that the flow reaches every cell, the end cell among them. No piece is
/// fixed. A cell with a single joint is a `Source`, whether it is the start
/// cell, the end cell or any other. The board is the one that the walk
/// grows for the picks that were drawn.
pub fn generate_solved_board_with(width: usize, height: usize, rng: &mut StdRng) -> (board: Board)
    requires
        width >= 1,
        height >= 1,
        width * height <= usize::MAX,
    ensures
        board.width == width,
        board.height == height,
        board.is_solved(),
        board.reaches(board.end_cell()),
        exists|picks: Seq<usize>| #[trigger] board.is_grown_from(picks),
{
    let links = grow_tree(width, height, rng);
    let board = board_from_links(width, height, &links);
    proof {
        let picks = choose|picks: Seq<usize>|
            #[trigger] spec_grown(width as int, height as int, picks) == Some(links@);
        assert(board.is_grown_from(picks));
        lemma_solved_reaches_all(board, board.end_cell());
    }
    board
}

/// A solved board of the given size, made with a generator that the
/// operating system seeds.
pub fn generate_solved_board(width: usize, height: usize) -> (board: Board)
    requires
        width >= 1,
        height >= 1,
        width * height <= usize::MAX,
    ensures
        board.width == width,
        board.height == height,
        board.is_solved(),
        board.reaches(board.end_cell()),
        exists|picks: Seq<usize>| #[trigger] board.is_grown_from(picks),
{
    let mut rng = entropy_rng();
    generate_solved_board_with(width, height, &mut rng)
}

/// Whether the scrambler turns pieces of this shape.
pub fn is_scrambled_shape(node_type: NodeType) -> (b: bool)
    ensures
        b == node_type.scrambles(),
{
    node_type != NodeType::Source && node_type != NodeType::Target && node_type != NodeType::Empty
}

/// Number of pieces of the board that the scrambler turns.
pub fn turned_count(board: &Board) -> (n: usize)
    ensures
        n == spec_turned_count(board.nodes@),
{
    let mut n: usize = 0;
    let mut i: usize = 0;
    proof {
        lemma_turned_count_prefix(board.nodes@, 0);
        assert(board.nodes@.take(0) =~= Seq::<Node>::empty());
    }
    while i < board.nodes.len()
        invariant
            i <= board.nodes@.len(),
            n == spec_turned_count(board.nodes@.take(i as int)),
            n <= i,
        decreases board.nodes@.len() - i,
    {
        proof {
            lemma_turned_count_prefix(board.nodes@, i as int);
        }
        if is_scrambled_shape(board.nodes[i].node_type) {
            n = n + 1;
        }
        i = i + 1;
    }
    assert(board.nodes@.take(i as int) =~= board.nodes@);
    n
}

/// Scrambles the board with the given rotations: the pieces that are
/// neither empty nor terminals get them, one each, in row order. Shapes,
/// the `fixed` flags and the rotations of the other pieces stay as they are.
pub fn scramble_board_by(board: &mut Board, turns: &[u8])
    requires
        turns@.len() == spec_turned_count(old(board).nodes@),
        forall|k: int| 0 <= k < turns@.len() ==> turns@[k] < 4,
    ensures
        final(board).width == old(board).width,
        final(board).height == old(board).height,
        final(board).start_pos == old(board).start_pos,
        final(board).end_pos == old(board).end_pos,
        final(board).nodes@ == spec_scrambled(old(board).nodes@, turns@),
        final(board).is_scramble_of(*old(board)),
        old(board).wf() ==> final(board).wf(),
{
    let ghost before = board.nodes@;
    let mut i: usize = 0;
    let mut k: usize = 0;
    proof {
        assert(before.take(0) =~= Seq::<Node>::empty());
    }
    while i < board.nodes.len()
        invariant
            i <= board.nodes@.len(),
            before == old(board).nodes@,
            turns@.len() == spec_turned_count(before),
            k == spec_turned_count(before.take(i as int)),
            board.width == old(board).width,
            board.height == old(board).height,
            board.start_pos == old(board).start_pos,
            board.end_pos == old(board).end_pos,
            board.nodes@.len() == before.len(),
            forall|j: int| 0 <= j < i ==> board.nodes@[j] == spec_scrambled(before, turns@)[j],
            forall|j: int| i <= j < board.nodes@.len() ==> board.nodes@[j] == before[j],
        decreases board.nodes@.len() - i,
    {
        proof {
            lemma_turned_count_prefix(before, i as int);
            lemma_turned_count_prefix(before, i as int + 1);
        }
        if is_scrambled_shape(board.nodes[i].node_type) {
            board.nodes[i].rotation = turns[k];
            k = k + 1;
        }
        i = i + 1;
    }
    proof {
        assert(board.nodes@ =~= spec_scrambled(before, turns@));
        assert forall|j: int| 0 <= j < board.nodes@.len() implies {
            let a = #[trigger] board.nodes@[j];
            let b = before[j];
            &&& a.node_type == b.node_type
            &&& a.fixed == b.fixed
            &&& if b.node_type.scrambles() {
                a.rotation < 4
            } else {
                a.rotation == b.rotation
            }
        } by {
            lemma_scrambled_changes_rotations_only(before, turns@, j);
        }
    }
}

/// Gives every piece that is neither empty nor a terminal a rotation drawn
/// from the given generator: one draw from 0 to 3 for each such piece, in
/// row order. Shapes, the `fixed` flags and the rotations of the other
/// pieces stay as they are.
pub fn scramble_board_with(board: &mut Board, rng: &mut StdRng)
    ensures
        final(board).is_scramble_of(*old(board)),
        old(board).wf() ==> final(board).wf(),
        exists|turns: Seq<u8>|
            turns.len() == spec_turned_count(old(board).nodes@) && (forall|k: int|
                0 <= k < turns.len() ==> #[trigger] turns[k] < 4) && final(board).nodes@
                == #[trigger] spec_scrambled(old(board).nodes@, turns),
{
    let count = turned_count(board);
    let mut turns: Vec<u8> = Vec::new();
    while turns.len() < count
        invariant
            turns@.len() <= count,
            forall|k: int| 0 <= k < turns@.len() ==> turns@[k] < 4,
        decreases count - turns@.len(),
    {
        let turn = random_below(rng, 4);
        turns.push(turn as u8);
    }
    scramble_board_by(board, turns.as_slice());
    assert(board.nodes@ == spec_scrambled(old(board).nodes@, turns@));
}

/// Scrambles the board with a generator that the operating system seeds.
pub fn scramble_board(board: &mut Board)
    ensures
        final(board).is_scramble_of(*old(board)),
        old(board).wf() ==> final(board).wf(),
        exists|turns: Seq<u8>|
            turns.len() == spec_turned_count(old(board).nodes@) && (forall|k: int|
                0 <= k < turns.len() ==> #[trigger] turns[k] < 4) && final(board).nodes@
                == #[trigger] spec_scrambled(old(board).nodes@, turns),
{
    let mut rng = entropy_rng();
    scramble_board_with(board, &mut rng);
}

/// A new puzzle of the given size, made with the given generator: a solved
/// board, scrambled. The draws for the board come first, then those for
/// the scrambling.
pub fn generate_level_with(width: usize, height: usize, rng: &mut StdRng) -> (board: Board)
    requires
        width >= 1,
        height >= 1,
        width * height <= usize::MAX,
    ensures
        board.width == width,
        board.height == height,
        exists|picks: Seq<usize>, turns: Seq<u8>| #[trigger] board.is_level_from(picks, turns),
{
    let mut board = generate_solved_board_with(width, height, rng);
    let ghost solved = board;
    scramble_board_with(&mut board, rng);
    proof {
        let picks = choose|picks: Seq<usize>| #[trigger] solved.is_grown_from(picks);
        let turns = choose|turns: Seq<u8>|
            turns.len() == spec_turned_count(solved.nodes@) && (forall|k: int|
                0 <= k < turns.len() ==> #[trigger] turns[k] < 4) && board.nodes@
                == #[trigger] spec_scrambled(solved.nodes@, turns);
        assert(board.is_level_from(picks, turns));
    }
    board
}

/// The level made with the given draws: the solved board that the walk
/// grows with `picks`, scrambled with `turns`. `None` where the picks do
/// not fit the walk, where there is not one turn for each piece that the
/// scrambler turns, or where a turn is above 3.
pub fn generate_level_by(width: usize, height: usize, picks: &[usize], turns: &[u8]) -> (r: Option<
    Board,
>)
    requires
        width >= 1,
        height >= 1,
        width * height <= usize::MAX,
    ensures
        match r {
            Some(board) => board.width == width && board.height == height && board.is_level_from(
                picks@,
                turns@,
            ),
            None => forall|board: Board|
                board.width == width && board.height == height ==> !#[trigger] board.is_level_from(
                    picks@,
                    turns@,
                ),
        },
{
    match generate_solved_board_by(width, height, picks) {
        None => None,
        Some(solved) => {
            let mut board = solved;
            if turns.len() != turned_count(&board) {
                return None;
            }
            let mut k: usize = 0;
            while k < turns.len()
                invariant
                    k <= turns@.len(),
                    forall|j: int| 0 <= j < k ==> turns@[j] < 4,
                decreases turns@.len() - k,
            {
                if turns[k] >= 4 {
                    return None;
                }
                k = k + 1;
            }
            scramble_board_by(&mut board, turns);
            Some(board)
        },
    }
}

} // verus!
