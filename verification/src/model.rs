use vstd::prelude::*;

verus! {

/// The fixed topology of a pipe piece.
///
/// `Source` and `Target` are the two terminal shapes. Both have a single
/// opening and behave alike; which cell is the start and which the end of a
/// board is told by the board's coordinates, never by the shape.
#[derive(Clone, Copy, Debug, PartialEq, Eq, Structural)]
pub enum NodeType {
    Empty,
    Source,
    Target,
    Straight,
    Elbow,
    Tee,
    Cross,
}

/// A compass direction; the variants are listed in clockwise order.
#[derive(Clone, Copy, Debug, PartialEq, Eq, Structural)]
pub enum Direction {
    North,
    East,
    South,
    West,
}

impl Direction {
    /// Position of the direction in clockwise order, starting from North.
    pub open spec fn ordinal(self) -> int {
        match self {
            Direction::North => 0,
            Direction::East => 1,
            Direction::South => 2,
            Direction::West => 3,
        }
    }

    /// The direction at position `i mod 4` of the clockwise order.
    pub open spec fn from_ordinal(i: int) -> Direction {
        let k = i % 4;
        if k == 0 {
            Direction::North
        } else if k == 1 {
            Direction::East
        } else if k == 2 {
            Direction::South
        } else {
            Direction::West
        }
    }

    /// The direction reached after `steps` clockwise quarter turns; a negative
    /// `steps` turns counter-clockwise.
    pub open spec fn turned(self, steps: int) -> Direction {
        Direction::from_ordinal(self.ordinal() + steps)
    }

    /// The direction that points the other way.
    pub open spec fn reversed(self) -> Direction {
        self.turned(2)
    }

    /// Change of the (x, y) coordinate made by one step in this direction.
    /// The y axis grows southwards.
    pub open spec fn delta(self) -> (int, int) {
        match self {
            Direction::North => (0, -1),
            Direction::East => (1, 0),
            Direction::South => (0, 1),
            Direction::West => (-1, 0),
        }
    }

    /// Turns the direction clockwise by `steps` quarter turns.
    pub fn rotate(self, steps: u8) -> (r: Direction)
        ensures
            r == self.turned(steps as int),
    {
        let val: u8 = match self {
            Direction::North => 0,
            Direction::East => 1,
            Direction::South => 2,
            Direction::West => 3,
        };
        match (val + steps % 4) % 4 {
            0 => Direction::North,
            1 => Direction::East,
            2 => Direction::South,
            _ => Direction::West,
        }
    }

    /// The direction that points the other way: two quarter turns on.
    pub fn opposite(self) -> (r: Direction)
        ensures
            r == self.reversed(),
    {
        self.rotate(2)
    }

    /// Change of the (x, y) coordinate made by one step in this direction.
    pub fn to_delta(self) -> (r: (isize, isize))
        ensures
            r.0 == self.delta().0,
            r.1 == self.delta().1,
    {
        match self {
            Direction::North => (0, -1),
            Direction::East => (1, 0),
            Direction::South => (0, 1),
            Direction::West => (-1, 0),
        }
    }
}

/// Whether `d` occurs in `dirs`.
pub fn lists(dirs: &[Direction], d: Direction) -> (b: bool)
    ensures
        b == dirs@.contains(d),
{
    let mut i: usize = 0;
    while i < dirs.len()
        invariant
            i <= dirs.len(),
            forall|k: int| 0 <= k < i ==> dirs@[k] != d,
        decreases dirs.len() - i,
    {
        if dirs[i] == d {
            return true;
        }
        i = i + 1;
    }
    false
}

/// A set of compass directions: the openings of a pipe piece, or the
/// directions in which a cell is joined to its neighbours.
#[derive(Clone, Copy, Debug, PartialEq, Eq, Structural)]
pub struct PortSet {
    pub north: bool,
    pub east: bool,
    pub south: bool,
    pub west: bool,
}

impl PortSet {
    /// The direction `d` is in the set.
    pub open spec fn has(self, d: Direction) -> bool {
        match d {
            Direction::North => self.north,
            Direction::East => self.east,
            Direction::South => self.south,
            Direction::West => self.west,
        }
    }

    /// The set without directions.
    pub open spec fn none() -> PortSet {
        PortSet { north: false, east: false, south: false, west: false }
    }

    /// The set with `d` added.
    pub open spec fn with(self, d: Direction) -> PortSet {
        match d {
            Direction::North => PortSet { north: true, ..self },
            Direction::East => PortSet { east: true, ..self },
            Direction::South => PortSet { south: true, ..self },
            Direction::West => PortSet { west: true, ..self },
        }
    }

    /// Number of directions in the set.
    pub open spec fn count(self) -> nat {
        let n: nat = if self.north { 1 } else { 0 };
        let e: nat = if self.east { 1 } else { 0 };
        let s: nat = if self.south { 1 } else { 0 };
        let w: nat = if self.west { 1 } else { 0 };
        n + e + s + w
    }

    /// Every direction of `other` is in this set.
    pub open spec fn covers(self, other: PortSet) -> bool {
        &&& other.north ==> self.north
        &&& other.east ==> self.east
        &&& other.south ==> self.south
        &&& other.west ==> self.west
    }

    /// The set with every direction turned clockwise by `steps` quarter turns.
    pub open spec fn turned(self, steps: int) -> PortSet {
        PortSet {
            north: self.has(Direction::North.turned(-steps)),
            east: self.has(Direction::East.turned(-steps)),
            south: self.has(Direction::South.turned(-steps)),
            west: self.has(Direction::West.turned(-steps)),
        }
    }

    /// The directions that occur in `dirs`.
    pub open spec fn of(dirs: Seq<Direction>) -> PortSet {
        PortSet {
            north: dirs.contains(Direction::North),
            east: dirs.contains(Direction::East),
            south: dirs.contains(Direction::South),
            west: dirs.contains(Direction::West),
        }
    }

    /// The directions of the set in clockwise order, starting from North.
    pub open spec fn listed(self) -> Seq<Direction> {
        let n = if self.north { seq![Direction::North] } else { Seq::<Direction>::empty() };
        let e = if self.east { seq![Direction::East] } else { Seq::<Direction>::empty() };
        let s = if self.south { seq![Direction::South] } else { Seq::<Direction>::empty() };
        let w = if self.west { seq![Direction::West] } else { Seq::<Direction>::empty() };
        n + e + s + w
    }

    /// The set without directions.
    pub fn empty() -> (r: PortSet)
        ensures
            r == PortSet::none(),
    {
        PortSet { north: false, east: false, south: false, west: false }
    }

    /// Whether the direction `d` is in the set.
    pub fn contains(&self, d: Direction) -> (r: bool)
        ensures
            r == self.has(d),
    {
        match d {
            Direction::North => self.north,
            Direction::East => self.east,
            Direction::South => self.south,
            Direction::West => self.west,
        }
    }

    /// Adds the direction `d` to the set.
    pub fn insert(&mut self, d: Direction)
        ensures
            *final(self) == old(self).with(d),
    {
        match d {
            Direction::North => {
                self.north = true;
            },
            Direction::East => {
                self.east = true;
            },
            Direction::South => {
                self.south = true;
            },
            Direction::West => {
                self.west = true;
            },
        }
    }

    /// Number of directions in the set.
    pub fn len(&self) -> (r: usize)
        ensures
            r == self.count(),
    {
        let mut n: usize = 0;
        if self.north {
            n = n + 1;
        }
        if self.east {
            n = n + 1;
        }
        if self.south {
            n = n + 1;
        }
        if self.west {
            n = n + 1;
        }
        n
    }

    /// The directions of the set, in clockwise order from North.
    pub fn to_vec(&self) -> (r: Vec<Direction>)
        ensures
            r@ == self.listed(),
    {
        let mut r: Vec<Direction> = Vec::new();
        if self.north {
            r.push(Direction::North);
        }
        if self.east {
            r.push(Direction::East);
        }
        if self.south {
            r.push(Direction::South);
        }
        if self.west {
            r.push(Direction::West);
        }
        r
    }
}

impl NodeType {
    /// The openings of the shape at rotation 0.
    pub open spec fn base_ports(self) -> Seq<Direction> {
        match self {
            NodeType::Empty => Seq::<Direction>::empty(),
            NodeType::Source | NodeType::Target => seq![Direction::South],
            NodeType::Straight => seq![Direction::North, Direction::South],
            NodeType::Elbow => seq![Direction::North, Direction::East],
            NodeType::Tee => seq![Direction::East, Direction::South, Direction::West],
            NodeType::Cross => seq![
                Direction::North,
                Direction::East,
                Direction::South,
                Direction::West,
            ],
        }
    }

    /// The openings of the shape at rotation 0, as a set.
    pub open spec fn base_set(self) -> PortSet {
        match self {
            NodeType::Empty => PortSet::none(),
            NodeType::Source | NodeType::Target => PortSet {
                north: false,
                east: false,
                south: true,
                west: false,
            },
            NodeType::Straight => PortSet { north: true, east: false, south: true, west: false },
            NodeType::Elbow => PortSet { north: true, east: true, south: false, west: false },
            NodeType::Tee => PortSet { north: false, east: true, south: true, west: true },
            NodeType::Cross => PortSet { north: true, east: true, south: true, west: true },
        }
    }

    /// The shape is one of the two terminals, which have a single opening.
    pub open spec fn is_terminal(self) -> bool {
        self == NodeType::Source || self == NodeType::Target
    }
}

/// One cell of the board: a pipe piece, its rotation in clockwise quarter
/// turns, and whether the player may turn it.
#[derive(Clone, Copy, Debug, PartialEq, Eq, Structural)]
pub struct Node {
    pub node_type: NodeType,
    pub rotation: u8,
    pub fixed: bool,
}

impl Node {
    /// A stored rotation is one of 0, 1, 2, 3.
    pub open spec fn wf(self) -> bool {
        self.rotation < 4
    }

    /// The effective openings: the base openings of the shape, each turned
    /// clockwise by the rotation, in the order of the base openings.
    pub open spec fn spec_ports(self) -> Seq<Direction> {
        let base = self.node_type.base_ports();
        Seq::new(base.len(), |i: int| base[i].turned(self.rotation as int))
    }

    /// The effective openings as a set.
    pub open spec fn port_set(self) -> PortSet {
        PortSet::of(self.spec_ports())
    }

    /// The node opens towards `d`.
    pub open spec fn opens(self, d: Direction) -> bool {
        self.spec_ports().contains(d)
    }

    /// A piece of the given shape, not rotated and free to turn.
    pub fn new(node_type: NodeType) -> (n: Node)
        ensures
            n == (Node { node_type, rotation: 0, fixed: false }),
    {
        Node { node_type, rotation: 0, fixed: false }
    }

    /// Whether the node opens towards `d`.
    pub fn has_port(&self, d: Direction) -> (b: bool)
        ensures
            b == self.opens(d),
    {
        let ports = self.ports();
        lists(ports.as_slice(), d)
    }

    /// The effective openings of the node.
    pub fn ports(&self) -> (r: Vec<Direction>)
        ensures
            r@ == self.spec_ports(),
    {
        let base_ports: Vec<Direction> = match self.node_type {
            NodeType::Empty => Vec::new(),
            NodeType::Source | NodeType::Target => vec![Direction::South],
            NodeType::Straight => vec![Direction::North, Direction::South],
            NodeType::Elbow => vec![Direction::North, Direction::East],
            NodeType::Tee => vec![Direction::East, Direction::South, Direction::West],
            NodeType::Cross => vec![
                Direction::North,
                Direction::East,
                Direction::South,
                Direction::West,
            ],
        };
        assert(base_ports@ =~= self.node_type.base_ports());
        let mut r: Vec<Direction> = Vec::new();
        let mut i: usize = 0;
        while i < base_ports.len()
            invariant
                i <= base_ports.len(),
                base_ports@ == self.node_type.base_ports(),
                r@.len() == i,
                forall|k: int| 0 <= k < i ==> r@[k] == base_ports@[k].turned(self.rotation as int),
            decreases base_ports.len() - i,
        {
            r.push(base_ports[i].rotate(self.rotation));
            i = i + 1;
        }
        assert(r@ =~= self.spec_ports());
        r
    }
}

/// Turning by `steps` and turning back are inverse to each other.
pub proof fn lemma_turn_back(d: Direction, steps: int)
    ensures
        d.turned(steps).turned(-steps) == d,
        d.turned(-steps).turned(steps) == d,
        d.turned(0) == d,
        d.turned(steps + 4) == d.turned(steps),
{
    let k = steps % 4;
    assert(0 <= k < 4);
    assert((-steps) % 4 == (4 - k) % 4) by (nonlinear_arith)
        requires
            k == steps % 4,
    ;
    assert((d.ordinal() + steps) % 4 == (d.ordinal() + k) % 4) by (nonlinear_arith)
        requires
            k == steps % 4,
    ;
    assert((d.ordinal() - steps) % 4 == (d.ordinal() + (4 - k)) % 4) by (nonlinear_arith)
        requires
            k == steps % 4,
    ;
    assert((d.ordinal() + steps + 4) % 4 == (d.ordinal() + k) % 4) by (nonlinear_arith)
        requires
            k == steps % 4,
    ;
    let a = d.turned(steps);
    let b = d.turned(-steps);
    assert((a.ordinal() - steps) % 4 == (a.ordinal() + (4 - k)) % 4) by (nonlinear_arith)
        requires
            k == steps % 4,
    ;
    assert((b.ordinal() + steps) % 4 == (b.ordinal() + k) % 4) by (nonlinear_arith)
        requires
            k == steps % 4,
    ;
}

/// The base openings of a shape, listed or as a set, are the same directions.
pub proof fn lemma_base_set_lists_base_ports(t: NodeType)
    ensures
        forall|d: Direction| #[trigger] t.base_ports().contains(d) == t.base_set().has(d),
{
    let base = t.base_ports();
    assert forall|d: Direction| #[trigger] base.contains(d) == t.base_set().has(d) by {
        if t.base_set().has(d) {
            let k: int = match t {
                NodeType::Empty => 0,
                NodeType::Source | NodeType::Target => 0,
                NodeType::Straight => if d == Direction::North {
                    0
                } else {
                    1
                },
                NodeType::Elbow => if d == Direction::North {
                    0
                } else {
                    1
                },
                NodeType::Tee => if d == Direction::East {
                    0
                } else if d == Direction::South {
                    1
                } else {
                    2
                },
                NodeType::Cross => d.ordinal(),
            };
            assert(0 <= k < base.len() && base[k] == d);
        }
        if base.contains(d) {
            let k = choose|k: int| 0 <= k < base.len() && base[k] == d;
            assert(t.base_set().has(base[k]));
        }
    }
}

/// Every opening of a node is a base opening of its shape turned by the
/// rotation, and the other way round.
pub proof fn lemma_port_set_is_turned_base(n: Node)
    ensures
        n.port_set() == n.node_type.base_set().turned(n.rotation as int),
        forall|d: Direction| n.opens(d) == #[trigger] n.port_set().has(d),
{
    let base = n.node_type.base_ports();
    let ports = n.spec_ports();
    let r = n.rotation as int;
    lemma_base_set_lists_base_ports(n.node_type);
    assert forall|d: Direction| #[trigger]
        ports.contains(d) == n.node_type.base_set().has(d.turned(-r)) by {
        lemma_turn_back(d, r);
        let b = d.turned(-r);
        if n.node_type.base_set().has(b) {
            assert(base.contains(b));
            let k = choose|k: int| 0 <= k < base.len() && base[k] == b;
            assert(ports[k] == d);
        }
        if ports.contains(d) {
            let k = choose|k: int| 0 <= k < ports.len() && ports[k] == d;
            lemma_turn_back(base[k], r);
            assert(base[k] == b);
            assert(base.contains(base[k]));
        }
    }
    assert(ports.contains(Direction::North) == n.port_set().has(Direction::North));
    assert(ports.contains(Direction::East) == n.port_set().has(Direction::East));
    assert(ports.contains(Direction::South) == n.port_set().has(Direction::South));
    assert(ports.contains(Direction::West) == n.port_set().has(Direction::West));
}

/// The openings of a node are its openings at rotation 0, each turned
/// clockwise by the rotation: in the list, place by place, and as a set.
pub proof fn lemma_rotation_turns_openings(n: Node)
    ensures
        n.spec_ports() == (Node { rotation: 0, ..n }).spec_ports().map_values(
            |d: Direction| d.turned(n.rotation as int),
        ),
        n.port_set() == (Node { rotation: 0, ..n }).port_set().turned(n.rotation as int),
        (Node { rotation: 0, ..n }).spec_ports() == n.node_type.base_ports(),
{
    let at0 = Node { rotation: 0, ..n };
    let base = n.node_type.base_ports();
    assert forall|i: int| 0 <= i < base.len() implies at0.spec_ports()[i] == base[i] by {
        lemma_turn_back(base[i], 0);
    }
    assert(at0.spec_ports() =~= base);
    assert(n.spec_ports() =~= at0.spec_ports().map_values(
        |d: Direction| d.turned(n.rotation as int),
    ));
    lemma_port_set_is_turned_base(n);
    lemma_port_set_is_turned_base(at0);
    let s = n.node_type.base_set();
    assert(s.turned(0) == s) by {
        lemma_turn_back(Direction::North, 0);
        lemma_turn_back(Direction::East, 0);
        lemma_turn_back(Direction::South, 0);
        lemma_turn_back(Direction::West, 0);
    }
}

/// Four quarter turns are no turn: nodes of one shape whose rotations differ
/// by a multiple of four have the same openings.
pub proof fn lemma_full_turn_is_identity(a: Node, b: Node)
    requires
        a.node_type == b.node_type,
        a.rotation % 4 == b.rotation % 4,
    ensures
        a.spec_ports() == b.spec_ports(),
        a.port_set() == b.port_set(),
{
    let base = a.node_type.base_ports();
    assert forall|i: int| 0 <= i < base.len() implies a.spec_ports()[i] == b.spec_ports()[i] by {
        let o = base[i].ordinal();
        let x = a.rotation as int;
        let y = b.rotation as int;
        assert((o + x) % 4 == (o + y) % 4) by (nonlinear_arith)
            requires
                x % 4 == y % 4,
        ;
    }
    assert(a.spec_ports() =~= b.spec_ports());
}

/// Why a set of parts is not a board.
#[derive(Clone, Copy, Debug, PartialEq, Eq, Structural)]
pub enum BoardError {
    /// The width or the height is zero.
    EmptyGrid,
    /// The number of nodes is not width times height.
    NodeCount,
    /// A node has a rotation above 3.
    Rotation,
    /// The start is not the top-left cell, or the end is not the bottom-right cell.
    Endpoints,
}

/// A rectangular grid of pipe pieces, stored row by row, with the cell the
/// flow starts from and the cell it has to reach.
#[derive(Debug)]
pub struct Board {
    pub width: usize,
    pub height: usize,
    pub nodes: Vec<Node>,
    pub start_pos: (usize, usize),
    pub end_pos: (usize, usize),
}

impl Clone for Board {
    fn clone(&self) -> (b: Board)
        ensures
            b.width == self.width,
            b.height == self.height,
            b.nodes@ == self.nodes@,
            b.start_pos == self.start_pos,
            b.end_pos == self.end_pos,
    {
        let nodes = self.nodes.clone();
        assert(nodes@ =~= self.nodes@);
        Board {
            width: self.width,
            height: self.height,
            nodes,
            start_pos: (self.start_pos.0, self.start_pos.1),
            end_pos: (self.end_pos.0, self.end_pos.1),
        }
    }
}

impl Board {
    /// The grid has at least one cell, `nodes` holds one valid node for each
    /// cell, the start is the top-left cell and the end the bottom-right cell.
    pub open spec fn wf(self) -> bool {
        &&& self.width >= 1
        &&& self.height >= 1
        &&& self.width * self.height <= usize::MAX
        &&& self.nodes@.len() == self.width * self.height
        &&& forall|i: int| 0 <= i < self.nodes@.len() ==> (#[trigger] self.nodes@[i]).wf()
        &&& self.start_pos == (0usize, 0usize)
        &&& self.end_pos == ((self.width - 1) as usize, (self.height - 1) as usize)
    }

    /// Cell (x, y) lies inside the grid.
    pub open spec fn in_bounds(self, x: int, y: int) -> bool {
        0 <= x < self.width && 0 <= y < self.height
    }

    /// Place of cell (x, y) in `nodes`.
    pub open spec fn spec_index(self, x: int, y: int) -> int {
        y * self.width + x
    }

    /// The node of cell (x, y).
    pub open spec fn node_at(self, x: int, y: int) -> Node {
        self.nodes@[self.spec_index(x, y)]
    }

    /// The effective openings of every cell, row by row.
    pub open spec fn port_table(self) -> Seq<PortSet> {
        Seq::new(self.nodes@.len(), |i: int| self.nodes@[i].port_set())
    }

    /// A board of the given size in which every cell is empty.
    pub fn new(width: usize, height: usize) -> (b: Board)
        requires
            width >= 1,
            height >= 1,
            width * height <= usize::MAX,
        ensures
            b.wf(),
            b.width == width,
            b.height == height,
            forall|i: int|
                0 <= i < b.nodes@.len() ==> #[trigger] b.nodes@[i] == (Node {
                    node_type: NodeType::Empty,
                    rotation: 0,
                    fixed: false,
                }),
    {
        let nodes = vec![Node::new(NodeType::Empty); width * height];
        Board { width, height, nodes, start_pos: (0, 0), end_pos: (width - 1, height - 1) }
    }

    /// Builds a board from its parts, or says why they are none.
    pub fn from_parts(
        width: usize,
        height: usize,
        nodes: Vec<Node>,
        start_pos: (usize, usize),
        end_pos: (usize, usize),
    ) -> (r: Result<Board, BoardError>)
        ensures
            r matches Ok(b) ==> b == (Board { width, height, nodes, start_pos, end_pos }) && b.wf(),
            r is Ok <==> (Board { width, height, nodes, start_pos, end_pos }).wf(),
            r matches Err(e) ==> e == Board::spec_defect(width, height, nodes@, start_pos, end_pos),
    {
        if width == 0 || height == 0 {
            return Err(BoardError::EmptyGrid);
        }
        assert(nodes.len() == nodes@.len());
        match width.checked_mul(height) {
            None => {
                return Err(BoardError::NodeCount);
            },
            Some(cells) => {
                if nodes.len() != cells {
                    return Err(BoardError::NodeCount);
                }
            },
        }
        let mut i: usize = 0;
        while i < nodes.len()
            invariant
                i <= nodes.len(),
                width >= 1,
                height >= 1,
                nodes@.len() == width * height,
                forall|k: int| 0 <= k < i ==> (#[trigger] nodes@[k]).wf(),
            decreases nodes.len() - i,
        {
            if nodes[i].rotation >= 4 {
                return Err(BoardError::Rotation);
            }
            i = i + 1;
        }
        if start_pos.0 != 0 || start_pos.1 != 0 || end_pos.0 != width - 1 || end_pos.1 != height
            - 1 {
            return Err(BoardError::Endpoints);
        }
        Ok(Board { width, height, nodes, start_pos, end_pos })
    }

    /// The first defect of the parts, in the order size, node count,
    /// rotations, endpoints.
    pub open spec fn spec_defect(
        width: usize,
        height: usize,
        nodes: Seq<Node>,
        start_pos: (usize, usize),
        end_pos: (usize, usize),
    ) -> BoardError {
        if width == 0 || height == 0 {
            BoardError::EmptyGrid
        } else if nodes.len() != width * height {
            BoardError::NodeCount
        } else if exists|i: int| 0 <= i < nodes.len() && !(#[trigger] nodes[i]).wf() {
            BoardError::Rotation
        } else {
            BoardError::Endpoints
        }
    }

    /// The node of cell (x, y), or `None` outside the grid.
    pub fn get_node(&self, x: usize, y: usize) -> (r: Option<&Node>)
        requires
            self.wf(),
        ensures
            self.in_bounds(x as int, y as int) ==> r == Some(&self.node_at(x as int, y as int)),
            !self.in_bounds(x as int, y as int) ==> r is None,
    {
        if x < self.width && y < self.height {
            proof {
                assert(self.nodes.len() == self.nodes@.len());
                lemma_index_in_range(self.width as int, self.height as int, x as int, y as int);
            }
            Some(&self.nodes[y * self.width + x])
        } else {
            None
        }
    }

    /// Mutable access to the node of cell (x, y), or `None` outside the grid.
    /// Whatever is written through the reference replaces that node and
    /// nothing else.
    pub fn get_node_mut(&mut self, x: usize, y: usize) -> (r: Option<&mut Node>)
        requires
            old(self).wf(),
        ensures
            final(self).width == old(self).width,
            final(self).height == old(self).height,
            final(self).start_pos == old(self).start_pos,
            final(self).end_pos == old(self).end_pos,
            match r {
                Some(n) => {
                    &&& old(self).in_bounds(x as int, y as int)
                    &&& *n == old(self).node_at(x as int, y as int)
                    &&& final(self).nodes@ == old(self).nodes@.update(
                        old(self).spec_index(x as int, y as int),
                        *final(n),
                    )
                },
                None => {
                    &&& !old(self).in_bounds(x as int, y as int)
                    &&& final(self).nodes@ == old(self).nodes@
                },
            },
    {
        if x < self.width && y < self.height {
            proof {
                assert(self.nodes.len() == self.nodes@.len());
                lemma_index_in_range(self.width as int, self.height as int, x as int, y as int);
            }
            Some(&mut self.nodes[y * self.width + x])
        } else {
            None
        }
    }
}

/// The entry of the port table for a cell of the board holds the openings
/// of the node of that cell.
pub proof fn lemma_port_table_at(b: Board, x: int, y: int)
    requires
        b.wf(),
        b.in_bounds(x, y),
    ensures
        0 <= b.spec_index(x, y) < b.nodes@.len(),
        b.port_table()[b.spec_index(x, y)] == b.node_at(x, y).port_set(),
        forall|d: Direction|
            b.node_at(x, y).opens(d) == #[trigger] b.port_table()[b.spec_index(x, y)].has(d),
{
    lemma_index_in_range(b.width as int, b.height as int, x, y);
    lemma_port_set_is_turned_base(b.node_at(x, y));
}

/// A cell inside a grid has its place inside the row-by-row sequence.
pub proof fn lemma_index_in_range(w: int, h: int, x: int, y: int)
    requires
        0 <= x < w,
        0 <= y < h,
    ensures
        0 <= y * w + x < w * h,
        0 <= y * w <= y * w + x,
{
    assert(y * w + x < w * h) by (nonlinear_arith)
        requires
            0 <= x < w,
            0 <= y < h,
    ;
    assert(0 <= y * w) by (nonlinear_arith)
        requires
            0 <= w,
            0 <= y,
    ;
}

} // verus!
