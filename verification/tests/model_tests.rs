use pipe_puzzle::model::Direction::{East, North, South, West};
use pipe_puzzle::model::{Board, BoardError, Direction, Node, NodeType, PortSet};

fn all_directions() -> [Direction; 4] {
    [North, East, South, West]
}

fn all_shapes() -> [NodeType; 7] {
    [
        NodeType::Empty,
        NodeType::Source,
        NodeType::Target,
        NodeType::Straight,
        NodeType::Elbow,
        NodeType::Tee,
        NodeType::Cross,
    ]
}

fn node(node_type: NodeType, rotation: u8) -> Node {
    Node { node_type, rotation, fixed: false }
}

#[test]
fn rotate_by_one_walks_clockwise() {
    assert_eq!(Direction::North.rotate(1), Direction::East);
    assert_eq!(Direction::East.rotate(1), Direction::South);
    assert_eq!(Direction::South.rotate(1), Direction::West);
    assert_eq!(Direction::West.rotate(1), Direction::North);
}

#[test]
fn rotate_takes_steps_mod_four() {
    assert_eq!(Direction::North.rotate(0), Direction::North);
    assert_eq!(Direction::North.rotate(4), Direction::North);
    assert_eq!(Direction::East.rotate(6), Direction::West);
    assert_eq!(Direction::North.rotate(255), Direction::West);
    assert_eq!(Direction::West.rotate(255), Direction::South);
    for d in all_directions() {
        for steps in 0u8..=251 {
            assert_eq!(d.rotate(steps), d.rotate(steps + 4));
        }
    }
}

#[test]
fn opposite_is_two_steps() {
    assert_eq!(Direction::North.opposite(), Direction::South);
    assert_eq!(Direction::East.opposite(), Direction::West);
    assert_eq!(Direction::South.opposite(), Direction::North);
    assert_eq!(Direction::West.opposite(), Direction::East);
    for d in all_directions() {
        assert_eq!(d.opposite().opposite(), d);
        assert_eq!(d.opposite(), d.rotate(2));
    }
}

#[test]
fn to_delta_points_the_right_way() {
    assert_eq!(Direction::North.to_delta(), (0, -1));
    assert_eq!(Direction::East.to_delta(), (1, 0));
    assert_eq!(Direction::South.to_delta(), (0, 1));
    assert_eq!(Direction::West.to_delta(), (-1, 0));
}

#[test]
fn opposite_deltas_cancel() {
    for d in all_directions() {
        let (dx, dy) = d.to_delta();
        let (ox, oy) = d.opposite().to_delta();
        assert_eq!((dx + ox, dy + oy), (0, 0));
    }
}

#[test]
fn node_new_is_unrotated_and_free() {
    let n = Node::new(NodeType::Tee);
    assert_eq!(n.node_type, NodeType::Tee);
    assert_eq!(n.rotation, 0);
    assert!(!n.fixed);
}

#[test]
fn base_ports_of_every_shape() {
    assert_eq!(node(NodeType::Empty, 0).ports(), vec![]);
    assert_eq!(node(NodeType::Source, 0).ports(), vec![South]);
    assert_eq!(node(NodeType::Target, 0).ports(), vec![South]);
    assert_eq!(node(NodeType::Straight, 0).ports(), vec![North, South]);
    assert_eq!(node(NodeType::Elbow, 0).ports(), vec![North, East]);
    assert_eq!(node(NodeType::Tee, 0).ports(), vec![East, South, West]);
    assert_eq!(node(NodeType::Cross, 0).ports(), vec![North, East, South, West]);
}

#[test]
fn rotated_ports() {
    assert_eq!(node(NodeType::Elbow, 1).ports(), vec![East, South]);
    assert_eq!(node(NodeType::Elbow, 2).ports(), vec![South, West]);
    assert_eq!(node(NodeType::Elbow, 3).ports(), vec![West, North]);
    assert_eq!(node(NodeType::Straight, 1).ports(), vec![East, West]);
    assert_eq!(node(NodeType::Source, 2).ports(), vec![North]);
    assert_eq!(node(NodeType::Target, 3).ports(), vec![East]);
    assert_eq!(node(NodeType::Tee, 1).ports(), vec![South, West, North]);
    assert_eq!(node(NodeType::Cross, 3).ports(), vec![West, North, East, South]);
    assert_eq!(node(NodeType::Empty, 3).ports(), vec![]);
}

#[test]
fn ports_at_rotation_are_base_ports_advanced() {
    for shape in all_shapes() {
        let base = node(shape, 0).ports();
        for r in 0u8..=255 {
            let expected: Vec<Direction> = base.iter().map(|d| d.rotate(r)).collect();
            assert_eq!(node(shape, r).ports(), expected);
        }
    }
}

#[test]
fn rotation_four_is_identity() {
    for shape in all_shapes() {
        for r in 0u8..=251 {
            assert_eq!(node(shape, r).ports(), node(shape, r + 4).ports());
        }
    }
}

#[test]
fn fixed_flag_does_not_change_ports() {
    for shape in all_shapes() {
        for r in 0u8..4 {
            let free = Node { node_type: shape, rotation: r, fixed: false };
            let fixed = Node { node_type: shape, rotation: r, fixed: true };
            assert_eq!(free.ports(), fixed.ports());
        }
    }
}

#[test]
fn has_port_agrees_with_ports() {
    for shape in all_shapes() {
        for r in 0u8..8 {
            let n = node(shape, r);
            let ports = n.ports();
            for d in all_directions() {
                assert_eq!(n.has_port(d), ports.contains(&d));
            }
        }
    }
    assert!(node(NodeType::Source, 0).has_port(Direction::South));
    assert!(!node(NodeType::Source, 0).has_port(Direction::North));
    assert!(!node(NodeType::Empty, 0).has_port(Direction::South));
}

#[test]
fn port_set_starts_empty() {
    let s = PortSet::empty();
    assert_eq!(s.len(), 0);
    assert_eq!(s.to_vec(), vec![]);
    for d in all_directions() {
        assert!(!s.contains(d));
    }
}

#[test]
fn port_set_insert_and_list() {
    let mut s = PortSet::empty();
    s.insert(Direction::West);
    assert_eq!(s.len(), 1);
    assert!(s.contains(Direction::West));
    assert!(!s.contains(Direction::East));
    s.insert(Direction::North);
    s.insert(Direction::West);
    assert_eq!(s.len(), 2);
    assert_eq!(s.to_vec(), vec![Direction::North, Direction::West]);
    s.insert(Direction::South);
    s.insert(Direction::East);
    assert_eq!(s.len(), 4);
    assert_eq!(
        s.to_vec(),
        vec![Direction::North, Direction::East, Direction::South, Direction::West]
    );
    assert_eq!(s, PortSet { north: true, east: true, south: true, west: true });
}

#[test]
fn board_new_is_all_empty() {
    let b = Board::new(3, 2);
    assert_eq!(b.width, 3);
    assert_eq!(b.height, 2);
    assert_eq!(b.nodes.len(), 6);
    assert_eq!(b.start_pos, (0, 0));
    assert_eq!(b.end_pos, (2, 1));
    for n in &b.nodes {
        assert_eq!(*n, Node { node_type: NodeType::Empty, rotation: 0, fixed: false });
    }
}

#[test]
fn board_new_single_cell() {
    let b = Board::new(1, 1);
    assert_eq!(b.nodes.len(), 1);
    assert_eq!(b.start_pos, (0, 0));
    assert_eq!(b.end_pos, (0, 0));
}

#[test]
fn get_node_is_row_major() {
    let mut b = Board::new(3, 2);
    b.nodes[1 * 3 + 2] = node(NodeType::Cross, 1);
    b.nodes[1] = node(NodeType::Tee, 2);
    assert_eq!(b.get_node(2, 1), Some(&node(NodeType::Cross, 1)));
    assert_eq!(b.get_node(1, 0), Some(&node(NodeType::Tee, 2)));
    assert_eq!(b.get_node(0, 0), Some(&node(NodeType::Empty, 0)));
}

#[test]
fn get_node_outside_is_none() {
    let b = Board::new(3, 2);
    assert_eq!(b.get_node(3, 0), None);
    assert_eq!(b.get_node(0, 2), None);
    assert_eq!(b.get_node(3, 2), None);
    assert_eq!(b.get_node(usize::MAX, usize::MAX), None);
}

#[test]
fn get_node_mut_writes_one_cell() {
    let mut b = Board::new(2, 2);
    if let Some(n) = b.get_node_mut(1, 1) {
        n.node_type = NodeType::Elbow;
        n.rotation = 3;
    } else {
        panic!("cell (1, 1) lies in the grid");
    }
    assert_eq!(b.nodes[3], node(NodeType::Elbow, 3));
    assert_eq!(b.nodes[0], node(NodeType::Empty, 0));
    assert_eq!(b.nodes[1], node(NodeType::Empty, 0));
    assert_eq!(b.nodes[2], node(NodeType::Empty, 0));
    assert_eq!((b.width, b.height, b.start_pos, b.end_pos), (2, 2, (0, 0), (1, 1)));
}

#[test]
fn get_node_mut_outside_is_none() {
    let mut b = Board::new(2, 2);
    assert!(b.get_node_mut(2, 0).is_none());
    assert!(b.get_node_mut(0, 2).is_none());
    assert_eq!(b.nodes.len(), 4);
}

#[test]
fn board_clone_keeps_everything() {
    let mut b = Board::new(2, 1);
    b.nodes[1] = node(NodeType::Straight, 1);
    let c = b.clone();
    assert_eq!((c.width, c.height, c.start_pos, c.end_pos), (2, 1, (0, 0), (1, 0)));
    assert_eq!(c.nodes, b.nodes);
}

#[test]
fn from_parts_accepts_a_board() {
    let nodes = vec![node(NodeType::Source, 3), node(NodeType::Source, 1)];
    let b = Board::from_parts(2, 1, nodes.clone(), (0, 0), (1, 0)).unwrap();
    assert_eq!((b.width, b.height, b.start_pos, b.end_pos), (2, 1, (0, 0), (1, 0)));
    assert_eq!(b.nodes, nodes);
}

#[test]
fn from_parts_rejects_an_empty_grid() {
    assert_eq!(Board::from_parts(0, 1, vec![], (0, 0), (0, 0)).unwrap_err(), BoardError::EmptyGrid);
    assert_eq!(Board::from_parts(1, 0, vec![], (0, 0), (0, 0)).unwrap_err(), BoardError::EmptyGrid);
}

#[test]
fn from_parts_rejects_a_wrong_node_count() {
    let three = vec![node(NodeType::Empty, 0); 3];
    assert_eq!(
        Board::from_parts(2, 2, three, (0, 0), (1, 1)).unwrap_err(),
        BoardError::NodeCount
    );
    let five = vec![node(NodeType::Empty, 0); 5];
    assert_eq!(Board::from_parts(2, 2, five, (0, 0), (1, 1)).unwrap_err(), BoardError::NodeCount);
    assert_eq!(
        Board::from_parts(usize::MAX, 2, vec![], (0, 0), (usize::MAX - 1, 1)).unwrap_err(),
        BoardError::NodeCount
    );
}

#[test]
fn from_parts_rejects_a_rotation_above_three() {
    let nodes = vec![node(NodeType::Elbow, 0), node(NodeType::Elbow, 4)];
    assert_eq!(Board::from_parts(2, 1, nodes, (0, 0), (1, 0)).unwrap_err(), BoardError::Rotation);
}

#[test]
fn from_parts_rejects_misplaced_endpoints() {
    let nodes = vec![node(NodeType::Empty, 0); 4];
    assert_eq!(
        Board::from_parts(2, 2, nodes.clone(), (1, 0), (1, 1)).unwrap_err(),
        BoardError::Endpoints
    );
    assert_eq!(
        Board::from_parts(2, 2, nodes, (0, 0), (0, 1)).unwrap_err(),
        BoardError::Endpoints
    );
}

#[test]
fn from_parts_reports_the_first_defect() {
    let nodes = vec![node(NodeType::Elbow, 9)];
    assert_eq!(
        Board::from_parts(2, 1, nodes.clone(), (5, 5), (1, 0)).unwrap_err(),
        BoardError::NodeCount
    );
    assert_eq!(Board::from_parts(1, 1, nodes, (5, 5), (0, 0)).unwrap_err(), BoardError::Rotation);
}
