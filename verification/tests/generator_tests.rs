use pipe_puzzle::generator::{
    board_from_links, find_rotation, generate_level_by, generate_level_with,
    generate_solved_board, generate_solved_board_by, generate_solved_board_with, grow_tree,
    grow_tree_by, is_scrambled_shape, resolve_node, scramble_board, scramble_board_by,
    scramble_board_with, shape_for, turned_count,
};
use pipe_puzzle::model::Direction::{East, North, South, West};
use pipe_puzzle::model::{lists, Board, Direction, Node, NodeType, PortSet};
use pipe_puzzle::solver::get_energized_nodes;
use pipe_puzzle::walk::TreeWalk;
use rand::rngs::StdRng;
use rand::SeedableRng;

fn ports(dirs: &[Direction]) -> PortSet {
    let mut s = PortSet::empty();
    for d in dirs {
        s.insert(*d);
    }
    s
}

fn every_port_set() -> Vec<PortSet> {
    let mut all = Vec::new();
    for bits in 0..16u8 {
        all.push(PortSet {
            north: bits & 1 != 0,
            east: bits & 2 != 0,
            south: bits & 4 != 0,
            west: bits & 8 != 0,
        });
    }
    all
}

fn neighbour(width: usize, height: usize, x: usize, y: usize, d: Direction) -> Option<(usize, usize)> {
    let (dx, dy) = d.to_delta();
    let nx = x as isize + dx;
    let ny = y as isize + dy;
    if nx >= 0 && nx < width as isize && ny >= 0 && ny < height as isize {
        Some((nx as usize, ny as usize))
    } else {
        None
    }
}

/// Checks that the joints form a spanning tree: every joint is recorded from
/// both sides, there are cells - 1 of them, and every cell is reached.
fn assert_spanning_tree(width: usize, height: usize, links: &[PortSet]) {
    assert_eq!(links.len(), width * height);
    let mut degree = 0;
    for y in 0..height {
        for x in 0..width {
            for d in [North, East, South, West] {
                if links[y * width + x].contains(d) {
                    degree += 1;
                    let (nx, ny) = neighbour(width, height, x, y, d).expect("joint leaves the grid");
                    assert!(links[ny * width + nx].contains(d.opposite()));
                }
            }
        }
    }
    assert_eq!(degree, 2 * (width * height - 1));
    let mut seen = vec![false; width * height];
    let mut stack = vec![(0usize, 0usize)];
    seen[0] = true;
    while let Some((x, y)) = stack.pop() {
        for d in [North, East, South, West] {
            if links[y * width + x].contains(d) {
                let (nx, ny) = neighbour(width, height, x, y, d).unwrap();
                if !seen[ny * width + nx] {
                    seen[ny * width + nx] = true;
                    stack.push((nx, ny));
                }
            }
        }
    }
    assert!(seen.iter().all(|s| *s));
}

fn port_table(board: &Board) -> Vec<PortSet> {
    board.nodes.iter().map(|n| ports(&n.ports())).collect()
}

#[test]
fn lists_finds_members() {
    assert!(lists(&[North, West], West));
    assert!(lists(&[North, West], North));
    assert!(!lists(&[North, West], East));
    assert!(!lists(&[], South));
}

#[test]
fn shape_by_number_of_joints() {
    assert_eq!(shape_for(&[]), NodeType::Empty);
    assert_eq!(shape_for(&[North]), NodeType::Source);
    assert_eq!(shape_for(&[West]), NodeType::Source);
    assert_eq!(shape_for(&[East, South, West]), NodeType::Tee);
    assert_eq!(shape_for(&[North, East, West]), NodeType::Tee);
    assert_eq!(shape_for(&[North, East, South, West]), NodeType::Cross);
    assert_eq!(shape_for(&[North, East, South, West, North]), NodeType::Empty);
}

#[test]
fn two_joints_are_straight_when_opposite() {
    assert_eq!(shape_for(&[North, South]), NodeType::Straight);
    assert_eq!(shape_for(&[East, West]), NodeType::Straight);
    assert_eq!(shape_for(&[North, East]), NodeType::Elbow);
    assert_eq!(shape_for(&[East, South]), NodeType::Elbow);
    assert_eq!(shape_for(&[South, West]), NodeType::Elbow);
    assert_eq!(shape_for(&[North, West]), NodeType::Elbow);
}

#[test]
fn rotation_of_terminals() {
    assert_eq!(find_rotation(NodeType::Source, &[South]), 0);
    assert_eq!(find_rotation(NodeType::Source, &[West]), 1);
    assert_eq!(find_rotation(NodeType::Source, &[North]), 2);
    assert_eq!(find_rotation(NodeType::Source, &[East]), 3);
    assert_eq!(find_rotation(NodeType::Target, &[East]), 3);
}

#[test]
fn rotation_of_two_way_pieces() {
    assert_eq!(find_rotation(NodeType::Straight, &[North, South]), 0);
    assert_eq!(find_rotation(NodeType::Straight, &[East, West]), 1);
    assert_eq!(find_rotation(NodeType::Elbow, &[North, East]), 0);
    assert_eq!(find_rotation(NodeType::Elbow, &[East, South]), 1);
    assert_eq!(find_rotation(NodeType::Elbow, &[South, West]), 2);
    assert_eq!(find_rotation(NodeType::Elbow, &[North, West]), 3);
}

#[test]
fn rotation_of_tee_and_cross() {
    assert_eq!(find_rotation(NodeType::Tee, &[East, South, West]), 0);
    assert_eq!(find_rotation(NodeType::Tee, &[North, South, West]), 1);
    assert_eq!(find_rotation(NodeType::Tee, &[North, East, West]), 2);
    assert_eq!(find_rotation(NodeType::Tee, &[North, East, South]), 3);
    assert_eq!(find_rotation(NodeType::Cross, &[North, East, South, West]), 0);
}

#[test]
fn lowest_fitting_rotation_wins() {
    // A superset is enough, and the first rotation that offers one is taken.
    assert_eq!(find_rotation(NodeType::Straight, &[South]), 0);
    assert_eq!(find_rotation(NodeType::Straight, &[West]), 1);
    assert_eq!(find_rotation(NodeType::Tee, &[North]), 1);
    assert_eq!(find_rotation(NodeType::Cross, &[West]), 0);
    assert_eq!(find_rotation(NodeType::Elbow, &[]), 0);
    assert_eq!(find_rotation(NodeType::Empty, &[]), 0);
}

#[test]
fn rotation_falls_back_to_zero() {
    assert_eq!(find_rotation(NodeType::Source, &[North, South]), 0);
    assert_eq!(find_rotation(NodeType::Empty, &[North]), 0);
    assert_eq!(find_rotation(NodeType::Elbow, &[East, West]), 0);
    assert_eq!(find_rotation(NodeType::Straight, &[North, East]), 0);
}

#[test]
fn resolved_piece_opens_where_the_joints_are() {
    for links in every_port_set() {
        let node = resolve_node(&links);
        assert_eq!(ports(&node.ports()), links);
        assert_eq!(node.ports().len(), links.len());
        assert!(node.rotation < 4);
        assert!(!node.fixed);
        for lower in 0..node.rotation {
            let turned = Node { rotation: lower, ..node };
            assert_ne!(ports(&turned.ports()), links);
        }
    }
}

#[test]
fn resolved_pieces_by_example() {
    let free = |node_type, rotation| Node { node_type, rotation, fixed: false };
    assert_eq!(resolve_node(&ports(&[])), free(NodeType::Empty, 0));
    assert_eq!(resolve_node(&ports(&[East])), free(NodeType::Source, 3));
    assert_eq!(resolve_node(&ports(&[West])), free(NodeType::Source, 1));
    assert_eq!(resolve_node(&ports(&[East, West])), free(NodeType::Straight, 1));
    assert_eq!(resolve_node(&ports(&[South, West])), free(NodeType::Elbow, 2));
    assert_eq!(resolve_node(&ports(&[North, West])), free(NodeType::Elbow, 3));
    assert_eq!(resolve_node(&ports(&[North, East, South])), free(NodeType::Tee, 3));
    assert_eq!(resolve_node(&ports(&[North, East, South, West])), free(NodeType::Cross, 0));
}

#[test]
fn walk_starts_at_the_top_left() {
    let walk = TreeWalk::new(3, 2);
    assert_eq!((walk.width, walk.height), (3, 2));
    assert_eq!(walk.stack, vec![(0, 0)]);
    assert_eq!(walk.visited, vec![true, false, false, false, false, false]);
    assert_eq!(walk.links, vec![PortSet::empty(); 6]);
    assert_eq!(walk.options(), vec![(1, 0, East), (0, 1, South)]);
}

#[test]
fn walk_that_always_takes_the_first_option() {
    let mut walk = TreeWalk::new(2, 2);
    let mut steps = Vec::new();
    while !walk.stack.is_empty() {
        let options = walk.options();
        steps.push(options.clone());
        if options.is_empty() {
            walk.retreat();
        } else {
            let (nx, ny, dir) = options[0];
            walk.extend(nx, ny, dir);
        }
    }
    assert_eq!(
        steps,
        vec![
            vec![(1, 0, East), (0, 1, South)],
            vec![(1, 1, South)],
            vec![(0, 1, West)],
            vec![],
            vec![],
            vec![],
            vec![],
        ]
    );
    assert_eq!(walk.visited, vec![true; 4]);
    let links = walk.into_links();
    assert_eq!(
        links,
        vec![ports(&[East]), ports(&[South, West]), ports(&[East]), ports(&[North, West])]
    );
    assert_spanning_tree(2, 2, &links);
}

#[test]
fn walk_that_always_takes_the_last_option() {
    let mut walk = TreeWalk::new(2, 2);
    while !walk.stack.is_empty() {
        let options = walk.options();
        if options.is_empty() {
            walk.retreat();
        } else {
            let (nx, ny, dir) = options[options.len() - 1];
            walk.extend(nx, ny, dir);
        }
    }
    let links = walk.into_links();
    assert_eq!(
        links,
        vec![ports(&[South]), ports(&[South]), ports(&[North, East]), ports(&[North, West])]
    );
}

#[test]
fn extend_records_the_joint_from_both_sides() {
    let mut walk = TreeWalk::new(3, 3);
    walk.extend(0, 1, South);
    assert_eq!(walk.stack, vec![(0, 0), (0, 1)]);
    assert_eq!(walk.links[0], ports(&[South]));
    assert_eq!(walk.links[3], ports(&[North]));
    assert!(walk.visited[3]);
    assert_eq!(walk.visited.iter().filter(|v| **v).count(), 2);
    assert_eq!(walk.options(), vec![(1, 1, East), (0, 2, South)]);
}

#[test]
fn retreat_pops_a_cell_without_options() {
    let mut walk = TreeWalk::new(1, 2);
    walk.extend(0, 1, South);
    assert_eq!(walk.options(), vec![]);
    walk.retreat();
    assert_eq!(walk.stack, vec![(0, 0)]);
    assert_eq!(walk.options(), vec![]);
    walk.retreat();
    assert!(walk.stack.is_empty());
    assert_eq!(walk.into_links(), vec![ports(&[South]), ports(&[North])]);
}

#[test]
fn grown_trees_span_the_grid() {
    for (width, height) in [(1, 1), (1, 5), (5, 1), (2, 2), (3, 3), (6, 4), (8, 8)] {
        for seed in 0..10u64 {
            let mut rng = StdRng::seed_from_u64(seed);
            let links = grow_tree(width, height, &mut rng);
            assert_spanning_tree(width, height, &links);
        }
    }
}

#[test]
fn board_from_links_resolves_every_cell() {
    let links = vec![ports(&[East]), ports(&[South, West]), ports(&[East]), ports(&[North, West])];
    let board = board_from_links(2, 2, &links);
    let free = |node_type, rotation| Node { node_type, rotation, fixed: false };
    assert_eq!((board.width, board.height), (2, 2));
    assert_eq!((board.start_pos, board.end_pos), ((0, 0), (1, 1)));
    assert_eq!(
        board.nodes,
        vec![
            free(NodeType::Source, 3),
            free(NodeType::Elbow, 2),
            free(NodeType::Source, 3),
            free(NodeType::Elbow, 3),
        ]
    );
    assert_eq!(port_table(&board), links);
    assert_eq!(get_energized_nodes(&board), vec![(0, 0), (1, 0), (1, 1), (0, 1)]);
}

#[test]
fn two_by_one_grid_has_one_joint() {
    for seed in 0..5u64 {
        let mut rng = StdRng::seed_from_u64(seed);
        let links = grow_tree(2, 1, &mut rng);
        assert_eq!(links, vec![ports(&[East]), ports(&[West])]);
        let mut rng = StdRng::seed_from_u64(seed);
        let board = generate_solved_board_with(2, 1, &mut rng);
        assert_eq!(board.nodes[0].node_type, NodeType::Source);
        assert_eq!(board.nodes[1].node_type, NodeType::Source);
        assert_eq!(board.nodes[0].ports(), vec![East]);
        assert_eq!(board.nodes[1].ports(), vec![West]);
        assert_eq!((board.nodes[0].rotation, board.nodes[1].rotation), (3, 1));
        assert_eq!((board.start_pos, board.end_pos), ((0, 0), (1, 0)));
        assert_eq!(get_energized_nodes(&board), vec![(0, 0), (1, 0)]);
    }
    let board = generate_solved_board(2, 1);
    assert_eq!(get_energized_nodes(&board), vec![(0, 0), (1, 0)]);
}

#[test]
fn one_by_one_grid_is_a_single_empty_cell() {
    let mut rng = StdRng::seed_from_u64(1);
    let board = generate_solved_board_with(1, 1, &mut rng);
    assert_eq!(board.nodes, vec![Node { node_type: NodeType::Empty, rotation: 0, fixed: false }]);
    assert_eq!(board.nodes[0].ports().len(), 0);
    assert_eq!(board.start_pos, (0, 0));
    assert_eq!(board.end_pos, (0, 0));
    let energized = get_energized_nodes(&board);
    assert_eq!(energized, vec![(0, 0)]);
    assert!(energized.contains(&board.end_pos));
    let board = generate_solved_board(1, 1);
    assert_eq!(get_energized_nodes(&board), vec![(0, 0)]);
}

#[test]
fn same_seed_gives_the_same_board() {
    for seed in [0u64, 1, 42, 0xDEAD_BEEF] {
        let mut first_rng = StdRng::seed_from_u64(seed);
        let mut second_rng = StdRng::seed_from_u64(seed);
        let first = generate_solved_board_with(3, 3, &mut first_rng);
        let second = generate_solved_board_with(3, 3, &mut second_rng);
        assert_eq!(format!("{:?}", first), format!("{:?}", second));
        assert_eq!(first.nodes, second.nodes);
        let mut first = first;
        let mut second = second;
        scramble_board_with(&mut first, &mut first_rng);
        scramble_board_with(&mut second, &mut second_rng);
        assert_eq!(format!("{:?}", first), format!("{:?}", second));
    }
}

#[test]
fn other_seeds_give_other_boards() {
    let mut rng = StdRng::seed_from_u64(0);
    let reference = generate_solved_board_with(3, 3, &mut rng);
    let mut different = 0;
    for seed in 1..=32u64 {
        let mut rng = StdRng::seed_from_u64(seed);
        let board = generate_solved_board_with(3, 3, &mut rng);
        if board.nodes != reference.nodes {
            different += 1;
        }
    }
    assert!(different > 0);
}

#[test]
fn generated_boards_are_solved_trees() {
    for (width, height) in [(1, 1), (2, 1), (1, 2), (3, 3), (5, 5), (7, 3)] {
        for seed in 0..6u64 {
            let mut rng = StdRng::seed_from_u64(seed);
            let board = generate_solved_board_with(width, height, &mut rng);
            assert_eq!((board.width, board.height), (width, height));
            assert_eq!(board.nodes.len(), width * height);
            assert_eq!(board.start_pos, (0, 0));
            assert_eq!(board.end_pos, (width - 1, height - 1));
            assert_spanning_tree(width, height, &port_table(&board));
            for node in &board.nodes {
                assert!(!node.fixed);
                assert!(node.rotation < 4);
                assert_ne!(node.node_type, NodeType::Target);
                assert_eq!(*node, resolve_node(&ports(&node.ports())));
            }
        }
    }
}

#[test]
fn terminals_are_the_cells_with_one_joint() {
    let mut rng = StdRng::seed_from_u64(9);
    let board = generate_solved_board_with(6, 6, &mut rng);
    for node in &board.nodes {
        let expected = match node.ports().len() {
            1 => vec![NodeType::Source],
            2 => vec![NodeType::Straight, NodeType::Elbow],
            3 => vec![NodeType::Tee],
            4 => vec![NodeType::Cross],
            _ => vec![],
        };
        assert!(expected.contains(&node.node_type));
    }
}

#[test]
fn scrambled_shapes() {
    assert!(!is_scrambled_shape(NodeType::Empty));
    assert!(!is_scrambled_shape(NodeType::Source));
    assert!(!is_scrambled_shape(NodeType::Target));
    assert!(is_scrambled_shape(NodeType::Straight));
    assert!(is_scrambled_shape(NodeType::Elbow));
    assert!(is_scrambled_shape(NodeType::Tee));
    assert!(is_scrambled_shape(NodeType::Cross));
}

#[test]
fn scrambling_changes_rotations_only() {
    for seed in 0..10u64 {
        let mut rng = StdRng::seed_from_u64(seed);
        let solved = generate_solved_board_with(6, 5, &mut rng);
        let mut board = solved.clone();
        scramble_board_with(&mut board, &mut rng);
        assert_eq!((board.width, board.height), (solved.width, solved.height));
        assert_eq!((board.start_pos, board.end_pos), (solved.start_pos, solved.end_pos));
        assert_eq!(board.nodes.len(), solved.nodes.len());
        for (after, before) in board.nodes.iter().zip(solved.nodes.iter()) {
            assert_eq!(after.node_type, before.node_type);
            assert_eq!(after.fixed, before.fixed);
            assert!(after.rotation < 4);
            if !is_scrambled_shape(before.node_type) {
                assert_eq!(after.rotation, before.rotation);
            }
        }
    }
}

#[test]
fn scrambling_leaves_terminals_and_empty_cells_alone() {
    let nodes = vec![
        Node { node_type: NodeType::Source, rotation: 2, fixed: true },
        Node { node_type: NodeType::Target, rotation: 3, fixed: false },
        Node { node_type: NodeType::Empty, rotation: 1, fixed: true },
        Node { node_type: NodeType::Empty, rotation: 0, fixed: false },
    ];
    let mut board = Board { width: 2, height: 2, nodes: nodes.clone(), start_pos: (0, 0), end_pos: (1, 1) };
    for seed in 0..20u64 {
        let mut rng = StdRng::seed_from_u64(seed);
        scramble_board_with(&mut board, &mut rng);
        assert_eq!(board.nodes, nodes);
    }
    scramble_board(&mut board);
    assert_eq!(board.nodes, nodes);
}

#[test]
fn scrambling_keeps_the_fixed_flag_of_turned_pieces() {
    let nodes = vec![
        Node { node_type: NodeType::Cross, rotation: 0, fixed: true },
        Node { node_type: NodeType::Tee, rotation: 0, fixed: false },
    ];
    let mut board = Board { width: 2, height: 1, nodes, start_pos: (0, 0), end_pos: (1, 0) };
    scramble_board(&mut board);
    assert_eq!(board.nodes[0].node_type, NodeType::Cross);
    assert_eq!(board.nodes[1].node_type, NodeType::Tee);
    assert!(board.nodes[0].fixed);
    assert!(!board.nodes[1].fixed);
    assert!(board.nodes[0].rotation < 4 && board.nodes[1].rotation < 4);
}

#[test]
fn scrambling_draws_every_rotation() {
    let mut seen = [false; 4];
    for seed in 0..64u64 {
        let mut rng = StdRng::seed_from_u64(seed);
        let mut board = Board {
            width: 1,
            height: 1,
            nodes: vec![Node { node_type: NodeType::Elbow, rotation: 0, fixed: false }],
            start_pos: (0, 0),
            end_pos: (0, 0),
        };
        scramble_board_with(&mut board, &mut rng);
        seen[board.nodes[0].rotation as usize] = true;
    }
    assert_eq!(seen, [true; 4]);
}

fn free(node_type: NodeType, rotation: u8) -> Node {
    Node { node_type, rotation, fixed: false }
}

fn mixed_board() -> Board {
    Board {
        width: 3,
        height: 2,
        nodes: vec![
            Node { node_type: NodeType::Source, rotation: 2, fixed: false },
            Node { node_type: NodeType::Elbow, rotation: 0, fixed: true },
            Node { node_type: NodeType::Empty, rotation: 0, fixed: false },
            Node { node_type: NodeType::Cross, rotation: 1, fixed: false },
            Node { node_type: NodeType::Target, rotation: 3, fixed: false },
            Node { node_type: NodeType::Tee, rotation: 3, fixed: false },
        ],
        start_pos: (0, 0),
        end_pos: (2, 1),
    }
}

/// Replays the picks on a fresh walk. Returns the number of options that the
/// next pick chooses among, or `None` when the walk has come to its end.
fn options_after(width: usize, height: usize, picks: &[usize]) -> Option<usize> {
    let mut walk = TreeWalk::new(width, height);
    let mut used = 0;
    while !walk.stack.is_empty() {
        let options = walk.options();
        if options.is_empty() {
            walk.retreat();
        } else if used == picks.len() {
            return Some(options.len());
        } else {
            walk.step(picks[used]);
            used += 1;
        }
    }
    None
}

/// Every sequence of picks that fits the walk on a grid of the given size.
fn all_runs(width: usize, height: usize) -> Vec<Vec<usize>> {
    let mut runs = Vec::new();
    let mut open = vec![Vec::new()];
    while let Some(picks) = open.pop() {
        match options_after(width, height, &picks) {
            None => runs.push(picks),
            Some(count) => {
                for pick in 0..count {
                    let mut longer = picks.clone();
                    longer.push(pick);
                    open.push(longer);
                }
            }
        }
    }
    runs
}

#[test]
fn step_takes_the_option_with_that_number() {
    let mut walk = TreeWalk::new(3, 3);
    assert_eq!(walk.options(), vec![(1, 0, East), (0, 1, South)]);
    walk.step(1);
    assert_eq!(walk.stack, vec![(0, 0), (0, 1)]);
    assert_eq!(walk.links[0], ports(&[South]));
    assert_eq!(walk.links[3], ports(&[North]));
    assert_eq!(walk.options(), vec![(1, 1, East), (0, 2, South)]);
    walk.step(0);
    assert_eq!(walk.stack, vec![(0, 0), (0, 1), (1, 1)]);
    assert_eq!(walk.links[3], ports(&[North, East]));
    assert_eq!(walk.links[4], ports(&[West]));
    assert_eq!(walk.options(), vec![(1, 0, North), (2, 1, East), (1, 2, South)]);
}

#[test]
fn tree_by_picks() {
    assert_eq!(
        grow_tree_by(2, 2, &[0, 0, 0]),
        Some(vec![ports(&[East]), ports(&[South, West]), ports(&[East]), ports(&[North, West])])
    );
    assert_eq!(
        grow_tree_by(2, 2, &[1, 0, 0]),
        Some(vec![ports(&[South]), ports(&[South]), ports(&[North, East]), ports(&[North, West])])
    );
    assert_eq!(grow_tree_by(2, 1, &[0]), Some(vec![ports(&[East]), ports(&[West])]));
    assert_eq!(grow_tree_by(1, 2, &[0]), Some(vec![ports(&[South]), ports(&[North])]));
    assert_eq!(grow_tree_by(1, 1, &[]), Some(vec![ports(&[])]));
}

#[test]
fn picks_that_do_not_fit_give_no_tree() {
    // a pick that is not below the number of options
    assert_eq!(grow_tree_by(2, 2, &[2, 0, 0]), None);
    assert_eq!(grow_tree_by(2, 2, &[0, 1, 0]), None);
    assert_eq!(grow_tree_by(2, 1, &[1]), None);
    // picks missing
    assert_eq!(grow_tree_by(2, 2, &[0, 0]), None);
    assert_eq!(grow_tree_by(2, 2, &[]), None);
    // picks left over
    assert_eq!(grow_tree_by(2, 2, &[0, 0, 0, 0]), None);
    assert_eq!(grow_tree_by(1, 1, &[0]), None);
}

#[test]
fn every_run_grows_a_spanning_tree() {
    for (width, height) in [(1, 1), (2, 1), (1, 3), (2, 2), (3, 2), (3, 3)] {
        let runs = all_runs(width, height);
        assert!(!runs.is_empty());
        for picks in runs {
            assert_eq!(picks.len(), width * height - 1);
            let links = grow_tree_by(width, height, &picks).expect("the picks fit the walk");
            assert_spanning_tree(width, height, &links);
        }
    }
}

#[test]
fn board_by_picks() {
    let board = generate_solved_board_by(2, 2, &[0, 0, 0]).unwrap();
    assert_eq!((board.width, board.height), (2, 2));
    assert_eq!((board.start_pos, board.end_pos), ((0, 0), (1, 1)));
    assert_eq!(
        board.nodes,
        vec![
            free(NodeType::Source, 3),
            free(NodeType::Elbow, 2),
            free(NodeType::Source, 3),
            free(NodeType::Elbow, 3),
        ]
    );
    let board = generate_solved_board_by(2, 2, &[1, 0, 0]).unwrap();
    assert_eq!(
        board.nodes,
        vec![
            free(NodeType::Source, 0),
            free(NodeType::Source, 0),
            free(NodeType::Elbow, 0),
            free(NodeType::Elbow, 3),
        ]
    );
    assert!(generate_solved_board_by(2, 2, &[0, 0]).is_none());
    assert!(generate_solved_board_by(2, 2, &[2, 0, 0]).is_none());
}

#[test]
fn same_picks_give_the_same_board() {
    for picks in all_runs(3, 3) {
        let first = generate_solved_board_by(3, 3, &picks).unwrap();
        let second = generate_solved_board_by(3, 3, &picks).unwrap();
        assert_eq!(format!("{:?}", first), format!("{:?}", second));
        assert_eq!(first.nodes, second.nodes);
        assert_eq!((first.width, first.height), (second.width, second.height));
        assert_eq!((first.start_pos, first.end_pos), (second.start_pos, second.end_pos));
    }
}

#[test]
fn first_pick_decides_the_opening_of_the_start_cell() {
    let runs = all_runs(3, 3);
    let mut east = 0;
    let mut south = 0;
    for picks in runs {
        let board = generate_solved_board_by(3, 3, &picks).unwrap();
        if picks[0] == 0 {
            assert_eq!(board.nodes[0].ports(), vec![East]);
            east += 1;
        } else {
            assert_eq!(picks[0], 1);
            assert_eq!(board.nodes[0].ports(), vec![South]);
            south += 1;
        }
        assert!(get_energized_nodes(&board).contains(&(2, 2)));
    }
    assert!(east > 0 && south > 0);
}

#[test]
fn counting_the_turned_pieces() {
    assert_eq!(turned_count(&mixed_board()), 3);
    assert_eq!(turned_count(&Board::new(4, 4)), 0);
    assert_eq!(turned_count(&generate_solved_board_by(2, 2, &[0, 0, 0]).unwrap()), 2);
    assert_eq!(turned_count(&generate_solved_board_by(2, 1, &[0]).unwrap()), 0);
}

#[test]
fn scrambling_by_given_turns() {
    let mut board = mixed_board();
    scramble_board_by(&mut board, &[3, 0, 2]);
    assert_eq!(
        board.nodes,
        vec![
            Node { node_type: NodeType::Source, rotation: 2, fixed: false },
            Node { node_type: NodeType::Elbow, rotation: 3, fixed: true },
            Node { node_type: NodeType::Empty, rotation: 0, fixed: false },
            Node { node_type: NodeType::Cross, rotation: 0, fixed: false },
            Node { node_type: NodeType::Target, rotation: 3, fixed: false },
            Node { node_type: NodeType::Tee, rotation: 2, fixed: false },
        ]
    );
    assert_eq!((board.width, board.height), (3, 2));
    assert_eq!((board.start_pos, board.end_pos), ((0, 0), (2, 1)));
}

#[test]
fn scrambling_gives_the_kth_turned_piece_the_kth_turn() {
    for a in 0u8..4 {
        for b in 0u8..4 {
            for c in 0u8..4 {
                let mut board = mixed_board();
                scramble_board_by(&mut board, &[a, b, c]);
                assert_eq!(board.nodes[1].rotation, a);
                assert_eq!(board.nodes[3].rotation, b);
                assert_eq!(board.nodes[5].rotation, c);
                assert_eq!(board.nodes[0].rotation, 2);
                assert_eq!(board.nodes[2].rotation, 0);
                assert_eq!(board.nodes[4].rotation, 3);
            }
        }
    }
}

#[test]
fn scrambling_without_turned_pieces_takes_no_turns() {
    let mut board = generate_solved_board_by(2, 1, &[0]).unwrap();
    let before = board.nodes.clone();
    scramble_board_by(&mut board, &[]);
    assert_eq!(board.nodes, before);
}

#[test]
fn same_turns_give_the_same_scramble() {
    let mut first = generate_solved_board_by(3, 3, &[0, 0, 0, 0, 0, 0, 0, 0]).unwrap();
    let mut second = first.clone();
    let count = turned_count(&first);
    let turns: Vec<u8> = (0..count).map(|k| ((k * 3 + 1) % 4) as u8).collect();
    scramble_board_by(&mut first, &turns);
    scramble_board_by(&mut second, &turns);
    assert_eq!(first.nodes, second.nodes);
    assert_eq!(format!("{:?}", first), format!("{:?}", second));
}

#[test]
fn random_scramble_draws_one_turn_for_each_turned_piece() {
    // Two generators in the same state: one scrambles the board, the other
    // is asked for the same draws by hand.
    for seed in 0..10u64 {
        let mut rng = StdRng::seed_from_u64(seed);
        let solved = generate_solved_board_with(5, 4, &mut rng);
        let mut twin = rng.clone();
        let mut scrambled = solved.clone();
        scramble_board_with(&mut scrambled, &mut rng);
        let mut turns = Vec::new();
        for _ in 0..turned_count(&solved) {
            turns.push(rand::Rng::gen_range(&mut twin, 0..4usize) as u8);
        }
        let mut by_hand = solved.clone();
        scramble_board_by(&mut by_hand, &turns);
        assert_eq!(scrambled.nodes, by_hand.nodes);
        assert_eq!(rng, twin);
    }
}

#[test]
fn level_by_draws() {
    let board = generate_level_by(2, 2, &[0, 0, 0], &[1, 0]).unwrap();
    assert_eq!((board.width, board.height), (2, 2));
    assert_eq!((board.start_pos, board.end_pos), ((0, 0), (1, 1)));
    assert_eq!(
        board.nodes,
        vec![
            free(NodeType::Source, 3),
            free(NodeType::Elbow, 1),
            free(NodeType::Source, 3),
            free(NodeType::Elbow, 0),
        ]
    );
    let board = generate_level_by(2, 1, &[0], &[]).unwrap();
    assert_eq!(board.nodes, vec![free(NodeType::Source, 3), free(NodeType::Source, 1)]);
    let board = generate_level_by(1, 1, &[], &[]).unwrap();
    assert_eq!(board.nodes, vec![free(NodeType::Empty, 0)]);
}

#[test]
fn draws_that_do_not_fit_give_no_level() {
    // picks that do not fit the walk
    assert!(generate_level_by(2, 2, &[0, 0], &[1, 0]).is_none());
    assert!(generate_level_by(2, 2, &[2, 0, 0], &[1, 0]).is_none());
    // not one turn for each turned piece
    assert!(generate_level_by(2, 2, &[0, 0, 0], &[1]).is_none());
    assert!(generate_level_by(2, 2, &[0, 0, 0], &[1, 0, 0]).is_none());
    assert!(generate_level_by(2, 1, &[0], &[0]).is_none());
    // a turn above 3
    assert!(generate_level_by(2, 2, &[0, 0, 0], &[1, 4]).is_none());
}

#[test]
fn same_draws_give_the_same_level() {
    let first = generate_level_by(3, 3, &[1, 0, 0, 0, 0, 0, 0, 0], &[3, 2, 1, 0, 3, 2]);
    let second = generate_level_by(3, 3, &[1, 0, 0, 0, 0, 0, 0, 0], &[3, 2, 1, 0, 3, 2]);
    assert_eq!(format!("{:?}", first), format!("{:?}", second));
    for seed in [0u64, 7, 99] {
        let mut first_rng = StdRng::seed_from_u64(seed);
        let mut second_rng = StdRng::seed_from_u64(seed);
        let first = generate_level_with(3, 3, &mut first_rng);
        let second = generate_level_with(3, 3, &mut second_rng);
        assert_eq!(format!("{:?}", first), format!("{:?}", second));
        assert_eq!(first.nodes, second.nodes);
    }
}

#[test]
fn seeded_level_is_a_scrambled_solved_board() {
    for seed in 0..10u64 {
        let mut rng = StdRng::seed_from_u64(seed);
        let mut twin = rng.clone();
        let level = generate_level_with(4, 3, &mut rng);
        let solved = generate_solved_board_with(4, 3, &mut twin);
        let mut scrambled = solved.clone();
        scramble_board_with(&mut scrambled, &mut twin);
        assert_eq!(level.nodes, scrambled.nodes);
        assert_eq!((level.width, level.height), (4, 3));
        for (after, before) in level.nodes.iter().zip(solved.nodes.iter()) {
            assert_eq!(after.node_type, before.node_type);
            assert!(after.rotation < 4);
        }
    }
}
