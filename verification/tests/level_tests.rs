use pipe_puzzle::generator::resolve_node;
use pipe_puzzle::model::{Board, NodeType, PortSet};
use pipe_puzzle::{check_connection_status, generate_level, greet};

#[test]
fn greeting() {
    assert_eq!(greet(), "Hello from Rust/WASM!");
}

#[test]
fn level_has_the_asked_size() {
    for (width, height) in [(1, 1), (1, 4), (4, 1), (5, 5), (8, 3)] {
        let board = generate_level(width, height);
        assert_eq!((board.width, board.height), (width, height));
        assert_eq!(board.nodes.len(), width * height);
        assert_eq!(board.start_pos, (0, 0));
        assert_eq!(board.end_pos, (width - 1, height - 1));
        let checked =
            Board::from_parts(width, height, board.nodes.clone(), board.start_pos, board.end_pos);
        assert!(checked.is_ok());
    }
}

#[test]
fn level_can_be_turned_back_into_a_solved_board() {
    // The shapes of a level are those of a solved board: their openings
    // add up to twice the joints of a spanning tree, and no piece is fixed.
    for _ in 0..10 {
        let board = generate_level(6, 4);
        let mut openings = 0;
        for node in &board.nodes {
            assert!(!node.fixed);
            assert!(node.rotation < 4);
            assert_ne!(node.node_type, NodeType::Empty);
            assert_ne!(node.node_type, NodeType::Target);
            openings += node.ports().len();
        }
        assert_eq!(openings, 2 * (6 * 4 - 1));
    }
}

#[test]
fn level_terminals_keep_their_solved_rotation() {
    // A terminal in a corner of a solved board never points out of the grid,
    // and scrambling does not turn terminals.
    for _ in 0..10 {
        let board = generate_level(4, 4);
        let corner = board.nodes[0];
        if corner.node_type == NodeType::Source {
            let mut links = PortSet::empty();
            for d in corner.ports() {
                links.insert(d);
            }
            assert!(links.east || links.south);
            assert_eq!(corner, resolve_node(&links));
        }
    }
}

#[test]
fn one_cell_level() {
    let board = generate_level(1, 1);
    assert_eq!(board.nodes.len(), 1);
    assert_eq!(board.nodes[0].node_type, NodeType::Empty);
    assert_eq!(board.nodes[0].rotation, 0);
    assert_eq!(check_connection_status(&board), vec![0]);
}

#[test]
fn two_cell_level_is_already_solved() {
    // Both cells are terminals, which scrambling leaves alone.
    let board = generate_level(2, 1);
    assert_eq!(check_connection_status(&board), vec![0, 1]);
    let board = generate_level(1, 2);
    assert_eq!(check_connection_status(&board), vec![0, 1]);
}
