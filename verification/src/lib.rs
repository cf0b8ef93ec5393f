//! Boards for a rotate-the-pipe puzzle: a generator that builds a board
//! which is solvable by construction, a scrambler, and the search that
//! tells which cells the flow reaches.
pub mod generator;
pub mod graph;
pub mod model;
pub mod random;
pub mod solver;
pub mod walk;

use crate::generator::generate_level_with;
use crate::random::entropy_rng;
use crate::graph::{as_cell, slot_of};
use crate::model::Board;
use crate::solver::get_energized_nodes;
use vstd::prelude::*;

verus! {

impl Board {
    /// The places, in the row-by-row sequence, of the cells that the flow
    /// reaches.
    pub open spec fn energized_slots(self) -> Set<usize> {
        Set::new(
            |i: usize|
                exists|c: (usize, usize)|
                    #[trigger] self.energized().contains(c) && i == c.1 * self.width + c.0,
        )
    }
}

/// A greeting, to tell the host that the library is there.
pub fn greet() -> (s: String)
    ensures
        s@ == "Hello from Rust/WASM!"@,
{
    "Hello from Rust/WASM!".to_string()
}

/// A new puzzle of the given size: a solved board, scrambled. Both the
/// board and the scrambling are drawn from a generator that the operating
/// system seeds.
pub fn generate_level(width: usize, height: usize) -> (board: Board)
    requires
        width >= 1,
        height >= 1,
        width * height <= usize::MAX,
    ensures
        board.wf(),
        board.width == width,
        board.height == height,
        exists|picks: Seq<usize>, turns: Seq<u8>| #[trigger] board.is_level_from(picks, turns),
{
    let mut rng = entropy_rng();
    generate_level_with(width, height, &mut rng)
}

/// The energized cells of the board as places in its row-by-row sequence:
/// cell (x, y) is listed as y * width + x. No place is listed twice.
pub fn check_connection_status(board: &Board) -> (indices: Vec<usize>)
    requires
        board.wf(),
    ensures
        indices@.no_duplicates(),
        indices@.to_set() == board.energized_slots(),
{
    let energized = get_energized_nodes(board);
    let mut indices: Vec<usize> = Vec::new();
    let mut k: usize = 0;
    while k < energized.len()
        invariant
            k <= energized.len(),
            board.wf(),
            indices@.len() == k,
            forall|i: int|
                0 <= i < energized@.len() ==> board.in_bounds(
                    (#[trigger] energized@[i]).0 as int,
                    energized@[i].1 as int,
                ),
            forall|i: int|
                0 <= i < k ==> #[trigger] indices@[i] == energized@[i].1 * board.width
                    + energized@[i].0,
        decreases energized.len() - k,
    {
        let (x, y) = energized[k];
        indices.push(slot_of(board.width, board.height, x, y));
        k = k + 1;
    }
    proof {
        let w = board.width as int;
        assert forall|i: int, j: int|
            0 <= i < indices@.len() && 0 <= j < indices@.len() && i != j implies indices@[i]
            != indices@[j] by {
            if indices@[i] == indices@[j] {
                crate::graph::lemma_index_injective(w, as_cell(energized@[i]), as_cell(energized@[j]));
            }
        }
        assert forall|s: usize| indices@.to_set().contains(s) == board.energized_slots().contains(
            s,
        ) by {
            if indices@.contains(s) {
                let i = choose|i: int| 0 <= i < indices@.len() && indices@[i] == s;
                assert(energized@.to_set().contains(energized@[i]));
                assert(board.energized().contains(energized@[i]));
            }
            if board.energized_slots().contains(s) {
                let c = choose|c: (usize, usize)|
                    #[trigger] board.energized().contains(c) && s == c.1 * board.width + c.0;
                assert(energized@.to_set().contains(c));
                let i = choose|i: int| 0 <= i < energized@.len() && energized@[i] == c;
                assert(indices@[i] == s);
            }
        }
        assert(indices@.to_set() =~= board.energized_slots());
    }
    indices
}

} // verus!
