//! The moves that a random walk may make from a node.
//!
//! A move goes two cells along one axis: over the passage next to the node
//! and onto the node behind it. It is legal when that node lies inside the
//! border of the grid.

use vstd::prelude::*;
use crate::cell::{
    CellIndex, adjacent, is_interior, is_node, is_passage, seed, valid_size,
};
use crate::maze::Maze;

verus! {

/// Going from `from` over `wall` to `dest` is a legal move on a grid of the
/// given size.
pub open spec fn is_step(
    size: (usize, usize),
    from: CellIndex,
    wall: CellIndex,
    dest: CellIndex,
) -> bool {
    ||| (from.0 > 1 && wall == ((from.0 - 1) as usize, from.1) && dest == (
        (from.0 - 2) as usize,
        from.1,
    ))
    ||| (from.0 < size.0 - 2 && wall == ((from.0 + 1) as usize, from.1) && dest == (
        (from.0 + 2) as usize,
        from.1,
    ))
    ||| (from.1 > 1 && wall == (from.0, (from.1 - 1) as usize) && dest == (
        from.0,
        (from.1 - 2) as usize,
    ))
    ||| (from.1 < size.1 - 2 && wall == (from.0, (from.1 + 1) as usize) && dest == (
        from.0,
        (from.1 + 2) as usize,
    ))
}

/// The legal moves from `pos`, each as the pair of the passage crossed and
/// the node reached, in the order: towards lower x, towards higher x,
/// towards lower y, towards higher y.
pub open spec fn candidate_steps(size: (usize, usize), pos: CellIndex) -> Seq<
    (CellIndex, CellIndex),
> {
    let lower_x = if pos.0 > 1 {
        seq![(((pos.0 - 1) as usize, pos.1), ((pos.0 - 2) as usize, pos.1))]
    } else {
        seq![]
    };
    let higher_x = if pos.0 < size.0 - 2 {
        seq![(((pos.0 + 1) as usize, pos.1), ((pos.0 + 2) as usize, pos.1))]
    } else {
        seq![]
    };
    let lower_y = if pos.1 > 1 {
        seq![((pos.0, (pos.1 - 1) as usize), (pos.0, (pos.1 - 2) as usize))]
    } else {
        seq![]
    };
    let higher_y = if pos.1 < size.1 - 2 {
        seq![((pos.0, (pos.1 + 1) as usize), (pos.0, (pos.1 + 2) as usize))]
    } else {
        seq![]
    };
    lower_x + higher_x + lower_y + higher_y
}

/// A list of moves as pairs of passage and destination.
pub open spec fn steps_view(steps: Seq<[CellIndex; 2]>) -> Seq<(CellIndex, CellIndex)> {
    Seq::new(steps.len(), |i: int| (steps[i]@[0], steps[i]@[1]))
}

/// The candidates are exactly the legal moves.
pub proof fn lemma_candidates_are_steps(
    size: (usize, usize),
    pos: CellIndex,
    wall: CellIndex,
    dest: CellIndex,
)
    ensures
        candidate_steps(size, pos).contains((wall, dest)) <==> is_step(size, pos, wall, dest),
{
    let steps = candidate_steps(size, pos);
    let lower_x: Seq<(CellIndex, CellIndex)> = if pos.0 > 1 {
        seq![(((pos.0 - 1) as usize, pos.1), ((pos.0 - 2) as usize, pos.1))]
    } else {
        seq![]
    };
    let higher_x: Seq<(CellIndex, CellIndex)> = if pos.0 < size.0 - 2 {
        seq![(((pos.0 + 1) as usize, pos.1), ((pos.0 + 2) as usize, pos.1))]
    } else {
        seq![]
    };
    let lower_y: Seq<(CellIndex, CellIndex)> = if pos.1 > 1 {
        seq![((pos.0, (pos.1 - 1) as usize), (pos.0, (pos.1 - 2) as usize))]
    } else {
        seq![]
    };
    let higher_y: Seq<(CellIndex, CellIndex)> = if pos.1 < size.1 - 2 {
        seq![((pos.0, (pos.1 + 1) as usize), (pos.0, (pos.1 + 2) as usize))]
    } else {
        seq![]
    };
    let a = lower_x.len() as int;
    let b = a + higher_x.len();
    let c = b + lower_y.len();
    assert(steps == lower_x + higher_x + lower_y + higher_y);
    if is_step(size, pos, wall, dest) {
        if pos.0 > 1 && (wall, dest) == lower_x[0] {
            assert(steps[0] == (wall, dest));
        } else if pos.0 < size.0 - 2 && (wall, dest) == higher_x[0] {
            assert(steps[a] == (wall, dest));
        } else if pos.1 > 1 && (wall, dest) == lower_y[0] {
            assert(steps[b] == (wall, dest));
        } else {
            assert(steps[c] == (wall, dest));
        }
    }
    if steps.contains((wall, dest)) {
        let i = choose|i: int| 0 <= i < steps.len() && steps[i] == (wall, dest);
        if i < a {
            assert(steps[i] == lower_x[i]);
        } else if i < b {
            assert(steps[i] == higher_x[i - a]);
        } else if i < c {
            assert(steps[i] == lower_y[i - b]);
        } else {
            assert(steps[i] == higher_y[i - c]);
        }
    }
}

/// A legal move from an interior node crosses an interior passage next to
/// that node and ends on an interior node next to the passage.
pub proof fn lemma_step_geometry(
    size: (usize, usize),
    from: CellIndex,
    wall: CellIndex,
    dest: CellIndex,
)
    requires
        valid_size(size),
        is_interior(size, from),
        is_node(from),
        is_step(size, from, wall, dest),
    ensures
        is_interior(size, wall),
        is_passage(wall),
        is_interior(size, dest),
        is_node(dest),
        adjacent(from, wall),
        adjacent(wall, dest),
        dest != from,
{
}

/// The number of legal moves from an interior node: at most four, at least
/// two where both dimensions exceed three, and none only on the grid of
/// size three by three, whose single node is the seed.
pub proof fn lemma_candidate_count(size: (usize, usize), pos: CellIndex)
    requires
        valid_size(size),
        is_interior(size, pos),
        is_node(pos),
    ensures
        candidate_steps(size, pos).len() <= 4,
        size.0 >= 5 && size.1 >= 5 ==> candidate_steps(size, pos).len() >= 2,
        size.0 >= 5 || size.1 >= 5 ==> candidate_steps(size, pos).len() >= 1,
        candidate_steps(size, pos).len() == 0 ==> pos == seed(),
{
}

impl Maze {
    /// The legal moves from `current_pos`, each as `[passage, destination]`.
    pub fn generate_candidate_cells(&self, current_pos: CellIndex) -> (candidate_points: Vec<
        [CellIndex; 2],
    >)
        requires
            self.wf(),
        ensures
            steps_view(candidate_points@) == candidate_steps(self.size(), current_pos),
    {
        let size = self.size();
        let mut candidate_points: Vec<[CellIndex; 2]> = Vec::with_capacity(4);
        if current_pos.0 > 1 {
            candidate_points.push(
                [(current_pos.0 - 1, current_pos.1), (current_pos.0 - 2, current_pos.1)],
            );
        }
        if current_pos.0 < size.0 - 2 {
            candidate_points.push(
                [(current_pos.0 + 1, current_pos.1), (current_pos.0 + 2, current_pos.1)],
            );
        }
        if current_pos.1 > 1 {
            candidate_points.push(
                [(current_pos.0, current_pos.1 - 1), (current_pos.0, current_pos.1 - 2)],
            );
        }
        if current_pos.1 < size.1 - 2 {
            candidate_points.push(
                [(current_pos.0, current_pos.1 + 1), (current_pos.0, current_pos.1 + 2)],
            );
        }
        proof {
            assert(steps_view(candidate_points@) =~= candidate_steps(size, current_pos));
        }
        candidate_points
    }
}

} // verus!
