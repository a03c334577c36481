//! Random walks from a node that is not yet part of the maze to the maze.

use vstd::prelude::*;
use crate::cell::{
    CellIndex, CellType, MazeError, adjacent, is_interior, is_node, is_passage,
    lemma_node_beside_passage, valid_size,
};
use crate::erasure::{
    erase_loops, erase_loops_spec, follows_at, lemma_erase_loops_members,
    lemma_erase_loops_shape, lemma_erase_loops_simple, no_repeats,
};
use crate::maze::Maze;
use crate::random::{RandomSource, chosen_index, state_after_choice};
use crate::steps::{
    candidate_steps, is_step, lemma_candidate_count, lemma_candidates_are_steps,
    lemma_step_geometry, steps_view,
};

verus! {

/// The three cells of `walk` from position `i` on make a legal move.
pub open spec fn step_at(size: (usize, usize), walk: Seq<CellIndex>, i: int) -> bool {
    is_step(size, walk[i], walk[i + 1], walk[i + 2])
}

/// The cells of `walk` at positions `i` and `i + 1` are one grid unit apart.
pub open spec fn adjacent_at(walk: Seq<CellIndex>, i: int) -> bool {
    adjacent(walk[i], walk[i + 1])
}

/// `walk` is a walk from `start` to the open cells `paths`: it alternates
/// nodes and the passages between them, it goes from node to node by legal
/// moves, its last node is open and no node before that is.
pub open spec fn is_walk(
    size: (usize, usize),
    paths: Set<CellIndex>,
    walk: Seq<CellIndex>,
    start: CellIndex,
) -> bool {
    &&& walk.len() % 2 == 1
    &&& walk[0] == start
    &&& forall|i: int| 0 <= i < walk.len() - 2 && i % 2 == 0 ==> #[trigger] step_at(size, walk, i)
    &&& forall|i: int|
        0 <= i < walk.len() - 1 && i % 2 == 0 ==> !paths.contains(#[trigger] walk[i])
    &&& paths.contains(walk.last())
}

/// `path` is a branch that can be added to the maze: a walk from `start` to
/// the open cells that visits no cell twice.
pub open spec fn is_branch(
    size: (usize, usize),
    paths: Set<CellIndex>,
    path: Seq<CellIndex>,
    start: CellIndex,
) -> bool {
    &&& is_walk(size, paths, path, start)
    &&& no_repeats(path)
}

/// How a random walk goes on from the last cell of `walk`, with a generator
/// in the given state and at most `steps_left` more moves: the finished walk
/// or the reason why it was given up, and the state in which the generator is
/// left.
///
/// The walk is finished where it stands on an open cell. Else it is given up
/// where no move is left to it, and else it makes the move that the generator
/// chooses among the legal ones.
pub open spec fn walk_outcome(
    size: (usize, usize),
    paths: Set<CellIndex>,
    walk: Seq<CellIndex>,
    state: Seq<u8>,
    steps_left: nat,
) -> (Result<Seq<CellIndex>, MazeError>, Seq<u8>)
    decreases steps_left,
{
    let moves = candidate_steps(size, walk.last());
    if paths.contains(walk.last()) {
        (Ok(walk), state)
    } else if steps_left == 0 {
        (Err(MazeError::WalkTooLong), state)
    } else if moves.len() == 0 {
        (Err(MazeError::DegenerateGrid), state)
    } else {
        let step = moves[chosen_index(moves.len(), state) as int];
        walk_outcome(
            size,
            paths,
            walk.push(step.0).push(step.1),
            state_after_choice(moves.len(), state),
            (steps_left - 1) as nat,
        )
    }
}

/// The loop-erased random walk from `start` that a generator in the given
/// state makes, or the reason why the walk was given up, and the state in
/// which the generator is left.
pub open spec fn branch_outcome(
    size: (usize, usize),
    paths: Set<CellIndex>,
    start: CellIndex,
    state: Seq<u8>,
    max_steps: nat,
) -> (Result<Seq<CellIndex>, MazeError>, Seq<u8>) {
    let walked = walk_outcome(size, paths, seq![start], state, max_steps);
    match walked.0 {
        Ok(walk) => (Ok(erase_loops_spec(walk)), walked.1),
        Err(e) => (Err(e), walked.1),
    }
}

/// The cells of a walk from an interior node: interior nodes at the even
/// positions, interior passages at the odd ones, each next to the one before.
pub open spec fn walk_geometry(size: (usize, usize), walk: Seq<CellIndex>, upto: int) -> bool {
    &&& forall|i: int|
        0 <= i < upto ==> {
            &&& is_interior(size, #[trigger] walk[i])
            &&& i % 2 == 0 ==> is_node(walk[i])
            &&& i % 2 == 1 ==> is_passage(walk[i])
        }
    &&& forall|i: int| 0 <= i < upto - 1 ==> #[trigger] adjacent_at(walk, i)
}

/// The geometry of the first `upto` cells of a walk.
proof fn lemma_walk_geometry_upto(
    size: (usize, usize),
    paths: Set<CellIndex>,
    walk: Seq<CellIndex>,
    start: CellIndex,
    upto: int,
)
    requires
        valid_size(size),
        is_interior(size, start),
        is_node(start),
        is_walk(size, paths, walk, start),
        1 <= upto <= walk.len(),
        upto % 2 == 1,
    ensures
        walk_geometry(size, walk, upto),
    decreases upto,
{
    if upto > 1 {
        lemma_walk_geometry_upto(size, paths, walk, start, upto - 2);
        let from = walk[upto - 3];
        assert(step_at(size, walk, upto - 3));
        lemma_step_geometry(size, from, walk[upto - 2], walk[upto - 1]);
        assert forall|i: int| 0 <= i < upto - 1 implies #[trigger] adjacent_at(walk, i) by {
            if i < upto - 3 {
                assert(adjacent_at(walk, i));
            }
        }
    }
}

/// Every walk from an interior node has the geometry of a path through the
/// grid.
pub proof fn lemma_walk_geometry(
    size: (usize, usize),
    paths: Set<CellIndex>,
    walk: Seq<CellIndex>,
    start: CellIndex,
)
    requires
        valid_size(size),
        is_interior(size, start),
        is_node(start),
        is_walk(size, paths, walk, start),
    ensures
        walk_geometry(size, walk, walk.len() as int),
{
    lemma_walk_geometry_upto(size, paths, walk, start, walk.len() as int);
}

/// In the erased walk, as in the walk, nodes stand at the even positions and
/// passages at the odd ones.
proof fn lemma_erased_kinds(
    size: (usize, usize),
    paths: Set<CellIndex>,
    raw: Seq<CellIndex>,
    start: CellIndex,
    t: int,
)
    requires
        valid_size(size),
        is_interior(size, start),
        is_node(start),
        is_walk(size, paths, raw, start),
        0 <= t < erase_loops_spec(raw).len(),
    ensures
        is_interior(size, erase_loops_spec(raw)[t]),
        t % 2 == 0 ==> is_node(erase_loops_spec(raw)[t]),
        t % 2 == 1 ==> is_passage(erase_loops_spec(raw)[t]),
    decreases t,
{
    let e = erase_loops_spec(raw);
    lemma_walk_geometry(size, paths, raw, start);
    lemma_erase_loops_shape(raw);
    if t > 0 {
        lemma_erased_kinds(size, paths, raw, start, t - 1);
        assert(follows_at(raw, e, t - 1));
        let m = choose|m: int|
            0 <= m < raw.len() - 1 && #[trigger] raw[m] == e[t - 1] && raw[m + 1] == e[t - 1 + 1];
        assert(is_interior(size, raw[m]));
        assert(is_interior(size, raw[m + 1]));
    }
}

/// Erasing the loops of a walk from an interior node leaves a branch: the
/// erased walk still goes from node to node by legal moves, and it visits no
/// cell twice.
pub proof fn lemma_erased_walk_is_branch(
    size: (usize, usize),
    paths: Set<CellIndex>,
    raw: Seq<CellIndex>,
    start: CellIndex,
)
    requires
        valid_size(size),
        is_interior(size, start),
        is_node(start),
        is_walk(size, paths, raw, start),
    ensures
        is_branch(size, paths, erase_loops_spec(raw), start),
{
    let e = erase_loops_spec(raw);
    lemma_walk_geometry(size, paths, raw, start);
    lemma_erase_loops_shape(raw);
    assert(!raw.drop_last().contains(raw.last())) by {
        if raw.drop_last().contains(raw.last()) {
            let m = choose|m: int|
                0 <= m < raw.drop_last().len() && raw.drop_last()[m] == raw.last();
            assert(raw[m] == raw.last());
            assert(is_node(raw[raw.len() - 1]));
            if m % 2 == 0 {
                assert(!paths.contains(raw[m]));
            } else {
                assert(is_passage(raw[m]));
            }
        }
    }
    lemma_erase_loops_simple(raw);
    lemma_erased_kinds(size, paths, raw, start, e.len() - 1);
    assert(is_node(raw[raw.len() - 1]));
    assert(e.len() % 2 == 1);
    assert forall|i: int| 0 <= i < e.len() - 1 && i % 2 == 0 implies !paths.contains(
        #[trigger] e[i],
    ) by {
        lemma_erased_kinds(size, paths, raw, start, i);
        lemma_erase_loops_members(raw, i);
        let m = choose|m: int| 0 <= m < raw.drop_last().len() && raw.drop_last()[m] == e[i];
        assert(raw[m] == e[i]);
        if m % 2 == 1 {
            assert(is_passage(raw[m]));
        }
    }
    assert forall|i: int| 0 <= i < e.len() - 2 && i % 2 == 0 implies #[trigger] step_at(
        size,
        e,
        i,
    ) by {
        lemma_erased_kinds(size, paths, raw, start, i);
        lemma_erased_kinds(size, paths, raw, start, i + 1);
        lemma_erased_kinds(size, paths, raw, start, i + 2);
        assert(follows_at(raw, e, i));
        let m = choose|m: int|
            0 <= m < raw.len() - 1 && #[trigger] raw[m] == e[i] && raw[m + 1] == e[i + 1];
        if m % 2 == 1 {
            assert(is_passage(raw[m]));
        }
        assert(step_at(size, raw, m));
        assert(is_node(raw[m]) && is_interior(size, raw[m]));
        lemma_step_geometry(size, raw[m], raw[m + 1], raw[m + 2]);
        assert(follows_at(raw, e, i + 1));
        let n = choose|n: int|
            0 <= n < raw.len() - 1 && #[trigger] raw[n] == e[i + 1] && raw[n + 1] == e[i + 1 + 1];
        if n % 2 == 0 {
            assert(is_node(raw[n]));
        }
        let back = n - 1;
        assert(step_at(size, raw, back));
        assert(is_node(raw[back]) && is_interior(size, raw[back]));
        lemma_step_geometry(size, raw[back], raw[back + 1], raw[back + 2]);
        let wall = e[i + 1];
        lemma_node_beside_passage(wall, raw[m]);
        lemma_node_beside_passage(wall, raw[m + 2]);
        lemma_node_beside_passage(wall, raw[n + 1]);
        assert(e[i + 2] != e[i]);
        assert(e[i + 2] == raw[m + 2]);
    }
}

impl Maze {
    /// Walks at random from `start` until the walk stands on an open cell,
    /// and returns the cells visited, start and end included.
    ///
    /// Each move is picked by `source` among the legal moves from the node
    /// reached so far. A walk that has made `max_steps` moves and still
    /// stands on a wall is given up as `WalkTooLong`. That cannot happen
    /// where `max_steps` is more than half of `usize::MAX`: no record of a
    /// walk is that long.
    pub fn random_walk(
        &self,
        start: CellIndex,
        source: &mut RandomSource,
        max_steps: usize,
    ) -> (walked: Result<Vec<CellIndex>, MazeError>)
        requires
            self.wf(),
            is_interior(self.size(), start),
            is_node(start),
        ensures
            walked matches Ok(walk) ==> {
                &&& is_walk(self.size(), self@, walk@, start)
                &&& walk@.len() <= 2 * max_steps + 1
            },
            walked matches Err(e) ==> {
                &&& e == MazeError::WalkTooLong
                &&& !self@.contains(start)
                &&& 2 * max_steps + 1 <= usize::MAX
            },
            self@.contains(start) ==> (walked matches Ok(walk) && walk@ == seq![start]),
            max_steps == 0 && !self@.contains(start) ==> walked is Err,
            walked matches Ok(walk) ==> walk_outcome(
                self.size(),
                self@,
                seq![start],
                old(source).state(),
                max_steps as nat,
            ) == (Ok::<Seq<CellIndex>, MazeError>(walk@), final(source).state()),
            walked matches Err(e) ==> walk_outcome(
                self.size(),
                self@,
                seq![start],
                old(source).state(),
                max_steps as nat,
            ) == (Err::<Seq<CellIndex>, MazeError>(e), final(source).state()),
    {
        let size = self.size();
        let ghost first_state = source.state();
        let mut random_walk: Vec<CellIndex> = Vec::new();
        let mut current_pos = start;
        let mut steps: usize = 0;
        random_walk.push(current_pos);
        while self.cell(current_pos) == CellType::Wall
            invariant
                self.wf(),
                size == self.size(),
                is_interior(size, current_pos),
                is_node(current_pos),
                steps <= max_steps,
                random_walk@.len() == 2 * steps + 1,
                random_walk@[0] == start,
                random_walk@.last() == current_pos,
                steps == 0 ==> random_walk@ == seq![start],
                steps > 0 ==> !self@.contains(start),
                first_state == old(source).state(),
                walk_outcome(size, self@, seq![start], first_state, max_steps as nat)
                    == walk_outcome(
                    size,
                    self@,
                    random_walk@,
                    source.state(),
                    (max_steps - steps) as nat,
                ),
                forall|i: int|
                    0 <= i < random_walk@.len() - 2 && i % 2 == 0 ==> #[trigger] step_at(
                        size,
                        random_walk@,
                        i,
                    ),
                forall|i: int|
                    0 <= i < random_walk@.len() - 1 && i % 2 == 0 ==> !self@.contains(
                        #[trigger] random_walk@[i],
                    ),
            decreases max_steps - steps,
        {
            if steps >= max_steps {
                proof {
                    assert(walk_outcome(size, self@, random_walk@, source.state(), 0) == (
                        Err::<Seq<CellIndex>, MazeError>(MazeError::WalkTooLong),
                        source.state(),
                    ));
                    assert(random_walk@.len() == random_walk.len());
                }
                return Err(MazeError::WalkTooLong);
            }
            let candidate_points = self.generate_candidate_cells(current_pos);
            proof {
                lemma_candidate_count(size, current_pos);
                assert(steps_view(candidate_points@).len() == candidate_points@.len());
            }
            let ghost state_before = source.state();
            match source.pick(&candidate_points) {
                None => {
                    return Err(MazeError::DegenerateGrid);
                },
                Some(step) => {
                    proof {
                        let k = chosen_index(candidate_points@.len(), state_before) as int;
                        assert(candidate_points@[k] == step);
                        assert(steps_view(candidate_points@)[k] == (step@[0], step@[1]));
                        assert(candidate_steps(size, current_pos).contains((step@[0], step@[1])));
                        lemma_candidates_are_steps(size, current_pos, step@[0], step@[1]);
                        lemma_step_geometry(size, current_pos, step@[0], step@[1]);
                    }
                    let ghost before = random_walk@;
                    random_walk.push(step[0]);
                    random_walk.push(step[1]);
                    current_pos = step[1];
                    proof {
                        assert(random_walk@ == before.push(step@[0]).push(step@[1]));
                        assert(walk_outcome(
                            size,
                            self@,
                            before,
                            state_before,
                            (max_steps - steps) as nat,
                        ) == walk_outcome(
                            size,
                            self@,
                            random_walk@,
                            source.state(),
                            (max_steps - steps - 1) as nat,
                        ));
                        assert forall|i: int|
                            0 <= i < random_walk@.len() - 2 && i % 2 == 0 implies #[trigger]
                            step_at(size, random_walk@, i) by {
                            if i < before.len() - 2 {
                                assert(step_at(size, before, i));
                            }
                        }
                        assert forall|i: int|
                            0 <= i < random_walk@.len() - 1 && i % 2 == 0 implies !self@.contains(
                            #[trigger] random_walk@[i],
                        ) by {
                            if i < before.len() - 1 {
                                assert(!self@.contains(before[i]));
                            }
                        }
                    }
                },
            }
            steps += 1;
        }
        Ok(random_walk)
    }

    /// A loop-erased random walk from `starting_point` to the maze: the
    /// branch that joins the starting point to the cells that are open.
    ///
    /// The walk is made by [`Maze::random_walk`] and its loops are cut out by
    /// [`erase_loops`].
    pub fn generate_loop_erased_random_walk(
        &self,
        starting_point: CellIndex,
        source: &mut RandomSource,
        max_steps: usize,
    ) -> (erased: Result<Vec<CellIndex>, MazeError>)
        requires
            self.wf(),
            is_interior(self.size(), starting_point),
            is_node(starting_point),
        ensures
            erased matches Ok(path) ==> {
                &&& is_branch(self.size(), self@, path@, starting_point)
                &&& exists|raw: Seq<CellIndex>|
                    {
                        &&& is_walk(self.size(), self@, raw, starting_point)
                        &&& raw.len() <= 2 * max_steps + 1
                        &&& path@ == #[trigger] erase_loops_spec(raw)
                    }
            },
            erased matches Err(e) ==> {
                &&& e == MazeError::WalkTooLong
                &&& !self@.contains(starting_point)
                &&& 2 * max_steps + 1 <= usize::MAX
            },
            self@.contains(starting_point) ==> (erased matches Ok(path) && path@
                == seq![starting_point]),
            max_steps == 0 && !self@.contains(starting_point) ==> erased is Err,
            erased matches Ok(path) ==> branch_outcome(
                self.size(),
                self@,
                starting_point,
                old(source).state(),
                max_steps as nat,
            ) == (Ok::<Seq<CellIndex>, MazeError>(path@), final(source).state()),
            erased matches Err(e) ==> branch_outcome(
                self.size(),
                self@,
                starting_point,
                old(source).state(),
                max_steps as nat,
            ) == (Err::<Seq<CellIndex>, MazeError>(e), final(source).state()),
    {
        match self.random_walk(starting_point, source, max_steps) {
            Err(e) => Err(e),
            Ok(random_walk) => {
                let path = erase_loops(&random_walk);
                proof {
                    lemma_erased_walk_is_branch(self.size(), self@, random_walk@, starting_point);
                    if self@.contains(starting_point) {
                        assert(erase_loops_spec(seq![starting_point]) == seq![starting_point]);
                    }
                }
                Ok(path)
            },
        }
    }
}

} // verus!
