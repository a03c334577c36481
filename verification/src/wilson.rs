//! Wilson's algorithm: growing a maze by loop-erased random walks.
//!
//! The maze starts as the seed node alone. The nodes of the grid are then
//! taken in a random order; from each one that is not yet part of the maze a
//! loop-erased random walk is made to the maze and opened as a new branch.

use vstd::prelude::*;
use vstd::arithmetic::div_mod::lemma_fundamental_div_mod_converse;
use crate::cell::{
    CellIndex, CellType, MazeError, in_grid, is_interior, is_node, seed, valid_size,
};
use crate::maze::Maze;
use crate::random::{RandomSource, seeded_state, shuffle_outcome};
use crate::tree::{
    cell_in_tree, is_perfect, is_tree, lemma_branch_grows_tree, lemma_perfect_counts,
    lemma_seed_is_tree, lemma_take_to_set, node_cells, open_separators,
};
use crate::walk::{branch_outcome, lemma_walk_geometry};

verus! {

/// The number of columns that hold nodes.
pub open spec fn node_columns(size: (usize, usize)) -> int {
    size.0 as int / 2
}

/// The number of nodes in a column.
pub open spec fn node_rows(size: (usize, usize)) -> int {
    size.1 as int / 2
}

/// The nodes of a grid of the given size, column by column and from low to
/// high coordinates within a column.
pub open spec fn node_seq(size: (usize, usize)) -> Seq<CellIndex> {
    Seq::new(
        (node_columns(size) * node_rows(size)) as nat,
        |k: int|
            ((2 * (k / node_rows(size)) + 1) as usize, (2 * (k % node_rows(size)) + 1) as usize),
    )
}

/// The place in `node_seq` of the node with the halved coordinates
/// `(column, row)`.
proof fn lemma_node_seq_index(size: (usize, usize), column: int, row: int)
    requires
        valid_size(size),
        0 <= column < node_columns(size),
        0 <= row < node_rows(size),
    ensures
        0 <= column * node_rows(size) + row < node_seq(size).len(),
        node_seq(size)[column * node_rows(size) + row] == (
            (2 * column + 1) as usize,
            (2 * row + 1) as usize,
        ),
{
    let rows = size.1 as int / 2;
    let columns = size.0 as int / 2;
    let k = column * rows + row;
    assert(0 <= column * rows && (column + 1) * rows <= columns * rows) by (nonlinear_arith)
        requires
            0 <= column < columns,
            0 <= rows,
    ;
    assert((column + 1) * rows == column * rows + rows) by (nonlinear_arith);
    lemma_fundamental_div_mod_converse(k, rows, column, row);
}

/// The halved coordinates of the node at place `k` of `node_seq`.
proof fn lemma_node_seq_entry(size: (usize, usize), k: int)
    requires
        valid_size(size),
        0 <= k < node_seq(size).len(),
    ensures
        0 <= k / node_rows(size) < node_columns(size),
        0 <= k % node_rows(size) < node_rows(size),
        k == (k / node_rows(size)) * node_rows(size) + k % node_rows(size),
        is_interior(size, node_seq(size)[k]),
        is_node(node_seq(size)[k]),
{
    let rows = size.1 as int / 2;
    let columns = size.0 as int / 2;
    let column = k / rows;
    let row = k % rows;
    assert(k == column * rows + row && 0 <= row < rows) by (nonlinear_arith)
        requires
            column == k / rows,
            row == k % rows,
            rows > 0,
    ;
    assert(0 <= column < columns) by (nonlinear_arith)
        requires
            k == column * rows + row,
            0 <= row < rows,
            0 <= k < columns * rows,
    ;
}

/// `node_seq` lists every node of the grid once: the grid has
/// `(width / 2) * (height / 2)` nodes.
pub proof fn lemma_node_seq(size: (usize, usize))
    requires
        valid_size(size),
    ensures
        node_seq(size).no_duplicates(),
        node_seq(size).to_set() == node_cells(size),
        node_cells(size).finite(),
        node_cells(size).len() == node_columns(size) * node_rows(size),
{
    let nodes = node_seq(size);
    assert forall|i: int, j: int|
        0 <= i < nodes.len() && 0 <= j < nodes.len() && i != j implies nodes[i] != nodes[j] by {
        lemma_node_seq_entry(size, i);
        lemma_node_seq_entry(size, j);
    }
    assert forall|c: CellIndex| nodes.contains(c) <==> node_cells(size).contains(c) by {
        if nodes.contains(c) {
            let k = choose|k: int| 0 <= k < nodes.len() && nodes[k] == c;
            lemma_node_seq_entry(size, k);
        }
        if node_cells(size).contains(c) {
            lemma_node_seq_index(size, c.0 as int / 2, c.1 as int / 2);
            assert(nodes[(c.0 as int / 2) * node_rows(size) + c.1 as int / 2] == c);
        }
    }
    assert(nodes.to_set() =~= node_cells(size));
    nodes.unique_seq_to_set();
}

/// How the maze with the open cells `paths` grows when the cells of `cells`
/// from position `from` on are taken in turn, with a generator in the given
/// state: the open cells at the end or the reason why a walk was given up,
/// and the state in which the generator is left.
///
/// A cell that is open when its turn comes is passed over. From any other a
/// loop-erased random walk is made and its cells are opened.
pub open spec fn growth_outcome(
    size: (usize, usize),
    paths: Set<CellIndex>,
    cells: Seq<CellIndex>,
    from: int,
    state: Seq<u8>,
    max_steps: nat,
) -> (Result<Set<CellIndex>, MazeError>, Seq<u8>)
    decreases cells.len() - from,
{
    if from < 0 || from >= cells.len() {
        (Ok(paths), state)
    } else if paths.contains(cells[from]) {
        growth_outcome(size, paths, cells, from + 1, state, max_steps)
    } else {
        let branch = branch_outcome(size, paths, cells[from], state, max_steps);
        match branch.0 {
            Ok(path) => growth_outcome(
                size,
                paths.union(path.to_set()),
                cells,
                from + 1,
                branch.1,
                max_steps,
            ),
            Err(e) => (Err(e), branch.1),
        }
    }
}

/// What Wilson's algorithm makes of the given sizes with a generator in the
/// given state: the open cells of the maze or the reason why there is none,
/// and the state in which the generator is left.
///
/// The maze grows from the seed alone, over the nodes of the grid in the
/// order in which the generator shuffles them.
pub open spec fn maze_outcome(
    x_size: usize,
    y_size: usize,
    state: Seq<u8>,
    max_steps: nat,
) -> (Result<Set<CellIndex>, MazeError>, Seq<u8>) {
    if x_size % 2 == 0 || y_size % 2 == 0 {
        (Err(MazeError::InvalidDimension), state)
    } else if x_size < 3 || y_size < 3 {
        (Err(MazeError::DegenerateGrid), state)
    } else {
        let shuffled = shuffle_outcome(node_seq((x_size, y_size)), state);
        growth_outcome((x_size, y_size), set![seed()], shuffled.0, 0, shuffled.1, max_steps)
    }
}

/// `maze` is the maze that Wilson's algorithm makes of the given sizes with a
/// generator in the given state.
pub open spec fn is_outcome(
    maze: Maze,
    x_size: usize,
    y_size: usize,
    state: Seq<u8>,
    max_steps: nat,
) -> bool {
    &&& maze.size() == (x_size, y_size)
    &&& maze_outcome(x_size, y_size, state, max_steps).0 == Ok::<Set<CellIndex>, MazeError>(maze@)
}

/// Generation is deterministic: two mazes made of the same sizes, with the
/// same limit on the steps of a walk, by generators started from the same
/// seed have the same size and the same open cells.
pub proof fn lemma_same_seed_same_maze(
    first: Maze,
    second: Maze,
    x_size: usize,
    y_size: usize,
    seed: u64,
    max_steps: nat,
)
    requires
        is_outcome(first, x_size, y_size, seeded_state(seed), max_steps),
        is_outcome(second, x_size, y_size, seeded_state(seed), max_steps),
    ensures
        first.size() == second.size(),
        first@ == second@,
{
}

/// Two sequences that hold the same cells equally often hold the same cells.
proof fn lemma_same_cells(a: Seq<CellIndex>, b: Seq<CellIndex>, c: CellIndex)
    requires
        a.to_multiset() == b.to_multiset(),
        a.contains(c),
    ensures
        b.contains(c),
{
    a.to_multiset_ensures();
    b.to_multiset_ensures();
    assert(a.to_multiset().count(c) > 0);
    assert(b.to_multiset().count(c) > 0);
}

impl Maze {
    /// The nodes of the grid: the cells that the finished maze must hold.
    pub fn necessary_cells(&self) -> (cells: Vec<CellIndex>)
        requires
            self.wf(),
        ensures
            cells@ == node_seq(self.size()),
    {
        let size = self.size();
        let ghost rows = size.1 as int / 2;
        let mut cells: Vec<CellIndex> = Vec::new();
        let mut i: usize = 1;
        while i < size.0
            invariant
                valid_size(size),
                rows == size.1 as int / 2,
                i % 2 == 1,
                1 <= i <= size.0,
                cells@.len() == (i / 2) * rows,
                forall|k: int| 0 <= k < cells@.len() ==> cells@[k] == node_seq(size)[k],
            decreases size.0 - i,
        {
            let mut j: usize = 1;
            while j < size.1
                invariant
                    valid_size(size),
                    rows == size.1 as int / 2,
                    i % 2 == 1,
                    1 <= i < size.0,
                    j % 2 == 1,
                    1 <= j <= size.1,
                    cells@.len() == (i / 2) * rows + j / 2,
                    forall|k: int| 0 <= k < cells@.len() ==> cells@[k] == node_seq(size)[k],
                decreases size.1 - j,
            {
                proof {
                    lemma_node_seq_index(size, i as int / 2, j as int / 2);
                }
                cells.push((i, j));
                j += 2;
            }
            proof {
                assert((i as int / 2 + 1) * rows == (i as int / 2) * rows + rows)
                    by (nonlinear_arith);
            }
            i += 2;
        }
        proof {
            assert(cells@ =~= node_seq(size));
        }
        cells
    }

    /// Opens every cell of `path`.
    pub fn carve(&mut self, path: &Vec<CellIndex>)
        requires
            old(self).wf(),
            forall|i: int| 0 <= i < path@.len() ==> in_grid(old(self).size(), #[trigger] path@[i]),
        ensures
            final(self).wf(),
            final(self).size() == old(self).size(),
            final(self)@ == old(self)@.union(path@.to_set()),
    {
        let n = path.len();
        let mut i: usize = 0;
        proof {
            assert(path@.take(0).to_set() =~= Set::<CellIndex>::empty());
            assert(self@ =~= old(self)@.union(path@.take(0).to_set()));
        }
        while i < n
            invariant
                n == path@.len(),
                i <= n,
                self.wf(),
                self.size() == old(self).size(),
                forall|k: int| 0 <= k < path@.len() ==> in_grid(self.size(), #[trigger] path@[k]),
                self@ == old(self)@.union(path@.take(i as int).to_set()),
            decreases n - i,
        {
            let cell = path[i];
            self.open_cell(cell);
            proof {
                lemma_take_to_set(path@, i as int);
                assert(self@ =~= old(self)@.union(path@.take(i + 1).to_set()));
            }
            i += 1;
        }
        proof {
            assert(path@.take(n as int) =~= path@);
        }
    }

    /// Grows a maze of the given size with the random choices of `source`.
    ///
    /// An even dimension is refused as `InvalidDimension`, an odd dimension
    /// below three as `DegenerateGrid`. A random walk that has not reached
    /// the maze after `max_steps` moves ends the attempt with `WalkTooLong`,
    /// and no maze is returned. Otherwise the maze returned is perfect.
    pub fn with_source(
        x_size: usize,
        y_size: usize,
        source: &mut RandomSource,
        max_steps: usize,
    ) -> (built: Result<Maze, MazeError>)
        ensures
            built == Err::<Maze, MazeError>(MazeError::InvalidDimension) <==> (x_size % 2 == 0
                || y_size % 2 == 0),
            built == Err::<Maze, MazeError>(MazeError::DegenerateGrid) <==> (x_size % 2 == 1
                && y_size % 2 == 1 && (x_size < 3 || y_size < 3)),
            built == Err::<Maze, MazeError>(MazeError::WalkTooLong) ==> {
                &&& valid_size((x_size, y_size))
                &&& x_size > 3 || y_size > 3
                &&& 2 * max_steps + 1 <= usize::MAX
            },
            valid_size((x_size, y_size)) && (x_size > 3 || y_size > 3) && max_steps == 0 ==> built
                == Err::<Maze, MazeError>(MazeError::WalkTooLong),
            x_size == 3 && y_size == 3 ==> (built matches Ok(maze) && maze@ == set![seed()]),
            built matches Ok(maze) ==> {
                &&& maze.wf()
                &&& maze.size() == (x_size, y_size)
                &&& is_perfect(maze.size(), maze@)
                &&& open_separators(maze@).len() == node_columns(maze.size()) * node_rows(
                    maze.size(),
                ) - 1
            },
            built matches Ok(maze) ==> maze_outcome(
                x_size,
                y_size,
                old(source).state(),
                max_steps as nat,
            ) == (Ok::<Set<CellIndex>, MazeError>(maze@), final(source).state()),
            built matches Err(e) ==> maze_outcome(
                x_size,
                y_size,
                old(source).state(),
                max_steps as nat,
            ) == (Err::<Set<CellIndex>, MazeError>(e), final(source).state()),
    {
        let mut maze = match Maze::blank(x_size, y_size) {
            Err(e) => {
                return Err(e);
            },
            Ok(maze) => maze,
        };
        let ghost size = (x_size, y_size);
        let ghost first_state = source.state();
        let mut necessary_cells = maze.necessary_cells();
        source.shuffle(&mut necessary_cells);
        let ghost outcome = maze_outcome(x_size, y_size, first_state, max_steps as nat);
        proof {
            lemma_seed_is_tree(size);
            lemma_node_seq(size);
            assert forall|i: int| 0 <= i < necessary_cells@.len() implies node_cells(
                size,
            ).contains(#[trigger] necessary_cells@[i]) by {
                assert(necessary_cells@.contains(necessary_cells@[i]));
                lemma_same_cells(necessary_cells@, node_seq(size), necessary_cells@[i]);
                assert(node_seq(size).to_set().contains(necessary_cells@[i]));
            }
        }
        let n = necessary_cells.len();
        let mut k: usize = 0;
        while k < n
            invariant
                valid_size(size),
                size == (x_size, y_size),
                n == necessary_cells@.len(),
                necessary_cells@.to_multiset() == node_seq(size).to_multiset(),
                k <= n,
                maze.wf(),
                maze.size() == size,
                is_tree(size, maze@),
                max_steps == 0 ==> maze@ == set![seed()],
                first_state == old(source).state(),
                outcome == maze_outcome(x_size, y_size, first_state, max_steps as nat),
                outcome == growth_outcome(
                    size,
                    maze@,
                    necessary_cells@,
                    k as int,
                    source.state(),
                    max_steps as nat,
                ),
                forall|i: int|
                    0 <= i < necessary_cells@.len() ==> node_cells(size).contains(
                        #[trigger] necessary_cells@[i],
                    ),
                forall|i: int| 0 <= i < k ==> maze@.contains(#[trigger] necessary_cells@[i]),
            decreases n - k,
        {
            let walk_start_point = necessary_cells[k];
            assert(node_cells(size).contains(necessary_cells@[k as int]));
            if maze.cell(walk_start_point) == CellType::Wall {
                match maze.generate_loop_erased_random_walk(walk_start_point, source, max_steps) {
                    Err(e) => {
                        return Err(e);
                    },
                    Ok(walk) => {
                        proof {
                            lemma_walk_geometry(size, maze@, walk@, walk_start_point);
                            lemma_branch_grows_tree(size, maze@, walk@, walk_start_point);
                            assert(walk@.contains(walk@[0]));
                        }
                        maze.carve(&walk);
                    },
                }
            }
            k += 1;
        }
        proof {
            assert forall|c: CellIndex|
                is_interior(size, c) && is_node(c) implies #[trigger] maze@.contains(c) by {
                assert(node_cells(size).contains(c));
                assert(node_seq(size).to_set().contains(c));
                assert(node_seq(size).contains(c));
                lemma_same_cells(node_seq(size), necessary_cells@, c);
                let i = choose|i: int| 0 <= i < necessary_cells@.len() && necessary_cells@[i] == c;
                assert(maze@.contains(necessary_cells@[i]));
            }
            lemma_perfect_counts(size, maze@);
            if x_size == 3 && y_size == 3 {
                assert forall|c: CellIndex| maze@.contains(c) implies c == seed() by {
                    assert(cell_in_tree(size, maze@, c));
                }
                assert(maze@ =~= set![seed()]);
            }
            if max_steps == 0 && (x_size > 3 || y_size > 3) {
                let other: CellIndex = if x_size > 3 {
                    (3, 1)
                } else {
                    (1, 3)
                };
                assert(is_interior(size, other) && is_node(other));
                assert(maze@.contains(other));
            }
        }
        Ok(maze)
    }

    /// Generates a new maze with Wilson's algorithm.
    ///
    /// Both sizes must be odd and at least three; the maze returned for such
    /// sizes is perfect. The random choices come from a source started from
    /// the entropy of the operating system, and no limit is set to the length
    /// of a walk.
    pub fn new(x_size: usize, y_size: usize) -> (built: Result<Maze, MazeError>)
        ensures
            built == Err::<Maze, MazeError>(MazeError::InvalidDimension) <==> (x_size % 2 == 0
                || y_size % 2 == 0),
            built == Err::<Maze, MazeError>(MazeError::DegenerateGrid) <==> (x_size % 2 == 1
                && y_size % 2 == 1 && (x_size < 3 || y_size < 3)),
            built is Ok <==> valid_size((x_size, y_size)),
            x_size == 3 && y_size == 3 ==> (built matches Ok(maze) && maze@ == set![seed()]),
            built matches Ok(maze) ==> {
                &&& maze.wf()
                &&& maze.size() == (x_size, y_size)
                &&& is_perfect(maze.size(), maze@)
                &&& open_separators(maze@).len() == node_columns(maze.size()) * node_rows(
                    maze.size(),
                ) - 1
            },
    {
        let mut source = RandomSource::from_entropy();
        Maze::with_source(x_size, y_size, &mut source, usize::MAX)
    }
}

} // verus!
