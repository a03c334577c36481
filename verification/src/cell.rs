//! Cells of the grid and the geometry of the maze graph laid over them.
//!
//! The vertices of the maze graph are the *node cells*, whose coordinates are
//! both odd. Two nodes that lie two grid units apart on one axis are
//! neighbours, and the cell between them is the *passage* that joins them
//! once it is opened.

use vstd::prelude::*;

verus! {

/// Zero-based grid coordinates `(x, y)`.
pub type CellIndex = (usize, usize);

/// The state of one grid cell.
#[derive(Clone, Copy, Debug, PartialEq, Eq, Structural)]
pub enum CellType {
    Wall,
    Path,
}

/// Why a maze could not be built.
#[derive(Clone, Copy, Debug, PartialEq, Eq, Structural)]
pub enum MazeError {
    /// A requested dimension is even.
    InvalidDimension,
    /// A dimension is below three, so the grid has no room for a node and
    /// the border around it.
    DegenerateGrid,
    /// A random walk used up its allowance of steps before it reached the
    /// maze.
    WalkTooLong,
}

/// The node at which every maze starts to grow.
pub open spec fn seed() -> CellIndex {
    (1usize, 1usize)
}

/// Both dimensions are odd and at least three.
pub open spec fn valid_size(size: (usize, usize)) -> bool {
    &&& size.0 % 2 == 1
    &&& size.1 % 2 == 1
    &&& size.0 >= 3
    &&& size.1 >= 3
}

/// `c` lies on a grid of the given size.
pub open spec fn in_grid(size: (usize, usize), c: CellIndex) -> bool {
    c.0 < size.0 && c.1 < size.1
}

/// `c` lies on the grid and off its outer border.
pub open spec fn is_interior(size: (usize, usize), c: CellIndex) -> bool {
    &&& 1 <= c.0 <= size.0 - 2
    &&& 1 <= c.1 <= size.1 - 2
}

/// A node cell has two odd coordinates: it is a vertex of the maze graph.
pub open spec fn is_node(c: CellIndex) -> bool {
    c.0 % 2 == 1 && c.1 % 2 == 1
}

/// A separator is any cell that is not a node.
pub open spec fn is_separator(c: CellIndex) -> bool {
    !is_node(c)
}

/// A passage is a separator with exactly one even coordinate: it lies
/// directly between two neighbouring node positions.
pub open spec fn is_passage(c: CellIndex) -> bool {
    (c.0 % 2 == 1) != (c.1 % 2 == 1)
}

/// The two cells are one grid unit apart along one axis.
pub open spec fn adjacent(a: CellIndex, b: CellIndex) -> bool {
    ||| (a.1 == b.1 && (a.0 + 1 == b.0 || b.0 + 1 == a.0))
    ||| (a.0 == b.0 && (a.1 + 1 == b.1 || b.1 + 1 == a.1))
}

/// The node position on the lower side of the passage `p`.
pub open spec fn lower_end(p: CellIndex) -> CellIndex {
    if p.0 % 2 == 0 {
        ((p.0 - 1) as usize, p.1)
    } else {
        (p.0, (p.1 - 1) as usize)
    }
}

/// The node position on the upper side of the passage `p`.
pub open spec fn upper_end(p: CellIndex) -> CellIndex {
    if p.0 % 2 == 0 {
        ((p.0 + 1) as usize, p.1)
    } else {
        (p.0, (p.1 + 1) as usize)
    }
}

impl MazeError {
    /// A sentence that says what went wrong.
    pub fn message(&self) -> (text: &'static str)
        ensures
            *self == MazeError::InvalidDimension ==> text == "Maze sizes must be odd numbers",
            *self == MazeError::DegenerateGrid ==> text == "Maze sizes must be at least 3",
            *self == MazeError::WalkTooLong ==> text
                == "A random walk ran out of steps before it reached the maze",
    {
        match self {
            MazeError::InvalidDimension => "Maze sizes must be odd numbers",
            MazeError::DegenerateGrid => "Maze sizes must be at least 3",
            MazeError::WalkTooLong => "A random walk ran out of steps before it reached the maze",
        }
    }
}

/// A node next to a passage is one of the passage's two ends.
pub proof fn lemma_node_beside_passage(p: CellIndex, n: CellIndex)
    requires
        is_passage(p),
        is_node(n),
        adjacent(p, n),
    ensures
        n == lower_end(p) || n == upper_end(p),
{
}

} // verus!
