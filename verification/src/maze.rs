//! The grid that holds a maze.
//!
//! A maze is modelled by its size and by the set of its open cells. The cells
//! only ever change from `Wall` to `Path`.

use vstd::prelude::*;
use crate::cell::{CellIndex, CellType, MazeError, in_grid, seed, valid_size};

verus! {

/// A rectangular grid of cells, each a wall or a piece of path.
pub struct Maze {
    cells: Vec<Vec<CellType>>,
    size: (usize, usize),
}

impl View for Maze {
    type V = Set<CellIndex>;

    /// The set of the cells that are `Path`.
    closed spec fn view(&self) -> Set<CellIndex> {
        Set::new(
            |c: CellIndex|
                c.0 < self.cells@.len() && c.1 < self.cells@[c.0 as int]@.len()
                    && self.cells@[c.0 as int]@[c.1 as int] == CellType::Path,
        )
    }
}

impl Maze {
    /// Width and height, in cells.
    pub closed spec fn spec_size(&self) -> (usize, usize) {
        self.size
    }

    /// The stored columns agree with the stored size.
    pub closed spec fn well_shaped(&self) -> bool {
        &&& self.cells@.len() == self.size.0
        &&& forall|x: int|
            0 <= x < self.cells@.len() ==> (#[trigger] self.cells@[x])@.len() == self.size.1
    }

    /// The grid is a valid maze under construction: its size is odd and at
    /// least three on each axis, the seed node is open, and every open cell
    /// lies on the grid.
    pub open spec fn wf(&self) -> bool {
        &&& self.well_shaped()
        &&& valid_size(self.size())
        &&& self@.contains(seed())
        &&& forall|c: CellIndex| #[trigger] self@.contains(c) ==> in_grid(self.size(), c)
    }

    /// Width and height, in cells.
    #[verifier::when_used_as_spec(spec_size)]
    pub fn size(&self) -> (size: (usize, usize))
        ensures
            size == self.spec_size(),
    {
        self.size
    }

    /// The grid of the given size in which only the seed node `(1, 1)` is
    /// open.
    ///
    /// An even dimension is refused as `InvalidDimension`; an odd dimension
    /// below three as `DegenerateGrid`, since such a grid cannot hold the
    /// seed node inside its border.
    pub fn blank(x_size: usize, y_size: usize) -> (made: Result<Maze, MazeError>)
        ensures
            made == Err::<Maze, MazeError>(MazeError::InvalidDimension) <==> (x_size % 2 == 0
                || y_size % 2 == 0),
            made == Err::<Maze, MazeError>(MazeError::DegenerateGrid) <==> (x_size % 2 == 1
                && y_size % 2 == 1 && (x_size < 3 || y_size < 3)),
            made is Ok <==> valid_size((x_size, y_size)),
            made matches Ok(maze) ==> {
                &&& maze.wf()
                &&& maze.size() == (x_size, y_size)
                &&& maze@ == set![seed()]
            },
    {
        if x_size % 2 == 0 || y_size % 2 == 0 {
            return Err(MazeError::InvalidDimension);
        }
        if x_size < 3 || y_size < 3 {
            return Err(MazeError::DegenerateGrid);
        }
        let mut cells: Vec<Vec<CellType>> = Vec::new();
        let mut x: usize = 0;
        while x < x_size
            invariant
                x <= x_size,
                cells@.len() == x,
                forall|i: int| 0 <= i < x ==> (#[trigger] cells@[i])@.len() == y_size,
                forall|i: int, j: int|
                    0 <= i < x && 0 <= j < y_size ==> (#[trigger] cells@[i]@[j]) == CellType::Wall,
            decreases x_size - x,
        {
            let mut column: Vec<CellType> = Vec::new();
            let mut y: usize = 0;
            while y < y_size
                invariant
                    y <= y_size,
                    column@.len() == y,
                    forall|j: int| 0 <= j < y ==> (#[trigger] column@[j]) == CellType::Wall,
                decreases y_size - y,
            {
                column.push(CellType::Wall);
                y += 1;
            }
            cells.push(column);
            x += 1;
        }
        cells[1][1] = CellType::Path;
        let maze = Maze { cells, size: (x_size, y_size) };
        proof {
            assert(maze@ =~= set![seed()]);
        }
        Ok(maze)
    }

    /// The state of the cell at `pos`.
    pub fn cell(&self, pos: CellIndex) -> (state: CellType)
        requires
            self.wf(),
            in_grid(self.size(), pos),
        ensures
            state == CellType::Path <==> self@.contains(pos),
            state == CellType::Wall <==> !self@.contains(pos),
    {
        self.cells[pos.0][pos.1]
    }

    /// Opens the cell at `pos`: it becomes `Path`, whatever it was.
    pub fn open_cell(&mut self, pos: CellIndex)
        requires
            old(self).wf(),
            in_grid(old(self).size(), pos),
        ensures
            final(self).wf(),
            final(self).size() == old(self).size(),
            final(self)@ == old(self)@.insert(pos),
    {
        self.cells[pos.0][pos.1] = CellType::Path;
        proof {
            assert(self@ =~= old(self)@.insert(pos));
        }
    }
}

} // verus!
