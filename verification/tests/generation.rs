use wilson_maze::cell::{CellIndex, CellType, MazeError};
use wilson_maze::maze::Maze;
use wilson_maze::random::RandomSource;

fn is_open(maze: &Maze, x: usize, y: usize) -> bool {
    maze.cell((x, y)) == CellType::Path
}

fn open_cells(maze: &Maze) -> Vec<CellIndex> {
    let (w, h) = maze.size();
    let mut cells = Vec::new();
    for x in 0..w {
        for y in 0..h {
            if is_open(maze, x, y) {
                cells.push((x, y));
            }
        }
    }
    cells
}

fn count_open_nodes(maze: &Maze) -> usize {
    open_cells(maze).iter().filter(|c| c.0 % 2 == 1 && c.1 % 2 == 1).count()
}

fn count_open_separators(maze: &Maze) -> usize {
    open_cells(maze).iter().filter(|c| !(c.0 % 2 == 1 && c.1 % 2 == 1)).count()
}

fn reachable_from_seed(maze: &Maze) -> usize {
    let (w, h) = maze.size();
    let mut seen = vec![vec![false; h]; w];
    let mut stack = vec![(1usize, 1usize)];
    seen[1][1] = true;
    let mut count = 0;
    while let Some((x, y)) = stack.pop() {
        count += 1;
        let mut around = Vec::new();
        if x > 0 {
            around.push((x - 1, y));
        }
        if x + 1 < w {
            around.push((x + 1, y));
        }
        if y > 0 {
            around.push((x, y - 1));
        }
        if y + 1 < h {
            around.push((x, y + 1));
        }
        for (nx, ny) in around {
            if !seen[nx][ny] && is_open(maze, nx, ny) {
                seen[nx][ny] = true;
                stack.push((nx, ny));
            }
        }
    }
    count
}

fn assert_perfect(maze: &Maze, w: usize, h: usize) {
    assert_eq!(maze.size(), (w, h));
    let nodes = (w / 2) * (h / 2);
    for x in (1..w).step_by(2) {
        for y in (1..h).step_by(2) {
            assert!(is_open(maze, x, y));
        }
    }
    assert_eq!(count_open_nodes(maze), nodes);
    assert_eq!(count_open_separators(maze), nodes - 1);
    assert_eq!(reachable_from_seed(maze), 2 * nodes - 1);
    for (x, y) in open_cells(maze) {
        assert!(x >= 1 && x + 2 <= w && y >= 1 && y + 2 <= h);
        assert!(x % 2 == 1 || y % 2 == 1);
        if x % 2 == 0 {
            assert!(is_open(maze, x - 1, y) && is_open(maze, x + 1, y));
        }
        if y % 2 == 0 {
            assert!(is_open(maze, x, y - 1) && is_open(maze, x, y + 1));
        }
    }
}

#[test]
fn new_rejects_even_sizes() {
    assert_eq!(Maze::new(4, 5).err(), Some(MazeError::InvalidDimension));
    assert_eq!(Maze::new(5, 4).err(), Some(MazeError::InvalidDimension));
    assert_eq!(Maze::new(4, 4).err(), Some(MazeError::InvalidDimension));
    assert_eq!(Maze::new(0, 0).err(), Some(MazeError::InvalidDimension));
    assert_eq!(Maze::new(0, 5).err(), Some(MazeError::InvalidDimension));
    assert_eq!(Maze::new(2, 1).err(), Some(MazeError::InvalidDimension));
}

#[test]
fn new_rejects_sizes_below_three() {
    assert_eq!(Maze::new(1, 1).err(), Some(MazeError::DegenerateGrid));
    assert_eq!(Maze::new(1, 5).err(), Some(MazeError::DegenerateGrid));
    assert_eq!(Maze::new(5, 1).err(), Some(MazeError::DegenerateGrid));
    assert_eq!(Maze::new(1, 3).err(), Some(MazeError::DegenerateGrid));
}

#[test]
fn new_three_by_three_is_the_seed_alone() {
    let maze = Maze::new(3, 3).ok().unwrap();
    assert_eq!(maze.size(), (3, 3));
    assert_eq!(open_cells(&maze), vec![(1, 1)]);
    assert_perfect(&maze, 3, 3);
}

#[test]
fn three_by_three_needs_no_walk() {
    let mut source = RandomSource::from_seed(1);
    let maze = Maze::with_source(3, 3, &mut source, 0).ok().unwrap();
    assert_eq!(open_cells(&maze), vec![(1, 1)]);
}

#[test]
fn new_five_by_five_joins_four_nodes_by_three_passages() {
    let maze = Maze::new(5, 5).ok().unwrap();
    assert_eq!(count_open_nodes(&maze), 4);
    assert_eq!(count_open_separators(&maze), 3);
    assert_eq!(open_cells(&maze).len(), 7);
    assert_perfect(&maze, 5, 5);
}

#[test]
fn five_by_five_is_perfect_for_many_seeds() {
    for seed in 0..200u64 {
        let mut source = RandomSource::from_seed(seed);
        let maze = Maze::with_source(5, 5, &mut source, usize::MAX).ok().unwrap();
        assert_perfect(&maze, 5, 5);
    }
}

#[test]
fn narrow_grids_are_perfect() {
    let mut source = RandomSource::from_seed(11);
    let maze = Maze::with_source(3, 9, &mut source, usize::MAX).ok().unwrap();
    assert_perfect(&maze, 3, 9);
    assert_eq!(
        open_cells(&maze),
        vec![(1, 1), (1, 2), (1, 3), (1, 4), (1, 5), (1, 6), (1, 7)]
    );
    let maze = Maze::with_source(9, 3, &mut source, usize::MAX).ok().unwrap();
    assert_perfect(&maze, 9, 3);
}

#[test]
fn larger_mazes_are_perfect() {
    let mut source = RandomSource::from_seed(2024);
    let maze = Maze::with_source(21, 13, &mut source, usize::MAX).ok().unwrap();
    assert_perfect(&maze, 21, 13);
    let maze = Maze::new(31, 31).ok().unwrap();
    assert_perfect(&maze, 31, 31);
}

#[test]
fn same_seed_gives_the_same_maze() {
    for seed in [0u64, 1, 7, 12345] {
        let mut first = RandomSource::from_seed(seed);
        let mut second = RandomSource::from_seed(seed);
        let a = Maze::with_source(15, 11, &mut first, usize::MAX).ok().unwrap();
        let b = Maze::with_source(15, 11, &mut second, usize::MAX).ok().unwrap();
        assert_eq!(a.size(), b.size());
        assert_eq!(open_cells(&a), open_cells(&b));
    }
}

#[test]
fn different_seeds_give_different_mazes() {
    let mut first = RandomSource::from_seed(1);
    let mut second = RandomSource::from_seed(2);
    let a = Maze::with_source(21, 21, &mut first, usize::MAX).ok().unwrap();
    let b = Maze::with_source(21, 21, &mut second, usize::MAX).ok().unwrap();
    assert_ne!(open_cells(&a), open_cells(&b));
}

#[test]
fn a_walk_without_steps_is_too_long() {
    let mut source = RandomSource::from_seed(3);
    assert_eq!(
        Maze::with_source(5, 5, &mut source, 0).err(),
        Some(MazeError::WalkTooLong)
    );
    assert_eq!(
        Maze::with_source(3, 5, &mut source, 0).err(),
        Some(MazeError::WalkTooLong)
    );
}

#[test]
fn a_step_limit_is_checked_after_the_size() {
    let mut source = RandomSource::from_seed(3);
    assert_eq!(
        Maze::with_source(4, 5, &mut source, 0).err(),
        Some(MazeError::InvalidDimension)
    );
    assert_eq!(
        Maze::with_source(1, 5, &mut source, 0).err(),
        Some(MazeError::DegenerateGrid)
    );
}

#[test]
fn blank_grid_holds_the_seed_alone() {
    let maze = Maze::blank(5, 7).ok().unwrap();
    assert_eq!(maze.size(), (5, 7));
    assert_eq!(open_cells(&maze), vec![(1, 1)]);
    assert_eq!(maze.cell((0, 0)), CellType::Wall);
    assert_eq!(maze.cell((1, 1)), CellType::Path);
    assert_eq!(maze.cell((4, 6)), CellType::Wall);
}

#[test]
fn blank_grid_reports_bad_sizes() {
    assert_eq!(Maze::blank(6, 7).err(), Some(MazeError::InvalidDimension));
    assert_eq!(Maze::blank(7, 6).err(), Some(MazeError::InvalidDimension));
    assert_eq!(Maze::blank(1, 1).err(), Some(MazeError::DegenerateGrid));
    assert_eq!(Maze::blank(3, 1).err(), Some(MazeError::DegenerateGrid));
    assert!(Maze::blank(3, 3).is_ok());
}

#[test]
fn open_cell_opens_one_cell() {
    let mut maze = Maze::blank(5, 5).ok().unwrap();
    maze.open_cell((2, 1));
    assert_eq!(open_cells(&maze), vec![(1, 1), (2, 1)]);
    maze.open_cell((2, 1));
    assert_eq!(open_cells(&maze), vec![(1, 1), (2, 1)]);
}

#[test]
fn necessary_cells_are_the_nodes_in_order() {
    let maze = Maze::blank(5, 5).ok().unwrap();
    assert_eq!(maze.necessary_cells(), vec![(1, 1), (1, 3), (3, 1), (3, 3)]);
    let maze = Maze::blank(3, 3).ok().unwrap();
    assert_eq!(maze.necessary_cells(), vec![(1, 1)]);
    let maze = Maze::blank(7, 5).ok().unwrap();
    assert_eq!(
        maze.necessary_cells(),
        vec![(1, 1), (1, 3), (3, 1), (3, 3), (5, 1), (5, 3)]
    );
}

#[test]
fn carve_opens_every_cell_of_the_path() {
    let mut maze = Maze::blank(7, 7).ok().unwrap();
    maze.carve(&vec![(5, 1), (4, 1), (3, 1), (2, 1), (1, 1)]);
    assert_eq!(
        open_cells(&maze),
        vec![(1, 1), (2, 1), (3, 1), (4, 1), (5, 1)]
    );
    maze.carve(&vec![]);
    assert_eq!(open_cells(&maze).len(), 5);
}

#[test]
fn error_messages_name_the_fault() {
    assert_eq!(
        MazeError::InvalidDimension.message(),
        "Maze sizes must be odd numbers"
    );
    assert_eq!(
        MazeError::DegenerateGrid.message(),
        "Maze sizes must be at least 3"
    );
    assert_eq!(
        MazeError::WalkTooLong.message(),
        "A random walk ran out of steps before it reached the maze"
    );
}
