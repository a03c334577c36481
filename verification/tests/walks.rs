use wilson_maze::cell::{CellIndex, CellType, MazeError};
use wilson_maze::erasure::erase_loops;
use wilson_maze::maze::Maze;
use wilson_maze::random::RandomSource;

fn assert_is_walk(maze: &Maze, walk: &[CellIndex], start: CellIndex) {
    assert_eq!(walk.len() % 2, 1);
    assert_eq!(walk[0], start);
    assert_eq!(maze.cell(walk[walk.len() - 1]), CellType::Path);
    let mut i = 0;
    while i + 2 < walk.len() {
        assert_eq!(maze.cell(walk[i]), CellType::Wall);
        let step = [walk[i + 1], walk[i + 2]];
        assert!(maze.generate_candidate_cells(walk[i]).contains(&step));
        i += 2;
    }
}

#[test]
fn candidates_of_a_corner_node() {
    let maze = Maze::blank(5, 5).ok().unwrap();
    assert_eq!(
        maze.generate_candidate_cells((1, 1)),
        vec![[(2, 1), (3, 1)], [(1, 2), (1, 3)]]
    );
    assert_eq!(
        maze.generate_candidate_cells((3, 3)),
        vec![[(2, 3), (1, 3)], [(3, 2), (3, 1)]]
    );
    assert_eq!(
        maze.generate_candidate_cells((3, 1)),
        vec![[(2, 1), (1, 1)], [(3, 2), (3, 3)]]
    );
}

#[test]
fn candidates_of_an_inner_node_come_in_order() {
    let maze = Maze::blank(7, 9).ok().unwrap();
    assert_eq!(
        maze.generate_candidate_cells((3, 5)),
        vec![
            [(2, 5), (1, 5)],
            [(4, 5), (5, 5)],
            [(3, 4), (3, 3)],
            [(3, 6), (3, 7)]
        ]
    );
    assert_eq!(
        maze.generate_candidate_cells((5, 7)),
        vec![[(4, 7), (3, 7)], [(5, 6), (5, 5)]]
    );
    assert_eq!(
        maze.generate_candidate_cells((3, 1)),
        vec![[(2, 1), (1, 1)], [(4, 1), (5, 1)], [(3, 2), (3, 3)]]
    );
}

#[test]
fn candidates_on_the_smallest_grid() {
    let maze = Maze::blank(3, 3).ok().unwrap();
    assert_eq!(maze.generate_candidate_cells((1, 1)), Vec::<[CellIndex; 2]>::new());
    let maze = Maze::blank(3, 5).ok().unwrap();
    assert_eq!(maze.generate_candidate_cells((1, 3)), vec![[(1, 2), (1, 1)]]);
    assert_eq!(maze.generate_candidate_cells((1, 1)), vec![[(1, 2), (1, 3)]]);
}

#[test]
fn erase_loops_cuts_a_loop() {
    let a = (1, 1);
    let b = (2, 1);
    let c = (3, 1);
    let d = (3, 2);
    let e = (3, 3);
    assert_eq!(erase_loops(&vec![a, b, c, b, a, b, c, d, e]), vec![a, b, c, d, e]);
    assert_eq!(erase_loops(&vec![c, b, a, b, c, d, e]), vec![c, d, e]);
    assert_eq!(erase_loops(&vec![a, b, c]), vec![a, b, c]);
}

#[test]
fn erase_loops_jumps_to_the_last_visit() {
    let walk: Vec<CellIndex> = vec![(0, 0), (5, 5), (0, 0), (6, 6), (0, 0), (7, 7), (8, 8)];
    assert_eq!(erase_loops(&walk), vec![(0, 0), (7, 7), (8, 8)]);
    let walk: Vec<CellIndex> = vec![(0, 0), (1, 0), (2, 0), (1, 0), (3, 0), (0, 0), (4, 0), (9, 9)];
    assert_eq!(erase_loops(&walk), vec![(0, 0), (4, 0), (9, 9)]);
}

#[test]
fn erase_loops_on_short_walks() {
    assert_eq!(erase_loops(&vec![]), Vec::<CellIndex>::new());
    assert_eq!(erase_loops(&vec![(1, 1)]), vec![(1, 1)]);
    assert_eq!(erase_loops(&vec![(1, 1), (1, 2)]), vec![(1, 1), (1, 2)]);
    assert_eq!(erase_loops(&vec![(1, 1), (1, 1)]), vec![(1, 1), (1, 1)]);
}

#[test]
fn erase_loops_never_matches_the_final_cell() {
    let a = (1, 1);
    let b = (2, 1);
    assert_eq!(erase_loops(&vec![a, b, a]), vec![a, b, a]);
    assert_eq!(erase_loops(&vec![a, b, a, b, a]), vec![a, b, a]);
    assert_eq!(erase_loops(&vec![b, a, b, a, a]), vec![b, a, a]);
}

#[test]
fn erase_loops_twice_is_erase_loops_once() {
    let mut source = RandomSource::from_seed(99);
    let maze = Maze::blank(9, 9).ok().unwrap();
    for _ in 0..50 {
        let walk = maze.random_walk((7, 7), &mut source, usize::MAX).ok().unwrap();
        let once = erase_loops(&walk);
        let twice = erase_loops(&once);
        assert_eq!(once, twice);
        for i in 0..once.len() {
            for j in (i + 1)..once.len() {
                assert_ne!(once[i], once[j]);
            }
        }
    }
}

#[test]
fn random_walk_from_an_open_cell_stays_there() {
    let mut source = RandomSource::from_seed(5);
    let maze = Maze::blank(5, 5).ok().unwrap();
    assert_eq!(maze.random_walk((1, 1), &mut source, 10).ok(), Some(vec![(1, 1)]));
    assert_eq!(maze.random_walk((1, 1), &mut source, 0).ok(), Some(vec![(1, 1)]));
    assert_eq!(
        maze.generate_loop_erased_random_walk((1, 1), &mut source, 0).ok(),
        Some(vec![(1, 1)])
    );
}

#[test]
fn random_walk_ends_on_the_maze() {
    let maze = Maze::blank(9, 7).ok().unwrap();
    for seed in 0..50u64 {
        let mut source = RandomSource::from_seed(seed);
        let walk = maze.random_walk((7, 5), &mut source, usize::MAX).ok().unwrap();
        assert!(walk.len() >= 11);
        assert_is_walk(&maze, &walk, (7, 5));
    }
}

#[test]
fn random_walk_gives_up_at_the_step_limit() {
    let maze = Maze::blank(9, 9).ok().unwrap();
    for seed in 0..20u64 {
        let mut source = RandomSource::from_seed(seed);
        assert_eq!(
            maze.random_walk((7, 7), &mut source, 5).err(),
            Some(MazeError::WalkTooLong)
        );
        assert_eq!(
            maze.random_walk((3, 1), &mut source, 0).err(),
            Some(MazeError::WalkTooLong)
        );
        assert_eq!(
            maze.generate_loop_erased_random_walk((7, 7), &mut source, 5).err(),
            Some(MazeError::WalkTooLong)
        );
    }
}

#[test]
fn random_walk_within_the_limit_is_short() {
    let maze = Maze::blank(5, 5).ok().unwrap();
    for seed in 0..100u64 {
        let mut source = RandomSource::from_seed(seed);
        match maze.random_walk((3, 3), &mut source, 4) {
            Ok(walk) => {
                assert!(walk.len() <= 9);
                assert_is_walk(&maze, &walk, (3, 3));
            }
            Err(e) => assert_eq!(e, MazeError::WalkTooLong),
        }
    }
}

#[test]
fn loop_erased_walk_is_a_simple_walk() {
    let maze = Maze::blank(11, 11).ok().unwrap();
    for seed in 0..50u64 {
        let mut source = RandomSource::from_seed(seed);
        let path = maze
            .generate_loop_erased_random_walk((9, 9), &mut source, usize::MAX)
            .ok()
            .unwrap();
        assert_is_walk(&maze, &path, (9, 9));
        assert_eq!(path[path.len() - 1], (1, 1));
        for i in 0..path.len() {
            for j in (i + 1)..path.len() {
                assert_ne!(path[i], path[j]);
            }
        }
    }
}

#[test]
fn pick_takes_one_of_the_candidates() {
    let mut source = RandomSource::from_seed(8);
    let candidates = vec![[(2, 3), (1, 3)], [(4, 3), (5, 3)], [(3, 2), (3, 1)], [(3, 4), (3, 5)]];
    let mut seen = vec![false; 4];
    for _ in 0..200 {
        let step = source.pick(&candidates).unwrap();
        let at = candidates.iter().position(|c| *c == step).unwrap();
        seen[at] = true;
    }
    assert_eq!(seen, vec![true, true, true, true]);
}

#[test]
fn pick_from_nothing_is_nothing() {
    let mut source = RandomSource::from_seed(8);
    assert_eq!(source.pick(&Vec::new()), None);
    let mut source = RandomSource::from_entropy();
    assert_eq!(source.pick(&Vec::new()), None);
    assert_eq!(source.pick(&vec![[(1, 2), (1, 3)]]), Some([(1, 2), (1, 3)]));
}

#[test]
fn shuffle_keeps_the_cells_and_changes_their_order() {
    let mut source = RandomSource::from_seed(21);
    let cells: Vec<CellIndex> = (0..100).map(|i| (2 * i + 1, 1)).collect();
    let mut shuffled = cells.clone();
    source.shuffle(&mut shuffled);
    assert_ne!(shuffled, cells);
    let mut sorted = shuffled.clone();
    sorted.sort();
    assert_eq!(sorted, cells);
}

#[test]
fn shuffle_depends_on_the_seed_alone() {
    let cells: Vec<CellIndex> = (0..50).map(|i| (1, 2 * i + 1)).collect();
    let mut a = cells.clone();
    let mut b = cells.clone();
    RandomSource::from_seed(4).shuffle(&mut a);
    RandomSource::from_seed(4).shuffle(&mut b);
    assert_eq!(a, b);
    let mut c = cells.clone();
    RandomSource::from_seed(5).shuffle(&mut c);
    assert_ne!(a, c);
}
