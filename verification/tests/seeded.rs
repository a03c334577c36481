use wilson_maze::cell::{CellIndex, CellType};
use wilson_maze::maze::Maze;
use wilson_maze::random::RandomSource;

fn rows_of(maze: &Maze) -> Vec<String> {
    let (w, h) = maze.size();
    let mut rows = Vec::new();
    for y in 0..h {
        let mut row = String::new();
        for x in 0..w {
            row.push(if maze.cell((x, y)) == CellType::Path { '.' } else { '#' });
        }
        rows.push(row);
    }
    rows
}

#[test]
fn seed_one_gives_a_known_maze() {
    let mut source = RandomSource::from_seed(1);
    let maze = Maze::with_source(7, 5, &mut source, usize::MAX).ok().unwrap();
    assert_eq!(
        rows_of(&maze),
        vec!["#######", "#.....#", "#####.#", "#.....#", "#######"]
    );
}

#[test]
fn seed_seven_gives_a_known_order() {
    let mut cells: Vec<CellIndex> = vec![(1, 1), (1, 3), (3, 1), (3, 3), (5, 1), (5, 3)];
    RandomSource::from_seed(7).shuffle(&mut cells);
    assert_eq!(cells, vec![(3, 3), (5, 3), (5, 1), (1, 3), (1, 1), (3, 1)]);
}

#[test]
fn seed_seven_gives_known_picks() {
    let candidates = vec![[(2, 3), (1, 3)], [(4, 3), (5, 3)], [(3, 2), (3, 1)], [(3, 4), (3, 5)]];
    let mut source = RandomSource::from_seed(7);
    let mut picks = Vec::new();
    for _ in 0..8 {
        picks.push(source.pick(&candidates).unwrap()[1]);
    }
    assert_eq!(
        picks,
        vec![(1, 3), (5, 3), (1, 3), (3, 1), (3, 1), (5, 3), (3, 1), (5, 3)]
    );
}

#[test]
fn seed_five_gives_a_known_walk() {
    let maze = Maze::blank(7, 7).ok().unwrap();
    let mut source = RandomSource::from_seed(5);
    let walk = maze.random_walk((5, 5), &mut source, usize::MAX).ok().unwrap();
    assert_eq!(
        walk,
        vec![
            (5, 5),
            (4, 5),
            (3, 5),
            (4, 5),
            (5, 5),
            (4, 5),
            (3, 5),
            (2, 5),
            (1, 5),
            (1, 4),
            (1, 3),
            (1, 2),
            (1, 1)
        ]
    );
    let mut source = RandomSource::from_seed(5);
    let path = maze
        .generate_loop_erased_random_walk((5, 5), &mut source, usize::MAX)
        .ok()
        .unwrap();
    assert_eq!(
        path,
        vec![(5, 5), (4, 5), (3, 5), (2, 5), (1, 5), (1, 4), (1, 3), (1, 2), (1, 1)]
    );
}

#[test]
fn a_source_goes_on_where_it_stopped() {
    let mut whole = RandomSource::from_seed(9);
    let first = Maze::with_source(9, 9, &mut whole, usize::MAX).ok().unwrap();
    let second = Maze::with_source(9, 9, &mut whole, usize::MAX).ok().unwrap();
    let mut again = RandomSource::from_seed(9);
    let first_again = Maze::with_source(9, 9, &mut again, usize::MAX).ok().unwrap();
    let second_again = Maze::with_source(9, 9, &mut again, usize::MAX).ok().unwrap();
    assert_eq!(rows_of(&first), rows_of(&first_again));
    assert_eq!(rows_of(&second), rows_of(&second_again));
    assert_ne!(rows_of(&first), rows_of(&second));
}
