use wilson_maze::cell::CellType;
use wilson_maze::maze::Maze;
use wilson_maze::random::RandomSource;

fn pixel(bytes: &[u8], width: usize, x: usize, y: usize) -> (u8, u8, u8) {
    let at = 3 * (y * width + x);
    (bytes[at], bytes[at + 1], bytes[at + 2])
}

#[test]
fn image_of_the_smallest_maze() {
    let maze = Maze::new(3, 3).ok().unwrap();
    let bytes = maze.build_image().into_raw();
    let mut expected = vec![0u8; 27];
    expected[12] = 255;
    expected[13] = 255;
    expected[14] = 255;
    assert_eq!(bytes, expected);
}

#[test]
fn image_has_one_pixel_for_each_cell() {
    let mut source = RandomSource::from_seed(17);
    let maze = Maze::with_source(9, 5, &mut source, usize::MAX).ok().unwrap();
    let bytes = maze.build_image().into_raw();
    assert_eq!(bytes.len(), 3 * 9 * 5);
    for x in 0..9 {
        for y in 0..5 {
            let expected = match maze.cell((x, y)) {
                CellType::Wall => (0, 0, 0),
                CellType::Path => (255, 255, 255),
            };
            assert_eq!(pixel(&bytes, 9, x, y), expected);
        }
    }
}

#[test]
fn image_rows_run_along_x() {
    let mut maze = Maze::blank(7, 3).ok().unwrap();
    maze.carve(&vec![(5, 1), (4, 1), (3, 1), (2, 1)]);
    let bytes = maze.build_image().into_raw();
    assert_eq!(bytes.len(), 63);
    for x in 0..7 {
        for y in 0..3 {
            let white = y == 1 && (1..=5).contains(&x);
            let expected = if white { (255, 255, 255) } else { (0, 0, 0) };
            assert_eq!(pixel(&bytes, 7, x, y), expected);
        }
    }
}
