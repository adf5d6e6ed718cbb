use hardest_maze::maze::cell_count;
use hardest_maze::{Cell, Grid, Maze, Point, MAX_CELLS};

#[test]
fn new_fills_every_cell_with_the_default() {
    let grid: Grid<u8> = Grid::new(3, 5, 7);
    assert_eq!(grid.rows(), 3);
    assert_eq!(grid.cols(), 5);
    assert_eq!(grid.cells().len(), 15);
    assert!(grid.cells().iter().all(|value| *value == 7));
}

#[test]
fn in_bounds_checks_row_and_column() {
    let maze = Maze::new(3, 5, Cell::Space);
    assert!(maze.in_bounds(Point(0, 0)));
    assert!(maze.in_bounds(Point(2, 4)));
    assert!(!maze.in_bounds(Point(3, 0)));
    assert!(!maze.in_bounds(Point(0, 5)));
    assert!(!maze.in_bounds(Point(usize::MAX, usize::MAX)));
}

#[test]
fn get_index_is_row_major() {
    let maze = Maze::new(4, 5, Cell::Space);
    assert_eq!(maze.get_index(Point(0, 0)), Some(0));
    assert_eq!(maze.get_index(Point(2, 3)), Some(13));
    assert_eq!(maze.get_index(Point(3, 4)), Some(19));
    assert_eq!(maze.get_index(Point(4, 0)), None);
    assert_eq!(maze.get_index(Point(1, 5)), None);
}

#[test]
fn set_changes_one_cell_only() {
    let mut maze = Maze::new(3, 3, Cell::Space);
    maze.set(Point(1, 2), Cell::Wall);
    for row in 0..3 {
        for col in 0..3 {
            let expected = if (row, col) == (1, 2) { Cell::Wall } else { Cell::Space };
            assert_eq!(maze.get(Point(row, col)), expected);
            assert_eq!(maze[Point(row, col)], expected);
        }
    }
    maze.set(Point(1, 2), Cell::Space);
    assert_eq!(maze, Maze::new(3, 3, Cell::Space));
}

#[test]
fn iter_visits_cells_in_row_major_order() {
    let mut grid: Grid<u8> = Grid::new(2, 3, 0);
    grid.set(Point(0, 2), 5);
    grid.set(Point(1, 0), 9);
    assert_eq!(
        grid.iter(),
        vec![(0, 0, 0), (0, 1, 0), (0, 2, 5), (1, 0, 9), (1, 1, 0), (1, 2, 0)]
    );
    assert_eq!(grid.iter(), grid.iter());
}

#[test]
fn clone_is_independent() {
    let mut maze = Maze::new(2, 2, Cell::Space);
    let copy = maze.clone();
    maze.set(Point(0, 1), Cell::Wall);
    assert_eq!(copy.get(Point(0, 1)), Cell::Space);
    assert_eq!(maze.get(Point(0, 1)), Cell::Wall);
    assert_ne!(maze, copy);
}

#[test]
fn grids_without_cells() {
    let maze = Maze::new(0, 5, Cell::Space);
    assert_eq!(maze.to_string(), "");
    assert!(maze.iter().is_empty());
    assert!(!maze.in_bounds(Point(0, 0)));
    let other = Maze::new(7, 0, Cell::Wall);
    assert_eq!(other.cells().len(), 0);
    assert_ne!(maze, other);
}

#[test]
fn cell_symbols() {
    assert_eq!(Cell::Space.as_ref(), ".");
    assert_eq!(Cell::Wall.as_ref(), "#");
}

#[test]
fn serialization_is_one_symbol_per_cell() {
    let mut maze = Maze::new(2, 3, Cell::Space);
    assert_eq!(maze.to_string(), "......");
    maze.set(Point(0, 1), Cell::Wall);
    maze.set(Point(1, 2), Cell::Wall);
    assert_eq!(maze.to_string(), ".#...#");
    assert_eq!(maze.to_string().len(), 6);
}

#[test]
fn serialization_does_not_depend_on_history() {
    let mut first = Maze::new(2, 2, Cell::Space);
    first.set(Point(0, 0), Cell::Wall);
    first.set(Point(1, 1), Cell::Wall);
    first.set(Point(0, 0), Cell::Space);
    let mut second = Maze::new(2, 2, Cell::Wall);
    second.set(Point(0, 0), Cell::Space);
    second.set(Point(0, 1), Cell::Space);
    second.set(Point(1, 0), Cell::Space);
    assert_eq!(first.to_string(), second.to_string());
    assert_eq!(first, second);
}

#[test]
fn serialization_round_trip() {
    let mut maze = Maze::new(3, 4, Cell::Space);
    maze.set(Point(0, 3), Cell::Wall);
    maze.set(Point(1, 1), Cell::Wall);
    maze.set(Point(2, 0), Cell::Wall);
    let text = maze.to_string();
    assert_eq!(text, "...#.#..#...");
    let back = Maze::from_text(3, 4, &text).unwrap();
    assert_eq!(back, maze);
    assert_eq!(back.rows(), 3);
    assert_eq!(back.cols(), 4);
    assert_eq!(back.to_string(), text);
    for (row, col, cell) in maze.iter() {
        assert_eq!(back.get(Point(row, col)), cell);
    }
}

#[test]
fn from_text_turns_down_what_is_no_serialization() {
    assert!(Maze::from_text(2, 2, "...").is_none());
    assert!(Maze::from_text(2, 2, ".....").is_none());
    assert!(Maze::from_text(2, 2, "..x.").is_none());
    assert!(Maze::from_text(2, 2, "..\u{e9}.").is_none());
    assert!(Maze::from_text(2, 2, "....").is_some());
    assert!(Maze::from_text(0, 0, "").is_some());
    assert!(Maze::from_text(usize::MAX, 2, "....").is_none());
    assert!(Maze::from_text(usize::MAX, usize::MAX, ".").is_none());
}

#[test]
fn cell_count_is_the_product_up_to_the_largest_grid() {
    assert_eq!(cell_count(3, 4), Some(12));
    assert_eq!(cell_count(0, usize::MAX), Some(0));
    assert_eq!(cell_count(usize::MAX, 0), Some(0));
    assert_eq!(cell_count(MAX_CELLS, 1), Some(MAX_CELLS));
    assert_eq!(cell_count(1, MAX_CELLS), Some(MAX_CELLS));
    assert_eq!(cell_count(MAX_CELLS + 1, 1), None);
    assert_eq!(cell_count(usize::MAX, usize::MAX), None);
    assert_eq!(cell_count(MAX_CELLS / 2 + 1, 2), None);
}

#[test]
fn largest_grid_has_a_quarter_of_the_address_space() {
    assert_eq!(MAX_CELLS, usize::MAX / 4);
}

#[test]
fn try_new_turns_down_grids_with_too_many_cells() {
    assert!(Maze::try_new(usize::MAX, 2, Cell::Space).is_none());
    assert!(Maze::try_new(2, usize::MAX, Cell::Space).is_none());
    assert!(Maze::try_new(MAX_CELLS / 2 + 1, 2, Cell::Space).is_none());
    assert!(Maze::try_new(MAX_CELLS + 1, 1, Cell::Space).is_none());
    assert!(Maze::try_new(1 << (usize::BITS / 2), 1 << (usize::BITS / 2), Cell::Space).is_none());
}

#[test]
fn try_new_builds_what_new_builds() {
    assert_eq!(Maze::try_new(3, 4, Cell::Wall), Some(Maze::new(3, 4, Cell::Wall)));
    let empty = Maze::try_new(usize::MAX, 0, Cell::Space).unwrap();
    assert_eq!((empty.rows(), empty.cols()), (usize::MAX, 0));
    assert!(empty.cells().is_empty());
    let empty = Maze::try_new(0, usize::MAX, Cell::Space).unwrap();
    assert_eq!((empty.rows(), empty.cols()), (0, usize::MAX));
}

#[test]
fn points_are_ordered_by_row_then_column() {
    assert!(Point(0, 5) < Point(1, 0));
    assert!(Point(1, 0) < Point(1, 1));
    assert_eq!(Point(2, 3), Point(2, 3));
    assert_ne!(Point(2, 3), Point(3, 2));
}
