use hardest_maze::{a_star, find_shortest_path, heuristic, Cell, Maze, Point};
use std::collections::VecDeque;

fn breadth_first(maze: &Maze, start: Point, goal: Point) -> Option<usize> {
    if start == goal {
        return Some(0);
    }
    let mut steps = vec![None; maze.rows() * maze.cols()];
    let mut queue = VecDeque::new();
    steps[maze.get_index(start).unwrap()] = Some(0usize);
    queue.push_back(start);
    while let Some(Point(row, col)) = queue.pop_front() {
        let here = steps[maze.get_index(Point(row, col)).unwrap()].unwrap();
        let mut next = Vec::new();
        if row > 0 {
            next.push(Point(row - 1, col));
        }
        if col > 0 {
            next.push(Point(row, col - 1));
        }
        next.push(Point(row + 1, col));
        next.push(Point(row, col + 1));
        for point in next {
            if let Some(index) = maze.get_index(point) {
                if maze.get(point) == Cell::Space && steps[index].is_none() {
                    steps[index] = Some(here + 1);
                    queue.push_back(point);
                }
            }
        }
    }
    steps[maze.get_index(goal).unwrap()]
}

fn maze_of(rows: usize, cols: usize, walls: usize) -> Maze {
    let mut maze = Maze::new(rows, cols, Cell::Space);
    for index in 0..rows * cols {
        if walls >> index & 1 == 1 {
            maze.set(Point(index / cols, index % cols), Cell::Wall);
        }
    }
    maze
}

#[test]
fn heuristic_is_the_manhattan_distance() {
    assert_eq!(heuristic(Point(0, 0), Point(0, 0)), 0);
    assert_eq!(heuristic(Point(1, 2), Point(4, 0)), 5);
    assert_eq!(heuristic(Point(4, 0), Point(1, 2)), 5);
    assert_eq!(heuristic(Point(0, 7), Point(0, 3)), 4);
}

#[test]
fn same_cell_has_length_zero() {
    for walls in [0usize, 0b000010000, 0b111111111, 0b101010101] {
        let maze = maze_of(3, 3, walls);
        for row in 0..3 {
            for col in 0..3 {
                assert_eq!(a_star(&maze, Point(row, col), Point(row, col)), Some(0));
            }
        }
    }
}

#[test]
fn open_grid_length_is_manhattan() {
    let maze = Maze::new(4, 5, Cell::Space);
    for (from_row, from_col, _) in maze.iter() {
        for (to_row, to_col, _) in maze.iter() {
            let from = Point(from_row, from_col);
            let to = Point(to_row, to_col);
            assert_eq!(a_star(&maze, from, to), Some(heuristic(from, to)));
        }
    }
}

#[test]
fn wall_forces_detour() {
    let mut maze = Maze::new(3, 3, Cell::Space);
    maze.set(Point(1, 0), Cell::Wall);
    maze.set(Point(1, 1), Cell::Wall);
    assert_eq!(a_star(&maze, Point(0, 0), Point(2, 0)), Some(6));
    maze.set(Point(1, 2), Cell::Wall);
    assert_eq!(a_star(&maze, Point(0, 0), Point(2, 0)), None);
}

#[test]
fn walk_may_begin_on_a_wall_but_not_end_on_one() {
    let mut maze = Maze::new(1, 3, Cell::Space);
    maze.set(Point(0, 0), Cell::Wall);
    assert_eq!(a_star(&maze, Point(0, 0), Point(0, 2)), Some(2));
    assert_eq!(a_star(&maze, Point(0, 2), Point(0, 0)), None);
    assert_eq!(a_star(&maze, Point(0, 0), Point(0, 0)), Some(0));
}

#[test]
fn walk_may_begin_next_to_the_grid() {
    let mut maze = Maze::new(3, 3, Cell::Space);
    assert_eq!(a_star(&maze, Point(3, 1), Point(0, 1)), Some(3));
    assert_eq!(a_star(&maze, Point(1, 3), Point(1, 0)), Some(3));
    assert_eq!(a_star(&maze, Point(3, 1), Point(2, 1)), Some(1));
    maze.set(Point(2, 1), Cell::Wall);
    assert_eq!(a_star(&maze, Point(3, 1), Point(0, 1)), None);
    assert_eq!(a_star(&maze, Point(3, 0), Point(0, 1)), Some(4));
}

#[test]
fn points_off_the_grid_are_reached_by_no_walk() {
    let maze = Maze::new(3, 3, Cell::Space);
    assert_eq!(a_star(&maze, Point(0, 0), Point(3, 0)), None);
    assert_eq!(a_star(&maze, Point(0, 0), Point(0, 3)), None);
    assert_eq!(a_star(&maze, Point(1, 1), Point(usize::MAX, usize::MAX)), None);
    assert_eq!(a_star(&maze, Point(3, 3), Point(1, 1)), None);
    assert_eq!(a_star(&maze, Point(4, 1), Point(1, 1)), None);
    assert_eq!(a_star(&maze, Point(usize::MAX, 0), Point(0, 0)), None);
    assert_eq!(a_star(&maze, Point(0, usize::MAX), Point(0, 0)), None);
    assert_eq!(a_star(&maze, Point(7, 8), Point(8, 8)), None);
}

#[test]
fn same_point_off_the_grid_has_length_zero() {
    let maze = Maze::new(3, 3, Cell::Wall);
    assert_eq!(a_star(&maze, Point(3, 0), Point(3, 0)), Some(0));
    let far = Point(usize::MAX, usize::MAX);
    assert_eq!(a_star(&maze, far, far), Some(0));
    let empty = Maze::new(0, 0, Cell::Space);
    assert_eq!(a_star(&empty, Point(0, 0), Point(0, 0)), Some(0));
    assert_eq!(a_star(&empty, Point(0, 0), Point(0, 1)), None);
}

#[test]
fn route_may_begin_next_to_the_grid() {
    let maze = Maze::new(3, 3, Cell::Space);
    let stops = (Point(1, 1), Point(0, 2));
    assert_eq!(find_shortest_path(&maze, Point(3, 0), Point(0, 0), stops), Some(7));
    assert_eq!(find_shortest_path(&maze, Point(0, 0), Point(3, 0), stops), None);
    assert_eq!(find_shortest_path(&maze, Point(0, 0), Point(0, 0), (Point(0, 3), stops.1)), None);
}

#[test]
fn lengths_agree_with_breadth_first_search_on_every_three_by_three_maze() {
    for walls in 0..512usize {
        let maze = maze_of(3, 3, walls);
        for from in 0..9 {
            for to in 0..9 {
                let start = Point(from / 3, from % 3);
                let goal = Point(to / 3, to % 3);
                let length = a_star(&maze, start, goal);
                assert_eq!(length, breadth_first(&maze, start, goal));
                if let Some(steps) = length {
                    assert!(steps >= heuristic(start, goal));
                }
            }
        }
    }
}

#[test]
fn lengths_agree_with_breadth_first_search_on_larger_mazes() {
    let mut walls = 0x9e37_79b9_7f4a_7c15u64;
    for _ in 0..200 {
        walls ^= walls << 13;
        walls ^= walls >> 7;
        walls ^= walls << 17;
        let maze = maze_of(5, 6, (walls & walls >> 30 & 0x3fff_ffff) as usize);
        for from in 0..30 {
            let start = Point(from / 6, from % 6);
            let goal = Point(4 - from / 6, (from * 7 + 3) % 6);
            assert_eq!(a_star(&maze, start, goal), breadth_first(&maze, start, goal));
        }
    }
}

#[test]
fn lengths_in_a_winding_corridor() {
    let maze = Maze::from_text(5, 5, ".....####.......####.....").unwrap();
    assert_eq!(a_star(&maze, Point(0, 0), Point(4, 4)), Some(16));
    assert_eq!(a_star(&maze, Point(0, 0), Point(2, 0)), Some(10));
    assert_eq!(a_star(&maze, Point(4, 0), Point(2, 2)), Some(4));
    assert_eq!(a_star(&maze, Point(1, 0), Point(4, 0)), Some(3));
}

#[test]
fn baseline_route_on_open_grid() {
    let maze = Maze::new(4, 4, Cell::Space);
    let length = find_shortest_path(&maze, Point(0, 0), Point(0, 3), (Point(2, 1), Point(2, 3)));
    assert_eq!(length, Some(7));
}

#[test]
fn route_is_the_sum_of_its_three_segments() {
    let maze = Maze::from_text(4, 4, ".....#.#..#.#...").unwrap();
    let entry = Point(0, 0);
    let exit = Point(0, 3);
    let stops = (Point(2, 1), Point(2, 3));
    assert_eq!(a_star(&maze, entry, stops.0), Some(3));
    assert_eq!(a_star(&maze, stops.0, stops.1), Some(4));
    assert_eq!(a_star(&maze, stops.1, exit), Some(10));
    assert_eq!(find_shortest_path(&maze, entry, exit, stops), Some(17));
}

#[test]
fn route_fails_when_the_first_segment_fails() {
    let maze = Maze::from_text(3, 3, ".#..#..#.").unwrap();
    assert_eq!(a_star(&maze, Point(0, 0), Point(0, 2)), None);
    let stops = (Point(0, 2), Point(1, 2));
    assert_eq!(find_shortest_path(&maze, Point(0, 0), Point(2, 2), stops), None);
}

#[test]
fn route_fails_when_the_second_segment_fails() {
    let maze = Maze::from_text(3, 3, ".#..#..#.").unwrap();
    assert_eq!(a_star(&maze, Point(0, 0), Point(2, 0)), Some(2));
    assert_eq!(a_star(&maze, Point(2, 0), Point(2, 2)), None);
    let stops = (Point(2, 0), Point(2, 2));
    assert_eq!(find_shortest_path(&maze, Point(0, 0), Point(0, 2), stops), None);
}

#[test]
fn route_fails_when_the_third_segment_fails() {
    let maze = Maze::from_text(3, 3, ".#..#..#.").unwrap();
    assert_eq!(a_star(&maze, Point(0, 0), Point(1, 0)), Some(1));
    assert_eq!(a_star(&maze, Point(1, 0), Point(2, 0)), Some(1));
    assert_eq!(a_star(&maze, Point(2, 0), Point(0, 2)), None);
    let stops = (Point(1, 0), Point(2, 0));
    assert_eq!(find_shortest_path(&maze, Point(0, 0), Point(0, 2), stops), None);
}

#[test]
fn route_through_one_point_has_length_zero() {
    let maze = Maze::new(2, 2, Cell::Wall);
    let point = Point(1, 1);
    assert_eq!(find_shortest_path(&maze, point, point, (point, point)), Some(0));
}
