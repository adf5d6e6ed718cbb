use hardest_maze::hardening::{expand, score_of};
use hardest_maze::{find_shortest_path, optimize_maze, Cell, Maze, Point, Route, Search};

fn small_route() -> Route {
    Route { entry: Point(0, 0), exit: Point(0, 2), touchpoints: (Point(2, 1), Point(2, 1)) }
}

fn large_route() -> Route {
    Route { entry: Point(0, 0), exit: Point(0, 3), touchpoints: (Point(2, 1), Point(2, 3)) }
}

fn walls_in(maze: &Maze) -> usize {
    maze.cells().iter().filter(|cell| **cell == Cell::Wall).count()
}

#[test]
fn case1() {
    let rows = 4;
    let cols = 4;
    let entry = Point(0, 0);
    let exit = Point(0, 3);
    let touchpoints = (Point(2, 1), Point(2, 3));

    let maze = Maze::new(rows, cols, Cell::Space);
    let mut best_maze = maze.clone();
    let mut best_length = find_shortest_path(&maze, entry, exit, touchpoints).unwrap_or(0);
    assert_eq!(best_length, 7);

    optimize_maze(&maze, entry, exit, touchpoints, &mut best_length, &mut best_maze);
    assert_eq!(best_maze.to_string(), ".....#.#..#.#...");
    assert_eq!(best_length, 17);
}

#[test]
fn three_by_three_scenario() {
    let route = small_route();
    let maze = Maze::new(3, 3, Cell::Space);
    let baseline = find_shortest_path(&maze, route.entry, route.exit, route.touchpoints);
    assert_eq!(baseline, Some(6));
    let mut best_length = baseline.unwrap_or(0);
    let mut best_maze = maze.clone();
    optimize_maze(
        &maze,
        route.entry,
        route.exit,
        route.touchpoints,
        &mut best_length,
        &mut best_maze,
    );
    assert!(best_length >= 6);
    assert_eq!(best_length, 8);
    assert_eq!(best_maze.to_string(), "....#...#");
    assert_eq!(score_of(&best_maze, &route), 8);
}

#[test]
fn four_by_four_scenario() {
    let route = large_route();
    let maze = Maze::new(4, 4, Cell::Space);
    let baseline = score_of(&maze, &route);
    assert_eq!(baseline, 7);
    let mut best_length = baseline;
    let mut best_maze = maze.clone();
    optimize_maze(
        &maze,
        route.entry,
        route.exit,
        route.touchpoints,
        &mut best_length,
        &mut best_maze,
    );
    assert!(best_length >= 7);
    assert_eq!(best_maze.to_string().len(), 16);
    assert_eq!(score_of(&best_maze, &route), best_length);
    assert_eq!((best_maze.rows(), best_maze.cols()), (4, 4));
}

#[test]
fn two_runs_give_the_same_result() {
    let route = large_route();
    let maze = Maze::new(4, 4, Cell::Space);
    let mut results = Vec::new();
    for _ in 0..2 {
        let mut best_length = score_of(&maze, &route);
        let mut best_maze = maze.clone();
        optimize_maze(
            &maze,
            route.entry,
            route.exit,
            route.touchpoints,
            &mut best_length,
            &mut best_maze,
        );
        results.push((best_length, best_maze.to_string()));
    }
    assert_eq!(results[0], results[1]);
}

#[test]
fn score_of_a_maze_without_route_is_zero() {
    let route = small_route();
    let maze = Maze::from_text(3, 3, "..#......").unwrap();
    assert_eq!(find_shortest_path(&maze, route.entry, route.exit, route.touchpoints), None);
    assert_eq!(score_of(&maze, &route), 0);
    assert_eq!(score_of(&Maze::new(3, 3, Cell::Space), &route), 6);
}

#[test]
fn expansion_pushes_the_accepted_successors_in_row_major_order() {
    let route = small_route();
    let mut current = Maze::new(3, 3, Cell::Space);
    let mut stack = vec![Maze::new(3, 3, Cell::Wall)];
    let mut best_length = 6;
    let mut best_maze = current.clone();
    expand(&route, &mut current, &mut stack, &mut best_length, &mut best_maze);
    let pushed: Vec<String> = stack.iter().map(|maze| maze.to_string()).collect();
    assert_eq!(
        pushed,
        vec![
            "#########",
            "#........",
            ".#.......",
            "...#.....",
            "....#....",
            ".....#...",
            "......#..",
            "........#",
        ]
    );
    assert_eq!(current, Maze::new(3, 3, Cell::Space));
    assert_eq!(best_length, 6);
    assert_eq!(best_maze, current);
}

#[test]
fn expansion_raises_the_best_maze_to_the_first_longer_route() {
    let route = small_route();
    let mut current = Maze::from_text(3, 3, "....#....").unwrap();
    let parent_length = score_of(&current, &route);
    assert_eq!(parent_length, 6);
    let mut stack = Vec::new();
    let mut best_length = 6;
    let mut best_maze = Maze::new(3, 3, Cell::Space);
    expand(&route, &mut current, &mut stack, &mut best_length, &mut best_maze);
    let pushed: Vec<String> = stack.iter().map(|maze| maze.to_string()).collect();
    assert_eq!(
        pushed,
        vec!["#...#....", ".#..#....", "...##....", "....##...", "....#.#..", "....#...#"]
    );
    assert_eq!(best_length, 8);
    assert_eq!(best_maze.to_string(), "...##....");
    assert_eq!(current.to_string(), "....#....");
}

#[test]
fn accepted_mazes_are_no_shorter_than_their_parent() {
    let route = large_route();
    let parents = [
        "................",
        ".....#..........",
        ".....#.#..#.....",
        "#....#.#..#.#...",
        ".#..............",
    ];
    for text in parents {
        let mut current = Maze::from_text(4, 4, text).unwrap();
        let parent_length = score_of(&current, &route);
        let mut stack = Vec::new();
        let mut best_length = parent_length;
        let mut best_maze = current.clone();
        expand(&route, &mut current, &mut stack, &mut best_length, &mut best_maze);
        let mut accepted = 0;
        for (row, col, cell) in current.iter() {
            if cell == Cell::Wall {
                continue;
            }
            let mut child = current.clone();
            child.set(Point(row, col), Cell::Wall);
            if score_of(&child, &route) >= parent_length {
                assert_eq!(stack[accepted], child);
                accepted += 1;
            }
        }
        assert_eq!(stack.len(), accepted);
        for maze in &stack {
            assert!(score_of(maze, &route) >= parent_length);
            assert_eq!(walls_in(maze), walls_in(&current) + 1);
            assert!(score_of(maze, &route) <= best_length);
        }
    }
}

#[test]
fn best_length_never_goes_down_while_the_search_runs() {
    let route = small_route();
    let maze = Maze::new(3, 3, Cell::Space);
    let mut search = Search::new(&maze, route, 6, maze.clone());
    let mut steps = 0;
    let mut lengths = vec![search.best_length()];
    while !search.is_done() {
        let before = search.best_length();
        search.step();
        steps += 1;
        assert!(search.best_length() >= before);
        assert_eq!(score_of(search.best_maze(), &route), search.best_length());
        if search.best_length() != before {
            lengths.push(search.best_length());
        }
    }
    assert_eq!(lengths, vec![6, 8]);
    assert_eq!(steps, 133);
    search.step();
    assert!(search.is_done());
    let (length, best) = search.into_best();
    assert_eq!(length, 8);
    assert_eq!(best.to_string(), "....#...#");
}

#[test]
fn each_layout_is_evaluated_once() {
    let route = large_route();
    let maze = Maze::new(4, 4, Cell::Space);
    let mut search = Search::new(&maze, route, 7, maze.clone());
    let mut steps = 0;
    while !search.is_done() {
        search.step();
        steps += 1;
    }
    assert_eq!(steps, 11885);
    assert_eq!(search.best_length(), 17);
}

#[test]
fn search_keeps_a_better_maze_that_it_was_given() {
    let route = small_route();
    let maze = Maze::new(3, 3, Cell::Space);
    let given = Maze::new(3, 3, Cell::Wall);
    let mut best_length = 100;
    let mut best_maze = given.clone();
    optimize_maze(
        &maze,
        route.entry,
        route.exit,
        route.touchpoints,
        &mut best_length,
        &mut best_maze,
    );
    assert_eq!(best_length, 100);
    assert_eq!(best_maze, given);
}

#[test]
fn search_from_a_maze_without_route_finds_nothing_better() {
    let route = small_route();
    let maze = Maze::from_text(3, 3, "..#...#.#").unwrap();
    let mut best_length = score_of(&maze, &route);
    assert_eq!(best_length, 0);
    let mut best_maze = maze.clone();
    optimize_maze(
        &maze,
        route.entry,
        route.exit,
        route.touchpoints,
        &mut best_length,
        &mut best_maze,
    );
    assert_eq!(best_length, 0);
    assert_eq!(best_maze, maze);
}

#[test]
fn search_with_an_exit_off_the_grid_finds_no_route() {
    let maze = Maze::new(3, 3, Cell::Space);
    let mut best_length = 0;
    let mut best_maze = maze.clone();
    optimize_maze(
        &maze,
        Point(0, 0),
        Point(0, 3),
        (Point(2, 1), Point(2, 1)),
        &mut best_length,
        &mut best_maze,
    );
    assert_eq!(best_length, 0);
    assert_eq!(best_maze, maze);
}

#[test]
fn walls_of_the_initial_maze_stay() {
    let route = large_route();
    let maze = Maze::from_text(4, 4, ".#..............").unwrap();
    let mut best_length = score_of(&maze, &route);
    let mut best_maze = maze.clone();
    optimize_maze(
        &maze,
        route.entry,
        route.exit,
        route.touchpoints,
        &mut best_length,
        &mut best_maze,
    );
    assert_eq!(best_maze.get(Point(0, 1)), Cell::Wall);
    assert_eq!(score_of(&best_maze, &route), best_length);
    assert!(best_length >= 7);
}
