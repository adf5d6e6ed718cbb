use hardest_maze::{render_maze, Cell, Maze, Point};

#[test]
fn picture_marks_the_points_of_the_route() {
    let maze = Maze::from_text(4, 4, ".....#.#..#.#...").unwrap();
    let lines = render_maze(Point(0, 0), Point(0, 3), (Point(2, 1), Point(2, 3)), &maze);
    assert_eq!(lines, vec!["o..o", ".#.#", ".1#2", "#..."]);
}

#[test]
fn marks_hide_walls_and_the_entry_hides_a_touchpoint() {
    let maze = Maze::new(2, 3, Cell::Wall);
    let lines = render_maze(Point(0, 0), Point(1, 2), (Point(0, 0), Point(0, 1)), &maze);
    assert_eq!(lines, vec!["o2#", "##o"]);
    let lines = render_maze(Point(0, 0), Point(0, 0), (Point(1, 1), Point(1, 1)), &maze);
    assert_eq!(lines, vec!["o##", "#1#"]);
}

#[test]
fn picture_has_one_line_for_each_row() {
    let maze = Maze::new(3, 0, Cell::Space);
    let lines = render_maze(Point(0, 0), Point(0, 0), (Point(0, 0), Point(0, 0)), &maze);
    assert_eq!(lines, vec!["", "", ""]);
    let maze = Maze::new(0, 3, Cell::Space);
    assert!(render_maze(Point(0, 0), Point(0, 0), (Point(0, 0), Point(0, 0)), &maze).is_empty());
    let maze = Maze::new(2, 2, Cell::Space);
    let lines = render_maze(Point(5, 5), Point(6, 6), (Point(7, 7), Point(8, 8)), &maze);
    assert_eq!(lines, vec!["..", ".."]);
}
