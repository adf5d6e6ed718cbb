//! The picture of a maze: one line of text for each row, with the points of
//! the route marked.

use crate::maze::{Maze, MazeView, Point};
use crate::hardening::Route;
use vstd::prelude::*;
use vstd::string::StringExecFns;

verus! {

/// The character that the picture shows for the cell at `point`: `o` for
/// the entry and the exit, `1` and `2` for the touchpoints, and the symbol
/// of the cell anywhere else.
pub open spec fn rendered_symbol(maze: MazeView, route: Route, point: Point) -> char {
    if point == route.entry || point == route.exit {
        'o'
    } else if point == route.touchpoints.0 {
        '1'
    } else if point == route.touchpoints.1 {
        '2'
    } else {
        maze.at(point).symbol()
    }
}

/// The line of the picture for one row of the maze.
pub open spec fn rendered_row(maze: MazeView, route: Route, row: int) -> Seq<char> {
    Seq::new(maze.cols, |col: int| rendered_symbol(maze, route, Point(row as usize, col as usize)))
}

/// The picture of `best_maze`, one string for each of its rows.
pub fn render_maze(
    entry: Point,
    exit: Point,
    touchpoints: (Point, Point),
    best_maze: &Maze,
) -> (lines: Vec<String>)
    ensures
        lines@.len() == best_maze@.rows,
        forall|row: int|
            0 <= row < lines@.len() ==> (#[trigger] lines@[row])@ == rendered_row(
                best_maze@,
                Route { entry, exit, touchpoints },
                row,
            ),
{
    let ghost route = Route { entry, exit, touchpoints };
    let rows = best_maze.rows();
    let cols = best_maze.cols();
    let mut lines: Vec<String> = Vec::new();
    let mut x: usize = 0;
    while x < rows
        invariant
            x <= rows,
            rows == best_maze@.rows,
            cols == best_maze@.cols,
            route == (Route { entry, exit, touchpoints }),
            lines@.len() == x,
            forall|row: int|
                0 <= row < x ==> (#[trigger] lines@[row])@ == rendered_row(best_maze@, route, row),
        decreases rows - x,
    {
        let mut line = String::new();
        let mut y: usize = 0;
        while y < cols
            invariant
                x < rows,
                y <= cols,
                rows == best_maze@.rows,
                cols == best_maze@.cols,
                route == (Route { entry, exit, touchpoints }),
                line@.len() == y,
                forall|col: int|
                    0 <= col < y ==> #[trigger] line@[col] == rendered_symbol(
                        best_maze@,
                        route,
                        Point(x, col as usize),
                    ),
            decreases cols - y,
        {
            let cell_point = Point(x, y);
            let ghost before = line@;
            if cell_point == entry || cell_point == exit {
                proof {
                    reveal_strlit("o");
                }
                line.append("o");
            } else if cell_point == touchpoints.0 {
                proof {
                    reveal_strlit("1");
                }
                line.append("1");
            } else if cell_point == touchpoints.1 {
                proof {
                    reveal_strlit("2");
                }
                line.append("2");
            } else {
                let cell = best_maze.get(cell_point);
                line.append(cell.as_ref());
            }
            assert(line@ =~= before.push(rendered_symbol(best_maze@, route, cell_point)));
            y = y + 1;
        }
        assert(line@ =~= rendered_row(best_maze@, route, x as int));
        lines.push(line);
        x = x + 1;
    }
    lines
}

} // verus!
