//! The route evaluator: the length of the way from the entry over both
//! touchpoints to the exit.

use crate::astar::a_star;
use crate::maze::{Maze, MazeView, Point, MAX_CELLS};
use crate::walk::distance;
use vstd::prelude::*;

verus! {

/// The sum of the three distances entry to first touchpoint, first to second
/// touchpoint, second touchpoint to exit; `None` as soon as one of them does
/// not exist.
pub open spec fn route_length(
    maze: MazeView,
    entry: Point,
    exit: Point,
    touchpoints: (Point, Point),
) -> Option<nat> {
    match (
        distance(maze, entry, touchpoints.0),
        distance(maze, touchpoints.0, touchpoints.1),
        distance(maze, touchpoints.1, exit),
    ) {
        (Some(first), Some(second), Some(third)) => Some(first + second + third),
        _ => None,
    }
}

/// The length of the shortest route from `entry` to `exit` that visits both
/// touchpoints in their order.
pub fn find_shortest_path(
    maze: &Maze,
    entry: Point,
    exit: Point,
    touchpoints: (Point, Point),
) -> (length: Option<usize>)
    ensures
        match length {
            Some(steps) => route_length(maze@, entry, exit, touchpoints) == Some(steps as nat),
            None => route_length(maze@, entry, exit, touchpoints).is_none(),
        },
        distance(maze@, entry, touchpoints.0).is_none() ==> length.is_none(),
        distance(maze@, touchpoints.0, touchpoints.1).is_none() ==> length.is_none(),
        distance(maze@, touchpoints.1, exit).is_none() ==> length.is_none(),
        length matches Some(steps) ==> steps <= 3 * maze@.cells.len() <= 3 * MAX_CELLS,
{
    let (first_stop, second_stop) = touchpoints;
    let first = match a_star(maze, entry, first_stop) {
        Some(steps) => steps,
        None => {
            return None;
        },
    };
    let second = match a_star(maze, first_stop, second_stop) {
        Some(steps) => steps,
        None => {
            return None;
        },
    };
    let third = match a_star(maze, second_stop, exit) {
        Some(steps) => steps,
        None => {
            return None;
        },
    };
    Some(first + second + third)
}

} // verus!
