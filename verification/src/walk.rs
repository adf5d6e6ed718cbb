//! Walks through a maze and the distance between two of its cells.
//!
//! A walk moves one cell up, down, left or right at a time and only ever
//! enters open cells of the grid. The point it starts from may be a wall or
//! a point off the grid.

use crate::maze::{Cell, MazeView, Point};
use vstd::prelude::*;

verus! {

/// The distance between two coordinates on one axis.
pub open spec fn gap(a: usize, b: usize) -> nat {
    if a >= b {
        (a - b) as nat
    } else {
        (b - a) as nat
    }
}

/// The Manhattan distance between two points.
pub open spec fn manhattan(a: Point, b: Point) -> nat {
    gap(a.0, b.0) + gap(a.1, b.1)
}

/// Two points are adjacent when one move leads from one to the other.
pub open spec fn adjacent(a: Point, b: Point) -> bool {
    manhattan(a, b) == 1
}

/// Whether `point` is an open cell of the maze.
pub open spec fn is_open(maze: MazeView, point: Point) -> bool {
    maze.in_bounds(point) && maze.at(point) == Cell::Space
}

/// One move of a walk: to an adjacent open cell.
pub open spec fn is_move(maze: MazeView, from: Point, to: Point) -> bool {
    adjacent(from, to) && is_open(maze, to)
}

/// A walk is a non-empty sequence of points in which each point after the
/// first is reached from its predecessor by one move.
pub open spec fn is_walk(maze: MazeView, walk: Seq<Point>) -> bool {
    &&& walk.len() > 0
    &&& forall|i: int| 0 <= i < walk.len() - 1 ==> is_move(maze, #[trigger] walk[i], walk[i + 1])
}

/// `walk` leads from `start` to `goal`.
pub open spec fn walk_between(maze: MazeView, start: Point, goal: Point, walk: Seq<Point>) -> bool {
    &&& is_walk(maze, walk)
    &&& walk[0] == start
    &&& walk[walk.len() - 1] == goal
}

/// Some walk of exactly `steps` moves leads from `start` to `goal`.
pub open spec fn reachable_in(maze: MazeView, start: Point, goal: Point, steps: nat) -> bool {
    exists|walk: Seq<Point>| #[trigger]
        walk_between(maze, start, goal, walk) && walk.len() == steps + 1
}

/// Some walk leads from `start` to `goal`.
pub open spec fn reachable(maze: MazeView, start: Point, goal: Point) -> bool {
    exists|steps: nat| reachable_in(maze, start, goal, steps)
}

/// `steps` is the least number of moves that lead from `start` to `goal`.
pub open spec fn is_distance(maze: MazeView, start: Point, goal: Point, steps: nat) -> bool {
    &&& reachable_in(maze, start, goal, steps)
    &&& forall|fewer: nat| #[trigger] reachable_in(maze, start, goal, fewer) ==> steps <= fewer
}

/// The length of a shortest walk from `start` to `goal`, or `None` when no
/// walk leads there.
pub open spec fn distance(maze: MazeView, start: Point, goal: Point) -> Option<nat> {
    if exists|steps: nat| is_distance(maze, start, goal, steps) {
        Some(choose|steps: nat| is_distance(maze, start, goal, steps))
    } else {
        None
    }
}

/// A distance, once known, is the value of `distance`.
pub proof fn lemma_distance_is(maze: MazeView, start: Point, goal: Point, steps: nat)
    requires
        is_distance(maze, start, goal, steps),
    ensures
        distance(maze, start, goal) == Some(steps),
{
    let chosen = choose|k: nat| is_distance(maze, start, goal, k);
    assert(is_distance(maze, start, goal, chosen));
    assert(steps <= chosen);
    assert(chosen <= steps);
}

/// Where no walk leads to the goal there is no distance.
pub proof fn lemma_distance_none(maze: MazeView, start: Point, goal: Point)
    requires
        !reachable(maze, start, goal),
    ensures
        distance(maze, start, goal).is_none(),
{
    if exists|steps: nat| is_distance(maze, start, goal, steps) {
        let steps = choose|steps: nat| is_distance(maze, start, goal, steps);
        assert(reachable_in(maze, start, goal, steps));
    }
}

/// The value of `distance` is the least number of moves, and it is `None`
/// exactly when the goal cannot be reached.
pub proof fn lemma_distance_sound(maze: MazeView, start: Point, goal: Point)
    ensures
        match distance(maze, start, goal) {
            Some(steps) => is_distance(maze, start, goal, steps),
            None => !reachable(maze, start, goal),
        },
{
    if reachable(maze, start, goal) {
        let some = choose|steps: nat| reachable_in(maze, start, goal, steps);
        lemma_least_steps(maze, start, goal, some);
    }
}

/// Where some number of moves reaches the goal, a least number does.
proof fn lemma_least_steps(maze: MazeView, start: Point, goal: Point, known: nat)
    requires
        reachable_in(maze, start, goal, known),
    ensures
        exists|steps: nat| is_distance(maze, start, goal, steps),
    decreases known,
{
    if forall|fewer: nat| #[trigger] reachable_in(maze, start, goal, fewer) ==> known <= fewer {
        assert(is_distance(maze, start, goal, known));
    } else {
        let fewer = choose|fewer: nat|
            #[trigger] reachable_in(maze, start, goal, fewer) && !(known <= fewer);
        lemma_least_steps(maze, start, goal, fewer);
    }
}

/// The walk that stays at its starting point.
pub proof fn lemma_walk_of_one(maze: MazeView, start: Point)
    ensures
        walk_between(maze, start, start, seq![start]),
        reachable_in(maze, start, start, 0),
        is_distance(maze, start, start, 0),
{
    assert(walk_between(maze, start, start, seq![start]));
}

/// A walk can be continued by one more move.
pub proof fn lemma_walk_extend(maze: MazeView, start: Point, via: Point, to: Point, steps: nat)
    requires
        reachable_in(maze, start, via, steps),
        is_move(maze, via, to),
    ensures
        reachable_in(maze, start, to, steps + 1),
{
    let walk = choose|walk: Seq<Point>| #[trigger]
        walk_between(maze, start, via, walk) && walk.len() == steps + 1;
    let longer = walk.push(to);
    assert forall|i: int| 0 <= i < longer.len() - 1 implies is_move(
        maze,
        #[trigger] longer[i],
        longer[i + 1],
    ) by {
        if i < walk.len() - 1 {
            assert(is_move(maze, walk[i], walk[i + 1]));
        }
    }
    assert(walk_between(maze, start, to, longer));
}

/// The first moves of a walk form a walk themselves.
pub proof fn lemma_walk_prefix(maze: MazeView, walk: Seq<Point>, end: int)
    requires
        is_walk(maze, walk),
        0 <= end < walk.len(),
    ensures
        walk_between(maze, walk[0], walk[end], walk.subrange(0, end + 1)),
        reachable_in(maze, walk[0], walk[end], end as nat),
{
    let prefix = walk.subrange(0, end + 1);
    assert forall|i: int| 0 <= i < prefix.len() - 1 implies is_move(
        maze,
        #[trigger] prefix[i],
        prefix[i + 1],
    ) by {
        assert(is_move(maze, walk[i], walk[i + 1]));
    }
    assert(walk_between(maze, walk[0], walk[end], prefix));
}

/// Every point of a walk but the first is an open cell of the maze.
pub proof fn lemma_walk_in_grid(maze: MazeView, walk: Seq<Point>, i: int)
    requires
        is_walk(maze, walk),
        1 <= i < walk.len(),
    ensures
        is_open(maze, walk[i]),
{
    assert(is_move(maze, walk[i - 1], walk[i - 1 + 1]));
}

/// No walk leads from a point to another that is no cell of the maze.
pub proof fn lemma_goal_off_grid(maze: MazeView, start: Point, goal: Point)
    requires
        !maze.in_bounds(goal),
        start != goal,
    ensures
        !reachable(maze, start, goal),
{
    if reachable(maze, start, goal) {
        let steps = choose|steps: nat| reachable_in(maze, start, goal, steps);
        let walk = choose|walk: Seq<Point>| #[trigger]
            walk_between(maze, start, goal, walk) && walk.len() == steps + 1;
        lemma_walk_in_grid(maze, walk, steps as int);
    }
}

/// What follows the first move of a walk is a walk from the second point.
pub proof fn lemma_walk_rest(maze: MazeView, walk: Seq<Point>)
    requires
        is_walk(maze, walk),
        walk.len() >= 2,
    ensures
        is_move(maze, walk[0], walk[1]),
        reachable_in(maze, walk[1], walk[walk.len() - 1], (walk.len() - 2) as nat),
{
    let rest = walk.drop_first();
    assert(is_move(maze, walk[0int], walk[0int + 1]));
    assert forall|i: int| 0 <= i < rest.len() - 1 implies is_move(
        maze,
        #[trigger] rest[i],
        rest[i + 1],
    ) by {
        assert(is_move(maze, walk[i + 1], walk[i + 1 + 1]));
    }
    assert(walk_between(maze, walk[1], walk[walk.len() - 1], rest));
}

/// A walk can be entered by one move that leads to its first point.
pub proof fn lemma_walk_prepend(
    maze: MazeView,
    start: Point,
    first: Point,
    goal: Point,
    steps: nat,
)
    requires
        is_move(maze, start, first),
        reachable_in(maze, first, goal, steps),
    ensures
        reachable_in(maze, start, goal, steps + 1),
{
    let walk = choose|walk: Seq<Point>| #[trigger]
        walk_between(maze, first, goal, walk) && walk.len() == steps + 1;
    let longer = seq![start] + walk;
    assert forall|i: int| 0 <= i < longer.len() - 1 implies is_move(
        maze,
        #[trigger] longer[i],
        longer[i + 1],
    ) by {
        if i > 0 {
            assert(is_move(maze, walk[i - 1], walk[i - 1 + 1]));
        }
    }
    assert(walk_between(maze, start, goal, longer));
}

/// One move changes the Manhattan distance to any target by at most one.
pub proof fn lemma_manhattan_move(from: Point, to: Point, target: Point)
    requires
        adjacent(from, to),
    ensures
        manhattan(from, target) <= manhattan(to, target) + 1,
        manhattan(to, target) <= manhattan(from, target) + 1,
{
}

/// Along a walk the Manhattan distance to a target shrinks by at most one
/// per move.
pub proof fn lemma_manhattan_along(maze: MazeView, walk: Seq<Point>, i: int, j: int, target: Point)
    requires
        is_walk(maze, walk),
        0 <= i <= j < walk.len(),
    ensures
        manhattan(walk[i], target) <= manhattan(walk[j], target) + (j - i),
    decreases j - i,
{
    if i < j {
        lemma_manhattan_along(maze, walk, i + 1, j, target);
        assert(is_move(maze, walk[i], walk[i + 1]));
        lemma_manhattan_move(walk[i], walk[i + 1], target);
    }
}

/// No walk is shorter than the Manhattan distance between its ends.
pub proof fn lemma_manhattan_admissible(maze: MazeView, start: Point, goal: Point, steps: nat)
    requires
        reachable_in(maze, start, goal, steps),
    ensures
        manhattan(start, goal) <= steps,
{
    let walk = choose|walk: Seq<Point>| #[trigger]
        walk_between(maze, start, goal, walk) && walk.len() == steps + 1;
    lemma_manhattan_along(maze, walk, 0, steps as int, goal);
}

/// Within a grid the Manhattan distance between two cells is below the
/// number of cells.
pub proof fn lemma_manhattan_in_grid(maze: MazeView, a: Point, b: Point)
    requires
        maze.wf(),
        maze.in_bounds(a),
        maze.in_bounds(b),
    ensures
        manhattan(a, b) < maze.cells.len(),
{
    let rows = maze.rows as int;
    let cols = maze.cols as int;
    assert(manhattan(a, b) <= (rows - 1) + (cols - 1));
    assert((rows - 1) + (cols - 1) < rows * cols) by (nonlinear_arith)
        requires
            rows >= 1,
            cols >= 1,
    {
        assert((rows - 1) * (cols - 1) >= 0);
    }
}

/// Every cell of the maze is open.
pub open spec fn all_open(maze: MazeView) -> bool {
    forall|i: int| 0 <= i < maze.cells.len() ==> maze.cells[i] == Cell::Space
}

/// The cell next to `from` that lies one move nearer to `to`: nearer by row
/// where the rows differ, else nearer by column.
pub open spec fn toward(from: Point, to: Point) -> Point {
    if from.0 < to.0 {
        Point((from.0 + 1) as usize, from.1)
    } else if from.0 > to.0 {
        Point((from.0 - 1) as usize, from.1)
    } else if from.1 < to.1 {
        Point(from.0, (from.1 + 1) as usize)
    } else {
        Point(from.0, (from.1 - 1) as usize)
    }
}

/// In a maze without walls a walk as long as the Manhattan distance leads
/// from any cell to any other.
pub proof fn lemma_open_grid_reachable(maze: MazeView, start: Point, goal: Point)
    requires
        maze.wf(),
        all_open(maze),
        maze.in_bounds(start),
        maze.in_bounds(goal),
    ensures
        reachable_in(maze, start, goal, manhattan(start, goal)),
    decreases manhattan(start, goal),
{
    if start == goal {
        lemma_walk_of_one(maze, start);
    } else {
        let before = toward(goal, start);
        lemma_open_grid_reachable(maze, start, before);
        crate::maze::lemma_index_in_range(
            maze.rows as int,
            maze.cols as int,
            goal.0 as int,
            goal.1 as int,
        );
        assert(is_move(maze, before, goal));
        lemma_walk_extend(maze, start, before, goal, manhattan(start, before));
    }
}

/// In a maze without walls the distance between two cells is their
/// Manhattan distance.
pub proof fn lemma_open_grid_distance(maze: MazeView, start: Point, goal: Point)
    requires
        maze.wf(),
        all_open(maze),
        maze.in_bounds(start),
        maze.in_bounds(goal),
    ensures
        distance(maze, start, goal) == Some(manhattan(start, goal)),
{
    lemma_open_grid_reachable(maze, start, goal);
    assert forall|fewer: nat| #[trigger]
        reachable_in(maze, start, goal, fewer) implies manhattan(start, goal) <= fewer by {
        lemma_manhattan_admissible(maze, start, goal, fewer);
    }
    lemma_distance_is(maze, start, goal, manhattan(start, goal));
}

/// No distance is below the Manhattan distance.
pub proof fn lemma_distance_admissible(maze: MazeView, start: Point, goal: Point)
    ensures
        distance(maze, start, goal) matches Some(steps) ==> manhattan(start, goal) <= steps,
{
    lemma_distance_sound(maze, start, goal);
    if let Some(steps) = distance(maze, start, goal) {
        lemma_manhattan_admissible(maze, start, goal, steps);
    }
}

/// The distance from a cell to itself is 0, whatever the maze holds there.
pub proof fn lemma_distance_to_self(maze: MazeView, start: Point)
    ensures
        distance(maze, start, start) == Some(0nat),
{
    lemma_walk_of_one(maze, start);
    lemma_distance_is(maze, start, start, 0);
}

/// Only from a cell to itself is the distance 0.
pub proof fn lemma_distance_zero(maze: MazeView, start: Point, goal: Point)
    ensures
        distance(maze, start, goal) == Some(0nat) <==> start == goal,
{
    lemma_distance_sound(maze, start, goal);
    if start == goal {
        lemma_distance_to_self(maze, start);
    } else if distance(maze, start, goal) == Some(0nat) {
        let walk = choose|walk: Seq<Point>| #[trigger]
            walk_between(maze, start, goal, walk) && walk.len() == 0 + 1;
        assert(walk[0] == walk[walk.len() - 1]);
    }
}

} // verus!
