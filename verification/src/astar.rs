//! The path cost oracle: the length of a shortest walk between two points,
//! found by best-first search guided by the Manhattan distance to the goal.

use crate::frontier::{Entry, Frontier};
use crate::maze::{lemma_index_unique, Cell, Maze, MazeView, Point, MAX_CELLS};
use crate::walk::{
    adjacent, all_open, distance, is_distance, is_move, is_walk, lemma_distance_is,
    lemma_distance_none, lemma_goal_off_grid, lemma_manhattan_admissible, lemma_manhattan_along,
    lemma_manhattan_in_grid, lemma_open_grid_distance, lemma_walk_extend, lemma_walk_of_one,
    lemma_walk_prefix, lemma_walk_prepend, lemma_walk_rest, manhattan, reachable, reachable_in,
    walk_between,
};
use vstd::multiset::Multiset;
use vstd::prelude::*;

verus! {

/// What the search knows at one moment: the best cost found so far for each
/// cell it has seen, the entries waiting in the frontier, and the cells
/// whose neighbours have all been looked at.
struct Knowledge {
    scores: Map<Point, nat>,
    frontier: Multiset<Entry>,
    closed: Set<Point>,
}

/// The frontier entry that stands for `point` at cost `score`.
spec fn entry_for(point: Point, score: nat, goal: Point) -> Entry {
    Entry { priority: (score + manhattan(point, goal)) as usize, point }
}

/// The number of the direction in which `to` lies from `from`: right, down,
/// left, up.
spec fn direction_of(from: Point, to: Point) -> int {
    if to.1 == from.1 + 1 {
        0
    } else if to.0 == from.0 + 1 {
        1
    } else if to.1 + 1 == from.1 {
        2
    } else {
        3
    }
}

/// What holds of every cell with a score: it lies in the grid, a walk of
/// that many moves leads to it, and its priority fits in a `usize`.
#[verifier::opaque]
spec fn scores_sound(maze: MazeView, start: Point, goal: Point, k: Knowledge) -> bool {
    forall|p: Point| #[trigger]
        k.scores.dom().contains(p) ==> {
            &&& maze.in_bounds(p)
            &&& reachable_in(maze, start, p, k.scores[p])
            &&& k.scores[p] + manhattan(p, goal) <= usize::MAX
        }
}

/// Every scored cell other than `except` that is not closed waits in the
/// frontier at its current score.
#[verifier::opaque]
spec fn open_cells_wait(goal: Point, k: Knowledge, except: Option<Point>) -> bool {
    forall|p: Point| #[trigger]
        k.scores.dom().contains(p) && !k.closed.contains(p) && except != Some(p)
            ==> k.frontier.count(entry_for(p, k.scores[p], goal)) > 0
}

/// A closed cell has a score that no walk beats, and each cell one move
/// away from it has a score at most one higher.
#[verifier::opaque]
spec fn closed_cells_done(maze: MazeView, start: Point, k: Knowledge) -> bool {
    &&& forall|p: Point| #[trigger] k.closed.contains(p) ==> k.scores.dom().contains(p)
    &&& forall|p: Point, q: Point|
        k.closed.contains(p) && #[trigger] is_move(maze, p, q) ==> k.scores.dom().contains(q)
            && k.scores[q] <= k.scores[p] + 1
    &&& forall|p: Point, n: nat|
        k.closed.contains(p) && #[trigger] reachable_in(maze, start, p, n) ==> k.scores[p] <= n
}

/// Every entry in the frontier is for a cell that has a score.
#[verifier::opaque]
spec fn entries_known(k: Knowledge) -> bool {
    forall|e: Entry| #[trigger] k.frontier.count(e) > 0 ==> k.scores.dom().contains(e.point)
}

/// The cells one move away from `current` in the directions below `done`
/// have a score at most one higher than that of `current`.
#[verifier::opaque]
spec fn neighbours_done(maze: MazeView, k: Knowledge, current: Point, done: int) -> bool {
    forall|q: Point| #[trigger]
        is_move(maze, current, q) && direction_of(current, q) < done ==> k.scores.dom().contains(
            q,
        ) && k.scores[q] <= k.scores[current] + 1
}

/// The score of `p` is the distance of `p` from the start.
spec fn settled(maze: MazeView, start: Point, k: Knowledge, p: Point) -> bool {
    &&& k.scores.dom().contains(p)
    &&& is_distance(maze, start, p, k.scores[p])
}

/// What holds in every state of the search.
spec fn inv_common(maze: MazeView, start: Point, goal: Point, k: Knowledge) -> bool {
    &&& maze.wf()
    &&& maze.in_bounds(start)
    &&& maze.in_bounds(goal)
    &&& k.scores.dom().contains(start)
    &&& k.scores[start] == 0
    &&& scores_sound(maze, start, goal, k)
    &&& closed_cells_done(maze, start, k)
    &&& entries_known(k)
    &&& !k.closed.contains(goal)
}

/// The state between two expansions.
spec fn inv(maze: MazeView, start: Point, goal: Point, k: Knowledge) -> bool {
    &&& inv_common(maze, start, goal, k)
    &&& open_cells_wait(goal, k, None)
}

/// The state while `current` is being expanded and its neighbours in the
/// directions below `done` have been looked at.
spec fn inv_mid(
    maze: MazeView,
    start: Point,
    goal: Point,
    k: Knowledge,
    current: Point,
    done: int,
) -> bool {
    &&& inv_common(maze, start, goal, k)
    &&& open_cells_wait(goal, k, Some(current))
    &&& current != goal
    &&& settled(maze, start, k, current)
    &&& neighbours_done(maze, k, current, done)
}

/// The state the search starts from.
spec fn initial(start: Point, goal: Point) -> Knowledge {
    Knowledge {
        scores: Map::<Point, nat>::empty().insert(start, 0),
        frontier: Multiset::<Entry>::empty().insert(entry_for(start, 0, goal)),
        closed: Set::<Point>::empty(),
    }
}

/// The state the search starts from is one of its states.
proof fn lemma_initial(maze: MazeView, start: Point, goal: Point)
    requires
        maze.wf(),
        maze.in_bounds(start),
        maze.in_bounds(goal),
    ensures
        inv(maze, start, goal, initial(start, goal)),
{
    reveal(scores_sound);
    reveal(open_cells_wait);
    reveal(closed_cells_done);
    reveal(entries_known);
    lemma_walk_of_one(maze, start);
    lemma_manhattan_in_grid(maze, start, goal);
}

/// What the search may read off an entry it took from the frontier.
proof fn lemma_entry_known(maze: MazeView, start: Point, goal: Point, k: Knowledge, e: Entry)
    requires
        inv_common(maze, start, goal, k),
        k.frontier.count(e) > 0,
    ensures
        k.scores.dom().contains(e.point),
        maze.in_bounds(e.point),
        k.scores[e.point] + manhattan(e.point, goal) <= usize::MAX,
        reachable_in(maze, start, e.point, k.scores[e.point]),
{
    reveal(scores_sound);
    reveal(entries_known);
}

/// Taking an entry out of the frontier leaves every cell waiting but the
/// one, if any, that waited with just this entry.
proof fn lemma_take(goal: Point, k: Knowledge, e: Entry, except: Option<Point>)
    requires
        open_cells_wait(goal, k, None),
        entries_known(k),
        k.scores.dom().contains(e.point) ==> k.scores[e.point] + manhattan(e.point, goal)
            <= usize::MAX,
        except == Some(e.point) || e.priority != k.scores[e.point] + manhattan(e.point, goal),
    ensures
        open_cells_wait(goal, Knowledge { frontier: k.frontier.remove(e), ..k }, except),
        entries_known(Knowledge { frontier: k.frontier.remove(e), ..k }),
{
    reveal(open_cells_wait);
    reveal(entries_known);
    let after = Knowledge { frontier: k.frontier.remove(e), ..k };
    assert forall|p: Point| #[trigger]
        after.scores.dom().contains(p) && !after.closed.contains(p) && except != Some(
            p,
        ) implies after.frontier.count(entry_for(p, after.scores[p], goal)) > 0 by {
        assert(k.frontier.count(entry_for(p, k.scores[p], goal)) > 0);
        assert(entry_for(p, k.scores[p], goal) != e);
    }
}

/// The parts of the invariant that speak of scores and closed cells alone
/// do not depend on the frontier.
proof fn lemma_frontier_apart(
    maze: MazeView,
    start: Point,
    goal: Point,
    k: Knowledge,
    frontier: Multiset<Entry>,
)
    requires
        scores_sound(maze, start, goal, k),
        closed_cells_done(maze, start, k),
    ensures
        scores_sound(maze, start, goal, Knowledge { frontier, ..k }),
        closed_cells_done(maze, start, Knowledge { frontier, ..k }),
{
    reveal(scores_sound);
    reveal(closed_cells_done);
}

/// An entry whose priority is no longer that of its cell can be dropped.
proof fn lemma_stale(maze: MazeView, start: Point, goal: Point, k: Knowledge, e: Entry)
    requires
        inv(maze, start, goal, k),
        k.frontier.count(e) > 0,
        e.priority != k.scores[e.point] + manhattan(e.point, goal),
    ensures
        inv(maze, start, goal, Knowledge { frontier: k.frontier.remove(e), ..k }),
{
    lemma_entry_known(maze, start, goal, k, e);
    lemma_take(goal, k, e, None);
    lemma_frontier_apart(maze, start, goal, k, k.frontier.remove(e));
}

/// Walking along `walk` from its `i`-th point on, the first cell that is not
/// closed waits in the frontier with a priority that bounds the cost of the
/// least entry.
proof fn lemma_walk_scan(
    maze: MazeView,
    start: Point,
    goal: Point,
    k: Knowledge,
    e: Entry,
    walk: Seq<Point>,
    i: int,
)
    requires
        inv(maze, start, goal, k),
        k.frontier.count(e) > 0,
        forall|other: Entry| k.frontier.count(other) > 0 ==> e.precedes(other),
        e.priority == k.scores[e.point] + manhattan(e.point, goal),
        walk_between(maze, start, e.point, walk),
        0 <= i < walk.len(),
        i > 0 ==> k.closed.contains(walk[i - 1]),
    ensures
        k.scores[e.point] <= walk.len() - 1,
    decreases walk.len() - i,
{
    let last = walk.len() - 1;
    let here = walk[i];
    lemma_walk_prefix(maze, walk, i);
    if k.closed.contains(here) {
        if i < last {
            lemma_walk_scan(maze, start, goal, k, e, walk, i + 1);
        } else {
            reveal(closed_cells_done);
        }
    } else {
        assert(k.scores.dom().contains(here) && k.scores[here] <= i) by {
            reveal(closed_cells_done);
            if i > 0 {
                lemma_walk_prefix(maze, walk, i - 1);
                assert(is_move(maze, walk[i - 1], walk[i - 1 + 1]));
                assert(k.scores[walk[i - 1]] <= i - 1);
            }
        }
        let waiting = entry_for(here, k.scores[here], goal);
        assert(k.frontier.count(waiting) > 0) by {
            reveal(open_cells_wait);
        }
        assert(k.scores[here] + manhattan(here, goal) <= usize::MAX) by {
            reveal(scores_sound);
        }
        assert(e.precedes(waiting));
        lemma_manhattan_along(maze, walk, i, last, goal);
    }
}

/// The cost of the least entry, where it is current, is the distance of its
/// cell from the start.
proof fn lemma_least_is_optimal(
    maze: MazeView,
    start: Point,
    goal: Point,
    k: Knowledge,
    e: Entry,
)
    requires
        inv(maze, start, goal, k),
        k.frontier.count(e) > 0,
        forall|other: Entry| k.frontier.count(other) > 0 ==> e.precedes(other),
        e.priority == k.scores[e.point] + manhattan(e.point, goal),
    ensures
        settled(maze, start, k, e.point),
{
    lemma_entry_known(maze, start, goal, k, e);
    assert forall|n: nat| #[trigger] reachable_in(maze, start, e.point, n) implies k.scores[e.point]
        <= n by {
        let walk = choose|walk: Seq<Point>| #[trigger]
            walk_between(maze, start, e.point, walk) && walk.len() == n + 1;
        lemma_walk_scan(maze, start, goal, k, e, walk, 0);
    }
}

/// Taking the least entry out of the frontier begins the expansion of its
/// cell.
proof fn lemma_begin(maze: MazeView, start: Point, goal: Point, k: Knowledge, e: Entry)
    requires
        inv(maze, start, goal, k),
        k.frontier.count(e) > 0,
        settled(maze, start, k, e.point),
        e.point != goal,
    ensures
        inv_mid(maze, start, goal, Knowledge { frontier: k.frontier.remove(e), ..k }, e.point, 0),
{
    lemma_entry_known(maze, start, goal, k, e);
    lemma_take(goal, k, e, Some(e.point));
    lemma_frontier_apart(maze, start, goal, k, k.frontier.remove(e));
    reveal(neighbours_done);
}

/// Nothing changes where the neighbour in direction `done` is no open cell
/// or already has a score that the way through `current` does not improve.
proof fn lemma_relax_keep(
    maze: MazeView,
    start: Point,
    goal: Point,
    k: Knowledge,
    current: Point,
    done: int,
)
    requires
        inv_mid(maze, start, goal, k, current, done),
        forall|q: Point| #[trigger]
            is_move(maze, current, q) && direction_of(current, q) == done
                ==> k.scores.dom().contains(q) && k.scores[q] <= k.scores[current] + 1,
    ensures
        inv_mid(maze, start, goal, k, current, done + 1),
{
    reveal(neighbours_done);
}

/// The state after `q` has got the cost of the way through `current`.
spec fn improved(k: Knowledge, current: Point, q: Point, goal: Point) -> Knowledge {
    Knowledge {
        scores: k.scores.insert(q, k.scores[current] + 1),
        frontier: k.frontier.insert(entry_for(q, k.scores[current] + 1, goal)),
        closed: k.closed,
    }
}

/// A cell whose score the way through `current` improves is not closed, is
/// neither `current` nor the start, and is reached by that way.
proof fn lemma_improve_facts(
    maze: MazeView,
    start: Point,
    goal: Point,
    k: Knowledge,
    current: Point,
    done: int,
    q: Point,
)
    requires
        inv_mid(maze, start, goal, k, current, done),
        is_move(maze, current, q),
        !k.scores.dom().contains(q) || k.scores[current] + 1 < k.scores[q],
    ensures
        reachable_in(maze, start, q, k.scores[current] + 1),
        !k.closed.contains(q),
        q != current,
        q != start,
{
    lemma_walk_extend(maze, start, current, q, k.scores[current]);
    reveal(closed_cells_done);
}

/// After an improvement every score is still that of a walk.
proof fn lemma_improve_sound(
    maze: MazeView,
    start: Point,
    goal: Point,
    k: Knowledge,
    current: Point,
    q: Point,
)
    requires
        scores_sound(maze, start, goal, k),
        maze.in_bounds(q),
        reachable_in(maze, start, q, k.scores[current] + 1),
        k.scores[current] + 1 + manhattan(q, goal) <= usize::MAX,
    ensures
        scores_sound(maze, start, goal, improved(k, current, q, goal)),
{
    reveal(scores_sound);
    let after = improved(k, current, q, goal);
    assert forall|p: Point| #[trigger] after.scores.dom().contains(p) implies {
        &&& maze.in_bounds(p)
        &&& reachable_in(maze, start, p, after.scores[p])
        &&& after.scores[p] + manhattan(p, goal) <= usize::MAX
    } by {
        if p != q {
            assert(k.scores.dom().contains(p));
        }
    }
}

/// After an improvement every open cell still waits in the frontier.
proof fn lemma_improve_wait(goal: Point, k: Knowledge, current: Point, q: Point)
    requires
        open_cells_wait(goal, k, Some(current)),
    ensures
        open_cells_wait(goal, improved(k, current, q, goal), Some(current)),
{
    reveal(open_cells_wait);
    let after = improved(k, current, q, goal);
    assert forall|p: Point| #[trigger]
        after.scores.dom().contains(p) && !after.closed.contains(p) && Some(current) != Some(
            p,
        ) implies after.frontier.count(entry_for(p, after.scores[p], goal)) > 0 by {
        if p != q {
            assert(k.scores.dom().contains(p));
            assert(k.frontier.count(entry_for(p, k.scores[p], goal)) > 0);
        }
    }
}

/// An improvement changes nothing that holds of the closed cells.
proof fn lemma_improve_closed(
    maze: MazeView,
    start: Point,
    goal: Point,
    k: Knowledge,
    current: Point,
    q: Point,
)
    requires
        closed_cells_done(maze, start, k),
        !k.closed.contains(q),
        !k.scores.dom().contains(q) || k.scores[current] + 1 < k.scores[q],
    ensures
        closed_cells_done(maze, start, improved(k, current, q, goal)),
{
    reveal(closed_cells_done);
    let after = improved(k, current, q, goal);
    assert forall|p: Point, r: Point|
        after.closed.contains(p) && #[trigger] is_move(maze, p, r) implies {
        &&& after.scores.dom().contains(r)
        &&& after.scores[r] <= after.scores[p] + 1
    } by {
        assert(k.scores.dom().contains(r) && k.scores[r] <= k.scores[p] + 1);
        assert(p != q);
    }
    assert forall|p: Point, n: nat|
        after.closed.contains(p) && #[trigger] reachable_in(maze, start, p, n) implies {
        after.scores[p] <= n
    } by {
        assert(p != q);
        assert(k.scores[p] <= n);
    }
}

/// After an improvement every entry is still for a cell with a score.
proof fn lemma_improve_entries(goal: Point, k: Knowledge, current: Point, q: Point)
    requires
        entries_known(k),
    ensures
        entries_known(improved(k, current, q, goal)),
{
    reveal(entries_known);
    let after = improved(k, current, q, goal);
    assert forall|e: Entry| #[trigger] after.frontier.count(e) > 0 implies {
        after.scores.dom().contains(e.point)
    } by {
        if e != entry_for(q, k.scores[current] + 1, goal) {
            assert(k.frontier.count(e) > 0);
        }
    }
}

/// After an improvement one more neighbour of `current` has been looked at.
proof fn lemma_improve_neighbours(
    maze: MazeView,
    goal: Point,
    k: Knowledge,
    current: Point,
    done: int,
    q: Point,
)
    requires
        neighbours_done(maze, k, current, done),
        is_move(maze, current, q),
        direction_of(current, q) == done,
        q != current,
        !k.scores.dom().contains(q) || k.scores[current] + 1 < k.scores[q],
    ensures
        neighbours_done(maze, improved(k, current, q, goal), current, done + 1),
{
    reveal(neighbours_done);
    let after = improved(k, current, q, goal);
    assert forall|r: Point| #[trigger]
        is_move(maze, current, r) && direction_of(current, r) < done + 1 implies {
        &&& after.scores.dom().contains(r)
        &&& after.scores[r] <= after.scores[current] + 1
    } by {
        if direction_of(current, r) == done {
            assert(r == q);
        } else {
            assert(k.scores.dom().contains(r) && k.scores[r] <= k.scores[current] + 1);
        }
    }
}

/// The neighbour `q` gets the cost of the way through `current` where that
/// is its first or a lower one, and enters the frontier with it.
proof fn lemma_relax_improve(
    maze: MazeView,
    start: Point,
    goal: Point,
    k: Knowledge,
    current: Point,
    done: int,
    q: Point,
)
    requires
        inv_mid(maze, start, goal, k, current, done),
        is_move(maze, current, q),
        direction_of(current, q) == done,
        !k.scores.dom().contains(q) || k.scores[current] + 1 < k.scores[q],
        k.scores[current] + 1 + manhattan(q, goal) <= usize::MAX,
    ensures
        inv_mid(maze, start, goal, improved(k, current, q, goal), current, done + 1),
{
    lemma_improve_facts(maze, start, goal, k, current, done, q);
    lemma_improve_sound(maze, start, goal, k, current, q);
    lemma_improve_wait(goal, k, current, q);
    lemma_improve_closed(maze, start, goal, k, current, q);
    lemma_improve_entries(goal, k, current, q);
    lemma_improve_neighbours(maze, goal, k, current, done, q);
}

/// Once all four directions have been looked at the cell is closed.
proof fn lemma_finish(maze: MazeView, start: Point, goal: Point, k: Knowledge, current: Point)
    requires
        inv_mid(maze, start, goal, k, current, 4),
    ensures
        inv(maze, start, goal, Knowledge { closed: k.closed.insert(current), ..k }),
{
    reveal(scores_sound);
    reveal(open_cells_wait);
    reveal(closed_cells_done);
    reveal(entries_known);
    reveal(neighbours_done);
}

/// With nothing left in the frontier, every cell that a walk from the start
/// leads to is closed.
proof fn lemma_all_closed(
    maze: MazeView,
    start: Point,
    goal: Point,
    k: Knowledge,
    walk: Seq<Point>,
    i: int,
)
    requires
        inv(maze, start, goal, k),
        k.frontier.len() == 0,
        is_walk(maze, walk),
        walk[0] == start,
        0 <= i < walk.len(),
    ensures
        k.closed.contains(walk[i]),
    decreases i,
{
    if i > 0 {
        lemma_all_closed(maze, start, goal, k, walk, i - 1);
        assert(is_move(maze, walk[i - 1], walk[i - 1 + 1]));
    }
    let here = walk[i];
    assert(k.scores.dom().contains(here)) by {
        reveal(closed_cells_done);
    }
    if !k.closed.contains(here) {
        let waiting = entry_for(here, k.scores[here], goal);
        assert(k.frontier.count(waiting) > 0) by {
            reveal(open_cells_wait);
        }
        assert(k.frontier.remove(waiting).len() == k.frontier.len() - 1);
    }
}

/// With nothing left in the frontier no walk leads to the goal.
proof fn lemma_exhausted(maze: MazeView, start: Point, goal: Point, k: Knowledge)
    requires
        inv(maze, start, goal, k),
        k.frontier.len() == 0,
    ensures
        !reachable(maze, start, goal),
{
    if reachable(maze, start, goal) {
        let n = choose|n: nat| reachable_in(maze, start, goal, n);
        let walk = choose|walk: Seq<Point>| #[trigger]
            walk_between(maze, start, goal, walk) && walk.len() == n + 1;
        lemma_all_closed(maze, start, goal, k, walk, n as int);
    }
}

/// The number of cells that have a score.
spec fn scored(table: Seq<Option<usize>>) -> nat
    decreases table.len(),
{
    if table.len() == 0 {
        0
    } else {
        scored(table.drop_last()) + if table.last().is_some() {
            1nat
        } else {
            0nat
        }
    }
}

/// The sum of all scores.
spec fn total(table: Seq<Option<usize>>) -> nat
    decreases table.len(),
{
    if table.len() == 0 {
        0
    } else {
        total(table.drop_last()) + match table.last() {
            Some(score) => score as nat,
            None => 0nat,
        }
    }
}

/// No more cells have a score than the table has slots.
proof fn lemma_scored_bound(table: Seq<Option<usize>>)
    ensures
        scored(table) <= table.len(),
    decreases table.len(),
{
    if table.len() > 0 {
        lemma_scored_bound(table.drop_last());
    }
}

/// How the two sums change where one entry of the table is replaced.
proof fn lemma_table_update(table: Seq<Option<usize>>, i: int, score: usize)
    requires
        0 <= i < table.len(),
    ensures
        scored(table.update(i, Some(score))) == scored(table) + if table[i].is_some() {
            0nat
        } else {
            1nat
        },
        total(table.update(i, Some(score))) + match table[i] {
            Some(old_score) => old_score as nat,
            None => 0nat,
        } == total(table) + score,
    decreases table.len(),
{
    let updated = table.update(i, Some(score));
    if i == table.len() - 1 {
        assert(updated.drop_last() =~= table.drop_last());
    } else {
        lemma_table_update(table.drop_last(), i, score);
        assert(updated.drop_last() =~= table.drop_last().update(i, Some(score)));
    }
}

/// The table holds the scores: one slot for each cell, in row-major order.
spec fn table_holds(maze: MazeView, table: Seq<Option<usize>>, scores: Map<Point, nat>) -> bool {
    &&& table.len() == maze.cells.len()
    &&& forall|p: Point|
        maze.in_bounds(p) ==> match #[trigger] table[maze.index(p)] {
            Some(score) => scores.dom().contains(p) && scores[p] == score,
            None => !scores.dom().contains(p),
        }
    &&& forall|i: int|
        0 <= i < table.len() ==> match #[trigger] table[i] {
            Some(score) => score < scored(table),
            None => true,
        }
}

/// Two cells of a grid with the same row-major position are the same cell.
proof fn lemma_index_injective(maze: MazeView, p: Point, q: Point)
    requires
        maze.in_bounds(p),
        maze.in_bounds(q),
        maze.index(p) == maze.index(q),
    ensures
        p == q,
{
    lemma_index_unique(maze.cols as int, p.0 as int, p.1 as int);
    lemma_index_unique(maze.cols as int, q.0 as int, q.1 as int);
}

/// Writing a new or lower score for `q` into the table keeps it in step with
/// the scores.
proof fn lemma_table_write(
    maze: MazeView,
    table: Seq<Option<usize>>,
    scores: Map<Point, nat>,
    q: Point,
    via: Point,
    cost: usize,
)
    requires
        maze.wf(),
        table_holds(maze, table, scores),
        maze.in_bounds(q),
        maze.in_bounds(via),
        scores.dom().contains(via),
        cost == scores[via] + 1,
        !scores.dom().contains(q) || cost < scores[q],
    ensures
        table_holds(maze, table.update(maze.index(q), Some(cost)), scores.insert(q, cost as nat)),
{
    let slot = maze.index(q);
    crate::maze::lemma_index_in_range(
        maze.rows as int,
        maze.cols as int,
        q.0 as int,
        q.1 as int,
    );
    crate::maze::lemma_index_in_range(
        maze.rows as int,
        maze.cols as int,
        via.0 as int,
        via.1 as int,
    );
    let after = table.update(slot, Some(cost));
    let grown = scores.insert(q, cost as nat);
    lemma_table_update(table, slot, cost);
    assert(table[maze.index(via)] == Some((cost - 1) as usize));
    assert(table[maze.index(q)].is_some() == scores.dom().contains(q));
    assert forall|p: Point| maze.in_bounds(p) implies match #[trigger] after[maze.index(p)] {
        Some(score) => grown.dom().contains(p) && grown[p] == score,
        None => !grown.dom().contains(p),
    } by {
        crate::maze::lemma_index_in_range(
            maze.rows as int,
            maze.cols as int,
            p.0 as int,
            p.1 as int,
        );
        if p != q {
            if maze.index(p) == maze.index(q) {
                lemma_index_injective(maze, p, q);
            }
            assert(after[maze.index(p)] == table[maze.index(p)]);
        }
    }
    assert forall|i: int| 0 <= i < after.len() implies match #[trigger] after[i] {
        Some(score) => score < scored(after),
        None => true,
    } by {
        if i != slot {
            assert(after[i] == table[i]);
        }
    }
}

/// Whether the search has moved on since the table and the frontier were
/// as given: a cell more has a score, or the scores have gone down, or the
/// frontier has shrunk.
spec fn progress(
    table: Seq<Option<usize>>,
    waiting: nat,
    table_before: Seq<Option<usize>>,
    waiting_before: nat,
) -> bool {
    ||| scored(table) > scored(table_before)
    ||| scored(table) == scored(table_before) && total(table) < total(table_before)
    ||| scored(table) == scored(table_before) && total(table) == total(table_before) && waiting
        < waiting_before
}

/// The Manhattan distance between two points.
pub fn heuristic(a: Point, b: Point) -> (h: usize)
    requires
        manhattan(a, b) <= usize::MAX,
    ensures
        h == manhattan(a, b),
{
    let rows: usize = if a.0 >= b.0 {
        a.0 - b.0
    } else {
        b.0 - a.0
    };
    let cols: usize = if a.1 >= b.1 {
        a.1 - b.1
    } else {
        b.1 - a.1
    };
    rows + cols
}

/// The cell next to `from` in the given direction (right, down, left, up),
/// where the grid has one. `from` itself need not be a cell of the grid.
fn neighbor(maze: &Maze, from: Point, direction: usize) -> (to: Option<Point>)
    requires
        direction < 4,
    ensures
        match to {
            Some(q) => maze@.in_bounds(q) && adjacent(from, q) && direction_of(from, q)
                == direction,
            None => forall|q: Point|
                maze@.in_bounds(q) && adjacent(from, q) ==> direction_of(from, q) != direction,
        },
{
    let rows = maze.rows();
    let cols = maze.cols();
    if direction == 0 {
        if from.0 < rows && from.1 < usize::MAX && from.1 + 1 < cols {
            Some(Point(from.0, from.1 + 1))
        } else {
            None
        }
    } else if direction == 1 {
        if from.1 < cols && from.0 < usize::MAX && from.0 + 1 < rows {
            Some(Point(from.0 + 1, from.1))
        } else {
            None
        }
    } else if direction == 2 {
        if from.0 < rows && from.1 > 0 && from.1 - 1 < cols {
            Some(Point(from.0, from.1 - 1))
        } else {
            None
        }
    } else {
        if from.1 < cols && from.0 > 0 && from.0 - 1 < rows {
            Some(Point(from.0 - 1, from.1))
        } else {
            None
        }
    }
}

/// A table with one empty slot for each cell of the maze.
fn empty_table(maze: &Maze) -> (table: Vec<Option<usize>>)
    ensures
        maze@.wf(),
        table@.len() == maze@.cells.len(),
        forall|i: int| 0 <= i < table@.len() ==> table@[i].is_none(),
{
    let rows = maze.rows();
    let cols = maze.cols();
    assert(rows * cols <= usize::MAX);
    let cells: usize = rows * cols;
    let mut table: Vec<Option<usize>> = Vec::new();
    let mut i: usize = 0;
    while i < cells
        invariant
            i <= cells,
            table@.len() == i,
            forall|k: int| 0 <= k < i ==> table@[k].is_none(),
        decreases cells - i,
    {
        table.push(None);
        i = i + 1;
    }
    table
}

/// In an empty table no cell has a score.
proof fn lemma_empty_table(table: Seq<Option<usize>>)
    requires
        forall|i: int| 0 <= i < table.len() ==> table[i].is_none(),
    ensures
        scored(table) == 0,
    decreases table.len(),
{
    if table.len() > 0 {
        lemma_empty_table(table.drop_last());
    }
}

/// The length of a shortest walk between two cells of the maze, or `None`
/// when no walk leads from `start` to `goal`.
///
/// Cells are expanded in the order of their score plus their Manhattan
/// distance to the goal; among equal priorities the cell with the lower row,
/// then the lower column, comes first.
fn best_first(maze: &Maze, start: Point, goal: Point) -> (length: Option<usize>)
    requires
        maze@.in_bounds(start),
        maze@.in_bounds(goal),
    ensures
        match length {
            Some(steps) => is_distance(maze@, start, goal, steps as nat),
            None => !reachable(maze@, start, goal),
        },
        length matches Some(steps) ==> steps < maze@.cells.len() <= MAX_CELLS,
{
    let mut table = empty_table(maze);
    let mut frontier = Frontier::new();
    let start_slot = maze.get_index(start).unwrap();
    proof {
        lemma_manhattan_in_grid(maze@, start, goal);
        lemma_empty_table(table@);
        lemma_table_update(table@, start_slot as int, 0);
    }
    let ghost blank = table@;
    table[start_slot] = Some(0);
    frontier.push(Entry { priority: heuristic(start, goal), point: start });
    let ghost mut know = initial(start, goal);
    proof {
        lemma_initial(maze@, start, goal);
        assert forall|p: Point| maze@.in_bounds(p) implies match #[trigger] table@[maze@.index(p)] {
            Some(score) => know.scores.dom().contains(p) && know.scores[p] == score,
            None => !know.scores.dom().contains(p),
        } by {
            crate::maze::lemma_index_in_range(
                maze@.rows as int,
                maze@.cols as int,
                p.0 as int,
                p.1 as int,
            );
            if p != start {
                if maze@.index(p) == maze@.index(start) {
                    lemma_index_injective(maze@, p, start);
                }
                assert(table@[maze@.index(p)] == blank[maze@.index(p)]);
            }
        }
        assert forall|i: int| 0 <= i < table@.len() implies match #[trigger] table@[i] {
            Some(score) => score < scored(table@),
            None => true,
        } by {
            if i != start_slot {
                assert(table@[i] == blank[i]);
            }
        }
    }
    loop
        invariant
            maze@.wf(),
            maze@.in_bounds(start),
            maze@.in_bounds(goal),
            inv(maze@, start, goal, know),
            know.frontier == frontier@,
            table_holds(maze@, table@, know.scores),
        decreases table@.len() - scored(table@), total(table@), frontier@.len(),
    {
        let ghost table_before = table@;
        let ghost waiting_before = frontier@.len();
        proof {
            lemma_scored_bound(table@);
        }
        let entry = match frontier.pop() {
            Some(entry) => entry,
            None => {
                // Every cell that can be reached has been expanded, and the
                // goal was not among them.
                proof {
                    lemma_exhausted(maze@, start, goal, know);
                }
                return None;
            },
        };
        let current = entry.point;
        proof {
            lemma_entry_known(maze@, start, goal, know, entry);
            lemma_manhattan_in_grid(maze@, current, goal);
        }
        let slot = maze.get_index(current).unwrap();
        assert(table@[maze@.index(current)].is_some());
        let score = table[slot].unwrap();
        if entry.priority != score + heuristic(current, goal) {
            // The cell has got a lower score since this entry was pushed:
            // the entry is stale and is dropped.
            proof {
                lemma_stale(maze@, start, goal, know, entry);
                know = Knowledge { frontier: know.frontier.remove(entry), ..know };
            }
        } else {
            proof {
                lemma_least_is_optimal(maze@, start, goal, know, entry);
            }
            if current == goal {
                // The first current entry for the goal carries its distance.
                return Some(score);
            }
            proof {
                lemma_begin(maze@, start, goal, know, entry);
                know = Knowledge { frontier: know.frontier.remove(entry), ..know };
            }
            let mut direction: usize = 0;
            while direction < 4
                invariant
                    direction <= 4,
                    maze@.wf(),
                    maze@.in_bounds(goal),
                    maze@.in_bounds(current),
                    inv_mid(maze@, start, goal, know, current, direction as int),
                    know.frontier == frontier@,
                    table_holds(maze@, table@, know.scores),
                    know.scores.dom().contains(current),
                    know.scores[current] == score,
                    table@.len() == table_before.len(),
                    progress(table@, frontier@.len(), table_before, waiting_before),
                decreases 4 - direction,
            {
                proof {
                    lemma_scored_bound(table@);
                    crate::maze::lemma_index_in_range(
                        maze@.rows as int,
                        maze@.cols as int,
                        current.0 as int,
                        current.1 as int,
                    );
                    assert(table@[maze@.index(current)] == Some(score));
                }
                let ghost mut changed = false;
                match neighbor(maze, current, direction) {
                    Some(q) => {
                        if maze.get(q) == Cell::Space {
                            let q_slot = maze.get_index(q).unwrap();
                            let cost: usize = score + 1;
                            let better = match table[q_slot] {
                                Some(known) => cost < known,
                                None => true,
                            };
                            assert(table@[maze@.index(q)] == table@[q_slot as int]);
                            if better {
                                // The way through `current` is the first or a
                                // shorter one to `q`.
                                proof {
                                    lemma_manhattan_in_grid(maze@, q, goal);
                                }
                                let priority: usize = cost + heuristic(q, goal);
                                proof {
                                    lemma_relax_improve(
                                        maze@,
                                        start,
                                        goal,
                                        know,
                                        current,
                                        direction as int,
                                        q,
                                    );
                                    lemma_table_write(maze@, table@, know.scores, q, current, cost);
                                    lemma_table_update(table@, q_slot as int, cost);
                                }
                                table[q_slot] = Some(cost);
                                frontier.push(Entry { priority, point: q });
                                proof {
                                    know = improved(know, current, q, goal);
                                    changed = true;
                                }
                            }
                        }
                    },
                    None => {},
                }
                proof {
                    if !changed {
                        lemma_relax_keep(maze@, start, goal, know, current, direction as int);
                    }
                }
                direction = direction + 1;
            }
            proof {
                lemma_finish(maze@, start, goal, know, current);
                know = Knowledge { closed: know.closed.insert(current), ..know };
            }
        }
        proof {
            lemma_scored_bound(table@);
        }
    }
}

/// Some walk of `steps` moves leads from `start` to `goal`, and its first
/// move goes in a direction below `done`.
spec fn reachable_through(
    maze: MazeView,
    start: Point,
    goal: Point,
    steps: nat,
    done: int,
) -> bool {
    exists|walk: Seq<Point>| #[trigger]
        walk_between(maze, start, goal, walk) && walk.len() == steps + 1 && walk.len() >= 2
            && direction_of(start, walk[1]) < done
}

/// What is known of the walks whose first move goes in a direction below
/// `done`: the least number of moves of such a walk, or that there is none.
spec fn least_through(
    maze: MazeView,
    start: Point,
    goal: Point,
    done: int,
    least: Option<usize>,
) -> bool {
    match least {
        Some(steps) => {
            &&& reachable_in(maze, start, goal, steps as nat)
            &&& forall|n: nat| #[trigger]
                reachable_through(maze, start, goal, n, done) ==> steps <= n
        },
        None => forall|n: nat| !#[trigger] reachable_through(maze, start, goal, n, done),
    }
}

/// No walk begins with a move in the direction `done` where the grid has
/// no open cell there, or where no walk leads on from that cell.
proof fn lemma_through_closed(
    maze: MazeView,
    start: Point,
    goal: Point,
    done: int,
    least: Option<usize>,
)
    requires
        least_through(maze, start, goal, done, least),
        forall|q: Point| #[trigger]
            is_move(maze, start, q) && direction_of(start, q) == done ==> !reachable(
                maze,
                q,
                goal,
            ),
    ensures
        least_through(maze, start, goal, done + 1, least),
{
    assert forall|n: nat| #[trigger]
        reachable_through(maze, start, goal, n, done + 1) implies reachable_through(
        maze,
        start,
        goal,
        n,
        done,
    ) by {
        let walk = choose|walk: Seq<Point>| #[trigger]
            walk_between(maze, start, goal, walk) && walk.len() == n + 1 && walk.len() >= 2
                && direction_of(start, walk[1]) < done + 1;
        lemma_walk_rest(maze, walk);
        if direction_of(start, walk[1]) == done {
            assert(reachable(maze, walk[1], goal));
        }
    }
}

/// Two cells next to one point in the same direction are one cell.
proof fn lemma_same_direction(from: Point, a: Point, b: Point)
    requires
        adjacent(from, a),
        adjacent(from, b),
        direction_of(from, a) == direction_of(from, b),
    ensures
        a == b,
{
}

/// A walk whose first move goes in the direction of `q` leads on from `q`.
proof fn lemma_through_first(
    maze: MazeView,
    start: Point,
    goal: Point,
    q: Point,
    walk: Seq<Point>,
)
    requires
        walk_between(maze, start, goal, walk),
        walk.len() >= 2,
        adjacent(start, q),
        direction_of(start, walk[1]) == direction_of(start, q),
    ensures
        reachable_in(maze, q, goal, (walk.len() - 2) as nat),
{
    lemma_walk_rest(maze, walk);
    lemma_same_direction(start, walk[1], q);
}

/// The least number of moves once the walks that begin with a move to `q`
/// in the direction `done` are counted in, where `onward` moves lead on
/// from `q` to the goal and no fewer do.
proof fn lemma_through_open(
    maze: MazeView,
    start: Point,
    goal: Point,
    done: int,
    least: Option<usize>,
    q: Point,
    onward: usize,
    better: usize,
)
    requires
        least_through(maze, start, goal, done, least),
        is_move(maze, start, q),
        direction_of(start, q) == done,
        is_distance(maze, q, goal, onward as nat),
        better == onward + 1 || (least == Some(better) && better <= onward + 1),
        least matches Some(steps) ==> better <= steps,
    ensures
        least_through(maze, start, goal, done + 1, Some(better)),
{
    lemma_walk_prepend(maze, start, q, goal, onward as nat);
    assert forall|n: nat| #[trigger]
        reachable_through(maze, start, goal, n, done + 1) implies better <= n by {
        let walk = choose|walk: Seq<Point>| #[trigger]
            walk_between(maze, start, goal, walk) && walk.len() == n + 1 && walk.len() >= 2
                && direction_of(start, walk[1]) < done + 1;
        if direction_of(start, walk[1]) == done {
            lemma_through_first(maze, start, goal, q, walk);
        } else {
            assert(reachable_through(maze, start, goal, n, done));
        }
    }
}

/// Once all four directions are counted in, the least number of moves is
/// the distance.
proof fn lemma_through_all(maze: MazeView, start: Point, goal: Point, least: Option<usize>)
    requires
        start != goal,
        least_through(maze, start, goal, 4, least),
    ensures
        match least {
            Some(steps) => is_distance(maze, start, goal, steps as nat),
            None => !reachable(maze, start, goal),
        },
{
    assert forall|n: nat| #[trigger]
        reachable_in(maze, start, goal, n) implies reachable_through(maze, start, goal, n, 4) by {
        let walk = choose|walk: Seq<Point>| #[trigger]
            walk_between(maze, start, goal, walk) && walk.len() == n + 1;
        assert(walk.len() >= 2);
    }
    if least.is_none() && reachable(maze, start, goal) {
        let n = choose|n: nat| reachable_in(maze, start, goal, n);
        assert(reachable_through(maze, start, goal, n, 4));
    }
}

/// The least number of moves from a point that is no cell of the maze to
/// the cell `goal`: one more than from the cell that the first move enters.
fn enter_grid(maze: &Maze, start: Point, goal: Point) -> (length: Option<usize>)
    requires
        maze@.in_bounds(goal),
        !maze@.in_bounds(start),
    ensures
        match length {
            Some(steps) => is_distance(maze@, start, goal, steps as nat),
            None => !reachable(maze@, start, goal),
        },
        length matches Some(steps) ==> steps <= maze@.cells.len() <= MAX_CELLS,
{
    let mut least: Option<usize> = None;
    let mut direction: usize = 0;
    while direction < 4
        invariant
            direction <= 4,
            maze@.in_bounds(goal),
            least_through(maze@, start, goal, direction as int, least),
            least matches Some(steps) ==> steps <= maze@.cells.len() <= MAX_CELLS,
        decreases 4 - direction,
    {
        let ghost known = least;
        let ghost mut entered = false;
        match neighbor(maze, start, direction) {
            Some(q) => {
                if maze.get(q) == Cell::Space {
                    match best_first(maze, q, goal) {
                        Some(onward) => {
                            let better = match least {
                                Some(steps) if steps <= onward + 1 => steps,
                                _ => onward + 1,
                            };
                            proof {
                                lemma_through_open(
                                    maze@,
                                    start,
                                    goal,
                                    direction as int,
                                    known,
                                    q,
                                    onward,
                                    better,
                                );
                                entered = true;
                            }
                            least = Some(better);
                        },
                        None => {},
                    }
                }
            },
            None => {},
        }
        proof {
            if !entered {
                lemma_through_closed(maze@, start, goal, direction as int, known);
            }
        }
        direction = direction + 1;
    }
    proof {
        lemma_through_all(maze@, start, goal, least);
    }
    least
}

/// The length of a shortest walk from `start` to `goal`, or `None` when no
/// walk leads there. The walk may begin on a wall, or at a point that is no
/// cell of the maze, but it enters open cells of the maze only.
pub fn a_star(maze: &Maze, start: Point, goal: Point) -> (length: Option<usize>)
    ensures
        match length {
            Some(steps) => distance(maze@, start, goal) == Some(steps as nat),
            None => distance(maze@, start, goal).is_none(),
        },
        length.is_none() <==> !reachable(maze@, start, goal),
        start == goal ==> length == Some(0usize),
        length matches Some(steps) ==> manhattan(start, goal) <= steps <= maze@.cells.len()
            <= MAX_CELLS,
        all_open(maze@) && maze@.in_bounds(start) && maze@.in_bounds(goal) ==> length == Some(
            manhattan(start, goal) as usize,
        ),
{
    let goal_in_grid = maze.in_bounds(goal);
    let length = if start == goal {
        proof {
            lemma_walk_of_one(maze@, start);
        }
        Some(0)
    } else if !goal_in_grid {
        proof {
            lemma_goal_off_grid(maze@, start, goal);
        }
        None
    } else if maze.in_bounds(start) {
        best_first(maze, start, goal)
    } else {
        enter_grid(maze, start, goal)
    };
    proof {
        match length {
            Some(steps) => {
                lemma_distance_is(maze@, start, goal, steps as nat);
                lemma_manhattan_admissible(maze@, start, goal, steps as nat);
            },
            None => {
                lemma_distance_none(maze@, start, goal);
            },
        }
        if all_open(maze@) && maze@.in_bounds(start) && maze@.in_bounds(goal) {
            lemma_open_grid_distance(maze@, start, goal);
        }
    }
    length
}

} // verus!
