//! Hardening a maze: turning one open cell into a wall, and the rule by
//! which such a wall is accepted.

use crate::maze::{
    lemma_index_in_range, lemma_index_split, Cell, GridView, Maze, MazeView, Point,
};
use crate::route::{find_shortest_path, route_length};
use crate::walk::{lemma_distance_to_self, lemma_distance_zero};
use vstd::prelude::*;

verus! {

/// The route that a maze is judged by: from `entry` over both touchpoints,
/// in their order, to `exit`.
#[derive(Copy, Clone, Debug, PartialEq, Eq)]
pub struct Route {
    pub entry: Point,
    pub exit: Point,
    pub touchpoints: (Point, Point),
}

/// The length of the route through `maze`, with 0 standing for a route that
/// does not exist. A route that exists has the length 0 only where its four
/// points are one and the same, and then it exists in every maze: see
/// `lemma_score_zero`.
pub open spec fn score(maze: MazeView, route: Route) -> nat {
    match route_length(maze, route.entry, route.exit, route.touchpoints) {
        Some(length) => length,
        None => 0,
    }
}

/// The four points of the route are one and the same.
pub open spec fn is_one_point(route: Route) -> bool {
    &&& route.entry == route.touchpoints.0
    &&& route.touchpoints.0 == route.touchpoints.1
    &&& route.touchpoints.1 == route.exit
}

/// The score 0 never stands for two things in one search: where the four
/// points of the route are one and the same, the route exists in every maze
/// and has the length 0; where they are not, no route has the length 0, so
/// that the score 0 says that there is no route.
pub proof fn lemma_score_zero(maze: MazeView, route: Route)
    ensures
        is_one_point(route) ==> route_length(maze, route.entry, route.exit, route.touchpoints)
            == Some(0nat),
        !is_one_point(route) && score(maze, route) == 0 ==> route_length(
            maze,
            route.entry,
            route.exit,
            route.touchpoints,
        ).is_none(),
{
    if is_one_point(route) {
        lemma_distance_to_self(maze, route.entry);
    } else {
        lemma_distance_zero(maze, route.entry, route.touchpoints.0);
        lemma_distance_zero(maze, route.touchpoints.0, route.touchpoints.1);
        lemma_distance_zero(maze, route.touchpoints.1, route.exit);
    }
}

/// The length of the route through `maze`, with 0 standing for a route that
/// does not exist.
pub fn score_of(maze: &Maze, route: &Route) -> (length: usize)
    ensures
        length == score(maze@, *route),
{
    match find_shortest_path(maze, route.entry, route.exit, route.touchpoints) {
        Some(length) => length,
        None => 0,
    }
}

/// `child` is `parent` with the open cell `at` turned into a wall.
pub open spec fn hardened(parent: MazeView, at: Point, child: MazeView) -> bool {
    &&& parent.in_bounds(at)
    &&& parent.at(at) == Cell::Space
    &&& child == parent.with(at, Cell::Wall)
}

/// The search accepts `child` as a successor of `parent`: one open cell has
/// become a wall and the route has not become shorter.
pub open spec fn accepted(route: Route, parent: MazeView, child: MazeView) -> bool {
    &&& exists|at: Point| hardened(parent, at, child)
    &&& score(child, route) >= score(parent, route)
}

/// A sequence of mazes in which each is an accepted successor of the one
/// before it.
pub open spec fn is_lineage(route: Route, chain: Seq<MazeView>) -> bool {
    &&& chain.len() > 0
    &&& forall|i: int|
        0 <= i < chain.len() - 1 ==> accepted(route, #[trigger] chain[i], chain[i + 1])
}

/// `maze` is reached from `initial` by exactly `generations` accepted walls.
pub open spec fn descends(
    route: Route,
    initial: MazeView,
    maze: MazeView,
    generations: nat,
) -> bool {
    exists|chain: Seq<MazeView>| #[trigger]
        is_lineage(route, chain) && chain.len() == generations + 1 && chain[0] == initial
            && chain[chain.len() - 1] == maze
}

/// `maze` is `initial` or is reached from it by accepted walls.
pub open spec fn explored(route: Route, initial: MazeView, maze: MazeView) -> bool {
    exists|generations: nat| descends(route, initial, maze, generations)
}

/// `maze` is reached from `initial` by at least one accepted wall.
pub open spec fn derived(route: Route, initial: MazeView, maze: MazeView) -> bool {
    exists|generations: nat| generations >= 1 && descends(route, initial, maze, generations)
}

/// Every maze is explored from itself.
pub proof fn lemma_explored_self(route: Route, maze: MazeView)
    ensures
        explored(route, maze, maze),
{
    assert(is_lineage(route, seq![maze]));
    assert(descends(route, maze, maze, 0));
}

/// An accepted successor of an explored maze is derived.
pub proof fn lemma_explored_step(route: Route, initial: MazeView, parent: MazeView, child: MazeView)
    requires
        explored(route, initial, parent),
        accepted(route, parent, child),
    ensures
        derived(route, initial, child),
        explored(route, initial, child),
{
    let n = choose|n: nat| descends(route, initial, parent, n);
    let chain = choose|chain: Seq<MazeView>| #[trigger]
        is_lineage(route, chain) && chain.len() == n + 1 && chain[0] == initial && chain[chain.len()
            - 1] == parent;
    let longer = chain.push(child);
    assert forall|i: int| 0 <= i < longer.len() - 1 implies accepted(
        route,
        #[trigger] longer[i],
        longer[i + 1],
    ) by {
        if i < chain.len() - 1 {
            assert(accepted(route, chain[i], chain[i + 1]));
        }
    }
    assert(is_lineage(route, longer));
    assert(descends(route, initial, child, n + 1));
}

/// A derived maze is an accepted successor of an explored one.
pub proof fn lemma_derived_parent(route: Route, initial: MazeView, maze: MazeView) -> (parent:
    MazeView)
    requires
        derived(route, initial, maze),
    ensures
        explored(route, initial, parent),
        accepted(route, parent, maze),
{
    let n = choose|n: nat| n >= 1 && descends(route, initial, maze, n);
    let chain = choose|chain: Seq<MazeView>| #[trigger]
        is_lineage(route, chain) && chain.len() == n + 1 && chain[0] == initial && chain[chain.len()
            - 1] == maze;
    let shorter = chain.drop_last();
    assert forall|i: int| 0 <= i < shorter.len() - 1 implies accepted(
        route,
        #[trigger] shorter[i],
        shorter[i + 1],
    ) by {
        assert(accepted(route, chain[i], chain[i + 1]));
    }
    assert(is_lineage(route, shorter));
    assert(descends(route, initial, shorter[shorter.len() - 1], (n - 1) as nat));
    assert(accepted(route, chain[n - 1], chain[n - 1 + 1]));
    shorter[shorter.len() - 1]
}

/// The number of open cells.
pub open spec fn open_count(cells: Seq<Cell>) -> nat
    decreases cells.len(),
{
    if cells.len() == 0 {
        0
    } else {
        open_count(cells.drop_last()) + if cells.last() == Cell::Space {
            1nat
        } else {
            0nat
        }
    }
}

/// Turning one open cell into a wall leaves one open cell less.
pub proof fn lemma_open_count_wall(cells: Seq<Cell>, i: int)
    requires
        0 <= i < cells.len(),
        cells[i] == Cell::Space,
    ensures
        open_count(cells.update(i, Cell::Wall)) + 1 == open_count(cells),
    decreases cells.len(),
{
    let walled = cells.update(i, Cell::Wall);
    if i == cells.len() - 1 {
        assert(walled.drop_last() =~= cells.drop_last());
    } else {
        lemma_open_count_wall(cells.drop_last(), i);
        assert(walled.drop_last() =~= cells.drop_last().update(i, Cell::Wall));
    }
}

/// `maze` has the dimensions of `initial`.
pub open spec fn shaped(initial: MazeView, maze: MazeView) -> bool {
    &&& maze.rows == initial.rows
    &&& maze.cols == initial.cols
    &&& maze.wf()
}

/// An accepted successor has the dimensions of its parent and one open cell
/// less.
pub proof fn lemma_accepted_shape(route: Route, parent: MazeView, child: MazeView)
    requires
        parent.wf(),
        accepted(route, parent, child),
    ensures
        shaped(parent, child),
        open_count(child.cells) + 1 == open_count(parent.cells),
{
    let at = choose|at: Point| hardened(parent, at, child);
    lemma_index_in_range(parent.rows as int, parent.cols as int, at.0 as int, at.1 as int);
    lemma_open_count_wall(parent.cells, parent.index(at));
}

/// `parent` with a wall on the cell at the row-major position `position`.
pub open spec fn walled(parent: MazeView, position: int) -> MazeView {
    GridView { cells: parent.cells.update(position, Cell::Wall), ..parent }
}

/// The accepted successors of `parent` whose wall lies at a row-major
/// position below `upto`, in the order of these positions.
pub open spec fn successors_below(route: Route, parent: MazeView, upto: nat) -> Seq<MazeView>
    decreases upto,
{
    if upto == 0 {
        Seq::empty()
    } else {
        let earlier = successors_below(route, parent, (upto - 1) as nat);
        let child = walled(parent, upto - 1);
        if parent.cells[upto - 1] == Cell::Space && score(child, route) >= score(parent, route) {
            earlier.push(child)
        } else {
            earlier
        }
    }
}

/// The accepted successors of `parent`, in the row-major order of the cells
/// that became walls.
pub open spec fn successors(route: Route, parent: MazeView) -> Seq<MazeView> {
    successors_below(route, parent, parent.cells.len())
}

/// The best maze once `candidates` have been looked at one after the other:
/// a candidate replaces the best maze known where its route is longer.
pub open spec fn raised(route: Route, best: (nat, MazeView), candidates: Seq<MazeView>) -> (
    nat,
    MazeView,
)
    decreases candidates.len(),
{
    if candidates.len() == 0 {
        best
    } else {
        let earlier = raised(route, best, candidates.drop_last());
        let last = candidates.last();
        if score(last, route) > earlier.0 {
            (score(last, route), last)
        } else {
            earlier
        }
    }
}

/// The cell at a row-major position.
pub open spec fn point_at(maze: MazeView, position: int) -> Point {
    Point((position / (maze.cols as int)) as usize, (position % (maze.cols as int)) as usize)
}

/// Each row-major position of a maze is that of one of its cells.
pub proof fn lemma_point_at(maze: MazeView, position: int)
    requires
        maze.wf(),
        0 <= position < maze.cells.len(),
    ensures
        maze.in_bounds(point_at(maze, position)),
        maze.index(point_at(maze, position)) == position,
{
    let rows = maze.rows as int;
    let cols = maze.cols as int;
    if cols == 0 {
        assert(rows * cols == 0) by (nonlinear_arith)
            requires
                cols == 0,
        ;
    }
    lemma_index_split(cols, position);
    let row = position / cols;
    if row >= rows {
        assert(row * cols >= rows * cols) by (nonlinear_arith)
            requires
                row >= rows,
                cols > 0,
        ;
    }
}

/// What holds of the accepted successors with a wall below `upto`: each is
/// accepted, none that is accepted is missing, and there are no more of them
/// than open cells below `upto`.
pub proof fn lemma_successors_below(route: Route, parent: MazeView, upto: nat)
    requires
        parent.wf(),
        upto <= parent.cells.len(),
    ensures
        forall|k: int|
            0 <= k < successors_below(route, parent, upto).len() ==> accepted(
                route,
                parent,
                #[trigger] successors_below(route, parent, upto)[k],
            ),
        forall|position: int|
            0 <= position < upto && parent.cells[position] == Cell::Space && score(
                #[trigger] walled(parent, position),
                route,
            ) >= score(parent, route) ==> successors_below(route, parent, upto).contains(
                walled(parent, position),
            ),
        successors_below(route, parent, upto).len() <= open_count(
            parent.cells.subrange(0, upto as int),
        ),
    decreases upto,
{
    if upto > 0 {
        let below = (upto - 1) as nat;
        let earlier = successors_below(route, parent, below);
        let all = successors_below(route, parent, upto);
        let child = walled(parent, below as int);
        lemma_successors_below(route, parent, below);
        let prefix = parent.cells.subrange(0, upto as int);
        assert(prefix.drop_last() =~= parent.cells.subrange(0, below as int));
        assert(prefix.last() == parent.cells[below as int]);
        let qualifies = parent.cells[below as int] == Cell::Space && score(child, route) >= score(
            parent,
            route,
        );
        if qualifies {
            lemma_point_at(parent, below as int);
            assert(hardened(parent, point_at(parent, below as int), child));
        }
        assert forall|k: int| 0 <= k < all.len() implies accepted(
            route,
            parent,
            #[trigger] all[k],
        ) by {
            if k < earlier.len() {
                assert(all[k] == earlier[k]);
            }
        }
        assert forall|position: int|
            0 <= position < upto && parent.cells[position] == Cell::Space && score(
                #[trigger] walled(parent, position),
                route,
            ) >= score(parent, route) implies all.contains(walled(parent, position)) by {
            if position < below {
                let k = choose|k: int|
                    0 <= k < earlier.len() && earlier[k] == walled(parent, position);
                assert(all[k] == walled(parent, position));
            } else {
                assert(all[earlier.len() as int] == child);
            }
        }
    }
}

/// The successors of a maze are exactly the mazes that the search accepts
/// after it, and there are no more of them than the maze has open cells.
pub proof fn lemma_successors(route: Route, parent: MazeView)
    requires
        parent.wf(),
    ensures
        successors(route, parent).len() <= open_count(parent.cells),
        forall|k: int|
            0 <= k < successors(route, parent).len() ==> accepted(
                route,
                parent,
                #[trigger] successors(route, parent)[k],
            ),
        forall|child: MazeView| #[trigger]
            accepted(route, parent, child) ==> successors(route, parent).contains(child),
{
    lemma_successors_below(route, parent, parent.cells.len());
    assert(parent.cells.subrange(0, parent.cells.len() as int) =~= parent.cells);
    assert forall|child: MazeView| #[trigger] accepted(route, parent, child) implies successors(
        route,
        parent,
    ).contains(child) by {
        let at = choose|at: Point| hardened(parent, at, child);
        lemma_index_in_range(parent.rows as int, parent.cols as int, at.0 as int, at.1 as int);
        assert(child == walled(parent, parent.index(at)));
    }
}

/// What holds of the best maze once candidates have been looked at: it is
/// no worse than before and than any candidate, and it is the maze known
/// before or one of the candidates.
pub proof fn lemma_raised(route: Route, best: (nat, MazeView), candidates: Seq<MazeView>)
    ensures
        raised(route, best, candidates).0 >= best.0,
        forall|k: int|
            0 <= k < candidates.len() ==> score(#[trigger] candidates[k], route) <= raised(
                route,
                best,
                candidates,
            ).0,
        raised(route, best, candidates).0 == best.0 ==> raised(route, best, candidates) == best,
        raised(route, best, candidates).0 != best.0 ==> candidates.contains(
            raised(route, best, candidates).1,
        ) && score(raised(route, best, candidates).1, route) == raised(route, best, candidates).0,
    decreases candidates.len(),
{
    if candidates.len() > 0 {
        let shorter = candidates.drop_last();
        lemma_raised(route, best, shorter);
        let earlier = raised(route, best, shorter);
        let result = raised(route, best, candidates);
        assert forall|k: int| 0 <= k < candidates.len() implies score(
            #[trigger] candidates[k],
            route,
        ) <= result.0 by {
            if k < shorter.len() {
                assert(candidates[k] == shorter[k]);
            }
        }
        if result.0 != best.0 {
            if score(candidates.last(), route) > earlier.0 {
                assert(candidates[candidates.len() - 1] == result.1);
            } else {
                let k = choose|k: int| 0 <= k < shorter.len() && shorter[k] == result.1;
                assert(candidates[k] == result.1);
            }
        }
    }
}

/// The successors below a position and those below the next one.
proof fn lemma_successors_next(route: Route, parent: MazeView, position: nat)
    ensures
        successors_below(route, parent, position + 1) == if parent.cells[position as int]
            == Cell::Space && score(walled(parent, position as int), route) >= score(
            parent,
            route,
        ) {
            successors_below(route, parent, position).push(walled(parent, position as int))
        } else {
            successors_below(route, parent, position)
        },
{
}

/// The best maze before and after one more candidate has been looked at.
proof fn lemma_raised_next(
    route: Route,
    best: (nat, MazeView),
    candidates: Seq<MazeView>,
    candidate: MazeView,
)
    ensures
        raised(route, best, candidates.push(candidate)) == if score(candidate, route) > raised(
            route,
            best,
            candidates,
        ).0 {
            (score(candidate, route), candidate)
        } else {
            raised(route, best, candidates)
        },
{
    assert(candidates.push(candidate).drop_last() =~= candidates);
}

/// A stack with one more maze on it.
proof fn lemma_views_push(stack: Seq<Maze>, maze: Maze)
    ensures
        views(stack.push(maze)) == views(stack).push(maze@),
{
    assert(views(stack.push(maze)) =~= views(stack).push(maze@));
}

/// The mazes on a stack as mathematical values.
pub open spec fn views(stack: Seq<Maze>) -> Seq<MazeView> {
    Seq::new(stack.len(), |i: int| stack[i]@)
}

/// Tries a wall on each open cell of `current` in row-major order. Each
/// maze whose route is no shorter than that of `current` is pushed on the
/// stack, and becomes the best one where its route is longer than the best
/// length so far. `current` is left as it was.
pub fn expand(
    route: &Route,
    current: &mut Maze,
    stack: &mut Vec<Maze>,
    best_length: &mut usize,
    best_maze: &mut Maze,
)
    ensures
        final(current)@ == old(current)@,
        views(final(stack)@) == views(old(stack)@) + successors(*route, old(current)@),
        (*final(best_length) as nat, final(best_maze)@) == raised(
            *route,
            (*old(best_length) as nat, old(best_maze)@),
            successors(*route, old(current)@),
        ),
{
    let ghost parent = current@;
    let ghost before = views(stack@);
    let ghost best_before = (*best_length as nat, best_maze@);
    let parent_length = score_of(current, route);
    let items = current.iter();
    let mut i: usize = 0;
    while i < items.len()
        invariant
            i <= items@.len(),
            parent.wf(),
            parent_length == score(parent, *route),
            current@ == parent,
            items@.len() == parent.cells.len(),
            forall|j: int|
                0 <= j < items@.len() ==> {
                    let item = #[trigger] items@[j];
                    &&& parent.in_bounds(Point(item.0, item.1))
                    &&& parent.index(Point(item.0, item.1)) == j
                    &&& item.2 == parent.cells[j]
                },
            views(stack@) == before + successors_below(*route, parent, i as nat),
            (*best_length as nat, best_maze@) == raised(
                *route,
                best_before,
                successors_below(*route, parent, i as nat),
            ),
        decreases items@.len() - i,
    {
        let (row, col, value) = items[i];
        let point = Point(row, col);
        let ghost earlier = successors_below(*route, parent, i as nat);
        let ghost child = walled(parent, i as int);
        let ghost stack_before = stack@;
        proof {
            assert(items@[i as int] == (row, col, value));
            assert(child == parent.with(point, Cell::Wall));
            lemma_successors_next(*route, parent, i as nat);
            lemma_raised_next(*route, best_before, earlier, child);
        }
        if value == Cell::Space {
            current.set(point, Cell::Wall);
            let new_length = score_of(current, route);
            if new_length >= parent_length {
                if new_length > *best_length {
                    *best_length = new_length;
                    *best_maze = current.clone();
                }
                let copy = current.clone();
                proof {
                    lemma_views_push(stack_before, copy);
                    assert((before + earlier).push(child) =~= before + earlier.push(child));
                }
                stack.push(copy);
            }
            current.set(point, Cell::Space);
            proof {
                assert(current@.cells =~= parent.cells);
            }
        }
        i = i + 1;
    }
}

} // verus!
