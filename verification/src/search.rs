//! The hardening search: walls are added to a maze one cell at a time, and a
//! wall stays only where the route does not become shorter. The search looks
//! at every maze that can be reached in this way and keeps the one with the
//! longest route.

use crate::hardening::{
    accepted, derived, descends, expand, explored, is_lineage, lemma_accepted_shape,
    lemma_derived_parent, lemma_explored_self, lemma_explored_step, lemma_raised,
    lemma_successors, open_count, raised, score, shaped, successors, views, Route,
};
use crate::maze::{
    lemma_serialization_injective, serialization, Cell, Maze, MazeView, Point,
};
use crate::seen::SeenSet;
use vstd::prelude::*;

verus! {

/// A bound on the number of mazes that the search can pop for one maze
/// with `open` open cells that is on the stack.
pub open spec fn tree_size(open: nat) -> nat
    decreases open,
{
    if open == 0 {
        1
    } else {
        1 + open * tree_size((open - 1) as nat)
    }
}

/// A bound on the number of mazes that the search can still pop while the
/// given mazes are on its stack.
pub open spec fn work(pending: Seq<MazeView>) -> nat
    decreases pending.len(),
{
    if pending.len() == 0 {
        0
    } else {
        work(pending.drop_last()) + tree_size(open_count(pending.last().cells))
    }
}

/// What one expansion does to the stack: the mazes that were on it stay,
/// and on top of them come exactly the accepted successors of `parent`.
spec fn expansion(
    route: Route,
    parent: MazeView,
    before: Seq<MazeView>,
    after: Seq<MazeView>,
) -> bool {
    &&& before.len() <= after.len() <= before.len() + open_count(parent.cells)
    &&& forall|k: int| 0 <= k < before.len() ==> after[k] == before[k]
    &&& forall|k: int|
        before.len() <= k < after.len() ==> accepted(route, parent, #[trigger] after[k])
    &&& forall|child: MazeView| #[trigger]
        accepted(route, parent, child) ==> exists|k: int|
            before.len() <= k < after.len() && #[trigger] after[k] == child
}

/// How one expansion changes the best maze: it stays, or an accepted
/// successor with a longer route takes its place. None of the successors
/// pushed has a longer route than the best maze afterwards.
spec fn best_raised(
    route: Route,
    parent: MazeView,
    pushed_from: int,
    after: Seq<MazeView>,
    best_before: (nat, MazeView),
    best_after: (nat, MazeView),
) -> bool {
    &&& best_after.0 >= best_before.0
    &&& forall|k: int|
        pushed_from <= k < after.len() ==> score(#[trigger] after[k], route) <= best_after.0
    &&& if best_after.0 == best_before.0 {
        best_after.1 == best_before.1
    } else {
        &&& accepted(route, parent, best_after.1)
        &&& score(best_after.1, route) == best_after.0
    }
}

/// The work that stands for a stack onto which successors of one maze have
/// been pushed.
proof fn lemma_work_pushed(open: nat, before: Seq<MazeView>, after: Seq<MazeView>)
    requires
        before.len() <= after.len(),
        forall|k: int| 0 <= k < before.len() ==> after[k] == before[k],
        forall|k: int|
            before.len() <= k < after.len() ==> open_count((#[trigger] after[k]).cells) + 1
                == open,
    ensures
        work(after) == work(before) + (after.len() - before.len()) * tree_size((open - 1) as nat),
    decreases after.len() - before.len(),
{
    let size = tree_size((open - 1) as nat);
    if after.len() == before.len() {
        assert(after =~= before);
        assert(0 * size == 0) by (nonlinear_arith);
    } else {
        let shorter = after.drop_last();
        assert forall|k: int| before.len() <= k < shorter.len() implies open_count(
            (#[trigger] shorter[k]).cells,
        ) + 1 == open by {
            assert(shorter[k] == after[k]);
        }
        lemma_work_pushed(open, before, shorter);
        let top = after[after.len() - 1];
        assert(open_count(top.cells) + 1 == open);
        let pushed = after.len() - before.len();
        assert((pushed - 1) * size + size == pushed * size) by (nonlinear_arith);
    }
}

/// The successors of a maze stand for less work than the maze itself.
proof fn lemma_tree_size(open: nat, pushed: nat)
    requires
        pushed <= open,
    ensures
        pushed * tree_size((open - 1) as nat) < tree_size(open),
{
    let size = tree_size((open - 1) as nat);
    if open == 0 {
        assert(pushed * size == 0) by (nonlinear_arith)
            requires
                pushed == 0,
        ;
    } else {
        assert(pushed * size <= open * size) by (nonlinear_arith)
            requires
                pushed <= open,
                size >= 0,
        ;
    }
}

/// One run of the hardening search as a mathematical value.
pub struct SearchView {
    /// The route that mazes are judged by.
    pub route: Route,
    /// The maze the search started from.
    pub initial: MazeView,
    /// The mazes on the work stack, the next to be popped last.
    pub pending: Seq<MazeView>,
    /// The layouts of the mazes that have been evaluated.
    pub seen: Set<Seq<Cell>>,
    /// The mazes that have been evaluated, in the order of their evaluation.
    pub evaluated: Seq<MazeView>,
    /// The best length known.
    pub best_length: nat,
    /// The maze that the best length belongs to.
    pub best_maze: MazeView,
    /// The best length that the search was started with.
    pub floor_length: nat,
    /// The best maze that the search was started with.
    pub floor_maze: MazeView,
}

impl SearchView {
    /// The state that a search from `initial` starts in, with the best maze
    /// that is known beforehand.
    pub open spec fn start(
        route: Route,
        initial: MazeView,
        best_length: nat,
        best_maze: MazeView,
    ) -> SearchView {
        SearchView {
            route,
            initial,
            pending: seq![initial],
            seen: Set::empty(),
            evaluated: Seq::empty(),
            best_length,
            best_maze,
            floor_length: best_length,
            floor_maze: best_maze,
        }
    }

    /// The maze that the next step pops.
    pub open spec fn top(self) -> MazeView {
        self.pending.last()
    }

    /// Whether nothing is left to look at.
    pub open spec fn done(self) -> bool {
        self.pending.len() == 0
    }

    /// The state after one step. The maze on top of the stack is popped.
    /// Where its layout has been seen, nothing else happens. Else the maze
    /// counts as evaluated, its accepted successors are pushed in row-major
    /// order of their walls, and the first of them whose route is longer
    /// than every route known before it becomes the best maze. A search
    /// that is done stays as it is.
    pub open spec fn next(self) -> SearchView {
        if self.done() {
            self
        } else if self.seen.contains(self.top().cells) {
            SearchView { pending: self.pending.drop_last(), ..self }
        } else {
            let pushed = successors(self.route, self.top());
            let best = raised(self.route, (self.best_length, self.best_maze), pushed);
            SearchView {
                pending: self.pending.drop_last() + pushed,
                seen: self.seen.insert(self.top().cells),
                evaluated: self.evaluated.push(self.top()),
                best_length: best.0,
                best_maze: best.1,
                ..self
            }
        }
    }

    /// The state after `steps` steps.
    pub open spec fn run(self, steps: nat) -> SearchView
        decreases steps,
    {
        if steps == 0 {
            self
        } else {
            self.run((steps - 1) as nat).next()
        }
    }

    /// A bound on the number of steps that the search can still take.
    pub open spec fn remaining(self) -> nat {
        work(self.pending)
    }

    /// Every maze on the stack and every evaluated maze has the dimensions
    /// of the initial maze and is explored from it.
    #[verifier::opaque]
    spec fn all_explored(self) -> bool {
        &&& forall|k: int|
            0 <= k < self.pending.len() ==> shaped(self.initial, #[trigger] self.pending[k])
                && explored(self.route, self.initial, self.pending[k])
        &&& forall|k: int|
            0 <= k < self.evaluated.len() ==> shaped(self.initial, #[trigger] self.evaluated[k])
                && explored(self.route, self.initial, self.evaluated[k])
    }

    /// The seen-set holds the layouts of the evaluated mazes, and no maze
    /// has been evaluated twice.
    #[verifier::opaque]
    spec fn seen_is_evaluated(self) -> bool {
        &&& forall|cells: Seq<Cell>|
            self.seen.contains(cells) <==> exists|k: int|
                0 <= k < self.evaluated.len() && (#[trigger] self.evaluated[k]).cells == cells
        &&& forall|i: int, j: int|
            0 <= i < self.evaluated.len() && 0 <= j < self.evaluated.len() && i != j
                ==> self.evaluated[i] != self.evaluated[j]
    }

    /// Every accepted successor of an evaluated maze is on the stack or has
    /// been evaluated itself, and is no better than the best maze.
    #[verifier::opaque]
    spec fn successors_kept(self) -> bool {
        forall|k: int, child: MazeView|
            0 <= k < self.evaluated.len() && #[trigger] accepted(
                self.route,
                self.evaluated[k],
                child,
            ) ==> {
                &&& self.pending.contains(child) || self.evaluated.contains(child)
                &&& score(child, self.route) <= self.best_length
            }
    }

    /// The best maze is the one the search was started with, or it is
    /// derived from the initial maze and its route has the best length.
    #[verifier::opaque]
    spec fn best_is_known(self) -> bool {
        &&& self.best_length >= self.floor_length
        &&& if self.best_length == self.floor_length {
            self.best_maze == self.floor_maze
        } else {
            &&& derived(self.route, self.initial, self.best_maze)
            &&& score(self.best_maze, self.route) == self.best_length
        }
    }

    /// What holds between any two steps of the search. Every maze on the
    /// stack and every evaluated maze is explored from the initial maze.
    /// The seen-set holds the layouts of the evaluated mazes, each of which
    /// was evaluated once. The accepted successors of an evaluated maze are
    /// on the stack or evaluated, and none of them has a longer route than
    /// the best maze. The best maze is the one that the search was started
    /// with or a maze derived from the initial one.
    pub closed spec fn wf(self) -> bool {
        &&& self.initial.wf()
        &&& self.all_explored()
        &&& self.seen_is_evaluated()
        &&& self.successors_kept()
        &&& self.pending.contains(self.initial) || self.evaluated.contains(self.initial)
        &&& self.best_is_known()
    }

    /// The state after a step that drops a maze whose layout was seen
    /// before: nothing but the stack changes.
    spec fn skips(self, after: SearchView) -> bool {
        after == SearchView { pending: self.pending.drop_last(), ..self }
    }

    /// The state after a step that evaluates the maze it pops: the maze is
    /// recorded, its accepted successors take its place on the stack, and
    /// the best maze is raised to the best of them where that is better.
    spec fn evaluates(self, after: SearchView) -> bool {
        &&& after.route == self.route
        &&& after.initial == self.initial
        &&& after.floor_length == self.floor_length
        &&& after.floor_maze == self.floor_maze
        &&& after.evaluated == self.evaluated.push(self.top())
        &&& after.seen == self.seen.insert(self.top().cells)
        &&& expansion(self.route, self.top(), self.pending.drop_last(), after.pending)
        &&& best_raised(
            self.route,
            self.top(),
            self.pending.len() - 1,
            after.pending,
            (self.best_length, self.best_maze),
            (after.best_length, after.best_maze),
        )
    }
}

/// The maze on top of the stack has the dimensions of the initial maze and
/// is explored from it.
proof fn lemma_top_explored(search: SearchView)
    requires
        search.wf(),
        search.pending.len() > 0,
    ensures
        shaped(search.initial, search.top()),
        explored(search.route, search.initial, search.top()),
{
    reveal(SearchView::all_explored);
    assert(shaped(search.initial, search.pending[search.pending.len() - 1]));
}

/// A step that evaluates a maze pushes its accepted successors and raises
/// the best maze to the best of them.
proof fn lemma_next_evaluates(search: SearchView)
    requires
        search.wf(),
        !search.done(),
        !search.seen.contains(search.top().cells),
    ensures
        search.evaluates(search.next()),
{
    let top = search.top();
    let base = search.pending.drop_last();
    let pushed = successors(search.route, top);
    let after = search.next();
    lemma_top_explored(search);
    lemma_successors(search.route, top);
    lemma_raised(search.route, (search.best_length, search.best_maze), pushed);
    assert forall|k: int| base.len() <= k < after.pending.len() implies accepted(
        search.route,
        top,
        #[trigger] after.pending[k],
    ) && score(after.pending[k], search.route) <= after.best_length by {
        assert(after.pending[k] == pushed[k - base.len()]);
    }
    assert forall|child: MazeView| #[trigger] accepted(search.route, top, child) implies exists|
        k: int,
    |
        base.len() <= k < after.pending.len() && #[trigger] after.pending[k] == child by {
        let j = choose|j: int| 0 <= j < pushed.len() && pushed[j] == child;
        assert(after.pending[base.len() + j] == child);
    }
    if after.best_length != search.best_length {
        let j = choose|j: int| 0 <= j < pushed.len() && pushed[j] == after.best_maze;
        assert(accepted(search.route, top, pushed[j]));
    }
}

/// A maze that was on the stack or evaluated is so still after the top of
/// the stack has been evaluated and successors have been pushed in its
/// place.
proof fn lemma_still_kept(
    before: Seq<MazeView>,
    after: Seq<MazeView>,
    evaluated_before: Seq<MazeView>,
    evaluated: Seq<MazeView>,
    maze: MazeView,
)
    requires
        before.len() > 0,
        before.len() - 1 <= after.len(),
        forall|k: int| 0 <= k < before.len() - 1 ==> after[k] == before[k],
        evaluated == evaluated_before || evaluated == evaluated_before.push(before.last()),
        evaluated.contains(before.last()),
        before.contains(maze) || evaluated_before.contains(maze),
    ensures
        after.contains(maze) || evaluated.contains(maze),
{
    if before.contains(maze) {
        let k = choose|k: int| 0 <= k < before.len() && before[k] == maze;
        if k < before.len() - 1 {
            assert(after[k] == maze);
        }
    } else {
        let k = choose|k: int| 0 <= k < evaluated_before.len() && evaluated_before[k] == maze;
        assert(evaluated[k] == maze);
    }
}

/// Dropping a maze whose layout was seen before keeps the search well
/// formed and leaves less work.
proof fn lemma_skip(before: SearchView, after: SearchView)
    requires
        before.wf(),
        before.pending.len() > 0,
        before.seen.contains(before.top().cells),
        before.skips(after),
    ensures
        after.wf(),
        after.remaining() < before.remaining(),
{
    reveal(SearchView::all_explored);
    reveal(SearchView::seen_is_evaluated);
    reveal(SearchView::successors_kept);
    reveal(SearchView::best_is_known);
    let top = before.top();
    let k = choose|k: int|
        0 <= k < before.evaluated.len() && (#[trigger] before.evaluated[k]).cells == top.cells;
    assert(shaped(before.initial, before.pending[before.pending.len() - 1]));
    assert(before.evaluated[k] == top);
    assert forall|j: int, child: MazeView|
        0 <= j < after.evaluated.len() && #[trigger] accepted(
            after.route,
            after.evaluated[j],
            child,
        ) implies (after.pending.contains(child) || after.evaluated.contains(child)) && score(
        child,
        after.route,
    ) <= after.best_length by {
        assert(accepted(before.route, before.evaluated[j], child));
        lemma_still_kept(before.pending, after.pending, before.evaluated, after.evaluated, child);
    }
    lemma_still_kept(
        before.pending,
        after.pending,
        before.evaluated,
        after.evaluated,
        before.initial,
    );
    assert forall|j: int| 0 <= j < after.pending.len() implies shaped(
        after.initial,
        #[trigger] after.pending[j],
    ) && explored(after.route, after.initial, after.pending[j]) by {
        assert(after.pending[j] == before.pending[j]);
    }
}

/// After an evaluation every maze on the stack and every evaluated maze is
/// still explored.
proof fn lemma_evaluate_explored(before: SearchView, after: SearchView)
    requires
        before.wf(),
        before.pending.len() > 0,
        before.evaluates(after),
    ensures
        after.all_explored(),
{
    reveal(SearchView::all_explored);
    let top = before.top();
    let route = before.route;
    let initial = before.initial;
    let below = before.pending.len() - 1;
    lemma_top_explored(before);
    assert forall|k: int| 0 <= k < after.pending.len() implies shaped(
        initial,
        #[trigger] after.pending[k],
    ) && explored(route, initial, after.pending[k]) by {
        if k < below {
            assert(after.pending[k] == before.pending[k]);
        } else {
            assert(accepted(route, top, after.pending[k]));
            lemma_accepted_shape(route, top, after.pending[k]);
            lemma_explored_step(route, initial, top, after.pending[k]);
        }
    }
    assert forall|k: int| 0 <= k < after.evaluated.len() implies shaped(
        initial,
        #[trigger] after.evaluated[k],
    ) && explored(route, initial, after.evaluated[k]) by {
        if k < before.evaluated.len() {
            assert(after.evaluated[k] == before.evaluated[k]);
        }
    }
}

/// After an evaluation the seen-set still holds the evaluated layouts, each
/// of them once.
proof fn lemma_evaluate_seen(before: SearchView, after: SearchView)
    requires
        before.wf(),
        before.pending.len() > 0,
        !before.seen.contains(before.top().cells),
        before.evaluates(after),
    ensures
        after.seen_is_evaluated(),
{
    reveal(SearchView::seen_is_evaluated);
    let top = before.top();
    assert forall|cells: Seq<Cell>|
        after.seen.contains(cells) <==> exists|k: int|
            0 <= k < after.evaluated.len() && (#[trigger] after.evaluated[k]).cells == cells by {
        if after.seen.contains(cells) {
            if cells == top.cells {
                assert(after.evaluated[before.evaluated.len() as int].cells == cells);
            } else {
                assert(before.seen.contains(cells));
                let k = choose|k: int|
                    0 <= k < before.evaluated.len() && (#[trigger] before.evaluated[k]).cells
                        == cells;
                assert(after.evaluated[k].cells == cells);
            }
        }
        if exists|k: int|
            0 <= k < after.evaluated.len() && (#[trigger] after.evaluated[k]).cells == cells {
            let k = choose|k: int|
                0 <= k < after.evaluated.len() && (#[trigger] after.evaluated[k]).cells == cells;
            if k < before.evaluated.len() {
                assert(before.evaluated[k].cells == cells);
            }
        }
    }
    assert forall|i: int, j: int|
        0 <= i < after.evaluated.len() && 0 <= j < after.evaluated.len() && i
            != j implies after.evaluated[i] != after.evaluated[j] by {
        if i < before.evaluated.len() && j < before.evaluated.len() {
            assert(before.evaluated[i] != before.evaluated[j]);
        } else if i < before.evaluated.len() {
            assert(before.evaluated[i].cells != top.cells);
        } else {
            assert(before.evaluated[j].cells != top.cells);
        }
    }
}

/// After an evaluation the accepted successors of every evaluated maze,
/// the one just evaluated among them, are kept, and so is the initial maze.
proof fn lemma_evaluate_kept(before: SearchView, after: SearchView)
    requires
        before.wf(),
        before.pending.len() > 0,
        before.evaluates(after),
    ensures
        after.successors_kept(),
        after.pending.contains(after.initial) || after.evaluated.contains(after.initial),
{
    reveal(SearchView::successors_kept);
    let top = before.top();
    let route = before.route;
    let below = before.pending.len() - 1;
    assert(after.evaluated[before.evaluated.len() as int] == top);
    assert forall|j: int, child: MazeView|
        0 <= j < after.evaluated.len() && #[trigger] accepted(
            after.route,
            after.evaluated[j],
            child,
        ) implies (after.pending.contains(child) || after.evaluated.contains(child)) && score(
        child,
        after.route,
    ) <= after.best_length by {
        if j < before.evaluated.len() {
            assert(accepted(before.route, before.evaluated[j], child));
            lemma_still_kept(
                before.pending,
                after.pending,
                before.evaluated,
                after.evaluated,
                child,
            );
        } else {
            assert(accepted(route, top, child));
            let k = choose|k: int| below <= k < after.pending.len() && #[trigger] after.pending[k]
                == child;
            assert(after.pending[k] == child);
        }
    }
    lemma_still_kept(
        before.pending,
        after.pending,
        before.evaluated,
        after.evaluated,
        before.initial,
    );
}

/// After an evaluation the best maze is still one that the search can
/// answer for.
proof fn lemma_evaluate_best(before: SearchView, after: SearchView)
    requires
        before.wf(),
        before.pending.len() > 0,
        before.evaluates(after),
    ensures
        after.best_is_known(),
{
    reveal(SearchView::best_is_known);
    lemma_top_explored(before);
    if after.best_length != before.best_length {
        lemma_explored_step(before.route, before.initial, before.top(), after.best_maze);
    }
}

/// An evaluation leaves less work.
proof fn lemma_evaluate_work(before: SearchView, after: SearchView)
    requires
        before.wf(),
        before.pending.len() > 0,
        before.evaluates(after),
    ensures
        after.remaining() < before.remaining(),
{
    let top = before.top();
    let base = before.pending.drop_last();
    let open = open_count(top.cells);
    lemma_top_explored(before);
    assert forall|k: int| base.len() <= k < after.pending.len() implies open_count(
        (#[trigger] after.pending[k]).cells,
    ) + 1 == open by {
        assert(accepted(before.route, top, after.pending[k]));
        lemma_accepted_shape(before.route, top, after.pending[k]);
    }
    lemma_work_pushed(open, base, after.pending);
    lemma_tree_size(open, (after.pending.len() - base.len()) as nat);
}

/// An evaluation keeps the search well formed and leaves less work.
proof fn lemma_evaluate(before: SearchView, after: SearchView)
    requires
        before.wf(),
        before.pending.len() > 0,
        !before.seen.contains(before.top().cells),
        before.evaluates(after),
    ensures
        after.wf(),
        after.remaining() < before.remaining(),
{
    lemma_evaluate_explored(before, after);
    lemma_evaluate_seen(before, after);
    lemma_evaluate_kept(before, after);
    lemma_evaluate_best(before, after);
    lemma_evaluate_work(before, after);
}

/// A step keeps the search well formed. It never lowers the best length,
/// and while the search is not done it leaves less work.
pub proof fn lemma_next(search: SearchView)
    requires
        search.wf(),
    ensures
        search.next().wf(),
        search.next().route == search.route,
        search.next().initial == search.initial,
        search.next().floor_length == search.floor_length,
        search.next().floor_maze == search.floor_maze,
        search.next().best_length >= search.best_length,
        !search.done() ==> search.next().remaining() < search.remaining(),
{
    if !search.done() {
        if search.seen.contains(search.top().cells) {
            lemma_skip(search, search.next());
        } else {
            lemma_next_evaluates(search);
            lemma_evaluate(search, search.next());
        }
    }
}

/// Every maze that a step pushes on the stack is an accepted successor of
/// the maze it popped: one more cell is a wall, and the route is no shorter
/// than that of the maze popped.
pub proof fn lemma_pushed_is_accepted(search: SearchView, k: int)
    requires
        search.wf(),
        !search.done(),
        search.pending.len() - 1 <= k < search.next().pending.len(),
    ensures
        accepted(search.route, search.top(), search.next().pending[k]),
        score(search.next().pending[k], search.route) >= score(search.top(), search.route),
{
    if search.seen.contains(search.top().cells) {
        assert(search.next().pending.len() == search.pending.len() - 1);
    } else {
        lemma_next_evaluates(search);
    }
}

/// A maze is evaluated only where its layout has not been seen, so that no
/// layout is evaluated twice: any two of the evaluated mazes differ in a
/// cell, and so do their serializations.
pub proof fn lemma_evaluated_once(search: SearchView, i: int, j: int)
    requires
        search.wf(),
        0 <= i < search.evaluated.len(),
        0 <= j < search.evaluated.len(),
        i != j,
    ensures
        search.evaluated[i].cells != search.evaluated[j].cells,
        serialization(search.evaluated[i].cells) != serialization(search.evaluated[j].cells),
{
    reveal(SearchView::all_explored);
    reveal(SearchView::seen_is_evaluated);
    let a = search.evaluated[i];
    let b = search.evaluated[j];
    assert(shaped(search.initial, a) && shaped(search.initial, b));
    assert(a != b);
    if serialization(a.cells) == serialization(b.cells) {
        lemma_serialization_injective(a.cells, b.cells);
    }
}

/// The state that a search starts in is well formed.
pub proof fn lemma_start(route: Route, initial: MazeView, best_length: nat, best_maze: MazeView)
    requires
        initial.wf(),
    ensures
        SearchView::start(route, initial, best_length, best_maze).wf(),
{
    reveal(SearchView::all_explored);
    reveal(SearchView::seen_is_evaluated);
    reveal(SearchView::successors_kept);
    reveal(SearchView::best_is_known);
    let start = SearchView::start(route, initial, best_length, best_maze);
    lemma_explored_self(route, initial);
    assert(start.pending[0] == initial);
}

/// However many steps a search takes, it stays well formed.
pub proof fn lemma_run(search: SearchView, steps: nat)
    requires
        search.wf(),
    ensures
        search.run(steps).wf(),
        search.run(steps).route == search.route,
        search.run(steps).initial == search.initial,
        search.run(steps).floor_length == search.floor_length,
        search.run(steps).floor_maze == search.floor_maze,
    decreases steps,
{
    if steps > 0 {
        lemma_run(search, (steps - 1) as nat);
        lemma_next(search.run((steps - 1) as nat));
    }
}

/// The best length never goes down while the search runs: after more steps
/// it is no lower than after fewer.
pub proof fn lemma_run_monotone(search: SearchView, fewer: nat, more: nat)
    requires
        search.wf(),
        fewer <= more,
    ensures
        search.run(fewer).best_length <= search.run(more).best_length,
    decreases more,
{
    if fewer < more {
        lemma_run_monotone(search, fewer, (more - 1) as nat);
        lemma_run(search, (more - 1) as nat);
        lemma_next(search.run((more - 1) as nat));
    }
}

/// Each maze on the stack stands for work, so that no work is left only
/// where the stack is empty.
proof fn lemma_work_left(pending: Seq<MazeView>)
    ensures
        work(pending) >= pending.len(),
    decreases pending.len(),
{
    if pending.len() > 0 {
        lemma_work_left(pending.drop_last());
    }
}

/// Each step of a search that is not done uses up some of the work.
proof fn lemma_run_progress(search: SearchView, steps: nat)
    requires
        search.wf(),
    ensures
        search.run(steps).done() || search.run(steps).remaining() + steps <= search.remaining(),
    decreases steps,
{
    if steps > 0 {
        let before = search.run((steps - 1) as nat);
        lemma_run_progress(search, (steps - 1) as nat);
        lemma_run(search, (steps - 1) as nat);
        lemma_next(before);
    }
}

/// The search ends: after as many steps as `remaining` says, at the latest,
/// nothing is left on the stack.
pub proof fn lemma_run_ends(search: SearchView)
    requires
        search.wf(),
    ensures
        search.run(search.remaining()).done(),
{
    lemma_run_progress(search, search.remaining());
    lemma_work_left(search.run(search.remaining()).pending);
}

/// A search that is done stays as it is, however many steps follow.
pub proof fn lemma_run_done(search: SearchView, steps: nat, more: nat)
    requires
        search.run(steps).done(),
        steps <= more,
    ensures
        search.run(more) == search.run(steps),
    decreases more,
{
    if steps < more {
        lemma_run_done(search, steps, (more - 1) as nat);
    }
}

/// The state in which a search is done does not depend on the number of
/// steps that are counted: two runs from the same state end in the same
/// state, with the same best length and the same best maze.
pub proof fn lemma_run_unique(search: SearchView, first: nat, second: nat)
    requires
        search.run(first).done(),
        search.run(second).done(),
    ensures
        search.run(first) == search.run(second),
{
    if first <= second {
        lemma_run_done(search, first, second);
    } else {
        lemma_run_done(search, second, first);
    }
}

/// With nothing left on the stack, every maze of a lineage that begins at
/// the initial maze has been evaluated.
proof fn lemma_chain_evaluated(search: SearchView, chain: Seq<MazeView>, i: int)
    requires
        search.wf(),
        search.pending.len() == 0,
        is_lineage(search.route, chain),
        chain[0] == search.initial,
        0 <= i < chain.len(),
    ensures
        search.evaluated.contains(chain[i]),
    decreases i,
{
    reveal(SearchView::successors_kept);
    if i > 0 {
        lemma_chain_evaluated(search, chain, i - 1);
        let k = choose|k: int| 0 <= k < search.evaluated.len() && search.evaluated[k] == chain[i
            - 1];
        assert(accepted(search.route, chain[i - 1], chain[i - 1 + 1]));
        assert(accepted(search.route, search.evaluated[k], chain[i]));
    }
}

/// With nothing left on the stack, no maze that can be derived from the
/// initial one has a longer route than the best length.
pub proof fn lemma_complete(search: SearchView, maze: MazeView)
    requires
        search.wf(),
        search.done(),
        derived(search.route, search.initial, maze),
    ensures
        score(maze, search.route) <= search.best_length,
{
    let parent = lemma_derived_parent(search.route, search.initial, maze);
    let n = choose|n: nat| descends(search.route, search.initial, parent, n);
    let chain = choose|chain: Seq<MazeView>| #[trigger]
        is_lineage(search.route, chain) && chain.len() == n + 1 && chain[0] == search.initial
            && chain[chain.len() - 1] == parent;
    lemma_chain_evaluated(search, chain, n as int);
    let k = choose|k: int| 0 <= k < search.evaluated.len() && search.evaluated[k] == parent;
    reveal(SearchView::successors_kept);
    assert(accepted(search.route, search.evaluated[k], maze));
}

/// `length` is the best length that a search from `initial` ends with when
/// it starts with the best length `floor`: the longest route among the mazes
/// derived from `initial`, or `floor` where none of them has a longer one.
pub open spec fn is_best_length(route: Route, initial: MazeView, floor: nat, length: nat) -> bool {
    &&& length >= floor
    &&& forall|maze: MazeView| #[trigger]
        derived(route, initial, maze) ==> score(maze, route) <= length
    &&& length == floor || exists|maze: MazeView| #[trigger]
        derived(route, initial, maze) && score(maze, route) == length
}

/// The best length is determined by the route, the initial maze and the
/// best length that the search starts with: two runs from the same of these
/// end with the same best length.
pub proof fn lemma_best_length_unique(
    route: Route,
    initial: MazeView,
    floor: nat,
    first: nat,
    second: nat,
)
    requires
        is_best_length(route, initial, floor, first),
        is_best_length(route, initial, floor, second),
    ensures
        first == second,
{
    if first != floor {
        let maze = choose|maze: MazeView| #[trigger]
            derived(route, initial, maze) && score(maze, route) == first;
        assert(score(maze, route) <= second);
    }
    if second != floor {
        let maze = choose|maze: MazeView| #[trigger]
            derived(route, initial, maze) && score(maze, route) == second;
        assert(score(maze, route) <= first);
    }
}

/// A search that is done knows the best length: no maze derived from the
/// initial one has a longer route, and where the best maze is not the one
/// that the search was started with, it is such a maze.
pub proof fn lemma_done_is_best(search: SearchView)
    requires
        search.wf(),
        search.done(),
    ensures
        is_best_length(search.route, search.initial, search.floor_length, search.best_length),
        if search.best_length == search.floor_length {
            search.best_maze == search.floor_maze
        } else {
            &&& derived(search.route, search.initial, search.best_maze)
            &&& score(search.best_maze, search.route) == search.best_length
        },
{
    assert forall|maze: MazeView| #[trigger]
        derived(search.route, search.initial, maze) implies score(maze, search.route)
        <= search.best_length by {
        lemma_complete(search, maze);
    }
    reveal(SearchView::best_is_known);
}

/// The state of one run of the hardening search: the mazes still to be
/// looked at, the layouts that have been evaluated, and the best maze found.
pub struct Search {
    route: Route,
    stack: Vec<Maze>,
    seen: SeenSet,
    best_length: usize,
    best_maze: Maze,
    initial: Ghost<MazeView>,
    floor_length: Ghost<nat>,
    floor_maze: Ghost<MazeView>,
    evaluated: Ghost<Seq<MazeView>>,
}

impl View for Search {
    type V = SearchView;

    /// The state of the search, with its stack and seen-set as mathematical
    /// values.
    closed spec fn view(&self) -> SearchView {
        SearchView {
            route: self.route,
            initial: self.initial@,
            pending: views(self.stack@),
            seen: self.seen@,
            evaluated: self.evaluated@,
            best_length: self.best_length as nat,
            best_maze: self.best_maze@,
            floor_length: self.floor_length@,
            floor_maze: self.floor_maze@,
        }
    }
}

impl Search {
    /// A search that has `maze` to look at and knows `best_maze` with
    /// `best_length` as the best so far.
    pub fn new(maze: &Maze, route: Route, best_length: usize, best_maze: Maze) -> (search: Self)
        ensures
            search@.wf(),
            search@ == SearchView::start(route, maze@, best_length as nat, best_maze@),
    {
        let ghost floor_maze = best_maze@;
        let mut stack: Vec<Maze> = Vec::new();
        stack.push(maze.clone());
        let _ = maze.rows();
        let search = Search {
            route,
            stack,
            seen: SeenSet::new(),
            best_length,
            best_maze,
            initial: Ghost(maze@),
            floor_length: Ghost(best_length as nat),
            floor_maze: Ghost(floor_maze),
            evaluated: Ghost(Seq::empty()),
        };
        proof {
            lemma_start(route, maze@, best_length as nat, floor_maze);
            assert(search@.pending =~= seq![maze@]);
        }
        search
    }

    /// Whether nothing is left to look at.
    pub fn is_done(&self) -> (done: bool)
        ensures
            done == self@.done(),
    {
        self.stack.len() == 0
    }

    /// The best length known.
    pub fn best_length(&self) -> (length: usize)
        ensures
            length == self@.best_length,
    {
        self.best_length
    }

    /// The maze that the best length belongs to.
    pub fn best_maze(&self) -> (maze: &Maze)
        ensures
            maze@ == self@.best_maze,
    {
        &self.best_maze
    }

    /// Ends the search and hands out the best length and its maze.
    pub fn into_best(self) -> (best: (usize, Maze))
        ensures
            best.0 == self@.best_length,
            best.1@ == self@.best_maze,
    {
        (self.best_length, self.best_maze)
    }

    /// Pops one maze from the stack. A maze whose layout has been evaluated
    /// before is dropped. Any other is evaluated: its layout is recorded,
    /// and each of its accepted successors is pushed on the stack and
    /// becomes the best maze where its route is longer than the best length
    /// so far. Nothing happens where the stack is empty.
    pub fn step(&mut self)
        requires
            old(self)@.wf(),
        ensures
            final(self)@ == old(self)@.next(),
            final(self)@.wf(),
            final(self)@.best_length >= old(self)@.best_length,
            !old(self)@.done() ==> final(self)@.remaining() < old(self)@.remaining(),
    {
        let ghost before = self@;
        proof {
            lemma_next(before);
        }
        let mut current = match self.stack.pop() {
            Some(maze) => maze,
            None => {
                return;
            },
        };
        proof {
            assert(current@ == before.top());
            assert(views(self.stack@) =~= before.pending.drop_last());
            lemma_top_explored(before);
        }
        if self.seen.contains(current.cells()) {
            return;
        }
        self.seen.insert(current.cells());
        proof {
            self.evaluated@ = before.evaluated.push(before.top());
        }
        expand(
            &self.route,
            &mut current,
            &mut self.stack,
            &mut self.best_length,
            &mut self.best_maze,
        );
    }
}

/// Runs the hardening search from `maze` until nothing is left to look at.
/// `best_length` and `best_maze` hold the best maze known before the call
/// and the best one known after it.
pub fn optimize_maze(
    maze: &Maze,
    entry: Point,
    exit: Point,
    touchpoints: (Point, Point),
    best_length: &mut usize,
    best_maze: &mut Maze,
)
    ensures
        *final(best_length) >= *old(best_length),
        is_best_length(
            Route { entry, exit, touchpoints },
            maze@,
            *old(best_length) as nat,
            *final(best_length) as nat,
        ),
        if *final(best_length) == *old(best_length) {
            final(best_maze)@ == old(best_maze)@
        } else {
            &&& derived(Route { entry, exit, touchpoints }, maze@, final(best_maze)@)
            &&& score(final(best_maze)@, Route { entry, exit, touchpoints })
                == *final(best_length)
        },
        exists|steps: nat|
            {
                let end = #[trigger] SearchView::start(
                    Route { entry, exit, touchpoints },
                    maze@,
                    *old(best_length) as nat,
                    old(best_maze)@,
                ).run(steps);
                &&& end.done()
                &&& end.best_length == *final(best_length)
                &&& end.best_maze == final(best_maze)@
            },
{
    let route = Route { entry, exit, touchpoints };
    let ghost start = SearchView::start(route, maze@, *best_length as nat, best_maze@);
    let mut search = Search::new(maze, route, *best_length, best_maze.clone());
    let ghost mut steps: nat = 0;
    while !search.is_done()
        invariant
            search@.wf(),
            search@ == start.run(steps),
            start == SearchView::start(route, maze@, *old(best_length) as nat, old(best_maze)@),
            search@.route == route,
            search@.initial == maze@,
            search@.floor_length == *old(best_length),
            search@.floor_maze == old(best_maze)@,
        decreases search@.remaining(),
    {
        proof {
            lemma_next(search@);
            steps = steps + 1;
        }
        search.step();
    }
    proof {
        lemma_done_is_best(search@);
        assert(start.run(steps).done());
    }
    let (length, best) = search.into_best();
    *best_length = length;
    *best_maze = best;
}

} // verus!
