//! Why the search is right: what holds of its state from round to round,
//! and what follows for the path it arrives at.

use vstd::prelude::*;
use crate::cell::{manhattan, step_cost, Cell};
use crate::frontier::{front, lemma_front_exists, Entry};
use crate::grid::GridModel;
use crate::neighbors::{lemma_neighbors_are_steps, lemma_steps_are_neighbors};
use crate::path::{lemma_cost_splits, lemma_path_push, path_cost};
use crate::search::{search_path, Search};
use crate::tally::{grid_sum, lemma_grid_sum_at_most, lemma_grid_sum_change};

verus! {

impl Search {
    /// What a cell adds to the number of undiscovered cells.
    pub open spec fn unseen_at(self) -> spec_fn(Cell) -> nat {
        |c: Cell| if self.g_score.contains_key(c) { 0nat } else { 1nat }
    }

    /// The number of cells of the map not yet discovered.
    pub open spec fn unseen(self, grid: GridModel) -> nat {
        grid_sum(self.unseen_at(), grid.width, grid.height)
    }

    /// What a cell adds to what is owed: its known cost, or more than any
    /// cost if it is undiscovered.
    pub open spec fn owed_at(self, grid: GridModel) -> spec_fn(Cell) -> nat {
        |c: Cell| if self.g_score.contains_key(c) { self.g_score[c] } else { grid.cost_cap() + 1 }
    }

    /// The known costs of all cells of the map together.
    pub open spec fn owed(self, grid: GridModel) -> nat {
        grid_sum(self.owed_at(grid), grid.width, grid.height)
    }

    /// What every round lowers: finding a cell or a cheaper route lowers
    /// what is owed, and a round that finds neither shortens the frontier.
    pub open spec fn measure(self, grid: GridModel) -> nat {
        2 * self.owed(grid) + self.open_set.len()
    }

    /// `c` waits in the frontier under its current estimate.
    pub open spec fn pending(self, c: Cell, goal: Cell) -> bool {
        self.open_set.contains((self.g_score[c] + manhattan(c, goal), c))
    }

    /// No move from `c` would improve on what is known.
    pub open spec fn settled(self, grid: GridModel, c: Cell) -> bool {
        forall|n: Cell| #[trigger]
            grid.is_step(c, n) ==> self.g_score.contains_key(n) && self.g_score[n]
                <= self.g_score[c] + step_cost(c, n)
    }

    /// None of the first `done` moves from `c` would improve on what is known.
    pub open spec fn settled_upto(self, grid: GridModel, c: Cell, done: int) -> bool {
        forall|j: int|
            0 <= j < done <= grid.neighbors(c).len() ==> {
                let to = #[trigger] grid.neighbors(c)[j];
                self.g_score.contains_key(to.0) && self.g_score[to.0] <= self.g_score[c] + to.1
            }
    }

    /// The start costs nothing and has no predecessor; every other
    /// discovered cell has one, from which a step of the map leads to it at
    /// no more than the difference of their costs.
    pub open spec fn links_sound(self, grid: GridModel, start: Cell) -> bool {
        &&& self.g_score.contains_key(start)
        &&& self.g_score[start] == 0
        &&& !self.came_from.contains_key(start)
        &&& forall|c: Cell| #[trigger]
            self.g_score.contains_key(c) ==> c == start || self.came_from.contains_key(c)
        &&& forall|c: Cell| #[trigger]
            self.came_from.contains_key(c) ==> {
                let p = self.came_from[c];
                &&& self.g_score.contains_key(c)
                &&& self.g_score.contains_key(p)
                &&& grid.is_step(p, c)
                &&& self.g_score[p] + step_cost(p, c) <= self.g_score[c]
            }
    }

    /// Every frontier entry is for a discovered cell, under an estimate no
    /// lower than the cell's current one.
    pub open spec fn entries_sound(self, goal: Cell) -> bool {
        forall|e: Entry| #[trigger]
            self.open_set.contains(e) ==> self.g_score.contains_key(e.1) && self.g_score[e.1]
                + manhattan(e.1, goal) <= e.0
    }

    /// Every discovered cell is pending or settled; the cell `busy`, whose
    /// moves are being tried, is settled as far as its first `done` moves.
    pub open spec fn frontier_complete(
        self,
        grid: GridModel,
        goal: Cell,
        busy: Option<Cell>,
        done: int,
    ) -> bool {
        forall|c: Cell| #[trigger]
            self.g_score.contains_key(c) ==> if busy == Some(c) {
                self.settled_upto(grid, c, done)
            } else {
                self.pending(c, goal) || self.settled(grid, c)
            }
    }

    /// No known cost exceeds twice the number of discovered cells of the map.
    pub open spec fn costs_bounded(self, grid: GridModel) -> bool {
        forall|c: Cell| #[trigger]
            self.g_score.contains_key(c) ==> self.g_score[c] + 2 * self.unseen(grid)
                <= grid.cost_cap()
    }

    /// What holds of the state while the moves of `busy` are being tried.
    #[verifier::opaque]
    pub open spec fn inv_during(
        self,
        grid: GridModel,
        start: Cell,
        goal: Cell,
        busy: Option<Cell>,
        done: int,
    ) -> bool {
        &&& self.links_sound(grid, start)
        &&& self.entries_sound(goal)
        &&& self.frontier_complete(grid, goal, busy, done)
        &&& self.g_score.contains_key(goal) ==> self.pending(goal, goal)
        &&& self.costs_bounded(grid)
        &&& busy matches Some(c) ==> self.g_score.contains_key(c) && c != goal
    }

    /// What holds of the state between rounds.
    pub open spec fn inv(self, grid: GridModel, start: Cell, goal: Cell) -> bool {
        self.inv_during(grid, start, goal, None, 0)
    }
}

/// The state before the first round is in order.
pub proof fn lemma_begin_inv(grid: GridModel, start: Cell, goal: Cell)
    requires
        grid.wf(),
    ensures
        Search::begin(start, goal).inv(grid, start, goal),
{
    reveal(Search::inv_during);
    let s = Search::begin(start, goal);
    lemma_grid_sum_at_most(s.unseen_at(), grid.width, grid.height, 1);
}

/// What the running search relies on: the routes recorded are sound, the
/// frontier holds only discovered cells, no cost exceeds the cap of the
/// map, and the busy cell is a discovered one.
pub proof fn lemma_inv_basics(
    s: Search,
    grid: GridModel,
    start: Cell,
    goal: Cell,
    busy: Option<Cell>,
    done: int,
)
    requires
        s.inv_during(grid, start, goal, busy, done),
    ensures
        s.links_sound(grid, start),
        s.entries_sound(goal),
        s.costs_bounded(grid),
        busy matches Some(c) ==> s.g_score.contains_key(c),
{
    reveal(Search::inv_during);
}

/// Taking the front entry off leaves the state in order, with the cell of
/// that entry as the one whose moves are to be tried.
pub proof fn lemma_pop_inv(s: Search, grid: GridModel, start: Cell, goal: Cell)
    requires
        grid.wf(),
        s.inv(grid, start, goal),
        s.open_set.len() > 0,
        front(s.open_set).1 != goal,
    ensures
        s.pop().inv_during(grid, start, goal, Some(front(s.open_set).1), 0),
        s.pop().measure(grid) + 1 == s.measure(grid),
{
    reveal(Search::inv_during);
    lemma_front_exists(s.open_set);
    let t = s.pop();
    // Only an entry of the front's cell has left, so every other cell that
    // was pending still is.
    assert forall|o: Entry| #[trigger] t.open_set.contains(o) implies s.open_set.contains(o) by {}
}

/// Trying one move changes what is counted only at the cell moved to.
proof fn lemma_relax_tally(s: Search, grid: GridModel, current: Cell, to: (Cell, usize), goal: Cell)
    requires
        grid.wf(),
        grid.in_bounds(to.0),
    ensures
        ({
            let t = s.relax(current, to, goal);
            &&& t.unseen(grid) + s.unseen_at()(to.0) == s.unseen(grid) + t.unseen_at()(to.0)
            &&& t.owed(grid) + s.owed_at(grid)(to.0) == s.owed(grid) + t.owed_at(grid)(to.0)
        }),
{
    let t = s.relax(current, to, goal);
    lemma_grid_sum_change(t.unseen_at(), s.unseen_at(), to.0, grid.width, grid.height);
    lemma_grid_sum_change(t.owed_at(grid), s.owed_at(grid), to.0, grid.width, grid.height);
}

/// Trying the next move of the busy cell leaves the state in order and
/// does not raise the measure.
pub proof fn lemma_relax_inv(
    s: Search,
    grid: GridModel,
    start: Cell,
    goal: Cell,
    current: Cell,
    done: int,
)
    requires
        grid.wf(),
        0 <= done < grid.neighbors(current).len(),
        s.inv_during(grid, start, goal, Some(current), done),
    ensures
        s.relax(current, grid.neighbors(current)[done], goal).inv_during(
            grid,
            start,
            goal,
            Some(current),
            done + 1,
        ),
        s.relax(current, grid.neighbors(current)[done], goal).measure(grid) <= s.measure(grid),
{
    reveal(Search::inv_during);
    let to = grid.neighbors(current)[done];
    let t = s.relax(current, to, goal);
    lemma_neighbors_are_steps(grid, current, 8, done);
    lemma_relax_tally(s, grid, current, to, goal);
    let n = to.0;
    if t != s {
        // The move gives `n` a first or a cheaper route. Costs only fall and
        // the frontier only grows, so what held of the other cells holds on.
        let tentative: nat = s.g_score[current] + to.1 as nat;
        assert(t.links_sound(grid, start));
        assert(t.entries_sound(goal)) by {
            assert forall|e: Entry| #[trigger] t.open_set.contains(e) implies t.g_score.contains_key(
                e.1,
            ) && t.g_score[e.1] + manhattan(e.1, goal) <= e.0 by {
                if e != (tentative + manhattan(n, goal), n) {
                    assert(s.open_set.contains(e));
                }
            }
        }
        assert(t.frontier_complete(grid, goal, Some(current), done + 1));
        assert(t.g_score.contains_key(goal) ==> t.pending(goal, goal));
        assert(t.costs_bounded(grid));
    }
}

/// Trying the first `done` moves of the busy cell leaves the state in
/// order and does not raise the measure.
pub proof fn lemma_expand_inv(
    s: Search,
    grid: GridModel,
    start: Cell,
    goal: Cell,
    current: Cell,
    done: int,
)
    requires
        grid.wf(),
        0 <= done <= grid.neighbors(current).len(),
        s.inv_during(grid, start, goal, Some(current), 0),
    ensures
        s.expand(current, grid.neighbors(current).take(done), goal).inv_during(
            grid,
            start,
            goal,
            Some(current),
            done,
        ),
        s.expand(current, grid.neighbors(current).take(done), goal).measure(grid) <= s.measure(
            grid,
        ),
    decreases done,
{
    reveal(Search::inv_during);
    let moves = grid.neighbors(current);
    if done > 0 {
        lemma_expand_inv(s, grid, start, goal, current, done - 1);
        assert(moves.take(done).drop_last() =~= moves.take(done - 1));
        lemma_relax_inv(
            s.expand(current, moves.take(done - 1), goal),
            grid,
            start,
            goal,
            current,
            done - 1,
        );
    }
}

/// Once every move of the busy cell has been tried, the state is in order
/// for the next round.
pub proof fn lemma_finish_inv(s: Search, grid: GridModel, start: Cell, goal: Cell, current: Cell)
    requires
        grid.wf(),
        s.inv_during(grid, start, goal, Some(current), grid.neighbors(current).len() as int),
    ensures
        s.inv(grid, start, goal),
{
    reveal(Search::inv_during);
    let moves = grid.neighbors(current);
    assert forall|c: Cell| #[trigger] s.g_score.contains_key(c) implies s.pending(c, goal)
        || s.settled(grid, c) by {
        if c == current {
            assert forall|n: Cell| #[trigger] grid.is_step(c, n) implies s.g_score.contains_key(n)
                && s.g_score[n] <= s.g_score[c] + step_cost(c, n) by {
                lemma_steps_are_neighbors(grid, c, n);
            }
        }
    }
}

/// A round that does not end the search leaves the state in order and
/// lowers the measure.
pub proof fn lemma_settle(s: Search, grid: GridModel, start: Cell, goal: Cell)
    requires
        grid.wf(),
        s.inv(grid, start, goal),
        s.open_set.len() > 0,
        front(s.open_set).1 != goal,
    ensures
        s.settle(grid, goal).inv(grid, start, goal),
        s.settle(grid, goal).measure(grid) < s.measure(grid),
{
    let current = front(s.open_set).1;
    let moves = grid.neighbors(current);
    lemma_pop_inv(s, grid, start, goal);
    lemma_expand_inv(s.pop(), grid, start, goal, current, moves.len() as int);
    assert(moves.take(moves.len() as int) =~= moves);
    lemma_finish_inv(s.settle(grid, goal), grid, start, goal, current);
}

/// The recorded route to a discovered cell is a path from the start to
/// that cell, and costs no more than the cell's known cost.
pub proof fn lemma_trace_back(s: Search, grid: GridModel, start: Cell, c: Cell)
    requires
        s.links_sound(grid, start),
        s.g_score.contains_key(c),
    ensures
        grid.connects(s.trace_back(c), start, c),
        path_cost(s.trace_back(c)) <= s.g_score[c],
    decreases s.g_score[c],
{
    if s.came_from.contains_key(c) {
        let p = s.came_from[c];
        lemma_trace_back(s, grid, start, p);
        lemma_path_push(grid, s.trace_back(p), c);
    }
}

/// The cell at index `i` of `p` has been discovered at no more than what
/// `p` costs up to there.
spec fn reached(s: Search, p: Seq<Cell>, i: int) -> bool {
    s.g_score.contains_key(p[i]) && s.g_score[p[i]] <= path_cost(p.take(i + 1))
}

/// Along any path from the start, the search has kept up with the path as
/// far as index `i`, or up to an earlier cell that is still pending.
proof fn lemma_along(s: Search, grid: GridModel, start: Cell, goal: Cell, p: Seq<Cell>, i: int) -> (j:
    int)
    requires
        s.inv(grid, start, goal),
        grid.is_path(p),
        p.first() == start,
        0 <= i < p.len(),
    ensures
        0 <= j <= i,
        reached(s, p, j),
        j < i ==> s.pending(p[j], goal),
    decreases i,
{
    reveal(Search::inv_during);
    if i == 0 {
        0
    } else {
        let j = lemma_along(s, grid, start, goal, p, i - 1);
        if j < i - 1 {
            j
        } else if s.pending(p[i - 1], goal) {
            i - 1
        } else {
            // The cell before is settled, so the step of the path out of
            // it has been tried.
            assert(grid.step_at(p, i - 1));
            assert(p.take(i + 1).drop_last() =~= p.take(i));
            i
        }
    }
}

/// When the goal comes to the front, its known cost is no more than the
/// cost of any path from the start to it.
pub proof fn lemma_goal_cost_least(s: Search, grid: GridModel, start: Cell, goal: Cell, p: Seq<Cell>)
    requires
        s.inv(grid, start, goal),
        s.open_set.len() > 0,
        front(s.open_set).1 == goal,
        grid.connects(p, start, goal),
    ensures
        s.g_score.contains_key(goal),
        s.g_score[goal] <= path_cost(p),
{
    reveal(Search::inv_during);
    lemma_front_exists(s.open_set);
    let j = lemma_along(s, grid, start, goal, p, p.len() - 1);
    if j == p.len() - 1 {
        assert(p.take(p.len() as int) =~= p);
    } else {
        // A cell of the path is still pending. Its entry does not outrank
        // the front, and its estimate is no more than the path costs.
        lemma_cost_splits(grid, p, j + 1);
    }
}

/// When the frontier is empty, no path leads from the start to the goal.
pub proof fn lemma_frontier_empty(s: Search, grid: GridModel, start: Cell, goal: Cell)
    requires
        s.inv(grid, start, goal),
        s.open_set.len() == 0,
    ensures
        !grid.reachable(start, goal),
{
    reveal(Search::inv_during);
    if grid.reachable(start, goal) {
        // Nothing is pending, so the search has kept up with the path to
        // its end: the goal is discovered, and would be pending.
        let p = choose|p: Seq<Cell>| grid.connects(p, start, goal);
        let j = lemma_along(s, grid, start, goal, p, p.len() - 1);
        assert(j == p.len() - 1);
        assert(false);
    }
}

/// From any state that is in order, the search arrives at a cheapest path
/// to the goal, or at none if there is none.
pub proof fn lemma_run(s: Search, grid: GridModel, start: Cell, goal: Cell)
    requires
        grid.wf(),
        s.inv(grid, start, goal),
    ensures
        grid.is_cheapest(start, goal, s.run(grid, start, goal)),
    decreases s.measure(grid),
{
    reveal(Search::inv_during);
    let r = s.run(grid, start, goal);
    if s.open_set.len() == 0 {
        lemma_frontier_empty(s, grid, start, goal);
    } else if front(s.open_set).1 == goal {
        lemma_front_exists(s.open_set);
        lemma_trace_back(s, grid, start, goal);
        assert forall|p: Seq<Cell>| #[trigger] grid.connects(p, start, goal) implies path_cost(r)
            <= path_cost(p) by {
            lemma_goal_cost_least(s, grid, start, goal, p);
        }
    } else {
        lemma_settle(s, grid, start, goal);
        lemma_run(s.settle(grid, goal), grid, start, goal);
    }
}

/// The search arrives at a cheapest path from the start to the goal, or at
/// none if there is none.
pub proof fn lemma_search_path(grid: GridModel, start: Cell, goal: Cell)
    requires
        grid.wf(),
    ensures
        grid.is_cheapest(start, goal, search_path(grid, start, goal)),
{
    lemma_begin_inv(grid, start, goal);
    lemma_run(Search::begin(start, goal), grid, start, goal);
}

} // verus!
