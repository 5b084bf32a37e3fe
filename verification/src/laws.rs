//! What holds of every search, whatever the map and the two ends.

use vstd::prelude::*;
use crate::cell::{adjacent, chebyshev, lemma_adjacent_chebyshev, manhattan, Cell};
use crate::grid::GridModel;
use crate::path::{lemma_cost_splits, path_cost};
use crate::search::search_path;
use crate::search_proofs::lemma_search_path;

verus! {

/// A search from a cell to itself finds the cell alone, on any map and
/// wherever the cell lies.
pub proof fn law_start_is_goal(grid: GridModel, start: Cell)
    requires
        grid.wf(),
    ensures
        search_path(grid, start, start) == seq![start],
{
    lemma_search_path(grid, start, start);
    let r = search_path(grid, start, start);
    assert(grid.is_path(seq![start]));
    assert(grid.connects(seq![start], start, start));
    assert(path_cost(seq![start]) == 0);
    assert(r.len() == 1);
    assert(r =~= seq![start]);
}

/// Whenever some path leads from the start to the goal, the search finds
/// one, and what it finds costs no more than any other.
pub proof fn law_cheapest(grid: GridModel, start: Cell, goal: Cell, other: Seq<Cell>)
    requires
        grid.wf(),
        grid.connects(other, start, goal),
    ensures
        grid.connects(search_path(grid, start, goal), start, goal),
        path_cost(search_path(grid, start, goal)) <= path_cost(other),
{
    lemma_search_path(grid, start, goal);
}

/// The estimate never overstates: no path from one cell to another costs
/// less than the Manhattan distance between the two.
pub proof fn law_estimate_admissible(grid: GridModel, start: Cell, goal: Cell, path: Seq<Cell>)
    requires
        grid.connects(path, start, goal),
    ensures
        manhattan(start, goal) <= path_cost(path),
{
    lemma_cost_splits(grid, path, 1);
    assert(path.take(1).len() == 1);
}

/// The search finds nothing exactly when no path leads from the start to the goal.
pub proof fn law_empty_means_unreachable(grid: GridModel, start: Cell, goal: Cell)
    requires
        grid.wf(),
    ensures
        search_path(grid, start, goal).len() == 0 <==> !grid.reachable(start, goal),
{
    lemma_search_path(grid, start, goal);
}

/// Any two cells that follow each other in what the search finds touch,
/// and neither is blocked, except that the first cell of the path is the
/// start even if the start is blocked.
pub proof fn law_steps_touch_and_are_clear(grid: GridModel, start: Cell, goal: Cell, i: int)
    requires
        grid.wf(),
        0 <= i < search_path(grid, start, goal).len() - 1,
    ensures
        chebyshev(search_path(grid, start, goal)[i], search_path(grid, start, goal)[i + 1]) == 1,
        !grid.blocked.contains(search_path(grid, start, goal)[i + 1]),
        i > 0 || !grid.blocked.contains(start) ==> !grid.blocked.contains(
            search_path(grid, start, goal)[i],
        ),
{
    lemma_search_path(grid, start, goal);
    let r = search_path(grid, start, goal);
    assert(grid.step_at(r, i));
    lemma_adjacent_chebyshev(r[i], r[i + 1]);
    if i > 0 {
        assert(grid.step_at(r, i - 1));
    }
}

/// Every cell of the map that touches `goal` is blocked.
pub open spec fn enclosed(grid: GridModel, goal: Cell) -> bool {
    forall|n: Cell| grid.in_bounds(n) && #[trigger] adjacent(n, goal) ==> grid.blocked.contains(n)
}

/// A goal that is enclosed by blocked cells is not found, unless the start
/// is the goal itself or one of the blocked cells around it, out of which
/// the first move leads straight into the goal.
pub proof fn law_enclosed_goal(grid: GridModel, start: Cell, goal: Cell)
    requires
        grid.wf(),
        enclosed(grid, goal),
        start != goal,
        !grid.is_step(start, goal),
    ensures
        search_path(grid, start, goal).len() == 0,
{
    lemma_search_path(grid, start, goal);
    if grid.reachable(start, goal) {
        let p = choose|p: Seq<Cell>| grid.connects(p, start, goal);
        let last = p.len() - 2;
        assert(grid.step_at(p, last));
        assert(adjacent(p[last], goal));
        if last > 0 {
            assert(grid.step_at(p, last - 1));
        }
        assert(false);
    }
}

/// Searching twice on the same map between the same two cells finds the
/// same path both times: the path is determined by the map and the ends.
pub proof fn law_repeatable(
    grid: GridModel,
    start: Cell,
    goal: Cell,
    first: Seq<Cell>,
    second: Seq<Cell>,
)
    requires
        first == search_path(grid, start, goal),
        second == search_path(grid, start, goal),
    ensures
        first == second,
{
}

} // verus!
