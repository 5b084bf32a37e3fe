//! Paths over a map and what they cost.

use vstd::prelude::*;
use crate::cell::{adjacent, manhattan, step_cost, lemma_estimate_consistent, Cell};
use crate::grid::GridModel;

verus! {

impl GridModel {
    /// A single move from `a` to `b`: out of a cell of the map into an
    /// adjacent walkable one. The cell moved out of may itself be blocked.
    pub open spec fn is_step(self, a: Cell, b: Cell) -> bool {
        self.in_bounds(a) && self.walkable(b) && adjacent(a, b)
    }

    /// The move from the `i`-th cell of `p` to the next one is a step.
    pub open spec fn step_at(self, p: Seq<Cell>, i: int) -> bool {
        self.is_step(p[i], p[i + 1])
    }

    /// A non-empty sequence of cells, each one step from the one before.
    pub open spec fn is_path(self, p: Seq<Cell>) -> bool {
        p.len() > 0 && forall|i: int| 0 <= i < p.len() - 1 ==> #[trigger] self.step_at(p, i)
    }

    /// `p` is a path that begins at `start` and ends at `goal`.
    pub open spec fn connects(self, p: Seq<Cell>, start: Cell, goal: Cell) -> bool {
        self.is_path(p) && p.first() == start && p.last() == goal
    }

    /// Some path leads from `start` to `goal`.
    pub open spec fn reachable(self, start: Cell, goal: Cell) -> bool {
        exists|p: Seq<Cell>| self.connects(p, start, goal)
    }
}

/// The total cost of the moves along `p`.
pub open spec fn path_cost(p: Seq<Cell>) -> nat
    decreases p.len(),
{
    if p.len() <= 1 {
        0
    } else {
        path_cost(p.drop_last()) + step_cost(p[p.len() - 2], p.last())
    }
}

impl GridModel {
    /// `r` answers the question for a cheapest path from `start` to
    /// `goal`: it is empty if no path leads there, and otherwise a path
    /// there that costs no more than any other.
    pub open spec fn is_cheapest(self, start: Cell, goal: Cell, r: Seq<Cell>) -> bool {
        if self.reachable(start, goal) {
            &&& self.connects(r, start, goal)
            &&& forall|p: Seq<Cell>| #[trigger]
                self.connects(p, start, goal) ==> path_cost(r) <= path_cost(p)
        } else {
            r.len() == 0
        }
    }
}

/// The first `n` cells of a path are a path.
pub proof fn lemma_path_prefix(grid: GridModel, p: Seq<Cell>, n: int)
    requires
        grid.is_path(p),
        0 < n <= p.len(),
    ensures
        grid.is_path(p.take(n)),
        p.take(n).first() == p.first(),
        p.take(n).last() == p[n - 1],
{
    let q = p.take(n);
    assert forall|i: int| 0 <= i < q.len() - 1 implies #[trigger] grid.step_at(q, i) by {
        assert(grid.step_at(p, i));
    }
}

/// Appending a step to a path gives a path that costs that step more.
pub proof fn lemma_path_push(grid: GridModel, p: Seq<Cell>, c: Cell)
    requires
        grid.is_path(p),
        grid.is_step(p.last(), c),
    ensures
        grid.is_path(p.push(c)),
        path_cost(p.push(c)) == path_cost(p) + step_cost(p.last(), c),
{
    let q = p.push(c);
    assert forall|i: int| 0 <= i < q.len() - 1 implies #[trigger] grid.step_at(q, i) by {
        if i < p.len() - 1 {
            assert(grid.step_at(p, i));
        }
    }
    assert(q.drop_last() =~= p);
}

/// The cost of a path is at least the cost of any of its prefixes plus the
/// estimate from where that prefix ends to where the path ends.
pub proof fn lemma_cost_splits(grid: GridModel, p: Seq<Cell>, n: int)
    requires
        grid.is_path(p),
        0 < n <= p.len(),
    ensures
        path_cost(p.take(n)) + manhattan(p[n - 1], p.last()) <= path_cost(p),
    decreases p.len(),
{
    if n == p.len() {
        assert(p.take(n) =~= p);
    } else {
        let q = p.drop_last();
        assert(q =~= p.take(p.len() - 1));
        lemma_path_prefix(grid, p, p.len() - 1);
        lemma_cost_splits(grid, q, n);
        assert(q.take(n) =~= p.take(n));
        assert(grid.step_at(p, p.len() - 2));
        lemma_estimate_consistent(p.last(), q.last(), p[n - 1]);
        lemma_estimate_consistent(q.last(), p.last(), p[n - 1]);
    }
}

} // verus!
