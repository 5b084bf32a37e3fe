//! Cells of the grid, the moves between them and the distance estimate.

use vstd::prelude::*;

verus! {

/// A grid coordinate `(x, y)`.
pub type Cell = (usize, usize);

/// The absolute difference of two coordinates.
pub open spec fn gap(a: int, b: int) -> nat {
    if a <= b {
        (b - a) as nat
    } else {
        (a - b) as nat
    }
}

/// The Manhattan distance between two cells.
pub open spec fn manhattan(a: Cell, b: Cell) -> nat {
    gap(a.0 as int, b.0 as int) + gap(a.1 as int, b.1 as int)
}

/// The Chebyshev distance between two cells: the larger of their two gaps.
pub open spec fn chebyshev(a: Cell, b: Cell) -> nat {
    let dx = gap(a.0 as int, b.0 as int);
    let dy = gap(a.1 as int, b.1 as int);
    if dx >= dy {
        dx
    } else {
        dy
    }
}

/// Two distinct cells that touch, along an edge or at a corner.
pub open spec fn adjacent(a: Cell, b: Cell) -> bool {
    a != b && gap(a.0 as int, b.0 as int) <= 1 && gap(a.1 as int, b.1 as int) <= 1
}

/// Two cells touch exactly when their Chebyshev distance is 1.
pub proof fn lemma_adjacent_chebyshev(a: Cell, b: Cell)
    ensures
        adjacent(a, b) <==> chebyshev(a, b) == 1,
{
}

/// The price of moving between two adjacent cells: 1 along an edge, 2 across a corner.
pub open spec fn step_cost(a: Cell, b: Cell) -> nat {
    if a.0 == b.0 || a.1 == b.1 {
        1
    } else {
        2
    }
}

/// Estimates the cost of travelling from `a` to `b` as their Manhattan distance.
pub fn heuristic(a: Cell, b: Cell) -> (h: usize)
    requires
        manhattan(a, b) <= usize::MAX,
    ensures
        h == manhattan(a, b),
{
    let dx: usize = if a.0 <= b.0 { b.0 - a.0 } else { a.0 - b.0 };
    let dy: usize = if a.1 <= b.1 { b.1 - a.1 } else { a.1 - b.1 };
    dx + dy
}

/// One move never changes the estimate by more than it costs, so the
/// estimate never exceeds the cost of any route.
pub proof fn lemma_estimate_consistent(a: Cell, b: Cell, goal: Cell)
    requires
        adjacent(a, b),
    ensures
        manhattan(a, goal) <= step_cost(a, b) + manhattan(b, goal),
        1 <= step_cost(a, b) <= 2,
{
}

} // verus!
