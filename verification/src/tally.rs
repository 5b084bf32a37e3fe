//! Sums of a quantity over all cells of a rectangle.

use vstd::prelude::*;
use crate::cell::Cell;

verus! {

/// The sum of `f` over the first `rows` cells of column `x`.
pub open spec fn column_sum(f: spec_fn(Cell) -> nat, x: usize, rows: nat) -> nat
    decreases rows,
{
    if rows == 0 {
        0
    } else {
        column_sum(f, x, (rows - 1) as nat) + f((x, (rows - 1) as usize))
    }
}

/// The sum of `f` over the cells `(x, y)` with `x < cols` and `y < rows`.
pub open spec fn grid_sum(f: spec_fn(Cell) -> nat, cols: nat, rows: nat) -> nat
    decreases cols,
{
    if cols == 0 {
        0
    } else {
        grid_sum(f, (cols - 1) as nat, rows) + column_sum(f, (cols - 1) as usize, rows)
    }
}

proof fn lemma_column_sum_equal(f: spec_fn(Cell) -> nat, g: spec_fn(Cell) -> nat, x: usize, rows: nat)
    requires
        forall|y: usize| y < rows ==> #[trigger] f((x, y)) == g((x, y)),
    ensures
        column_sum(f, x, rows) == column_sum(g, x, rows),
    decreases rows,
{
    if rows > 0 {
        lemma_column_sum_equal(f, g, x, (rows - 1) as nat);
    }
}

proof fn lemma_column_sum_change(
    f: spec_fn(Cell) -> nat,
    g: spec_fn(Cell) -> nat,
    c: Cell,
    rows: nat,
)
    requires
        rows <= usize::MAX,
        c.1 < rows,
        forall|y: usize| y < rows && y != c.1 ==> #[trigger] f((c.0, y)) == g((c.0, y)),
    ensures
        column_sum(f, c.0, rows) + g(c) == column_sum(g, c.0, rows) + f(c),
    decreases rows,
{
    if rows - 1 == c.1 {
        lemma_column_sum_equal(f, g, c.0, (rows - 1) as nat);
    } else {
        lemma_column_sum_change(f, g, c, (rows - 1) as nat);
    }
}

proof fn lemma_column_sum_at_most(f: spec_fn(Cell) -> nat, x: usize, rows: nat, k: nat)
    requires
        forall|y: usize| y < rows ==> #[trigger] f((x, y)) <= k,
    ensures
        column_sum(f, x, rows) <= k * rows,
    decreases rows,
{
    if rows > 0 {
        lemma_column_sum_at_most(f, x, (rows - 1) as nat, k);
        assert(k * (rows - 1) + k == k * rows) by (nonlinear_arith);
    } else {
        assert(k * rows == 0) by (nonlinear_arith)
            requires
                rows == 0,
        ;
    }
}

/// Two quantities that agree on every cell of the rectangle have the same sum.
pub proof fn lemma_grid_sum_equal(
    f: spec_fn(Cell) -> nat,
    g: spec_fn(Cell) -> nat,
    cols: nat,
    rows: nat,
)
    requires
        forall|d: Cell| d.0 < cols && d.1 < rows ==> #[trigger] f(d) == g(d),
    ensures
        grid_sum(f, cols, rows) == grid_sum(g, cols, rows),
    decreases cols,
{
    if cols > 0 {
        lemma_grid_sum_equal(f, g, (cols - 1) as nat, rows);
        lemma_column_sum_equal(f, g, (cols - 1) as usize, rows);
    }
}

/// Two quantities that agree on every cell of the rectangle but `c` have
/// sums that differ by what they differ at `c`.
pub proof fn lemma_grid_sum_change(
    f: spec_fn(Cell) -> nat,
    g: spec_fn(Cell) -> nat,
    c: Cell,
    cols: nat,
    rows: nat,
)
    requires
        cols <= usize::MAX,
        rows <= usize::MAX,
        c.0 < cols,
        c.1 < rows,
        forall|d: Cell| d.0 < cols && d.1 < rows && d != c ==> #[trigger] f(d) == g(d),
    ensures
        grid_sum(f, cols, rows) + g(c) == grid_sum(g, cols, rows) + f(c),
    decreases cols,
{
    if cols - 1 == c.0 {
        lemma_grid_sum_equal(f, g, (cols - 1) as nat, rows);
        lemma_column_sum_change(f, g, c, rows);
    } else {
        lemma_grid_sum_change(f, g, c, (cols - 1) as nat, rows);
        lemma_column_sum_equal(f, g, (cols - 1) as usize, rows);
    }
}

/// A quantity that is at most `k` on every cell sums to at most `k` times
/// the number of cells.
pub proof fn lemma_grid_sum_at_most(f: spec_fn(Cell) -> nat, cols: nat, rows: nat, k: nat)
    requires
        forall|d: Cell| d.0 < cols && d.1 < rows ==> #[trigger] f(d) <= k,
    ensures
        grid_sum(f, cols, rows) <= k * (cols * rows),
    decreases cols,
{
    if cols > 0 {
        lemma_grid_sum_at_most(f, (cols - 1) as nat, rows, k);
        lemma_column_sum_at_most(f, (cols - 1) as usize, rows, k);
        assert(k * ((cols - 1) * rows) + k * rows == k * (cols * rows)) by (nonlinear_arith);
    } else {
        assert(k * (cols * rows) == 0) by (nonlinear_arith)
            requires
                cols == 0,
        ;
    }
}

} // verus!
