//! The moves available from a cell.

use vstd::prelude::*;
use crate::cell::{step_cost, Cell};
use crate::grid::{GridModel, Pathfinding};

verus! {

/// The eight moves in the order in which they are tried, each with its
/// cost: the four along an edge first, then the four across a corner.
pub open spec fn direction(k: int) -> (int, int, usize) {
    if k == 0 {
        (0, 1, 1)
    } else if k == 1 {
        (1, 0, 1)
    } else if k == 2 {
        (0, -1, 1)
    } else if k == 3 {
        (-1, 0, 1)
    } else if k == 4 {
        (1, 1, 2)
    } else if k == 5 {
        (1, -1, 2)
    } else if k == 6 {
        (-1, 1, 2)
    } else {
        (-1, -1, 2)
    }
}

impl GridModel {
    /// Where the `k`-th move from `c` leads and what it costs, if `c` is a
    /// cell of the map and the move ends on a walkable cell.
    pub open spec fn neighbor_at(self, c: Cell, k: int) -> Option<(Cell, usize)> {
        let d = direction(k);
        let x = c.0 + d.0;
        let y = c.1 + d.1;
        if self.in_bounds(c) && 0 <= x < self.width && 0 <= y < self.height
            && !self.blocked.contains((x as usize, y as usize)) {
            Some(((x as usize, y as usize), d.2))
        } else {
            None
        }
    }

    /// The moves from `c` among the first `k` directions, in order.
    pub open spec fn neighbors_upto(self, c: Cell, k: nat) -> Seq<(Cell, usize)>
        decreases k,
    {
        if k == 0 {
            Seq::empty()
        } else {
            let before = self.neighbors_upto(c, (k - 1) as nat);
            match self.neighbor_at(c, k - 1) {
                Some(e) => before.push(e),
                None => before,
            }
        }
    }

    /// All moves from `c`, each with its cost, in the order in which they
    /// are tried. A cell outside the map has none.
    pub open spec fn neighbors(self, c: Cell) -> Seq<(Cell, usize)> {
        self.neighbors_upto(c, 8)
    }
}

/// Every listed move is a step of the map at its proper cost.
pub proof fn lemma_neighbors_are_steps(grid: GridModel, c: Cell, k: nat, j: int)
    requires
        grid.wf(),
        k <= 8,
        0 <= j < grid.neighbors_upto(c, k).len(),
    ensures
        grid.is_step(c, grid.neighbors_upto(c, k)[j].0),
        grid.neighbors_upto(c, k)[j].1 == step_cost(c, grid.neighbors_upto(c, k)[j].0),
    decreases k,
{
    if k > 0 {
        let before = grid.neighbors_upto(c, (k - 1) as nat);
        if j < before.len() {
            lemma_neighbors_are_steps(grid, c, (k - 1) as nat, j);
        }
    }
}

/// Every step of the map out of `c` is among the listed moves.
pub proof fn lemma_steps_are_neighbors(grid: GridModel, c: Cell, n: Cell)
    requires
        grid.wf(),
        grid.is_step(c, n),
    ensures
        grid.neighbors(c).contains((n, step_cost(c, n) as usize)),
{
    let dx = n.0 - c.0;
    let dy = n.1 - c.1;
    let k: int = if dx == 0 && dy == 1 {
        0
    } else if dx == 1 && dy == 0 {
        1
    } else if dx == 0 && dy == -1 {
        2
    } else if dx == -1 && dy == 0 {
        3
    } else if dx == 1 && dy == 1 {
        4
    } else if dx == 1 && dy == -1 {
        5
    } else if dx == -1 && dy == 1 {
        6
    } else {
        7
    };
    assert(grid.neighbor_at(c, k) == Some((n, step_cost(c, n) as usize)));
    lemma_neighbor_listed(grid, c, 8, k);
}

/// A move that exists in direction `j` is listed once `j` has been tried.
proof fn lemma_neighbor_listed(grid: GridModel, c: Cell, k: nat, j: int)
    requires
        0 <= j < k,
        grid.neighbor_at(c, j) is Some,
    ensures
        grid.neighbors_upto(c, k).contains(grid.neighbor_at(c, j).unwrap()),
    decreases k,
{
    let before = grid.neighbors_upto(c, (k - 1) as nat);
    let now = grid.neighbors_upto(c, k);
    if j == k - 1 {
        assert(now.last() == grid.neighbor_at(c, j).unwrap());
    } else {
        lemma_neighbor_listed(grid, c, (k - 1) as nat, j);
        let i = choose|i: int| 0 <= i < before.len() && before[i] == grid.neighbor_at(c, j).unwrap();
        assert(now[i] == before[i]);
    }
}

/// The `k`-th move as machine values.
fn direction_of(k: usize) -> (d: (i8, i8, usize))
    requires
        k < 8,
    ensures
        d.0 == direction(k as int).0,
        d.1 == direction(k as int).1,
        d.2 == direction(k as int).2,
{
    if k == 0 {
        (0, 1, 1)
    } else if k == 1 {
        (1, 0, 1)
    } else if k == 2 {
        (0, -1, 1)
    } else if k == 3 {
        (-1, 0, 1)
    } else if k == 4 {
        (1, 1, 2)
    } else if k == 5 {
        (1, -1, 2)
    } else if k == 6 {
        (-1, 1, 2)
    } else {
        (-1, -1, 2)
    }
}

/// Moves a coordinate by `d`, if the result stays below `limit`.
fn shifted(v: usize, d: i8, limit: usize) -> (r: Option<usize>)
    requires
        v < limit,
        -1 <= d <= 1,
    ensures
        r is Some <==> 0 <= v + d < limit,
        r is Some ==> r.unwrap() == v + d,
{
    if d < 0 {
        if v > 0 {
            Some(v - 1)
        } else {
            None
        }
    } else if d == 0 {
        Some(v)
    } else if v + 1 < limit {
        Some(v + 1)
    } else {
        None
    }
}

/// Lists the walkable cells one move away from `pos`, each with the cost
/// of the move. A position outside the map has no neighbours.
pub fn neighbors(pos: Cell, map: &Pathfinding) -> (results: Vec<(Cell, usize)>)
    requires
        map.wf(),
    ensures
        results@ == map@.neighbors(pos),
{
    let mut results: Vec<(Cell, usize)> = Vec::new();
    let width = map.width();
    let height = map.height();
    if pos.0 >= width || pos.1 >= height {
        proof {
            reveal_with_fuel(GridModel::neighbors_upto, 9);
        }
        return results;
    }
    let mut k: usize = 0;
    while k < 8
        invariant
            k <= 8,
            map.wf(),
            width == map@.width,
            height == map@.height,
            pos.0 < width,
            pos.1 < height,
            results@ == map@.neighbors_upto(pos, k as nat),
        decreases 8 - k,
    {
        let (dx, dy, cost) = direction_of(k);
        match (shifted(pos.0, dx, width), shifted(pos.1, dy, height)) {
            (Some(nx), Some(ny)) => {
                if !map.is_blocked(nx, ny) {
                    results.push(((nx, ny), cost));
                }
            },
            _ => {},
        }
        k += 1;
    }
    results
}

} // verus!
