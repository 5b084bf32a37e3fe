//! The search as a mathematical object: its state, one round of it, and
//! the path it arrives at.

use vstd::prelude::*;
use vstd::multiset::Multiset;
use crate::cell::{manhattan, Cell};
use crate::frontier::{front, Entry};
use crate::grid::GridModel;
use crate::search_proofs::lemma_settle;

verus! {

/// The state of a search between two rounds.
pub struct Search {
    /// Discovered cells waiting to be settled. A cell may wait under
    /// several estimates; the outdated ones are never withdrawn.
    pub open_set: Multiset<Entry>,
    /// The cheapest known cost of reaching each discovered cell.
    pub g_score: Map<Cell, nat>,
    /// The cell before each discovered cell on its cheapest known route.
    pub came_from: Map<Cell, Cell>,
}

impl Search {
    /// The state before the first round: only `start` is discovered.
    pub open spec fn begin(start: Cell, goal: Cell) -> Search {
        Search {
            open_set: Multiset::singleton((manhattan(start, goal), start)),
            g_score: Map::<Cell, nat>::empty().insert(start, 0),
            came_from: Map::empty(),
        }
    }

    /// Tries the move from `current` to `to.0` at cost `to.1`: if it gives
    /// the cell its first or a cheaper route, the route is recorded and the
    /// cell joins the frontier under its new estimate.
    pub open spec fn relax(self, current: Cell, to: (Cell, usize), goal: Cell) -> Search {
        let tentative: nat = self.g_score[current] + to.1 as nat;
        if !self.g_score.contains_key(to.0) || tentative < self.g_score[to.0] {
            Search {
                open_set: self.open_set.insert((tentative + manhattan(to.0, goal), to.0)),
                g_score: self.g_score.insert(to.0, tentative),
                came_from: self.came_from.insert(to.0, current),
            }
        } else {
            self
        }
    }

    /// Tries the given moves from `current`, first to last.
    pub open spec fn expand(self, current: Cell, moves: Seq<(Cell, usize)>, goal: Cell) -> Search
        decreases moves.len(),
    {
        if moves.len() == 0 {
            self
        } else {
            self.expand(current, moves.drop_last(), goal).relax(current, moves.last(), goal)
        }
    }

    /// The state with the front entry taken off the frontier.
    pub open spec fn pop(self) -> Search {
        Search { open_set: self.open_set.remove(front(self.open_set)), ..self }
    }

    /// One round: the front entry leaves the frontier and every move from
    /// its cell is tried.
    pub open spec fn settle(self, grid: GridModel, goal: Cell) -> Search {
        let current = front(self.open_set).1;
        self.pop().expand(current, grid.neighbors(current), goal)
    }

    /// The known cost of `c`, or 0 for a cell not yet discovered.
    pub open spec fn cost_of(self, c: Cell) -> nat {
        if self.g_score.contains_key(c) {
            self.g_score[c]
        } else {
            0
        }
    }

    /// The recorded route to `c`: its predecessors, followed back for as
    /// long as each is cheaper to reach than the one after it, then `c`.
    pub open spec fn trace_back(self, c: Cell) -> Seq<Cell>
        decreases self.cost_of(c),
    {
        if self.came_from.contains_key(c) && self.cost_of(self.came_from[c]) < self.cost_of(c) {
            self.trace_back(self.came_from[c]).push(c)
        } else {
            seq![c]
        }
    }

    /// The path the search arrives at from this state: round after round
    /// until the frontier is empty, which gives the empty path, or the goal
    /// is at its front, which gives the route recorded for the goal.
    ///
    /// Every round lowers the measure of a state that is in order, so the
    /// rounds come to an end.
    pub open spec fn run(self, grid: GridModel, start: Cell, goal: Cell) -> Seq<Cell>
        decreases self.measure(grid),
        when grid.wf() && self.inv(grid, start, goal)
        via Self::run_terminates
    {
        if self.open_set.len() == 0 {
            Seq::empty()
        } else if front(self.open_set).1 == goal {
            self.trace_back(goal)
        } else {
            self.settle(grid, goal).run(grid, start, goal)
        }
    }

    /// A round that does not end the search lowers the measure.
    #[via_fn]
    proof fn run_terminates(self, grid: GridModel, start: Cell, goal: Cell) {
        if self.open_set.len() != 0 && front(self.open_set).1 != goal {
            lemma_settle(self, grid, start, goal);
        }
    }
}

/// The path a search from `start` to `goal` on `grid` arrives at.
pub open spec fn search_path(grid: GridModel, start: Cell, goal: Cell) -> Seq<Cell> {
    Search::begin(start, goal).run(grid, start, goal)
}

} // verus!
