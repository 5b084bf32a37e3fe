//! The search as it runs, on machine values.

use std::collections::HashMap;
use vstd::prelude::*;
use crate::cell::{heuristic, manhattan, Cell};
use crate::frontier::{entry_of, front, lemma_front_exists, lemma_front_unique, OpenSet};
use crate::grid::{GridModel, Pathfinding};
use crate::laws::law_start_is_goal;
use crate::neighbors::{lemma_neighbors_are_steps, neighbors};
use crate::search::{search_path, Search};
use crate::search_proofs::{
    lemma_begin_inv, lemma_finish_inv, lemma_inv_basics, lemma_pop_inv,
    lemma_relax_inv, lemma_search_path, lemma_trace_back,
};

verus! {

broadcast use vstd::std_specs::hash::group_hash_axioms;

/// The number under which the tables keep a cell: the cells of the map are
/// numbered column by column.
#[verifier::opaque]
spec fn slot(c: Cell, height: nat) -> int {
    c.0 * height + c.1
}

/// Cells of the map have numbers below its area, each its own.
proof fn lemma_slots(grid: GridModel, a: Cell, b: Cell)
    requires
        grid.in_bounds(a),
        grid.in_bounds(b),
    ensures
        0 <= slot(a, grid.height) < grid.width * grid.height,
        a != b ==> slot(a, grid.height) != slot(b, grid.height),
{
    reveal(slot);
    let h = grid.height as int;
    let w = grid.width as int;
    let (ax, ay, bx, by) = (a.0 as int, a.1 as int, b.0 as int, b.1 as int);
    assert(ax * h + ay < w * h) by (nonlinear_arith)
        requires
            0 <= ax < w,
            0 <= ay < h,
    ;
    assert(ax * h >= 0) by (nonlinear_arith)
        requires
            0 <= ax,
            0 <= h,
    ;
    if a != b {
        assert(ax * h + ay != bx * h + by) by (nonlinear_arith)
            requires
                0 <= ay < h,
                0 <= by < h,
                ax != bx || ay != by,
        ;
    }
}

/// The number under which the tables keep the cell `c` of the map.
fn slot_of(c: Cell, map: &Pathfinding) -> (k: usize)
    requires
        map.wf(),
        map@.in_bounds(c),
    ensures
        k == slot(c, map@.height),
{
    proof {
        reveal(slot);
        map.lemma_wf_view();
        lemma_slots(map@, c, c);
        assert(c.0 * map@.height >= 0) by (nonlinear_arith);
    }
    c.0 * map.height() + c.1
}

/// The cost table holds the known cost of exactly the discovered cells.
spec fn scores_match(table: Map<usize, usize>, s: Search, grid: GridModel) -> bool {
    forall|c: Cell|
        #![trigger slot(c, grid.height)]
        grid.in_bounds(c) ==> {
            let k = slot(c, grid.height) as usize;
            &&& table.contains_key(k) == s.g_score.contains_key(c)
            &&& s.g_score.contains_key(c) ==> table[k] == s.g_score[c]
        }
}

/// The predecessor table holds the predecessor of exactly the cells that have one.
spec fn links_match(table: Map<usize, Cell>, s: Search, grid: GridModel) -> bool {
    forall|c: Cell|
        #![trigger slot(c, grid.height)]
        grid.in_bounds(c) ==> {
            let k = slot(c, grid.height) as usize;
            &&& table.contains_key(k) == s.came_from.contains_key(c)
            &&& s.came_from.contains_key(c) ==> table[k] == s.came_from[c]
        }
}

/// Every discovered cell is a cell of the map, if the start is one.
proof fn lemma_discovered_in_bounds(s: Search, grid: GridModel, start: Cell, c: Cell)
    requires
        s.links_sound(grid, start),
        grid.in_bounds(start),
        s.g_score.contains_key(c),
    ensures
        grid.in_bounds(c),
{
    if c != start {
        assert(s.came_from.contains_key(c));
    }
}

/// Turns the order of the cells around.
fn reverse(path: &mut Vec<Cell>)
    ensures
        final(path)@ == old(path)@.reverse(),
{
    let n: usize = path.len();
    let mut i: usize = 0;
    while i < n / 2
        invariant
            n == path@.len(),
            n == old(path)@.len(),
            i <= n / 2,
            forall|j: int| 0 <= j < i || n - i <= j < n ==> path@[j] == old(path)@[n - 1 - j],
            forall|j: int| i <= j < n - i ==> path@[j] == old(path)@[j],
        decreases n / 2 - i,
    {
        let a = path[i];
        let b = path[n - 1 - i];
        path[i] = b;
        path[n - 1 - i] = a;
        i += 1;
    }
    assert(path@ =~= old(path)@.reverse());
}

/// Follows the recorded predecessors from `current` back to the start and
/// returns the cells passed, start first.
fn reconstruct_path(
    came_from: &HashMap<usize, Cell>,
    current: Cell,
    map: &Pathfinding,
    Ghost(s): Ghost<Search>,
    Ghost(start): Ghost<Cell>,
) -> (path: Vec<Cell>)
    requires
        map.wf(),
        map@.in_bounds(start),
        s.links_sound(map@, start),
        s.g_score.contains_key(current),
        links_match(came_from@, s, map@),
    ensures
        path@ == s.trace_back(current),
{
    let mut path: Vec<Cell> = Vec::new();
    path.push(current);
    let mut at: Cell = current;
    loop
        invariant
            map.wf(),
            map@.in_bounds(start),
            s.links_sound(map@, start),
            links_match(came_from@, s, map@),
            s.g_score.contains_key(at),
            path@.len() > 0,
            path@.last() == at,
            s.trace_back(current) =~= s.trace_back(at).drop_last() + path@.reverse(),
        ensures
            s.trace_back(current) =~= path@.reverse(),
        decreases s.g_score[at],
    {
        proof {
            lemma_discovered_in_bounds(s, map@, start, at);
        }
        let k = slot_of(at, map);
        match came_from.get(&k) {
            Some(prev) => {
                let ghost before = path@;
                proof {
                    assert(s.came_from.contains_key(at));
                    assert(s.trace_back(at) == s.trace_back(*prev).push(at));
                    assert(s.trace_back(*prev).len() > 0) by {
                        lemma_trace_back(s, map@, start, *prev);
                    }
                }
                at = *prev;
                path.push(at);
                proof {
                    assert(path@.reverse() =~= seq![at] + before.reverse());
                    assert(s.trace_back(at) =~= s.trace_back(at).drop_last() + seq![at]);
                }
            },
            None => {
                assert(!s.came_from.contains_key(at));
                assert(s.trace_back(at) =~= seq![at]);
                break;
            },
        }
    }
    reverse(&mut path);
    path
}

/// What a search keeps while it runs: the open set and, for every
/// discovered cell, its cheapest known cost and the cell before it on the
/// route of that cost. The two tables are keyed by the number of the cell.
struct SearchState {
    open_set: OpenSet,
    g_score: HashMap<usize, usize>,
    came_from: HashMap<usize, Cell>,
}

impl SearchState {
    /// The machine state holds exactly what the search `s` on `grid` knows.
    #[verifier::opaque]
    spec fn holds(&self, s: Search, grid: GridModel) -> bool {
        &&& self.open_set.wf()
        &&& self.open_set@ == s.open_set
        &&& scores_match(self.g_score@, s, grid)
        &&& links_match(self.came_from@, s, grid)
    }

    /// The state before the first round: the start is known at no cost and
    /// waits in the open set under its estimate.
    fn begin(start: Cell, goal: Cell, map: &Pathfinding) -> (state: SearchState)
        requires
            map.wf(),
            map@.in_bounds(start),
            map@.in_bounds(goal),
        ensures
            state.holds(Search::begin(start, goal), map@),
    {
        proof {
            map.lemma_wf_view();
            lemma_slots(map@, start, goal);
        }
        let mut state = SearchState {
            open_set: OpenSet::new(),
            g_score: HashMap::new(),
            came_from: HashMap::new(),
        };
        let k = slot_of(start, map);
        state.g_score.insert(k, 0);
        state.open_set.push(heuristic(start, goal), start);
        proof {
            reveal(SearchState::holds);
            let s = Search::begin(start, goal);
            assert(state.open_set@ =~= s.open_set);
            assert forall|c: Cell| #![trigger slot(c, map@.height)] map@.in_bounds(c) implies ({
                let k = slot(c, map@.height) as usize;
                &&& state.g_score@.contains_key(k) == s.g_score.contains_key(c)
                &&& s.g_score.contains_key(c) ==> state.g_score@[k] == s.g_score[c]
            }) by {
                lemma_slots(map@, c, start);
            }
        }
        state
    }

    /// Takes the front entry off the open set and returns its cell.
    fn pop(&mut self, Ghost(s): Ghost<Search>, Ghost(grid): Ghost<GridModel>) -> (current: Option<
        Cell,
    >)
        requires
            old(self).holds(s, grid),
        ensures
            match current {
                Some(cell) => {
                    &&& s.open_set.len() > 0
                    &&& cell == front(s.open_set).1
                    &&& final(self).holds(s.pop(), grid)
                },
                None => s.open_set.len() == 0 && final(self).holds(s, grid),
            },
    {
        proof {
            reveal(SearchState::holds);
        }
        match self.open_set.pop() {
            Some(item) => {
                proof {
                    lemma_front_exists(s.open_set);
                    lemma_front_unique(s.open_set, front(s.open_set), entry_of(item));
                }
                Some(item.1)
            },
            None => None,
        }
    }

    /// Tries the move from `current` to `to.0` at cost `to.1`: if it gives
    /// that cell its first or a cheaper route, records the route and adds
    /// the cell to the open set under its new estimate.
    fn relax(
        &mut self,
        current: Cell,
        to: (Cell, usize),
        goal: Cell,
        map: &Pathfinding,
        Ghost(s): Ghost<Search>,
        Ghost(start): Ghost<Cell>,
        Ghost(done): Ghost<int>,
    )
        requires
            map.wf(),
            map@.in_bounds(start),
            map@.in_bounds(goal),
            old(self).holds(s, map@),
            s.inv_during(map@, start, goal, Some(current), done),
            0 <= done < map@.neighbors(current).len(),
            to == map@.neighbors(current)[done],
        ensures
            final(self).holds(s.relax(current, to, goal), map@),
    {
        let ghost grid = map@;
        let ghost next = s.relax(current, to, goal);
        proof {
            reveal(SearchState::holds);
            map.lemma_wf_view();
            lemma_inv_basics(s, grid, start, goal, Some(current), done);
            lemma_relax_inv(s, grid, start, goal, current, done);
            lemma_inv_basics(next, grid, start, goal, Some(current), done + 1);
            lemma_neighbors_are_steps(grid, current, 8, done);
            lemma_discovered_in_bounds(s, grid, start, current);
            lemma_slots(grid, to.0, current);
            lemma_slots(grid, to.0, goal);
        }
        let (neighbor, cost) = to;
        let current_slot = slot_of(current, map);
        let neighbor_slot = slot_of(neighbor, map);
        let tentative_g_score: usize = *self.g_score.get(&current_slot).unwrap() + cost;
        let improves = match self.g_score.get(&neighbor_slot) {
            Some(known) => tentative_g_score < *known,
            None => true,
        };
        if improves {
            proof {
                assert(next.g_score.contains_key(neighbor));
                assert(next.g_score[neighbor] == tentative_g_score);
                assert(manhattan(neighbor, goal) <= grid.width + grid.height);
            }
            self.came_from.insert(neighbor_slot, current);
            self.g_score.insert(neighbor_slot, tentative_g_score);
            self.open_set.push(tentative_g_score + heuristic(neighbor, goal), neighbor);
            proof {
                assert forall|c: Cell| #![trigger slot(c, grid.height)] grid.in_bounds(c) implies ({
                    let k = slot(c, grid.height) as usize;
                    &&& self.g_score@.contains_key(k) == next.g_score.contains_key(c)
                    &&& next.g_score.contains_key(c) ==> self.g_score@[k] == next.g_score[c]
                    &&& self.came_from@.contains_key(k) == next.came_from.contains_key(c)
                    &&& next.came_from.contains_key(c) ==> self.came_from@[k] == next.came_from[c]
                }) by {
                    lemma_slots(grid, c, neighbor);
                }
            }
        }
    }
}

/// A path between two different cells has a first step out of a cell of
/// the map and a last step into one.
proof fn lemma_ends_in_bounds(grid: GridModel, p: Seq<Cell>, start: Cell, goal: Cell)
    requires
        grid.connects(p, start, goal),
        start != goal,
    ensures
        grid.in_bounds(start),
        grid.in_bounds(goal),
{
    assert(p.len() >= 2);
    assert(grid.step_at(p, 0));
    assert(grid.step_at(p, p.len() - 2));
}

/// Searches `map` for a cheapest path from `start` to `goal`, where a move
/// along an edge costs 1 and a move across a corner costs 2.
///
/// The result lists the cells of the path from `start` to `goal`, and is
/// empty when no path exists. Among paths of the same cost it is the one
/// that the search settles on first. A start or goal outside the map is
/// not an error: such a cell has no moves, so it is reached only from
/// itself. The start may be a blocked cell; any other cell of the path is
/// walkable.
pub fn astar(start: Cell, goal: Cell, map: &Pathfinding) -> (path: Vec<Cell>)
    requires
        map.wf(),
    ensures
        path@ == search_path(map@, start, goal),
        map@.is_cheapest(start, goal, path@),
{
    let ghost grid = map@;
    proof {
        map.lemma_wf_view();
        lemma_search_path(grid, start, goal);
        lemma_begin_inv(grid, start, goal);
    }
    if start.0 >= map.width() || start.1 >= map.height() || goal.0 >= map.width() || goal.1
        >= map.height() {
        // A cell outside the map has no moves: it is reached only from itself.
        let mut path: Vec<Cell> = Vec::new();
        if start.0 == goal.0 && start.1 == goal.1 {
            path.push(start);
            proof {
                law_start_is_goal(grid, start);
                assert(path@ =~= seq![start]);
            }
        } else {
            proof {
                if grid.reachable(start, goal) {
                    let p = choose|p: Seq<Cell>| grid.connects(p, start, goal);
                    lemma_ends_in_bounds(grid, p, start, goal);
                }
                assert(search_path(grid, start, goal) =~= Seq::<Cell>::empty());
            }
        }
        return path;
    }
    let mut state = SearchState::begin(start, goal, map);
    let ghost mut s = Search::begin(start, goal);
    loop
        invariant
            map.wf(),
            grid == map@,
            grid.wf(),
            grid.in_bounds(start),
            grid.in_bounds(goal),
            state.holds(s, grid),
            s.inv(grid, start, goal),
            s.run(grid, start, goal) == search_path(grid, start, goal),
            grid.is_cheapest(start, goal, search_path(grid, start, goal)),
        decreases s.measure(grid),
    {
        let current: Cell = match state.pop(Ghost(s), Ghost(grid)) {
            Some(cell) => cell,
            None => {
                return Vec::new();
            },
        };
        if current.0 == goal.0 && current.1 == goal.1 {
            proof {
                reveal(SearchState::holds);
                lemma_front_exists(s.open_set);
                lemma_inv_basics(s, grid, start, goal, None, 0);
                assert(s.open_set.contains(front(s.open_set)));
            }
            return reconstruct_path(&state.came_from, current, map, Ghost(s), Ghost(start));
        }
        let moves = neighbors(current, map);
        let ghost origin = s.pop();
        let ghost mut t = origin;
        proof {
            lemma_pop_inv(s, grid, start, goal);
            assert(moves@.take(0) =~= Seq::<(Cell, usize)>::empty());
        }
        let mut k: usize = 0;
        while k < moves.len()
            invariant
                map.wf(),
                grid == map@,
                grid.wf(),
                grid.in_bounds(start),
                grid.in_bounds(goal),
                moves@ == grid.neighbors(current),
                k <= moves@.len(),
                t == origin.expand(current, moves@.take(k as int), goal),
                t.inv_during(grid, start, goal, Some(current), k as int),
                t.measure(grid) <= origin.measure(grid),
                state.holds(t, grid),
            decreases moves@.len() - k,
        {
            proof {
                lemma_relax_inv(t, grid, start, goal, current, k as int);
                assert(moves@.take(k + 1).drop_last() =~= moves@.take(k as int));
                assert(moves@.take(k + 1).last() == moves@[k as int]);
            }
            state.relax(current, moves[k], goal, map, Ghost(t), Ghost(start), Ghost(k as int));
            proof {
                t = t.relax(current, moves@[k as int], goal);
            }
            k += 1;
        }
        proof {
            assert(moves@.take(moves@.len() as int) =~= moves@);
            lemma_finish_inv(t, grid, start, goal, current);
            assert(t == s.settle(grid, goal));
            s = t;
        }
    }
}

impl Pathfinding {
    /// Finds a cheapest path from `(start_x, start_y)` to `(end_x, end_y)`,
    /// where a move along an edge costs 1 and a move across a corner costs 2.
    ///
    /// The result lists the cells of the path in the order in which they
    /// are walked, both ends included, and is empty when there is no path.
    /// Among paths of the same cost it is the one that the search settles
    /// on first; the search always goes on from the waiting cell with the
    /// lowest estimate and, among those, the largest coordinates.
    ///
    /// Coordinates outside the map are not an error. A cell outside the map
    /// has no moves, so a search that starts or ends there finds nothing,
    /// unless it starts and ends on the same cell. The start may be a
    /// blocked cell: the search leaves it as it would leave any other cell.
    /// A blocked goal is found only by a search that starts on it.
    pub fn find_path(&self, start_x: usize, start_y: usize, end_x: usize, end_y: usize) -> (path:
        Vec<(usize, usize)>)
        requires
            self.wf(),
        ensures
            path@ == search_path(self@, (start_x, start_y), (end_x, end_y)),
            self@.is_cheapest((start_x, start_y), (end_x, end_y), path@),
            start_x == end_x && start_y == end_y ==> path@ == seq![(start_x, start_y)],
    {
        proof {
            if start_x == end_x && start_y == end_y {
                self.lemma_wf_view();
                law_start_is_goal(self@, (start_x, start_y));
            }
        }
        astar((start_x, start_y), (end_x, end_y), self)
    }
}

} // verus!
