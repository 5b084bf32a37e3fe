//! The obstacle map: a rectangle of cells, each walkable or blocked.

use vstd::prelude::*;
use crate::cell::Cell;

verus! {

/// What a map is, mathematically: its extent and the set of blocked cells.
pub struct GridModel {
    /// The number of columns: cells have `x < width`.
    pub width: nat,
    /// The number of rows: cells have `y < height`.
    pub height: nat,
    /// The cells marked as obstacles.
    pub blocked: Set<Cell>,
}

impl GridModel {
    /// A map of the given extent with every cell walkable.
    pub open spec fn unobstructed(width: nat, height: nat) -> GridModel {
        GridModel { width, height, blocked: Set::empty() }
    }

    /// The cell lies inside the rectangle.
    pub open spec fn in_bounds(self, c: Cell) -> bool {
        c.0 < self.width && c.1 < self.height
    }

    /// The cell lies inside the rectangle and is not blocked.
    pub open spec fn walkable(self, c: Cell) -> bool {
        self.in_bounds(c) && !self.blocked.contains(c)
    }

    /// Only cells inside the rectangle can be blocked, and both sides of
    /// the rectangle are machine-sized.
    pub open spec fn wf(self) -> bool {
        &&& self.width <= usize::MAX
        &&& self.height <= usize::MAX
        &&& forall|c: Cell| #[trigger] self.blocked.contains(c) ==> self.in_bounds(c)
    }

    /// Twice the number of cells: no cost that a search records exceeds it.
    pub open spec fn cost_cap(self) -> nat {
        2 * (self.width * self.height)
    }

    /// Every path cost and every estimate on this map fits in a `usize`.
    pub open spec fn fits(self) -> bool {
        extent_fits(self.width as int, self.height as int)
    }

    /// The map after blocking `c`; a cell outside the rectangle changes nothing.
    pub open spec fn with_obstacle(self, c: Cell) -> GridModel {
        if self.in_bounds(c) {
            GridModel { blocked: self.blocked.insert(c), ..self }
        } else {
            self
        }
    }

    /// The map after unblocking `c`; a cell outside the rectangle changes nothing.
    pub open spec fn without_obstacle(self, c: Cell) -> GridModel {
        if self.in_bounds(c) {
            GridModel { blocked: self.blocked.remove(c), ..self }
        } else {
            self
        }
    }
}

/// Every path cost and every estimate on a map of this extent fits in a `usize`.
pub open spec fn extent_fits(width: int, height: int) -> bool {
    2 * (width * height) + width + height + 2 <= usize::MAX
}

/// A rectangular obstacle map. Cells are addressed as `(x, y)` with
/// `x < width` and `y < height`; every cell starts out walkable.
pub struct Pathfinding {
    width: usize,
    height: usize,
    /// One column per `x`, one byte per `y`: 0 is walkable, anything else an obstacle.
    grid: Vec<Vec<u8>>,
}

impl View for Pathfinding {
    type V = GridModel;

    closed spec fn view(&self) -> GridModel {
        GridModel {
            width: self.width as nat,
            height: self.height as nat,
            blocked: Set::new(
                |c: Cell|
                    c.0 < self.width && c.1 < self.height && self.grid@[c.0 as int]@[c.1 as int]
                        != 0,
            ),
        }
    }
}

impl Pathfinding {
    /// The stored columns have the declared shape and the extent is representable.
    pub closed spec fn wf(&self) -> bool {
        &&& self.grid@.len() == self.width
        &&& forall|x: int| 0 <= x < self.width ==> (#[trigger] self.grid@[x])@.len() == self.height
        &&& extent_fits(self.width as int, self.height as int)
    }

    /// A well-formed map has a well-formed model of representable extent.
    pub proof fn lemma_wf_view(&self)
        requires
            self.wf(),
        ensures
            self@.wf(),
            self@.fits(),
    {
    }

    /// Whether a map of this extent can be made: whether every path cost
    /// and every estimate on it fits in a `usize`.
    pub fn can_hold(width: usize, height: usize) -> (ok: bool)
        ensures
            ok == extent_fits(width as int, height as int),
    {
        let area = match width.checked_mul(height) {
            Some(area) => area,
            None => {
                return false;
            },
        };
        let twice = match area.checked_mul(2) {
            Some(twice) => twice,
            None => {
                return false;
            },
        };
        let with_width = match twice.checked_add(width) {
            Some(sum) => sum,
            None => {
                return false;
            },
        };
        let with_height = match with_width.checked_add(height) {
            Some(sum) => sum,
            None => {
                return false;
            },
        };
        with_height.checked_add(2).is_some()
    }

    /// Creates a `width` by `height` map with no obstacles.
    pub fn new(width: usize, height: usize) -> (map: Pathfinding)
        requires
            extent_fits(width as int, height as int),
        ensures
            map.wf(),
            map@ == GridModel::unobstructed(width as nat, height as nat),
    {
        let mut grid: Vec<Vec<u8>> = Vec::new();
        let mut x: usize = 0;
        while x < width
            invariant
                x <= width,
                grid@.len() == x,
                forall|i: int| 0 <= i < x ==> (#[trigger] grid@[i])@.len() == height,
                forall|i: int, j: int|
                    0 <= i < x && 0 <= j < height ==> (#[trigger] grid@[i]@[j]) == 0,
            decreases width - x,
        {
            let mut column: Vec<u8> = Vec::new();
            let mut y: usize = 0;
            while y < height
                invariant
                    y <= height,
                    column@.len() == y,
                    forall|j: int| 0 <= j < y ==> (#[trigger] column@[j]) == 0,
                decreases height - y,
            {
                column.push(0);
                y += 1;
            }
            grid.push(column);
            x += 1;
        }
        let map = Pathfinding { width, height, grid };
        assert(map@.blocked =~= Set::<Cell>::empty());
        map
    }

    /// The number of columns.
    pub fn width(&self) -> (w: usize)
        ensures
            w == self@.width,
    {
        self.width
    }

    /// The number of rows.
    pub fn height(&self) -> (h: usize)
        ensures
            h == self@.height,
    {
        self.height
    }

    /// Marks `(x, y)` as blocked. Coordinates outside the map are ignored.
    pub fn set_obstacle(&mut self, x: usize, y: usize)
        requires
            old(self).wf(),
        ensures
            final(self).wf(),
            final(self)@ == old(self)@.with_obstacle((x, y)),
    {
        if x < self.width && y < self.height {
            self.grid[x][y] = 1;
            assert(self@.blocked =~= old(self)@.blocked.insert((x, y)));
        }
    }

    /// Marks `(x, y)` as walkable. Coordinates outside the map are ignored.
    pub fn clear_obstacle(&mut self, x: usize, y: usize)
        requires
            old(self).wf(),
        ensures
            final(self).wf(),
            final(self)@ == old(self)@.without_obstacle((x, y)),
    {
        if x < self.width && y < self.height {
            self.grid[x][y] = 0;
            assert(self@.blocked =~= old(self)@.blocked.remove((x, y)));
        }
    }

    /// Whether the cell `(x, y)` of the map is blocked.
    pub fn is_blocked(&self, x: usize, y: usize) -> (b: bool)
        requires
            self.wf(),
            self@.in_bounds((x, y)),
        ensures
            b == self@.blocked.contains((x, y)),
    {
        self.grid[x][y] != 0
    }
}

} // verus!
