//! Core data model: the cell states of a maze, the three cross-section axes,
//! the cubic grid itself and read-only two-dimensional slices of it.

use vstd::prelude::*;

use crate::store::{grid_cells, grid_get, grid_new, grid_side, grid_set, Grid3};
use crate::MAZE_SIZE;

verus! {

/// State of one grid position.
#[derive(Clone, Copy, Debug, PartialEq, Eq, Structural)]
pub enum MazeCell {
    Cell,
    Wall,
    OuterWall,
    Start,
    End,
    Unvisited,
    Test(u8),
}

/// Selector for a two-dimensional cross-section of the cubic grid: the name
/// gives the pair of cursor coordinates whose in-slice neighbours the game
/// inspects while that axis is active.
#[derive(Clone, Copy, Debug, PartialEq, Eq, Structural)]
pub enum MazeAxis3 {
    XY,
    XZ,
    YZ,
}

impl MazeCell {
    /// Whether the player may stand on a cell of this state.
    pub open spec fn traversable(self) -> bool {
        self == MazeCell::Cell || self == MazeCell::Start || self == MazeCell::End
    }

    pub fn is_traversable(&self) -> (r: bool)
        ensures
            r == self.traversable(),
    {
        match self {
            MazeCell::Cell | MazeCell::Start | MazeCell::End => true,
            _ => false,
        }
    }
}

impl Default for MazeCell {
    /// A fresh cell starts as the `Unvisited` sentinel.
    fn default() -> (c: MazeCell)
        ensures
            c == MazeCell::Unvisited,
    {
        MazeCell::Unvisited
    }
}

impl MazeAxis3 {
    /// The next axis in the fixed rotation order.
    pub open spec fn cycled(self) -> MazeAxis3 {
        match self {
            MazeAxis3::XY => MazeAxis3::XZ,
            MazeAxis3::XZ => MazeAxis3::YZ,
            MazeAxis3::YZ => MazeAxis3::XY,
        }
    }

    /// Advance to the next axis in the rotation order.
    pub fn cycle(&mut self)
        ensures
            *final(self) == old(self).cycled(),
    {
        *self = match self {
            MazeAxis3::XY => MazeAxis3::XZ,
            MazeAxis3::XZ => MazeAxis3::YZ,
            MazeAxis3::YZ => MazeAxis3::XY,
        };
    }
}

/// The coordinates of a position as mathematical integers.
pub open spec fn int3(p: (usize, usize, usize)) -> (int, int, int) {
    (p.0 as int, p.1 as int, p.2 as int)
}

/// Whether `p` comes strictly before `q` in the scan order of the grid
/// (outer-to-inner axis nesting).
pub open spec fn lex3_before(p: (int, int, int), q: (int, int, int)) -> bool {
    p.0 < q.0 || (p.0 == q.0 && (p.1 < q.1 || (p.1 == q.1 && p.2 < q.2)))
}

/// The cell value `new_prefilled` writes at `(x, y, z)`: the scan-order
/// index of the position, truncated to a byte.
pub open spec fn prefilled_cell(n: int, x: int, y: int, z: int) -> MazeCell {
    MazeCell::Test(((((x * n) + y) * n + z) % 256) as u8)
}

/// Whether `p` lies inside an `n`-sided cubic grid.
pub open spec fn in_grid(n: int, p: (int, int, int)) -> bool {
    0 <= p.0 < n && 0 <= p.1 < n && 0 <= p.2 < n
}

/// Whether `p` lies on one of the six boundary planes of an `n`-sided grid.
pub open spec fn on_boundary(n: int, p: (int, int, int)) -> bool {
    p.0 == 0 || p.0 == n - 1 || p.1 == 0 || p.1 == n - 1 || p.2 == 0 || p.2 == n - 1
}

/// The grid position that in-slice coordinates `(a, b)` denote, for a slice
/// that fixes the coordinate selected by `axis` at `depth`.
pub open spec fn unslice(axis: MazeAxis3, depth: int, a: int, b: int) -> (int, int, int) {
    match axis {
        MazeAxis3::XY => (depth, a, b),
        MazeAxis3::XZ => (a, depth, b),
        MazeAxis3::YZ => (a, b, depth),
    }
}

/// A dense cubic grid of cell states.
pub struct Maze {
    side: usize,
    cells: Grid3,
}

impl View for Maze {
    type V = Map<(int, int, int), MazeCell>;

    closed spec fn view(&self) -> Map<(int, int, int), MazeCell> {
        grid_cells(&self.cells)
    }
}

impl Maze {
    pub closed spec fn spec_side(self) -> int {
        self.side as int
    }

    /// The backing array matches the recorded side length.
    pub closed spec fn wf(self) -> bool {
        grid_side(&self.cells) == self.side
    }

    /// The side length is a machine integer.
    pub proof fn lemma_side_fits(self)
        ensures
            0 <= self.spec_side() <= usize::MAX,
    {
    }

    /// Create an `n`-by-`n`-by-`n` grid with every cell `Unvisited`.
    pub fn new_sized(n: usize) -> (m: Maze)
        requires
            n * n * n < 0x8000_0000,
        ensures
            m.wf(),
            m.spec_side() == n,
            forall|x: int, y: int, z: int|
                in_grid(n as int, (x, y, z)) ==> #[trigger] m@[(x, y, z)] == MazeCell::Unvisited,
    {
        Maze { side: n, cells: grid_new(n, MazeCell::Unvisited) }
    }

    /// Create the game-sized grid with every cell `Unvisited`.
    pub fn new_empty() -> (m: Maze)
        ensures
            m.wf(),
            m.spec_side() == MAZE_SIZE,
            forall|x: int, y: int, z: int|
                in_grid(MAZE_SIZE as int, (x, y, z)) ==> #[trigger] m@[(x, y, z)]
                    == MazeCell::Unvisited,
    {
        Self::new_sized(MAZE_SIZE)
    }

    pub fn side(&self) -> (n: usize)
        ensures
            n == self.spec_side(),
    {
        self.side
    }

    /// Read the cell at a position.
    pub fn get(&self, x: usize, y: usize, z: usize) -> (c: MazeCell)
        requires
            self.wf(),
            x < self.spec_side(),
            y < self.spec_side(),
            z < self.spec_side(),
        ensures
            c == self@[(x as int, y as int, z as int)],
    {
        grid_get(&self.cells, x, y, z)
    }

    /// Create the game-sized grid whose every cell records its own scan
    /// index, for exercising the slicing operations.
    pub fn new_prefilled() -> (m: Maze)
        ensures
            m.wf(),
            m.spec_side() == MAZE_SIZE,
            forall|x: int, y: int, z: int|
                in_grid(MAZE_SIZE as int, (x, y, z)) ==> #[trigger] m@[(x, y, z)]
                    == prefilled_cell(MAZE_SIZE as int, x, y, z),
    {
        let n = MAZE_SIZE;
        let mut m = Self::new_sized(n);
        let mut x: usize = 0;
        while x < n
            invariant
                n == MAZE_SIZE,
                m.wf(),
                m.spec_side() == n,
                x <= n,
                forall|p: (int, int, int)|
                    in_grid(n as int, p) && lex3_before(p, (x as int, 0, 0))
                        ==> #[trigger] m@[p] == prefilled_cell(n as int, p.0, p.1, p.2),
            decreases n - x,
        {
            let mut y: usize = 0;
            while y < n
                invariant
                    n == MAZE_SIZE,
                    m.wf(),
                    m.spec_side() == n,
                    x < n,
                    y <= n,
                    forall|p: (int, int, int)|
                        in_grid(n as int, p) && lex3_before(p, (x as int, y as int, 0))
                            ==> #[trigger] m@[p] == prefilled_cell(n as int, p.0, p.1, p.2),
                decreases n - y,
            {
                let mut z: usize = 0;
                while z < n
                    invariant
                        n == MAZE_SIZE,
                        m.wf(),
                        m.spec_side() == n,
                        x < n,
                        y < n,
                        z <= n,
                        forall|p: (int, int, int)|
                            in_grid(n as int, p) && lex3_before(p, (x as int, y as int, z as int))
                                ==> #[trigger] m@[p] == prefilled_cell(n as int, p.0, p.1, p.2),
                    decreases n - z,
                {
                    let idx: usize = (x * n + y) * n + z;
                    m.set(x, y, z, MazeCell::Test((idx % 256) as u8));
                    z = z + 1;
                }
                y = y + 1;
            }
            x = x + 1;
        }
        m
    }

    /// Scan the grid in a fixed order (outer-to-inner axis nesting) and
    /// return the first position holding `target`, if any.
    pub fn find(&self, target: MazeCell) -> (r: Option<(usize, usize, usize)>)
        requires
            self.wf(),
        ensures
            match r {
                Some(p) => in_grid(self.spec_side(), int3(p)) && self@[int3(p)] == target
                    && forall|q: (int, int, int)|
                        in_grid(self.spec_side(), q) && lex3_before(q, int3(p)) ==> #[trigger] self@[q]
                            != target,
                None => forall|q: (int, int, int)|
                    in_grid(self.spec_side(), q) ==> #[trigger] self@[q] != target,
            },
    {
        let n = self.side;
        let mut x: usize = 0;
        while x < n
            invariant
                self.wf(),
                n == self.spec_side(),
                x <= n,
                forall|q: (int, int, int)|
                    in_grid(n as int, q) && lex3_before(q, (x as int, 0, 0)) ==> #[trigger] self@[q]
                        != target,
            decreases n - x,
        {
            let mut y: usize = 0;
            while y < n
                invariant
                    self.wf(),
                    n == self.spec_side(),
                    x < n,
                    y <= n,
                    forall|q: (int, int, int)|
                        in_grid(n as int, q) && lex3_before(q, (x as int, y as int, 0))
                            ==> #[trigger] self@[q] != target,
                decreases n - y,
            {
                let mut z: usize = 0;
                while z < n
                    invariant
                        self.wf(),
                        n == self.spec_side(),
                        x < n,
                        y < n,
                        z <= n,
                        forall|q: (int, int, int)|
                            in_grid(n as int, q) && lex3_before(q, (x as int, y as int, z as int))
                                ==> #[trigger] self@[q] != target,
                    decreases n - z,
                {
                    if self.get(x, y, z) == target {
                        return Some((x, y, z));
                    }
                    z = z + 1;
                }
                y = y + 1;
            }
            x = x + 1;
        }
        None
    }

    /// The position of the `End` cell, which the caller knows to exist
    /// because the maze came out of the generator: the first holder of
    /// `End` in scan order.
    pub fn end_pos(&self) -> (p: (usize, usize, usize))
        requires
            self.wf(),
            exists|q: (int, int, int)|
                in_grid(self.spec_side(), q) && #[trigger] self@[q] == MazeCell::End,
        ensures
            in_grid(self.spec_side(), int3(p)),
            self@[int3(p)] == MazeCell::End,
            forall|q: (int, int, int)|
                in_grid(self.spec_side(), q) && lex3_before(q, int3(p)) ==> #[trigger] self@[q]
                    != MazeCell::End,
    {
        match self.find(MazeCell::End) {
            Some(p) => p,
            None => {
                proof {
                    let q = choose|q: (int, int, int)|
                        in_grid(self.spec_side(), q) && #[trigger] self@[q] == MazeCell::End;
                    assert(self@[q] != MazeCell::End);
                    assert(false);
                }
                (0, 0, 0)
            },
        }
    }

    /// Overwrite the cell at a position.
    pub(crate) fn set(&mut self, x: usize, y: usize, z: usize, c: MazeCell)
        requires
            old(self).wf(),
            x < old(self).spec_side(),
            y < old(self).spec_side(),
            z < old(self).spec_side(),
        ensures
            final(self).wf(),
            final(self).spec_side() == old(self).spec_side(),
            final(self)@ == old(self)@.insert((x as int, y as int, z as int), c),
    {
        grid_set(&mut self.cells, x, y, z, c)
    }
}

/// A read-only two-dimensional cross-section of a `Maze`: the coordinate
/// selected by `axis` is fixed at `depth`, and a rectangular window given by
/// the offsets and lengths is exposed. Borrows the grid; recomputed on each
/// query rather than materialized.
pub struct MazeSlice<'a> {
    maze: &'a Maze,
    axis: MazeAxis3,
    depth: usize,
    off0: usize,
    off1: usize,
    len0: usize,
    len1: usize,
}

impl<'a> MazeSlice<'a> {
    pub closed spec fn spec_len0(self) -> int {
        self.len0 as int
    }

    pub closed spec fn spec_len1(self) -> int {
        self.len1 as int
    }

    /// The window lies inside the grid and the fixed coordinate is in range.
    pub closed spec fn wf(self) -> bool {
        &&& (*self.maze).wf()
        &&& self.depth < (*self.maze).spec_side()
        &&& self.off0 + self.len0 <= (*self.maze).spec_side()
        &&& self.off1 + self.len1 <= (*self.maze).spec_side()
    }

    /// The grid cell that in-slice coordinates `(a, b)` denote.
    pub closed spec fn cell(self, a: int, b: int) -> MazeCell {
        (*self.maze)@[unslice(self.axis, self.depth as int, self.off0 + a, self.off1 + b)]
    }

    pub fn dims(&self) -> (d: (usize, usize))
        ensures
            d.0 == self.spec_len0(),
            d.1 == self.spec_len1(),
    {
        (self.len0, self.len1)
    }

    /// Read the cell at in-slice coordinates `(a, b)`.
    pub fn get(&self, a: usize, b: usize) -> (c: MazeCell)
        requires
            self.wf(),
            a < self.spec_len0(),
            b < self.spec_len1(),
        ensures
            c == self.cell(a as int, b as int),
    {
        let u = self.off0 + a;
        let v = self.off1 + b;
        match self.axis {
            MazeAxis3::XY => self.maze.get(self.depth, u, v),
            MazeAxis3::XZ => self.maze.get(u, self.depth, v),
            MazeAxis3::YZ => self.maze.get(u, v, self.depth),
        }
    }

    /// Restrict the slice to the window whose corners are `start` and
    /// `start + len`, both inclusive.
    pub fn cut_to_fit(&self, start: (usize, usize), len: (usize, usize)) -> (r: MazeSlice<'a>)
        requires
            self.wf(),
            start.0 + len.0 < self.spec_len0(),
            start.1 + len.1 < self.spec_len1(),
        ensures
            r.wf(),
            r.spec_len0() == len.0 + 1,
            r.spec_len1() == len.1 + 1,
            forall|a: int, b: int|
                0 <= a <= len.0 && 0 <= b <= len.1 ==> #[trigger] r.cell(a, b) == self.cell(
                    start.0 + a,
                    start.1 + b,
                ),
    {
        MazeSlice {
            maze: self.maze,
            axis: self.axis,
            depth: self.depth,
            off0: self.off0 + start.0,
            off1: self.off1 + start.1,
            len0: len.0 + 1,
            len1: len.1 + 1,
        }
    }
}

impl Maze {
    /// A slice that fixes the coordinate selected by `axis3` at `pos` and
    /// exposes the whole remaining plane.
    pub fn view_2_axis<'a>(&'a self, axis3: MazeAxis3, pos: usize) -> (s: MazeSlice<'a>)
        requires
            self.wf(),
            pos < self.spec_side(),
        ensures
            s.wf(),
            s.spec_len0() == self.spec_side(),
            s.spec_len1() == self.spec_side(),
            forall|a: int, b: int|
                0 <= a < self.spec_side() && 0 <= b < self.spec_side() ==> #[trigger] s.cell(a, b)
                    == self@[unslice(axis3, pos as int, a, b)],
    {
        MazeSlice {
            maze: self,
            axis: axis3,
            depth: pos,
            off0: 0,
            off1: 0,
            len0: self.side,
            len1: self.side,
        }
    }
}

} // verus!
