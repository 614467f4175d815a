//! The axis-slice controller: a cursor in the cubic maze, the axis pair the
//! player currently sees, movement validated against the current slice, and
//! the win check that regenerates the maze and advances the score.

use vstd::prelude::*;

use crate::maze_base::{in_grid, int3, on_boundary, unslice, Maze, MazeAxis3, MazeCell, MazeSlice};
use crate::maze_gen::{boundary_walled, gen_maze, maze_generated};
use crate::reach::adjacent;
use crate::MAZE_SIZE;

verus! {

/// A movement request from the player, interpreted against the current axis
/// pair: `Left`/`Right` move the first in-slice coordinate, `Up`/`Down` the
/// second.
#[derive(Clone, Copy, Debug, PartialEq, Eq, Structural)]
pub enum MoveDir {
    Left,
    Right,
    Up,
    Down,
}

/// The cursor coordinate orthogonal to the visible axis pair: the depth at
/// which the current slice is cut.
pub open spec fn spec_pick_axis(axis: MazeAxis3, pos: (int, int, int)) -> int {
    match axis {
        MazeAxis3::XY => pos.2,
        MazeAxis3::XZ => pos.1,
        MazeAxis3::YZ => pos.0,
    }
}

pub fn pick_axis(axis: &MazeAxis3, pos: (usize, usize, usize)) -> (r: usize)
    ensures
        r as int == spec_pick_axis(*axis, int3(pos)),
{
    match axis {
        MazeAxis3::XY => pos.2,
        MazeAxis3::XZ => pos.1,
        MazeAxis3::YZ => pos.0,
    }
}

/// The two cursor coordinates that lie in the current slice.
pub open spec fn in_slice_coords(axis: MazeAxis3, pos: (int, int, int)) -> (int, int) {
    match axis {
        MazeAxis3::XY => (pos.0, pos.1),
        MazeAxis3::XZ => (pos.0, pos.2),
        MazeAxis3::YZ => (pos.1, pos.2),
    }
}

/// The in-slice coordinates a move asks to step onto.
pub open spec fn move_coords(axis: MazeAxis3, pos: (int, int, int), dir: MoveDir) -> (int, int) {
    match dir {
        MoveDir::Left => (in_slice_coords(axis, pos).0 - 1, in_slice_coords(axis, pos).1),
        MoveDir::Right => (in_slice_coords(axis, pos).0 + 1, in_slice_coords(axis, pos).1),
        MoveDir::Up => (in_slice_coords(axis, pos).0, in_slice_coords(axis, pos).1 - 1),
        MoveDir::Down => (in_slice_coords(axis, pos).0, in_slice_coords(axis, pos).1 + 1),
    }
}

/// The grid position whose traversability decides the move: the current
/// slice's cell at the asked-for in-slice coordinates.
pub open spec fn move_probe(axis: MazeAxis3, pos: (int, int, int), dir: MoveDir) -> (int, int, int) {
    unslice(
        axis,
        spec_pick_axis(axis, pos),
        move_coords(axis, pos, dir).0,
        move_coords(axis, pos, dir).1,
    )
}

/// Where the cursor stands after a permitted move: exactly one coordinate
/// steps by one.
pub open spec fn moved_pos(axis: MazeAxis3, pos: (int, int, int), dir: MoveDir) -> (int, int, int) {
    match axis {
        MazeAxis3::XY => match dir {
            MoveDir::Left => (pos.0 - 1, pos.1, pos.2),
            MoveDir::Right => (pos.0 + 1, pos.1, pos.2),
            MoveDir::Up => (pos.0, pos.1 - 1, pos.2),
            MoveDir::Down => (pos.0, pos.1 + 1, pos.2),
        },
        MazeAxis3::XZ => match dir {
            MoveDir::Left => (pos.0 - 1, pos.1, pos.2),
            MoveDir::Right => (pos.0 + 1, pos.1, pos.2),
            MoveDir::Up => (pos.0, pos.1, pos.2 - 1),
            MoveDir::Down => (pos.0, pos.1, pos.2 + 1),
        },
        MazeAxis3::YZ => match dir {
            MoveDir::Left => (pos.0, pos.1 - 1, pos.2),
            MoveDir::Right => (pos.0, pos.1 + 1, pos.2),
            MoveDir::Up => (pos.0, pos.1, pos.2 - 1),
            MoveDir::Down => (pos.0, pos.1, pos.2 + 1),
        },
    }
}

/// The in-slice coordinates a move asks to step onto, as machine integers.
fn probe_coords(axis: MazeAxis3, pos: (usize, usize, usize), dir: MoveDir) -> (c: (usize, usize))
    requires
        1 <= int3(pos).0 < usize::MAX,
        1 <= int3(pos).1 < usize::MAX,
        1 <= int3(pos).2 < usize::MAX,
    ensures
        (c.0 as int, c.1 as int) == move_coords(axis, int3(pos), dir),
{
    let (x, y, z) = pos;
    let (u, v) = match axis {
        MazeAxis3::XY => (x, y),
        MazeAxis3::XZ => (x, z),
        MazeAxis3::YZ => (y, z),
    };
    match dir {
        MoveDir::Left => (u - 1, v),
        MoveDir::Right => (u + 1, v),
        MoveDir::Up => (u, v - 1),
        MoveDir::Down => (u, v + 1),
    }
}

/// The cursor after a permitted move, as machine integers.
fn step_cursor(axis: MazeAxis3, pos: (usize, usize, usize), dir: MoveDir) -> (np: (
    usize,
    usize,
    usize,
))
    requires
        1 <= int3(pos).0 < usize::MAX,
        1 <= int3(pos).1 < usize::MAX,
        1 <= int3(pos).2 < usize::MAX,
    ensures
        int3(np) == moved_pos(axis, int3(pos), dir),
{
    let (x, y, z) = pos;
    match axis {
        MazeAxis3::XY => match dir {
            MoveDir::Left => (x - 1, y, z),
            MoveDir::Right => (x + 1, y, z),
            MoveDir::Up => (x, y - 1, z),
            MoveDir::Down => (x, y + 1, z),
        },
        MazeAxis3::XZ => match dir {
            MoveDir::Left => (x - 1, y, z),
            MoveDir::Right => (x + 1, y, z),
            MoveDir::Up => (x, y, z - 1),
            MoveDir::Down => (x, y, z + 1),
        },
        MazeAxis3::YZ => match dir {
            MoveDir::Left => (x, y - 1, z),
            MoveDir::Right => (x, y + 1, z),
            MoveDir::Up => (x, y, z - 1),
            MoveDir::Down => (x, y, z + 1),
        },
    }
}

/// From a cursor strictly inside the boundary walls, the probed in-slice
/// coordinates stay inside the slice.
proof fn lemma_move_coords_in_range(n: int, axis: MazeAxis3, pos: (int, int, int), dir: MoveDir)
    requires
        1 <= pos.0 <= n - 2,
        1 <= pos.1 <= n - 2,
        1 <= pos.2 <= n - 2,
    ensures
        0 <= move_coords(axis, pos, dir).0 < n,
        0 <= move_coords(axis, pos, dir).1 < n,
        in_grid(n, move_probe(axis, pos, dir)),
{
}

/// When the probed cell is off the boundary planes, the stepped cursor is
/// again strictly inside them.
proof fn lemma_probe_bounds(n: int, axis: MazeAxis3, pos: (int, int, int), dir: MoveDir)
    requires
        1 <= pos.0 <= n - 2,
        1 <= pos.1 <= n - 2,
        1 <= pos.2 <= n - 2,
        !on_boundary(n, move_probe(axis, pos, dir)),
    ensures
        1 <= moved_pos(axis, pos, dir).0 <= n - 2,
        1 <= moved_pos(axis, pos, dir).1 <= n - 2,
        1 <= moved_pos(axis, pos, dir).2 <= n - 2,
{
}

/// A permitted move changes exactly one coordinate of the cursor, by one.
pub proof fn lemma_moved_pos_adjacent(axis: MazeAxis3, pos: (int, int, int), dir: MoveDir)
    ensures
        adjacent(pos, moved_pos(axis, pos, dir)),
{
}

/// Rotating the axis three times returns to the original axis.
pub proof fn lemma_cycle_three_identity(a: MazeAxis3)
    ensures
        a.cycled().cycled().cycled() == a,
{
}

/// How one `handle_rotate` call relates the state before it to the state
/// after it: the axis advances and nothing else changes.
pub open spec fn rotate_step(before: CurrentData, after: CurrentData) -> bool {
    &&& after.axis() == before.axis().cycled()
    &&& after.pos() == before.pos()
    &&& after.base() == before.base()
}

/// Law: three rotations restore the original axis and never move the
/// cursor, nor touch the maze or the score.
pub proof fn lemma_rotate_three_restores(
    s0: CurrentData,
    s1: CurrentData,
    s2: CurrentData,
    s3: CurrentData,
)
    requires
        rotate_step(s0, s1),
        rotate_step(s1, s2),
        rotate_step(s2, s3),
    ensures
        s3.axis() == s0.axis(),
        s3.pos() == s0.pos(),
        s3.base() == s0.base(),
{
}

/// Long-lived game data: the maze of the current level, the recorded
/// position of its `End` cell, and the score, which outlives levels.
pub struct BaseData {
    current_maze: Maze,
    end_pos: (usize, usize, usize),
    score: u64,
}

impl BaseData {
    pub closed spec fn maze(self) -> Maze {
        self.current_maze
    }

    pub closed spec fn spec_end_pos(self) -> (usize, usize, usize) {
        self.end_pos
    }

    pub closed spec fn spec_score(self) -> u64 {
        self.score
    }

    /// The grid is boundary-walled and `end_pos` records its `End` cell.
    /// This is the part of the generator's guarantee that the controller's
    /// own safety rests on; the full guarantee is stated where a maze is
    /// created.
    pub open spec fn wf(self) -> bool {
        &&& self.maze().wf()
        &&& 5 <= self.maze().spec_side()
        &&& boundary_walled(self.maze()@, self.maze().spec_side())
        &&& in_grid(self.maze().spec_side(), int3(self.spec_end_pos()))
        &&& self.maze()@[int3(self.spec_end_pos())] == MazeCell::End
    }
}

/// Per-level state: the cursor, the visible axis pair, and the long-lived
/// data.
pub struct CurrentData {
    player_pos: (usize, usize, usize),
    cut_axis: MazeAxis3,
    base_data: BaseData,
}

impl Default for BaseData {
    /// A fresh level: a generated maze, its `End` position, score zero.
    fn default() -> (b: BaseData)
        ensures
            b.wf(),
            b.spec_score() == 0,
            b.maze().spec_side() == MAZE_SIZE,
            maze_generated(b.maze()@, b.maze().spec_side()),
    {
        let current_maze = gen_maze();
        let end_pos = current_maze.end_pos();
        BaseData { current_maze, end_pos, score: 0 }
    }
}

impl Default for CurrentData {
    fn default() -> (c: CurrentData)
        ensures
            c.wf(),
            c.base().spec_score() == 0,
            c.pos() == (1usize, 1usize, 1usize),
            c.axis() == MazeAxis3::XY,
            c.side() == MAZE_SIZE,
            maze_generated(c.grid(), c.side()),
    {
        CurrentData {
            player_pos: (1, 1, 1),
            cut_axis: MazeAxis3::XY,
            base_data: BaseData::default(),
        }
    }
}

impl CurrentData {
    pub closed spec fn pos(self) -> (usize, usize, usize) {
        self.player_pos
    }

    pub closed spec fn axis(self) -> MazeAxis3 {
        self.cut_axis
    }

    pub closed spec fn base(self) -> BaseData {
        self.base_data
    }

    pub open spec fn side(self) -> int {
        self.base().maze().spec_side()
    }

    /// The cells of the current maze.
    pub open spec fn grid(self) -> Map<(int, int, int), MazeCell> {
        self.base().maze()@
    }

    /// The long-lived data is sound and the cursor stands strictly inside
    /// the boundary walls.
    pub open spec fn wf(self) -> bool {
        &&& self.base().wf()
        &&& 1 <= int3(self.pos()).0 <= self.side() - 2
        &&& 1 <= int3(self.pos()).1 <= self.side() - 2
        &&& 1 <= int3(self.pos()).2 <= self.side() - 2
    }

    /// A fresh game: a generated maze, the cursor on the start cell, the
    /// `XY` axis pair, score zero.
    pub fn new() -> (c: CurrentData)
        ensures
            c.wf(),
            c.base().spec_score() == 0,
            c.pos() == (1usize, 1usize, 1usize),
            c.axis() == MazeAxis3::XY,
            c.side() == MAZE_SIZE,
            maze_generated(c.grid(), c.side()),
    {
        CurrentData::default()
    }

    pub fn player_position(&self) -> (p: (usize, usize, usize))
        ensures
            p == self.pos(),
    {
        self.player_pos
    }

    pub fn current_axis(&self) -> (a: MazeAxis3)
        ensures
            a == self.axis(),
    {
        self.cut_axis
    }

    pub fn end_position(&self) -> (p: (usize, usize, usize))
        ensures
            p == self.base().spec_end_pos(),
    {
        self.base_data.end_pos
    }

    pub fn current_maze(&self) -> (m: &Maze)
        ensures
            *m == self.base().maze(),
    {
        &self.base_data.current_maze
    }

    pub fn score(&self) -> (s: u64)
        ensures
            s == self.base().spec_score(),
    {
        self.base_data.score
    }

    /// The slice the player currently sees: the maze cut along the current
    /// axis at the cursor's depth coordinate.
    pub fn create_slice<'a>(&'a self) -> (s: MazeSlice<'a>)
        requires
            self.wf(),
        ensures
            s.wf(),
            s.spec_len0() == self.side(),
            s.spec_len1() == self.side(),
            forall|a: int, b: int|
                0 <= a < self.side() && 0 <= b < self.side() ==> #[trigger] s.cell(a, b)
                    == self.grid()[unslice(
                    self.axis(),
                    spec_pick_axis(self.axis(), int3(self.pos())),
                    a,
                    b,
                )],
    {
        let depth = pick_axis(&self.cut_axis, self.player_pos);
        self.base_data.current_maze.view_2_axis(self.cut_axis, depth)
    }

    /// Apply a movement request: step the cursor by one if the current
    /// slice's cell at the asked-for coordinates is traversable, and absorb
    /// the request silently otherwise.
    pub fn handle_move(&mut self, dir: MoveDir)
        requires
            old(self).wf(),
        ensures
            final(self).wf(),
            final(self).axis() == old(self).axis(),
            final(self).base() == old(self).base(),
            old(self).grid()[move_probe(old(self).axis(), int3(old(self).pos()), dir)].traversable()
                ==> int3(final(self).pos()) == moved_pos(old(self).axis(), int3(old(self).pos()), dir),
            !old(self).grid()[move_probe(old(self).axis(), int3(old(self).pos()), dir)].traversable()
                ==> final(self).pos() == old(self).pos(),
    {
        let ghost posi = int3(old(self).pos());
        let ghost ax = old(self).axis();
        let ghost side = old(self).side();
        proof {
            old(self).base().maze().lemma_side_fits();
            lemma_move_coords_in_range(side, ax, posi, dir);
        }
        let (cu, cv) = probe_coords(self.cut_axis, self.player_pos, dir);
        let probed = {
            let mz = self.create_slice();
            mz.get(cu, cv)
        };
        proof {
            assert(probed == old(self).grid()[move_probe(ax, posi, dir)]);
        }
        if probed.is_traversable() {
            proof {
                let probe = move_probe(ax, posi, dir);
                assert(!on_boundary(side, probe)) by {
                    if on_boundary(side, probe) {
                        assert(old(self).grid()[probe] == MazeCell::OuterWall);
                    }
                }
                lemma_probe_bounds(side, ax, posi, dir);
            }
            self.player_pos = step_cursor(self.cut_axis, self.player_pos, dir);
        }
    }

    /// Advance the visible axis pair in the fixed rotation order. The
    /// cursor does not move.
    pub fn handle_rotate(&mut self)
        requires
            old(self).wf(),
        ensures
            final(self).wf(),
            final(self).pos() == old(self).pos(),
            final(self).base() == old(self).base(),
            final(self).axis() == old(self).axis().cycled(),
    {
        self.cut_axis.cycle();
    }

    /// If the cursor stands on the `End` cell, advance the score, generate
    /// a fresh maze, record its `End`, and reset the cursor and axis.
    /// Anywhere else this is a no-op.
    pub fn check_win(&mut self)
        requires
            old(self).wf(),
            old(self).base().spec_score() < u64::MAX,
        ensures
            final(self).wf(),
            old(self).grid()[int3(old(self).pos())] == MazeCell::End ==> {
                &&& final(self).base().spec_score() == old(self).base().spec_score() + 1
                &&& final(self).pos() == (1usize, 1usize, 1usize)
                &&& final(self).axis() == MazeAxis3::XY
                &&& final(self).side() == MAZE_SIZE
                &&& maze_generated(final(self).grid(), final(self).side())
                &&& final(self).grid()[int3(final(self).base().spec_end_pos())] == MazeCell::End
            },
            old(self).grid()[int3(old(self).pos())] != MazeCell::End ==> *final(self) == *old(self),
    {
        let (x, y, z) = self.player_pos;
        if self.base_data.current_maze.get(x, y, z) == MazeCell::End {
            self.base_data.score = self.base_data.score + 1;
            self.base_data.current_maze = gen_maze();
            self.base_data.end_pos = self.base_data.current_maze.end_pos();
            self.cut_axis = MazeAxis3::XY;
            self.player_pos = (1, 1, 1);
        }
    }
}

} // verus!
