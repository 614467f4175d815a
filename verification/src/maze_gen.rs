//! The maze generator: randomized recursive backtracking over the cells at
//! all-odd coordinates, carving the wall between a cell and the neighbour it
//! expands to. Cells live two units apart; the positions between them are
//! walls until carved.

use vstd::prelude::*;

use crate::maze_base::{in_grid, int3, lex3_before, on_boundary, Maze, MazeCell};
use crate::reach::{adjacent, reachable};
use crate::store::rand_below;
use crate::MAZE_SIZE;

verus! {

/// How many coordinates of `p` are even. Carveable cells have none; the
/// wall between two cells has exactly one.
pub open spec fn even_count(p: (int, int, int)) -> int {
    (if p.0 % 2 == 0 {
        1int
    } else {
        0int
    }) + (if p.1 % 2 == 0 {
        1int
    } else {
        0int
    }) + (if p.2 % 2 == 0 {
        1int
    } else {
        0int
    })
}

/// A cell is `OuterWall` exactly on the boundary planes.
pub open spec fn boundary_walled(m: Map<(int, int, int), MazeCell>, n: int) -> bool {
    forall|p: (int, int, int)|
        in_grid(n, p) ==> ((#[trigger] m[p]) == MazeCell::OuterWall <==> on_boundary(n, p))
}

/// What an interior cell may hold, by the parity of its position: positions
/// with two or three even coordinates are never carved; positions with one
/// even coordinate are walls until carved into passages; all-odd positions
/// are the maze's rooms.
pub open spec fn lattice_cell_ok(c: MazeCell, p: (int, int, int)) -> bool {
    &&& even_count(p) >= 2 ==> c == MazeCell::Wall
    &&& even_count(p) == 1 ==> c == MazeCell::Wall || c == MazeCell::Cell
    &&& even_count(p) == 0 ==> c == MazeCell::Start || c == MazeCell::End || c == MazeCell::Cell
        || c == MazeCell::Unvisited
}

pub open spec fn lattice_walls(m: Map<(int, int, int), MazeCell>, n: int) -> bool {
    forall|p: (int, int, int)|
        in_grid(n, p) && !on_boundary(n, p) ==> lattice_cell_ok(#[trigger] m[p], p)
}

/// `Start` stands at (1, 1, 1) and nowhere else.
pub open spec fn start_unique(m: Map<(int, int, int), MazeCell>, n: int) -> bool {
    &&& m[(1int, 1int, 1int)] == MazeCell::Start
    &&& forall|p: (int, int, int)|
        in_grid(n, p) && p != (1int, 1int, 1int) ==> (#[trigger] m[p]) != MazeCell::Start
}

/// No cell holds `End` yet.
pub open spec fn no_end(m: Map<(int, int, int), MazeCell>, n: int) -> bool {
    forall|p: (int, int, int)| in_grid(n, p) ==> (#[trigger] m[p]) != MazeCell::End
}

/// Some cell holds `End`, and at most one does.
pub open spec fn end_unique(m: Map<(int, int, int), MazeCell>, n: int) -> bool {
    &&& exists|p: (int, int, int)| in_grid(n, p) && (#[trigger] m[p]) == MazeCell::End
    &&& forall|p: (int, int, int), q: (int, int, int)|
        in_grid(n, p) && in_grid(n, q) && (#[trigger] m[p]) == MazeCell::End && (#[trigger] m[q])
            == MazeCell::End ==> p == q
}

/// Every traversable cell can be walked to from the start cell.
pub open spec fn all_reachable(m: Map<(int, int, int), MazeCell>, n: int) -> bool {
    forall|p: (int, int, int)|
        in_grid(n, p) && (#[trigger] m[p]).traversable() ==> reachable(m, n, (1int, 1int, 1int), p)
}

/// An ordered step of one unit in a positive axis direction.
pub open spec fn pos_step(p: (int, int, int), q: (int, int, int)) -> bool {
    ||| q == (p.0 + 1, p.1, p.2)
    ||| q == (p.0, p.1 + 1, p.2)
    ||| q == (p.0, p.1, p.2 + 1)
}

/// Whether `e` is a carved edge of `m`: two traversable in-range cells one
/// positive unit step apart.
pub open spec fn edge_of(
    m: Map<(int, int, int), MazeCell>,
    n: int,
    e: ((int, int, int), (int, int, int)),
) -> bool {
    &&& in_grid(n, e.0) && in_grid(n, e.1)
    &&& m[e.0].traversable() && m[e.1].traversable()
    &&& pos_step(e.0, e.1)
}

/// The traversable cells of `m`.
pub open spec fn carved_nodes(m: Map<(int, int, int), MazeCell>, n: int) -> Set<(int, int, int)> {
    Set::new(|p: (int, int, int)| in_grid(n, p) && m[p].traversable())
}

/// The carved edges of `m`, each counted once.
pub open spec fn carved_edges(m: Map<(int, int, int), MazeCell>, n: int) -> Set<
    ((int, int, int), (int, int, int)),
> {
    Set::new(|e: ((int, int, int), (int, int, int))| edge_of(m, n, e))
}

/// The carved cells form a tree: they number one more than the carved
/// edges (together with connectedness this rules out cycles).
pub open spec fn carve_tree(m: Map<(int, int, int), MazeCell>, n: int) -> bool {
    &&& carved_nodes(m, n).finite()
    &&& carved_edges(m, n).finite()
    &&& carved_nodes(m, n).len() >= 1
    &&& carved_edges(m, n).len() == carved_nodes(m, n).len() - 1
}

/// The two rooms on either side of a wall slot, along its even axis.
pub open spec fn wall_ends(p: (int, int, int)) -> ((int, int, int), (int, int, int)) {
    if p.0 % 2 == 0 {
        ((p.0 - 1, p.1, p.2), (p.0 + 1, p.1, p.2))
    } else if p.1 % 2 == 0 {
        ((p.0, p.1 - 1, p.2), (p.0, p.1 + 1, p.2))
    } else {
        ((p.0, p.1, p.2 - 1), (p.0, p.1, p.2 + 1))
    }
}

/// Every carved wall slot joins two carved rooms: a wall is only opened
/// when the room behind it is carved.
pub open spec fn walls_joined(m: Map<(int, int, int), MazeCell>, n: int) -> bool {
    forall|p: (int, int, int)|
        in_grid(n, p) && !on_boundary(n, p) && even_count(p) == 1 && (#[trigger] m[p]).traversable()
            ==> in_grid(n, wall_ends(p).0) && in_grid(n, wall_ends(p).1) && m[wall_ends(
            p,
        ).0].traversable() && m[wall_ends(p).1].traversable()
}

/// No cell anywhere still holds the `Unvisited` sentinel.
pub open spec fn no_unvisited(m: Map<(int, int, int), MazeCell>, n: int) -> bool {
    forall|p: (int, int, int)| in_grid(n, p) ==> (#[trigger] m[p]) != MazeCell::Unvisited
}

/// Everything the generator guarantees of a finished maze.
pub open spec fn maze_generated(m: Map<(int, int, int), MazeCell>, n: int) -> bool {
    &&& 5 <= n
    &&& boundary_walled(m, n)
    &&& lattice_walls(m, n)
    &&& start_unique(m, n)
    &&& end_unique(m, n)
    &&& no_unvisited(m, n)
    &&& all_reachable(m, n)
    &&& carve_tree(m, n)
}

/// What the static stamping pass writes at `p`: boundary planes become
/// `OuterWall`, interior positions with an even coordinate become `Wall`,
/// and the all-odd rooms await the carve.
pub open spec fn stamp_cell(n: int, p: (int, int, int)) -> MazeCell {
    if on_boundary(n, p) {
        MazeCell::OuterWall
    } else if even_count(p) >= 1 {
        MazeCell::Wall
    } else {
        MazeCell::Unvisited
    }
}

/// The room two units from `p` in direction `d`.
pub open spec fn dir_target(p: (int, int, int), d: int) -> (int, int, int) {
    if d == 0 {
        (p.0 + 2, p.1, p.2)
    } else if d == 1 {
        (p.0, p.1 + 2, p.2)
    } else if d == 2 {
        (p.0, p.1, p.2 + 2)
    } else if d == 3 {
        (p.0 - 2, p.1, p.2)
    } else if d == 4 {
        (p.0, p.1 - 2, p.2)
    } else {
        (p.0, p.1, p.2 - 2)
    }
}

/// The wall position between `p` and the room in direction `d`.
pub open spec fn dir_wall(p: (int, int, int), d: int) -> (int, int, int) {
    if d == 0 {
        (p.0 + 1, p.1, p.2)
    } else if d == 1 {
        (p.0, p.1 + 1, p.2)
    } else if d == 2 {
        (p.0, p.1, p.2 + 1)
    } else if d == 3 {
        (p.0 - 1, p.1, p.2)
    } else if d == 4 {
        (p.0, p.1 - 1, p.2)
    } else {
        (p.0, p.1, p.2 - 1)
    }
}

/// Direction `d` can be carved from `p`: the room it leads to lies in the
/// grid and has not been visited.
pub open spec fn dir_open(m: Map<(int, int, int), MazeCell>, n: int, p: (int, int, int), d: int)
    -> bool {
    in_grid(n, dir_target(p, d)) && m[dir_target(p, d)] == MazeCell::Unvisited
}

/// Geometry of one carve step out of an all-odd interior room.
proof fn lemma_dir_step(n: int, p: (int, int, int), d: int)
    requires
        0 <= d < 6,
        even_count(p) == 0,
        in_grid(n, p) && !on_boundary(n, p),
        in_grid(n, dir_target(p, d)) && !on_boundary(n, dir_target(p, d)),
    ensures
        adjacent(p, dir_wall(p, d)),
        adjacent(dir_wall(p, d), dir_target(p, d)),
        even_count(dir_target(p, d)) == 0,
        even_count(dir_wall(p, d)) == 1,
        in_grid(n, dir_wall(p, d)) && !on_boundary(n, dir_wall(p, d)),
        dir_wall(p, d) != p && dir_wall(p, d) != dir_target(p, d),
        d < 3 ==> wall_ends(dir_wall(p, d)) == (p, dir_target(p, d)),
        d >= 3 ==> wall_ends(dir_wall(p, d)) == (dir_target(p, d), p),
{
}

/// The canonical form of the edge a carve step opens between the room it
/// came from and the wall slot.
pub open spec fn carve_edge_a(p: (int, int, int), d: int) -> (
    (int, int, int),
    (int, int, int),
) {
    if d < 3 {
        (p, dir_wall(p, d))
    } else {
        (dir_wall(p, d), p)
    }
}

/// The canonical form of the edge a carve step opens between the wall slot
/// and the newly carved room.
pub open spec fn carve_edge_b(p: (int, int, int), d: int) -> (
    (int, int, int),
    (int, int, int),
) {
    if d < 3 {
        (dir_wall(p, d), dir_target(p, d))
    } else {
        (dir_target(p, d), dir_wall(p, d))
    }
}

/// What one carve step does to the carved nodes and edges: the wall slot
/// and the target room join the nodes, exactly the two canonical edges join
/// the edges, and nothing that was traversable stops being traversable.
proof fn lemma_carve_edges(
    m0: Map<(int, int, int), MazeCell>,
    m2: Map<(int, int, int), MazeCell>,
    n: int,
    p: (int, int, int),
    d: int,
)
    requires
        0 <= d < 6,
        node_ok(m0, n, p),
        boundary_walled(m0, n),
        lattice_walls(m0, n),
        walls_joined(m0, n),
        dir_open(m0, n, p, d),
        !on_boundary(n, dir_target(p, d)),
        m2 == m0.insert(dir_target(p, d), MazeCell::Cell).insert(dir_wall(p, d), MazeCell::Cell),
    ensures
        !m0[dir_wall(p, d)].traversable(),
        !m0[dir_target(p, d)].traversable(),
        forall|q: (int, int, int)|
            in_grid(n, q) && (#[trigger] m0[q]).traversable() ==> m2[q].traversable(),
        edge_of(m2, n, carve_edge_a(p, d)),
        edge_of(m2, n, carve_edge_b(p, d)),
        !edge_of(m0, n, carve_edge_a(p, d)),
        !edge_of(m0, n, carve_edge_b(p, d)),
        carve_edge_a(p, d) != carve_edge_b(p, d),
        forall|e: ((int, int, int), (int, int, int))|
            edge_of(m2, n, e) && !(#[trigger] edge_of(m0, n, e)) ==> e == carve_edge_a(p, d) || e
                == carve_edge_b(p, d),
        walls_joined(m2, n),
{
    lemma_dir_step(n, p, d);
    let t = dir_target(p, d);
    let w = dir_wall(p, d);
    assert(!m0[w].traversable()) by {
        if m0[w].traversable() {
            assert(m0[t].traversable());
        }
    }
    assert forall|e: ((int, int, int), (int, int, int))|
        edge_of(m2, n, e) && !(#[trigger] edge_of(m0, n, e)) implies e == carve_edge_a(p, d) || e
        == carve_edge_b(p, d) by {
        let (ep, eq) = e;
        if ep != w && ep != t && eq != w && eq != t {
            assert(m2[ep] == m0[ep] && m2[eq] == m0[eq]);
            assert(false);
        } else if ep == w || eq == w {
            let r = if ep == w {
                eq
            } else {
                ep
            };
            if r != p && r != t {
                assert(even_count(r) >= 2);
                assert(r != w);
                assert(m2[r] == m0[r]);
                if on_boundary(n, r) {
                    assert(m0[r] == MazeCell::OuterWall);
                } else {
                    assert(m0[r] == MazeCell::Wall);
                }
                assert(false);
            }
        } else {
            let s = if ep == t {
                eq
            } else {
                ep
            };
            assert(s != w && s != t);
            assert(m2[s] == m0[s]);
            assert(even_count(s) == 1);
            if on_boundary(n, s) {
                assert(m0[s] == MazeCell::OuterWall);
                assert(false);
            } else {
                assert(m0[s].traversable());
                assert(wall_ends(s).0 == t || wall_ends(s).1 == t);
                assert(m0[t].traversable());
                assert(false);
            }
        }
    }
    assert forall|q: (int, int, int)|
        in_grid(n, q) && !on_boundary(n, q) && even_count(q) == 1 && (
        #[trigger] m2[q]).traversable() implies in_grid(n, wall_ends(q).0) && in_grid(
        n,
        wall_ends(q).1,
    ) && m2[wall_ends(q).0].traversable() && m2[wall_ends(q).1].traversable() by {
        if q == w {
            assert(m2[p].traversable());
            assert(m2[t].traversable());
        } else {
            assert(q != t);
            assert(m0[q].traversable());
            assert(m0[wall_ends(q).0].traversable() && m0[wall_ends(q).1].traversable());
        }
    }
}

/// An all-odd interior position: one of the maze's carveable rooms.
pub open spec fn is_room(n: int, p: (int, int, int)) -> bool {
    in_grid(n, p) && !on_boundary(n, p) && even_count(p) == 0
}

/// Nothing can be carved from `p`: every room two units away is off the
/// grid or no longer unvisited.
pub open spec fn room_closed(m: Map<(int, int, int), MazeCell>, n: int, p: (int, int, int)) -> bool {
    forall|d: int| 0 <= d < 6 ==> !(#[trigger] dir_open(m, n, p, d))
}

/// Whether the frontier stack holds position `p`.
pub open spec fn stack_has(s: Seq<(usize, usize, usize)>, p: (int, int, int)) -> bool {
    exists|i: int| 0 <= i < s.len() && int3(#[trigger] s[i]) == p
}

/// Every carved room that has left the frontier stack is closed: a room is
/// popped only when nothing can be carved from it, and closedness is stable
/// because the set of unvisited rooms only shrinks.
pub open spec fn dead_rooms_closed(
    m: Map<(int, int, int), MazeCell>,
    n: int,
    s: Seq<(usize, usize, usize)>,
) -> bool {
    forall|q: (int, int, int)|
        is_room(n, q) && (#[trigger] m[q]).traversable() && !stack_has(s, q) ==> room_closed(
            m,
            n,
            q,
        )
}

/// The rooms form a connected lattice: when the start room is carved and
/// every carved room is closed, walking toward the start two units at a
/// time shows by induction that every room is carved.
proof fn lemma_rooms_carved(m: Map<(int, int, int), MazeCell>, n: int, u: (int, int, int))
    requires
        5 <= n,
        lattice_walls(m, n),
        m[(1int, 1int, 1int)].traversable(),
        forall|q: (int, int, int)|
            is_room(n, q) && (#[trigger] m[q]).traversable() ==> room_closed(m, n, q),
        is_room(n, u),
    ensures
        m[u].traversable(),
    decreases u.0 + u.1 + u.2,
{
    if u != (1int, 1int, 1int) {
        if u.0 > 1 {
            let v = (u.0 - 2, u.1, u.2);
            assert(is_room(n, v));
            lemma_rooms_carved(m, n, v);
            assert(!dir_open(m, n, v, 0));
            assert(dir_target(v, 0) == u);
            assert(m[u] != MazeCell::Unvisited);
            assert(lattice_cell_ok(m[u], u));
        } else if u.1 > 1 {
            let v = (u.0, u.1 - 2, u.2);
            assert(is_room(n, v));
            lemma_rooms_carved(m, n, v);
            assert(!dir_open(m, n, v, 1));
            assert(dir_target(v, 1) == u);
            assert(m[u] != MazeCell::Unvisited);
            assert(lattice_cell_ok(m[u], u));
        } else {
            let v = (u.0, u.1, u.2 - 2);
            assert(u.2 > 1);
            assert(is_room(n, v));
            lemma_rooms_carved(m, n, v);
            assert(!dir_open(m, n, v, 2));
            assert(dir_target(v, 2) == u);
            assert(m[u] != MazeCell::Unvisited);
            assert(lattice_cell_ok(m[u], u));
        }
    }
}

/// Properties an all-odd interior room must have to sit on the frontier
/// stack or the history: it lies strictly inside the grid and is already
/// carved open.
pub open spec fn node_ok(m: Map<(int, int, int), MazeCell>, n: int, p: (int, int, int)) -> bool {
    &&& in_grid(n, p)
    &&& !on_boundary(n, p)
    &&& even_count(p) == 0
    &&& m[p].traversable()
}

/// The set `unv` is exactly the positions still holding `Unvisited`.
pub open spec fn unv_ok(
    m: Map<(int, int, int), MazeCell>,
    n: int,
    unv: Set<(int, int, int)>,
) -> bool {
    &&& unv.finite()
    &&& forall|p: (int, int, int)|
        in_grid(n, p) ==> ((#[trigger] m[p]) == MazeCell::Unvisited <==> unv.contains(p))
    &&& forall|p: (int, int, int)|
        #[trigger] unv.contains(p) ==> in_grid(n, p) && !on_boundary(n, p) && even_count(p) == 0
}

pub open spec fn stack_ok(
    m: Map<(int, int, int), MazeCell>,
    n: int,
    s: Seq<(usize, usize, usize)>,
) -> bool {
    forall|i: int| 0 <= i < s.len() ==> node_ok(m, n, int3(#[trigger] s[i]))
}

/// The carve history starts with the start room and never returns to it.
pub open spec fn tot_ok(
    m: Map<(int, int, int), MazeCell>,
    n: int,
    s: Seq<(usize, usize, usize)>,
) -> bool {
    &&& s.len() >= 1
    &&& s[0] == (1usize, 1usize, 1usize)
    &&& forall|i: int| 0 <= i < s.len() ==> node_ok(m, n, int3(#[trigger] s[i]))
    &&& forall|i: int| 1 <= i < s.len() ==> int3(#[trigger] s[i]) != (1int, 1int, 1int)
}

/// Everything the main carving loop maintains.
pub open spec fn gen_inv(
    mz: Maze,
    n: int,
    unv: Set<(int, int, int)>,
    visited: Seq<(usize, usize, usize)>,
    tot: Seq<(usize, usize, usize)>,
) -> bool {
    &&& mz.wf()
    &&& mz.spec_side() == n
    &&& boundary_walled(mz@, n)
    &&& lattice_walls(mz@, n)
    &&& start_unique(mz@, n)
    &&& no_end(mz@, n)
    &&& unv_ok(mz@, n, unv)
    &&& all_reachable(mz@, n)
    &&& stack_ok(mz@, n, visited)
    &&& tot_ok(mz@, n, tot)
    &&& dead_rooms_closed(mz@, n, visited)
    &&& walls_joined(mz@, n)
    &&& carve_tree(mz@, n)
    &&& (tot.len() >= 2 || (visited =~= seq![(1usize, 1usize, 1usize)] && mz@[(
        3int,
        1int,
        1int,
    )] == MazeCell::Unvisited))
}

/// Whether the grid holds `Unvisited` at `(x, y, z)`; false when the
/// coordinates leave the grid.
fn unvisited_at(m: &Maze, x: usize, y: usize, z: usize) -> (r: bool)
    requires
        m.wf(),
    ensures
        r == (in_grid(m.spec_side(), (x as int, y as int, z as int)) && m@[(
            x as int,
            y as int,
            z as int,
        )] == MazeCell::Unvisited),
{
    x < m.side() && y < m.side() && z < m.side() && m.get(x, y, z) == MazeCell::Unvisited
}

/// Whether direction `d` can be carved from `p`.
fn dir_acceptable(m: &Maze, p: (usize, usize, usize), d: usize) -> (r: bool)
    requires
        m.wf(),
        m.spec_side() <= 0x8000_0000,
        in_grid(m.spec_side(), int3(p)),
        d < 6,
    ensures
        r == dir_open(m@, m.spec_side(), int3(p), d as int),
{
    let (x, y, z) = p;
    match d {
        0 => unvisited_at(m, x + 2, y, z),
        1 => unvisited_at(m, x, y + 2, z),
        2 => unvisited_at(m, x, y, z + 2),
        3 => x >= 2 && unvisited_at(m, x - 2, y, z),
        4 => y >= 2 && unvisited_at(m, x, y - 2, z),
        _ => z >= 2 && unvisited_at(m, x, y, z - 2),
    }
}

/// Stamp the static structure: boundary planes, interior walls, and the
/// all-odd rooms left `Unvisited`. Returns the set of room positions.
fn stamp_walls(m: &mut Maze, n: usize) -> (unv: Ghost<Set<(int, int, int)>>)
    requires
        old(m).wf(),
        old(m).spec_side() == n,
        5 <= n,
    ensures
        final(m).wf(),
        final(m).spec_side() == n,
        forall|p: (int, int, int)|
            in_grid(n as int, p) ==> #[trigger] final(m)@[p] == stamp_cell(n as int, p),
        unv@.finite(),
        forall|p: (int, int, int)|
            #[trigger] unv@.contains(p) <==> (in_grid(n as int, p) && !on_boundary(n as int, p)
                && even_count(p) == 0),
{
    let ghost mut unv: Set<(int, int, int)> = Set::empty();
    let mut x: usize = 0;
    while x < n
        invariant
            m.wf(),
            m.spec_side() == n,
            5 <= n,
            x <= n,
            unv.finite(),
            forall|p: (int, int, int)|
                in_grid(n as int, p) && lex3_before(p, (x as int, 0, 0)) ==> #[trigger] m@[p]
                    == stamp_cell(n as int, p),
            forall|p: (int, int, int)|
                #[trigger] unv.contains(p) <==> (in_grid(n as int, p) && lex3_before(
                    p,
                    (x as int, 0, 0),
                ) && !on_boundary(n as int, p) && even_count(p) == 0),
        decreases n - x,
    {
        let mut y: usize = 0;
        while y < n
            invariant
                m.wf(),
                m.spec_side() == n,
                5 <= n,
                x < n,
                y <= n,
                unv.finite(),
                forall|p: (int, int, int)|
                    in_grid(n as int, p) && lex3_before(p, (x as int, y as int, 0))
                        ==> #[trigger] m@[p] == stamp_cell(n as int, p),
                forall|p: (int, int, int)|
                    #[trigger] unv.contains(p) <==> (in_grid(n as int, p) && lex3_before(
                        p,
                        (x as int, y as int, 0),
                    ) && !on_boundary(n as int, p) && even_count(p) == 0),
            decreases n - y,
        {
            let mut z: usize = 0;
            while z < n
                invariant
                    m.wf(),
                    m.spec_side() == n,
                    5 <= n,
                    x < n,
                    y < n,
                    z <= n,
                    unv.finite(),
                    forall|p: (int, int, int)|
                        in_grid(n as int, p) && lex3_before(p, (x as int, y as int, z as int))
                            ==> #[trigger] m@[p] == stamp_cell(n as int, p),
                    forall|p: (int, int, int)|
                        #[trigger] unv.contains(p) <==> (in_grid(n as int, p) && lex3_before(
                            p,
                            (x as int, y as int, z as int),
                        ) && !on_boundary(n as int, p) && even_count(p) == 0),
                decreases n - z,
            {
                let boundary = x == 0 || x == n - 1 || y == 0 || y == n - 1 || z == 0 || z == n
                    - 1;
                let walled = x % 2 == 0 || y % 2 == 0 || z % 2 == 0;
                if boundary {
                    m.set(x, y, z, MazeCell::OuterWall);
                } else if walled {
                    m.set(x, y, z, MazeCell::Wall);
                } else {
                    m.set(x, y, z, MazeCell::Unvisited);
                    proof {
                        unv = unv.insert((x as int, y as int, z as int));
                    }
                }
                z = z + 1;
            }
            y = y + 1;
        }
        x = x + 1;
    }
    Ghost(unv)
}

/// Generate a maze of side `n`: stamp the static structure, carve from
/// (1, 1, 1) by randomized backtracking, then mark the last-carved room as
/// `End`.
#[verifier::rlimit(100)]
pub fn gen_maze_sized(n: usize) -> (m: Maze)
    requires
        5 <= n,
        n * n * n < 0x8000_0000,
    ensures
        m.wf(),
        m.spec_side() == n,
        maze_generated(m@, n as int),
{
    proof {
        assert(n <= 0x8000_0000) by (nonlinear_arith)
            requires
                5 <= n,
                n * n * n < 0x8000_0000,
        ;
    }
    let mut m = Maze::new_sized(n);
    let unv_init = stamp_walls(&mut m, n);
    let ghost mut unv: Set<(int, int, int)> = unv_init@;

    let pos0: (usize, usize, usize) = (1, 1, 1);
    m.set(1, 1, 1, MazeCell::Start);
    proof {
        unv = unv.remove((1int, 1int, 1int));
        crate::reach::lemma_reachable_self(m@, n as int, (1int, 1int, 1int));
    }

    let mut visited: Vec<(usize, usize, usize)> = Vec::new();
    let mut tot_visited: Vec<(usize, usize, usize)> = Vec::new();
    visited.push(pos0);
    tot_visited.push(pos0);

    proof {
        assert forall|p: (int, int, int)|
            in_grid(n as int, p) && (#[trigger] m@[p]).traversable() implies reachable(
            m@,
            n as int,
            (1int, 1int, 1int),
            p,
        ) by {
            assert(p == (1int, 1int, 1int));
        }
        assert(carved_nodes(m@, n as int) =~= Set::empty().insert((1int, 1int, 1int)));
        assert forall|e: ((int, int, int), (int, int, int))| !(#[trigger] edge_of(
            m@,
            n as int,
            e,
        )) by {
            if edge_of(m@, n as int, e) {
                assert(e.0 == (1int, 1int, 1int) && e.1 == (1int, 1int, 1int));
            }
        }
        assert(carved_edges(m@, n as int) =~= Set::<((int, int, int), (int, int, int))>::empty());
        assert forall|q: (int, int, int)|
            is_room(n as int, q) && (#[trigger] m@[q]).traversable() && !stack_has(visited@, q)
            implies room_closed(m@, n as int, q) by {
            assert(q == (1int, 1int, 1int));
            assert(int3(visited@[0]) == q);
            assert(stack_has(visited@, q));
        }
        assert(gen_inv(m, n as int, unv, visited@, tot_visited@));
    }

    loop
        invariant
            5 <= n,
            n <= 0x8000_0000,
            gen_inv(m, n as int, unv, visited@, tot_visited@),
        ensures
            visited@.len() == 0,
            gen_inv(m, n as int, unv, visited@, tot_visited@),
        decreases unv.len(), visited@.len(),
    {
        if visited.len() == 0 {
            break;
        }
        // the current room is the top of the frontier stack; it leaves the
        // stack only once nothing can be carved from it, so a room off the
        // stack is closed for good
        let pos = visited[visited.len() - 1];
        proof {
            assert(node_ok(m@, n as int, int3(pos)));
        }
        let a0 = dir_acceptable(&m, pos, 0);
        let a1 = dir_acceptable(&m, pos, 1);
        let a2 = dir_acceptable(&m, pos, 2);
        let a3 = dir_acceptable(&m, pos, 3);
        let a4 = dir_acceptable(&m, pos, 4);
        let a5 = dir_acceptable(&m, pos, 5);
        let has_open = a0 || a1 || a2 || a3 || a4 || a5;
        if !has_open {
            proof {
                assert forall|d: int| 0 <= d < 6 implies !dir_open(m@, n as int, int3(pos), d) by {
                    if d == 0 {
                        assert(!a0);
                    } else if d == 1 {
                        assert(!a1);
                    } else if d == 2 {
                        assert(!a2);
                    } else if d == 3 {
                        assert(!a3);
                    } else if d == 4 {
                        assert(!a4);
                    } else {
                        assert(!a5);
                    }
                }
                assert(room_closed(m@, n as int, int3(pos)));
                if tot_visited@.len() < 2 {
                    assert(dir_open(m@, n as int, int3(pos), 0));
                }
            }
            let ghost stack0 = visited@;
            visited.pop();
            proof {
                assert forall|q: (int, int, int)|
                    is_room(n as int, q) && (#[trigger] m@[q]).traversable() && !stack_has(
                    visited@,
                    q,
                ) implies room_closed(m@, n as int, q) by {
                    if stack_has(stack0, q) {
                        let i = choose|i: int| 0 <= i < stack0.len() && int3(stack0[i]) == q;
                        if i < stack0.len() - 1 {
                            assert(int3(visited@[i]) == q);
                            assert(stack_has(visited@, q));
                        }
                        assert(q == int3(pos));
                    }
                }
                assert(gen_inv(m, n as int, unv, visited@, tot_visited@));
            }
        } else {
            // redraw a random direction a bounded number of times, as the
            // carver prefers; if every draw was rejected, fall back to a
            // uniform draw over the open directions, which leaves the
            // distribution over outcomes unchanged
            let mut dir: usize = 6;
            let mut tries: usize = 0;
            while tries < 16 && dir == 6
                invariant
                    m.wf(),
                    m.spec_side() == n,
                    n <= 0x8000_0000,
                    in_grid(n as int, int3(pos)),
                    dir == 6 || (dir < 6 && dir_open(m@, n as int, int3(pos), dir as int)),
                    tries <= 16,
                decreases 16 - tries,
            {
                let d = rand_below(6);
                if dir_acceptable(&m, pos, d) {
                    dir = d;
                }
                tries = tries + 1;
            }
            if dir == 6 {
                let mut open_dirs: Vec<usize> = Vec::new();
                let mut d: usize = 0;
                while d < 6
                    invariant
                        m.wf(),
                        m.spec_side() == n,
                        n <= 0x8000_0000,
                        in_grid(n as int, int3(pos)),
                        d <= 6,
                        forall|j: int|
                            0 <= j < open_dirs@.len() ==> (#[trigger] open_dirs@[j]) < 6
                                && dir_open(m@, n as int, int3(pos), open_dirs@[j] as int),
                        (exists|e: int|
                            0 <= e < d && dir_open(m@, n as int, int3(pos), e))
                            ==> open_dirs@.len() > 0,
                    decreases 6 - d,
                {
                    if dir_acceptable(&m, pos, d) {
                        open_dirs.push(d);
                    }
                    d = d + 1;
                }
                proof {
                    if a0 {
                        assert(dir_open(m@, n as int, int3(pos), 0));
                    } else if a1 {
                        assert(dir_open(m@, n as int, int3(pos), 1));
                    } else if a2 {
                        assert(dir_open(m@, n as int, int3(pos), 2));
                    } else if a3 {
                        assert(dir_open(m@, n as int, int3(pos), 3));
                    } else if a4 {
                        assert(dir_open(m@, n as int, int3(pos), 4));
                    } else {
                        assert(dir_open(m@, n as int, int3(pos), 5));
                    }
                }
                let i = rand_below(open_dirs.len());
                dir = open_dirs[i];
            }
            let (x, y, z) = pos;
            let (tx, ty, tz, wx, wy, wz) = match dir {
                0 => (x + 2, y, z, x + 1, y, z),
                1 => (x, y + 2, z, x, y + 1, z),
                2 => (x, y, z + 2, x, y, z + 1),
                3 => (x - 2, y, z, x - 1, y, z),
                4 => (x, y - 2, z, x, y - 1, z),
                _ => (x, y, z - 2, x, y, z - 1),
            };
            let ghost m0 = m@;
            let ghost posi = int3(pos);
            let ghost ti = dir_target(posi, dir as int);
            let ghost wi = dir_wall(posi, dir as int);
            proof {
                assert((tx as int, ty as int, tz as int) == ti);
                assert((wx as int, wy as int, wz as int) == wi);
                lemma_dir_step(n as int, posi, dir as int);
            }
            m.set(tx, ty, tz, MazeCell::Cell);
            m.set(wx, wy, wz, MazeCell::Cell);
            proof {
                unv = unv.remove(ti);
                let m2 = m@;
                let s = (1int, 1int, 1int);
                assert(node_ok(m0, n as int, posi));
                assert(reachable(m0, n as int, s, posi));
                // the two writes only make cells more traversable
                assert forall|p: (int, int, int)|
                    in_grid(n as int, p) && (#[trigger] m0[p]).traversable() implies
                    m2[p].traversable() by {}
                assert forall|p: (int, int, int)|
                    in_grid(n as int, p) && (#[trigger] m2[p]).traversable() implies reachable(
                    m2,
                    n as int,
                    s,
                    p,
                ) by {
                    if p == ti || p == wi {
                        crate::reach::lemma_reachable_mono(m0, m2, n as int, s, posi);
                        crate::reach::lemma_reachable_step(m2, n as int, s, posi, wi);
                        if p == ti {
                            crate::reach::lemma_reachable_step(m2, n as int, s, wi, ti);
                        }
                    } else {
                        assert(m0[p].traversable());
                        crate::reach::lemma_reachable_mono(m0, m2, n as int, s, p);
                    }
                }
                crate::reach::lemma_reachable_mono(m0, m2, n as int, s, posi);
                crate::reach::lemma_reachable_step(m2, n as int, s, posi, wi);
                crate::reach::lemma_reachable_step(m2, n as int, s, wi, ti);
                lemma_carve_edges(m0, m2, n as int, posi, dir as int);
                let nodes0 = carved_nodes(m0, n as int);
                let edges0 = carved_edges(m0, n as int);
                let ea = carve_edge_a(posi, dir as int);
                let eb = carve_edge_b(posi, dir as int);
                assert(carved_nodes(m2, n as int) =~= nodes0.insert(wi).insert(ti));
                assert(!nodes0.contains(wi) && !nodes0.contains(ti));
                assert(nodes0.insert(wi).len() == nodes0.len() + 1);
                assert(nodes0.insert(wi).insert(ti).len() == nodes0.len() + 2);
                assert forall|e: ((int, int, int), (int, int, int))|
                    carved_edges(m2, n as int).contains(e) <==> edges0.insert(ea).insert(
                    eb,
                ).contains(e) by {
                    if edge_of(m2, n as int, e) && !edge_of(m0, n as int, e) {
                        assert(e == ea || e == eb);
                    }
                    if edge_of(m0, n as int, e) {
                        assert(edge_of(m2, n as int, e));
                    }
                }
                assert(carved_edges(m2, n as int) =~= edges0.insert(ea).insert(eb));
                assert(!edges0.contains(ea) && !edges0.contains(eb));
                assert(edges0.insert(ea).len() == edges0.len() + 1);
                assert(edges0.insert(ea).insert(eb).len() == edges0.len() + 2);
                assert(carve_tree(m2, n as int));
            }
            let t: (usize, usize, usize) = (tx, ty, tz);
            let ghost stack0 = visited@;
            visited.push(t);
            tot_visited.push(t);
            proof {
                let m2 = m@;
                assert(stack_ok(m2, n as int, visited@));
                assert(tot_ok(m2, n as int, tot_visited@));
                assert(int3(visited@[visited@.len() - 1]) == ti);
                assert forall|q: (int, int, int)|
                    is_room(n as int, q) && (#[trigger] m2[q]).traversable() && !stack_has(
                    visited@,
                    q,
                ) implies room_closed(m2, n as int, q) by {
                    assert(q != ti) by {
                        if q == ti {
                            assert(stack_has(visited@, q));
                        }
                    }
                    assert(q != wi);
                    assert(m2[q] == m0[q]);
                    assert(!stack_has(stack0, q)) by {
                        if stack_has(stack0, q) {
                            let i = choose|i: int| 0 <= i < stack0.len() && int3(stack0[i]) == q;
                            assert(int3(visited@[i]) == q);
                            assert(stack_has(visited@, q));
                        }
                    }
                    assert(room_closed(m0, n as int, q));
                    assert forall|d: int| 0 <= d < 6 implies !dir_open(m2, n as int, q, d) by {
                        if dir_open(m2, n as int, q, d) {
                            let tg = dir_target(q, d);
                            assert(m2[tg] == MazeCell::Unvisited);
                            assert(tg != ti && tg != wi);
                            assert(m0[tg] == MazeCell::Unvisited);
                            assert(dir_open(m0, n as int, q, d));
                        }
                    }
                }
                assert(gen_inv(m, n as int, unv, visited@, tot_visited@));
            }
        }
    }

    let e = tot_visited.pop().unwrap();
    let ghost m2 = m@;
    let ghost ei = int3(e);
    proof {
        assert(node_ok(m2, n as int, ei));
        assert(ei != (1int, 1int, 1int));
        assert(m2[ei] == MazeCell::Cell);
        // the stack is empty, so every carved room is closed, and by
        // lattice connectivity every room is carved: the sentinel is gone
        assert forall|q: (int, int, int)|
            is_room(n as int, q) && (#[trigger] m2[q]).traversable() implies room_closed(
            m2,
            n as int,
            q,
        ) by {
            assert(!stack_has(visited@, q));
        }
        assert forall|p: (int, int, int)| in_grid(n as int, p) implies #[trigger] m2[p]
            != MazeCell::Unvisited by {
            if on_boundary(n as int, p) {
                assert(m2[p] == MazeCell::OuterWall);
            } else if even_count(p) == 0 {
                lemma_rooms_carved(m2, n as int, p);
            } else {
                assert(lattice_cell_ok(m2[p], p));
            }
        }
        assert(no_unvisited(m2, n as int));
    }
    m.set(e.0, e.1, e.2, MazeCell::End);
    proof {
        let m3 = m@;
        let s = (1int, 1int, 1int);
        assert forall|p: (int, int, int)|
            in_grid(n as int, p) && (#[trigger] m3[p]).traversable() implies reachable(
            m3,
            n as int,
            s,
            p,
        ) by {
            assert(m2[p].traversable());
            crate::reach::lemma_reachable_mono(m2, m3, n as int, s, p);
        }
        assert(in_grid(n as int, ei) && m3[ei] == MazeCell::End);
        assert forall|p: (int, int, int)|
            in_grid(n as int, p) && (#[trigger] m3[p]) == MazeCell::End implies p == ei by {
            if p != ei {
                assert(m2[p] != MazeCell::End);
            }
        }
        assert(end_unique(m3, n as int));
        assert forall|q: (int, int, int)| #[trigger] m3[q].traversable() == m2[q].traversable()
            by {
            if q != ei {
                assert(m3[q] == m2[q]);
            }
        }
        assert(carved_nodes(m3, n as int) =~= carved_nodes(m2, n as int));
        assert forall|e: ((int, int, int), (int, int, int))| #[trigger] edge_of(m3, n as int, e)
            == edge_of(m2, n as int, e) by {
            assert(m3[e.0].traversable() == m2[e.0].traversable());
            assert(m3[e.1].traversable() == m2[e.1].traversable());
        }
        assert(carved_edges(m3, n as int) =~= carved_edges(m2, n as int));
        assert forall|p: (int, int, int)| in_grid(n as int, p) implies #[trigger] m3[p]
            != MazeCell::Unvisited by {
            if p != ei {
                assert(m3[p] == m2[p]);
            }
        }
        assert(no_unvisited(m3, n as int));
        assert forall|q: (int, int, int)|
            in_grid(n as int, q) && !on_boundary(n as int, q) && even_count(q) == 1 && (
            #[trigger] m3[q]).traversable() implies in_grid(n as int, wall_ends(q).0) && in_grid(
            n as int,
            wall_ends(q).1,
        ) && m3[wall_ends(q).0].traversable() && m3[wall_ends(q).1].traversable() by {
            assert(m2[q].traversable());
            assert(m2[wall_ends(q).0].traversable() && m2[wall_ends(q).1].traversable());
        }
        assert(maze_generated(m3, n as int));
    }
    m
}

/// Generate a maze at the game's configured size.
pub fn gen_maze() -> (m: Maze)
    ensures
        m.wf(),
        m.spec_side() == MAZE_SIZE,
        maze_generated(m@, MAZE_SIZE as int),
{
    gen_maze_sized(MAZE_SIZE)
}

} // verus!
