//! Trusted boundary around the outside crates: the `ndarray` backing store
//! that holds the grid's cells, and the `rand` draws that drive generation.

use vstd::prelude::*;

use crate::maze_base::MazeCell;

verus! {

/// Dense three-dimensional storage for cell states, backed by an
/// `ndarray::Array3`. Verus sees the store only through `grid_cells` and
/// `grid_side` and the trusted functions below.
#[verifier::external_body]
pub struct Grid3 {
    cells: ndarray::Array3<MazeCell>,
}

/// The cells a store holds, as a map from coordinates to states.
pub uninterp spec fn grid_cells(g: &Grid3) -> Map<(int, int, int), MazeCell>;

/// The side length a store was created with.
pub uninterp spec fn grid_side(g: &Grid3) -> int;

/// Relies on `ndarray::Array::from_elem`: an `n`-by-`n`-by-`n` array whose
/// every element is a copy of `elem` (it panics only when the element count
/// overflows `isize`, which the precondition rules out).
#[verifier::external_body]
pub(crate) fn grid_new(n: usize, elem: MazeCell) -> (g: Grid3)
    requires
        n * n * n < 0x8000_0000,
    ensures
        grid_side(&g) == n,
        forall|x: int, y: int, z: int|
            0 <= x < n && 0 <= y < n && 0 <= z < n ==> #[trigger] grid_cells(&g)[(x, y, z)]
                == elem,
{
    Grid3 { cells: ndarray::Array3::from_elem((n, n, n), elem) }
}

/// Relies on `ndarray`'s indexing (`Index<[usize; 3]>`): returns the element
/// stored at the given coordinates, which are in bounds by the precondition.
#[verifier::external_body]
pub(crate) fn grid_get(g: &Grid3, x: usize, y: usize, z: usize) -> (c: MazeCell)
    requires
        x < grid_side(g),
        y < grid_side(g),
        z < grid_side(g),
    ensures
        c == grid_cells(g)[(x as int, y as int, z as int)],
{
    g.cells[[x, y, z]]
}

/// Relies on `ndarray`'s mutable indexing (`IndexMut<[usize; 3]>`): replaces
/// the element stored at the given in-bounds coordinates and nothing else.
#[verifier::external_body]
pub(crate) fn grid_set(g: &mut Grid3, x: usize, y: usize, z: usize, c: MazeCell)
    requires
        x < grid_side(old(g)),
        y < grid_side(old(g)),
        z < grid_side(old(g)),
    ensures
        grid_side(final(g)) == grid_side(old(g)),
        grid_cells(final(g)) == grid_cells(old(g)).insert((x as int, y as int, z as int), c),
{
    g.cells[[x, y, z]] = c;
}

/// Relies on `rand::Rng::gen_range` on the thread-local generator: a draw
/// from the half-open range below `m`, which is non-empty by the
/// precondition. Nothing more is assumed of the draw.
#[verifier::external_body]
pub(crate) fn rand_below(m: usize) -> (r: usize)
    requires
        m > 0,
    ensures
        r < m,
{
    rand::Rng::gen_range(&mut rand::thread_rng(), 0..m)
}

} // verus!
