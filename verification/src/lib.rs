//! A three-dimensional maze for a four-dimensional-feeling game: a cubic
//! grid of cell states, a randomized recursive-backtracking generator that
//! carves a connected maze into it, and a controller that exposes one
//! two-dimensional cross-section at a time and moves a cursor through it.

use vstd::prelude::*;

mod maze_base;
mod maze_controller;
mod maze_gen;
mod reach;
mod store;

pub use maze_base::{
    in_grid, int3, lex3_before, on_boundary, prefilled_cell, unslice, Maze, MazeAxis3, MazeCell,
    MazeSlice,
};
pub use maze_controller::{
    in_slice_coords, lemma_cycle_three_identity, lemma_moved_pos_adjacent,
    lemma_rotate_three_restores, move_coords, move_probe, moved_pos, pick_axis, rotate_step,
    spec_pick_axis, BaseData, CurrentData, MoveDir,
};
pub use maze_gen::{
    all_reachable, boundary_walled, carve_tree, carved_edges, carved_nodes, dir_open, dir_target,
    dir_wall, edge_of, end_unique, even_count, gen_maze, gen_maze_sized, is_room,
    lattice_cell_ok, lattice_walls, maze_generated, no_end, no_unvisited, node_ok, pos_step,
    room_closed, stamp_cell, start_unique, wall_ends, walls_joined,
};
pub use reach::{adjacent, is_path, reachable};

verus! {

/// The side length of the cubic maze used by the game.
pub const MAZE_SIZE: usize = 8;

} // verus!
