use std::collections::VecDeque;

use maze4d::{CurrentData, MazeAxis3, MazeCell, MoveDir, MAZE_SIZE};

/// Mirror of the controller's move rule: the grid position it probes and
/// the cursor it steps to, for the given axis and direction.
fn probe_and_step(
    pos: (usize, usize, usize),
    axis: MazeAxis3,
    dir: MoveDir,
) -> ((usize, usize, usize), (usize, usize, usize)) {
    let (x, y, z) = pos;
    let (u, v) = match axis {
        MazeAxis3::XY => (x, y),
        MazeAxis3::XZ => (x, z),
        MazeAxis3::YZ => (y, z),
    };
    let (cu, cv) = match dir {
        MoveDir::Left => (u - 1, v),
        MoveDir::Right => (u + 1, v),
        MoveDir::Up => (u, v - 1),
        MoveDir::Down => (u, v + 1),
    };
    let probe = match axis {
        MazeAxis3::XY => (z, cu, cv),
        MazeAxis3::XZ => (cu, y, cv),
        MazeAxis3::YZ => (cu, cv, x),
    };
    let step = match (axis, dir) {
        (MazeAxis3::XY, MoveDir::Left) => (x - 1, y, z),
        (MazeAxis3::XY, MoveDir::Right) => (x + 1, y, z),
        (MazeAxis3::XY, MoveDir::Up) => (x, y - 1, z),
        (MazeAxis3::XY, MoveDir::Down) => (x, y + 1, z),
        (MazeAxis3::XZ, MoveDir::Left) => (x - 1, y, z),
        (MazeAxis3::XZ, MoveDir::Right) => (x + 1, y, z),
        (MazeAxis3::XZ, MoveDir::Up) => (x, y, z - 1),
        (MazeAxis3::XZ, MoveDir::Down) => (x, y, z + 1),
        (MazeAxis3::YZ, MoveDir::Left) => (x, y - 1, z),
        (MazeAxis3::YZ, MoveDir::Right) => (x, y + 1, z),
        (MazeAxis3::YZ, MoveDir::Up) => (x, y, z - 1),
        (MazeAxis3::YZ, MoveDir::Down) => (x, y, z + 1),
    };
    (probe, step)
}

fn snapshot(c: &CurrentData) -> Vec<Vec<Vec<MazeCell>>> {
    let mz = c.current_maze();
    let n = mz.side();
    let mut g = Vec::new();
    for x in 0..n {
        let mut plane = Vec::new();
        for y in 0..n {
            let mut row = Vec::new();
            for z in 0..n {
                row.push(mz.get(x, y, z));
            }
            plane.push(row);
        }
        g.push(plane);
    }
    g
}

#[test]
fn test_new_game_initial_state() {
    let c = CurrentData::new();
    assert_eq!(c.score(), 0);
    assert_eq!(c.player_position(), (1, 1, 1));
    assert_eq!(c.current_axis(), MazeAxis3::XY);
    let (x, y, z) = c.end_position();
    assert_eq!(c.current_maze().get(x, y, z), MazeCell::End);
    assert_eq!(c.current_maze().get(1, 1, 1), MazeCell::Start);
}

#[test]
fn test_rotate_three_times_restores_state() {
    let mut c = CurrentData::new();
    let pos0 = c.player_position();
    let axis0 = c.current_axis();
    let score0 = c.score();
    c.handle_rotate();
    assert_eq!(c.player_position(), pos0);
    c.handle_rotate();
    assert_eq!(c.player_position(), pos0);
    c.handle_rotate();
    assert_eq!(c.player_position(), pos0);
    assert_eq!(c.current_axis(), axis0);
    assert_eq!(c.score(), score0);
}

#[test]
fn test_move_follows_slice_traversability() {
    // in every axis, a move steps exactly one coordinate by one when the
    // probed slice cell is traversable and leaves the cursor alone when it
    // is a wall
    let mut c = CurrentData::new();
    let g = snapshot(&c);
    let dirs = [MoveDir::Left, MoveDir::Right, MoveDir::Up, MoveDir::Down];
    for round in 0..12 {
        let pos = c.player_position();
        let axis = c.current_axis();
        let dir = dirs[round % 4];
        let (probe, step) = probe_and_step(pos, axis, dir);
        let expected = if g[probe.0][probe.1][probe.2].is_traversable() {
            step
        } else {
            pos
        };
        c.handle_move(dir);
        assert_eq!(c.player_position(), expected);
        if expected != pos {
            let d0 = (expected.0 as i64 - pos.0 as i64).abs();
            let d1 = (expected.1 as i64 - pos.1 as i64).abs();
            let d2 = (expected.2 as i64 - pos.2 as i64).abs();
            assert_eq!(d0 + d1 + d2, 1);
        }
        if round % 4 == 3 {
            c.handle_rotate();
        }
    }
}

#[test]
fn test_move_into_outer_wall_is_noop() {
    let mut c = CurrentData::new();
    // from the start cell, left and up probe the boundary plane
    c.handle_move(MoveDir::Left);
    assert_eq!(c.player_position(), (1, 1, 1));
    c.handle_move(MoveDir::Up);
    assert_eq!(c.player_position(), (1, 1, 1));
}

#[test]
fn test_check_win_away_from_end_is_noop() {
    let mut c = CurrentData::new();
    let end0 = c.end_position();
    c.check_win();
    assert_eq!(c.score(), 0);
    assert_eq!(c.player_position(), (1, 1, 1));
    assert_eq!(c.current_axis(), MazeAxis3::XY);
    assert_eq!(c.end_position(), end0);
}

#[test]
fn test_check_win_at_end_resets_and_scores() {
    // drive the controller to the end cell along a path found by searching
    // the game's own move rule, then check the win
    let mut attempts = 0;
    loop {
        attempts += 1;
        assert!(attempts <= 10, "no game led to the end cell");
        let mut c = CurrentData::new();
        let g = snapshot(&c);
        let n = MAZE_SIZE;
        let dirs = [MoveDir::Left, MoveDir::Right, MoveDir::Up, MoveDir::Down];

        // breadth-first search over (cursor, axis) states
        let idx = |p: (usize, usize, usize), a: usize| (p.0 * n + p.1) * n * 3 + p.2 * 3 + a;
        let axes = [MazeAxis3::XY, MazeAxis3::XZ, MazeAxis3::YZ];
        let start = ((1usize, 1usize, 1usize), 0usize);
        let mut parent: Vec<Option<(usize, Option<MoveDir>)>> = vec![None; n * n * n * 3];
        let mut seen = vec![false; n * n * n * 3];
        seen[idx(start.0, start.1)] = true;
        let mut queue = VecDeque::new();
        queue.push_back(start);
        let mut goal = None;
        while let Some((pos, a)) = queue.pop_front() {
            if g[pos.0][pos.1][pos.2] == MazeCell::End {
                goal = Some((pos, a));
                break;
            }
            let rot = (pos, (a + 1) % 3);
            if !seen[idx(rot.0, rot.1)] {
                seen[idx(rot.0, rot.1)] = true;
                parent[idx(rot.0, rot.1)] = Some((idx(pos, a), None));
                queue.push_back(rot);
            }
            for &dir in &dirs {
                let (probe, step) = probe_and_step(pos, axes[a], dir);
                if g[probe.0][probe.1][probe.2].is_traversable() {
                    let next = (step, a);
                    if !seen[idx(next.0, next.1)] {
                        seen[idx(next.0, next.1)] = true;
                        parent[idx(next.0, next.1)] = Some((idx(pos, a), Some(dir)));
                        queue.push_back(next);
                    }
                }
            }
        }
        let Some(goal) = goal else {
            continue;
        };

        // walk the parent chain back to the start to list the actions
        let mut actions: Vec<Option<MoveDir>> = Vec::new();
        let mut cur = idx(goal.0, goal.1);
        while let Some((prev, act)) = parent[cur] {
            actions.push(act);
            cur = prev;
        }
        actions.reverse();

        for act in actions {
            match act {
                Some(dir) => c.handle_move(dir),
                None => c.handle_rotate(),
            }
            c.check_win();
        }
        assert_eq!(c.score(), 1);
        assert_eq!(c.player_position(), (1, 1, 1));
        assert_eq!(c.current_axis(), MazeAxis3::XY);
        // the regenerated maze satisfies the generation invariants
        let mz = c.current_maze();
        assert_eq!(mz.get(1, 1, 1), MazeCell::Start);
        let (ex, ey, ez) = c.end_position();
        assert_eq!(mz.get(ex, ey, ez), MazeCell::End);
        let mut ends = 0;
        for x in 0..n {
            for y in 0..n {
                for z in 0..n {
                    if mz.get(x, y, z) == MazeCell::End {
                        ends += 1;
                    }
                    let boundary = x == 0 || x == n - 1 || y == 0 || y == n - 1 || z == 0
                        || z == n - 1;
                    assert_eq!(mz.get(x, y, z) == MazeCell::OuterWall, boundary);
                    assert_ne!(mz.get(x, y, z), MazeCell::Unvisited);
                }
            }
        }
        assert_eq!(ends, 1);
        return;
    }
}
