use maze4d::{gen_maze, gen_maze_sized, Maze, MazeCell, MAZE_SIZE};

fn cells_of(mz: &Maze) -> Vec<Vec<Vec<MazeCell>>> {
    let n = mz.side();
    let mut g = Vec::new();
    for x in 0..n {
        let mut plane = Vec::new();
        for y in 0..n {
            let mut row = Vec::new();
            for z in 0..n {
                row.push(mz.get(x, y, z));
            }
            plane.push(row);
        }
        g.push(plane);
    }
    g
}

#[test]
fn no_4s() {
    let mz = gen_maze();
    for x in 0..MAZE_SIZE {
        for y in 0..MAZE_SIZE {
            for z in 0..MAZE_SIZE {
                if mz.get(x, y, z) == MazeCell::Unvisited {
                    panic!("Unvisited cell found");
                }
            }
        }
    }
}

#[test]
fn test_gen_start_end_unique() {
    let mz = gen_maze();
    let mut starts = Vec::new();
    let mut ends = Vec::new();
    for x in 0..MAZE_SIZE {
        for y in 0..MAZE_SIZE {
            for z in 0..MAZE_SIZE {
                match mz.get(x, y, z) {
                    MazeCell::Start => starts.push((x, y, z)),
                    MazeCell::End => ends.push((x, y, z)),
                    _ => {}
                }
            }
        }
    }
    assert_eq!(starts, vec![(1, 1, 1)]);
    assert_eq!(ends.len(), 1);
    assert_ne!(ends[0], (1, 1, 1));
}

#[test]
fn test_gen_boundary_is_outer_wall() {
    for n in [5usize, MAZE_SIZE, 9] {
        let mz = gen_maze_sized(n);
        for x in 0..n {
            for y in 0..n {
                for z in 0..n {
                    let boundary = x == 0 || x == n - 1 || y == 0 || y == n - 1 || z == 0 || z == n
                        - 1;
                    assert_eq!(mz.get(x, y, z) == MazeCell::OuterWall, boundary);
                }
            }
        }
    }
}

#[test]
fn test_gen_reachable_and_tree() {
    // every traversable cell is reachable from (1, 1, 1) by unit steps
    // through traversable cells, and the carved graph is a tree: the number
    // of adjacent traversable pairs is one less than the number of
    // traversable cells
    for n in [5usize, MAZE_SIZE, 9] {
        let mz = gen_maze_sized(n);
        let g = cells_of(&mz);
        let trav =
            |p: (usize, usize, usize)| g[p.0][p.1][p.2].is_traversable();
        let mut nodes = Vec::new();
        for x in 0..n {
            for y in 0..n {
                for z in 0..n {
                    assert_ne!(g[x][y][z], MazeCell::Unvisited);
                    if trav((x, y, z)) {
                        nodes.push((x, y, z));
                    }
                }
            }
        }
        let mut edges = 0usize;
        for &(x, y, z) in &nodes {
            if x + 1 < n && trav((x + 1, y, z)) {
                edges += 1;
            }
            if y + 1 < n && trav((x, y + 1, z)) {
                edges += 1;
            }
            if z + 1 < n && trav((x, y, z + 1)) {
                edges += 1;
            }
        }
        assert_eq!(edges, nodes.len() - 1);

        let mut seen = vec![vec![vec![false; n]; n]; n];
        let mut queue = std::collections::VecDeque::new();
        assert!(trav((1, 1, 1)));
        seen[1][1][1] = true;
        queue.push_back((1usize, 1usize, 1usize));
        let mut reached = 0usize;
        while let Some((x, y, z)) = queue.pop_front() {
            reached += 1;
            let mut cands = Vec::new();
            if x + 1 < n {
                cands.push((x + 1, y, z));
            }
            if x > 0 {
                cands.push((x - 1, y, z));
            }
            if y + 1 < n {
                cands.push((x, y + 1, z));
            }
            if y > 0 {
                cands.push((x, y - 1, z));
            }
            if z + 1 < n {
                cands.push((x, y, z + 1));
            }
            if z > 0 {
                cands.push((x, y, z - 1));
            }
            for q in cands {
                if trav(q) && !seen[q.0][q.1][q.2] {
                    seen[q.0][q.1][q.2] = true;
                    queue.push_back(q);
                }
            }
        }
        assert_eq!(reached, nodes.len());
    }
}

#[test]
fn test_gen_interior_parity() {
    // interior positions with two or more even coordinates stay walls;
    // one-even positions are walls or carved passages; every all-odd room
    // is carved: the start, the end or an open cell
    let mz = gen_maze();
    for x in 1..MAZE_SIZE - 1 {
        for y in 1..MAZE_SIZE - 1 {
            for z in 1..MAZE_SIZE - 1 {
                let evens = (x % 2 == 0) as u32 + (y % 2 == 0) as u32 + (z % 2 == 0) as u32;
                let c = mz.get(x, y, z);
                if evens >= 2 {
                    assert_eq!(c, MazeCell::Wall);
                } else if evens == 1 {
                    assert!(c == MazeCell::Wall || c == MazeCell::Cell);
                } else {
                    assert!(c == MazeCell::Start || c == MazeCell::End || c == MazeCell::Cell);
                }
            }
        }
    }
}

#[test]
fn test_end_pos_finds_end() {
    let mz = gen_maze();
    let (x, y, z) = mz.end_pos();
    assert_eq!(mz.get(x, y, z), MazeCell::End);
}
