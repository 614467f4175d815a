use maze4d::{Maze, MazeAxis3, MazeCell, MAZE_SIZE};

const MAZE_SIZE_2: usize = MAZE_SIZE * MAZE_SIZE;

#[test]
fn test_empty() {
    let mz = Maze::new_empty();
    assert_eq!(mz.side(), MAZE_SIZE);
    for x in 0..MAZE_SIZE {
        for y in 0..MAZE_SIZE {
            for z in 0..MAZE_SIZE {
                assert_eq!(mz.get(x, y, z), MazeCell::Unvisited);
            }
        }
    }
}

#[test]
fn test_empty_other_sizes() {
    for n in [5usize, 6, 9] {
        let mz = Maze::new_sized(n);
        assert_eq!(mz.side(), n);
        for x in 0..n {
            for y in 0..n {
                for z in 0..n {
                    assert_eq!(mz.get(x, y, z), MazeCell::Unvisited);
                }
            }
        }
    }
}

#[test]
fn test_make_slice_no_mut() {
    let mz = Maze::new_prefilled();
    let mz_view = mz.view_2_axis(MazeAxis3::XY, 1);

    let mut num = MAZE_SIZE_2;
    for a in 0..MAZE_SIZE {
        for b in 0..MAZE_SIZE {
            assert_eq!(mz_view.get(a, b), MazeCell::Test(num as u8));
            num += 1;
        }
    }
}

#[test]
fn test_cut_to_fit_nopanic() {
    let mz = Maze::new_prefilled();
    let mz_view = mz.view_2_axis(MazeAxis3::XY, 1);

    let cut = mz_view.cut_to_fit((0, 0), (1, 1));
    let expected = [
        MazeCell::Test(MAZE_SIZE_2 as u8),
        MazeCell::Test((MAZE_SIZE_2 + 1) as u8),
        MazeCell::Test((MAZE_SIZE_2 + MAZE_SIZE) as u8),
        MazeCell::Test((MAZE_SIZE_2 + MAZE_SIZE + 1) as u8),
    ];
    let mut i = 0;
    for a in 0..2 {
        for b in 0..2 {
            assert_eq!(cut.get(a, b), expected[i]);
            i += 1;
        }
    }

    let cut = mz_view.cut_to_fit((1, 1), (1, 1));
    let expected = [
        MazeCell::Test((MAZE_SIZE_2 + MAZE_SIZE + 1) as u8),
        MazeCell::Test((MAZE_SIZE_2 + MAZE_SIZE + 2) as u8),
        MazeCell::Test((MAZE_SIZE_2 + MAZE_SIZE * 2 + 1) as u8),
        MazeCell::Test((MAZE_SIZE_2 + MAZE_SIZE * 2 + 2) as u8),
    ];
    let mut i = 0;
    for a in 0..2 {
        for b in 0..2 {
            assert_eq!(cut.get(a, b), expected[i]);
            i += 1;
        }
    }

    let cut = mz_view.cut_to_fit((0, 0), (0, 0));
    assert_eq!(cut.dims(), (1, 1));
    assert_eq!(cut.get(0, 0), MazeCell::Test(MAZE_SIZE_2 as u8));

    let cut = mz_view.cut_to_fit((0, 0), (MAZE_SIZE - 1, MAZE_SIZE - 1));
    assert_eq!(cut.dims(), mz_view.dims());
    for a in 0..MAZE_SIZE {
        for b in 0..MAZE_SIZE {
            assert_eq!(cut.get(a, b), mz_view.get(a, b));
        }
    }
}

#[test]
fn test_slice_depths_and_axes() {
    // the prefilled cell at (x, y, z) is Test(x*64 + y*8 + z mod 256)
    let mz = Maze::new_prefilled();
    let v = mz.view_2_axis(MazeAxis3::XZ, 3);
    // XZ fixes the second coordinate: v[(a, b)] == grid[(a, 3, b)]
    assert_eq!(v.get(2, 5), MazeCell::Test((2 * MAZE_SIZE_2 + 3 * MAZE_SIZE + 5) as u8));
    let v = mz.view_2_axis(MazeAxis3::YZ, 4);
    // YZ fixes the third coordinate: v[(a, b)] == grid[(a, b, 4)]
    assert_eq!(v.get(1, 6), MazeCell::Test((MAZE_SIZE_2 + 6 * MAZE_SIZE + 4) as u8));
}

#[test]
fn test_find_none_and_first() {
    let mz = Maze::new_empty();
    assert_eq!(mz.find(MazeCell::End), None);
    assert_eq!(mz.find(MazeCell::Unvisited), Some((0, 0, 0)));

    let mz = Maze::new_prefilled();
    assert_eq!(mz.find(MazeCell::Test(9)), Some((0, 1, 1)));
    // values repeat after 256 cells; the first holder wins
    assert_eq!(mz.find(MazeCell::Test(0)), Some((0, 0, 0)));
}

#[test]
fn test_is_traversable() {
    assert!(MazeCell::Cell.is_traversable());
    assert!(MazeCell::Start.is_traversable());
    assert!(MazeCell::End.is_traversable());
    assert!(!MazeCell::Wall.is_traversable());
    assert!(!MazeCell::OuterWall.is_traversable());
    assert!(!MazeCell::Unvisited.is_traversable());
    assert!(!MazeCell::Test(1).is_traversable());
}

#[test]
fn test_axis_cycle_three_times() {
    let mut a = MazeAxis3::XY;
    a.cycle();
    assert_eq!(a, MazeAxis3::XZ);
    a.cycle();
    assert_eq!(a, MazeAxis3::YZ);
    a.cycle();
    assert_eq!(a, MazeAxis3::XY);
}
