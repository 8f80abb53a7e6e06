use island_procgen::maze::Maze;
use island_procgen::num::isqrt;

fn open_neighbours(m: &Maze, x: usize, y: usize) -> Vec<(usize, usize)> {
    let mut out = Vec::new();
    if x + 1 < m.width() && !m.right_wall(x, y) {
        out.push((x + 1, y));
    }
    if x > 0 && !m.right_wall(x - 1, y) {
        out.push((x - 1, y));
    }
    if y + 1 < m.height() && !m.bottom_wall(x, y) {
        out.push((x, y + 1));
    }
    if y > 0 && !m.bottom_wall(x, y - 1) {
        out.push((x, y - 1));
    }
    out
}

fn reached_from_origin(m: &Maze) -> usize {
    let mut seen = vec![vec![false; m.width()]; m.height()];
    let mut stack = vec![(0usize, 0usize)];
    seen[0][0] = true;
    let mut count = 0;
    while let Some((x, y)) = stack.pop() {
        count += 1;
        for (nx, ny) in open_neighbours(m, x, y) {
            if !seen[ny][nx] {
                seen[ny][nx] = true;
                stack.push((nx, ny));
            }
        }
    }
    count
}

fn walls(m: &Maze) -> Vec<(bool, bool)> {
    let mut out = Vec::new();
    for y in 0..m.height() {
        for x in 0..m.width() {
            out.push((m.bottom_wall(x, y), m.right_wall(x, y)));
        }
    }
    out
}

#[test]
fn maze_dimensions_and_max_indices() {
    let m = Maze::new(5, 3, 42);
    assert_eq!(m.width(), 5);
    assert_eq!(m.height(), 3);
    assert_eq!(m.max_x_index(), 4);
    assert_eq!(m.max_y_index(), 2);
}

#[test]
fn maze_every_cell_reachable() {
    for &(w, h) in &[(1, 1), (2, 1), (1, 4), (5, 3), (10, 10), (17, 9)] {
        for seed in [0u32, 1, 7, 12345, u32::MAX] {
            let m = Maze::new(w, h, seed);
            assert_eq!(reached_from_origin(&m), w * h, "w={} h={} seed={}", w, h, seed);
        }
    }
}

#[test]
fn maze_is_a_tree() {
    let m = Maze::new(12, 8, 99);
    let mut open = 0;
    for (bottom, right) in walls(&m) {
        if !bottom {
            open += 1;
        }
        if !right {
            open += 1;
        }
    }
    assert_eq!(open, 12 * 8 - 1);
}

#[test]
fn maze_is_deterministic() {
    for seed in [3u32, 500, 99999] {
        let a = Maze::new(9, 7, seed);
        let b = Maze::new(9, 7, seed);
        assert_eq!(walls(&a), walls(&b));
    }
}

#[test]
fn maze_single_cell_keeps_walls() {
    let m = Maze::new(1, 1, 5);
    assert!(m.bottom_wall(0, 0));
    assert!(m.right_wall(0, 0));
}

#[test]
fn maze_two_cells_open_between() {
    let m = Maze::new(2, 1, 8);
    assert!(!m.right_wall(0, 0));
    assert!(m.bottom_wall(0, 0));
    assert!(m.right_wall(1, 0));
    assert!(m.bottom_wall(1, 0));
}

#[test]
fn maze_column_opens_downward() {
    let m = Maze::new(1, 3, 11);
    assert!(!m.bottom_wall(0, 0));
    assert!(!m.bottom_wall(0, 1));
    assert!(m.bottom_wall(0, 2));
}

#[test]
fn maze_seed_zero_first_step_goes_right() {
    // with seed 0 the index is always 0: the first candidate (left, right, up, down order) wins
    let m = Maze::new(3, 2, 0);
    assert!(!m.right_wall(0, 0));
    assert!(!m.right_wall(1, 0));
    assert!(!m.bottom_wall(2, 0));
    assert!(!m.right_wall(1, 1));
    assert!(!m.right_wall(0, 1));
    assert!(m.bottom_wall(0, 0));
    assert!(m.bottom_wall(1, 0));
}

#[test]
fn integer_square_roots() {
    assert_eq!(isqrt(0), 0);
    assert_eq!(isqrt(1), 1);
    assert_eq!(isqrt(15), 3);
    assert_eq!(isqrt(16), 4);
    assert_eq!(isqrt(17), 4);
    assert_eq!(isqrt(1_000_000_000_000), 1_000_000);
    assert_eq!(isqrt(u128::MAX), u64::MAX);
}
