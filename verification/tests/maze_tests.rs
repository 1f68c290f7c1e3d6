use arc_maze::maze::Maze;
use std::collections::VecDeque;

fn wall(m: &Maze, x: u32, y: u32, d: usize) -> bool {
    m.cells[(y * m.w + x) as usize].walls[d]
}

fn reachable_from(m: &Maze, start: (u32, u32)) -> usize {
    let mut seen = vec![false; (m.w * m.h) as usize];
    let mut q = VecDeque::new();
    seen[(start.1 * m.w + start.0) as usize] = true;
    q.push_back(start);
    let mut count = 1;
    while let Some((x, y)) = q.pop_front() {
        let steps: [(i64, i64); 4] = [(0, -1), (1, 0), (0, 1), (-1, 0)];
        for (d, (dx, dy)) in steps.iter().enumerate() {
            let nx = x as i64 + dx;
            let ny = y as i64 + dy;
            if nx < 0 || ny < 0 || nx >= m.w as i64 || ny >= m.h as i64 || wall(m, x, y, d) {
                continue;
            }
            let i = (ny as u32 * m.w + nx as u32) as usize;
            if !seen[i] {
                seen[i] = true;
                count += 1;
                q.push_back((nx as u32, ny as u32));
            }
        }
    }
    count
}

fn interior_passages(m: &Maze) -> usize {
    let mut n = 0;
    for y in 0..m.h {
        for x in 0..m.w {
            if x + 1 < m.w && !wall(m, x, y, 1) {
                n += 1;
            }
            if y + 1 < m.h && !wall(m, x, y, 2) {
                n += 1;
            }
        }
    }
    n
}

fn border_openings(m: &Maze) -> Vec<(u32, u32, usize)> {
    let mut v = Vec::new();
    for y in 0..m.h {
        for x in 0..m.w {
            if y == 0 && !wall(m, x, y, 0) {
                v.push((x, y, 0));
            }
            if x == m.w - 1 && !wall(m, x, y, 1) {
                v.push((x, y, 1));
            }
            if y == m.h - 1 && !wall(m, x, y, 2) {
                v.push((x, y, 2));
            }
            if x == 0 && !wall(m, x, y, 3) {
                v.push((x, y, 3));
            }
        }
    }
    v
}

#[test]
fn new_maze_has_every_wall() {
    let m = Maze::new(4, 3);
    assert_eq!(m.cells.len(), 12);
    assert!(m.cells.iter().all(|c| c.walls == [true, true, true, true]));
}

#[test]
fn generated_maze_is_playable() {
    for (w, h, seed) in [(10u32, 8u32, 42u64), (1, 1, 0), (1, 6, 9), (7, 1, 3), (23, 17, 0xDEAD_BEEF)] {
        let m = Maze::generate_with_three_exits(w, h, seed);
        assert_eq!((m.w, m.h), (w, h));
        assert_eq!(m.cells.len(), (w * h) as usize);
        // neighbours agree on the wall between them
        for y in 0..h {
            for x in 0..w {
                if x + 1 < w {
                    assert_eq!(wall(&m, x, y, 1), wall(&m, x + 1, y, 3));
                }
                if y + 1 < h {
                    assert_eq!(wall(&m, x, y, 2), wall(&m, x, y + 1, 0));
                }
            }
        }
        // every cell reachable
        assert_eq!(reachable_from(&m, (0, 0)), (w * h) as usize);
        // one exit on each of the north, east and south borders
        let exits = border_openings(&m);
        let dirs: Vec<usize> = exits.iter().map(|e| e.2).collect();
        assert_eq!(dirs.iter().filter(|d| **d == 0).count(), 1);
        assert_eq!(dirs.iter().filter(|d| **d == 1).count(), 1);
        assert_eq!(dirs.iter().filter(|d| **d == 2).count(), 1);
        assert_eq!(dirs.iter().filter(|d| **d == 3).count(), 0);
    }
}

#[test]
fn generated_maze_is_perfect() {
    for (w, h, seed) in [(10u32, 8u32, 42u64), (5, 5, 1), (30, 2, 77)] {
        let m = Maze::generate_with_three_exits(w, h, seed);
        assert_eq!(interior_passages(&m), (w * h - 1) as usize);
    }
}

#[test]
fn generation_is_deterministic_per_seed() {
    let a = Maze::generate_with_three_exits(12, 9, 5);
    let b = Maze::generate_with_three_exits(12, 9, 5);
    let walls_a: Vec<[bool; 4]> = a.cells.iter().map(|c| c.walls).collect();
    let walls_b: Vec<[bool; 4]> = b.cells.iter().map(|c| c.walls).collect();
    assert_eq!(walls_a, walls_b);
    let c = Maze::generate_with_three_exits(12, 9, 6);
    let walls_c: Vec<[bool; 4]> = c.cells.iter().map(|c| c.walls).collect();
    assert_ne!(walls_a, walls_c);
}
