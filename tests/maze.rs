use std::collections::HashSet;
use std::collections::VecDeque;

use rand::rngs::StdRng;
use rand::SeedableRng;
use yamaze::{Cell, Coord, Maze};

const STEPS: [(isize, isize); 4] = [(-1, 0), (0, 1), (1, 0), (0, -1)];

fn open_passages(maze: &Maze) -> usize {
    let mut n = 0;
    for cell in maze.cells() {
        for d in 0..4 {
            if !cell.walls[d] {
                n += 1;
            }
        }
    }
    n / 2
}

fn reached_through_passages(maze: &Maze, start: Coord) -> usize {
    let mut seen: HashSet<Coord> = HashSet::new();
    let mut queue = VecDeque::new();
    seen.insert(start);
    queue.push_back(start);
    while let Some(c) = queue.pop_front() {
        let cell = maze.get(c).unwrap();
        for d in 0..4 {
            if cell.walls[d] {
                continue;
            }
            let n = (c.0 + STEPS[d].0, c.1 + STEPS[d].1);
            if seen.insert(n) {
                queue.push_back(n);
            }
        }
    }
    seen.len()
}

fn annulus(dim: isize) -> impl Fn(Coord) -> bool {
    let outer = dim * dim;
    let inner = outer / 16;
    move |(r, c)| {
        let (r_off, c_off) = (r - dim, c - dim);
        let radius = r_off * r_off + c_off * c_off;
        radius < inner || radius > outer
    }
}

#[test]
fn test_complete() {
    let maze = Maze::new_rect(20, 20);
    for r in 0..20 {
        for c in 0..20 {
            assert!(maze.contains_key((r, c)));
        }
    }
}

#[test]
fn test_walls_consistent() {
    let maze = Maze::new_rect(20, 20);
    for r in 0..20 {
        assert!(maze.get((r, 0)).unwrap().walls[3]);
        assert!(maze.get((r, 19)).unwrap().walls[1]);
    }
    for c in 0..20 {
        assert!(maze.get((0, c)).unwrap().walls[0]);
        assert!(maze.get((19, c)).unwrap().walls[2]);
    }
    for r in 0..20 {
        for c in 0..19 {
            let cell_1 = maze.get((r, c)).unwrap();
            let cell_2 = maze.get((r, c + 1)).unwrap();
            let wall_1 = cell_1.walls[1];
            let wall_2 = cell_2.walls[3];
            assert_eq!(wall_1, wall_2);
        }
    }
    for c in 0..20 {
        for r in 0..19 {
            let cell_1 = maze.get((r, c)).unwrap();
            let cell_2 = maze.get((r + 1, c)).unwrap();
            let wall_1 = cell_1.walls[2];
            let wall_2 = cell_2.walls[0];
            assert_eq!(wall_1, wall_2);
        }
    }
}

#[test]
fn rect_twenty_is_a_spanning_tree() {
    let maze = Maze::new_rect(20, 20);
    assert_eq!(maze.cells().len(), 400);
    assert_eq!(open_passages(&maze), 399);
    assert_eq!(reached_through_passages(&maze, (0, 0)), 400);
    assert_eq!(maze.bbox(), Some(((0, 0), (20, 20))));
}

#[test]
fn rect_holds_nothing_outside() {
    let maze = Maze::new_rect(3, 5);
    assert_eq!(maze.cells().len(), 15);
    assert!(!maze.contains_key((3, 0)));
    assert!(!maze.contains_key((0, 5)));
    assert!(!maze.contains_key((-1, 0)));
    assert!(maze.get((0, -1)).is_none());
    assert_eq!(maze.bbox(), Some(((0, 0), (3, 5))));
}

#[test]
fn rect_single_row_is_a_corridor() {
    let maze = Maze::new_rect(1, 6);
    for c in 0..6 {
        let cell = maze.get((0, c)).unwrap();
        assert!(cell.walls[0] && cell.walls[2]);
        assert_eq!(cell.walls[1], c == 5);
        assert_eq!(cell.walls[3], c == 0);
    }
}

#[test]
fn rect_without_rows_keeps_the_origin() {
    let maze = Maze::new_rect(0, 5);
    assert_eq!(maze.cells().len(), 1);
    assert_eq!(maze.get((0, 0)), Some(Cell::new((0, 0))));
    assert_eq!(maze.bbox(), Some(((0, 0), (1, 1))));
}

#[test]
fn fully_clipped_domain_gives_one_cell() {
    let maze = Maze::new((4, -7), |_| true);
    assert_eq!(maze.cells().len(), 1);
    let cell = maze.get((4, -7)).unwrap();
    assert_eq!(cell.walls, [true; 4]);
    assert_eq!(maze.bbox(), Some(((4, -7), (1, 1))));
}

#[test]
fn annulus_domain_fidelity() {
    let dim: isize = 12;
    let clipped = annulus(dim);
    let start = (1, dim);
    let maze = Maze::new(start, annulus(dim));
    for cell in maze.cells() {
        assert!(cell.coord == start || !clipped(cell.coord));
    }
    // every unclipped coordinate reachable from the start is present
    let mut seen: HashSet<Coord> = HashSet::new();
    let mut queue = VecDeque::new();
    seen.insert(start);
    queue.push_back(start);
    while let Some(c) = queue.pop_front() {
        for (dr, dc) in STEPS {
            let n = (c.0 + dr, c.1 + dc);
            if !clipped(n) && seen.insert(n) {
                queue.push_back(n);
            }
        }
    }
    assert_eq!(seen.len(), maze.cells().len());
    for c in &seen {
        assert!(maze.contains_key(*c));
    }
    assert!(!maze.contains_key((dim, dim)));
    assert_eq!(open_passages(&maze), maze.cells().len() - 1);
    assert_eq!(reached_through_passages(&maze, start), maze.cells().len());
}

#[test]
fn bbox_matches_extremes() {
    let clipped = |(r, c): Coord| r < -3 || r > 2 || c < 10 || c > 13;
    let maze = Maze::new((0, 11), clipped);
    assert_eq!(maze.cells().len(), 24);
    assert_eq!(maze.bbox(), Some(((-3, 10), (6, 4))));
}

#[test]
fn same_seed_same_maze() {
    let mut a = StdRng::seed_from_u64(42);
    let mut b = StdRng::seed_from_u64(42);
    let m1 = Maze::new_rect_with_rng(15, 9, &mut a);
    let m2 = Maze::new_rect_with_rng(15, 9, &mut b);
    assert_eq!(m1.cells(), m2.cells());
    let mut c = StdRng::seed_from_u64(3);
    let mut d = StdRng::seed_from_u64(3);
    let m3 = Maze::new_with_rng((1, 12), annulus(12), &mut c);
    let m4 = Maze::new_with_rng((1, 12), annulus(12), &mut d);
    assert_eq!(m3.cells(), m4.cells());
}

#[test]
fn different_seeds_give_different_mazes() {
    let mut first = StdRng::seed_from_u64(0);
    let base = Maze::new_rect_with_rng(8, 8, &mut first);
    let mut differs = false;
    for seed in 1..20u64 {
        let mut rng = StdRng::seed_from_u64(seed);
        let other = Maze::new_rect_with_rng(8, 8, &mut rng);
        for cell in base.cells() {
            if other.get(cell.coord).unwrap().walls != cell.walls {
                differs = true;
            }
        }
    }
    assert!(differs);
}

#[test]
fn new_cell_is_fully_walled() {
    let cell = Cell::new((-2, 9));
    assert_eq!(cell.coord, (-2, 9));
    assert_eq!(cell.walls, [true, true, true, true]);
}
