use astar_grid::grid::{Grid, GridError};
use astar_grid::node::{Node, NodeStates};

fn coords(width: usize, i: u16) -> (i64, i64) {
    ((i as usize % width) as i64, (i as usize / width) as i64)
}

fn path_cost(width: usize, path: &[u16]) -> i64 {
    let mut cost = 0;
    for w in path.windows(2) {
        let (ax, ay) = coords(width, w[0]);
        let (bx, by) = coords(width, w[1]);
        assert!((ax - bx).abs() <= 1 && (ay - by).abs() <= 1);
        cost += if ax != bx && ay != by { 14 } else { 10 };
    }
    cost
}

fn grid(width: i32, height: i32, start: (i32, i32), end: (i32, i32)) -> Grid {
    let mut g = Grid::new(width, height);
    g.set_start(start.0, start.1).unwrap();
    g.set_end(end.0, end.1).unwrap();
    g
}

#[test]
fn heuristic_is_octile_distance() {
    let mut n = Node::new(0, 0, 0);
    n.set_h(Node::new(5, 3, 1));
    assert_eq!(n.h, 34);
    let mut m = Node::new(7, 4, 4);
    m.set_h(Node::new(0, 0, 0));
    assert_eq!(m.h, 56);
    assert_eq!(m.g, 0);
}

#[test]
fn cost_update_adds_step() {
    let mut parent = Node::new(0, 0, 0);
    parent.g = 20;
    let mut n = Node::new(1, 1, 1);
    n.set_h(Node::new(8, 2, 2));
    n.set_g_f(&parent, true);
    assert_eq!(n.g, 34);
    assert_eq!(n.f, 34 + 14);
    n.set_g_f(&parent, false);
    assert_eq!(n.g, 30);
    assert_eq!(n.f, 30 + 14);
}

#[test]
fn nodes_compare_by_index() {
    let mut a = Node::new(3, 0, 1);
    a.g = 99;
    let b = Node::new(3, 2, 2);
    assert!(a == b);
    assert!(Node::new(4, 0, 1) != b);
}

#[test]
fn state_codes() {
    assert_eq!(NodeStates::DEFAULT.code(), 0);
    assert_eq!(NodeStates::WALL.code(), 1);
    assert_eq!(NodeStates::START.code(), 2);
    assert_eq!(NodeStates::END.code(), 3);
    assert_eq!(NodeStates::PATH.code(), 4);
}

#[test]
fn new_grid_is_blank() {
    let g = Grid::new(4, 3);
    let states = g.nodes();
    assert_eq!(states.len(), 12);
    assert!(states.iter().all(|s| *s == NodeStates::DEFAULT));
    assert_eq!(g.get_path_count(), 0);
    assert!(g.get_path().is_empty());
}

#[test]
fn cells_are_laid_out_row_by_row() {
    let mut g = Grid::new(5, 2);
    g.set_start(3, 1).unwrap();
    g.set_end(1, 0).unwrap();
    let states = g.nodes();
    assert_eq!(states[8], NodeStates::START);
    assert_eq!(states[1], NodeStates::END);
    assert_eq!(states.iter().filter(|s| **s != NodeStates::DEFAULT).count(), 2);
}

#[test]
fn moving_start_and_end_clears_old_cells() {
    let mut g = grid(3, 3, (0, 0), (2, 2));
    g.set_start(1, 0).unwrap();
    g.set_end(0, 2).unwrap();
    let states = g.nodes();
    assert_eq!(states[0], NodeStates::DEFAULT);
    assert_eq!(states[8], NodeStates::DEFAULT);
    assert_eq!(states[1], NodeStates::START);
    assert_eq!(states[6], NodeStates::END);
}

#[test]
fn out_of_range_coordinates_are_refused() {
    let mut g = Grid::new(3, 2);
    let before = g.nodes();
    assert_eq!(g.set_start(-1, 0), Err(GridError::InvalidCoordinate));
    assert_eq!(g.set_end(0, 2), Err(GridError::InvalidCoordinate));
    assert_eq!(g.add_wall(3, 0), Err(GridError::InvalidCoordinate));
    assert_eq!(g.remove_wall(0, -5), Err(GridError::InvalidCoordinate));
    assert_eq!(g.nodes(), before);
    assert_eq!(g.set_start(2, 1), Ok(()));
}

#[test]
fn walls_do_not_replace_start_or_end() {
    let mut g = grid(3, 3, (0, 0), (2, 2));
    g.add_wall(0, 0).unwrap();
    g.add_wall(2, 2).unwrap();
    g.remove_wall(0, 0).unwrap();
    let states = g.nodes();
    assert_eq!(states[0], NodeStates::START);
    assert_eq!(states[8], NodeStates::END);
}

#[test]
fn diagonal_scenario() {
    let mut g = grid(3, 3, (0, 0), (2, 2));
    g.a_star();
    assert_eq!(g.get_path(), vec![0, 4, 8]);
    assert_eq!(g.get_path_count(), 3);
    assert_eq!(path_cost(3, &g.get_path()), 28);
    let states = g.nodes();
    assert_eq!(states[0], NodeStates::START);
    assert_eq!(states[4], NodeStates::PATH);
    assert_eq!(states[8], NodeStates::END);
}

#[test]
fn full_wall_column_leaves_no_path() {
    let mut g = grid(3, 3, (0, 0), (2, 0));
    g.add_wall(1, 0).unwrap();
    g.add_wall(1, 1).unwrap();
    g.add_wall(1, 2).unwrap();
    g.a_star();
    assert_eq!(g.get_path_count(), 0);
    assert!(!g.nodes().contains(&NodeStates::PATH));
}

#[test]
fn detour_around_partial_wall() {
    let mut g = grid(3, 3, (0, 0), (2, 0));
    g.add_wall(1, 0).unwrap();
    g.add_wall(1, 1).unwrap();
    g.a_star();
    let path = g.get_path();
    assert_eq!(path.len(), 5);
    assert_eq!(path_cost(3, &path), 48);
    assert_eq!(path, vec![0, 3, 7, 5, 2]);
}

#[test]
fn open_grid_path_is_octile_optimal() {
    for &(w, h, sx, sy, ex, ey) in &[(5, 4, 0, 0, 4, 2), (6, 6, 5, 0, 0, 5), (7, 3, 1, 2, 6, 0), (1, 5, 0, 0, 0, 4)] {
        let mut g = grid(w, h, (sx, sy), (ex, ey));
        g.a_star();
        let dx = ((sx - ex) as i64).abs();
        let dy = ((sy - ey) as i64).abs();
        let path = g.get_path();
        assert_eq!(path.len() as i64, dx.max(dy) + 1);
        assert_eq!(path_cost(w as usize, &path), 10 * dx.max(dy) + 4 * dx.min(dy));
        assert_eq!(path[0] as i32, sy * w + sx);
        assert_eq!(*path.last().unwrap() as i32, ey * w + ex);
    }
}

#[test]
fn search_twice_gives_same_path() {
    let mut g = grid(6, 5, (0, 4), (5, 0));
    g.add_wall(2, 1).unwrap();
    g.add_wall(2, 2).unwrap();
    g.add_wall(2, 3).unwrap();
    g.add_wall(3, 3).unwrap();
    g.a_star();
    let first = g.get_path();
    assert!(!first.is_empty());
    g.a_star();
    assert_eq!(g.get_path(), first);
}

#[test]
fn heuristic_never_exceeds_known_costs() {
    let mut g = grid(4, 4, (0, 0), (3, 3));
    g.a_star();
    let path = g.get_path();
    let total = path_cost(4, &path);
    assert_eq!(total, 42);
    let goal = Node::new(15, 3, 3);
    let mut remaining = total;
    for w in path.windows(2) {
        let (x, y) = coords(4, w[0]);
        let mut n = Node::new(w[0] as usize, x as i32, y as i32);
        n.set_h(goal);
        assert!(n.h as i64 <= remaining);
        let (bx, by) = coords(4, w[1]);
        remaining -= if x != bx && y != by { 14 } else { 10 };
    }
}

#[test]
fn severed_grid_gives_empty_path() {
    let mut g = grid(5, 5, (0, 0), (4, 4));
    for i in 0..5 {
        g.add_wall(i, 2).unwrap();
    }
    g.a_star();
    assert_eq!(g.get_path_count(), 0);
}

#[test]
fn start_equal_to_end_gives_one_cell() {
    let mut g = Grid::new(3, 3);
    g.set_start(1, 1).unwrap();
    g.set_end(1, 1).unwrap();
    g.a_star();
    assert_eq!(g.get_path(), vec![4]);
}

#[test]
fn wall_round_trip_restores_cell() {
    let mut g = grid(4, 4, (0, 0), (3, 3));
    let before = g.nodes();
    g.add_wall(2, 1).unwrap();
    assert_eq!(g.nodes()[6], NodeStates::WALL);
    g.remove_wall(2, 1).unwrap();
    assert_eq!(g.nodes(), before);
}

#[test]
fn clear_path_resets_only_path_cells() {
    let mut g = grid(5, 5, (0, 0), (4, 4));
    g.add_wall(2, 2).unwrap();
    g.add_wall(3, 1).unwrap();
    g.a_star();
    assert!(g.get_path_count() > 0);
    assert!(g.nodes().contains(&NodeStates::PATH));
    g.clear_path();
    let states = g.nodes();
    assert!(!states.contains(&NodeStates::PATH));
    assert_eq!(states[0], NodeStates::START);
    assert_eq!(states[24], NodeStates::END);
    assert_eq!(states[12], NodeStates::WALL);
    assert_eq!(states[8], NodeStates::WALL);
    assert_eq!(states.iter().filter(|s| **s == NodeStates::WALL).count(), 2);
}

#[test]
fn walls_can_be_drawn_over_path_cells() {
    let mut g = grid(3, 3, (0, 0), (2, 2));
    g.a_star();
    g.add_wall(1, 1).unwrap();
    assert_eq!(g.nodes()[4], NodeStates::WALL);
    g.a_star();
    let path = g.get_path();
    assert_eq!(path.len(), 4);
    assert_eq!(path_cost(3, &path), 34);
}

fn cheapest_cost(w: i32, h: i32, walls: &[(i32, i32)], start: (i32, i32), end: (i32, i32)) -> Option<i64> {
    let n = (w * h) as usize;
    let blocked = |x: i32, y: i32| walls.contains(&(x, y));
    let mut dist = vec![i64::MAX; n];
    let mut done = vec![false; n];
    dist[(start.1 * w + start.0) as usize] = 0;
    loop {
        let mut best: Option<usize> = None;
        for i in 0..n {
            if !done[i] && dist[i] != i64::MAX && best.map_or(true, |b| dist[i] < dist[b]) {
                best = Some(i);
            }
        }
        let Some(c) = best else { break };
        done[c] = true;
        let (cx, cy) = ((c as i32) % w, (c as i32) / w);
        for dy in -1..=1 {
            for dx in -1..=1 {
                let (x, y) = (cx + dx, cy + dy);
                if (dx, dy) == (0, 0) || x < 0 || y < 0 || x >= w || y >= h || blocked(x, y) {
                    continue;
                }
                let j = (y * w + x) as usize;
                let step = if dx != 0 && dy != 0 { 14 } else { 10 };
                if dist[c] + step < dist[j] {
                    dist[j] = dist[c] + step;
                }
            }
        }
    }
    let d = dist[(end.1 * w + end.0) as usize];
    if d == i64::MAX { None } else { Some(d) }
}

#[test]
fn walled_grids_get_cheapest_paths() {
    let cases: Vec<(i32, i32, Vec<(i32, i32)>, (i32, i32), (i32, i32))> = vec![
        (6, 5, vec![(2, 1), (2, 2), (2, 3), (3, 3)], (0, 4), (5, 0)),
        (7, 7, vec![(1, 0), (1, 1), (1, 2), (1, 3), (1, 4), (1, 5), (3, 6), (3, 5), (3, 4), (3, 3), (3, 2), (3, 1), (5, 0), (5, 1), (5, 2), (5, 3), (5, 4), (5, 5)], (0, 0), (6, 6)),
        (8, 4, vec![(4, 0), (4, 1), (4, 2), (2, 3), (6, 3), (6, 2)], (0, 0), (7, 3)),
        (5, 5, vec![(1, 1), (2, 1), (3, 1), (3, 2), (3, 3), (2, 3), (1, 3)], (2, 2), (4, 4)),
        (4, 4, vec![(0, 1), (1, 1), (1, 0)], (0, 0), (3, 3)),
    ];
    for (w, h, walls, s, e) in cases {
        let mut g = grid(w, h, s, e);
        for &(x, y) in &walls {
            g.add_wall(x, y).unwrap();
        }
        g.a_star();
        let path = g.get_path();
        match cheapest_cost(w, h, &walls, s, e) {
            Some(c) => {
                assert_eq!(path_cost(w as usize, &path), c);
                assert_eq!(path[0] as i32, s.1 * w + s.0);
                assert_eq!(*path.last().unwrap() as i32, e.1 * w + e.0);
                for &p in &path {
                    assert!(!walls.contains(&((p as i32) % w, (p as i32) / w)));
                }
            }
            None => assert!(path.is_empty()),
        }
    }
}

#[derive(Clone, Copy)]
struct Entry {
    idx: usize,
    g: i64,
    f: i64,
    parent: Option<usize>,
}

/// A search that, on finding a cheaper route to an open cell, updates its
/// `g` and parent but keeps the `f` it was opened with. Returns the cost of
/// the path it reports.
fn stale_f_search_cost(w: i32, h: i32, walls: &[(i32, i32)], start: (i32, i32), end: (i32, i32)) -> Option<i64> {
    let at = |x: i32, y: i32| (y * w + x) as usize;
    let octile = |i: usize| {
        let (x, y) = ((i as i32) % w, (i as i32) / w);
        let dx = ((x - end.0) as i64).abs();
        let dy = ((y - end.1) as i64).abs();
        10 * (dx + dy) - 6 * dx.min(dy)
    };
    let goal = at(end.0, end.1);
    let mut open = vec![Entry { idx: at(start.0, start.1), g: 0, f: 0, parent: None }];
    let mut closed: Vec<Entry> = Vec::new();
    while !open.is_empty() {
        open.sort_by(|a, b| a.f.cmp(&b.f));
        let cur = open.swap_remove(0);
        closed.push(cur);
        if cur.idx == goal {
            let mut path = vec![cur.idx as u16];
            let mut c = cur;
            while let Some(p) = c.parent {
                c = *closed.iter().find(|n| n.idx == p).unwrap();
                path.push(c.idx as u16);
            }
            path.reverse();
            return Some(path_cost(w as usize, &path));
        }
        let (cx, cy) = ((cur.idx as i32) % w, (cur.idx as i32) / w);
        for y in cy - 1..=cy + 1 {
            for x in cx - 1..=cx + 1 {
                if (x, y) == (cx, cy) || x < 0 || y < 0 || x >= w || y >= h || walls.contains(&(x, y)) {
                    continue;
                }
                let i = at(x, y);
                if closed.iter().any(|n| n.idx == i) {
                    continue;
                }
                let g = cur.g + if x != cx && y != cy { 14 } else { 10 };
                match open.iter_mut().find(|n| n.idx == i) {
                    Some(n) => {
                        if g < n.g {
                            n.g = g;
                            n.parent = Some(cur.idx);
                        }
                    }
                    None => open.push(Entry { idx: i, g, f: g + octile(i), parent: Some(cur.idx) }),
                }
            }
        }
    }
    None
}

#[test]
fn refreshed_f_keeps_paths_cheapest_where_stale_f_does_not() {
    let (w, h) = (7, 7);
    let mut seed: u64 = 12345;
    let mut distinguishing = 0;
    for _ in 0..1500 {
        let mut walls = Vec::new();
        for y in 0..h {
            for x in 0..w {
                seed = seed.wrapping_mul(6364136223846793005).wrapping_add(1442695040888963407);
                if (seed >> 33) % 100 < 30 && (x, y) != (0, 0) && (x, y) != (w - 1, h - 1) {
                    walls.push((x, y));
                }
            }
        }
        let best = cheapest_cost(w, h, &walls, (0, 0), (w - 1, h - 1));
        let mut g = grid(w, h, (0, 0), (w - 1, h - 1));
        for &(x, y) in &walls {
            g.add_wall(x, y).unwrap();
        }
        g.a_star();
        let path = g.get_path();
        match best {
            Some(c) => {
                assert_eq!(path_cost(w as usize, &path), c);
                if stale_f_search_cost(w, h, &walls, (0, 0), (w - 1, h - 1)).unwrap() > c {
                    distinguishing += 1;
                }
            }
            None => assert!(path.is_empty()),
        }
    }
    assert!(distinguishing > 0);
}

#[test]
fn neighbours_follow_scan_order_without_corner_cutting() {
    let mut g = Grid::new(3, 3);
    g.set_start(0, 0).unwrap();
    g.set_end(2, 2).unwrap();
    g.add_wall(0, 1).unwrap();
    g.add_wall(1, 0).unwrap();
    g.a_star();
    assert_eq!(g.get_path(), vec![0, 4, 8]);
    g.add_wall(1, 1).unwrap();
    g.a_star();
    assert_eq!(g.get_path_count(), 0);
}
