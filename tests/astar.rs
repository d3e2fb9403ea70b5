use snake_astar::astar::{calc_herustic, find_path, get_neighbours, neighbour_with_min_f, step_position};
use snake_astar::game::make_map;
use snake_astar::utils::{Block, Grid, Vector};

fn v(x: i32, y: i32) -> Vector {
    Vector { x, y }
}

fn grid(cols: usize, rows: usize, walls: &[Vector]) -> Grid {
    make_map(&walls.to_vec(), cols, rows)
}

fn is_step(a: Vector, b: Vector, cols: i32, rows: i32) -> bool {
    let dx = (a.x - b.x).rem_euclid(cols);
    let dy = (a.y - b.y).rem_euclid(rows);
    (dy == 0 && (dx == 1 || dx == cols - 1)) || (dx == 0 && (dy == 1 || dy == rows - 1))
}

fn check_route(map: &Grid, start: Vector, dest: Vector, path: &[Vector]) {
    let rows = map.len() as i32;
    let cols = map[0].len() as i32;
    if path.is_empty() {
        assert_eq!(start, dest);
        return;
    }
    assert_eq!(path[0], dest);
    assert!(is_step(start, path[path.len() - 1], cols, rows));
    for i in 0..path.len() - 1 {
        assert!(is_step(path[i + 1], path[i], cols, rows));
    }
    for p in path {
        assert!(!map[p.y as usize][p.x as usize].is_wall);
    }
}

#[test]
fn heuristic_straight_and_wrapped() {
    assert_eq!(calc_herustic(v(0, 0), v(3, 0), 10, 10), 3);
    assert_eq!(calc_herustic(v(0, 0), v(9, 0), 10, 10), 1);
    assert_eq!(calc_herustic(v(1, 2), v(8, 9), 10, 10), 6);
    assert_eq!(calc_herustic(v(4, 4), v(4, 4), 10, 10), 0);
    assert_eq!(calc_herustic(v(0, 0), v(5, 5), 10, 10), 10);
    assert_eq!(calc_herustic(v(0, 0), v(32, 18), 64, 36), 50);
}

#[test]
fn heuristic_is_symmetric() {
    let pts = [v(0, 0), v(9, 9), v(3, 7), v(5, 0), v(2, 2)];
    for &a in &pts {
        for &b in &pts {
            assert_eq!(calc_herustic(a, b, 10, 10), calc_herustic(b, a, 10, 10));
        }
    }
}

#[test]
fn heuristic_never_exceeds_route_length() {
    let map = grid(10, 10, &[v(2, 0), v(2, 1), v(2, 2), v(2, 9), v(2, 8)]);
    let start = v(0, 1);
    let dest = v(4, 1);
    let path = find_path(&mut map.clone(), start, dest).unwrap();
    assert!(calc_herustic(start, dest, 10, 10) as usize <= path.len());
}

#[test]
fn wrap_around_adjacency() {
    assert_eq!(step_position(v(0, 4), 3, 10, 8), v(9, 4));
    assert_eq!(step_position(v(9, 4), 2, 10, 8), v(0, 4));
    assert_eq!(step_position(v(5, 0), 1, 10, 8), v(5, 7));
    assert_eq!(step_position(v(5, 7), 0, 10, 8), v(5, 0));
    assert_eq!(step_position(v(5, 3), 0, 10, 8), v(5, 4));
    assert_eq!(step_position(v(5, 3), 3, 10, 8), v(4, 3));
}

#[test]
fn neighbours_in_direction_order() {
    let map = grid(10, 10, &[]);
    let n: Vec<Vector> = get_neighbours(&map, v(0, 0)).iter().map(|b| b.pos).collect();
    assert_eq!(n, vec![v(0, 1), v(0, 9), v(1, 0), v(9, 0)]);
}

#[test]
fn neighbours_skip_blocked_cells() {
    let map = grid(10, 10, &[v(0, 1), v(9, 0)]);
    let n: Vec<Block> = get_neighbours(&map, v(0, 0));
    let pos: Vec<Vector> = n.iter().map(|b| b.pos).collect();
    assert_eq!(pos, vec![v(0, 9), v(1, 0)]);
    assert!(n.iter().all(|b| !b.is_wall));
}

#[test]
fn min_f_picks_first_smallest() {
    let mut map = grid(4, 4, &[]);
    map[0][1].f_val = 5;
    map[0][2].f_val = 2;
    map[0][3].f_val = 2;
    map[1][0].f_val = 7;
    let open = vec![v(1, 0), v(3, 0), v(2, 0), v(0, 1)];
    assert_eq!(neighbour_with_min_f(&map, &open), 1);
}

#[test]
fn straight_path_on_free_grid() {
    let mut map = grid(10, 10, &[]);
    let path = find_path(&mut map, v(0, 0), v(3, 0)).unwrap();
    assert_eq!(path.len(), 3);
    assert_eq!(path, vec![v(3, 0), v(2, 0), v(1, 0)]);
    let mut p = path.clone();
    assert_eq!(p.pop(), Some(v(1, 0)));
    assert_eq!(p.pop(), Some(v(2, 0)));
    assert_eq!(p.pop(), Some(v(3, 0)));
}

#[test]
fn wrapped_single_step_path() {
    let mut map = grid(10, 10, &[]);
    let path = find_path(&mut map, v(0, 0), v(9, 0)).unwrap();
    assert_eq!(path, vec![v(9, 0)]);
}

#[test]
fn blocked_destination_has_no_path() {
    let mut map = grid(10, 10, &[v(3, 0)]);
    assert_eq!(find_path(&mut map, v(0, 0), v(3, 0)), None);
}

#[test]
fn wall_separates_regions() {
    let mut walls = Vec::new();
    for y in 0..10 {
        walls.push(v(3, y));
        walls.push(v(7, y));
    }
    let mut map = grid(10, 10, &walls);
    assert_eq!(find_path(&mut map, v(0, 0), v(5, 5)), None);
    let mut map2 = grid(10, 10, &walls);
    let path = find_path(&mut map2, v(0, 0), v(9, 5)).unwrap();
    check_route(&grid(10, 10, &walls), v(0, 0), v(9, 5), &path);
}

#[test]
fn enclosed_destination_has_no_path() {
    let walls = [v(5, 4), v(5, 6), v(4, 5), v(6, 5)];
    let mut map = grid(10, 10, &walls);
    assert_eq!(find_path(&mut map, v(0, 0), v(5, 5)), None);
}

#[test]
fn same_cell_gives_empty_path() {
    let mut map = grid(10, 10, &[]);
    assert_eq!(find_path(&mut map, v(4, 6), v(4, 6)), Some(Vec::new()));
    let mut blocked = grid(10, 10, &[v(4, 6)]);
    assert_eq!(find_path(&mut blocked, v(4, 6), v(4, 6)), Some(Vec::new()));
}

#[test]
fn path_steps_are_valid_around_obstacles() {
    let walls = [v(2, 0), v(2, 1), v(2, 2), v(2, 3), v(2, 4), v(2, 5), v(2, 6), v(2, 7), v(2, 8)];
    let mut map = grid(10, 10, &walls);
    let before = map.clone();
    let path = find_path(&mut map, v(0, 0), v(4, 0)).unwrap();
    check_route(&before, v(0, 0), v(4, 0), &path);
    for y in 0..10 {
        for x in 0..10 {
            assert_eq!(map[y][x].pos, before[y][x].pos);
            assert_eq!(map[y][x].is_wall, before[y][x].is_wall);
        }
    }
}

#[test]
fn start_cell_may_be_blocked() {
    let mut map = grid(10, 10, &[v(0, 0), v(1, 0)]);
    let path = find_path(&mut map, v(0, 0), v(3, 0)).unwrap();
    check_route(&grid(10, 10, &[v(0, 0), v(1, 0)]), v(0, 0), v(3, 0), &path);
    assert_eq!(path.len(), 5);
}

#[test]
fn shortest_on_free_grid() {
    let pairs = [(v(0, 0), v(5, 5)), (v(2, 3), v(8, 9)), (v(9, 9), v(0, 0)), (v(1, 7), v(6, 2))];
    for &(a, b) in &pairs {
        let mut map = grid(10, 10, &[]);
        let path = find_path(&mut map, a, b).unwrap();
        check_route(&grid(10, 10, &[]), a, b, &path);
        assert_eq!(path.len() as i32, calc_herustic(a, b, 10, 10));
    }
    let mut big = grid(64, 36, &[]);
    let path = find_path(&mut big, v(32, 18), v(1, 30)).unwrap();
    assert_eq!(path.len() as i32, calc_herustic(v(32, 18), v(1, 30), 64, 36));
}

#[test]
fn search_over_stale_grid_data() {
    let mut map = grid(10, 10, &[]);
    let _ = find_path(&mut map, v(0, 0), v(5, 5));
    let path = find_path(&mut map, v(0, 0), v(3, 0)).unwrap();
    assert_eq!(path, vec![v(3, 0), v(2, 0), v(1, 0)]);
}

#[test]
fn single_row_grid() {
    let mut map = grid(5, 1, &[]);
    let path = find_path(&mut map, v(0, 0), v(3, 0)).unwrap();
    assert_eq!(path, vec![v(3, 0), v(4, 0)]);
}

#[test]
fn largest_grid() {
    let mut map = grid(32767, 1, &[]);
    let path = find_path(&mut map, v(0, 0), v(16000, 0)).unwrap();
    assert_eq!(path.len(), 16000);
    assert_eq!(path[0], v(16000, 0));
    assert_eq!(path[path.len() - 1], v(1, 0));
    let mut map2 = grid(32767, 1, &[]);
    let path2 = find_path(&mut map2, v(0, 0), v(20000, 0)).unwrap();
    assert_eq!(path2.len(), 12767);
    assert_eq!(path2[path2.len() - 1], v(32766, 0));
}
