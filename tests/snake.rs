use snake_astar::constants::{GRID_COLS, GRID_ROWS};
use snake_astar::food::Food;
use snake_astar::game::{first_free_cell, make_map, Session, GAMESTATE};
use snake_astar::snake::Snake;
use snake_astar::utils::{wrap, Block, Direction, Vector};

fn v(x: i32, y: i32) -> Vector {
    Vector { x, y }
}

#[test]
fn vector_manhattan_distance() {
    assert_eq!(v(-3, 4).manhattan_distance(), 7);
    assert_eq!(v(0, 0).manhattan_distance(), 0);
    assert_eq!(v(5, -2).manhattan_distance(), 7);
}

#[test]
fn block_new_is_free_and_unvisited() {
    let b = Block::new(3, 4);
    assert_eq!(b.pos, v(3, 4));
    assert_eq!(b.parent_pos, v(0, 0));
    assert!(!b.is_wall);
    assert!(!b.is_closed);
    assert_eq!(b.g_val, 0);
    assert_eq!(b.f_val, 0);
}

#[test]
fn direction_opposites() {
    assert_eq!(Direction::UP.opposite(), Direction::DOWN);
    assert_eq!(Direction::DOWN.opposite(), Direction::UP);
    assert_eq!(Direction::LEFT.opposite(), Direction::RIGHT);
    assert_eq!(Direction::RIGHT.opposite(), Direction::LEFT);
}

#[test]
fn wrap_one_step() {
    assert_eq!(wrap(-1, 10), 9);
    assert_eq!(wrap(10, 10), 0);
    assert_eq!(wrap(4, 10), 4);
}

#[test]
fn map_marks_walls_on_field_only() {
    let walls = vec![v(1, 2), v(-1, -1), v(3, 0)];
    let map = make_map(&walls, 4, 3);
    assert_eq!(map.len(), 3);
    for y in 0..3 {
        assert_eq!(map[y].len(), 4);
        for x in 0..4 {
            assert_eq!(map[y][x].pos, v(x as i32, y as i32));
            let expected = (x == 1 && y == 2) || (x == 3 && y == 0);
            assert_eq!(map[y][x].is_wall, expected);
        }
    }
}

#[test]
fn new_snake_heads_right_from_centre() {
    let s = Snake::new();
    assert_eq!(s.body, vec![v(32, 18)]);
    assert!(s.should_find_path());
    assert_eq!(s.score(), 0);
    assert_eq!(s.current_direction, Direction::RIGHT);
}

#[test]
fn set_path_and_should_find_path() {
    let mut s = Snake::new();
    s.set_path(vec![v(34, 18), v(33, 18)]);
    assert!(!s.should_find_path());
    s.set_path(Vec::new());
    assert!(s.should_find_path());
}

#[test]
fn direction_toward_neighbour() {
    let mut s = Snake::new();
    assert_eq!(s.get_direction(v(32, 17)), Direction::UP);
    assert_eq!(s.get_direction(v(32, 19)), Direction::DOWN);
    assert_eq!(s.get_direction(v(31, 18)), Direction::LEFT);
    assert_eq!(s.get_direction(v(33, 18)), Direction::RIGHT);
    assert_eq!(s.get_direction(v(0, 0)), Direction::RIGHT);
    s.body = vec![v(0, 0)];
    assert_eq!(s.get_direction(v(GRID_COLS - 1, 0)), Direction::LEFT);
    assert_eq!(s.get_direction(v(0, GRID_ROWS - 1)), Direction::UP);
}

#[test]
fn update_moves_and_follows_path() {
    let mut s = Snake::new();
    s.update(false);
    assert_eq!(s.body, vec![v(33, 18)]);
    s.set_path(vec![v(33, 16), v(33, 17)]);
    s.update(true);
    assert_eq!(s.body, vec![v(33, 17)]);
    assert_eq!(s.path, vec![v(33, 16)]);
    assert_eq!(s.current_direction, Direction::UP);
    s.update(true);
    assert_eq!(s.body, vec![v(33, 16)]);
    assert!(s.should_find_path());
}

#[test]
fn update_refuses_reversal() {
    let mut s = Snake::new();
    s.set_direction(Direction::LEFT);
    s.update(false);
    assert_eq!(s.current_direction, Direction::RIGHT);
    assert_eq!(s.body, vec![v(33, 18)]);
}

#[test]
fn update_wraps_at_edges() {
    let mut s = Snake::new();
    s.body = vec![v(GRID_COLS - 1, 5)];
    s.update(false);
    assert_eq!(s.body, vec![v(0, 5)]);
    s.set_direction(Direction::UP);
    s.body = vec![v(0, 0)];
    s.update(false);
    assert_eq!(s.body, vec![v(0, GRID_ROWS - 1)]);
}

#[test]
fn body_follows_head() {
    let mut s = Snake::new();
    s.grow();
    s.grow();
    assert_eq!(s.score(), 2);
    assert_eq!(s.body.len(), 3);
    s.update(false);
    assert_eq!(s.body, vec![v(33, 18), v(32, 18), v(-1, -1)]);
    s.update(false);
    assert_eq!(s.body, vec![v(34, 18), v(33, 18), v(32, 18)]);
}

#[test]
fn collisions() {
    let mut s = Snake::new();
    s.body = vec![v(5, 5), v(5, 6), v(6, 6)];
    assert!(s.check_collision_with_head(v(5, 5)));
    assert!(!s.check_collision_with_head(v(5, 6)));
    assert!(s.check_collision_with_snake(v(6, 6)));
    assert!(!s.check_collision_with_snake(v(7, 6)));
    assert!(!s.check_self_collision());
    s.body.push(v(5, 5));
    assert!(s.check_self_collision());
}

#[test]
fn food_lands_on_field() {
    let mut f = Food::new();
    for _ in 0..50 {
        assert!(f.position.x >= 0 && f.position.x < GRID_COLS);
        assert!(f.position.y >= 0 && f.position.y < GRID_ROWS);
        f.spawn();
    }
}

#[test]
fn first_free_cell_scans_rows() {
    assert_eq!(first_free_cell(&Vec::new()), Some(v(0, 0)));
    assert_eq!(first_free_cell(&vec![v(0, 0), v(1, 0)]), Some(v(2, 0)));
    let mut all = Vec::new();
    for y in 0..GRID_ROWS {
        for x in 0..GRID_COLS {
            all.push(v(x, y));
        }
    }
    assert_eq!(first_free_cell(&all), None);
}

#[test]
fn session_controls() {
    let mut g = Session::new();
    assert!(g.state == GAMESTATE::READY);
    g.steer(Direction::UP);
    assert_eq!(g.snake.direction, Direction::UP);
    g.snake.set_path(vec![v(1, 1)]);
    g.toggle_astar();
    assert!(g.astar);
    assert!(g.snake.should_find_path());
    g.steer(Direction::DOWN);
    assert_eq!(g.snake.direction, Direction::UP);
    g.quit();
    assert!(g.state == GAMESTATE::GAMEOVER);
}

#[test]
fn session_follows_path_to_food() {
    let mut g = Session::new();
    g.state = GAMESTATE::RUNNING;
    g.astar = true;
    g.food.position = v(35, 18);
    assert!(!g.update());
    assert_eq!(g.snake.body, vec![v(33, 18)]);
    assert_eq!(g.snake.path, vec![v(35, 18), v(34, 18)]);
    assert!(!g.update());
    assert!(!g.update());
    assert_eq!(g.snake.body[0], v(35, 18));
    assert_eq!(g.snake.score(), 1);
    assert_eq!(g.snake.body.len(), 2);
    assert!(g.food.position != v(35, 18));
    assert!(g.state == GAMESTATE::RUNNING);
}

#[test]
fn session_ends_without_path() {
    let mut g = Session::new();
    g.state = GAMESTATE::RUNNING;
    g.astar = true;
    g.snake.body = vec![v(10, 10), v(10, 11), v(10, 9), v(9, 10), v(11, 10)];
    g.food.position = v(40, 20);
    assert!(g.update());
    assert!(g.state == GAMESTATE::GAMEOVER);
}
