use vstd::prelude::*;
use crate::astar::{
    cell, cols_of, contains_position, find_path, grid_wf, in_bounds, is_blocked,
    is_route, reachable,
};
use crate::constants::{GRID_COLS, GRID_ROWS};
use crate::food::Food;
use crate::snake::{moved, on_field, Snake};
use crate::utils::{Block, Direction, Grid, Vector};

verus! {

/// The phase of a game.
#[derive(PartialEq, Eq, Structural, Clone, Copy, Debug)]
pub enum GAMESTATE {
    READY,
    RUNNING,
    GAMEOVER,
}

/// `g` is a grid of `cols` by `rows` cells whose obstacles are exactly the
/// cells of `walls`.
pub open spec fn blocked_by(g: Seq<Vec<Block>>, walls: Seq<Vector>, cols: int, rows: int) -> bool {
    &&& grid_wf(g)
    &&& g.len() == rows
    &&& cols_of(g) == cols
    &&& forall|p: Vector| in_bounds(p, cols, rows) ==> (#[trigger] is_blocked(g, p) <==> walls.contains(p))
}

/// A fresh grid of `cols` by `rows` cells, each unvisited, whose obstacles are
/// the cells of `walls` that lie on it.
pub fn make_map(walls: &Vec<Vector>, cols: usize, rows: usize) -> (r: Grid)
    requires
        cols > 0,
        rows > 0,
        rows * cols <= 32767,
    ensures
        blocked_by(r@, walls@, cols as int, rows as int),
        forall|p: Vector|
            in_bounds(p, cols as int, rows as int) ==> !(#[trigger] cell(r@, p)).is_closed
                && cell(r@, p).g_val == 0 && cell(r@, p).f_val == 0,
{
    assert(rows <= 32767 && cols <= 32767) by (nonlinear_arith)
        requires
            cols > 0,
            rows > 0,
            rows * cols <= 32767,
    ;
    let mut map: Grid = Vec::new();
    let mut y: usize = 0;
    while y < rows
        invariant
            y <= rows <= 32767,
            0 < cols <= 32767,
            map@.len() == y,
            forall|j: int| 0 <= j < y ==> (#[trigger] map@[j])@.len() == cols,
            forall|j: int, i: int|
                0 <= j < y && 0 <= i < cols ==> (#[trigger] map@[j]@[i]) == (Block {
                    pos: Vector { x: i as i32, y: j as i32 },
                    parent_pos: Vector { x: 0, y: 0 },
                    is_closed: false,
                    is_wall: walls@.contains(Vector { x: i as i32, y: j as i32 }),
                    g_val: 0,
                    f_val: 0,
                }),
        decreases rows - y,
    {
        let mut row: Vec<Block> = Vec::new();
        let mut x: usize = 0;
        while x < cols
            invariant
                x <= cols <= 32767,
                y < rows <= 32767,
                row@.len() == x,
                forall|i: int|
                    0 <= i < x ==> (#[trigger] row@[i]) == (Block {
                        pos: Vector { x: i as i32, y: y as i32 },
                        parent_pos: Vector { x: 0, y: 0 },
                        is_closed: false,
                        is_wall: walls@.contains(Vector { x: i as i32, y: y as i32 }),
                        g_val: 0,
                        f_val: 0,
                    }),
            decreases cols - x,
        {
            let mut b = Block::new(x as i32, y as i32);
            b.is_wall = contains_position(walls, b.pos);
            row.push(b);
            x = x + 1;
        }
        map.push(row);
        y = y + 1;
    }
    assert forall|p: Vector| in_bounds(p, cols as int, rows as int) implies (#[trigger] is_blocked(map@, p) <==> walls@.contains(p)) by {
        assert(map@[p.y as int]@[p.x as int].pos == p);
    }
    map
}

/// A route over one grid is a route over any grid with the same size and
/// obstacles.
proof fn lemma_route_transfer(
    g: Seq<Vec<Block>>,
    h: Seq<Vec<Block>>,
    walls: Seq<Vector>,
    cols: int,
    rows: int,
    start: Vector,
    dest: Vector,
    path: Seq<Vector>,
)
    requires
        blocked_by(g, walls, cols, rows),
        blocked_by(h, walls, cols, rows),
        is_route(g, start, dest, path),
    ensures
        is_route(h, start, dest, path),
{
    if path.len() > 0 {
        assert forall|i: int| 0 <= i < path.len() implies !is_blocked(h, #[trigger] path[i]) by {
            assert(in_bounds(path[i], cols, rows));
            assert(!is_blocked(g, path[i]));
        }
    }
}

/// Number of random draws for a new food position before the field is
/// searched for a free cell.
pub const FOOD_TRIES: usize = 64;

/// The first cell of the field, row by row, that no cell of `body` covers.
pub fn first_free_cell(body: &Vec<Vector>) -> (r: Option<Vector>)
    ensures
        match r {
            Some(p) => on_field(p) && !body@.contains(p),
            None => forall|p: Vector| on_field(p) ==> body@.contains(p),
        },
{
    let mut y: i32 = 0;
    while y < GRID_ROWS
        invariant
            0 <= y <= GRID_ROWS,
            forall|p: Vector| on_field(p) && p.y < y ==> body@.contains(p),
        decreases GRID_ROWS - y,
    {
        let mut x: i32 = 0;
        while x < GRID_COLS
            invariant
                0 <= x <= GRID_COLS,
                0 <= y < GRID_ROWS,
                forall|p: Vector| on_field(p) && (p.y < y || (p.y == y && p.x < x)) ==> body@.contains(p),
            decreases GRID_COLS - x,
        {
            let p = Vector { x, y };
            if !contains_position(body, p) {
                return Some(p);
            }
            x = x + 1;
        }
        y = y + 1;
    }
    None
}

/// Whether a part of `body` other than the head is where the head is.
pub open spec fn bites_itself(body: Seq<Vector>) -> bool {
    exists|j: int| 1 <= j < body.len() && #[trigger] body[j] == body[0]
}

/// The state of a game apart from its window: the phase, the snake, the food,
/// and whether the path finder steers.
pub struct Session {
    pub state: GAMESTATE,
    pub snake: Snake,
    pub food: Food,
    pub astar: bool,
}

impl Session {
    /// The snake has a head on the field, and the food is on the field.
    pub open spec fn wf(&self) -> bool {
        self.snake.wf() && on_field(self.food.position)
    }

    /// A game that has not started, steered by the player.
    pub fn new() -> (r: Self)
        ensures
            r.wf(),
            r.state == GAMESTATE::READY,
            r.snake.body@ == seq![Vector { x: 32, y: 18 }],
            r.snake.path@.len() == 0,
            r.snake.score == 0,
            !r.astar,
    {
        Session { state: GAMESTATE::READY, snake: Snake::new(), food: Food::new(), astar: false }
    }

    /// One tick of the game. When the path finder steers and the path is used
    /// up, a new path from the head to the food is searched over a grid whose
    /// obstacles are the snake's cells; if there is none, the game is over
    /// and the result is `true`. Then the snake moves. If its head reaches the
    /// food, the food moves off the snake, to a random cell or else the first
    /// free one, and the snake grows. If it bites itself, the game is over.
    pub fn update(&mut self) -> (no_path: bool)
        requires
            old(self).wf(),
        ensures
            final(self).wf(),
            final(self).astar == old(self).astar,
            no_path == (old(self).astar && old(self).snake.path@.len() == 0 && forall|g: Seq<Vec<Block>>|
                blocked_by(g, old(self).snake.body@, GRID_COLS as int, GRID_ROWS as int) ==> !reachable(
                    g,
                    old(self).snake.body@[0],
                    old(self).food.position,
                )),
            final(self).snake.body@[0] == moved(old(self).snake.body@[0], final(self).snake.current_direction),
            final(self).snake.body@.len() == old(self).snake.body@.len() || final(self).snake.body@.len() == old(self).snake.body@.len() + 1,
            final(self).snake.body@.len() == old(self).snake.body@.len() + 1 ==> final(self).snake.body@[0] == old(self).food.position,
            final(self).snake.body@[0] == old(self).food.position && old(self).snake.score < u32::MAX ==> final(self).snake.score == old(self).snake.score + 1,
            final(self).snake.body@[0] != old(self).food.position ==> final(self).snake.score == old(self).snake.score && final(self).food.position == old(self).food.position,
            final(self).state == if no_path || bites_itself(final(self).snake.body@) {
                GAMESTATE::GAMEOVER
            } else {
                old(self).state
            },
    {
        let mut no_path = false;
        if self.astar && self.snake.should_find_path() {
            let mut map = make_map(&self.snake.body, GRID_COLS as usize, GRID_ROWS as usize);
            let ghost g = map@;
            match find_path(&mut map, self.snake.body[0], self.food.position) {
                Some(path) => {
                    proof {
                        assert forall|h: Seq<Vec<Block>>| blocked_by(h, old(self).snake.body@, GRID_COLS as int, GRID_ROWS as int) implies reachable(h, old(self).snake.body@[0], old(self).food.position) by {
                            lemma_route_transfer(g, h, old(self).snake.body@, GRID_COLS as int, GRID_ROWS as int, old(self).snake.body@[0], old(self).food.position, path@);
                        }
                        assert(blocked_by(g, old(self).snake.body@, GRID_COLS as int, GRID_ROWS as int));
                    }
                    self.snake.set_path(path);
                },
                None => {
                    proof {
                        assert forall|h: Seq<Vec<Block>>| blocked_by(h, old(self).snake.body@, GRID_COLS as int, GRID_ROWS as int) implies !reachable(h, old(self).snake.body@[0], old(self).food.position) by {
                            if reachable(h, old(self).snake.body@[0], old(self).food.position) {
                                let path = choose|path: Seq<Vector>| is_route(h, old(self).snake.body@[0], old(self).food.position, path);
                                lemma_route_transfer(h, g, old(self).snake.body@, GRID_COLS as int, GRID_ROWS as int, old(self).snake.body@[0], old(self).food.position, path);
                            }
                        }
                    }
                    no_path = true;
                    self.state = GAMESTATE::GAMEOVER;
                },
            }
        }
        self.snake.update(self.astar);
        if self.snake.check_collision_with_head(self.food.position) {
            let ghost snake1 = self.snake;
            let ghost state1 = self.state;
            let mut tries: usize = 0;
            while tries < FOOD_TRIES && self.snake.check_collision_with_snake(self.food.position)
                invariant
                    self.snake == snake1,
                    self.snake.wf(),
                    self.state == state1,
                    self.astar == old(self).astar,
                    on_field(self.food.position),
                decreases FOOD_TRIES - tries,
            {
                self.food.spawn();
                tries = tries + 1;
            }
            if self.snake.check_collision_with_snake(self.food.position) {
                if let Some(p) = first_free_cell(&self.snake.body) {
                    self.food.position = p;
                }
            }
            if self.snake.score < u32::MAX {
                self.snake.grow();
            }
        }
        if self.snake.check_self_collision() {
            self.state = GAMESTATE::GAMEOVER;
        }
        no_path
    }

    /// Ends the game.
    pub fn quit(&mut self)
        ensures
            final(self).state == GAMESTATE::GAMEOVER,
            final(self).snake == old(self).snake,
            final(self).astar == old(self).astar,
            final(self).food.position == old(self).food.position,
    {
        self.state = GAMESTATE::GAMEOVER;
    }

    /// Hands steering to the path finder or back to the player, dropping the
    /// current path.
    pub fn toggle_astar(&mut self)
        ensures
            final(self).astar == !old(self).astar,
            final(self).snake.path@.len() == 0,
            final(self).snake.body@ == old(self).snake.body@,
            final(self).snake.direction == old(self).snake.direction,
            final(self).snake.current_direction == old(self).snake.current_direction,
            final(self).snake.score == old(self).snake.score,
            final(self).state == old(self).state,
            final(self).food.position == old(self).food.position,
    {
        self.snake.set_path(Vec::new());
        self.astar = !self.astar;
    }

    /// The player asks for `direction`; ignored while the path finder steers.
    pub fn steer(&mut self, direction: Direction)
        ensures
            final(self).snake.direction == if old(self).astar {
                old(self).snake.direction
            } else {
                direction
            },
            final(self).snake.body@ == old(self).snake.body@,
            final(self).snake.path@ == old(self).snake.path@,
            final(self).snake.current_direction == old(self).snake.current_direction,
            final(self).snake.score == old(self).snake.score,
            final(self).state == old(self).state,
            final(self).astar == old(self).astar,
            final(self).food.position == old(self).food.position,
    {
        if !self.astar {
            self.snake.set_direction(direction);
        }
    }
}

} // verus!
