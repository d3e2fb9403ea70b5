use vstd::prelude::*;

verus! {

/// A cell coordinate: column `x`, row `y`.
#[derive(PartialEq, Eq, Structural, Hash, Clone, Copy, Debug)]
pub struct Vector {
    pub x: i32,
    pub y: i32,
}

/// Absolute value of an integer.
pub open spec fn abs_int(a: int) -> int {
    if a < 0 {
        -a
    } else {
        a
    }
}

impl Vector {
    /// Distance of this offset from the origin, without wrap-around.
    pub fn manhattan_distance(&self) -> (r: i32)
        requires
            self.x > i32::MIN,
            self.y > i32::MIN,
            abs_int(self.x as int) + abs_int(self.y as int) <= i32::MAX,
        ensures
            r == abs_int(self.x as int) + abs_int(self.y as int),
    {
        let ax: i32 = if self.x < 0 { -self.x } else { self.x };
        let ay: i32 = if self.y < 0 { -self.y } else { self.y };
        ax + ay
    }
}

/// One cell of the grid, with the search data that path finding keeps in it.
#[derive(PartialEq, Eq, Structural, Hash, Clone, Copy, Debug)]
pub struct Block {
    pub pos: Vector,
    pub parent_pos: Vector,
    pub is_closed: bool,
    pub is_wall: bool,
    pub g_val: u16,
    pub f_val: u16,
}

impl Block {
    /// A free, unvisited cell at `(x, y)`.
    pub fn new(x: i32, y: i32) -> (r: Self)
        ensures
            r.pos == (Vector { x, y }),
            r.parent_pos == (Vector { x: 0, y: 0 }),
            !r.is_closed,
            !r.is_wall,
            r.g_val == 0,
            r.f_val == 0,
    {
        Self {
            pos: Vector { x, y },
            parent_pos: Vector { x: 0, y: 0 },
            is_closed: false,
            is_wall: false,
            g_val: 0,
            f_val: 0,
        }
    }
}

/// The occupancy grid, indexed `[y][x]`.
pub type Grid = Vec<Vec<Block>>;

/// A direction of movement on the grid.
#[derive(PartialEq, Eq, Structural, Clone, Copy, Debug)]
pub enum Direction {
    UP,
    DOWN,
    LEFT,
    RIGHT,
}

/// The direction that points the other way.
pub open spec fn opposite_spec(d: Direction) -> Direction {
    match d {
        Direction::UP => Direction::DOWN,
        Direction::DOWN => Direction::UP,
        Direction::LEFT => Direction::RIGHT,
        Direction::RIGHT => Direction::LEFT,
    }
}

impl Direction {
    /// The direction that points the other way.
    pub fn opposite(self) -> (r: Direction)
        ensures
            r == opposite_spec(self),
    {
        match self {
            Direction::UP => Direction::DOWN,
            Direction::DOWN => Direction::UP,
            Direction::LEFT => Direction::RIGHT,
            Direction::RIGHT => Direction::LEFT,
        }
    }
}

/// Wraps a coordinate that is at most one step outside `0..n` back into it.
pub open spec fn wrap_spec(a: int, n: int) -> int {
    if a < 0 {
        a + n
    } else if a >= n {
        a - n
    } else {
        a
    }
}

/// Wraps a coordinate that is at most one field length off the field.
pub fn wrap(x: i32, cols: i32) -> (r: i32)
    requires
        cols > 0,
        -cols <= x < 2 * cols,
    ensures
        r == wrap_spec(x as int, cols as int),
{
    if x < 0 {
        x + cols
    } else if x >= cols {
        x - cols
    } else {
        x
    }
}

} // verus!
