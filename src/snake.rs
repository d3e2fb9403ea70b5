use vstd::prelude::*;
use crate::constants::{GRID_COLS, GRID_ROWS, SPEED};
use crate::utils::{opposite_spec, wrap, wrap_spec, Direction, Vector};

verus! {

/// The snake: its body from the head on, where it is heading, and the path
/// it follows when steered by the path finder.
pub struct Snake {
    pub body: Vec<Vector>,
    pub direction: Direction,
    pub current_direction: Direction,
    pub path: Vec<Vector>,
    pub score: u32,
}

/// Whether `p` lies on the playing field.
pub open spec fn on_field(p: Vector) -> bool {
    0 <= p.x < GRID_COLS && 0 <= p.y < GRID_ROWS
}

/// The cell one move from `p` in direction `d`, wrapped onto the field.
pub open spec fn moved(p: Vector, d: Direction) -> Vector {
    match d {
        Direction::UP => Vector { x: p.x, y: wrap_spec(p.y - SPEED, GRID_ROWS as int) as i32 },
        Direction::DOWN => Vector { x: p.x, y: wrap_spec(p.y + SPEED, GRID_ROWS as int) as i32 },
        Direction::LEFT => Vector { x: wrap_spec(p.x - SPEED, GRID_COLS as int) as i32, y: p.y },
        Direction::RIGHT => Vector { x: wrap_spec(p.x + SPEED, GRID_COLS as int) as i32, y: p.y },
    }
}

/// The direction that leads from `head` to `target`: up or down when they
/// share a column, left or right when they share a row, else `current`.
pub open spec fn direction_to(head: Vector, target: Vector, current: Direction) -> Direction {
    if head.x == target.x {
        if wrap_spec(head.y - 1, GRID_ROWS as int) == target.y {
            Direction::UP
        } else {
            Direction::DOWN
        }
    } else if head.y == target.y {
        if wrap_spec(head.x - 1, GRID_COLS as int) == target.x {
            Direction::LEFT
        } else {
            Direction::RIGHT
        }
    } else {
        current
    }
}

impl Snake {
    /// A snake has a head, and the head is on the field.
    pub open spec fn wf(&self) -> bool {
        self.body@.len() > 0 && on_field(self.body@[0])
    }

    /// A snake of one cell in the middle of the field, heading right.
    pub fn new() -> (r: Self)
        ensures
            r.wf(),
            r.body@ == seq![Vector { x: 32, y: 18 }],
            r.path@.len() == 0,
            r.direction == Direction::RIGHT,
            r.current_direction == Direction::RIGHT,
            r.score == 0,
    {
        Self {
            body: vec![Vector { x: 32, y: 18 }],
            direction: Direction::RIGHT,
            current_direction: Direction::RIGHT,
            path: Vec::new(),
            score: 0,
        }
    }

    /// Whether the path is used up, so that a new one is wanted.
    pub fn should_find_path(&self) -> (r: bool)
        ensures
            r == (self.path@.len() == 0),
    {
        self.path.len() == 0
    }

    /// Replaces the path to follow.
    pub fn set_path(&mut self, path: Vec<Vector>)
        ensures
            final(self).path@ == path@,
            final(self).body@ == old(self).body@,
            final(self).direction == old(self).direction,
            final(self).current_direction == old(self).current_direction,
            final(self).score == old(self).score,
    {
        self.path = path;
    }

    /// Asks the snake to turn to `direction` at its next move.
    pub fn set_direction(&mut self, direction: Direction)
        ensures
            final(self).direction == direction,
            final(self).body@ == old(self).body@,
            final(self).path@ == old(self).path@,
            final(self).current_direction == old(self).current_direction,
            final(self).score == old(self).score,
    {
        self.direction = direction;
    }

    /// Food eaten so far.
    pub fn score(&self) -> (r: u32)
        ensures
            r == self.score,
    {
        self.score
    }

    /// The direction that leads from the head toward the neighbouring cell
    /// `new_position`.
    pub fn get_direction(&self, new_position: Vector) -> (r: Direction)
        requires
            self.wf(),
        ensures
            r == direction_to(self.body@[0], new_position, self.current_direction),
    {
        let head = self.body[0];
        let mut direction = self.current_direction;
        if head.x == new_position.x {
            direction = if wrap(head.y - 1, GRID_ROWS) == new_position.y {
                Direction::UP
            } else {
                Direction::DOWN
            };
        } else if head.y == new_position.y {
            direction = if wrap(head.x - 1, GRID_COLS) == new_position.x {
                Direction::LEFT
            } else {
                Direction::RIGHT
            };
        }
        direction
    }

    /// Moves the snake one cell: each part takes the place of the one before
    /// it, and the head moves one cell in the current direction.
    fn update_body(&mut self)
        requires
            old(self).wf(),
        ensures
            final(self).wf(),
            final(self).body@ == seq![moved(old(self).body@[0], old(self).current_direction)]
                + old(self).body@.subrange(0, old(self).body@.len() - 1),
            final(self).path@ == old(self).path@,
            final(self).direction == old(self).direction,
            final(self).current_direction == old(self).current_direction,
            final(self).score == old(self).score,
    {
        let ghost b0 = self.body@;
        let n = self.body.len();
        let mut i: usize = n - 1;
        while i > 0
            invariant
                self.body@.len() == b0.len(),
                n == b0.len(),
                i < n,
                self.body@[0] == b0[0],
                forall|j: int| 0 <= j <= i ==> self.body@[j] == b0[j],
                forall|j: int| i < j < n ==> self.body@[j] == b0[j - 1],
                self.path@ == old(self).path@,
                self.direction == old(self).direction,
                self.current_direction == old(self).current_direction,
                self.score == old(self).score,
            decreases i,
        {
            let prev = self.body[i - 1];
            self.body.set(i, prev);
            i = i - 1;
        }
        let head = self.body[0];
        let new_head = match self.current_direction {
            Direction::UP => Vector { x: head.x, y: wrap(head.y - SPEED, GRID_ROWS) },
            Direction::DOWN => Vector { x: head.x, y: wrap(head.y + SPEED, GRID_ROWS) },
            Direction::LEFT => Vector { x: wrap(head.x - SPEED, GRID_COLS), y: head.y },
            Direction::RIGHT => Vector { x: wrap(head.x + SPEED, GRID_COLS), y: head.y },
        };
        self.body.set(0, new_head);
        assert(self.body@ =~= seq![moved(b0[0], self.current_direction)] + b0.subrange(
            0,
            b0.len() - 1,
        ));
    }

    /// One move. When `astar` is set, the snake heads for the last cell of
    /// its path, which it removes, or toward `(0, 0)` when the path is used
    /// up. It turns to the direction asked for unless that would reverse it,
    /// then moves.
    pub fn update(&mut self, astar: bool)
        requires
            old(self).wf(),
        ensures
            final(self).wf(),
            ({
                let p0 = old(self).path@;
                let target = if p0.len() > 0 { p0.last() } else { Vector { x: 0, y: 0 } };
                let asked = if astar {
                    direction_to(old(self).body@[0], target, old(self).current_direction)
                } else {
                    old(self).direction
                };
                let cur = if asked != opposite_spec(old(self).current_direction) {
                    asked
                } else {
                    old(self).current_direction
                };
                &&& final(self).direction == asked
                &&& final(self).current_direction == cur
                &&& final(self).body@ == seq![moved(old(self).body@[0], cur)]
                    + old(self).body@.subrange(0, old(self).body@.len() - 1)
                &&& final(self).path@ == if astar && p0.len() > 0 {
                    p0.drop_last()
                } else {
                    p0
                }
            }),
            final(self).score == old(self).score,
    {
        if astar {
            if let Some(pos) = self.path.pop() {
                self.direction = self.get_direction(pos);
            } else {
                self.direction = self.get_direction(Vector { x: 0, y: 0 });
            }
        }
        if self.direction != self.current_direction.opposite() {
            self.current_direction = self.direction;
        }
        self.update_body();
    }

    /// Whether the head is at `position`.
    pub fn check_collision_with_head(&self, position: Vector) -> (r: bool)
        requires
            self.body@.len() > 0,
        ensures
            r == (self.body@[0] == position),
    {
        self.body[0] == position
    }

    /// Whether any part of the snake is at `position`.
    pub fn check_collision_with_snake(&self, position: Vector) -> (r: bool)
        ensures
            r == self.body@.contains(position),
    {
        let mut i: usize = 0;
        while i < self.body.len()
            invariant
                i <= self.body@.len(),
                forall|j: int| 0 <= j < i ==> self.body@[j] != position,
            decreases self.body@.len() - i,
        {
            if self.body[i] == position {
                assert(self.body@[i as int] == position);
                return true;
            }
            i = i + 1;
        }
        false
    }

    /// Whether a part of the body other than the head is where the head is.
    pub fn check_self_collision(&self) -> (r: bool)
        requires
            self.body@.len() > 0,
        ensures
            r == exists|j: int| 1 <= j < self.body@.len() && #[trigger] self.body@[j] == self.body@[0],
    {
        let mut i: usize = 1;
        while i < self.body.len()
            invariant
                1 <= i <= self.body@.len(),
                forall|j: int| 1 <= j < i ==> #[trigger] self.body@[j] != self.body@[0],
            decreases self.body@.len() - i,
        {
            if self.check_collision_with_head(self.body[i]) {
                assert(self.body@[i as int] == self.body@[0]);
                return true;
            }
            i = i + 1;
        }
        false
    }

    /// Adds a part at the tail, which takes its place at the next move, and
    /// counts one more food eaten.
    pub fn grow(&mut self)
        requires
            old(self).score < u32::MAX,
        ensures
            final(self).body@ == old(self).body@.push(Vector { x: -1i32, y: -1i32 }),
            final(self).score == old(self).score + 1,
            final(self).path@ == old(self).path@,
            final(self).direction == old(self).direction,
            final(self).current_direction == old(self).current_direction,
    {
        self.body.push(Vector { x: -1i32, y: -1i32 });
        self.score = self.score + 1;
    }
}

} // verus!
