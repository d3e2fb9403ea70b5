use vstd::prelude::*;
use rand::rngs::ThreadRng;
use rand::Rng;
use crate::constants::{GRID_COLS, GRID_ROWS};
use crate::snake::on_field;
use crate::utils::Vector;

verus! {

#[verifier::external_type_specification]
#[verifier::external_body]
pub struct ExThreadRng(ThreadRng);

/// Relies on rand::thread_rng: a handle to the thread's random generator.
pub assume_specification[ rand::thread_rng ]() -> ThreadRng;

/// Relies on rand::Rng::gen_range: a value drawn from `0..n`. It panics on an
/// empty range, which `requires` leaves out.
#[verifier::external_body]
fn random_below(rng: &mut ThreadRng, n: i32) -> (r: i32)
    requires
        n > 0,
    ensures
        0 <= r < n,
{
    rng.gen_range(0..n)
}

/// The food, at a random cell of the field.
pub struct Food {
    pub position: Vector,
    pub rng: ThreadRng,
}

impl Food {
    /// Food at a random cell of the field.
    pub fn new() -> (r: Self)
        ensures
            on_field(r.position),
    {
        let mut rng = rand::thread_rng();
        let x = random_below(&mut rng, GRID_COLS);
        let y = random_below(&mut rng, GRID_ROWS);
        Self { position: Vector { x, y }, rng }
    }

    /// Moves the food to a random cell of the field.
    pub fn spawn(&mut self)
        ensures
            on_field(final(self).position),
    {
        self.position.x = random_below(&mut self.rng, GRID_COLS);
        self.position.y = random_below(&mut self.rng, GRID_ROWS);
    }
}

} // verus!
