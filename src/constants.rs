use vstd::prelude::*;

verus! {

pub const WIDTH: u32 = 1920;

pub const HEIGHT: u32 = 1080;

pub const SPEED: i32 = 1;

pub const SIZE: u32 = 30;

/// Number of columns of the playing field: `WIDTH / SIZE`.
pub const GRID_COLS: i32 = 64;

/// Number of rows of the playing field: `HEIGHT / SIZE`.
pub const GRID_ROWS: i32 = 36;

} // verus!
