//! Path finding for an agent that moves on a wrap-around grid, and the
//! snake game whose snake follows the paths it finds.

pub mod astar;
pub mod constants;
pub mod food;
pub mod game;
pub mod snake;
pub mod utils;
