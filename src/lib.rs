//! Judge kernel for a grid puzzle in which contestants steer Pac-Man with
//! rule tables: rule matching, tick resolution, rate limiting, scoreboards
//! and the game registry that ties them together.
pub mod contract;
pub mod evaluator;
pub mod game;
pub mod kernel_laws;
pub mod rate_limiter;
pub mod scoreboard;
pub mod users;

pub use evaluator::evaluate_program;
pub use game::{GameConfig, PacmanGame, RateLimit};
