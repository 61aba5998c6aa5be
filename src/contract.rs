//! Plain records exchanged with the outside world: programs, levels,
//! simulation results and scoreboards.
use vstd::prelude::*;

verus! {

/// State of the finite state machine that drives one agent.
#[derive(Clone, Copy, Debug, PartialEq, Eq, Structural)]
pub enum RuleState {
    A,
    B,
    C,
    D,
    E,
    F,
    G,
    H,
}

/// What an agent observes in a neighbouring cell.
#[derive(Clone, Copy, Debug, PartialEq, Eq, Structural)]
pub enum RuleCell {
    Wall,
    Empty,
    /// A ghost.
    Phantom,
    Berry,
    Pacman,
}

/// Filter on whether the berry has been eaten.
#[derive(Clone, Copy, Debug, PartialEq, Eq, Structural)]
pub enum RuleBerry {
    Taken,
    NotTaken,
}

/// One step of an agent.
#[derive(Clone, Copy, Debug, PartialEq, Eq, Structural)]
pub enum Move {
    Up,
    Down,
    Left,
    Right,
    Wait,
}

/// A rule: optional filters and the action taken when all of them match.
#[derive(Clone, Copy, Debug, PartialEq, Eq, Structural)]
pub struct Rule {
    pub current_state: Option<RuleState>,
    pub up: Option<RuleCell>,
    pub down: Option<RuleCell>,
    pub left: Option<RuleCell>,
    pub right: Option<RuleCell>,
    pub berry: Option<RuleBerry>,
    pub next_move: Move,
    pub next_state: RuleState,
}

/// An ordered rule table; the first matching rule wins.
#[derive(Clone, Debug)]
pub struct Program {
    pub rules: Vec<Rule>,
}

/// A static grid cell.
#[derive(Clone, Copy, Debug, PartialEq, Eq, Structural)]
pub enum Cell {
    Wall,
    Empty,
}

/// Whether an object survives the current tick.
#[derive(Clone, Copy, Debug, PartialEq, Eq, Structural)]
pub enum DeathState {
    Alive,
    DiesAtEnd,
    DiesInMiddle,
}

/// Kinds of objects, ordered `Berry < Phantom < Pacman`.
#[derive(Clone, Copy, Debug, PartialEq, Eq, Structural, PartialOrd, Ord)]
pub enum ObjectKind {
    Berry,
    /// A ghost.
    Phantom,
    Pacman,
}

/// A live entity on the grid.
#[derive(Clone, Copy, Debug, PartialEq, Eq, Structural)]
pub struct Object {
    pub id: u64,
    pub row: u64,
    pub col: u64,
    pub current_move: Move,
    pub intended_move: Move,
    pub state: DeathState,
    pub kind: ObjectKind,
}

/// The grid and the objects placed on it.
#[derive(Clone, Debug)]
pub struct LevelState {
    pub cells: Vec<Vec<Cell>>,
    pub objects: Vec<Object>,
}

/// The objects as they looked during one tick.
#[derive(Clone, Debug)]
pub struct Step {
    pub objects: Vec<Object>,
}

/// How an evaluation ended.
#[derive(Clone, Copy, Debug, PartialEq, Eq, Structural)]
pub enum Outcome {
    Success,
    Fail,
    OutOfMoves,
}

/// A complete evaluation: the starting state, one step per tick, and the outcome.
#[derive(Clone, Debug)]
pub struct SubmissionDetails {
    pub initial_state: LevelState,
    pub steps: Vec<Step>,
    pub outcome: Outcome,
}

/// A level: its starting state and the program shared by all ghosts.
#[derive(Clone, Debug)]
pub struct Level {
    pub state: LevelState,
    pub ghost_program: Program,
}

/// Answer to a submission.
#[derive(Clone, Copy, Debug, PartialEq, Eq, Structural)]
pub enum SubmitResponse {
    Accepted,
    RateLimitExceeded,
    LevelClosed,
    Unauthorized,
}

/// One row of a ranked scoreboard.
#[derive(Clone, Debug)]
pub struct ScoreboardEntry {
    pub user: String,
    pub solved: u64,
    pub tie_breaker: String,
}

/// A titled, ranked scoreboard.
#[derive(Clone, Debug)]
pub struct Scoreboard {
    pub title: String,
    pub entries: Vec<ScoreboardEntry>,
}

/// The scoreboards shown to contestants.
#[derive(Clone, Debug)]
pub struct Scoreboards {
    pub scoreboards: Vec<Scoreboard>,
}

/// A submission as listed publicly: its id and author.
#[derive(Clone, Debug)]
pub struct Submission {
    pub id: u64,
    pub user: String,
}

/// All submissions of the current level, with the level itself.
#[derive(Clone, Debug)]
pub struct Submissions {
    pub submissions: Vec<Submission>,
    pub level_closed: bool,
    pub level: LevelState,
}

/// Rank of a kind in the order `Berry < Phantom < Pacman`.
pub open spec fn kind_rank(k: ObjectKind) -> int {
    match k {
        ObjectKind::Berry => 0,
        ObjectKind::Phantom => 1,
        ObjectKind::Pacman => 2,
    }
}

/// The larger of two kinds.
pub fn max_kind(a: ObjectKind, b: ObjectKind) -> (r: ObjectKind)
    ensures
        r == (if kind_rank(a) >= kind_rank(b) { a } else { b }),
{
    match (a, b) {
        (ObjectKind::Pacman, _) => ObjectKind::Pacman,
        (_, ObjectKind::Pacman) => ObjectKind::Pacman,
        (ObjectKind::Phantom, _) => ObjectKind::Phantom,
        (_, ObjectKind::Phantom) => ObjectKind::Phantom,
        _ => ObjectKind::Berry,
    }
}

} // verus!
