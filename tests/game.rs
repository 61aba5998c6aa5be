use pacman_core::contract::{
    Cell, DeathState, Level, LevelState, Move, Object, ObjectKind, Outcome, Program, Rule,
    RuleState, SubmitResponse,
};
use pacman_core::{GameConfig, PacmanGame, RateLimit};

fn always_right() -> Program {
    Program {
        rules: vec![Rule {
            current_state: None,
            up: None,
            down: None,
            left: None,
            right: None,
            berry: None,
            next_move: Move::Right,
            next_state: RuleState::A,
        }],
    }
}

fn object(id: u64, col: u64, kind: ObjectKind) -> Object {
    Object {
        id,
        row: 0,
        col,
        current_move: Move::Wait,
        intended_move: Move::Wait,
        state: DeathState::Alive,
        kind,
    }
}

fn berry_level() -> Level {
    Level {
        state: LevelState {
            cells: vec![vec![Cell::Empty; 3]],
            objects: vec![object(0, 0, ObjectKind::Pacman), object(1, 2, ObjectKind::Berry)],
        },
        ghost_program: Program { rules: vec![] },
    }
}

fn config() -> GameConfig {
    GameConfig { max_steps: 100, rate_limit: RateLimit { count: 2, window: 10_000 } }
}

#[test]
fn new_game_is_closed() {
    let mut game = PacmanGame::new(config());
    assert_eq!(game.submit_program("ana", &always_right(), 0), SubmitResponse::LevelClosed);
    assert!(game.all_submissions().submissions.is_empty());
    assert!(game.all_submissions().level_closed);
    assert!(game.submission_details(0).is_none());
}

#[test]
fn winning_submission_is_scored() {
    let mut game = PacmanGame::new(config());
    game.set_level(berry_level(), 1_000);
    assert_eq!(game.submit_program("ana", &always_right(), 73_500), SubmitResponse::Accepted);
    let all = game.all_submissions();
    assert_eq!(all.submissions.len(), 1);
    assert_eq!(all.submissions[0].id, 0);
    assert_eq!(all.submissions[0].user, "ana");
    assert!(!all.level_closed);
    let details = game.submission_details(0).expect("stored");
    assert_eq!(details.outcome, Outcome::Success);
    assert_eq!(details.steps.len(), 3);
    let scores = game.get_scores();
    assert_eq!(scores.scoreboards.len(), 2);
    assert_eq!(scores.scoreboards[0].title, "Results");
    assert_eq!(scores.scoreboards[0].entries.len(), 1);
    assert_eq!(scores.scoreboards[0].entries[0].user, "ana");
    assert_eq!(scores.scoreboards[0].entries[0].solved, 1);
    // speed penalty: three steps, minus one
    assert_eq!(scores.scoreboards[0].entries[0].tie_breaker, "2");
    assert_eq!(scores.scoreboards[1].title, "Total");
    assert_eq!(scores.scoreboards[1].entries[0].solved, 1);
}

#[test]
fn size_and_time_penalties_follow_the_submission() {
    let mut game = PacmanGame::new(config());
    game.set_level(berry_level(), 1_000);
    assert_eq!(game.submit_program("ana", &always_right(), 73_999), SubmitResponse::Accepted);
    game.set_level(berry_level(), 100_000);
    let records = game.global_scores().records();
    assert_eq!(records.len(), 1);
    assert_eq!(records[0].1.size_penalty, 1);
    assert_eq!(records[0].1.time_penalty, 72);
    assert_eq!(records[0].1.speed_penalty, 2);
    assert!(game.all_submissions().submissions.is_empty());
}

#[test]
fn rate_limit_and_closing() {
    let mut game = PacmanGame::new(config());
    game.set_level(berry_level(), 0);
    assert_eq!(game.submit_program("bob", &always_right(), 0), SubmitResponse::Accepted);
    assert_eq!(game.submit_program("bob", &always_right(), 1_000), SubmitResponse::Accepted);
    assert_eq!(game.submit_program("bob", &always_right(), 2_000), SubmitResponse::RateLimitExceeded);
    assert_eq!(game.submit_program("cid", &always_right(), 2_000), SubmitResponse::Accepted);
    assert_eq!(game.submit_program("bob", &always_right(), 12_000), SubmitResponse::Accepted);
    game.rate_limit_user("bob", RateLimit { count: 5, window: 10_000 });
    assert_eq!(game.submit_program("bob", &always_right(), 12_500), SubmitResponse::Accepted);
    game.set_level_state(true);
    assert_eq!(game.submit_program("cid", &always_right(), 60_000), SubmitResponse::LevelClosed);
    let all = game.all_submissions();
    assert_eq!(all.submissions.len(), 5);
    let ids: Vec<u64> = all.submissions.iter().map(|s| s.id).collect();
    assert_eq!(ids, vec![0, 1, 2, 3, 4]);
    assert!(all.level_closed);
    // the level ranking counts bob once
    let scores = game.get_scores();
    assert_eq!(scores.scoreboards[0].entries.len(), 2);
}

#[test]
fn failed_submission_is_recorded_but_not_scored() {
    let mut game = PacmanGame::new(config());
    let level = Level {
        state: LevelState {
            cells: vec![vec![Cell::Empty, Cell::Wall, Cell::Empty]],
            objects: vec![object(0, 0, ObjectKind::Pacman), object(1, 2, ObjectKind::Berry)],
        },
        ghost_program: Program { rules: vec![] },
    };
    game.set_level(level, 0);
    game.set_config(GameConfig { max_steps: 5, rate_limit: RateLimit { count: 2, window: 10_000 } });
    assert_eq!(game.submit_program("dan", &always_right(), 10), SubmitResponse::Accepted);
    let details = game.submission_details(0).expect("stored");
    assert_eq!(details.outcome, Outcome::OutOfMoves);
    assert_eq!(details.steps.len(), 5);
    assert!(game.get_scores().scoreboards[0].entries.is_empty());
}

#[test]
fn total_includes_the_running_level() {
    let mut game = PacmanGame::new(config());
    game.set_level(berry_level(), 0);
    assert_eq!(game.submit_program("ana", &always_right(), 5_000), SubmitResponse::Accepted);
    game.set_level(berry_level(), 10_000);
    assert_eq!(game.submit_program("ana", &always_right(), 20_000), SubmitResponse::Accepted);
    let scores = game.get_scores();
    assert_eq!(scores.scoreboards[0].entries[0].solved, 1);
    assert_eq!(scores.scoreboards[1].entries[0].solved, 2);
    assert_eq!(scores.scoreboards[1].entries[0].tie_breaker, "4");
    assert_eq!(game.global_scores().records()[0].1.solved_levels, 1);
}
