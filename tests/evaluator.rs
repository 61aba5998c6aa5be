use pacman_core::contract::{
    Cell, DeathState, Level, LevelState, Move, Object, ObjectKind, Outcome, Program, Rule,
    RuleBerry, RuleCell, RuleState, SubmissionDetails,
};
use pacman_core::evaluate_program;

fn always(next_move: Move) -> Program {
    Program {
        rules: vec![Rule {
            current_state: None,
            up: None,
            down: None,
            left: None,
            right: None,
            berry: None,
            next_move,
            next_state: RuleState::A,
        }],
    }
}

fn object(id: u64, row: u64, col: u64, kind: ObjectKind) -> Object {
    Object {
        id,
        row,
        col,
        current_move: Move::Wait,
        intended_move: Move::Wait,
        state: DeathState::Alive,
        kind,
    }
}

fn level(cells: Vec<Vec<Cell>>, objects: Vec<Object>, ghost_program: Program) -> Level {
    Level { state: LevelState { cells, objects }, ghost_program }
}

fn find(objects: &[Object], id: u64) -> Object {
    *objects.iter().find(|o| o.id == id).expect("object present")
}

fn row(n: usize) -> Vec<Vec<Cell>> {
    vec![vec![Cell::Empty; n]]
}

fn run(level: &Level, program: &Program, limit: u64) -> SubmissionDetails {
    evaluate_program(level, program, limit)
}

#[test]
fn walk_to_berry_and_win() {
    let lvl = level(
        row(3),
        vec![object(0, 0, 0, ObjectKind::Pacman), object(1, 0, 2, ObjectKind::Berry)],
        Program { rules: vec![] },
    );
    let d = run(&lvl, &always(Move::Right), 100);
    assert_eq!(d.outcome, Outcome::Success);
    // the berry is eaten on the second tick; the third tick clears it away
    assert_eq!(d.steps.len(), 3);
    let eaten = find(&d.steps[1].objects, 1);
    assert_eq!(eaten.state, DeathState::DiesAtEnd);
    assert_eq!(d.steps[2].objects.len(), 1);
    let pac = find(&d.steps[2].objects, 0);
    assert_eq!((pac.row, pac.col), (0, 2));
    assert_eq!(pac.intended_move, Move::Right);
    assert_eq!(pac.current_move, Move::Wait);
    assert_eq!(d.initial_state.objects.len(), 2);
    assert_eq!(d.initial_state.cells.len(), 1);
}

#[test]
fn walk_into_ghost_without_berry_on_the_level() {
    // with no berry on the level, Pac-Man is empowered from the start
    let lvl = level(
        row(3),
        vec![object(0, 0, 0, ObjectKind::Pacman), object(1, 0, 2, ObjectKind::Phantom)],
        always(Move::Wait),
    );
    let d = run(&lvl, &always(Move::Right), 100);
    let ghost = find(&d.steps[1].objects, 1);
    assert_eq!(ghost.state, DeathState::DiesAtEnd);
    assert_eq!(find(&d.steps[1].objects, 0).state, DeathState::Alive);
    assert_eq!(d.outcome, Outcome::Success);
}

#[test]
fn walk_into_ghost_and_lose() {
    // an unreachable berry keeps Pac-Man from being empowered
    let lvl = level(
        vec![vec![Cell::Empty, Cell::Empty, Cell::Empty], vec![Cell::Empty, Cell::Wall, Cell::Wall]],
        vec![
            object(0, 0, 0, ObjectKind::Pacman),
            object(1, 0, 2, ObjectKind::Phantom),
            object(2, 1, 0, ObjectKind::Berry),
        ],
        always(Move::Wait),
    );
    let d = run(&lvl, &always(Move::Right), 100);
    assert_eq!(d.outcome, Outcome::Fail);
    let pac = find(&d.steps[1].objects, 0);
    assert_eq!(pac.state, DeathState::DiesAtEnd);
    assert_eq!(pac.current_move, Move::Right);
    assert_eq!((pac.row, pac.col), (0, 1));
    assert_eq!(find(&d.steps[0].objects, 0).state, DeathState::Alive);
}

#[test]
fn swap_without_berry_on_the_level() {
    let lvl = level(
        row(2),
        vec![object(0, 0, 0, ObjectKind::Pacman), object(1, 0, 1, ObjectKind::Phantom)],
        always(Move::Left),
    );
    let d = run(&lvl, &always(Move::Right), 100);
    assert_eq!(find(&d.steps[0].objects, 1).state, DeathState::DiesInMiddle);
    assert_eq!(find(&d.steps[0].objects, 0).state, DeathState::Alive);
    assert_eq!(d.outcome, Outcome::Success);
}

#[test]
fn swap_death() {
    let lvl = level(
        vec![vec![Cell::Empty, Cell::Empty], vec![Cell::Wall, Cell::Empty]],
        vec![
            object(0, 0, 0, ObjectKind::Pacman),
            object(1, 0, 1, ObjectKind::Phantom),
            object(2, 1, 1, ObjectKind::Berry),
        ],
        always(Move::Left),
    );
    let d = run(&lvl, &always(Move::Right), 100);
    assert_eq!(d.outcome, Outcome::Fail);
    assert_eq!(find(&d.steps[0].objects, 0).state, DeathState::DiesInMiddle);
    assert_eq!(find(&d.steps[0].objects, 1).state, DeathState::Alive);
    assert_eq!(d.steps.len(), 2);
}

#[test]
fn empowered_swap_needs_berry_before_the_tick() {
    let lvl = level(
        row(3),
        vec![
            object(0, 0, 0, ObjectKind::Pacman),
            object(1, 0, 1, ObjectKind::Berry),
            object(2, 0, 2, ObjectKind::Phantom),
        ],
        always(Move::Left),
    );
    let d = run(&lvl, &always(Move::Right), 100);
    let first = &d.steps[0].objects;
    assert_eq!(find(first, 0).state, DeathState::DiesAtEnd);
    assert_eq!(find(first, 2).state, DeathState::Alive);
    // a Pac-Man that dies does not eat the berry
    assert_eq!(find(first, 1).state, DeathState::Alive);
    assert_eq!(d.outcome, Outcome::Fail);
}

#[test]
fn eaten_berry_empowers_from_the_next_tick() {
    let lvl = level(
        row(4),
        vec![
            object(0, 0, 0, ObjectKind::Pacman),
            object(1, 0, 1, ObjectKind::Berry),
            object(2, 0, 3, ObjectKind::Phantom),
        ],
        always(Move::Left),
    );
    let d = run(&lvl, &always(Move::Right), 100);
    let first = &d.steps[0].objects;
    assert_eq!(find(first, 1).state, DeathState::DiesAtEnd);
    assert_eq!(find(first, 0).state, DeathState::Alive);
    // Pac-Man (0,1) and the ghost (0,2) swap in the second tick
    let second = &d.steps[1].objects;
    assert_eq!(find(second, 2).state, DeathState::DiesInMiddle);
    assert_eq!(find(second, 0).state, DeathState::Alive);
    assert_eq!(d.outcome, Outcome::Success);
}

#[test]
fn out_of_moves() {
    let lvl = level(
        vec![vec![Cell::Empty, Cell::Wall, Cell::Empty]],
        vec![object(0, 0, 0, ObjectKind::Pacman), object(1, 0, 2, ObjectKind::Berry)],
        Program { rules: vec![] },
    );
    let d = run(&lvl, &always(Move::Right), 5);
    assert_eq!(d.outcome, Outcome::OutOfMoves);
    assert_eq!(d.steps.len(), 5);
    for step in &d.steps {
        let pac = find(&step.objects, 0);
        assert_eq!((pac.row, pac.col), (0, 0));
        assert_eq!(pac.intended_move, Move::Right);
        assert_eq!(pac.current_move, Move::Wait);
    }
}

#[test]
fn zero_move_limit_plays_nothing() {
    let lvl = level(row(1), vec![object(0, 0, 0, ObjectKind::Pacman)], Program { rules: vec![] });
    let d = run(&lvl, &always(Move::Right), 0);
    assert_eq!(d.outcome, Outcome::OutOfMoves);
    assert!(d.steps.is_empty());
}

#[test]
fn lone_pacman_wins_at_once_and_empty_level_fails() {
    let lvl = level(row(1), vec![object(0, 0, 0, ObjectKind::Pacman)], Program { rules: vec![] });
    let d = run(&lvl, &always(Move::Right), 10);
    assert_eq!(d.outcome, Outcome::Success);
    assert!(d.steps.is_empty());
    let empty = level(row(1), vec![], Program { rules: vec![] });
    let d = run(&empty, &always(Move::Right), 10);
    assert_eq!(d.outcome, Outcome::Fail);
}

#[test]
fn off_grid_moves_hold_position() {
    let lvl = level(
        row(1),
        vec![object(0, 0, 0, ObjectKind::Pacman), object(1, 0, 0, ObjectKind::Berry)],
        Program { rules: vec![] },
    );
    for mv in [Move::Up, Move::Down, Move::Left, Move::Right] {
        let d = run(&lvl, &always(mv), 1);
        let pac = find(&d.steps[0].objects, 0);
        assert_eq!(pac.intended_move, mv);
        assert_eq!(pac.current_move, Move::Wait);
        // Pac-Man stays on the berry's cell and eats it
        assert_eq!(find(&d.steps[0].objects, 1).state, DeathState::DiesAtEnd);
    }
}

fn filtered(up: Option<RuleCell>, right: Option<RuleCell>, berry: Option<RuleBerry>, state: Option<RuleState>, next_move: Move, next_state: RuleState) -> Rule {
    Rule { current_state: state, up, down: None, left: None, right, berry, next_move, next_state }
}

#[test]
fn rules_see_largest_kind_and_first_match_wins() {
    // a ghost stands on the berry to Pac-Man's right: Pac-Man sees a ghost
    let program = Program {
        rules: vec![
            filtered(None, Some(RuleCell::Berry), None, None, Move::Right, RuleState::B),
            filtered(None, Some(RuleCell::Phantom), None, None, Move::Down, RuleState::C),
            filtered(None, None, None, None, Move::Up, RuleState::D),
        ],
    };
    let lvl = level(
        vec![vec![Cell::Empty, Cell::Empty], vec![Cell::Empty, Cell::Wall]],
        vec![
            object(0, 0, 0, ObjectKind::Pacman),
            object(1, 0, 1, ObjectKind::Berry),
            object(2, 0, 1, ObjectKind::Phantom),
        ],
        Program { rules: vec![] },
    );
    let d = run(&lvl, &program, 1);
    let pac = find(&d.steps[0].objects, 0);
    assert_eq!(pac.intended_move, Move::Down);
    assert_eq!(pac.current_move, Move::Down);
}

#[test]
fn rule_states_and_berry_filters_steer_agents() {
    // state A moves right once and switches to B; state B waits while the berry is on the grid
    let program = Program {
        rules: vec![
            filtered(None, None, None, Some(RuleState::A), Move::Right, RuleState::B),
            filtered(None, None, Some(RuleBerry::NotTaken), Some(RuleState::B), Move::Wait, RuleState::B),
            filtered(Some(RuleCell::Wall), None, Some(RuleBerry::Taken), Some(RuleState::B), Move::Left, RuleState::B),
        ],
    };
    let lvl = level(
        row(3),
        vec![
            object(0, 0, 0, ObjectKind::Pacman),
            object(1, 0, 1, ObjectKind::Berry),
            object(2, 0, 2, ObjectKind::Phantom),
        ],
        Program { rules: vec![] },
    );
    let d = run(&lvl, &program, 3);
    assert_eq!(find(&d.steps[0].objects, 0).intended_move, Move::Right);
    assert_eq!(find(&d.steps[0].objects, 1).state, DeathState::DiesAtEnd);
    // berry gone: state B with a wall above moves left
    assert_eq!(find(&d.steps[1].objects, 0).intended_move, Move::Left);
    let third = find(&d.steps[2].objects, 0);
    assert_eq!((third.row, third.col), (0, 0));
    assert_eq!(third.intended_move, Move::Left);
    assert_eq!(third.current_move, Move::Wait);
}

#[test]
fn objects_stay_on_empty_cells_and_counts_never_grow() {
    let cells = vec![
        vec![Cell::Empty, Cell::Empty, Cell::Wall, Cell::Empty],
        vec![Cell::Empty, Cell::Wall, Cell::Empty, Cell::Empty],
        vec![Cell::Empty, Cell::Empty, Cell::Empty, Cell::Empty],
    ];
    let lvl = level(
        cells.clone(),
        vec![
            object(0, 0, 0, ObjectKind::Pacman),
            object(1, 2, 3, ObjectKind::Berry),
            object(2, 0, 3, ObjectKind::Phantom),
            object(3, 2, 0, ObjectKind::Phantom),
        ],
        Program {
            rules: vec![
                filtered(None, None, None, Some(RuleState::A), Move::Down, RuleState::B),
                filtered(None, None, None, Some(RuleState::B), Move::Left, RuleState::C),
                filtered(None, None, None, Some(RuleState::C), Move::Up, RuleState::D),
                filtered(None, None, None, Some(RuleState::D), Move::Right, RuleState::A),
            ],
        },
    );
    let program = Program {
        rules: vec![
            filtered(None, Some(RuleCell::Empty), None, None, Move::Right, RuleState::A),
            filtered(None, None, None, None, Move::Down, RuleState::A),
        ],
    };
    let d = run(&lvl, &program, 40);
    let count = |objs: &[Object], k: ObjectKind| objs.iter().filter(|o| o.kind == k).count();
    let mut previous = d.initial_state.objects.clone();
    for step in &d.steps {
        for o in &step.objects {
            assert_eq!(cells[o.row as usize][o.col as usize], Cell::Empty);
        }
        for k in [ObjectKind::Berry, ObjectKind::Phantom, ObjectKind::Pacman] {
            assert!(count(&step.objects, k) <= count(&previous, k));
        }
        previous = step.objects.clone();
    }
}
