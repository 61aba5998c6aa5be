//! The simulation kernel: rule matching, tick resolution and the
//! evaluation loop that runs a contestant's program on a level.
use vstd::prelude::*;
use crate::contract::{
    max_kind,
    kind_rank,
    Cell,
    DeathState,
    Level,
    LevelState,
    Move,
    Object,
    ObjectKind,
    Outcome,
    Program,
    Rule,
    RuleBerry,
    RuleCell,
    RuleState,
    Step,
    SubmissionDetails,
};

verus! {

/// An object together with the kernel's private bookkeeping: its rule
/// state and the position staged for the end of the current tick.
#[derive(Clone, Copy, Debug, PartialEq, Eq, Structural)]
pub struct ObjectInfo {
    pub obj: Object,
    pub state: RuleState,
    pub next_row: u64,
    pub next_col: u64,
}

/// The four cells around an agent, as the agent observes them.
#[derive(Clone, Copy, Debug, PartialEq, Eq, Structural)]
pub struct Neighborhood {
    pub up: RuleCell,
    pub down: RuleCell,
    pub left: RuleCell,
    pub right: RuleCell,
}

/// What stays fixed while a program is evaluated: the grid and both programs.
pub struct World {
    pub cells: Seq<Vec<Cell>>,
    pub pacman: Seq<Rule>,
    pub phantom: Seq<Rule>,
}

/// Static cell at `(row, col)`; everything outside the grid is a wall.
pub open spec fn cell_at(cells: Seq<Vec<Cell>>, row: int, col: int) -> Cell {
    if 0 <= row < cells.len() && 0 <= col < cells[row]@.len() {
        cells[row]@[col]
    } else {
        Cell::Wall
    }
}

/// An object may stand on `(row, col)`.
pub open spec fn passable(cells: Seq<Vec<Cell>>, row: int, col: int) -> bool {
    cell_at(cells, row, col) == Cell::Empty
}

/// Where each object stands and what it is.
pub open spec fn placements(objs: Seq<ObjectInfo>) -> Seq<(u64, u64, ObjectKind)> {
    objs.map_values(|o: ObjectInfo| (o.obj.row, o.obj.col, o.obj.kind))
}

/// The largest kind among the objects placed on `(row, col)`, if any.
pub open spec fn top_kind_at(ps: Seq<(u64, u64, ObjectKind)>, row: int, col: int) -> Option<
    ObjectKind,
>
    decreases ps.len(),
{
    if ps.len() == 0 {
        None
    } else {
        let rest = top_kind_at(ps.drop_last(), row, col);
        let p = ps.last();
        if p.0 == row && p.1 == col {
            match rest {
                None => Some(p.2),
                Some(k) => Some(if kind_rank(k) >= kind_rank(p.2) { k } else { p.2 }),
            }
        } else {
            rest
        }
    }
}

/// What an agent sees on `(row, col)`: the largest kind of object there,
/// else the static cell.
pub open spec fn observe(
    cells: Seq<Vec<Cell>>,
    ps: Seq<(u64, u64, ObjectKind)>,
    row: int,
    col: int,
) -> RuleCell {
    match top_kind_at(ps, row, col) {
        Some(ObjectKind::Pacman) => RuleCell::Pacman,
        Some(ObjectKind::Phantom) => RuleCell::Phantom,
        Some(ObjectKind::Berry) => RuleCell::Berry,
        None => if cell_at(cells, row, col) == Cell::Wall {
            RuleCell::Wall
        } else {
            RuleCell::Empty
        },
    }
}

/// The cell that a move from `(row, col)` leads to.
pub open spec fn target(row: int, col: int, m: Move) -> (int, int) {
    match m {
        Move::Up => (row - 1, col),
        Move::Down => (row + 1, col),
        Move::Left => (row, col - 1),
        Move::Right => (row, col + 1),
        Move::Wait => (row, col),
    }
}

/// The neighbourhood of `(row, col)`.
pub open spec fn surroundings(
    cells: Seq<Vec<Cell>>,
    ps: Seq<(u64, u64, ObjectKind)>,
    row: int,
    col: int,
) -> Neighborhood {
    Neighborhood {
        up: observe(cells, ps, row - 1, col),
        down: observe(cells, ps, row + 1, col),
        left: observe(cells, ps, row, col - 1),
        right: observe(cells, ps, row, col + 1),
    }
}

/// No berry is left on the grid.
pub open spec fn no_berry(ps: Seq<(u64, u64, ObjectKind)>) -> bool {
    forall|i: int| 0 <= i < ps.len() ==> ps[i].2 != ObjectKind::Berry
}

/// An absent filter matches anything; a present one must equal the value.
pub open spec fn filter_ok<T>(f: Option<T>, actual: T) -> bool {
    match f {
        Some(e) => e == actual,
        None => true,
    }
}

/// Every filter of `r` matches.
pub open spec fn rule_matches(r: Rule, state: RuleState, nb: Neighborhood, taken: bool) -> bool {
    &&& filter_ok(r.current_state, state)
    &&& filter_ok(r.up, nb.up)
    &&& filter_ok(r.down, nb.down)
    &&& filter_ok(r.left, nb.left)
    &&& filter_ok(r.right, nb.right)
    &&& match r.berry {
        Some(RuleBerry::Taken) => taken,
        Some(RuleBerry::NotTaken) => !taken,
        None => true,
    }
}

/// The action of the first rule from index `i` on that matches; without
/// one the agent keeps its state and waits.
pub open spec fn rule_output(
    rules: Seq<Rule>,
    i: nat,
    state: RuleState,
    nb: Neighborhood,
    taken: bool,
) -> (RuleState, Move)
    decreases rules.len() - i,
{
    if i >= rules.len() {
        (state, Move::Wait)
    } else if rule_matches(rules[i as int], state, nb, taken) {
        (rules[i as int].next_state, rules[i as int].next_move)
    } else {
        rule_output(rules, i + 1, state, nb, taken)
    }
}

/// The program that drives an agent of kind `k`.
pub open spec fn rules_for(w: World, k: ObjectKind) -> Seq<Rule> {
    if k == ObjectKind::Pacman {
        w.pacman
    } else {
        w.phantom
    }
}

/// What the rule matcher picks for object `k` of `objs`.
pub open spec fn chosen(w: World, objs: Seq<ObjectInfo>, k: int) -> (RuleState, Move) {
    let o = objs[k];
    let ps = placements(objs);
    rule_output(
        rules_for(w, o.obj.kind),
        0,
        o.state,
        surroundings(w.cells, ps, o.obj.row as int, o.obj.col as int),
        no_berry(ps),
    )
}

/// Object `k` after move selection: the rule output is recorded as the
/// intended move, and a move into a wall is replaced by waiting in place.
pub open spec fn moved(w: World, objs: Seq<ObjectInfo>, k: int) -> ObjectInfo {
    let o = objs[k];
    if o.obj.kind == ObjectKind::Berry {
        ObjectInfo {
            obj: Object { current_move: Move::Wait, ..o.obj },
            next_row: o.obj.row,
            next_col: o.obj.col,
            ..o
        }
    } else {
        let c = chosen(w, objs, k);
        let t = target(o.obj.row as int, o.obj.col as int, c.1);
        if passable(w.cells, t.0, t.1) {
            ObjectInfo {
                obj: Object { current_move: c.1, intended_move: c.1, ..o.obj },
                state: c.0,
                next_row: t.0 as u64,
                next_col: t.1 as u64,
            }
        } else {
            ObjectInfo {
                obj: Object { current_move: Move::Wait, intended_move: c.1, ..o.obj },
                state: c.0,
                next_row: o.obj.row,
                next_col: o.obj.col,
            }
        }
    }
}

/// Every object's staged position is its current one.
pub open spec fn settled(objs: Seq<ObjectInfo>) -> bool {
    forall|k: int|
        0 <= k < objs.len() ==> objs[k].next_row == objs[k].obj.row && objs[k].next_col
            == objs[k].obj.col
}

/// Every object is still alive.
pub open spec fn all_alive(objs: Seq<ObjectInfo>) -> bool {
    forall|k: int| 0 <= k < objs.len() ==> objs[k].obj.state == DeathState::Alive
}

/// The objects of `objs` that are alive, in order.
pub open spec fn alive_only(objs: Seq<ObjectInfo>) -> Seq<ObjectInfo>
    decreases objs.len(),
{
    if objs.len() == 0 {
        objs
    } else {
        let rest = alive_only(objs.drop_last());
        if objs.last().obj.state == DeathState::Alive {
            rest.push(objs.last())
        } else {
            rest
        }
    }
}

/// All objects after move selection.
pub open spec fn selected(w: World, objs: Seq<ObjectInfo>) -> Seq<ObjectInfo> {
    Seq::new(objs.len(), |k: int| moved(w, objs, k))
}

/// Pac-Man `p` and ghost `g` end the tick on the same cell.
pub open spec fn meets_at_end(ms: Seq<ObjectInfo>, p: int, g: int) -> bool {
    &&& ms[p].obj.kind == ObjectKind::Pacman
    &&& ms[g].obj.kind == ObjectKind::Phantom
    &&& ms[p].next_row == ms[g].next_row
    &&& ms[p].next_col == ms[g].next_col
}

/// Pac-Man `p` and ghost `g` swap cells, passing through each other.
pub open spec fn passes_through(ms: Seq<ObjectInfo>, p: int, g: int) -> bool {
    &&& ms[p].obj.kind == ObjectKind::Pacman
    &&& ms[g].obj.kind == ObjectKind::Phantom
    &&& ms[p].next_row == ms[g].obj.row
    &&& ms[p].next_col == ms[g].obj.col
    &&& ms[g].next_row == ms[p].obj.row
    &&& ms[g].next_col == ms[p].obj.col
}

/// Object `k` loses an end-cell collision: the ghost when Pac-Man is
/// empowered (`taken`), else Pac-Man.
pub open spec fn killed_at_end(ms: Seq<ObjectInfo>, taken: bool, k: int) -> bool {
    if taken {
        exists|p: int| 0 <= p < ms.len() && meets_at_end(ms, p, k)
    } else {
        exists|g: int| 0 <= g < ms.len() && meets_at_end(ms, k, g)
    }
}

/// Object `k` loses a swap collision.
pub open spec fn killed_in_middle(ms: Seq<ObjectInfo>, taken: bool, k: int) -> bool {
    if taken {
        exists|p: int| 0 <= p < ms.len() && passes_through(ms, p, k)
    } else {
        exists|g: int| 0 <= g < ms.len() && passes_through(ms, k, g)
    }
}

/// Death annotation of object `k` after both collision phases.
pub open spec fn collision_state(ms: Seq<ObjectInfo>, taken: bool, k: int) -> DeathState {
    if killed_in_middle(ms, taken, k) {
        DeathState::DiesInMiddle
    } else if killed_at_end(ms, taken, k) {
        DeathState::DiesAtEnd
    } else {
        DeathState::Alive
    }
}

/// Object `b` is the first berry placed on `(row, col)`.
pub open spec fn first_berry_at(ps: Seq<(u64, u64, ObjectKind)>, b: int, row: u64, col: u64) -> bool {
    &&& 0 <= b < ps.len()
    &&& ps[b] == (row, col, ObjectKind::Berry)
    &&& forall|c: int| 0 <= c < b ==> ps[c] != (row, col, ObjectKind::Berry)
}

/// Berry `b` is eaten by a Pac-Man that survived the collisions.
pub open spec fn eaten(ms: Seq<ObjectInfo>, taken: bool, b: int) -> bool {
    exists|p: int|
        0 <= p < ms.len() && ms[p].obj.kind == ObjectKind::Pacman && collision_state(ms, taken, p)
            == DeathState::Alive && first_berry_at(placements(ms), b, ms[p].next_row, ms[p].next_col)
}

/// Death annotation of object `k` at the end of the tick.
pub open spec fn final_state(ms: Seq<ObjectInfo>, taken: bool, k: int) -> DeathState {
    if eaten(ms, taken, k) {
        DeathState::DiesAtEnd
    } else {
        collision_state(ms, taken, k)
    }
}

/// `o` with its death annotation replaced.
pub open spec fn with_state(o: ObjectInfo, s: DeathState) -> ObjectInfo {
    ObjectInfo { obj: Object { state: s, ..o.obj }, ..o }
}

/// Move selection, collisions and berry consumption on the objects that
/// survived cleanup; positions are staged, not yet committed.
pub open spec fn resolve(w: World, objs: Seq<ObjectInfo>) -> Seq<ObjectInfo> {
    let ms = selected(w, objs);
    let taken = no_berry(placements(objs));
    Seq::new(objs.len(), |k: int| with_state(ms[k], final_state(ms, taken, k)))
}

/// One tick from the objects as the previous tick left them.
pub open spec fn tick(w: World, objs: Seq<ObjectInfo>) -> Seq<ObjectInfo> {
    resolve(w, alive_only(objs))
}

/// Every object moves to its staged position.
pub open spec fn commit(objs: Seq<ObjectInfo>) -> Seq<ObjectInfo> {
    objs.map_values(
        |o: ObjectInfo| ObjectInfo { obj: Object { row: o.next_row, col: o.next_col, ..o.obj }, ..o },
    )
}

/// The public part of each object.
pub open spec fn snapshot(objs: Seq<ObjectInfo>) -> Seq<Object> {
    objs.map_values(|o: ObjectInfo| o.obj)
}

spec fn end_upto(ms: Seq<ObjectInfo>, taken: bool, k: int, i: int, j: int) -> bool {
    if taken {
        exists|p: int| 0 <= p < ms.len() && (p < i || (p == i && k < j)) && meets_at_end(ms, p, k)
    } else {
        exists|g: int| 0 <= g < ms.len() && (k < i || (k == i && g < j)) && meets_at_end(ms, k, g)
    }
}

spec fn middle_upto(ms: Seq<ObjectInfo>, taken: bool, k: int, i: int, j: int) -> bool {
    if taken {
        exists|p: int| 0 <= p < ms.len() && (p < i || (p == i && k < j)) && passes_through(ms, p, k)
    } else {
        exists|g: int| 0 <= g < ms.len() && (k < i || (k == i && g < j)) && passes_through(ms, k, g)
    }
}

spec fn eaten_upto(ms: Seq<ObjectInfo>, taken: bool, b: int, i: int) -> bool {
    exists|p: int|
        0 <= p < i && p < ms.len() && ms[p].obj.kind == ObjectKind::Pacman && collision_state(
            ms,
            taken,
            p,
        ) == DeathState::Alive && first_berry_at(placements(ms), b, ms[p].next_row, ms[p].next_col)
}

/// Only Pac-Man is left.
pub open spec fn victory(objs: Seq<ObjectInfo>) -> bool {
    objs.len() == 1 && objs[0].obj.kind == ObjectKind::Pacman
}

/// No Pac-Man is left.
pub open spec fn defeat(objs: Seq<ObjectInfo>) -> bool {
    forall|k: int| 0 <= k < objs.len() ==> objs[k].obj.kind != ObjectKind::Pacman
}

/// The objects of a level as the kernel first tracks them.
pub open spec fn start(objs: Seq<Object>) -> Seq<ObjectInfo> {
    objs.map_values(
        |o: Object| ObjectInfo { obj: o, state: RuleState::A, next_row: o.row, next_col: o.col },
    )
}

/// The snapshots and the outcome of evaluating from `objs` with `budget`
/// ticks left.
pub open spec fn run(w: World, objs: Seq<ObjectInfo>, budget: nat) -> (Seq<Seq<Object>>, Outcome)
    decreases budget,
{
    if budget == 0 {
        (seq![], Outcome::OutOfMoves)
    } else if victory(objs) {
        (seq![], Outcome::Success)
    } else if defeat(objs) {
        (seq![], Outcome::Fail)
    } else {
        let t = tick(w, objs);
        let rest = run(w, commit(t), (budget - 1) as nat);
        (seq![snapshot(t)] + rest.0, rest.1)
    }
}

/// The grid as rows of cells.
pub open spec fn grid(cells: Vec<Vec<Cell>>) -> Seq<Seq<Cell>> {
    cells@.map_values(|r: Vec<Cell>| r@)
}

/// The objects of each step.
pub open spec fn step_objects(steps: Seq<Step>) -> Seq<Seq<Object>> {
    steps.map_values(|s: Step| s.objects@)
}

/// The grid of `level` and the two programs that play on it.
pub open spec fn world_of(level: Level, program: Program) -> World {
    World {
        cells: level.state.cells@,
        pacman: program.rules@,
        phantom: level.ghost_program.rules@,
    }
}

/// `d` is the evaluation of `program` on `level` with `move_limit` ticks:
/// a copy of the level's starting state, the snapshot of every tick played,
/// and the outcome.
pub open spec fn evaluates(d: SubmissionDetails, level: Level, program: Program, move_limit: u64) -> bool {
    let res = run(world_of(level, program), start(level.state.objects@), move_limit as nat);
    &&& grid(d.initial_state.cells) == grid(level.state.cells)
    &&& d.initial_state.objects@ == level.state.objects@
    &&& step_objects(d.steps@) == res.0
    &&& d.outcome == res.1
}

/// Two evaluations hold the same values.
pub open spec fn same_details(a: SubmissionDetails, b: SubmissionDetails) -> bool {
    &&& grid(a.initial_state.cells) == grid(b.initial_state.cells)
    &&& a.initial_state.objects@ == b.initial_state.objects@
    &&& step_objects(a.steps@) == step_objects(b.steps@)
    &&& a.outcome == b.outcome
}

/// Runs `program` as Pac-Man on `level` until Pac-Man wins, loses, or
/// `move_limit` ticks have been played.
pub fn evaluate_program(level: &Level, program: &Program, move_limit: u64) -> (r: SubmissionDetails)
    ensures
        evaluates(r, *level, *program, move_limit),
{
    let initial_state = copy_level_state(&level.state);
    let mut steps: Vec<Step> = Vec::new();
    let mut steps_taken: u64 = 0;
    let mut objects: Vec<ObjectInfo> = Vec::new();
    let mut i: usize = 0;
    while i < level.state.objects.len()
        invariant
            i <= level.state.objects@.len(),
            objects@ == start(level.state.objects@.subrange(0, i as int)),
        decreases level.state.objects@.len() - i,
    {
        let obj = level.state.objects[i];
        objects.push(ObjectInfo { obj, state: RuleState::A, next_row: obj.row, next_col: obj.col });
        proof {
            assert(start(level.state.objects@.subrange(0, i + 1)) =~= start(
                level.state.objects@.subrange(0, i as int),
            ).push(ObjectInfo { obj, state: RuleState::A, next_row: obj.row, next_col: obj.col }));
        }
        i += 1;
    }
    proof {
        assert(level.state.objects@.subrange(0, i as int) =~= level.state.objects@);
    }
    let mut evaluator = Evaluator {
        cells: &level.state.cells,
        objects,
        pacman_program: program,
        ghost_program: &level.ghost_program,
    };
    let ghost w = world_of(*level, *program);
    let ghost whole = run(w, start(level.state.objects@), move_limit as nat);
    let mut outcome = Outcome::OutOfMoves;
    loop
        invariant_except_break
            steps_taken <= move_limit,
            w == evaluator.world(),
            settled(evaluator.objects@),
            whole.0 == step_objects(steps@) + run(
                w,
                evaluator.objects@,
                (move_limit - steps_taken) as nat,
            ).0,
            whole.1 == run(w, evaluator.objects@, (move_limit - steps_taken) as nat).1,
        ensures
            whole.0 == step_objects(steps@),
            whole.1 == outcome,
        decreases move_limit - steps_taken,
    {
        let ghost budget = (move_limit - steps_taken) as nat;
        if steps_taken == move_limit {
            outcome = Outcome::OutOfMoves;
            proof {
                assert(step_objects(steps@) + seq![] =~= step_objects(steps@));
            }
            break;
        }
        if evaluator.is_victory() {
            outcome = Outcome::Success;
            proof {
                assert(step_objects(steps@) + seq![] =~= step_objects(steps@));
            }
            break;
        }
        if evaluator.is_defeat() {
            outcome = Outcome::Fail;
            proof {
                assert(step_objects(steps@) + seq![] =~= step_objects(steps@));
            }
            break;
        }
        let ghost before = evaluator.objects@;
        steps_taken += 1;
        evaluator.cleanup_objects();
        proof {
            lemma_alive_only_settled(before);
            lemma_alive_only_alive(before);
        }
        evaluator.prepare_moves();
        let step = evaluator.get_step();
        let ghost snap = step.objects@;
        steps.push(step);
        evaluator.finish_moves();
        proof {
            let rest = run(w, evaluator.objects@, (move_limit - steps_taken) as nat);
            assert(step_objects(steps@) =~= step_objects(steps@.drop_last()).push(snap));
            assert(step_objects(steps@) + rest.0 =~= step_objects(steps@.drop_last()) + (seq![snap]
                + rest.0));
        }
    }
    SubmissionDetails { initial_state, steps, outcome }
}

proof fn lemma_alive_only_settled(objs: Seq<ObjectInfo>)
    requires
        settled(objs),
    ensures
        settled(alive_only(objs)),
    decreases objs.len(),
{
    if objs.len() > 0 {
        lemma_alive_only_settled(objs.drop_last());
    }
}

proof fn lemma_alive_only_alive(objs: Seq<ObjectInfo>)
    ensures
        all_alive(alive_only(objs)),
    decreases objs.len(),
{
    if objs.len() > 0 {
        lemma_alive_only_alive(objs.drop_last());
    }
}

/// A copy of `d`, value by value.
pub fn copy_details(d: &SubmissionDetails) -> (r: SubmissionDetails)
    ensures
        same_details(r, *d),
{
    let initial_state = copy_level_state(&d.initial_state);
    let mut steps: Vec<Step> = Vec::new();
    let mut i: usize = 0;
    while i < d.steps.len()
        invariant
            i <= d.steps@.len(),
            step_objects(steps@) == step_objects(d.steps@.subrange(0, i as int)),
        decreases d.steps@.len() - i,
    {
        let objects = copy_objects(&d.steps[i].objects);
        let ghost prev = steps@;
        let ghost seen = objects@;
        steps.push(Step { objects });
        proof {
            assert(step_objects(steps@) =~= step_objects(prev).push(seen));
            assert(step_objects(d.steps@.subrange(0, i + 1)) =~= step_objects(
                d.steps@.subrange(0, i as int),
            ).push(d.steps@[i as int].objects@));
        }
        i += 1;
    }
    proof {
        assert(d.steps@.subrange(0, i as int) =~= d.steps@);
    }
    SubmissionDetails { initial_state, steps, outcome: d.outcome }
}

/// A copy of a list of objects.
fn copy_objects(v: &Vec<Object>) -> (r: Vec<Object>)
    ensures
        r@ == v@,
{
    let mut objects: Vec<Object> = Vec::new();
    let mut i: usize = 0;
    while i < v.len()
        invariant
            i <= v@.len(),
            objects@ == v@.subrange(0, i as int),
        decreases v@.len() - i,
    {
        objects.push(v[i]);
        proof {
            assert(objects@ =~= v@.subrange(0, i + 1));
        }
        i += 1;
    }
    proof {
        assert(objects@ =~= v@);
    }
    objects
}

/// A copy of `s`, cell by cell and object by object.
pub fn copy_level_state(s: &LevelState) -> (r: LevelState)
    ensures
        grid(r.cells) == grid(s.cells),
        r.objects@ == s.objects@,
{
    let mut cells: Vec<Vec<Cell>> = Vec::new();
    let mut i: usize = 0;
    while i < s.cells.len()
        invariant
            i <= s.cells@.len(),
            cells@.len() == i,
            forall|k: int| 0 <= k < i ==> cells@[k]@ == s.cells@[k]@,
        decreases s.cells@.len() - i,
    {
        let mut row: Vec<Cell> = Vec::new();
        let mut j: usize = 0;
        while j < s.cells[i].len()
            invariant
                i < s.cells@.len(),
                j <= s.cells@[i as int]@.len(),
                row@ == s.cells@[i as int]@.subrange(0, j as int),
            decreases s.cells@[i as int]@.len() - j,
        {
            row.push(s.cells[i][j]);
            proof {
                assert(row@ =~= s.cells@[i as int]@.subrange(0, j + 1));
            }
            j += 1;
        }
        proof {
            assert(row@ =~= s.cells@[i as int]@);
        }
        cells.push(row);
        i += 1;
    }
    let objects = copy_objects(&s.objects);
    proof {
        assert(grid(cells) =~= grid(s.cells));
    }
    LevelState { cells, objects }
}

/// Nothing is placed outside the range of `u64` coordinates.
proof fn lemma_nothing_beyond(ps: Seq<(u64, u64, ObjectKind)>, row: int, col: int)
    requires
        row < 0 || row > u64::MAX || col < 0 || col > u64::MAX,
    ensures
        top_kind_at(ps, row, col) is None,
    decreases ps.len(),
{
    if ps.len() > 0 {
        lemma_nothing_beyond(ps.drop_last(), row, col);
    }
}


impl ObjectInfo {
    fn pos(&self) -> (r: (u64, u64))
        ensures
            r == (self.obj.row, self.obj.col),
    {
        (self.obj.row, self.obj.col)
    }

    fn next_pos(&self) -> (r: (u64, u64))
        ensures
            r == (self.next_row, self.next_col),
    {
        (self.next_row, self.next_col)
    }
}

struct Evaluator<'a> {
    cells: &'a Vec<Vec<Cell>>,
    objects: Vec<ObjectInfo>,
    pacman_program: &'a Program,
    ghost_program: &'a Program,
}

impl<'a> Evaluator<'a> {
    spec fn world(&self) -> World {
        World { cells: self.cells@, pacman: self.pacman_program.rules@, phantom: self.ghost_program.rules@ }
    }

    fn get_cell(&self, row: u64, col: u64) -> (r: RuleCell)
        ensures
            r == observe(self.cells@, placements(self.objects@), row as int, col as int),
    {
        let static_cell = if row < self.cells.len() as u64 && col < self.cells[row as usize].len() as u64 {
            self.cells[row as usize][col as usize]
        } else {
            Cell::Wall
        };
        let ghost ps = placements(self.objects@);
        let mut obj: Option<ObjectKind> = None;
        let mut i: usize = 0;
        while i < self.objects.len()
            invariant
                i <= self.objects@.len(),
                ps == placements(self.objects@),
                obj == top_kind_at(ps.subrange(0, i as int), row as int, col as int),
            decreases self.objects@.len() - i,
        {
            let o = self.objects[i].obj;
            proof {
                assert(ps.subrange(0, i + 1).drop_last() =~= ps.subrange(0, i as int));
            }
            if o.row == row && o.col == col {
                obj = match obj {
                    Some(k) => Some(max_kind(k, o.kind)),
                    None => Some(o.kind),
                };
            }
            i += 1;
        }
        proof {
            assert(ps.subrange(0, i as int) =~= ps);
        }
        match (obj, static_cell) {
            (Some(ObjectKind::Pacman), _) => RuleCell::Pacman,
            (Some(ObjectKind::Phantom), _) => RuleCell::Phantom,
            (Some(ObjectKind::Berry), _) => RuleCell::Berry,
            (None, Cell::Wall) => RuleCell::Wall,
            (None, Cell::Empty) => RuleCell::Empty,
        }
    }

    /// The cell next to `(row, col)` in direction `dir`, as observed.
    fn look(&self, row: u64, col: u64, dir: Move) -> (r: RuleCell)
        ensures
            r == observe(
                self.cells@,
                placements(self.objects@),
                target(row as int, col as int, dir).0,
                target(row as int, col as int, dir).1,
            ),
    {
        let ghost t = target(row as int, col as int, dir);
        let beyond = match dir {
            Move::Up => row == 0,
            Move::Down => row == u64::MAX,
            Move::Left => col == 0,
            Move::Right => col == u64::MAX,
            Move::Wait => false,
        };
        if beyond {
            let rows = self.cells.len();
            if row < rows as u64 {
                let _cols = self.cells[row as usize].len();
            }
            proof {
                lemma_nothing_beyond(placements(self.objects@), t.0, t.1);
            }
            RuleCell::Wall
        } else {
            match dir {
                Move::Up => self.get_cell(row - 1, col),
                Move::Down => self.get_cell(row + 1, col),
                Move::Left => self.get_cell(row, col - 1),
                Move::Right => self.get_cell(row, col + 1),
                Move::Wait => self.get_cell(row, col),
            }
        }
    }

    fn is_berry_taken(&self) -> (r: bool)
        ensures
            r == no_berry(placements(self.objects@)),
    {
        let mut i: usize = 0;
        while i < self.objects.len()
            invariant
                i <= self.objects@.len(),
                forall|k: int| 0 <= k < i ==> self.objects@[k].obj.kind != ObjectKind::Berry,
            decreases self.objects@.len() - i,
        {
            if self.objects[i].obj.kind == ObjectKind::Berry {
                assert(placements(self.objects@)[i as int].2 == ObjectKind::Berry);
                return false;
            }
            i += 1;
        }
        true
    }

    fn pick_move(&self, program: &Program, state: RuleState, row: u64, col: u64) -> (r: (
        RuleState,
        Move,
    ))
        ensures
            r == rule_output(
                program.rules@,
                0,
                state,
                surroundings(self.cells@, placements(self.objects@), row as int, col as int),
                no_berry(placements(self.objects@)),
            ),
    {
        let ghost nb = surroundings(self.cells@, placements(self.objects@), row as int, col as int);
        let ghost taken = no_berry(placements(self.objects@));
        let mut i: usize = 0;
        while i < program.rules.len()
            invariant
                i <= program.rules@.len(),
                nb == surroundings(self.cells@, placements(self.objects@), row as int, col as int),
                taken == no_berry(placements(self.objects@)),
                rule_output(program.rules@, 0, state, nb, taken) == rule_output(
                    program.rules@,
                    i as nat,
                    state,
                    nb,
                    taken,
                ),
            decreases program.rules@.len() - i,
        {
            let rule = program.rules[i];
            let mut ok = true;
            if let Some(expected) = rule.current_state {
                if expected != state {
                    ok = false;
                }
            }
            if ok {
                if let Some(expected) = rule.up {
                    if expected != self.look(row, col, Move::Up) {
                        ok = false;
                    }
                }
            }
            if ok {
                if let Some(expected) = rule.down {
                    if expected != self.look(row, col, Move::Down) {
                        ok = false;
                    }
                }
            }
            if ok {
                if let Some(expected) = rule.left {
                    if expected != self.look(row, col, Move::Left) {
                        ok = false;
                    }
                }
            }
            if ok {
                if let Some(expected) = rule.right {
                    if expected != self.look(row, col, Move::Right) {
                        ok = false;
                    }
                }
            }
            if ok {
                match rule.berry {
                    Some(RuleBerry::Taken) => {
                        if !self.is_berry_taken() {
                            ok = false;
                        }
                    },
                    Some(RuleBerry::NotTaken) => {
                        if self.is_berry_taken() {
                            ok = false;
                        }
                    },
                    None => {},
                }
            }
            assert(ok == rule_matches(rule, state, nb, taken));
            if ok {
                return (rule.next_state, rule.next_move);
            }
            i += 1;
        }
        (state, Move::Wait)
    }

    fn can_pass(&self, row: u64, col: u64) -> (r: bool)
        ensures
            r == passable(self.cells@, row as int, col as int),
    {
        if row < self.cells.len() as u64 && col < self.cells[row as usize].len() as u64 {
            match self.cells[row as usize][col as usize] {
                Cell::Empty => true,
                Cell::Wall => false,
            }
        } else {
            false
        }
    }

    /// Where `obj`'s current move takes it: the target cell if it can be
    /// entered, else its own cell, with `blocked` set.
    fn next_pos(&self, obj: &ObjectInfo) -> (r: (bool, u64, u64))
        ensures
            ({
                let t = target(obj.obj.row as int, obj.obj.col as int, obj.obj.current_move);
                if passable(self.cells@, t.0, t.1) {
                    !r.0 && r.1 == t.0 && r.2 == t.1
                } else {
                    r.0 && r.1 == obj.obj.row && r.2 == obj.obj.col
                }
            }),
    {
        let row = obj.obj.row;
        let col = obj.obj.col;
        let ghost t = target(row as int, col as int, obj.obj.current_move);
        let beyond = match obj.obj.current_move {
            Move::Up => row == 0,
            Move::Down => row == u64::MAX,
            Move::Left => col == 0,
            Move::Right => col == u64::MAX,
            Move::Wait => false,
        };
        if beyond {
            let rows = self.cells.len();
            if row < rows as u64 {
                let _cols = self.cells[row as usize].len();
            }
            return (true, row, col);
        }
        let (new_row, new_col) = match obj.obj.current_move {
            Move::Up => (row - 1, col),
            Move::Down => (row + 1, col),
            Move::Left => (row, col - 1),
            Move::Right => (row, col + 1),
            Move::Wait => (row, col),
        };
        if self.can_pass(new_row, new_col) {
            (false, new_row, new_col)
        } else {
            (true, row, col)
        }
    }
}


impl<'a> Evaluator<'a> {
    fn cleanup_objects(&mut self)
        ensures
            final(self).objects@ == alive_only(old(self).objects@),
            final(self).cells == old(self).cells,
            final(self).pacman_program == old(self).pacman_program,
            final(self).ghost_program == old(self).ghost_program,
    {
        let mut kept: Vec<ObjectInfo> = Vec::new();
        let mut i: usize = 0;
        while i < self.objects.len()
            invariant
                i <= self.objects@.len(),
                kept@ == alive_only(self.objects@.subrange(0, i as int)),
            decreases self.objects@.len() - i,
        {
            proof {
                assert(self.objects@.subrange(0, i + 1).drop_last() =~= self.objects@.subrange(
                    0,
                    i as int,
                ));
            }
            if self.objects[i].obj.state == DeathState::Alive {
                kept.push(self.objects[i]);
            }
            i += 1;
        }
        proof {
            assert(self.objects@.subrange(0, i as int) =~= self.objects@);
        }
        self.objects = kept;
    }

    fn prepare_moves(&mut self)
        requires
            settled(old(self).objects@),
            all_alive(old(self).objects@),
        ensures
            final(self).objects@ == resolve(old(self).world(), old(self).objects@),
            final(self).cells == old(self).cells,
            final(self).pacman_program == old(self).pacman_program,
            final(self).ghost_program == old(self).ghost_program,
    {
        let ghost pre = self.objects@;
        let ghost w = self.world();
        let n = self.objects.len();
        let mut i: usize = 0;
        while i < n
            invariant
                n == pre.len(),
                self.objects@.len() == n,
                w == self.world(),
                self.cells == old(self).cells,
                self.pacman_program == old(self).pacman_program,
                self.ghost_program == old(self).ghost_program,
                settled(pre),
                placements(self.objects@) == placements(pre),
                forall|k: int| 0 <= k < i ==> self.objects@[k] == moved(w, pre, k),
                forall|k: int| i <= k < n ==> self.objects@[k] == pre[k],
            decreases n - i,
        {
            let o = self.objects[i];
            if o.obj.kind == ObjectKind::Berry {
                let mut o2 = o;
                o2.obj.current_move = Move::Wait;
                self.objects.set(i, o2);
            } else {
                let program = if o.obj.kind == ObjectKind::Pacman {
                    self.pacman_program
                } else {
                    self.ghost_program
                };
                let (next_state, next_move) = self.pick_move(program, o.state, o.obj.row, o.obj.col);
                let mut o2 = o;
                o2.state = next_state;
                o2.obj.current_move = next_move;
                o2.obj.intended_move = next_move;
                let (blocked, row, col) = self.next_pos(&o2);
                o2.next_row = row;
                o2.next_col = col;
                if blocked {
                    o2.obj.current_move = Move::Wait;
                }
                self.objects.set(i, o2);
            }
            proof {
                assert(placements(self.objects@) =~= placements(pre));
            }
            i += 1;
        }
        let ghost ms = self.objects@;
        proof {
            assert(ms =~= selected(w, pre));
        }
        let is_berry_taken = self.is_berry_taken();
        // a Pac-Man and a ghost that finish on the same cell
        let mut i: usize = 0;
        while i < n
            invariant
                ms.len() == n,
                self.objects@.len() == n,
                w == self.world(),
                self.cells == old(self).cells,
                self.pacman_program == old(self).pacman_program,
                self.ghost_program == old(self).ghost_program,
                forall|k: int| 0 <= k < n ==> ms[k].obj.state == DeathState::Alive,
                forall|k: int|
                    0 <= k < n ==> self.objects@[k] == with_state(
                        ms[k],
                        if end_upto(ms, is_berry_taken, k, i as int, 0) {
                            DeathState::DiesAtEnd
                        } else {
                            DeathState::Alive
                        },
                    ),
            decreases n - i,
        {
            if self.objects[i].obj.kind == ObjectKind::Pacman {
                let pacman_pos = self.objects[i].next_pos();
                let mut j: usize = 0;
                while j < n
                    invariant
                        i < n,
                        ms.len() == n,
                        self.objects@.len() == n,
                        w == self.world(),
                        self.cells == old(self).cells,
                        self.pacman_program == old(self).pacman_program,
                        self.ghost_program == old(self).ghost_program,
                self.cells == old(self).cells,
                self.pacman_program == old(self).pacman_program,
                self.ghost_program == old(self).ghost_program,
                        ms[i as int].obj.kind == ObjectKind::Pacman,
                        pacman_pos == (ms[i as int].next_row, ms[i as int].next_col),
                        forall|k: int| 0 <= k < n ==> ms[k].obj.state == DeathState::Alive,
                        forall|k: int|
                            0 <= k < n ==> self.objects@[k] == with_state(
                                ms[k],
                                if end_upto(ms, is_berry_taken, k, i as int, j as int) {
                                    DeathState::DiesAtEnd
                                } else {
                                    DeathState::Alive
                                },
                            ),
                    decreases n - j,
                {
                    if self.objects[j].obj.kind == ObjectKind::Phantom {
                        let ghost_pos = self.objects[j].next_pos();
                        if pacman_pos.0 == ghost_pos.0 && pacman_pos.1 == ghost_pos.1 {
                            assert(meets_at_end(ms, i as int, j as int));
                            if is_berry_taken {
                                let mut g = self.objects[j];
                                g.obj.state = DeathState::DiesAtEnd;
                                self.objects.set(j, g);
                            } else {
                                let mut p = self.objects[i];
                                p.obj.state = DeathState::DiesAtEnd;
                                self.objects.set(i, p);
                            }
                        }
                    }
                    assert forall|k: int| 0 <= k < n implies self.objects@[k] == with_state(
                        ms[k],
                        if end_upto(ms, is_berry_taken, k, i as int, j + 1) {
                            DeathState::DiesAtEnd
                        } else {
                            DeathState::Alive
                        },
                    ) by {
                        if end_upto(ms, is_berry_taken, k, i as int, j + 1) && !end_upto(ms, is_berry_taken, k, i as int, j as int) {
                            assert(meets_at_end(ms, i as int, j as int));
                        }
                    }
                    j += 1;
                }
            }
            assert forall|k: int| 0 <= k < n implies end_upto(ms, is_berry_taken, k, i as int, n as int)
                == end_upto(ms, is_berry_taken, k, i + 1, 0) by {
                if end_upto(ms, is_berry_taken, k, i + 1, 0) {
                    if is_berry_taken {
                        let p = choose|p: int| 0 <= p < ms.len() && (p < i + 1) && meets_at_end(ms, p, k);
                        assert(p < i || (p == i && k < n));
                    } else {
                        let g = choose|g: int| 0 <= g < ms.len() && (k < i + 1) && meets_at_end(ms, k, g);
                        assert(k < i || (k == i && g < n));
                    }
                }
            }
            i += 1;
        }
        assert forall|k: int| 0 <= k < n implies end_upto(ms, is_berry_taken, k, n as int, 0)
            == killed_at_end(ms, is_berry_taken, k) by {
        }
        // a Pac-Man and a ghost that pass through each other
        let mut i: usize = 0;
        while i < n
            invariant
                ms.len() == n,
                self.objects@.len() == n,
                w == self.world(),
                self.cells == old(self).cells,
                self.pacman_program == old(self).pacman_program,
                self.ghost_program == old(self).ghost_program,
                forall|k: int| 0 <= k < n ==> ms[k].obj.state == DeathState::Alive,
                forall|k: int|
                    0 <= k < n ==> self.objects@[k] == with_state(
                        ms[k],
                        if middle_upto(ms, is_berry_taken, k, i as int, 0) {
                            DeathState::DiesInMiddle
                        } else if killed_at_end(ms, is_berry_taken, k) {
                            DeathState::DiesAtEnd
                        } else {
                            DeathState::Alive
                        },
                    ),
            decreases n - i,
        {
            if self.objects[i].obj.kind == ObjectKind::Pacman {
                let old_pacman_pos = self.objects[i].pos();
                let pacman_pos = self.objects[i].next_pos();
                let mut j: usize = 0;
                while j < n
                    invariant
                        i < n,
                        ms.len() == n,
                        self.objects@.len() == n,
                        w == self.world(),
                        self.cells == old(self).cells,
                        self.pacman_program == old(self).pacman_program,
                        self.ghost_program == old(self).ghost_program,
                        ms[i as int].obj.kind == ObjectKind::Pacman,
                        old_pacman_pos == (ms[i as int].obj.row, ms[i as int].obj.col),
                        pacman_pos == (ms[i as int].next_row, ms[i as int].next_col),
                        forall|k: int| 0 <= k < n ==> ms[k].obj.state == DeathState::Alive,
                        forall|k: int|
                            0 <= k < n ==> self.objects@[k] == with_state(
                                ms[k],
                                if middle_upto(ms, is_berry_taken, k, i as int, j as int) {
                                    DeathState::DiesInMiddle
                                } else if killed_at_end(ms, is_berry_taken, k) {
                                    DeathState::DiesAtEnd
                                } else {
                                    DeathState::Alive
                                },
                            ),
                    decreases n - j,
                {
                    if self.objects[j].obj.kind == ObjectKind::Phantom {
                        let old_ghost_pos = self.objects[j].pos();
                        let ghost_pos = self.objects[j].next_pos();
                        if pacman_pos.0 == old_ghost_pos.0 && pacman_pos.1 == old_ghost_pos.1
                            && old_pacman_pos.0 == ghost_pos.0 && old_pacman_pos.1 == ghost_pos.1 {
                            assert(passes_through(ms, i as int, j as int));
                            if is_berry_taken {
                                let mut g = self.objects[j];
                                g.obj.state = DeathState::DiesInMiddle;
                                self.objects.set(j, g);
                            } else {
                                let mut p = self.objects[i];
                                p.obj.state = DeathState::DiesInMiddle;
                                self.objects.set(i, p);
                            }
                        }
                    }
                    assert forall|k: int| 0 <= k < n implies self.objects@[k] == with_state(
                        ms[k],
                        if middle_upto(ms, is_berry_taken, k, i as int, j + 1) {
                            DeathState::DiesInMiddle
                        } else if killed_at_end(ms, is_berry_taken, k) {
                            DeathState::DiesAtEnd
                        } else {
                            DeathState::Alive
                        },
                    ) by {
                        if middle_upto(ms, is_berry_taken, k, i as int, j + 1) && !middle_upto(ms, is_berry_taken, k, i as int, j as int) {
                            assert(passes_through(ms, i as int, j as int));
                        }
                    }
                    j += 1;
                }
            }
            assert forall|k: int| 0 <= k < n implies middle_upto(ms, is_berry_taken, k, i as int, n as int)
                == middle_upto(ms, is_berry_taken, k, i + 1, 0) by {
                if middle_upto(ms, is_berry_taken, k, i + 1, 0) {
                    if is_berry_taken {
                        let p = choose|p: int| 0 <= p < ms.len() && (p < i + 1) && passes_through(ms, p, k);
                        assert(p < i || (p == i && k < n));
                    } else {
                        let g = choose|g: int| 0 <= g < ms.len() && (k < i + 1) && passes_through(ms, k, g);
                        assert(k < i || (k == i && g < n));
                    }
                }
            }
            i += 1;
        }
        assert forall|k: int| 0 <= k < n implies middle_upto(ms, is_berry_taken, k, n as int, 0)
            == killed_in_middle(ms, is_berry_taken, k) by {
        }
        // a Pac-Man that is still alive eats the first berry on its cell
        let mut i: usize = 0;
        while i < n
            invariant
                ms.len() == n,
                self.objects@.len() == n,
                w == self.world(),
                self.cells == old(self).cells,
                self.pacman_program == old(self).pacman_program,
                self.ghost_program == old(self).ghost_program,
                forall|k: int|
                    0 <= k < n ==> self.objects@[k] == with_state(
                        ms[k],
                        if eaten_upto(ms, is_berry_taken, k, i as int) {
                            DeathState::DiesAtEnd
                        } else {
                            collision_state(ms, is_berry_taken, k)
                        },
                    ),
            decreases n - i,
        {
            proof {
                assert(placements(self.objects@) =~= placements(ms));
            }
            if self.objects[i].obj.kind == ObjectKind::Pacman
                && self.objects[i].obj.state == DeathState::Alive {
                let pacman_pos = self.objects[i].next_pos();
                match self.berry_at(pacman_pos.0, pacman_pos.1) {
                    Some(b) => {
                        let mut o = self.objects[b];
                        o.obj.state = DeathState::DiesAtEnd;
                        self.objects.set(b, o);
                        assert forall|k: int| 0 <= k < n implies self.objects@[k] == with_state(
                            ms[k],
                            if eaten_upto(ms, is_berry_taken, k, i + 1) {
                                DeathState::DiesAtEnd
                            } else {
                                collision_state(ms, is_berry_taken, k)
                            },
                        ) by {
                            if k == b {
                                assert(eaten_upto(ms, is_berry_taken, k, i + 1));
                            } else if eaten_upto(ms, is_berry_taken, k, i + 1) {
                                let p = choose|p: int|
                                    0 <= p < i + 1 && p < ms.len() && ms[p].obj.kind == ObjectKind::Pacman
                                        && collision_state(ms, is_berry_taken, p) == DeathState::Alive
                                        && first_berry_at(placements(ms), k, ms[p].next_row, ms[p].next_col);
                                if p == i {
                                    assert(first_berry_at(placements(ms), b as int, pacman_pos.0, pacman_pos.1));
                                    assert(false);
                                }
                            }
                        }
                    },
                    None => {
                        assert forall|k: int| 0 <= k < n implies eaten_upto(ms, is_berry_taken, k, i + 1)
                            == eaten_upto(ms, is_berry_taken, k, i as int) by {
                            if eaten_upto(ms, is_berry_taken, k, i + 1) {
                                let p = choose|p: int|
                                    0 <= p < i + 1 && p < ms.len() && ms[p].obj.kind == ObjectKind::Pacman
                                        && collision_state(ms, is_berry_taken, p) == DeathState::Alive
                                        && first_berry_at(placements(ms), k, ms[p].next_row, ms[p].next_col);
                                if p == i {
                                    assert(placements(ms)[k] == (pacman_pos.0, pacman_pos.1, ObjectKind::Berry));
                                    assert(false);
                                }
                            }
                        }
                    },
                }
            } else {
                assert forall|k: int| 0 <= k < n implies eaten_upto(ms, is_berry_taken, k, i + 1)
                    == eaten_upto(ms, is_berry_taken, k, i as int) by {
                    if eaten_upto(ms, is_berry_taken, k, i + 1) {
                        let p = choose|p: int|
                            0 <= p < i + 1 && p < ms.len() && ms[p].obj.kind == ObjectKind::Pacman
                                && collision_state(ms, is_berry_taken, p) == DeathState::Alive
                                && first_berry_at(placements(ms), k, ms[p].next_row, ms[p].next_col);
                        if p == i {
                            assert(!eaten_upto(ms, is_berry_taken, i as int, i as int));
                            assert(false);
                        }
                    }
                }
            }
            i += 1;
        }
        assert forall|k: int| 0 <= k < n implies eaten_upto(ms, is_berry_taken, k, n as int)
            == eaten(ms, is_berry_taken, k) by {
        }
        proof {
            assert(self.objects@ =~= resolve(w, pre));
        }
    }

    /// The first berry placed on `(row, col)`, if any.
    fn berry_at(&self, row: u64, col: u64) -> (r: Option<usize>)
        ensures
            match r {
                Some(b) => first_berry_at(placements(self.objects@), b as int, row, col),
                None => forall|b: int|
                    0 <= b < self.objects@.len() ==> placements(self.objects@)[b] != (
                        row,
                        col,
                        ObjectKind::Berry,
                    ),
            },
    {
        let ghost ps = placements(self.objects@);
        let mut j: usize = 0;
        while j < self.objects.len()
            invariant
                j <= self.objects@.len(),
                ps == placements(self.objects@),
                forall|c: int| 0 <= c < j ==> ps[c] != (row, col, ObjectKind::Berry),
            decreases self.objects@.len() - j,
        {
            let o = self.objects[j].obj;
            if o.kind == ObjectKind::Berry && o.row == row && o.col == col {
                return Some(j);
            }
            j += 1;
        }
        None
    }

    fn get_step(&self) -> (r: Step)
        ensures
            r.objects@ == snapshot(self.objects@),
    {
        let mut objects: Vec<Object> = Vec::new();
        let mut i: usize = 0;
        while i < self.objects.len()
            invariant
                i <= self.objects@.len(),
                objects@ == snapshot(self.objects@.subrange(0, i as int)),
            decreases self.objects@.len() - i,
        {
            objects.push(self.objects[i].obj);
            proof {
                assert(objects@ =~= snapshot(self.objects@.subrange(0, i + 1)));
            }
            i += 1;
        }
        proof {
            assert(self.objects@.subrange(0, i as int) =~= self.objects@);
        }
        Step { objects }
    }

    fn finish_moves(&mut self)
        ensures
            final(self).objects@ == commit(old(self).objects@),
            settled(final(self).objects@),
            final(self).cells == old(self).cells,
            final(self).pacman_program == old(self).pacman_program,
            final(self).ghost_program == old(self).ghost_program,
    {
        let ghost pre = self.objects@;
        let mut i: usize = 0;
        while i < self.objects.len()
            invariant
                i <= self.objects@.len(),
                self.objects@.len() == pre.len(),
                self.cells == old(self).cells,
                self.pacman_program == old(self).pacman_program,
                self.ghost_program == old(self).ghost_program,
                forall|k: int| 0 <= k < i ==> self.objects@[k] == commit(pre)[k],
                forall|k: int| i <= k < pre.len() ==> self.objects@[k] == pre[k],
            decreases self.objects@.len() - i,
        {
            let mut o = self.objects[i];
            o.obj.row = o.next_row;
            o.obj.col = o.next_col;
            self.objects.set(i, o);
            i += 1;
        }
        proof {
            assert(self.objects@ =~= commit(pre));
        }
    }

    fn is_victory(&self) -> (r: bool)
        ensures
            r == victory(self.objects@),
    {
        self.objects.len() == 1 && self.objects[0].obj.kind == ObjectKind::Pacman
    }

    fn is_defeat(&self) -> (r: bool)
        ensures
            r == defeat(self.objects@),
    {
        let mut i: usize = 0;
        while i < self.objects.len()
            invariant
                i <= self.objects@.len(),
                forall|k: int| 0 <= k < i ==> self.objects@[k].obj.kind != ObjectKind::Pacman,
            decreases self.objects@.len() - i,
        {
            if self.objects[i].obj.kind == ObjectKind::Pacman {
                return false;
            }
            i += 1;
        }
        true
    }
}

} // verus!
