//! The game registry: the current level, submissions, rate limiters and
//! scoreboards, and the operations that route a submission through them.
//! Timestamps are milliseconds; time penalties are whole seconds.
use vstd::prelude::*;
use crate::contract::{
    Cell,
    Level,
    LevelState,
    Outcome,
    Program,
    Scoreboards,
    Submission,
    SubmissionDetails,
    Submissions,
    SubmitResponse,
};
use crate::evaluator::{
    copy_details,
    copy_level_state,
    evaluate_program,
    evaluates,
    grid,
    same_details,
};
use crate::rate_limiter::{fresh, on_submit, LimiterView, RateLimiter};
use crate::scoreboard::{evaluated, merged, presents, Penalty, Scoreboard, UserScore};

verus! {

/// Bound and window (in milliseconds) of a user's rate limiter.
#[derive(Clone, Copy, Debug, PartialEq, Eq, Structural)]
pub struct RateLimit {
    pub count: usize,
    pub window: i64,
}

/// Settings of the judge.
#[derive(Clone, Copy, Debug, PartialEq, Eq, Structural)]
pub struct GameConfig {
    pub max_steps: u64,
    pub rate_limit: RateLimit,
}

struct UserSubmission {
    user: String,
    details: SubmissionDetails,
}

/// The whole mutable state of the judge.
pub struct PacmanGame {
    global_scores: Scoreboard,
    level_scores: Scoreboard,
    current_level: Level,
    limiter_users: Vec<String>,
    limiters: Vec<RateLimiter>,
    is_level_closed: bool,
    config: GameConfig,
    level_start: i64,
    submissions: Vec<UserSubmission>,
}

/// What the registry holds.
pub struct GameView {
    pub global: Seq<(Seq<char>, UserScore)>,
    pub level_scores: Seq<(Seq<char>, UserScore)>,
    pub level: Level,
    pub limiters: Seq<(Seq<char>, LimiterView)>,
    pub closed: bool,
    pub config: GameConfig,
    pub level_start: i64,
    pub submissions: Seq<(Seq<char>, SubmissionDetails)>,
}

/// The placeholder level installed before the first real one: a single
/// wall cell, no objects, and a ghost program without rules.
pub open spec fn is_empty_level(level: Level) -> bool {
    &&& grid(level.state.cells) == seq![seq![Cell::Wall]]
    &&& level.state.objects@.len() == 0
    &&& level.ghost_program.rules@.len() == 0
}

/// The limiter that a submission of `user` goes through: its own, or a
/// new one made from the configured defaults.
pub open spec fn limiter_for(
    ls: Seq<(Seq<char>, LimiterView)>,
    user: Seq<char>,
    cfg: RateLimit,
) -> LimiterView {
    if exists|i: int| 0 <= i < ls.len() && ls[i].0 == user {
        ls[choose|i: int| 0 <= i < ls.len() && ls[i].0 == user].1
    } else {
        fresh(cfg.count as nat, cfg.window as int)
    }
}

/// `ls` with `user`'s limiter set to `l`.
pub open spec fn with_limiter(
    ls: Seq<(Seq<char>, LimiterView)>,
    user: Seq<char>,
    l: LimiterView,
) -> Seq<(Seq<char>, LimiterView)> {
    if exists|i: int| 0 <= i < ls.len() && ls[i].0 == user {
        ls.update(choose|i: int| 0 <= i < ls.len() && ls[i].0 == user, (user, l))
    } else {
        ls.push((user, l))
    }
}

/// Whole seconds between `start` and `now` (milliseconds), rounded toward zero.
pub open spec fn seconds_between(start: i64, now: i64) -> int {
    let d = now - start;
    if d >= 0 {
        d / 1000
    } else {
        -((-d) / 1000)
    }
}

/// The speed penalty of an evaluation with `ticks` steps.
pub open spec fn speed_of(ticks: nat) -> u64 {
    if ticks == 0 {
        0
    } else {
        (ticks - 1) as u64
    }
}

spec fn distinct_names(s: Seq<String>) -> bool {
    forall|i: int, j: int| 0 <= i < j < s.len() ==> s[i]@ != s[j]@
}

fn empty_level() -> (r: Level)
    ensures
        is_empty_level(r),
{
    let mut row: Vec<Cell> = Vec::new();
    row.push(Cell::Wall);
    let mut cells: Vec<Vec<Cell>> = Vec::new();
    cells.push(row);
    let r = Level {
        state: LevelState { cells, objects: Vec::new() },
        ghost_program: Program { rules: Vec::new() },
    };
    proof {
        assert(grid(r.state.cells) =~= seq![seq![Cell::Wall]]);
    }
    r
}

/// Whole seconds from `start` to `now`.
fn elapsed_seconds(start: i64, now: i64) -> (r: i64)
    ensures
        r as int == seconds_between(start, now),
{
    let d: i128 = (now as i128) - (start as i128);
    if d >= 0 {
        ((d as u128) / 1000) as i64
    } else {
        -((((-d) as u128) / 1000) as i64)
    }
}

impl View for PacmanGame {
    type V = GameView;

    closed spec fn view(&self) -> GameView {
        GameView {
            global: self.global_scores@,
            level_scores: self.level_scores@,
            level: self.current_level,
            limiters: Seq::new(
                self.limiters@.len(),
                |i: int| (self.limiter_users@[i]@, self.limiters@[i]@),
            ),
            closed: self.is_level_closed,
            config: self.config,
            level_start: self.level_start,
            submissions: self.submissions@.map_values(
                |s: UserSubmission| (s.user@, s.details),
            ),
        }
    }
}

impl PacmanGame {
    /// Scoreboards and limiters are well formed, and the configured
    /// limiter bound is at least one.
    pub closed spec fn wf(&self) -> bool {
        &&& self.global_scores.wf()
        &&& self.level_scores.wf()
        &&& self.limiter_users@.len() == self.limiters@.len()
        &&& distinct_names(self.limiter_users@)
        &&& forall|i: int| 0 <= i < self.limiters@.len() ==> (#[trigger] self.limiters@[i]).wf()
        &&& self.config.rate_limit.count >= 1
    }

    /// A judge with empty scoreboards and a closed placeholder level.
    pub fn new(config: GameConfig) -> (r: Self)
        requires
            config.rate_limit.count >= 1,
        ensures
            r.wf(),
            r@.global.len() == 0,
            r@.level_scores.len() == 0,
            is_empty_level(r@.level),
            r@.limiters.len() == 0,
            r@.closed,
            r@.config == config,
            r@.level_start == 0,
            r@.submissions.len() == 0,
    {
        PacmanGame {
            global_scores: Scoreboard::new(),
            level_scores: Scoreboard::new(),
            current_level: empty_level(),
            limiter_users: Vec::new(),
            limiters: Vec::new(),
            is_level_closed: true,
            config,
            level_start: 0,
            submissions: Vec::new(),
        }
    }

    /// A new judge whose cumulative scoreboard is `global`.
    pub fn with_global_scores(config: GameConfig, global: Scoreboard) -> (r: Self)
        requires
            config.rate_limit.count >= 1,
            global.wf(),
        ensures
            r.wf(),
            r@.global == global@,
            r@.level_scores.len() == 0,
            is_empty_level(r@.level),
            r@.limiters.len() == 0,
            r@.closed,
            r@.config == config,
            r@.level_start == 0,
            r@.submissions.len() == 0,
    {
        let mut game = Self::new(config);
        game.global_scores = global;
        game
    }

    /// The cumulative scoreboard, without the current level.
    pub fn global_scores(&self) -> (r: &Scoreboard)
        requires
            self.wf(),
        ensures
            r.wf(),
            r@ == self@.global,
    {
        &self.global_scores
    }

    pub fn set_config(&mut self, config: GameConfig)
        requires
            old(self).wf(),
            config.rate_limit.count >= 1,
        ensures
            final(self).wf(),
            final(self)@ == (GameView { config, ..old(self)@ }),
    {
        self.config = config;
    }

    /// Installs a new level: the level's scores are added to the cumulative
    /// ones, and submissions, level scores and limiters start afresh.
    pub fn set_level(&mut self, level: Level, now: i64)
        requires
            old(self).wf(),
        ensures
            final(self).wf(),
            final(self)@.global == merged(old(self)@.global, old(self)@.level_scores),
            final(self)@.level_scores.len() == 0,
            final(self)@.level == level,
            final(self)@.limiters.len() == 0,
            !final(self)@.closed,
            final(self)@.config == old(self)@.config,
            final(self)@.level_start == now,
            final(self)@.submissions.len() == 0,
    {
        self.global_scores.add_level_scores(&self.level_scores);
        self.level_scores = Scoreboard::new();
        self.current_level = level;
        self.limiter_users = Vec::new();
        self.limiters = Vec::new();
        self.is_level_closed = false;
        self.level_start = now;
        self.submissions = Vec::new();
        proof {
            assert(self@.limiters =~= Seq::<(Seq<char>, LimiterView)>::empty());
            assert(self@.submissions =~= Seq::<(Seq<char>, SubmissionDetails)>::empty());
        }
    }

    pub fn set_level_state(&mut self, closed: bool)
        requires
            old(self).wf(),
        ensures
            final(self).wf(),
            final(self)@ == (GameView { closed, ..old(self)@ }),
    {
        self.is_level_closed = closed;
    }

    /// The level's ranking, and the cumulative ranking with the level's
    /// results included; both break ties by speed.
    pub fn get_scores(&self) -> (r: Scoreboards)
        requires
            self.wf(),
        ensures
            r.scoreboards@.len() == 2,
            presents(r.scoreboards@[0], "Results"@, self@.level_scores, Penalty::Speed),
            presents(
                r.scoreboards@[1],
                "Total"@,
                merged(self@.global, self@.level_scores),
                Penalty::Speed,
            ),
    {
        let mut global = self.global_scores.duplicate();
        global.add_level_scores(&self.level_scores);
        let mut scoreboards = Vec::new();
        scoreboards.push(self.level_scores.to_contract_with_speed("Results"));
        scoreboards.push(global.to_contract_with_speed("Total"));
        Scoreboards { scoreboards }
    }

    /// Position of `user`'s limiter.
    fn find_limiter(&self, user: &String) -> (r: Option<usize>)
        requires
            self.wf(),
        ensures
            match r {
                Some(i) => i < self@.limiters.len() && self@.limiters[i as int].0 == user@ && (choose|
                    j: int,
                | 0 <= j < self@.limiters.len() && self@.limiters[j].0 == user@) == i,
                None => !(exists|j: int|
                    0 <= j < self@.limiters.len() && self@.limiters[j].0 == user@),
            },
    {
        let mut i: usize = 0;
        while i < self.limiter_users.len()
            invariant
                self.wf(),
                i <= self.limiter_users@.len(),
                forall|k: int| 0 <= k < i ==> self.limiter_users@[k]@ != user@,
            decreases self.limiter_users@.len() - i,
        {
            if self.limiter_users[i] == *user {
                proof {
                    let ls = self@.limiters;
                    assert(ls[i as int].0 == user@);
                    let j = choose|j: int| 0 <= j < ls.len() && ls[j].0 == user@;
                    if j != i {
                        if j < i {
                            assert(self.limiter_users@[j]@ != self.limiter_users@[i as int]@);
                        } else {
                            assert(self.limiter_users@[i as int]@ != self.limiter_users@[j]@);
                        }
                    }
                }
                return Some(i);
            }
            i += 1;
        }
        proof {
            let ls = self@.limiters;
            assert forall|j: int| 0 <= j < ls.len() implies ls[j].0 != user@ by {
                assert(ls[j].0 == self.limiter_users@[j]@);
            }
        }
        None
    }

    /// Creates `user`'s limiter, or changes its bound and window and keeps
    /// what it stored.
    pub fn rate_limit_user(&mut self, user: &str, limit: RateLimit)
        requires
            old(self).wf(),
            limit.count >= 1,
        ensures
            final(self).wf(),
            final(self)@ == (GameView {
                limiters: with_limiter(
                    old(self)@.limiters,
                    user@,
                    LimiterView {
                        max: limit.count as nat,
                        window: limit.window as int,
                        entries: limiter_for(old(self)@.limiters, user@, old(self)@.config.rate_limit).entries,
                    },
                ),
                ..old(self)@
            }),
    {
        let name = String::from_str(user);
        match self.find_limiter(&name) {
            Some(i) => {
                let mut limiter = self.limiters.remove(i);
                limiter.configure(limit.count, limit.window);
                self.limiters.insert(i, limiter);
                proof {
                    assert(self@.limiters =~= with_limiter(
                        old(self)@.limiters,
                        user@,
                        LimiterView {
                            max: limit.count as nat,
                            window: limit.window as int,
                            entries: limiter_for(old(self)@.limiters, user@, old(self)@.config.rate_limit).entries,
                        },
                    ));
                }
            },
            None => {
                self.limiter_users.push(name);
                self.limiters.push(RateLimiter::new(limit.count, limit.window));
                proof {
                    assert(self@.limiters =~= with_limiter(
                        old(self)@.limiters,
                        user@,
                        LimiterView {
                            max: limit.count as nat,
                            window: limit.window as int,
                            entries: limiter_for(old(self)@.limiters, user@, old(self)@.config.rate_limit).entries,
                        },
                    ));
                    assert forall|a: int, b: int|
                        0 <= a < b < self.limiter_users@.len() implies self.limiter_users@[a]@
                        != self.limiter_users@[b]@ by {
                        if b == old(self).limiter_users@.len() {
                            assert(old(self)@.limiters[a].0 != user@);
                        }
                    }
                }
            },
        }
    }

    /// Passes `user`'s submission through the rate limiter; when admitted,
    /// evaluates `program` on the current level, records a success on the
    /// level scoreboard, and appends the submission.
    pub fn submit_program(&mut self, user: &str, program: &Program, now: i64) -> (r:
        SubmitResponse)
        requires
            old(self).wf(),
        ensures
            final(self).wf(),
            old(self)@.closed ==> r == SubmitResponse::LevelClosed && final(self)@ == old(self)@,
            !old(self)@.closed ==> {
                let lim = limiter_for(old(self)@.limiters, user@, old(self)@.config.rate_limit);
                let (lim2, admitted) = on_submit(lim, now);
                &&& final(self)@.limiters == with_limiter(old(self)@.limiters, user@, lim2)
                &&& final(self)@.global == old(self)@.global
                &&& final(self)@.level == old(self)@.level
                &&& final(self)@.closed == old(self)@.closed
                &&& final(self)@.config == old(self)@.config
                &&& final(self)@.level_start == old(self)@.level_start
                &&& (!admitted ==> {
                    &&& r == SubmitResponse::RateLimitExceeded
                    &&& final(self)@.level_scores == old(self)@.level_scores
                    &&& final(self)@.submissions == old(self)@.submissions
                })
                &&& (admitted ==> {
                    let d = final(self)@.submissions.last().1;
                    &&& r == SubmitResponse::Accepted
                    &&& final(self)@.submissions.len() == old(self)@.submissions.len() + 1
                    &&& final(self)@.submissions.drop_last() == old(self)@.submissions
                    &&& final(self)@.submissions.last().0 == user@
                    &&& evaluates(d, old(self)@.level, *program, old(self)@.config.max_steps)
                    &&& final(self)@.level_scores == if d.outcome == Outcome::Success {
                        evaluated(
                            old(self)@.level_scores,
                            user@,
                            seconds_between(old(self)@.level_start, now) as i64,
                            program.rules@.len() as u64,
                            speed_of(d.steps@.len()),
                        )
                    } else {
                        old(self)@.level_scores
                    }
                })
            },
    {
        if self.is_level_closed {
            return SubmitResponse::LevelClosed;
        }
        let name = String::from_str(user);
        let index = match self.find_limiter(&name) {
            Some(i) => i,
            None => {
                let rate_limit = self.config.rate_limit;
                self.limiter_users.push(name);
                self.limiters.push(RateLimiter::new(rate_limit.count, rate_limit.window));
                proof {
                    assert forall|a: int, b: int|
                        0 <= a < b < self.limiter_users@.len() implies self.limiter_users@[a]@
                        != self.limiter_users@[b]@ by {
                        if b == old(self).limiter_users@.len() {
                            assert(old(self)@.limiters[a].0 != user@);
                        }
                    }
                }
                self.limiters.len() - 1
            },
        };
        let ghost lim = limiter_for(old(self)@.limiters, user@, old(self)@.config.rate_limit);
        assert(self.limiters@[index as int]@ == lim);
        let mut limiter = self.limiters.remove(index);
        let can_submit = limiter.submit(now);
        self.limiters.insert(index, limiter);
        proof {
            assert(self@.limiters =~= with_limiter(old(self)@.limiters, user@, on_submit(lim, now).0));
        }
        match can_submit {
            Ok(()) => {
                let details = evaluate_program(&self.current_level, program, self.config.max_steps);
                if details.outcome == Outcome::Success {
                    let time_penalty = elapsed_seconds(self.level_start, now);
                    let steps = details.steps.len() as u64;
                    let speed = if steps == 0 {
                        0
                    } else {
                        steps - 1
                    };
                    self.level_scores.add_user_evaluation(
                        user,
                        time_penalty,
                        program.rules.len() as u64,
                        speed,
                    );
                }
                self.submissions.push(UserSubmission { user: String::from_str(user), details });
                proof {
                    let subs = self@.submissions;
                    assert(subs.drop_last() =~= old(self)@.submissions);
                }
                SubmitResponse::Accepted
            },
            Err(_) => SubmitResponse::RateLimitExceeded,
        }
    }

    /// Ids and authors of all submissions of the level, with the level
    /// itself and whether it is closed.
    pub fn all_submissions(&self) -> (r: Submissions)
        requires
            self.wf(),
        ensures
            r.level_closed == self@.closed,
            grid(r.level.cells) == grid(self@.level.state.cells),
            r.level.objects@ == self@.level.state.objects@,
            r.submissions@.len() == self@.submissions.len(),
            forall|i: int|
                0 <= i < r.submissions@.len() ==> r.submissions@[i].id == i
                    && r.submissions@[i].user@ == self@.submissions[i].0,
    {
        let mut submissions: Vec<Submission> = Vec::new();
        let mut i: usize = 0;
        while i < self.submissions.len()
            invariant
                i <= self.submissions@.len(),
                submissions@.len() == i,
                forall|k: int|
                    0 <= k < i ==> submissions@[k].id == k && submissions@[k].user@
                        == self.submissions@[k].user@,
            decreases self.submissions@.len() - i,
        {
            submissions.push(Submission { id: i as u64, user: self.submissions[i].user.clone() });
            i += 1;
        }
        Submissions {
            submissions,
            level_closed: self.is_level_closed,
            level: copy_level_state(&self.current_level.state),
        }
    }

    /// The evaluation of submission `id`, if there is one.
    pub fn submission_details(&self, id: u64) -> (r: Option<SubmissionDetails>)
        requires
            self.wf(),
        ensures
            r is Some <==> id < self@.submissions.len(),
            r matches Some(d) ==> same_details(d, self@.submissions[id as int].1),
    {
        if id < self.submissions.len() as u64 {
            Some(copy_details(&self.submissions[id as usize].details))
        } else {
            None
        }
    }
}

} // verus!
