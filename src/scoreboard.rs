//! Per-user best scores, for one level or accumulated over levels, and
//! their ranked, displayable form.
use vstd::prelude::*;
use crate::contract;

verus! {

/// One user's record: levels solved and three penalties (smaller is better).
#[derive(Clone, Copy, Debug, PartialEq, Eq, Structural)]
pub struct UserScore {
    pub solved_levels: u64,
    pub time_penalty: i64,
    pub size_penalty: u64,
    pub speed_penalty: u64,
}

/// Records keyed by user name, in the order users first appeared.
#[derive(Clone, Debug)]
pub struct Scoreboard {
    users: Vec<String>,
    scores: Vec<UserScore>,
}

/// Which penalty breaks ties between users who solved as many levels.
#[derive(Clone, Copy, Debug, PartialEq, Eq, Structural)]
pub enum Penalty {
    Time,
    Size,
    Speed,
}

/// The first record of a user: one level solved, with these penalties.
pub open spec fn first_score(time: i64, size: u64, speed: u64) -> UserScore {
    UserScore { solved_levels: 1, time_penalty: time, size_penalty: size, speed_penalty: speed }
}

/// A user's record after one more successful submission in the same level.
pub open spec fn improved(s: UserScore, time: i64, size: u64, speed: u64) -> UserScore {
    if s.solved_levels == 0 {
        first_score(time, size, speed)
    } else {
        UserScore {
            solved_levels: s.solved_levels,
            time_penalty: if time < s.time_penalty { time } else { s.time_penalty },
            size_penalty: if size < s.size_penalty { size } else { s.size_penalty },
            speed_penalty: if speed < s.speed_penalty { speed } else { s.speed_penalty },
        }
    }
}

/// `x` clamped to the range of `u64`.
pub open spec fn clamp_u64(x: int) -> u64 {
    if x > u64::MAX {
        u64::MAX
    } else {
        x as u64
    }
}

/// `x` clamped to the range of `i64`.
pub open spec fn clamp_i64(x: int) -> i64 {
    if x > i64::MAX {
        i64::MAX
    } else if x < i64::MIN {
        i64::MIN
    } else {
        x as i64
    }
}

/// Two records added field by field, saturating at the integer bounds.
pub open spec fn combined(a: UserScore, b: UserScore) -> UserScore {
    UserScore {
        solved_levels: clamp_u64(a.solved_levels + b.solved_levels),
        time_penalty: clamp_i64(a.time_penalty + b.time_penalty),
        size_penalty: clamp_u64(a.size_penalty + b.size_penalty),
        speed_penalty: clamp_u64(a.speed_penalty + b.speed_penalty),
    }
}

/// `user` has a record in `s`.
pub open spec fn has_user(s: Seq<(Seq<char>, UserScore)>, user: Seq<char>) -> bool {
    exists|i: int| 0 <= i < s.len() && s[i].0 == user
}

/// Index of `user`'s record in `s`, when it has one.
pub open spec fn index_of(s: Seq<(Seq<char>, UserScore)>, user: Seq<char>) -> int {
    choose|i: int| 0 <= i < s.len() && s[i].0 == user
}

/// No user has two records.
pub open spec fn distinct_users(s: Seq<(Seq<char>, UserScore)>) -> bool {
    forall|i: int, j: int| 0 <= i < j < s.len() ==> s[i].0 != s[j].0
}

/// `s` after a successful submission of `user` in the current level.
pub open spec fn evaluated(
    s: Seq<(Seq<char>, UserScore)>,
    user: Seq<char>,
    time: i64,
    size: u64,
    speed: u64,
) -> Seq<(Seq<char>, UserScore)> {
    if has_user(s, user) {
        let i = index_of(s, user);
        s.update(i, (user, improved(s[i].1, time, size, speed)))
    } else {
        s.push((user, first_score(time, size, speed)))
    }
}

/// `s` with one more record added in: summed with the user's own, or appended.
pub open spec fn merged_one(
    s: Seq<(Seq<char>, UserScore)>,
    entry: (Seq<char>, UserScore),
) -> Seq<(Seq<char>, UserScore)> {
    if has_user(s, entry.0) {
        let i = index_of(s, entry.0);
        s.update(i, (entry.0, combined(s[i].1, entry.1)))
    } else {
        s.push(entry)
    }
}

/// `s` with every record of `level` added in, in order.
pub open spec fn merged(
    s: Seq<(Seq<char>, UserScore)>,
    level: Seq<(Seq<char>, UserScore)>,
) -> Seq<(Seq<char>, UserScore)>
    decreases level.len(),
{
    if level.len() == 0 {
        s
    } else {
        merged_one(merged(s, level.drop_last()), level.last())
    }
}

/// The penalty shown for `s` in a view.
pub open spec fn penalty_of(s: UserScore, p: Penalty) -> int {
    match p {
        Penalty::Time => s.time_penalty as int,
        Penalty::Size => s.size_penalty as int,
        Penalty::Speed => s.speed_penalty as int,
    }
}

/// Strict lexicographic order on character sequences.
pub open spec fn text_before(a: Seq<char>, b: Seq<char>) -> bool
    decreases a.len(),
{
    if a.len() == 0 {
        b.len() > 0
    } else if b.len() == 0 {
        false
    } else if a[0] != b[0] {
        (a[0] as u32) < (b[0] as u32)
    } else {
        text_before(a.drop_first(), b.drop_first())
    }
}

/// A ranking row: user, levels solved, penalty.
pub type Row = (Seq<char>, u64, int);

/// Row `a` ranks strictly above row `b`: more levels solved, else a
/// smaller penalty, else a smaller user name.
pub open spec fn ranks_before(a: Row, b: Row) -> bool {
    ||| a.1 > b.1
    ||| (a.1 == b.1 && a.2 < b.2)
    ||| (a.1 == b.1 && a.2 == b.2 && text_before(a.0, b.0))
}

/// The first index from `j` on whose row `x` ranks above, or the length.
pub open spec fn slot_for(sorted: Seq<Row>, x: Row, j: int) -> int
    decreases sorted.len() - j,
{
    if j >= sorted.len() {
        sorted.len() as int
    } else if ranks_before(x, sorted[j]) {
        j
    } else {
        slot_for(sorted, x, j + 1)
    }
}

/// `rows` ranked by insertion, one row after the other.
pub open spec fn ranked(rows: Seq<Row>) -> Seq<Row>
    decreases rows.len(),
{
    if rows.len() == 0 {
        rows
    } else {
        let r = ranked(rows.drop_last());
        let x = rows.last();
        r.insert(slot_for(r, x, 0), x)
    }
}

/// The ranking rows of `s` for penalty `p`, in record order.
pub open spec fn rows_of(s: Seq<(Seq<char>, UserScore)>, p: Penalty) -> Seq<Row> {
    s.map_values(|e: (Seq<char>, UserScore)| (e.0, e.1.solved_levels, penalty_of(e.1, p)))
}

/// The character of decimal digit `d`.
pub open spec fn digit(d: nat) -> char {
    if d == 0 {
        '0'
    } else if d == 1 {
        '1'
    } else if d == 2 {
        '2'
    } else if d == 3 {
        '3'
    } else if d == 4 {
        '4'
    } else if d == 5 {
        '5'
    } else if d == 6 {
        '6'
    } else if d == 7 {
        '7'
    } else if d == 8 {
        '8'
    } else {
        '9'
    }
}

/// Decimal digits of `n`, without leading zeros.
pub open spec fn decimal(n: nat) -> Seq<char>
    decreases n,
{
    if n < 10 {
        seq![digit(n)]
    } else {
        decimal(n / 10).push(digit(n % 10))
    }
}

/// Decimal text of an integer, with a minus sign when negative.
pub open spec fn int_text(n: int) -> Seq<char> {
    if n < 0 {
        seq!['-'] + decimal((-n) as nat)
    } else {
        decimal(n as nat)
    }
}

/// `"M:SS"` for a number of seconds: whole minutes, then the remaining
/// seconds on two digits; a negative value is the text of its absolute
/// value after a minus sign.
pub open spec fn time_text(t: int) -> Seq<char> {
    let a = if t < 0 {
        -t
    } else {
        t
    };
    let sign = if t < 0 {
        seq!['-']
    } else {
        Seq::<char>::empty()
    };
    sign + decimal((a / 60) as nat) + seq![':', digit(((a % 60) / 10) as nat), digit((a % 10) as nat)]
}

/// The tie-breaker text of a penalty in a view.
pub open spec fn penalty_text(p: Penalty, v: int) -> Seq<char> {
    match p {
        Penalty::Time => time_text(v),
        _ => int_text(v),
    }
}

fn digit_str(d: u64) -> (r: &'static str)
    requires
        d < 10,
    ensures
        r@ == seq![digit(d as nat)],
{
    if d == 0 {
        proof {
            reveal_strlit("0");
        }
        "0"
    } else if d == 1 {
        proof {
            reveal_strlit("1");
        }
        "1"
    } else if d == 2 {
        proof {
            reveal_strlit("2");
        }
        "2"
    } else if d == 3 {
        proof {
            reveal_strlit("3");
        }
        "3"
    } else if d == 4 {
        proof {
            reveal_strlit("4");
        }
        "4"
    } else if d == 5 {
        proof {
            reveal_strlit("5");
        }
        "5"
    } else if d == 6 {
        proof {
            reveal_strlit("6");
        }
        "6"
    } else if d == 7 {
        proof {
            reveal_strlit("7");
        }
        "7"
    } else if d == 8 {
        proof {
            reveal_strlit("8");
        }
        "8"
    } else {
        proof {
            reveal_strlit("9");
        }
        "9"
    }
}

/// Appends the decimal digits of `n` to `s`.
fn push_decimal(s: &mut String, n: u64)
    ensures
        final(s)@ == old(s)@ + decimal(n as nat),
    decreases n,
{
    if n < 10 {
        s.append(digit_str(n));
    } else {
        push_decimal(s, n / 10);
        s.append(digit_str(n % 10));
        proof {
            assert(old(s)@ + decimal((n / 10) as nat) + seq![digit((n % 10) as nat)] =~= old(s)@
                + decimal(n as nat));
        }
    }
}

/// Magnitude of `n`.
fn magnitude(n: i64) -> (r: u64)
    ensures
        r as int == (if n < 0 {
            -n
        } else {
            n as int
        }),
{
    if n < 0 {
        (-(n as i128)) as u64
    } else {
        n as u64
    }
}

/// Decimal text of `n`.
pub fn int_to_text(n: i128) -> (r: String)
    requires
        -(u64::MAX as int) <= n <= u64::MAX,
    ensures
        r@ == int_text(n as int),
{
    let mut s = String::new();
    if n < 0 {
        proof {
            reveal_strlit("-");
        }
        s.append("-");
        push_decimal(&mut s, (-n) as u64);
    } else {
        push_decimal(&mut s, n as u64);
    }
    s
}

/// `"M:SS"` text of a time penalty in seconds.
pub fn format_time_penalty(time: i64) -> (r: String)
    ensures
        r@ == time_text(time as int),
{
    let a = magnitude(time);
    let mut s = String::new();
    if time < 0 {
        proof {
            reveal_strlit("-");
        }
        s.append("-");
    }
    push_decimal(&mut s, a / 60);
    proof {
        reveal_strlit(":");
    }
    s.append(":");
    s.append(digit_str((a % 60) / 10));
    s.append(digit_str(a % 10));
    proof {
        assert(s@ =~= time_text(time as int));
    }
    s
}

/// One ranking row as the library holds it.
struct Standing {
    user: String,
    solved: u64,
    penalty: i128,
}

spec fn row_of(s: Standing) -> Row {
    (s.user@, s.solved, s.penalty as int)
}

spec fn rows(s: Seq<Standing>) -> Seq<Row> {
    s.map_values(|x: Standing| row_of(x))
}

/// A displayed entry shows `row` with the tie-breaker text of penalty `p`.
pub open spec fn shows(e: contract::ScoreboardEntry, row: Row, p: Penalty) -> bool {
    &&& e.user@ == row.0
    &&& e.solved == row.1
    &&& e.tie_breaker@ == penalty_text(p, row.2)
}

/// The records of a list of user names and scores.
pub open spec fn record_view(v: Seq<(String, UserScore)>) -> Seq<(Seq<char>, UserScore)> {
    v.map_values(|e: (String, UserScore)| (e.0@, e.1))
}

/// `r` is the ranked view titled `title` of the records `s`, by penalty `p`.
pub open spec fn presents(
    r: contract::Scoreboard,
    title: Seq<char>,
    s: Seq<(Seq<char>, UserScore)>,
    p: Penalty,
) -> bool {
    &&& r.title@ == title
    &&& r.entries@.len() == s.len()
    &&& forall|i: int| 0 <= i < r.entries@.len() ==> shows(r.entries@[i], ranked(rows_of(s, p))[i], p)
}

/// Ranking a list keeps its length.
pub proof fn lemma_ranked_len(rows: Seq<Row>)
    ensures
        ranked(rows).len() == rows.len(),
    decreases rows.len(),
{
    if rows.len() > 0 {
        lemma_ranked_len(rows.drop_last());
        lemma_slot_for(ranked(rows.drop_last()), rows.last(), 0);
    }
}

/// Strict lexicographic order on text, decided character by character.
fn text_before_exec(a: &str, b: &str) -> (r: bool)
    ensures
        r == text_before(a@, b@),
{
    let la = a.unicode_len();
    let lb = b.unicode_len();
    let mut i: usize = 0;
    proof {
        assert(a@.skip(0) =~= a@);
        assert(b@.skip(0) =~= b@);
    }
    while i < la && i < lb
        invariant
            la == a@.len(),
            lb == b@.len(),
            i <= la,
            i <= lb,
            text_before(a@, b@) == text_before(a@.skip(i as int), b@.skip(i as int)),
        decreases la - i,
    {
        let ca = a.get_char(i);
        let cb = b.get_char(i);
        if ca != cb {
            return (ca as u32) < (cb as u32);
        }
        proof {
            assert(a@.skip(i as int).drop_first() =~= a@.skip(i + 1));
            assert(b@.skip(i as int).drop_first() =~= b@.skip(i + 1));
        }
        i += 1;
    }
    i == la && i < lb
}

fn ranks_before_exec(a: &Standing, b: &Standing) -> (r: bool)
    ensures
        r == ranks_before(row_of(*a), row_of(*b)),
{
    if a.solved != b.solved {
        a.solved > b.solved
    } else if a.penalty != b.penalty {
        a.penalty < b.penalty
    } else {
        text_before_exec(a.user.as_str(), b.user.as_str())
    }
}

/// Where `x` goes in the ranked list `out`: before the first row it ranks above.
fn slot(out: &Vec<Standing>, x: &Standing) -> (r: usize)
    ensures
        r as int == slot_for(rows(out@), row_of(*x), 0),
        r <= out@.len(),
{
    let ghost rs = rows(out@);
    let mut j: usize = 0;
    while j < out.len()
        invariant
            j <= out@.len(),
            rs == rows(out@),
            slot_for(rs, row_of(*x), 0) == slot_for(rs, row_of(*x), j as int),
        decreases out@.len() - j,
    {
        if ranks_before_exec(x, &out[j]) {
            return j;
        }
        j += 1;
    }
    j
}

impl View for Scoreboard {
    type V = Seq<(Seq<char>, UserScore)>;

    closed spec fn view(&self) -> Seq<(Seq<char>, UserScore)> {
        Seq::new(self.users@.len(), |i: int| (self.users@[i]@, self.scores@[i]))
    }
}

impl Scoreboard {
    /// Users and records line up, and no user has two records.
    pub closed spec fn wf(&self) -> bool {
        &&& self.users@.len() == self.scores@.len()
        &&& distinct_users(self@)
    }

    pub fn new() -> (r: Self)
        ensures
            r.wf(),
            r@ == Seq::<(Seq<char>, UserScore)>::empty(),
    {
        let r = Scoreboard { users: Vec::new(), scores: Vec::new() };
        proof {
            assert(r@ =~= Seq::<(Seq<char>, UserScore)>::empty());
        }
        r
    }

    /// Position of `user`'s record.
    fn find(&self, user: &String) -> (r: Option<usize>)
        requires
            self.wf(),
        ensures
            match r {
                Some(i) => i < self@.len() && self@[i as int].0 == user@ && index_of(self@, user@)
                    == i,
                None => !has_user(self@, user@),
            },
    {
        let mut i: usize = 0;
        while i < self.users.len()
            invariant
                self.wf(),
                i <= self.users@.len(),
                forall|k: int| 0 <= k < i ==> self@[k].0 != user@,
            decreases self.users@.len() - i,
        {
            if self.users[i] == *user {
                proof {
                    assert(self@[i as int].0 == user@);
                    let j = index_of(self@, user@);
                    assert(0 <= j < self@.len() && self@[j].0 == user@);
                    if j != i {
                        if j < i {
                            assert(self@[j].0 != self@[i as int].0);
                        } else {
                            assert(self@[i as int].0 != self@[j].0);
                        }
                    }
                }
                return Some(i);
            }
            i += 1;
        }
        None
    }

    /// A copy of this scoreboard.
    pub fn duplicate(&self) -> (r: Scoreboard)
        requires
            self.wf(),
        ensures
            r.wf(),
            r@ == self@,
    {
        let mut users: Vec<String> = Vec::new();
        let mut scores: Vec<UserScore> = Vec::new();
        let mut i: usize = 0;
        while i < self.users.len()
            invariant
                self.wf(),
                i <= self@.len(),
                users@.len() == i,
                scores@.len() == i,
                forall|k: int| 0 <= k < i ==> #[trigger] users@[k]@ == self.users@[k]@,
                forall|k: int| 0 <= k < i ==> #[trigger] scores@[k] == self.scores@[k],
            decreases self@.len() - i,
        {
            let ghost prev_users = users@;
            let ghost prev_scores = scores@;
            users.push(self.users[i].clone());
            scores.push(self.scores[i]);
            assert forall|k: int| 0 <= k < i + 1 implies #[trigger] users@[k]@ == self.users@[k]@ by {
                if k < i {
                    assert(users@[k] == prev_users[k]);
                }
            }
            assert forall|k: int| 0 <= k < i + 1 implies #[trigger] scores@[k] == self.scores@[k] by {
                if k < i {
                    assert(scores@[k] == prev_scores[k]);
                }
            }
            i += 1;
        }
        let r = Scoreboard { users, scores };
        proof {
            assert(r@ =~= self@);
        }
        r
    }

    /// Every record, in order.
    pub fn records(&self) -> (r: Vec<(String, UserScore)>)
        requires
            self.wf(),
        ensures
            r@.len() == self@.len(),
            forall|k: int| 0 <= k < r@.len() ==> (r@[k].0@, r@[k].1) == self@[k],
    {
        let mut out: Vec<(String, UserScore)> = Vec::new();
        let mut i: usize = 0;
        while i < self.users.len()
            invariant
                self.wf(),
                i <= self@.len(),
                out@.len() == i,
                forall|k: int| 0 <= k < i ==> (out@[k].0@, out@[k].1) == self@[k],
            decreases self@.len() - i,
        {
            out.push((self.users[i].clone(), self.scores[i]));
            i += 1;
        }
        out
    }

    /// A scoreboard holding `records`, unless a user appears twice.
    pub fn from_records(records: &Vec<(String, UserScore)>) -> (r: Option<Scoreboard>)
        ensures
            r is Some <==> distinct_users(record_view(records@)),
            r matches Some(b) ==> b.wf() && b@ == record_view(records@),
    {
        let mut b = Scoreboard::new();
        let mut i: usize = 0;
        while i < records.len()
            invariant
                b.wf(),
                i <= records@.len(),
                b@ == record_view(records@.subrange(0, i as int)),
            decreases records@.len() - i,
        {
            let ghost before = b@;
            proof {
                assert(record_view(records@.subrange(0, i + 1)) =~= before.push(
                    (records@[i as int].0@, records@[i as int].1),
                ));
            }
            match b.find(&records[i].0) {
                Some(j) => {
                    proof {
                        let v = record_view(records@);
                        assert(v[j as int] == before[j as int]);
                        assert(v[i as int].0 == v[j as int].0);
                    }
                    return None;
                },
                None => {
                    b.users.push(records[i].0.clone());
                    b.scores.push(records[i].1);
                    proof {
                        assert(b@ =~= before.push((records@[i as int].0@, records@[i as int].1)));
                        assert forall|x: int, y: int| 0 <= x < y < b@.len() implies b@[x].0
                            != b@[y].0 by {
                            if y == before.len() {
                                assert(before[x].0 != records@[i as int].0@);
                            } else {
                                assert(before[x].0 != before[y].0);
                            }
                        }
                    }
                },
            }
            i += 1;
        }
        proof {
            assert(records@.subrange(0, i as int) =~= records@);
        }
        Some(b)
    }

    /// Records a successful submission of `user` in the current level: a
    /// first one counts the level as solved, later ones keep the smallest
    /// penalties.
    pub fn add_user_evaluation(&mut self, user: &str, time: i64, size: u64, speed: u64)
        requires
            old(self).wf(),
        ensures
            final(self).wf(),
            final(self)@ == evaluated(old(self)@, user@, time, size, speed),
    {
        let name = String::from_str(user);
        match self.find(&name) {
            Some(i) => {
                let s = self.scores[i];
                let next = if s.solved_levels == 0 {
                    UserScore {
                        solved_levels: 1,
                        time_penalty: time,
                        size_penalty: size,
                        speed_penalty: speed,
                    }
                } else {
                    UserScore {
                        solved_levels: s.solved_levels,
                        time_penalty: if time < s.time_penalty { time } else { s.time_penalty },
                        size_penalty: if size < s.size_penalty { size } else { s.size_penalty },
                        speed_penalty: if speed < s.speed_penalty { speed } else { s.speed_penalty },
                    }
                };
                self.scores.set(i, next);
                proof {
                    assert(self@ =~= evaluated(old(self)@, user@, time, size, speed));
                }
            },
            None => {
                self.users.push(name);
                self.scores.push(
                    UserScore {
                        solved_levels: 1,
                        time_penalty: time,
                        size_penalty: size,
                        speed_penalty: speed,
                    },
                );
                proof {
                    assert(self@ =~= evaluated(old(self)@, user@, time, size, speed));
                }
            },
        }
    }

    /// Adds every record of `level_scores` into this scoreboard: a known
    /// user's fields are summed (saturating), a new user's record is copied.
    pub fn add_level_scores(&mut self, level_scores: &Scoreboard)
        requires
            old(self).wf(),
            level_scores.wf(),
        ensures
            final(self).wf(),
            final(self)@ == merged(old(self)@, level_scores@),
    {
        let mut i: usize = 0;
        while i < level_scores.users.len()
            invariant
                self.wf(),
                level_scores.wf(),
                i <= level_scores@.len(),
                self@ == merged(old(self)@, level_scores@.subrange(0, i as int)),
            decreases level_scores@.len() - i,
        {
            let ghost before = self@;
            let score = level_scores.scores[i];
            let user = &level_scores.users[i];
            proof {
                assert(level_scores@.subrange(0, i + 1).drop_last() =~= level_scores@.subrange(
                    0,
                    i as int,
                ));
                assert(level_scores@[i as int] == (user@, score));
            }
            match self.find(user) {
                Some(j) => {
                    let total = self.scores[j];
                    let time_penalty = match total.time_penalty.checked_add(score.time_penalty) {
                        Some(t) => t,
                        None => if score.time_penalty > 0 {
                            i64::MAX
                        } else {
                            i64::MIN
                        },
                    };
                    let sum = UserScore {
                        solved_levels: total.solved_levels.saturating_add(score.solved_levels),
                        time_penalty,
                        size_penalty: total.size_penalty.saturating_add(score.size_penalty),
                        speed_penalty: total.speed_penalty.saturating_add(score.speed_penalty),
                    };
                    self.scores.set(j, sum);
                    proof {
                        assert(self@ =~= merged_one(before, (user@, score)));
                    }
                },
                None => {
                    self.users.push(user.clone());
                    self.scores.push(score);
                    proof {
                        assert(self@ =~= merged_one(before, (user@, score)));
                        assert forall|a: int, b: int| 0 <= a < b < self@.len() implies self@[a].0
                            != self@[b].0 by {
                            if b == self@.len() - 1 {
                                assert(before[a].0 != user@);
                            } else {
                                assert(before[a].0 != before[b].0);
                            }
                        }
                    }
                },
            }
            i += 1;
        }
        proof {
            assert(level_scores@.subrange(0, i as int) =~= level_scores@);
        }
    }

    /// The ranking rows of every user, ranked.
    fn standings(&self, p: Penalty) -> (r: Vec<Standing>)
        requires
            self.wf(),
        ensures
            rows(r@) == ranked(rows_of(self@, p)),
    {
        let ghost all = rows_of(self@, p);
        let mut out: Vec<Standing> = Vec::new();
        let mut i: usize = 0;
        proof {
            assert(rows(out@) =~= ranked(all.subrange(0, 0)));
        }
        while i < self.users.len()
            invariant
                self.wf(),
                all == rows_of(self@, p),
                i <= self@.len(),
                rows(out@) == ranked(all.subrange(0, i as int)),
            decreases self@.len() - i,
        {
            let s = self.scores[i];
            let penalty: i128 = match p {
                Penalty::Time => s.time_penalty as i128,
                Penalty::Size => s.size_penalty as i128,
                Penalty::Speed => s.speed_penalty as i128,
            };
            let x = Standing { user: self.users[i].clone(), solved: s.solved_levels, penalty };
            let pos = slot(&out, &x);
            let ghost prev = rows(out@);
            out.insert(pos, x);
            proof {
                assert(all.subrange(0, i + 1).drop_last() =~= all.subrange(0, i as int));
                assert(all.subrange(0, i + 1).last() == row_of(x));
                assert(rows(out@) =~= prev.insert(pos as int, row_of(x)));
            }
            i += 1;
        }
        proof {
            assert(all.subrange(0, i as int) =~= all);
        }
        out
    }

    fn to_contract(&self, title: &str, p: Penalty) -> (r: contract::Scoreboard)
        requires
            self.wf(),
        ensures
            r.title@ == title@,
            r.entries@.len() == self@.len(),
            forall|i: int|
                0 <= i < r.entries@.len() ==> shows(
                    r.entries@[i],
                    ranked(rows_of(self@, p))[i],
                    p,
                ),
    {
        let ranked_rows = self.standings(p);
        let ghost all = rows_of(self@, p);
        proof {
            lemma_ranked_len(all);
            lemma_ranking_is_ordered(all);
            assert forall|k: int| 0 <= k < ranked(all).len() implies penalty_fits(
                p,
                #[trigger] ranked(all)[k].2,
            ) by {
                broadcast use vstd::seq_lib::group_to_multiset_ensures;

                let x = ranked(all)[k];
                assert(ranked(all).to_multiset().count(x) > 0);
                assert(all.contains(x));
                let j = choose|j: int| 0 <= j < all.len() && all[j] == x;
                assert(x.2 == penalty_of(self@[j].1, p));
            }
        }
        let mut entries: Vec<contract::ScoreboardEntry> = Vec::new();
        let mut i: usize = 0;
        while i < ranked_rows.len()
            invariant
                i <= ranked_rows@.len(),
                ranked_rows@.len() == self@.len(),
                rows(ranked_rows@) == ranked(rows_of(self@, p)),
                all == rows_of(self@, p),
                forall|k: int| 0 <= k < ranked(all).len() ==> penalty_fits(p, #[trigger] ranked(all)[k].2),
                entries@.len() == i,
                forall|k: int|
                    0 <= k < i ==> shows(entries@[k], ranked(rows_of(self@, p))[k], p),
            decreases ranked_rows@.len() - i,
        {
            let row = &ranked_rows[i];
            assert(row_of(*row) == ranked(all)[i as int]);
            assert(penalty_fits(p, ranked(all)[i as int].2));
            let tie_breaker = match p {
                Penalty::Time => format_time_penalty(row.penalty as i64),
                _ => int_to_text(row.penalty),
            };
            entries.push(
                contract::ScoreboardEntry {
                    user: row.user.clone(),
                    solved: row.solved,
                    tie_breaker,
                },
            );
            i += 1;
        }
        contract::Scoreboard { title: String::from_str(title), entries }
    }

    /// Ranked view whose tie-breaker is the time penalty, shown as `"M:SS"`.
    pub fn to_contract_with_time(&self, title: &str) -> (r: contract::Scoreboard)
        requires
            self.wf(),
        ensures
            presents(r, title@, self@, Penalty::Time),
    {
        self.to_contract(title, Penalty::Time)
    }

    /// Ranked view whose tie-breaker is the size penalty.
    pub fn to_contract_with_size(&self, title: &str) -> (r: contract::Scoreboard)
        requires
            self.wf(),
        ensures
            presents(r, title@, self@, Penalty::Size),
    {
        self.to_contract(title, Penalty::Size)
    }

    /// Ranked view whose tie-breaker is the speed penalty.
    pub fn to_contract_with_speed(&self, title: &str) -> (r: contract::Scoreboard)
        requires
            self.wf(),
        ensures
            presents(r, title@, self@, Penalty::Speed),
    {
        self.to_contract(title, Penalty::Speed)
    }
}

/// A penalty value lies in the range of its field.
pub open spec fn penalty_fits(p: Penalty, v: int) -> bool {
    match p {
        Penalty::Time => i64::MIN <= v <= i64::MAX,
        _ => 0 <= v <= u64::MAX,
    }
}

/// No row is outranked by a row that comes after it.
pub open spec fn in_rank_order(s: Seq<Row>) -> bool {
    forall|i: int, j: int| 0 <= i < j < s.len() ==> !ranks_before(s[j], s[i])
}

proof fn lemma_text_before_asymmetric(a: Seq<char>, b: Seq<char>)
    requires
        text_before(a, b),
    ensures
        !text_before(b, a),
    decreases a.len(),
{
    if a.len() > 0 && b.len() > 0 && a[0] == b[0] {
        lemma_text_before_asymmetric(a.drop_first(), b.drop_first());
    }
}

proof fn lemma_text_before_transitive(a: Seq<char>, b: Seq<char>, c: Seq<char>)
    requires
        text_before(a, b),
        text_before(b, c),
    ensures
        text_before(a, c),
    decreases a.len(),
{
    if a.len() > 0 && b.len() > 0 && c.len() > 0 && a[0] == b[0] && b[0] == c[0] {
        lemma_text_before_transitive(a.drop_first(), b.drop_first(), c.drop_first());
    }
}

proof fn lemma_ranks_before_asymmetric(a: Row, b: Row)
    requires
        ranks_before(a, b),
    ensures
        !ranks_before(b, a),
{
    if a.1 == b.1 && a.2 == b.2 {
        lemma_text_before_asymmetric(a.0, b.0);
    }
}

proof fn lemma_ranks_before_transitive(a: Row, b: Row, c: Row)
    requires
        ranks_before(a, b),
        ranks_before(b, c),
    ensures
        ranks_before(a, c),
{
    if a.1 == b.1 && b.1 == c.1 && a.2 == b.2 && b.2 == c.2 {
        lemma_text_before_transitive(a.0, b.0, c.0);
    }
}

proof fn lemma_slot_for(sorted: Seq<Row>, x: Row, j: int)
    requires
        0 <= j <= sorted.len(),
    ensures
        j <= slot_for(sorted, x, j) <= sorted.len(),
        forall|k: int| j <= k < slot_for(sorted, x, j) ==> !ranks_before(x, #[trigger] sorted[k]),
        slot_for(sorted, x, j) < sorted.len() ==> ranks_before(x, sorted[slot_for(sorted, x, j)]),
    decreases sorted.len() - j,
{
    if j < sorted.len() && !ranks_before(x, sorted[j]) {
        lemma_slot_for(sorted, x, j + 1);
    }
}

/// A ranking lists every row once, and no row is outranked by a later one:
/// rows are ordered by levels solved (more first), then by penalty
/// (smaller first), then by user name (lexicographically smaller first).
pub proof fn lemma_ranking_is_ordered(rows: Seq<Row>)
    ensures
        ranked(rows).to_multiset() == rows.to_multiset(),
        in_rank_order(ranked(rows)),
    decreases rows.len(),
{
    broadcast use vstd::seq_lib::group_to_multiset_ensures;

    if rows.len() > 0 {
        let before = rows.drop_last();
        let x = rows.last();
        lemma_ranking_is_ordered(before);
        let r = ranked(before);
        let pos = slot_for(r, x, 0);
        lemma_slot_for(r, x, 0);
        let r2 = r.insert(pos, x);
        vstd::seq_lib::to_multiset_insert(r, pos, x);
        assert(rows =~= before.push(x));
        assert forall|i: int, j: int| 0 <= i < j < r2.len() implies !ranks_before(r2[j], r2[i]) by {
            if i == pos {
                if ranks_before(r2[j], x) {
                    assert(r2[j] == r[j - 1]);
                    lemma_ranks_before_transitive(r[j - 1], x, r[pos]);
                    if j - 1 == pos {
                        lemma_ranks_before_asymmetric(r[pos], r[pos]);
                    }
                }
            } else if j == pos {
                assert(r2[i] == r[i]);
            } else {
                let i0 = if i < pos { i } else { i - 1 };
                let j0 = if j < pos { j } else { j - 1 };
                assert(r2[i] == r[i0] && r2[j] == r[j0]);
            }
        }
    }
}

/// A successful submission as the scoreboard records it: user, time,
/// size and speed penalties.
pub type Evaluation = (Seq<char>, i64, u64, u64);

/// A level scoreboard after recording `evs` in order, from empty.
pub open spec fn replay(evs: Seq<Evaluation>) -> Seq<(Seq<char>, UserScore)>
    decreases evs.len(),
{
    if evs.len() == 0 {
        seq![]
    } else {
        let e = evs.last();
        evaluated(replay(evs.drop_last()), e.0, e.1, e.2, e.3)
    }
}

/// `s` is the record that the submissions of `user` among `evs` earn: one
/// level solved, and each penalty the smallest among those submissions.
pub open spec fn best_of(evs: Seq<Evaluation>, user: Seq<char>, s: UserScore) -> bool {
    &&& s.solved_levels == 1
    &&& exists|i: int| 0 <= i < evs.len() && evs[i].0 == user && evs[i].1 == s.time_penalty
    &&& exists|i: int| 0 <= i < evs.len() && evs[i].0 == user && evs[i].2 == s.size_penalty
    &&& exists|i: int| 0 <= i < evs.len() && evs[i].0 == user && evs[i].3 == s.speed_penalty
    &&& forall|i: int|
        0 <= i < evs.len() && evs[i].0 == user ==> s.time_penalty <= evs[i].1 && s.size_penalty
            <= evs[i].2 && s.speed_penalty <= evs[i].3
}

/// Recording any sequence of successful submissions on an empty level
/// scoreboard gives each submitting user exactly one record, with one level
/// solved and each penalty the smallest among that user's submissions.
pub proof fn lemma_level_record_is_best(evs: Seq<Evaluation>)
    ensures
        distinct_users(replay(evs)),
        forall|i: int| 0 <= i < evs.len() ==> has_user(replay(evs), #[trigger] evs[i].0),
        forall|k: int|
            0 <= k < replay(evs).len() ==> best_of(evs, #[trigger] replay(evs)[k].0, replay(evs)[k].1),
    decreases evs.len(),
{
    if evs.len() > 0 {
        let before = evs.drop_last();
        lemma_level_record_is_best(before);
        let r = replay(before);
        let e = evs.last();
        let n = evs.len() - 1;
        assert forall|i: int| 0 <= i < n implies #[trigger] evs[i] == before[i] by {}
        let r2 = replay(evs);
        if has_user(r, e.0) {
            let j = index_of(r, e.0);
            assert(r2 == r.update(j, (e.0, improved(r[j].1, e.1, e.2, e.3))));
            assert(best_of(before, r[j].0, r[j].1));
            assert forall|k: int| 0 <= k < r2.len() implies best_of(
                evs,
                #[trigger] r2[k].0,
                r2[k].1,
            ) by {
                assert(best_of(before, r[k].0, r[k].1));
                if k == j {
                    let s = r2[k].1;
                    let t = choose|i: int| 0 <= i < before.len() && before[i].0 == e.0 && before[i].1 == r[j].1.time_penalty;
                    let z = choose|i: int| 0 <= i < before.len() && before[i].0 == e.0 && before[i].2 == r[j].1.size_penalty;
                    let v = choose|i: int| 0 <= i < before.len() && before[i].0 == e.0 && before[i].3 == r[j].1.speed_penalty;
                    if s.time_penalty == e.1 {
                        assert(evs[n].0 == e.0 && evs[n].1 == s.time_penalty);
                    } else {
                        assert(evs[t].0 == e.0 && evs[t].1 == s.time_penalty);
                    }
                    if s.size_penalty == e.2 {
                        assert(evs[n].0 == e.0 && evs[n].2 == s.size_penalty);
                    } else {
                        assert(evs[z].0 == e.0 && evs[z].2 == s.size_penalty);
                    }
                    if s.speed_penalty == e.3 {
                        assert(evs[n].0 == e.0 && evs[n].3 == s.speed_penalty);
                    } else {
                        assert(evs[v].0 == e.0 && evs[v].3 == s.speed_penalty);
                    }
                } else {
                    assert(r[k].0 != r[j].0);
                    let t = choose|i: int| 0 <= i < before.len() && before[i].0 == r[k].0 && before[i].1 == r[k].1.time_penalty;
                    let z = choose|i: int| 0 <= i < before.len() && before[i].0 == r[k].0 && before[i].2 == r[k].1.size_penalty;
                    let v = choose|i: int| 0 <= i < before.len() && before[i].0 == r[k].0 && before[i].3 == r[k].1.speed_penalty;
                    assert(evs[t] == before[t] && evs[z] == before[z] && evs[v] == before[v]);
                }
            }
            assert forall|i: int| 0 <= i < evs.len() implies has_user(r2, #[trigger] evs[i].0) by {
                if i < n {
                    assert(has_user(r, before[i].0));
                    let k = choose|k: int| 0 <= k < r.len() && r[k].0 == before[i].0;
                    assert(r2[k].0 == evs[i].0);
                } else {
                    assert(r2[j].0 == evs[i].0);
                }
            }
        } else {
            assert(r2 == r.push((e.0, first_score(e.1, e.2, e.3))));
            assert forall|k: int| 0 <= k < r2.len() implies best_of(
                evs,
                #[trigger] r2[k].0,
                r2[k].1,
            ) by {
                if k == r.len() {
                    assert(evs[n].0 == e.0);
                    assert forall|i: int| 0 <= i < evs.len() && evs[i].0 == e.0 implies i == n by {
                        if i < n {
                            assert(has_user(r, before[i].0));
                        }
                    }
                } else {
                    assert(best_of(before, r[k].0, r[k].1));
                    assert(r[k].0 != e.0);
                    let t = choose|i: int| 0 <= i < before.len() && before[i].0 == r[k].0 && before[i].1 == r[k].1.time_penalty;
                    let z = choose|i: int| 0 <= i < before.len() && before[i].0 == r[k].0 && before[i].2 == r[k].1.size_penalty;
                    let v = choose|i: int| 0 <= i < before.len() && before[i].0 == r[k].0 && before[i].3 == r[k].1.speed_penalty;
                    assert(evs[t] == before[t] && evs[z] == before[z] && evs[v] == before[v]);
                }
            }
            assert forall|i: int| 0 <= i < evs.len() implies has_user(r2, #[trigger] evs[i].0) by {
                if i < n {
                    assert(has_user(r, before[i].0));
                    let k = choose|k: int| 0 <= k < r.len() && r[k].0 == before[i].0;
                    assert(r2[k].0 == evs[i].0);
                } else {
                    assert(r2[r.len() as int].0 == evs[i].0);
                }
            }
            assert forall|a: int, b: int| 0 <= a < b < r2.len() implies r2[a].0 != r2[b].0 by {
                if b == r.len() {
                    assert(r[a].0 != e.0);
                }
            }
        }
    }
}

} // verus!
