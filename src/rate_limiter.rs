//! Per-user admission control: at most `max` submissions are stored, and
//! once the store is full a new one is admitted only if the oldest stored
//! one is older than the window. Timestamps are milliseconds.
use vstd::prelude::*;

verus! {

/// The limiter refused a submission.
#[derive(Clone, Copy, Debug, PartialEq, Eq, Structural)]
pub struct RateLimitExceeded;

/// Admission control for one user.
pub struct RateLimiter {
    max_submissions: usize,
    time_window: i64,
    entries: Vec<i64>,
}

/// What a limiter holds: its bound, its window and the admitted timestamps
/// it remembers.
pub struct LimiterView {
    pub max: nat,
    pub window: int,
    pub entries: Seq<i64>,
}

impl View for RateLimiter {
    type V = LimiterView;

    closed spec fn view(&self) -> LimiterView {
        LimiterView {
            max: self.max_submissions as nat,
            window: self.time_window as int,
            entries: self.entries@,
        }
    }
}

/// A limiter with nothing stored yet.
pub open spec fn fresh(max: nat, window: int) -> LimiterView {
    LimiterView { max, window, entries: seq![] }
}

/// Index of the first smallest timestamp.
pub open spec fn oldest_index(s: Seq<i64>) -> int
    decreases s.len(),
{
    if s.len() <= 1 {
        0
    } else {
        let j = oldest_index(s.drop_last());
        if s.last() < s[j] {
            s.len() - 1
        } else {
            j
        }
    }
}

/// The limiter after a submission at `time`, and whether it was admitted:
/// below the bound it is stored; at the bound it replaces the oldest
/// entry if that one plus the window lies strictly before `time`.
pub open spec fn on_submit(m: LimiterView, time: i64) -> (LimiterView, bool) {
    if m.entries.len() < m.max {
        (LimiterView { entries: m.entries.push(time), ..m }, true)
    } else {
        let i = oldest_index(m.entries);
        if m.entries[i] + m.window < time {
            (LimiterView { entries: m.entries.update(i, time), ..m }, true)
        } else {
            (m, false)
        }
    }
}

/// Feeds `times` to the limiter in order; the final limiter and the
/// timestamps that were admitted.
pub open spec fn feed(m: LimiterView, times: Seq<i64>) -> (LimiterView, Seq<i64>)
    decreases times.len(),
{
    if times.len() == 0 {
        (m, seq![])
    } else {
        let prev = feed(m, times.drop_last());
        let r = on_submit(prev.0, times.last());
        (r.0, if r.1 {
            prev.1.push(times.last())
        } else {
            prev.1
        })
    }
}

/// How many timestamps of `s` lie in `[lo, hi]`.
pub open spec fn count_within(s: Seq<i64>, lo: int, hi: int) -> nat
    decreases s.len(),
{
    if s.len() == 0 {
        0
    } else {
        count_within(s.drop_last(), lo, hi) + if lo <= s.last() <= hi {
            1nat
        } else {
            0nat
        }
    }
}

/// The timestamps never decrease.
pub open spec fn non_decreasing(s: Seq<i64>) -> bool {
    forall|i: int, j: int| 0 <= i < j < s.len() ==> s[i] <= s[j]
}

impl RateLimiter {
    /// The limiter's bound is at least one.
    pub closed spec fn wf(&self) -> bool {
        self.max_submissions >= 1
    }

    pub fn new(max_submissions: usize, time_window: i64) -> (r: Self)
        requires
            max_submissions >= 1,
        ensures
            r.wf(),
            r@ == (fresh(max_submissions as nat, time_window as int)),
    {
        RateLimiter { max_submissions, time_window, entries: Vec::new() }
    }

    /// Changes the bound and the window; the stored timestamps are kept.
    pub fn configure(&mut self, max_submissions: usize, time_window: i64)
        requires
            max_submissions >= 1,
        ensures
            final(self).wf(),
            final(self)@ == (LimiterView {
                max: max_submissions as nat,
                window: time_window as int,
                entries: old(self)@.entries,
            }),
    {
        self.max_submissions = max_submissions;
        self.time_window = time_window;
    }

    pub fn submit(&mut self, time: i64) -> (r: Result<(), RateLimitExceeded>)
        requires
            old(self).wf(),
        ensures
            final(self).wf(),
            final(self)@ == on_submit(old(self)@, time).0,
            r is Ok == on_submit(old(self)@, time).1,
    {
        if self.entries.len() < self.max_submissions {
            self.entries.push(time);
            return Ok(());
        }
        let mut index: usize = 0;
        let mut k: usize = 1;
        while k < self.entries.len()
            invariant
                1 <= k <= self.entries@.len(),
                index == oldest_index(self.entries@.subrange(0, k as int)),
            decreases self.entries@.len() - k,
        {
            proof {
                lemma_oldest_index_bounds(self.entries@.subrange(0, k as int));
                assert(self.entries@.subrange(0, k + 1).drop_last() =~= self.entries@.subrange(
                    0,
                    k as int,
                ));
            }
            if self.entries[k] < self.entries[index] {
                index = k;
            }
            k += 1;
        }
        proof {
            assert(self.entries@.subrange(0, k as int) =~= self.entries@);
            lemma_oldest_index_bounds(self.entries@);
        }
        let instant = self.entries[index];
        if (instant as i128) + (self.time_window as i128) < (time as i128) {
            self.entries.set(index, time);
            Ok(())
        } else {
            Err(RateLimitExceeded)
        }
    }
}

/// The oldest index lies in range and holds a smallest timestamp.
pub proof fn lemma_oldest_index_bounds(s: Seq<i64>)
    requires
        s.len() >= 1,
    ensures
        0 <= oldest_index(s) < s.len(),
        forall|k: int| 0 <= k < s.len() ==> s[oldest_index(s)] <= #[trigger] s[k],
    decreases s.len(),
{
    if s.len() > 1 {
        let d = s.drop_last();
        lemma_oldest_index_bounds(d);
        assert forall|k: int| 0 <= k < s.len() implies s[oldest_index(s)] <= #[trigger] s[k] by {
            if k < d.len() {
                assert(d[k] == s[k]);
                assert(d[oldest_index(d)] <= d[k]);
            }
        }
    }
}

proof fn lemma_count_at_most_len(s: Seq<i64>, lo: int, hi: int)
    ensures
        count_within(s, lo, hi) <= s.len(),
    decreases s.len(),
{
    if s.len() > 0 {
        lemma_count_at_most_len(s.drop_last(), lo, hi);
    }
}

/// When the first `j` timestamps lie below `lo`, at most the others count.
proof fn lemma_count_skips_prefix(s: Seq<i64>, j: int, lo: int, hi: int)
    requires
        0 <= j <= s.len(),
        forall|k: int| 0 <= k < j ==> s[k] < lo,
    ensures
        count_within(s, lo, hi) <= s.len() - j,
    decreases s.len(),
{
    if s.len() > 0 {
        if s.len() > j {
            lemma_count_skips_prefix(s.drop_last(), j, lo, hi);
        } else {
            lemma_count_skips_prefix(s.drop_last(), j - 1, lo, hi);
        }
    }
}

/// What feeding a fresh limiter non-decreasing timestamps maintains: the
/// stored entries are the last admitted timestamps, as a multiset.
proof fn lemma_feed_shape(max: nat, window: int, times: Seq<i64>)
    requires
        max >= 1,
        non_decreasing(times),
    ensures
        ({
            let (m, adm) = feed(fresh(max, window), times);
            let n = adm.len() as int;
            let e = m.entries;
            &&& m.max == max
            &&& m.window == window
            &&& e.len() <= max
            &&& (n < max ==> e.len() == n)
            &&& (n >= max ==> e.len() == max)
            &&& e.to_multiset() == adm.subrange(n - e.len(), n).to_multiset()
            &&& non_decreasing(adm)
            &&& (times.len() > 0 ==> forall|i: int| 0 <= i < n ==> adm[i] <= times.last())
        }),
    decreases times.len(),
{
    broadcast use vstd::seq_lib::group_to_multiset_ensures;

    if times.len() == 0 {
        let e = feed(fresh(max, window), times).0.entries;
        let adm = feed(fresh(max, window), times).1;
        assert(adm.subrange(0, 0) =~= Seq::<i64>::empty());
        assert(e =~= Seq::<i64>::empty());
    } else {
        let before = times.drop_last();
        assert(non_decreasing(before));
        lemma_feed_shape(max, window, before);
        let t = times.last();
        let prev = feed(fresh(max, window), before);
        let m = prev.0;
        let adm = prev.1;
        let n = adm.len() as int;
        let e = m.entries;
        assert forall|i: int| 0 <= i < n implies adm[i] <= t by {
            if before.len() > 0 {
                assert(times[before.len() - 1] <= times[times.len() - 1]);
            }
        }
        if e.len() < m.max {
            let adm2 = adm.push(t);
            assert(adm2.subrange(n + 1 - (e.len() + 1), n + 1) =~= adm.subrange(n - e.len(), n).push(
                t,
            ));
        } else {
            let i = oldest_index(e);
            lemma_oldest_index_bounds(e);
            if e[i] + window < t {
                let x = e[i];
                let s = adm.subrange(n - max, n);
                let tail = adm.subrange(n - max + 1, n);
                assert(s.remove(0) =~= tail);
                assert(e.to_multiset().count(x) > 0);
                assert(s.to_multiset().count(x) > 0);
                assert(s.contains(x));
                let jx = choose|jx: int| 0 <= jx < s.len() && s[jx] == x;
                assert(adm[n - max] <= x);
                assert(s.to_multiset().count(s[0]) > 0);
                assert(e.contains(s[0]));
                let j0 = choose|j0: int| 0 <= j0 < e.len() && e[j0] == s[0];
                assert(x <= s[0]);
                assert(x == s[0]);
                let adm2 = adm.push(t);
                assert(adm2.subrange(n + 1 - max, n + 1) =~= tail.push(t));
                assert(e.update(i, t).to_multiset() =~= tail.push(t).to_multiset());
            }
        }
    }
}

/// For any bound and window, feeding a fresh limiter non-decreasing
/// timestamps admits at most `max` of them within any interval no longer
/// than the window.
pub proof fn lemma_window_admits_at_most_max(
    max: nat,
    window: int,
    times: Seq<i64>,
    lo: int,
    hi: int,
)
    requires
        max >= 1,
        non_decreasing(times),
        hi - lo <= window,
    ensures
        count_within(feed(fresh(max, window), times).1, lo, hi) <= max,
    decreases times.len(),
{
    if times.len() > 0 {
        let before = times.drop_last();
        assert(non_decreasing(before));
        lemma_window_admits_at_most_max(max, window, before, lo, hi);
        lemma_feed_shape(max, window, before);
        let t = times.last();
        let prev = feed(fresh(max, window), before);
        let m = prev.0;
        let adm = prev.1;
        let n = adm.len() as int;
        let e = m.entries;
        let adm2 = feed(fresh(max, window), times).1;
        if adm2 != adm {
            assert(adm2 == adm.push(t));
            assert(adm2.drop_last() =~= adm);
            if e.len() < max {
                lemma_count_at_most_len(adm2, lo, hi);
            } else if lo <= t <= hi {
                broadcast use vstd::seq_lib::group_to_multiset_ensures;

                let i = oldest_index(e);
                lemma_oldest_index_bounds(e);
                let x = e[i];
                let s = adm.subrange(n - max, n);
                assert(e.to_multiset().count(x) > 0);
                assert(s.to_multiset().count(x) > 0);
                assert(s.contains(x));
                let jx = choose|jx: int| 0 <= jx < s.len() && s[jx] == x;
                assert(adm[n - max] <= x);
                lemma_count_skips_prefix(adm, n - max + 1, lo, hi);
            }
        }
    }
}

} // verus!
