//! Sliding-window admission counter per recipient.
use vstd::prelude::*;
use crate::admission::PutError;

verus! {

/// The admission times kept per recipient.
pub type Windows = Map<Seq<char>, Seq<u64>>;

pub open spec fn window_of(m: Windows, r: Seq<char>) -> Seq<u64> {
    if m.contains_key(r) {
        m[r]
    } else {
        Seq::empty()
    }
}

/// Whether an admission at `t` still counts at `now` for a window of `window` ms.
pub open spec fn in_window(t: u64, now: u64, window: u64) -> bool {
    (if now >= t {
        now - t
    } else {
        0
    }) < window
}

/// The admissions that still count at `now`, in order.
pub open spec fn recent(ts: Seq<u64>, now: u64, window: u64) -> Seq<u64>
    decreases ts.len(),
{
    if ts.len() == 0 {
        Seq::empty()
    } else if in_window(ts.last(), now, window) {
        recent(ts.drop_last(), now, window).push(ts.last())
    } else {
        recent(ts.drop_last(), now, window)
    }
}

/// Whether a deposit at `now` is admitted, given the earlier admission times.
pub open spec fn admits(ts: Seq<u64>, now: u64, limit: usize, window: u64) -> bool {
    recent(ts, now, window).len() < limit
}

/// The admission times after a deposit at `now` was checked.
pub open spec fn recorded(ts: Seq<u64>, now: u64, limit: usize, window: u64) -> Seq<u64> {
    if admits(ts, now, limit, window) {
        recent(ts, now, window).push(now)
    } else {
        recent(ts, now, window)
    }
}

/// Trimming every window to the admissions that still count.
pub open spec fn trim_spec(m: Windows, now: u64, window: u64) -> Windows {
    Map::new(|k: Seq<char>| m.contains_key(k), |k: Seq<char>| recent(m[k], now, window))
}

/// The admission times after deposits checked in turn at `times`.
pub open spec fn run_checks(ts: Seq<u64>, times: Seq<u64>, limit: usize, window: u64) -> Seq<u64>
    decreases times.len(),
{
    if times.len() == 0 {
        ts
    } else {
        recorded(run_checks(ts, times.drop_last(), limit, window), times.last(), limit, window)
    }
}

/// Whether the `i`-th of deposits checked in turn at `times` is admitted.
pub open spec fn nth_admitted(ts: Seq<u64>, times: Seq<u64>, i: int, limit: usize, window: u64) -> bool {
    admits(run_checks(ts, times.take(i), limit, window), times[i], limit, window)
}

proof fn lemma_recent_keeps(ts: Seq<u64>, now: u64, window: u64)
    requires
        forall|i: int| 0 <= i < ts.len() ==> in_window(#[trigger] ts[i], now, window),
    ensures
        recent(ts, now, window) == ts,
    decreases ts.len(),
{
    if ts.len() > 0 {
        lemma_recent_keeps(ts.drop_last(), now, window);
        assert(ts.drop_last().push(ts.last()) =~= ts);
    }
}

proof fn lemma_recent_shorter(ts: Seq<u64>, now: u64, window: u64, i: int)
    requires
        0 <= i <= ts.len(),
        i < ts.len() ==> !in_window(ts[i], now, window),
    ensures
        recent(ts, now, window).len() <= ts.len(),
        i < ts.len() ==> recent(ts, now, window).len() < ts.len(),
    decreases ts.len(),
{
    if ts.len() > 0 {
        if i == ts.len() - 1 {
            lemma_recent_shorter(ts.drop_last(), now, window, ts.len() - 1);
        } else if i < ts.len() {
            assert(ts.drop_last()[i] == ts[i]);
            lemma_recent_shorter(ts.drop_last(), now, window, i);
        } else {
            lemma_recent_shorter(ts.drop_last(), now, window, ts.len() - 1);
        }
    }
}

proof fn lemma_burst_windows(times: Seq<u64>, j: int, limit: usize, window: u64)
    requires
        0 <= j <= times.len(),
        forall|a: int, b: int| 0 <= a <= b < times.len() ==> times[a] <= times[b],
        times.len() > 0 ==> times.last() - times[0] < window,
    ensures
        run_checks(Seq::empty(), times.take(j), limit, window) == times.take(
            if j < limit {
                j
            } else {
                limit as int
            },
        ),
    decreases j,
{
    if j > 0 {
        lemma_burst_windows(times, j - 1, limit, window);
        let prev = run_checks(Seq::empty(), times.take(j - 1), limit, window);
        let now = times[j - 1];
        assert(times.take(j).drop_last() =~= times.take(j - 1));
        assert forall|i: int| 0 <= i < prev.len() implies in_window(#[trigger] prev[i], now, window) by {
            assert(prev[i] == times[i]);
            assert(times[0] <= times[i]);
            assert(times[j - 1] <= times.last());
        }
        lemma_recent_keeps(prev, now, window);
        if j - 1 < limit {
            assert(prev.push(now) =~= times.take(j));
        }
    } else {
        assert(times.take(0) =~= Seq::<u64>::empty());
    }
}

/// A burst of deposits to one recipient, all within one window of each other
/// and starting from no admissions, has exactly the first `limit` admitted and
/// every later one refused.
pub proof fn lemma_burst_limited(times: Seq<u64>, limit: usize, window: u64)
    requires
        forall|a: int, b: int| 0 <= a <= b < times.len() ==> times[a] <= times[b],
        times.len() > 0 ==> times.last() - times[0] < window,
    ensures
        forall|i: int|
            0 <= i < times.len() ==> (#[trigger] nth_admitted(Seq::empty(), times, i, limit, window) <==> i
                < limit),
{
    assert forall|i: int| 0 <= i < times.len() implies (#[trigger] nth_admitted(
        Seq::empty(),
        times,
        i,
        limit,
        window,
    ) <==> i < limit) by {
        lemma_burst_windows(times, i, limit, window);
        let w = run_checks(Seq::<u64>::empty(), times.take(i), limit, window);
        assert forall|k: int| 0 <= k < w.len() implies in_window(#[trigger] w[k], times[i], window) by {
            assert(w[k] == times[k]);
            assert(times[0] <= times[k]);
            assert(times[i] <= times.last());
        }
        lemma_recent_keeps(w, times[i], window);
    }
}

/// A recipient's window never holds more than `limit` admissions: checking a
/// deposit against a window within the limit leaves it within the limit.
pub proof fn lemma_window_within_limit(ts: Seq<u64>, now: u64, limit: usize, window: u64)
    requires
        ts.len() <= limit,
    ensures
        recorded(ts, now, limit, window).len() <= limit,
        recent(recorded(ts, now, limit, window), now, window).len() <= limit,
{
    lemma_recent_shorter(ts, now, window, ts.len() as int);
    lemma_recent_shorter(recorded(ts, now, limit, window), now, window, recorded(ts, now, limit, window).len() as int);
}

/// Once a full window's oldest admission is at least `window` ms old, the
/// next deposit is admitted again.
pub proof fn lemma_capacity_freed(ts: Seq<u64>, now: u64, limit: usize, window: u64)
    requires
        0 < ts.len() <= limit,
        now >= ts[0],
        now - ts[0] >= window,
    ensures
        admits(ts, now, limit, window),
{
    lemma_recent_shorter(ts, now, window, 0);
}

/// One recipient's admission times.
pub struct RateWindow {
    pub to_id: String,
    pub times: Vec<u64>,
}

/// Admission times for every recipient, with the limit and window they are held to.
pub struct RateLimiter {
    windows: Vec<RateWindow>,
    contents: Ghost<Windows>,
    limit: usize,
    window_ms: u64,
}

impl View for RateLimiter {
    type V = Windows;

    closed spec fn view(&self) -> Windows {
        self.contents@
    }
}

fn recent_times(ts: &Vec<u64>, now: u64, window: u64) -> (r: Vec<u64>)
    ensures
        r@ == recent(ts@, now, window),
{
    let mut out: Vec<u64> = Vec::new();
    let mut j: usize = 0;
    while j < ts.len()
        invariant
            j <= ts@.len(),
            out@ == recent(ts@.take(j as int), now, window),
        decreases ts@.len() - j,
    {
        proof {
            let t = ts@.take(j as int + 1);
            assert(t.drop_last() =~= ts@.take(j as int));
        }
        let t = ts[j];
        let age: u64 = if now >= t {
            now - t
        } else {
            0
        };
        if age < window {
            out.push(t);
        }
        j = j + 1;
    }
    assert(ts@.take(j as int) =~= ts@);
    out
}

impl RateLimiter {
    pub closed spec fn wf(&self) -> bool {
        &&& forall|i: int, j: int|
            0 <= i < j < self.windows@.len() ==> self.windows@[i].to_id@ != self.windows@[j].to_id@
        &&& forall|i: int|
            0 <= i < self.windows@.len() ==> {
                &&& #[trigger] self.contents@.contains_key(self.windows@[i].to_id@)
                &&& self.contents@[self.windows@[i].to_id@] == self.windows@[i].times@
            }
        &&& forall|k: Seq<char>|
            #[trigger] self.contents@.contains_key(k) ==> exists|i: int|
                0 <= i < self.windows@.len() && self.windows@[i].to_id@ == k
    }

    /// The most admissions a recipient may have within one window.
    pub closed spec fn limit_spec(&self) -> usize {
        self.limit
    }

    /// The window length in milliseconds.
    pub closed spec fn window_spec(&self) -> u64 {
        self.window_ms
    }

    /// A limiter with no admissions yet.
    pub fn new(limit: usize, window_ms: u64) -> (s: Self)
        ensures
            s.wf(),
            s@ == Windows::empty(),
            s.limit_spec() == limit,
            s.window_spec() == window_ms,
    {
        RateLimiter { windows: Vec::new(), contents: Ghost(Map::empty()), limit, window_ms }
    }

    pub fn limit(&self) -> (r: usize)
        ensures
            r == self.limit_spec(),
    {
        self.limit
    }

    pub fn window_ms(&self) -> (r: u64)
        ensures
            r == self.window_spec(),
    {
        self.window_ms
    }

    fn find(&self, r: &String) -> (res: Option<usize>)
        requires
            self.wf(),
        ensures
            match res {
                Some(i) => i < self.windows@.len() && self.windows@[i as int].to_id@ == r@,
                None => !self@.contains_key(r@),
            },
    {
        let mut i: usize = 0;
        while i < self.windows.len()
            invariant
                i <= self.windows@.len(),
                forall|j: int| 0 <= j < i ==> self.windows@[j].to_id@ != r@,
            decreases self.windows@.len() - i,
        {
            if self.windows[i].to_id == *r {
                return Some(i);
            }
            i = i + 1;
        }
        None
    }

    fn store(&mut self, to_id: &String, times: Vec<u64>)
        requires
            old(self).wf(),
        ensures
            final(self).wf(),
            final(self)@ == old(self)@.insert(to_id@, times@),
            final(self).limit == old(self).limit,
            final(self).window_ms == old(self).window_ms,
    {
        let ghost m = self.contents@;
        let ghost ob = self.windows@;
        let ghost tv = times@;
        let ghost mut idx: int = 0;
        match self.find(to_id) {
            Some(i) => {
                proof {
                    idx = i as int;
                }
                self.windows[i].times = times;
            },
            None => {
                proof {
                    idx = self.windows@.len() as int;
                }
                self.windows.push(RateWindow { to_id: to_id.clone(), times });
            },
        }
        self.contents = Ghost(m.insert(to_id@, tv));
        assert forall|k: Seq<char>| #[trigger] self.contents@.contains_key(k) implies exists|i: int|
            0 <= i < self.windows@.len() && self.windows@[i].to_id@ == k by {
            if k != to_id@ {
                assert(m.contains_key(k));
                let a = choose|a: int| 0 <= a < ob.len() && ob[a].to_id@ == k;
                assert(self.windows@[a].to_id@ == k);
            } else {
                assert(self.windows@[idx].to_id@ == k);
            }
        }
        assert forall|i: int| 0 <= i < self.windows@.len() implies {
            &&& #[trigger] self.contents@.contains_key(self.windows@[i].to_id@)
            &&& self.contents@[self.windows@[i].to_id@] == self.windows@[i].times@
        } by {
            if i != idx {
                assert(ob[i] == self.windows@[i]);
                assert(m.contains_key(ob[i].to_id@));
            }
        }
        assert forall|i: int, j: int| 0 <= i < j < self.windows@.len() implies self.windows@[i].to_id@
            != self.windows@[j].to_id@ by {
            if i != idx && j != idx {
                assert(ob[i].to_id@ != ob[j].to_id@);
            } else if i == idx {
                assert(m.contains_key(ob[j].to_id@));
            } else {
                assert(m.contains_key(ob[i].to_id@));
            }
        }
    }

    /// Drops the admissions that no longer count, then admits the deposit and
    /// records `now` if fewer than `limit` remain, or refuses it with the limit
    /// and the window in seconds.
    pub fn check_and_record(&mut self, to_id: &String, now: u64) -> (r: Result<(), PutError>)
        requires
            old(self).wf(),
        ensures
            final(self).wf(),
            final(self).limit_spec() == old(self).limit_spec(),
            final(self).window_spec() == old(self).window_spec(),
            final(self)@ == old(self)@.insert(
                to_id@,
                recorded(window_of(old(self)@, to_id@), now, old(self).limit_spec(), old(self).window_spec()),
            ),
            r == (if admits(window_of(old(self)@, to_id@), now, old(self).limit_spec(), old(self).window_spec()) {
                Ok::<(), PutError>(())
            } else {
                Err(PutError::RateLimited { limit: old(self).limit_spec(), window_seconds: old(self).window_spec() / 1000 })
            }),
    {
        let mut kept = match self.find(to_id) {
            Some(i) => recent_times(&self.windows[i].times, now, self.window_ms),
            None => {
                let e: Vec<u64> = Vec::new();
                assert(recent(Seq::<u64>::empty(), now, self.window_ms) =~= e@);
                e
            },
        };
        if kept.len() >= self.limit {
            self.store(to_id, kept);
            Err(PutError::RateLimited { limit: self.limit, window_seconds: self.window_ms / 1000 })
        } else {
            kept.push(now);
            self.store(to_id, kept);
            Ok(())
        }
    }

    /// Drops from every window the admissions that no longer count at `now`.
    pub fn sweep(&mut self, now: u64)
        requires
            old(self).wf(),
        ensures
            final(self).wf(),
            final(self).limit_spec() == old(self).limit_spec(),
            final(self).window_spec() == old(self).window_spec(),
            final(self)@ == trim_spec(old(self)@, now, old(self).window_spec()),
    {
        let ghost m = self.contents@;
        let ghost ob = self.windows@;
        let mut nb: Vec<RateWindow> = Vec::new();
        let mut i: usize = 0;
        while i < self.windows.len()
            invariant
                self.windows@ == ob,
                i <= ob.len(),
                nb@.len() == i,
                forall|j: int|
                    0 <= j < i ==> (#[trigger] nb@[j]).to_id@ == ob[j].to_id@ && nb@[j].times@
                        == recent(ob[j].times@, now, self.window_ms),
            decreases ob.len() - i,
        {
            let t = recent_times(&self.windows[i].times, now, self.window_ms);
            nb.push(RateWindow { to_id: self.windows[i].to_id.clone(), times: t });
            i = i + 1;
        }
        self.windows = nb;
        self.contents = Ghost(trim_spec(m, now, self.window_ms));
        proof {
            let bx = self.windows@;
            assert forall|a: int| 0 <= a < bx.len() implies {
                &&& #[trigger] self.contents@.contains_key(bx[a].to_id@)
                &&& self.contents@[bx[a].to_id@] == bx[a].times@
            } by {
                assert(bx[a].to_id@ == ob[a].to_id@);
                assert(m.contains_key(ob[a].to_id@));
            }
            assert forall|a: int, b: int| 0 <= a < b < bx.len() implies bx[a].to_id@
                != bx[b].to_id@ by {
                assert(bx[a].to_id@ == ob[a].to_id@);
                assert(bx[b].to_id@ == ob[b].to_id@);
                assert(ob[a].to_id@ != ob[b].to_id@);
            }
            assert forall|k: Seq<char>| #[trigger] self.contents@.contains_key(k) implies exists|
                a: int,
            | 0 <= a < bx.len() && bx[a].to_id@ == k by {
                assert(m.contains_key(k));
                let a = choose|a: int| 0 <= a < ob.len() && ob[a].to_id@ == k;
                assert(bx[a].to_id@ == ob[a].to_id@);
            }
        }
    }
}

} // verus!
