//! The rate limiter's window logic: an ordered list of recent request
//! start times, pruned lazily against a fixed duration. The concurrency
//! bound is a semaphore owned by the runtime around the library; the
//! sustained-rate bound is decided here.

use vstd::prelude::*;

verus! {

/// A torrent of recent request start times, in milliseconds, oldest
/// first.
pub struct RateWindow {
    pub times: Vec<u64>,
    pub max_requests: usize,
    pub window_ms: u64,
}

/// What the window decides for one admission attempt.
pub enum Decision {
    Admit,
    Wait(u64),
}

/// The start times are sorted, oldest first.
pub open spec fn spec_times_sorted(times: Seq<u64>) -> bool {
    forall|i: int, j: int| 0 <= i < j < times.len() ==> #[trigger] times[i] <= #[trigger] times[j]
}

/// A start time still counts against the window at `now`.
pub open spec fn spec_in_window(t: u64, now: u64, window_ms: u64) -> bool {
    t + window_ms >= now
}

/// The start times still counting at `now`: the aged-out prefix removed.
pub open spec fn spec_pruned(times: Seq<u64>, now: u64, window_ms: u64) -> Seq<u64>
    decreases times.len(),
{
    if times.len() == 0 {
        times
    } else if !spec_in_window(times[0], now, window_ms) {
        spec_pruned(times.drop_first(), now, window_ms)
    } else {
        times
    }
}

impl RateWindow {
    /// The window's invariant: its times are ordered, it never holds
    /// more starts than the request bound, and at least one request is
    /// allowed per window.
    pub open spec fn wf(self) -> bool {
        &&& spec_times_sorted(self.times@)
        &&& self.max_requests >= 1
        &&& self.times@.len() <= self.max_requests
    }

    /// A fresh, empty window.
    pub fn new(max_requests: usize, window_ms: u64) -> (r: RateWindow)
        requires
            max_requests >= 1,
        ensures
            r.wf(),
            r.times@.len() == 0,
            r.max_requests == max_requests,
            r.window_ms == window_ms,
    {
        RateWindow { times: Vec::new(), max_requests, window_ms }
    }

    /// Decide one admission attempt at time `now`.
    ///
    /// Entries older than the window age out first. If fewer than
    /// `max_requests` starts remain, `now` is recorded and the caller
    /// is admitted; otherwise the caller must wait exactly until the
    /// oldest remaining start leaves the window. A wait of zero admits
    /// at once, the oldest start giving way to `now`.
    pub fn try_admit(&mut self, now: u64) -> (r: Decision)
        requires
            old(self).wf(),
            forall|i: int| 0 <= i < old(self).times@.len() ==> #[trigger] old(self).times@[i] <= now,
        ensures
            final(self).wf(),
            final(self).max_requests == old(self).max_requests,
            final(self).window_ms == old(self).window_ms,
            forall|i: int| 0 <= i < final(self).times@.len() ==> #[trigger] final(self).times@[i]
                <= now,
            ({
                let pruned = spec_pruned(old(self).times@, now, old(self).window_ms);
                match r {
                    Decision::Admit => {
                        &&& final(self).times@ == (if pruned.len() < old(self).max_requests {
                            pruned
                        } else {
                            pruned.drop_first()
                        }).push(now)
                        &&& (pruned.len() < old(self).max_requests || now == pruned[0]
                            + old(self).window_ms)
                    },
                    Decision::Wait(d) => {
                        &&& final(self).times@ == pruned
                        &&& pruned.len() >= old(self).max_requests
                        &&& d > 0
                        &&& now + d == pruned[0] + old(self).window_ms
                    },
                }
            }),
    {
        let ghost orig = self.times@;
        // age out entries older than the window
        while self.times.len() > 0 && now - self.times[0] > self.window_ms
            invariant
                self.max_requests == old(self).max_requests,
                self.max_requests >= 1,
                self.times@.len() <= self.max_requests,
                self.window_ms == old(self).window_ms,
                spec_times_sorted(self.times@),
                forall|i: int| 0 <= i < self.times@.len() ==> #[trigger] self.times@[i] <= now,
                spec_pruned(orig, now, old(self).window_ms) == spec_pruned(
                    self.times@,
                    now,
                    old(self).window_ms,
                ),
            decreases self.times@.len(),
        {
            let ghost prev = self.times@;
            let _ = self.times.remove(0);
            proof {
                assert(prev.remove(0) =~= prev.drop_first());
                assert(forall|i: int, j: int|
                    0 <= i < j < self.times@.len() ==> #[trigger] self.times@[i]
                        <= #[trigger] self.times@[j]) by {
                    assert(forall|i: int|
                        0 <= i < self.times@.len() ==> self.times@[i] == prev[i + 1]);
                }
            }
        }
        proof {
            if self.times.len() > 0 {
                assert(spec_in_window(self.times@[0], now, self.window_ms));
            }
            assert(spec_pruned(self.times@, now, old(self).window_ms) == self.times@);
        }
        if self.times.len() < self.max_requests {
            let ghost pruned = self.times@;
            self.times.push(now);
            proof {
                assert(forall|i: int|
                    0 <= i < pruned.len() ==> #[trigger] self.times@[i] == pruned[i]);
                assert(spec_times_sorted(self.times@));
            }
            Decision::Admit
        } else {
            proof {
                assert(self.times@.len() >= old(self).max_requests >= 1);
                assert(self.times@[0] <= now);
            }
            let oldest = self.times[0];
            let elapsed = now - oldest;
            if elapsed >= self.window_ms {
                // the oldest start is exactly a window old: it gives way
                let ghost pruned = self.times@;
                let _ = self.times.remove(0);
                proof {
                    assert(pruned.remove(0) =~= pruned.drop_first());
                }
                let ghost shorter = self.times@;
                self.times.push(now);
                proof {
                    assert(forall|i: int|
                        0 <= i < shorter.len() ==> #[trigger] shorter[i] == pruned[i + 1]);
                    assert(forall|i: int|
                        0 <= i < shorter.len() ==> #[trigger] self.times@[i] == shorter[i]);
                    assert(spec_times_sorted(self.times@));
                    assert(oldest + self.window_ms <= now);
                    assert(spec_in_window(pruned[0], now, self.window_ms));
                    assert(now == pruned[0] + self.window_ms);
                }
                Decision::Admit
            } else {
                let wait = self.window_ms - elapsed;
                Decision::Wait(wait)
            }
        }
    }
}

} // verus!
