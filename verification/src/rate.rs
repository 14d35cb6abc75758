//! Rolling-window rate estimation.

use std::collections::VecDeque;
use vstd::prelude::*;

verus! {

/// Whether a sample of the time `t` is older than `window` at the time `now`.
pub open spec fn is_old(t: u64, now: u64, window: u64) -> bool {
    now - t > window
}

/// What is left when old samples are dropped from the front, up to the first that
/// is not.
pub open spec fn recent(s: Seq<(u64, u64)>, now: u64, window: u64) -> Seq<(u64, u64)>
    decreases s.len(),
{
    if s.len() == 0 || !is_old(s[0].0, now, window) {
        s
    } else {
        recent(s.skip(1), now, window)
    }
}

/// Counts over a rolling window of time.
#[derive(Clone, Debug)]
pub struct RateEstimator {
    window: VecDeque<(u64, u64)>,
    window_ns: u64,
}

/// The window of a new estimator: two seconds.
pub const DEFAULT_RATE_WINDOW_NS: u64 = 2_000_000_000;

/// Below this time there is no rate: one microsecond.
pub const MIN_RATE_SPAN_NS: u64 = 1_000;

impl RateEstimator {
    /// The samples in the window, the oldest first.
    pub closed spec fn samples(&self) -> Seq<(u64, u64)> {
        self.window@
    }

    /// The length of the window.
    pub closed spec fn span(&self) -> u64 {
        self.window_ns
    }

    pub fn new(window_ns: u64) -> (r: Self)
        ensures
            r.samples() == Seq::<(u64, u64)>::empty(),
            r.span() == window_ns,
    {
        RateEstimator { window: VecDeque::new(), window_ns }
    }

    /// Notes a running count, and forgets samples that left the window.
    pub fn push(&mut self, now: u64, count: u64)
        ensures
            final(self).span() == old(self).span(),
            final(self).samples() == recent(
                old(self).samples().push((now, count)),
                now,
                old(self).span(),
            ),
            final(self).samples().len() > 0,
            final(self).samples().last() == (now, count),
    {
        self.window.push_back((now, count));
        while self.window.len() > 0 && now.saturating_sub(self.window[0].0) > self.window_ns
            invariant
                self.window_ns == old(self).window_ns,
                self.window@.len() > 0,
                self.window@.last() == (now, count),
                recent(self.window@, now, self.window_ns) == recent(
                    old(self).window@.push((now, count)),
                    now,
                    old(self).window_ns,
                ),
            decreases self.window@.len(),
        {
            let ghost before = self.window@;
            let _ = self.window.pop_front();
            assert(self.window@ =~= before.skip(1));
        }
    }

    /// The count and the time in nanoseconds between the oldest and the newest
    /// sample. Nothing with fewer than two samples, or too little time between
    /// them.
    pub fn rate(&self) -> (r: Option<(u64, u64)>)
        ensures
            r == rate_of(self.samples()),
    {
        let n: usize = self.window.len();
        if n < 2 {
            return None;
        }
        let (t0, c0) = self.window[0];
        let (t1, c1) = self.window[n - 1];
        let dt: u64 = t1.saturating_sub(t0);
        if dt < MIN_RATE_SPAN_NS {
            None
        } else {
            Some((c1.saturating_sub(c0), dt))
        }
    }
}

/// `a - b`, or zero.
pub open spec fn monus(a: u64, b: u64) -> u64 {
    if a >= b {
        (a - b) as u64
    } else {
        0
    }
}

/// The count and the time between the first and the last sample.
pub open spec fn rate_of(s: Seq<(u64, u64)>) -> Option<(u64, u64)> {
    if s.len() < 2 || monus(s.last().0, s[0].0) < MIN_RATE_SPAN_NS {
        None
    } else {
        Some((monus(s.last().1, s[0].1), monus(s.last().0, s[0].0)))
    }
}

impl Default for RateEstimator {
    fn default() -> (r: Self)
        ensures
            r.samples() == Seq::<(u64, u64)>::empty(),
            r.span() == DEFAULT_RATE_WINDOW_NS,
    {
        RateEstimator::new(DEFAULT_RATE_WINDOW_NS)
    }
}

/// After a sample was noted, none in the window is older than the window, where
/// samples come in order of time.
pub proof fn law_window_holds_recent_samples(s: Seq<(u64, u64)>, now: u64, window: u64)
    requires
        forall|i: int, j: int| 0 <= i <= j < s.len() ==> (#[trigger] s[i]).0 <= (#[trigger] s[j]).0,
    ensures
        forall|i: int|
            0 <= i < recent(s, now, window).len() ==> !is_old(
                (#[trigger] recent(s, now, window)[i]).0,
                now,
                window,
            ),
    decreases s.len(),
{
    if s.len() > 0 && is_old(s[0].0, now, window) {
        let t = s.skip(1);
        law_window_holds_recent_samples(t, now, window);
        assert(recent(s, now, window) == recent(t, now, window));
    } else {
        assert(recent(s, now, window) == s);
        assert forall|i: int| 0 <= i < s.len() implies !is_old(
            (#[trigger] s[i]).0,
            now,
            window,
        ) by {
            assert(s[0].0 <= s[i].0);
        }
    }
}

} // verus!
