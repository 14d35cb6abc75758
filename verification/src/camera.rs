//! The visible time window.

use crate::num::{i64_of_f64, number_below, number_is_nan, f64_of_u64};
use vstd::prelude::*;

verus! {

use crate::num::{below, double_of_nat, int_of_double, is_nan};

/// Time-base modes.
#[derive(Clone, Copy, Debug, PartialEq, Eq, Structural)]
pub enum TimeBase {
    /// The right edge is the latest sample, and the window has a fixed length.
    Follow,
    /// Free navigation.
    Pan,
}

impl TimeBase {
    pub fn label(self) -> (r: &'static str)
        ensures
            r@ == (match self {
                TimeBase::Follow => "follow"@,
                TimeBase::Pan => "pan"@,
            }),
    {
        match self {
            TimeBase::Follow => "follow",
            TimeBase::Pan => "pan",
        }
    }

    /// The other mode.
    pub open spec fn other(self) -> TimeBase {
        match self {
            TimeBase::Follow => TimeBase::Pan,
            TimeBase::Pan => TimeBase::Follow,
        }
    }

    /// Toggles between the modes.
    pub fn toggle(self) -> (r: Self)
        ensures
            r == self.other(),
    {
        match self {
            TimeBase::Follow => TimeBase::Pan,
            TimeBase::Pan => TimeBase::Follow,
        }
    }
}

/// Camera state.
#[derive(Clone, Copy, Debug, PartialEq, Eq)]
pub struct Camera {
    pub mode: TimeBase,
    pub window_ns: u64,
    /// The bounds of pan mode in seconds, as doubles.
    pub free_bounds_s: Option<(u64, u64)>,
}

/// The window of a new camera: ten seconds.
pub const DEFAULT_WINDOW_NS: u64 = 10_000_000_000;

/// The shortest window of follow mode: one millisecond.
pub const MIN_WINDOW_NS: u64 = 1_000_000;

/// The longest window of follow mode: one hour.
pub const MAX_WINDOW_NS: u64 = 3_600_000_000_000;

impl Default for Camera {
    fn default() -> (r: Self)
        ensures
            r == (Camera {
                mode: TimeBase::Follow,
                window_ns: DEFAULT_WINDOW_NS,
                free_bounds_s: None,
            }),
    {
        Camera { mode: TimeBase::Follow, window_ns: DEFAULT_WINDOW_NS, free_bounds_s: None }
    }
}

/// The longest window for data that spans `max_ns`.
pub open spec fn window_limit(max_ns: Option<u64>) -> u64 {
    match max_ns {
        Some(m) => if m < MIN_WINDOW_NS {
            MIN_WINDOW_NS
        } else if m > MAX_WINDOW_NS {
            MAX_WINDOW_NS
        } else {
            m
        },
        None => MAX_WINDOW_NS,
    }
}

/// The window for a wanted length, a double of nanoseconds: held within its limits
/// and cut to whole nanoseconds.
pub open spec fn window_for(wanted: u64, max_ns: Option<u64>) -> u64 {
    let limit = window_limit(max_ns);
    if is_nan(wanted) {
        1
    } else if below(wanted, double_of_nat(MIN_WINDOW_NS as nat) as u64) {
        MIN_WINDOW_NS
    } else if below(double_of_nat(limit as nat) as u64, wanted) {
        limit
    } else {
        int_of_double(wanted) as u64
    }
}

impl Camera {
    /// Whether the right edge follows the latest sample.
    pub fn follow(&self) -> (r: bool)
        ensures
            r == (self.mode == TimeBase::Follow),
    {
        match self.mode {
            TimeBase::Follow => true,
            TimeBase::Pan => false,
        }
    }

    /// Back to follow mode.
    pub fn reset(&mut self)
        ensures
            *final(self) == (Camera {
                mode: TimeBase::Follow,
                free_bounds_s: None,
                ..*old(self)
            }),
    {
        self.mode = TimeBase::Follow;
        self.free_bounds_s = None;
    }

    /// The bounds of pan mode, or the given ones where none were set.
    pub fn bounds_or(&self, fallback: (u64, u64)) -> (r: (u64, u64))
        ensures
            r == (match self.free_bounds_s {
                Some(b) => b,
                None => fallback,
            }),
    {
        match self.free_bounds_s {
            Some(b) => b,
            None => fallback,
        }
    }

    /// Shows the given bounds, in pan mode.
    pub fn show(&mut self, lo: u64, hi: u64)
        ensures
            *final(self) == (Camera {
                mode: TimeBase::Pan,
                free_bounds_s: Some((lo, hi)),
                ..*old(self)
            }),
    {
        self.mode = TimeBase::Pan;
        self.free_bounds_s = Some((lo, hi));
    }

    /// Sets the window of follow mode to a wanted length. `max_ns` is the span of
    /// the data, past which there is nothing to see.
    pub fn zoom_window(&mut self, wanted: u64, max_ns: Option<u64>)
        ensures
            *final(self) == (Camera { window_ns: window_for(wanted, max_ns), ..*old(self) }),
            is_nan(wanted) || MIN_WINDOW_NS <= final(self).window_ns <= window_limit(max_ns),
    {
        let limit: u64 = match max_ns {
            Some(m) => if m < MIN_WINDOW_NS {
                MIN_WINDOW_NS
            } else if m > MAX_WINDOW_NS {
                MAX_WINDOW_NS
            } else {
                m
            },
            None => MAX_WINDOW_NS,
        };
        if number_is_nan(wanted) {
            self.window_ns = 1;
        } else if number_below(wanted, f64_of_u64(MIN_WINDOW_NS)) {
            self.window_ns = MIN_WINDOW_NS;
        } else if number_below(f64_of_u64(limit), wanted) {
            self.window_ns = limit;
        } else {
            proof {
                crate::num::lemma_int_of_double_bracket(
                    wanted,
                    MIN_WINDOW_NS as nat,
                    limit as nat,
                );
            }
            self.window_ns = i64_of_f64(wanted) as u64;
        }
    }
}

/// The time after `t`, or the last one there is.
pub open spec fn after(t: u64) -> u64 {
    if t == u64::MAX {
        t
    } else {
        (t + 1) as u64
    }
}

pub open spec fn larger(a: u64, b: u64) -> u64 {
    if a >= b {
        a
    } else {
        b
    }
}

/// The visible window: in follow mode the last `window_ns` before the latest
/// sample, in pan mode the given bounds, and all data where none were given.
pub open spec fn view_of(
    cam: Camera,
    free_ns: Option<(u64, u64)>,
    data: Option<(u64, u64)>,
) -> Option<(u64, u64)> {
    match data {
        None => None,
        Some((earliest, latest)) => match cam.mode {
            TimeBase::Follow => {
                let left = (if latest > cam.window_ns {
                    latest - cam.window_ns
                } else {
                    0
                }) as u64;
                Some((left, larger(latest, after(left))))
            },
            TimeBase::Pan => match free_ns {
                Some((lo, hi)) => Some(
                    (
                        if lo <= hi {
                            lo
                        } else {
                            hi
                        },
                        larger(hi, after(lo)),
                    ),
                ),
                None => Some((earliest, larger(latest, after(earliest)))),
            },
        },
    }
}

/// Computes the visible window in nanoseconds. `free_ns` are the bounds of pan
/// mode.
pub fn compute_view(cam: &Camera, free_ns: Option<(u64, u64)>, data: Option<(u64, u64)>) -> (r:
    Option<(u64, u64)>)
    ensures
        r == view_of(*cam, free_ns, data),
{
    let (earliest, latest) = match data {
        None => {
            return None;
        },
        Some(d) => d,
    };
    let (lo, start, hi) = match cam.mode {
        TimeBase::Follow => {
            let left: u64 = latest.saturating_sub(cam.window_ns);
            (left, left, latest)
        },
        TimeBase::Pan => match free_ns {
            Some((a, b)) => (
                a,
                if a <= b {
                    a
                } else {
                    b
                },
                b,
            ),
            None => (earliest, earliest, latest),
        },
    };
    let next: u64 = lo.saturating_add(1);
    Some(
        (
            start,
            if hi >= next {
                hi
            } else {
                next
            },
        ),
    )
}

/// A visible window is never empty, but for one that starts at the end of time.
pub proof fn law_view_is_not_empty(
    cam: Camera,
    free_ns: Option<(u64, u64)>,
    data: (u64, u64),
)
    ensures
        view_of(cam, free_ns, Some(data)) matches Some((lo, hi)) && (lo < hi || lo == u64::MAX),
{
}

/// In follow mode the right edge is the latest sample, unless the window has no
/// room for one.
pub proof fn law_follow_locks_the_right_edge(
    cam: Camera,
    free_ns: Option<(u64, u64)>,
    data: (u64, u64),
)
    requires
        cam.mode == TimeBase::Follow,
        cam.window_ns > 0,
        data.1 > 0,
    ensures
        view_of(cam, free_ns, Some(data)) matches Some((lo, hi)) && hi == data.1,
{
}

} // verus!
