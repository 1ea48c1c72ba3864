//! A small AIMD congestion window for pacing a sender's fragments.
//!
//! A burst is bounded to a *window* of fragments that grows while deliveries
//! are clean (doubling in slow start, then by one a round) and halves on loss.
//! Alongside it, [`Rtt`] tracks a smoothed round-trip time so the sender can pace
//! a window's worth of fragments across one round trip. Times are nanoseconds.
use vstd::prelude::*;

verus! {

/// Initial window, in fragments.
pub const INIT_WINDOW: usize = 10;

/// The window never shrinks below this.
pub const MIN_WINDOW: usize = 2;

/// The window never grows above this.
pub const MAX_WINDOW: usize = 64;

/// The longest span of time that can be told, in nanoseconds.
pub const MAX_DURATION: u128 = 18_446_744_073_709_551_615_999_999_999;

/// Absolute backstop on the smoothed round-trip time: one second.
pub const MAX_RTT: u128 = 1_000_000_000;

/// An AIMD congestion window over fragment counts.
#[derive(Debug)]
pub struct Congestion {
    cwnd: usize,
    /// Slow-start threshold: below it the window doubles per clean round, at or
    /// above it it grows by one.
    ssthresh: usize,
}

impl Congestion {
    /// The window.
    pub closed spec fn cwnd(&self) -> int {
        self.cwnd as int
    }

    /// The slow-start threshold.
    pub closed spec fn ssthresh(&self) -> int {
        self.ssthresh as int
    }

    /// The window lies between its floor and its cap.
    pub open spec fn wf(&self) -> bool {
        &&& MIN_WINDOW <= self.cwnd() <= MAX_WINDOW
        &&& MIN_WINDOW <= self.ssthresh()
    }

    /// A fresh window, in slow start.
    pub fn new() -> (r: Self)
        ensures
            r.wf(),
            r.cwnd() == INIT_WINDOW,
            r.ssthresh() == usize::MAX,
    {
        Congestion { cwnd: INIT_WINDOW, ssthresh: usize::MAX }
    }

    /// The current window: how many fragments to send before pausing.
    pub fn window(&self) -> (r: usize)
        ensures
            r == self.cwnd(),
    {
        self.cwnd
    }

    /// A response was delivered without drawing a NACK: grow the window,
    /// doubling in slow start, by one in congestion avoidance, up to the cap.
    pub fn on_delivered(&mut self)
        requires
            old(self).wf(),
        ensures
            final(self).wf(),
            final(self).cwnd() == ({
                let grown = if old(self).cwnd() < old(self).ssthresh() {
                    2 * old(self).cwnd()
                } else {
                    old(self).cwnd() + 1
                };
                if grown < MAX_WINDOW {
                    grown
                } else {
                    MAX_WINDOW as int
                }
            }),
            final(self).ssthresh() == old(self).ssthresh(),
    {
        let grown: usize = if self.cwnd < self.ssthresh {
            2 * self.cwnd
        } else {
            self.cwnd + 1
        };
        self.cwnd = if grown < MAX_WINDOW {
            grown
        } else {
            MAX_WINDOW
        };
    }

    /// A response drew a NACK: set the slow-start threshold to half the window,
    /// not below the floor, and drop to it.
    pub fn on_loss(&mut self)
        requires
            old(self).wf(),
        ensures
            final(self).wf(),
            final(self).ssthresh() == (if old(self).cwnd() / 2 < MIN_WINDOW {
                MIN_WINDOW as int
            } else {
                old(self).cwnd() / 2
            }),
            final(self).cwnd() == final(self).ssthresh(),
    {
        let half: usize = self.cwnd / 2;
        self.ssthresh = if half < MIN_WINDOW {
            MIN_WINDOW
        } else {
            half
        };
        self.cwnd = self.ssthresh;
    }
}

impl Default for Congestion {
    fn default() -> (r: Self)
        ensures
            r.wf(),
            r.cwnd() == INIT_WINDOW,
            r.ssthresh() == usize::MAX,
    {
        Congestion::new()
    }
}

/// The smaller of two spans.
pub open spec fn smaller(a: int, b: int) -> int {
    if a < b {
        a
    } else {
        b
    }
}

/// A smoothed round-trip-time estimate: the first sample replaces the assumed
/// initial value, later ones count for an eighth. The estimate is capped.
#[derive(Debug)]
pub struct Rtt {
    srtt: u128,
    max: u128,
    /// Whether a real sample has landed yet.
    sampled: bool,
}

impl Rtt {
    /// The estimate.
    pub closed spec fn srtt(&self) -> int {
        self.srtt as int
    }

    /// The cap on the estimate.
    pub closed spec fn max(&self) -> int {
        self.max as int
    }

    /// Whether a real sample has landed yet.
    pub closed spec fn sampled(&self) -> bool {
        self.sampled
    }

    /// The estimate keeps under its cap, and the cap under the backstop.
    pub open spec fn wf(&self) -> bool {
        self.srtt() <= self.max() <= MAX_RTT
    }

    /// Start from an assumed round-trip time, capping the estimate at `max` and
    /// at [`MAX_RTT`].
    pub fn new(initial: u128, max: u128) -> (r: Self)
        ensures
            r.wf(),
            r.max() == smaller(max as int, MAX_RTT as int),
            r.srtt() == smaller(initial as int, r.max()),
            !r.sampled(),
    {
        let max: u128 = if max < MAX_RTT {
            max
        } else {
            MAX_RTT
        };
        let srtt: u128 = if initial < max {
            initial
        } else {
            max
        };
        Rtt { srtt, max, sampled: false }
    }

    /// The current smoothed round-trip time.
    pub fn get(&self) -> (r: u128)
        ensures
            r == self.srtt(),
    {
        self.srtt
    }

    /// Fold in a new round-trip sample: the first replaces the assumed initial;
    /// later ones smooth to seven eighths of the estimate and an eighth of the
    /// sample. Capped at the maximum.
    pub fn sample(&mut self, rtt: u128)
        requires
            old(self).wf(),
            old(self).sampled() ==> 7 * old(self).srtt() + rtt <= MAX_DURATION,
        ensures
            final(self).wf(),
            final(self).max() == old(self).max(),
            final(self).sampled(),
            final(self).srtt() == smaller(
                if old(self).sampled() {
                    (7 * old(self).srtt() + rtt) / 8
                } else {
                    rtt as int
                },
                old(self).max(),
            ),
    {
        let next: u128 = if self.sampled {
            (self.srtt * 7 + rtt) / 8
        } else {
            rtt
        };
        self.sampled = true;
        self.srtt = if next < self.max {
            next
        } else {
            self.max
        };
    }
}

/// The estimate lies between the old estimate and the sample, up to the cap:
/// smoothing never overshoots.
pub proof fn law_smoothing_stays_between(srtt: int, sample: int)
    requires
        0 <= srtt,
        0 <= sample,
    ensures
        srtt <= sample ==> srtt <= (7 * srtt + sample) / 8 <= sample,
        sample <= srtt ==> sample <= (7 * srtt + sample) / 8 <= srtt,
{
}

} // verus!
