//! Stutter: how much of the time between arrivals exceeds the frame
//! pacing budget.  Times are in nanoseconds.

use vstd::prelude::*;

verus! {

/// Target spacing of frames (62.5 per second).
pub const FRAME_NS: u64 = 16_000_000;

/// A gap beyond the frame spacing counts as stutter only past this slack.
pub const STUTTER_SLACK_NS: u64 = 32_000_000;

/// Stutter time of the gap between arrivals `a` and `b`: what exceeds the
/// frame spacing by more than the slack.
pub open spec fn gap_stutter(a: u64, b: u64) -> int {
    let excess = b - a - FRAME_NS - STUTTER_SLACK_NS;
    if excess > 0 {
        excess
    } else {
        0
    }
}

/// Total stutter time over the first `k` arrivals.
pub open spec fn stutter_sum(times: Seq<u64>, k: nat) -> int
    decreases k,
{
    if k <= 1 {
        0
    } else {
        stutter_sum(times, (k - 1) as nat) + gap_stutter(times[k - 2], times[k - 1])
    }
}

pub struct Stutter {
    /// First arrival, 0 until there is one.
    pub start_time: u64,
    /// Latest arrival after the first.
    pub end_time: u64,
    pub ack_times: Vec<u64>,
}

impl Stutter {
    pub fn new() -> (r: Self)
        ensures
            r.start_time == 0 && r.end_time == 0,
            r.ack_times@.len() == 0,
    {
        Stutter { start_time: 0, end_time: 0, ack_times: Vec::new() }
    }

    /// Notes an arrival at `time`.
    pub fn update(&mut self, time: u64)
        ensures
            old(self).start_time == 0 ==> final(self).start_time == time && final(self).end_time == old(self).end_time,
            old(self).start_time != 0 ==> final(self).start_time == old(self).start_time && final(self).end_time == time,
            final(self).ack_times@ == old(self).ack_times@.push(time),
    {
        if self.start_time == 0 {
            self.start_time = time;
        } else {
            self.end_time = time;
        }
        self.ack_times.push(time);
    }

    /// Total stutter time and the span it is measured over (last arrival
    /// minus first, 0 if negative); their ratio is the stutter rate.
    pub fn get_stuttering(&self) -> (r: (u128, u64))
        ensures
            r.0 == stutter_sum(self.ack_times@, self.ack_times@.len()),
            r.1 == (if self.end_time >= self.start_time {
                self.end_time - self.start_time
            } else {
                0
            }),
    {
        let n = self.ack_times.len();
        let span = self.end_time.saturating_sub(self.start_time);
        let mut total: u128 = 0;
        let mut i: usize = 1;
        if n < 2 {
            return (0, span);
        }
        while i < n
            invariant
                n == self.ack_times@.len(),
                1 <= i <= n,
                total == stutter_sum(self.ack_times@, i as nat),
                total <= i * 0x1_0000_0000_0000_0000,
            decreases n - i,
        {
            let a = self.ack_times[i - 1];
            let b = self.ack_times[i];
            let budget: u64 = FRAME_NS + STUTTER_SLACK_NS;
            if b > a && b - a > budget {
                total = total + (b - a - budget) as u128;
            }
            i = i + 1;
        }
        (total, span)
    }
}

} // verus!
