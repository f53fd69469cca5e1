//! Caps how often the UI redraws. Vsync is off (it froze the app on hidden Hyprland
//! workspaces), and without it egui draws the next frame as soon as anything asks
//! for one. This decides how long to wait before each frame; the caller sleeps.
//! Times are in nanoseconds on one monotonic clock.
use vstd::prelude::*;

verus! {

/// How much of the frame budget is left after `elapsed`: never negative.
pub fn remaining(elapsed: u64, budget: u64) -> (r: u64)
    ensures
        r == if elapsed < budget { (budget - elapsed) as u64 } else { 0 },
{
    if elapsed < budget {
        budget - elapsed
    } else {
        0
    }
}

pub struct FrameLimiter {
    budget: u64,
    last: Option<u64>,
}

impl FrameLimiter {
    pub closed spec fn budget_spec(&self) -> u64 {
        self.budget
    }

    pub closed spec fn last_frame(&self) -> Option<u64> {
        self.last
    }

    /// A limiter allowing one frame every `budget` nanoseconds, no frame drawn yet.
    pub fn with_budget(budget: u64) -> (l: Self)
        ensures
            l.budget_spec() == budget,
            l.last_frame() is None,
    {
        FrameLimiter { budget, last: None }
    }

    pub fn budget(&self) -> (b: u64)
        ensures
            b == self.budget_spec(),
    {
        self.budget
    }

    /// How long to sleep at `now` so that one frame period has passed since the
    /// previous frame started; nothing before the first frame.
    pub fn wait_for(&self, now: u64) -> (w: u64)
        ensures
            w == match self.last_frame() {
                None => 0,
                Some(last) => if now >= last && now - last < self.budget_spec() {
                    (self.budget_spec() - (now - last)) as u64
                } else if now < last {
                    self.budget_spec()
                } else {
                    0
                },
            },
    {
        match self.last {
            None => 0,
            Some(last) => {
                let elapsed = if now >= last {
                    now - last
                } else {
                    0
                };
                remaining(elapsed, self.budget)
            },
        }
    }

    /// Records that a frame started at `now`.
    pub fn started(&mut self, now: u64)
        ensures
            final(self).budget_spec() == old(self).budget_spec(),
            final(self).last_frame() == Some(now),
    {
        self.last = Some(now);
    }
}

} // verus!
