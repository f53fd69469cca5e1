//! When the sampler thread samples, and what.
//!
//! The thread waits for the next tick or a control message, whichever comes first;
//! these are its decisions. Times are nanoseconds on one monotonic clock, and
//! saturate at the clock's end rather than wrap.
use vstd::prelude::*;

use crate::metrics::{EnabledSet, MetricId};

verus! {

/// Cadence for work that is too slow or too static to run every tick: 5 s.
pub const SLOW_PERIOD: u64 = 5_000_000_000;

/// Cap on the delay before the first sample, so long intervals don't start with an
/// empty window: 500 ms.
pub const FIRST_SAMPLE_MAX_DELAY: u64 = 500_000_000;

/// A message to the sampler thread.
pub enum Control {
    Interval(std::time::Duration),
    Enabled(EnabledSet),
}

pub open spec fn sat_add(a: u64, b: u64) -> u64 {
    if a + b > u64::MAX {
        u64::MAX
    } else {
        (a + b) as u64
    }
}

pub struct Schedule {
    interval: u64,
    last_tick: u64,
    next_tick: u64,
}

impl Schedule {
    pub closed spec fn interval_spec(&self) -> u64 {
        self.interval
    }

    pub closed spec fn last_tick_spec(&self) -> u64 {
        self.last_tick
    }

    pub closed spec fn next_tick_spec(&self) -> u64 {
        self.next_tick
    }

    /// Started at `now`: the first sample comes after one interval, but no later than
    /// `FIRST_SAMPLE_MAX_DELAY`.
    pub fn start(now: u64, interval: u64) -> (s: Self)
        ensures
            s.interval_spec() == interval,
            s.last_tick_spec() == now,
            s.next_tick_spec() == sat_add(
                now,
                if interval < FIRST_SAMPLE_MAX_DELAY { interval } else { FIRST_SAMPLE_MAX_DELAY },
            ),
    {
        let first = if interval < FIRST_SAMPLE_MAX_DELAY {
            interval
        } else {
            FIRST_SAMPLE_MAX_DELAY
        };
        Schedule { interval, last_tick: now, next_tick: now.saturating_add(first) }
    }

    /// How long to wait at `now` for the next tick.
    pub fn wait(&self, now: u64) -> (w: u64)
        ensures
            w == if self.next_tick_spec() > now { (self.next_tick_spec() - now) as u64 } else { 0 },
    {
        if self.next_tick > now {
            self.next_tick - now
        } else {
            0
        }
    }

    /// A new interval applies from the last tick.
    pub fn set_interval(&mut self, interval: u64)
        ensures
            final(self).interval_spec() == interval,
            final(self).last_tick_spec() == old(self).last_tick_spec(),
            final(self).next_tick_spec() == sat_add(old(self).last_tick_spec(), interval),
    {
        self.interval = interval;
        self.next_tick = self.last_tick.saturating_add(interval);
    }

    /// A sample was taken at `now`. The next one is due one interval after the one
    /// just due; if that has already passed (suspend, slow I/O) it resyncs to one
    /// interval from now instead of bursting.
    pub fn ticked(&mut self, now: u64)
        ensures
            final(self).interval_spec() == old(self).interval_spec(),
            final(self).last_tick_spec() == now,
            final(self).next_tick_spec() == if sat_add(old(self).next_tick_spec(), old(self).interval_spec()) > now {
                sat_add(old(self).next_tick_spec(), old(self).interval_spec())
            } else {
                sat_add(now, old(self).interval_spec())
            },
    {
        self.last_tick = now;
        let next = self.next_tick.saturating_add(self.interval);
        self.next_tick = if next > now {
            next
        } else {
            now.saturating_add(self.interval)
        };
    }
}

/// After a tick with a nonzero interval, the next tick is in the future: the sampler
/// never bursts to catch up (short of the clock's end).
pub proof fn lemma_no_burst(next: u64, interval: u64, now: u64)
    requires
        interval > 0,
        now < u64::MAX - interval,
    ensures
        (if sat_add(next, interval) > now { sat_add(next, interval) } else { sat_add(now, interval) }) > now,
{
}

/// Whether the slow work is due: never done yet, or `SLOW_PERIOD` has passed.
pub fn slow_due(last_slow: Option<u64>, now: u64) -> (b: bool)
    ensures
        b == match last_slow {
            None => true,
            Some(t) => now >= t && now - t >= SLOW_PERIOD,
        },
{
    match last_slow {
        None => true,
        Some(t) => now >= t && now - t >= SLOW_PERIOD,
    }
}

/// What one tick reads.
#[derive(Clone, Copy, Debug, PartialEq, Eq)]
pub struct Plan {
    /// `/proc/stat`, for the CPU's load; its temperature and power are read along with
    /// it, where those are on.
    pub cpu: bool,
    pub cpu_temp: bool,
    pub cpu_power: bool,
    pub mem: bool,
    /// The drives' I/O counters; their temperatures are read along with them, where
    /// those are on.
    pub drives: bool,
    pub drive_temp: bool,
    pub net: bool,
    pub gpus: bool,
}

/// What a tick reads: the CPU for its load, the memory, the drives for their I/O, the
/// network and the GPUs, each where one of its metrics is switched on.
pub fn plan(enabled: EnabledSet) -> (p: Plan)
    ensures
        p.cpu == (enabled@.contains(MetricId::CpuTotal) || enabled@.contains(MetricId::CpuPerCore)),
        p.cpu_temp == enabled@.contains(MetricId::CpuTemp),
        p.cpu_power == enabled@.contains(MetricId::CpuPower),
        p.mem == (enabled@.contains(MetricId::RamUsage) || enabled@.contains(MetricId::SwapUsage)),
        p.drives == enabled@.contains(MetricId::DiskIo),
        p.drive_temp == enabled@.contains(MetricId::DiskTemp),
        p.net == enabled@.contains(MetricId::NetThroughput),
        p.gpus == (enabled@.contains(MetricId::GpuUsage) || enabled@.contains(MetricId::GpuPower)
            || enabled@.contains(MetricId::GpuMemory) || enabled@.contains(MetricId::GpuTemp)),
{
    let cpu_temp = enabled.contains(MetricId::CpuTemp);
    let cpu_power = enabled.contains(MetricId::CpuPower);
    let drive_temp = enabled.contains(MetricId::DiskTemp);
    Plan {
        cpu: enabled.contains(MetricId::CpuTotal) || enabled.contains(MetricId::CpuPerCore),
        cpu_temp,
        cpu_power,
        mem: enabled.contains(MetricId::RamUsage) || enabled.contains(MetricId::SwapUsage),
        drives: enabled.contains(MetricId::DiskIo),
        drive_temp,
        net: enabled.contains(MetricId::NetThroughput),
        gpus: enabled.contains(MetricId::GpuUsage) || enabled.contains(MetricId::GpuPower)
            || enabled.contains(MetricId::GpuMemory) || enabled.contains(MetricId::GpuTemp),
    }
}

} // verus!
