//! The choices the settings offer, and snapping saved values onto them.
use vstd::prelude::*;

verus! {

/// 100 ms – 1 s in 100 ms steps, then 1 s – 10 s in 1 s steps.
pub const INTERVAL_STEPS_MS: [u64; 19] = [
    100,
    200,
    300,
    400,
    500,
    600,
    700,
    800,
    900,
    1000,
    2000,
    3000,
    4000,
    5000,
    6000,
    7000,
    8000,
    9000,
    10000,
];

pub const HISTORY_STEPS_SECS: [u64; 7] = [30, 60, 120, 300, 600, 900, 1800];

pub open spec fn distance(a: u64, b: u64) -> nat {
    if a >= b {
        (a - b) as nat
    } else {
        (b - a) as nat
    }
}

/// Index of the step closest to `value`; the first of equally close ones; 0 when
/// there are no steps.
pub fn nearest_step(steps: &[u64], value: u64) -> (i: usize)
    ensures
        steps@.len() == 0 ==> i == 0,
        steps@.len() > 0 ==> {
            &&& i < steps@.len()
            &&& forall|j: int| 0 <= j < steps@.len() ==> distance(steps@[i as int], value) <= distance(#[trigger] steps@[j], value)
            &&& forall|j: int| 0 <= j < i ==> distance(steps@[i as int], value) < distance(#[trigger] steps@[j], value)
        },
{
    if steps.len() == 0 {
        return 0;
    }
    let mut best: usize = 0;
    let mut best_d: u64 = if steps[0] >= value {
        steps[0] - value
    } else {
        value - steps[0]
    };
    let mut j: usize = 1;
    while j < steps.len()
        invariant
            1 <= j <= steps@.len(),
            best < j,
            best_d == distance(steps@[best as int], value),
            forall|k: int| 0 <= k < j ==> best_d <= distance(#[trigger] steps@[k], value),
            forall|k: int| 0 <= k < best ==> best_d < distance(#[trigger] steps@[k], value),
        decreases steps@.len() - j,
    {
        let d = if steps[j] >= value {
            steps[j] - value
        } else {
            value - steps[j]
        };
        if d < best_d {
            best = j;
            best_d = d;
        }
        j = j + 1;
    }
    best
}

} // verus!
