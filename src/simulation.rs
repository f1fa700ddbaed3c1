use vstd::prelude::*;
use crate::geometry::TIME_LIMIT;

verus! {

/// Shortest wall-clock time, in milliseconds, that a frame is given.
pub const FRAME_TIME_CAP: i64 = 16;

/// The simulation clock: the current frame runs from `time` to `next_time`.
#[derive(Clone, Copy, Debug, PartialEq, Eq, Structural)]
pub struct SimulationData {
    pub time: i64,
    pub next_time: i64,
    /// Wall-clock milliseconds at which the last frame was finished.
    pub last_simulated: i64,
}

/// How many ticks a frame advances the simulation.
#[derive(Clone, Copy, Debug, PartialEq, Eq, Structural)]
pub struct SimulationConfig {
    pub time_delta: i64,
}

impl SimulationData {
    /// The frame window lies within the time limits.
    pub open spec fn wf(self) -> bool {
        0 <= self.time <= self.next_time <= TIME_LIMIT
    }
}

impl SimulationConfig {
    pub open spec fn wf(self) -> bool {
        0 <= self.time_delta <= TIME_LIMIT
    }
}

/// The clock at the start of the run: the first frame is `[0, time_delta]`.
pub fn init_simulation(simulation_config: SimulationConfig, now_ms: i64) -> (r: SimulationData)
    requires
        simulation_config.wf(),
    ensures
        r.time == 0,
        r.next_time == simulation_config.time_delta,
        r.last_simulated == now_ms,
        r.wf(),
{
    SimulationData { time: 0, next_time: simulation_config.time_delta, last_simulated: now_ms }
}

/// Moves the clock on by one frame.  Returns how many milliseconds to wait so
/// that a frame takes at least `FRAME_TIME_CAP`, given the wall-clock time
/// `now_ms`; `last_simulated` becomes the time the wait ends.
///
/// The frame window stops growing once it would pass the time limit.
pub fn advance_time(
    simulation_data: &mut SimulationData,
    simulation_config: &SimulationConfig,
    now_ms: i64,
) -> (r: i64)
    requires
        old(simulation_data).wf(),
        simulation_config.wf(),
        0 <= old(simulation_data).last_simulated <= now_ms,
        now_ms <= i64::MAX - FRAME_TIME_CAP,
    ensures
        final(simulation_data).time == old(simulation_data).next_time,
        final(simulation_data).next_time == if old(simulation_data).next_time
            + simulation_config.time_delta <= TIME_LIMIT {
            old(simulation_data).next_time + simulation_config.time_delta
        } else {
            TIME_LIMIT as int
        },
        final(simulation_data).wf(),
        r == if FRAME_TIME_CAP - (now_ms - old(simulation_data).last_simulated) > 0 {
            FRAME_TIME_CAP - (now_ms - old(simulation_data).last_simulated)
        } else {
            0
        },
        final(simulation_data).last_simulated == now_ms + r,
{
    simulation_data.time = simulation_data.next_time;
    if simulation_data.next_time <= TIME_LIMIT - simulation_config.time_delta {
        simulation_data.next_time = simulation_data.next_time + simulation_config.time_delta;
    } else {
        simulation_data.next_time = TIME_LIMIT;
    }
    let elapsed: i64 = now_ms - simulation_data.last_simulated;
    let wait: i64 = if FRAME_TIME_CAP - elapsed > 0 {
        FRAME_TIME_CAP - elapsed
    } else {
        0
    };
    simulation_data.last_simulated = now_ms + wait;
    wait
}

/// Scales the frame length by `num / den`, rounded down.
pub fn adjust_simulation_speed(simulation_config: &mut SimulationConfig, num: i64, den: i64)
    requires
        old(simulation_config).wf(),
        0 <= num <= 1000,
        0 < den <= 1000,
    ensures
        final(simulation_config).time_delta == if (old(simulation_config).time_delta * num) / (
        den as int) <= TIME_LIMIT {
            (old(simulation_config).time_delta * num) / (den as int)
        } else {
            TIME_LIMIT as int
        },
        final(simulation_config).wf(),
{
    assert(0 <= simulation_config.time_delta * num <= 1099511627776int * 1000) by (nonlinear_arith)
        requires
            0 <= simulation_config.time_delta <= 1099511627776int,
            0 <= num <= 1000int,
    ;
    let scaled: i64 = simulation_config.time_delta * num / den;
    assert(scaled >= 0) by (nonlinear_arith)
        requires
            scaled as int == (simulation_config.time_delta * num) as int / (den as int),
            simulation_config.time_delta * num >= 0,
            den > 0,
    ;
    if scaled <= TIME_LIMIT {
        simulation_config.time_delta = scaled;
    } else {
        simulation_config.time_delta = TIME_LIMIT;
    }
}

} // verus!
