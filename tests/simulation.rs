use ballpit::simulation::{
    adjust_simulation_speed, advance_time, init_simulation, SimulationConfig, SimulationData,
};
use ballpit::geometry::TIME_LIMIT;

#[test]
fn clock_starts_with_one_frame() {
    let c = SimulationConfig { time_delta: 16 };
    assert_eq!(init_simulation(c, 500), SimulationData { time: 0, next_time: 16, last_simulated: 500 });
}

#[test]
fn clock_moves_on_and_waits_out_the_frame() {
    let c = SimulationConfig { time_delta: 16 };
    let mut d = SimulationData { time: 0, next_time: 16, last_simulated: 1000 };
    assert_eq!(advance_time(&mut d, &c, 1010), 6);
    assert_eq!(d, SimulationData { time: 16, next_time: 32, last_simulated: 1016 });
    assert_eq!(advance_time(&mut d, &c, 1040), 0);
    assert_eq!(d, SimulationData { time: 32, next_time: 48, last_simulated: 1040 });
}

#[test]
fn clock_stops_at_the_time_limit() {
    let c = SimulationConfig { time_delta: 16 };
    let mut d = SimulationData { time: TIME_LIMIT - 20, next_time: TIME_LIMIT - 4, last_simulated: 0 };
    advance_time(&mut d, &c, 100);
    assert_eq!(d.time, TIME_LIMIT - 4);
    assert_eq!(d.next_time, TIME_LIMIT);
}

#[test]
fn speed_adjustment_scales_the_frame() {
    let mut c = SimulationConfig { time_delta: 1000 };
    adjust_simulation_speed(&mut c, 11, 10);
    assert_eq!(c.time_delta, 1100);
    adjust_simulation_speed(&mut c, 10, 11);
    assert_eq!(c.time_delta, 1000);
    adjust_simulation_speed(&mut c, 1, 3);
    assert_eq!(c.time_delta, 333);
}
