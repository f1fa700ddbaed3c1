use ballpit::ball::Ball;
use ballpit::collision::collision::{collision, collision_handle, Body, CollisionDetectionData};
use ballpit::collision::colliders::collide_ball_ball;
use ballpit::collision::solvers::{solve_collision_ball_ball, solve_collision_ball_wall};
use ballpit::geometry::{Vec2, COORD_LIMIT, RADIUS_LIMIT, SPEED_LIMIT};
use ballpit::simulation::SimulationData;
use ballpit::wall::Wall;

fn sep2_at(b0: &Ball, b1: &Ball, t: i64) -> i128 {
    let x0 = b0.position.x as i128 + b0.velocity.x as i128 * (t - b0.initial_time) as i128;
    let y0 = b0.position.y as i128 + b0.velocity.y as i128 * (t - b0.initial_time) as i128;
    let x1 = b1.position.x as i128 + b1.velocity.x as i128 * (t - b1.initial_time) as i128;
    let y1 = b1.position.y as i128 + b1.velocity.y as i128 * (t - b1.initial_time) as i128;
    (x0 - x1) * (x0 - x1) + (y0 - y1) * (y0 - y1)
}

#[test]
fn empty_world_has_nothing_to_do() {
    let mut world: Vec<Body> = Vec::new();
    let clock = SimulationData { time: 0, next_time: 100, last_simulated: 0 };
    let mut data = CollisionDetectionData::new(0);
    collision(&world, &clock, &mut data);
    assert!(data.collisions_events.is_empty());
    assert!(collision_handle(&mut world, &clock, &mut data, 10));
    assert!(world.is_empty());
}

#[test]
fn balls_at_the_limits_meet_at_the_first_touching_tick() {
    let l = COORD_LIMIT;
    let s = SPEED_LIMIT;
    let r = RADIUS_LIMIT;
    let b0 = Ball {
        position: Vec2 { x: -l, y: -l },
        velocity: Vec2 { x: s / 2, y: s / 2 },
        radius: r,
        initial_time: 0,
    };
    let b1 = Ball {
        position: Vec2 { x: l, y: l },
        velocity: Vec2 { x: -s / 2, y: -s / 2 },
        radius: r,
        initial_time: 0,
    };
    let (entry, _) = solve_collision_ball_ball(&b0, &b1).unwrap();
    let reach = ((2 * r) as i128) * ((2 * r) as i128);
    assert!(sep2_at(&b0, &b1, entry) <= reach);
    assert!(sep2_at(&b0, &b1, entry - 1) > reach);
}

#[test]
fn balls_at_the_limits_exchange_velocities() {
    let l = COORD_LIMIT;
    let s = SPEED_LIMIT;
    let r = RADIUS_LIMIT;
    let b0 = Ball {
        position: Vec2 { x: -l, y: -l },
        velocity: Vec2 { x: s, y: 0 },
        radius: r,
        initial_time: 0,
    };
    let b1 = Ball {
        position: Vec2 { x: l, y: -l },
        velocity: Vec2 { x: -s, y: 0 },
        radius: r,
        initial_time: 0,
    };
    let (entry, closest) = solve_collision_ball_ball(&b0, &b1).unwrap();
    assert_eq!((entry, closest), ((l - r) / s, l / s));
    let (n0, n1) = collide_ball_ball(&b0, &b1, entry).unwrap();
    assert_eq!(n0.velocity, Vec2 { x: -s, y: 0 });
    assert_eq!(n1.velocity, Vec2 { x: s, y: 0 });
    assert_eq!(n0.position, Vec2 { x: -r, y: -l });
}

#[test]
fn balls_whose_centres_coincide_are_not_closing() {
    let s = SPEED_LIMIT;
    let b0 = Ball { position: Vec2 { x: 0, y: 0 }, velocity: Vec2 { x: s, y: 0 }, radius: 5, initial_time: 0 };
    let b1 = Ball { position: Vec2 { x: 0, y: 0 }, velocity: Vec2 { x: -s, y: 0 }, radius: 5, initial_time: 0 };
    assert_eq!(collide_ball_ball(&b0, &b1, 0), None);
    assert_eq!(solve_collision_ball_ball(&b0, &b1), None);
}

#[test]
fn ball_at_the_limits_reaches_a_long_wall() {
    let l = COORD_LIMIT;
    let wall = Wall { p0: Vec2 { x: -l, y: -l }, p1: Vec2 { x: l, y: -l } };
    let b = Ball {
        position: Vec2 { x: l, y: l },
        velocity: Vec2 { x: 0, y: -SPEED_LIMIT },
        radius: RADIUS_LIMIT,
        initial_time: 0,
    };
    // Gap of 2 * l - radius at full speed.
    let gap = 2 * l - RADIUS_LIMIT;
    let expected = (gap + SPEED_LIMIT - 1) / SPEED_LIMIT;
    let touch = (2 * l + SPEED_LIMIT - 1) / SPEED_LIMIT;
    assert_eq!(solve_collision_ball_wall(&b, &wall), Some((expected, touch)));
}
