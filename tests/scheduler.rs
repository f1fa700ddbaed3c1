use ballpit::ball::{Ball, Trails};
use ballpit::collision::collidable::{
    Collidable, CollidableType, Generation, GenerationalCollisionEntity,
};
use ballpit::collision::collision::{
    collision, collision_handle, fetch_collidable_copy, get_cell_range_for_movement,
    process_event, Body, CollisionDetectionData,
};
use ballpit::collision::solvers::solve_collision_ball_ball;
use ballpit::advance::advance_balls;
use ballpit::geometry::Vec2;
use ballpit::simulation::SimulationData;
use ballpit::wall::Wall;
use ballpit::world_gen::{init_walls, GenerationConfig};

fn ball(x: i64, y: i64, vx: i64, vy: i64, r: i64, t: i64) -> Ball {
    Ball { position: Vec2 { x, y }, velocity: Vec2 { x: vx, y: vy }, radius: r, initial_time: t }
}

fn body(c: Collidable) -> Body {
    Body { collidable: c, generation: Generation { generation: 0 }, trails: Trails::new() }
}

fn box_world(b: Ball) -> Vec<Body> {
    let mut world = init_walls(&GenerationConfig { width: 10000, height: 10000 });
    world.insert(0, body(Collidable::Ball(b)));
    world
}

#[test]
fn later_event_against_a_changed_body_is_dropped() {
    let left = Wall { p0: Vec2 { x: 0, y: 10000 }, p1: Vec2 { x: 0, y: 0 } };
    let right = Wall { p0: Vec2 { x: 10000, y: 0 }, p1: Vec2 { x: 10000, y: 10000 } };
    let mut world = vec![
        body(Collidable::Ball(ball(5000, 5000, -10, 0, 1000, 0))),
        body(Collidable::Wall(left)),
        body(Collidable::Wall(right)),
    ];
    let mut data = CollisionDetectionData::new(3);
    // Both events were taken against generation 0 of the ball.
    assert!(process_event(&mut world, &mut data, ((0, 0), (1, 0)), 400, 1000));
    assert_eq!(world[0].collidable, Collidable::Ball(ball(1000, 5000, 10, 0, 1000, 400)));
    assert_eq!(world[0].generation, Generation { generation: 1 });
    assert_eq!(world[0].trails.trails.len(), 1);
    assert!(!process_event(&mut world, &mut data, ((0, 0), (2, 0)), 600, 1000));
    assert_eq!(world[0].collidable, Collidable::Ball(ball(1000, 5000, 10, 0, 1000, 400)));
    assert_eq!(world[0].generation, Generation { generation: 1 });
    assert_eq!(world[0].trails.trails.len(), 1);
    assert_eq!(world[2].collidable, Collidable::Wall(right));
}

#[test]
fn event_with_missing_or_identical_bodies_is_dropped() {
    let mut world = vec![body(Collidable::Ball(ball(5000, 5000, -10, 0, 1000, 0)))];
    let mut data = CollisionDetectionData::new(1);
    assert!(!process_event(&mut world, &mut data, ((0, 0), (3, 0)), 10, 100));
    assert!(!process_event(&mut world, &mut data, ((0, 0), (0, 0)), 10, 100));
    assert_eq!(world[0].generation, Generation { generation: 0 });
}

#[test]
fn frame_resolves_a_bounce_off_a_wall() {
    let mut world = box_world(ball(3000, 5000, -10, 0, 1000, 0));
    let clock = SimulationData { time: 0, next_time: 900, last_simulated: 0 };
    let mut data = CollisionDetectionData::new(0);
    collision(&world, &clock, &mut data);
    assert!(!data.collisions_events.is_empty());
    assert!(collision_handle(&mut world, &clock, &mut data, 1000));
    assert!(data.collisions_events.is_empty());
    // Contact with the left wall at tick 200, then straight on to the right.
    assert_eq!(world[0].collidable, Collidable::Ball(ball(1000, 5000, 10, 0, 1000, 200)));
    assert_eq!(world[0].generation, Generation { generation: 1 });
    advance_balls(&mut world, &clock);
    assert_eq!(world[0].collidable, Collidable::Ball(ball(8000, 5000, 10, 0, 1000, 900)));
}

#[test]
fn frame_resolves_chained_bounces() {
    // Off the left wall at tick 200, then off the right wall at tick 1000.
    let mut world = box_world(ball(3000, 5000, -10, 0, 1000, 0));
    let clock = SimulationData { time: 0, next_time: 1000, last_simulated: 0 };
    let mut data = CollisionDetectionData::new(0);
    collision(&world, &clock, &mut data);
    assert!(collision_handle(&mut world, &clock, &mut data, 1000));
    assert_eq!(world[0].collidable, Collidable::Ball(ball(9000, 5000, -10, 0, 1000, 1000)));
    assert_eq!(world[0].generation, Generation { generation: 2 });
    assert_eq!(world[0].trails.trails.len(), 2);
}

#[test]
fn frame_resolves_two_balls_meeting() {
    let mut world = vec![
        body(Collidable::Ball(ball(1000, 5000, 5, 0, 1000, 0))),
        body(Collidable::Ball(ball(11000, 5000, -5, 0, 1000, 0))),
    ];
    let clock = SimulationData { time: 0, next_time: 1000, last_simulated: 0 };
    let mut data = CollisionDetectionData::new(0);
    collision(&world, &clock, &mut data);
    assert!(collision_handle(&mut world, &clock, &mut data, 100));
    assert_eq!(world[0].collidable, Collidable::Ball(ball(5000, 5000, -5, 0, 1000, 800)));
    assert_eq!(world[1].collidable, Collidable::Ball(ball(7000, 5000, 5, 0, 1000, 800)));
    advance_balls(&mut world, &clock);
    assert_eq!(world[0].collidable, Collidable::Ball(ball(4000, 5000, -5, 0, 1000, 1000)));
    assert_eq!(world[1].collidable, Collidable::Ball(ball(8000, 5000, 5, 0, 1000, 1000)));
}

#[test]
fn bodies_in_disjoint_cells_are_not_paired() {
    let a = ball(10_000, 10_000, 1000, 0, 100, 0);
    let b = ball(1_000_000, 10_000, -1000, 0, 100, 0);
    // Left alone they would meet at tick 495.
    assert_eq!(solve_collision_ball_ball(&a, &b), Some((495, 495)));
    let world = vec![body(Collidable::Ball(a)), body(Collidable::Ball(b))];
    let short = SimulationData { time: 0, next_time: 100, last_simulated: 0 };
    let ra = get_cell_range_for_movement(&Collidable::Ball(a), 100);
    let rb = get_cell_range_for_movement(&Collidable::Ball(b), 100);
    assert!(ra.1 <= rb.0);
    let mut data = CollisionDetectionData::new(0);
    collision(&world, &short, &mut data);
    assert!(data.collisions_events.is_empty());
    // Over a window long enough for their boxes to meet, they are paired.
    let long = SimulationData { time: 0, next_time: 600, last_simulated: 0 };
    collision(&world, &long, &mut data);
    assert_eq!(data.collisions_events.len(), 1);
}

#[test]
fn cell_range_is_clamped_to_the_grid() {
    let far = Collidable::Ball(ball(-50_000, 5_000_000, 0, 0, 100, 0));
    // Left of the grid the column range is empty; below it rows are clamped.
    assert_eq!(get_cell_range_for_movement(&far, 0), (0, -1, 249, 101));
    let w = Collidable::Wall(Wall { p0: Vec2 { x: 0, y: 0 }, p1: Vec2 { x: 40_000, y: 0 } });
    assert_eq!(get_cell_range_for_movement(&w, 0), (0, 4, 0, 2));
}

#[test]
fn remove_takes_a_body_out_of_every_cell() {
    let world = vec![
        body(Collidable::Ball(ball(19_900, 19_900, 0, 0, 500, 0))),
        body(Collidable::Ball(ball(30_000, 30_000, 0, 0, 500, 0))),
    ];
    let mut data = CollisionDetectionData::new(2);
    let e0 = GenerationalCollisionEntity { entity: 0, generation: 0 };
    let e1 = GenerationalCollisionEntity { entity: 1, generation: 0 };
    data.add(&world, e0, 0, 10);
    data.add(&world, e1, 0, 10);
    assert!(data.spatial_buckets.values().any(|v| v.contains(&(0, 0))));
    // A stale generation is not removed.
    data.remove(GenerationalCollisionEntity { entity: 0, generation: 5 });
    assert!(data.last_box[0].is_some());
    data.remove(e0);
    assert!(data.last_box[0].is_none());
    assert!(data.spatial_buckets.values().all(|v| !v.contains(&(0, 0))));
    assert!(data.spatial_buckets.values().any(|v| v.contains(&(1, 0))));
}

#[test]
fn detection_queues_each_meeting_pair_once_later_body_first() {
    // Three balls in a row; the outer two close in on the middle one.
    let world = vec![
        body(Collidable::Ball(ball(1000, 5000, 5, 0, 1000, 0))),
        body(Collidable::Ball(ball(11000, 5000, 0, 0, 1000, 0))),
        body(Collidable::Ball(ball(21000, 5000, -5, 0, 1000, 0))),
    ];
    let clock = SimulationData { time: 0, next_time: 2000, last_simulated: 0 };
    let mut data = CollisionDetectionData::new(0);
    collision(&world, &clock, &mut data);
    // 0 meets 1 at tick 1600, 2 meets 1 at tick 1600; 0 and 2 would meet at
    // tick 1800 if nothing else happened.
    assert_eq!(data.collisions_events.len(), 3);
    assert_eq!(data.collisions_events.get_priority(&((1, 0), (0, 0))), Some(&-1600));
    assert_eq!(data.collisions_events.get_priority(&((2, 0), (1, 0))), Some(&-1600));
    assert_eq!(data.collisions_events.get_priority(&((2, 0), (0, 0))), Some(&-1800));
    assert_eq!(data.collisions_events.get_priority(&((0, 0), (1, 0))), None);
}

#[test]
fn small_helpers_report_what_they_name() {
    let b = Collidable::Ball(ball(1, 2, 3, 4, 5, 6));
    let w = Collidable::Wall(Wall { p0: Vec2 { x: 0, y: 0 }, p1: Vec2 { x: 1, y: 0 } });
    assert_eq!(b.collidable_type(), CollidableType::Ball);
    assert_eq!(w.collidable_type(), CollidableType::Wall);
    let g = GenerationalCollisionEntity { entity: 7, generation: 41 };
    assert_eq!(g.next(), GenerationalCollisionEntity { entity: 7, generation: 42 });
    let world = vec![body(w), body(b)];
    assert_eq!(fetch_collidable_copy(&world, 1), b);
}

#[test]
fn handler_drops_the_later_event_against_a_bounced_ball() {
    let left = Wall { p0: Vec2 { x: 0, y: 10000 }, p1: Vec2 { x: 0, y: 0 } };
    let right = Wall { p0: Vec2 { x: 10000, y: 0 }, p1: Vec2 { x: 10000, y: 10000 } };
    let mut world = vec![
        body(Collidable::Ball(ball(5000, 5000, -10, 0, 1000, 0))),
        body(Collidable::Wall(left)),
        body(Collidable::Wall(right)),
    ];
    let clock = SimulationData { time: 0, next_time: 450, last_simulated: 0 };
    let mut data = CollisionDetectionData::new(3);
    // Both events snapshot the ball at generation 0; the earlier is handled first.
    data.collisions_events.push(((0, 0), (2, 0)), -420);
    data.collisions_events.push(((0, 0), (1, 0)), -400);
    assert!(collision_handle(&mut world, &clock, &mut data, 10));
    assert!(data.collisions_events.is_empty());
    assert_eq!(world[0].collidable, Collidable::Ball(ball(1000, 5000, 10, 0, 1000, 400)));
    assert_eq!(world[0].generation, Generation { generation: 1 });
    assert_eq!(world[0].trails.trails.len(), 1);
}

#[test]
fn handler_reports_events_left_over() {
    let mut world = box_world(ball(3000, 5000, -10, 0, 1000, 0));
    let clock = SimulationData { time: 0, next_time: 1000, last_simulated: 0 };
    let mut data = CollisionDetectionData::new(0);
    collision(&world, &clock, &mut data);
    assert!(!collision_handle(&mut world, &clock, &mut data, 1));
    assert!(!data.collisions_events.is_empty());
    assert!(collision_handle(&mut world, &clock, &mut data, 100));
}
