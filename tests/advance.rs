use ballpit::advance::{advance_balls, advance_single_ball, clear_trails};
use ballpit::ball::{Ball, Trail, Trails};
use ballpit::collision::collidable::{Collidable, Generation};
use ballpit::collision::collision::Body;
use ballpit::geometry::Vec2;
use ballpit::simulation::SimulationData;
use ballpit::wall::Wall;

fn ball(x: i64, y: i64, vx: i64, vy: i64, r: i64, t: i64) -> Ball {
    Ball { position: Vec2 { x, y }, velocity: Vec2 { x: vx, y: vy }, radius: r, initial_time: t }
}

#[test]
fn advancing_in_steps_equals_one_step() {
    let start = ball(100, -200, 7, -3, 50, 10);
    let mut direct = start;
    let mut trails = Trails::new();
    advance_single_ball(&mut direct, &mut trails, 1000);
    let mut stepped = start;
    let mut trails2 = Trails::new();
    for t in [17, 17, 250, 251, 999, 1000] {
        advance_single_ball(&mut stepped, &mut trails2, t);
    }
    assert_eq!(direct, stepped);
    assert_eq!(direct, ball(100 + 7 * 990, -200 - 3 * 990, 7, -3, 50, 1000));
}

#[test]
fn advancing_logs_the_travelled_piece() {
    let mut b = ball(0, 0, 2, 1, 10, 5);
    let mut trails = Trails::new();
    advance_single_ball(&mut b, &mut trails, 15);
    assert_eq!(
        trails.trails,
        vec![Trail {
            position0: Vec2 { x: 0, y: 0 },
            position1: Vec2 { x: 20, y: 10 },
            initial_time: 5,
            final_time: 15,
        }]
    );
    // Advancing to the same time changes nothing and logs nothing.
    advance_single_ball(&mut b, &mut trails, 15);
    assert_eq!(b, ball(20, 10, 2, 1, 10, 15));
    assert_eq!(trails.trails.len(), 1);
    clear_trails(&mut trails);
    assert!(trails.trails.is_empty());
}

#[test]
fn advance_balls_moves_balls_and_leaves_walls() {
    let wall = Wall { p0: Vec2 { x: 0, y: 0 }, p1: Vec2 { x: 10, y: 0 } };
    let mut world = vec![
        Body {
            collidable: Collidable::Ball(ball(0, 0, 3, 4, 10, 0)),
            generation: Generation { generation: 2 },
            trails: Trails::new(),
        },
        Body {
            collidable: Collidable::Wall(wall),
            generation: Generation { generation: 0 },
            trails: Trails::new(),
        },
    ];
    let clock = SimulationData { time: 0, next_time: 100, last_simulated: 0 };
    advance_balls(&mut world, &clock);
    assert_eq!(world[0].collidable, Collidable::Ball(ball(300, 400, 3, 4, 10, 100)));
    assert_eq!(world[0].generation, Generation { generation: 2 });
    assert_eq!(world[0].trails.trails.len(), 1);
    assert_eq!(world[1].collidable, Collidable::Wall(wall));
}

#[test]
fn advance_balls_keeps_a_ball_that_would_leave_the_area() {
    let far = ball(268_000_000, 0, 1_000_000, 0, 10, 0);
    let mut world = vec![Body {
        collidable: Collidable::Ball(far),
        generation: Generation { generation: 0 },
        trails: Trails::new(),
    }];
    let clock = SimulationData { time: 0, next_time: 100, last_simulated: 0 };
    advance_balls(&mut world, &clock);
    assert_eq!(world[0].collidable, Collidable::Ball(far));
    assert!(world[0].trails.trails.is_empty());
}
