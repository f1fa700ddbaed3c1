use ballpit::ball::Ball;
use ballpit::collision::collidable::Collidable;
use ballpit::collision::colliders::{collide, collide_ball_ball, collide_ball_wall};
use ballpit::collision::solvers::solve_collision_ball_ball;
use ballpit::geometry::{Vec2, SPEED_LIMIT};
use ballpit::wall::Wall;

fn ball(x: i64, y: i64, vx: i64, vy: i64, r: i64, t: i64) -> Ball {
    Ball { position: Vec2 { x, y }, velocity: Vec2 { x: vx, y: vy }, radius: r, initial_time: t }
}

#[test]
fn equal_balls_meeting_head_on_exchange_velocities() {
    let b0 = ball(0, 0, 5, 0, 1000, 0);
    let b1 = ball(10000, 0, -5, 0, 1000, 0);
    let (t, _) = solve_collision_ball_ball(&b0, &b1).unwrap();
    let (n0, n1) = collide_ball_ball(&b0, &b1, t).unwrap();
    assert_eq!(n0, ball(4000, 0, -5, 0, 1000, 800));
    assert_eq!(n1, ball(6000, 0, 5, 0, 1000, 800));
}

#[test]
fn equal_balls_meeting_head_on_on_a_diagonal_exchange_velocities() {
    let b0 = ball(0, 0, 3, 4, 500, 0);
    let b1 = ball(600, 800, -3, -4, 500, 0);
    let (n0, n1) = collide_ball_ball(&b0, &b1, 0).unwrap();
    assert_eq!(n0.velocity, Vec2 { x: -3, y: -4 });
    assert_eq!(n1.velocity, Vec2 { x: 3, y: 4 });
}

#[test]
fn heavier_ball_keeps_going_after_impact() {
    // Masses 4 and 1 (radius 2000 and 1000): the light ball is thrown back.
    let b0 = ball(0, 0, 10, 0, 2000, 0);
    let b1 = ball(3000, 0, 0, 0, 1000, 0);
    let (n0, n1) = collide_ball_ball(&b0, &b1, 0).unwrap();
    // dv0 = -2 * 1 / 5 * 10 = -4, dv1 = 2 * 4 / 5 * 10 = 16.
    assert_eq!(n0.velocity, Vec2 { x: 6, y: 0 });
    assert_eq!(n1.velocity, Vec2 { x: 16, y: 0 });
}

#[test]
fn separating_balls_are_left_alone() {
    let b0 = ball(0, 0, -5, 0, 1000, 0);
    let b1 = ball(2000, 0, 5, 0, 1000, 0);
    assert_eq!(collide_ball_ball(&b0, &b1, 0), None);
}

#[test]
fn ball_bounces_off_wall_mirroring_its_velocity() {
    let wall = Wall { p0: Vec2 { x: 0, y: 0 }, p1: Vec2 { x: 10000, y: 0 } };
    let b = ball(5000, 4000, 3, -2, 1000, 0);
    let n = collide_ball_wall(&b, &wall, 1500).unwrap();
    assert_eq!(n, ball(9500, 1000, 3, 2, 1000, 1500));
}

#[test]
fn ball_bounces_off_slanted_wall() {
    // Wall on the line x = y, normal pointing to (-1, 1).
    let wall = Wall { p0: Vec2 { x: 0, y: 0 }, p1: Vec2 { x: 3000, y: 3000 } };
    let b = ball(0, 4000, 2, 0, 1000, 0);
    let n = collide_ball_wall(&b, &wall, 100).unwrap();
    assert_eq!(n.velocity, Vec2 { x: 0, y: 2 });
    assert_eq!(n.position, Vec2 { x: 200, y: 4000 });
}

#[test]
fn ball_moving_with_the_normal_is_left_alone() {
    let wall = Wall { p0: Vec2 { x: 0, y: 0 }, p1: Vec2 { x: 10000, y: 0 } };
    let b = ball(5000, 4000, 3, 2, 1000, 0);
    assert_eq!(collide_ball_wall(&b, &wall, 10), None);
}

#[test]
fn impact_speed_is_capped() {
    // A light ball hit by a heavy fast one would leave at nearly twice the
    // heavy ball's speed; it is slowed to the cap instead.
    let fast = SPEED_LIMIT - 1;
    let b0 = ball(0, 0, fast, 0, 1_000_000, 0);
    let b1 = ball(1_000_100, 0, 0, 0, 100, 0);
    let (n0, n1) = collide_ball_ball(&b0, &b1, 0).unwrap();
    assert_eq!(n1.velocity, Vec2 { x: SPEED_LIMIT, y: 0 });
    // The heavy ball loses less than one unit of speed, which rounds away.
    assert_eq!(n0.velocity, Vec2 { x: fast, y: 0 });
}

#[test]
fn collide_dispatches_on_order() {
    let wall = Wall { p0: Vec2 { x: 0, y: 0 }, p1: Vec2 { x: 10000, y: 0 } };
    let b = ball(5000, 4000, 3, -2, 1000, 0);
    let bounced = ball(9500, 1000, 3, 2, 1000, 1500);
    let cb = Collidable::Ball(b);
    let cw = Collidable::Wall(wall);
    assert_eq!(collide(&cb, &cw, 1500), (Some(bounced), None));
    assert_eq!(collide(&cw, &cb, 1500), (None, Some(bounced)));
    assert_eq!(collide(&cw, &cw, 1500), (None, None));
}
