use ballpit::ball::Ball;
use ballpit::collision::collidable::Collidable;
use ballpit::collision::solvers::{
    get_movement_bounding_box, segments_intersect, solve_collision, solve_collision_ball_ball,
    solve_collision_ball_wall,
};
use ballpit::geometry::Vec2;
use ballpit::wall::Wall;

// One length unit of the scenarios is 1000 units here, and one time unit is
// 1000 ticks.

fn ball(x: i64, y: i64, vx: i64, vy: i64, r: i64, t: i64) -> Ball {
    Ball { position: Vec2 { x, y }, velocity: Vec2 { x: vx, y: vy }, radius: r, initial_time: t }
}

#[test]
fn head_on_balls_meet_after_closing_the_gap() {
    let b0 = ball(0, 0, 5, 0, 1000, 0);
    let b1 = ball(10000, 0, -5, 0, 1000, 0);
    // A gap of 8 closed at combined speed 10: 0.8 time units.
    assert_eq!(solve_collision_ball_ball(&b0, &b1), Some((800, 1000)));
    assert_eq!(solve_collision_ball_ball(&b1, &b0), Some((800, 1000)));
}

#[test]
fn separating_balls_do_not_meet() {
    let b0 = ball(0, 0, -5, 0, 1000, 0);
    let b1 = ball(10000, 0, 5, 0, 1000, 0);
    assert_eq!(solve_collision_ball_ball(&b0, &b1), None);
}

#[test]
fn balls_at_rest_do_not_meet() {
    let b0 = ball(0, 0, 0, 0, 1000, 0);
    let b1 = ball(10000, 0, 0, 0, 1000, 0);
    assert_eq!(solve_collision_ball_ball(&b0, &b1), None);
}

#[test]
fn passing_balls_that_miss_do_not_meet() {
    let b0 = ball(0, 0, 5, 0, 1000, 0);
    let b1 = ball(10000, 5000, -5, 0, 1000, 0);
    assert_eq!(solve_collision_ball_ball(&b0, &b1), None);
}

#[test]
fn grazing_contact_shorter_than_a_tick_is_reported() {
    // Touching only between ticks 1 and 2: entry is the first tick after the
    // real root (about 1.33); the closest approach (1.5) rounds up to 2.
    let b0 = ball(0, 0, 10, 0, 1, 0);
    let b1 = ball(15, 1, 0, 0, 1, 0);
    assert_eq!(solve_collision_ball_ball(&b0, &b1), Some((2, 2)));
    let b2 = ball(19, 1, 0, 0, 1, 0);
    assert_eq!(solve_collision_ball_ball(&b0, &b2), Some((2, 2)));
}

#[test]
fn balls_pinned_at_different_times_are_compared_at_the_later() {
    // b1 is pinned 200 ticks later, when b0 stands at x = 1000.
    let b0 = ball(0, 0, 5, 0, 1000, 0);
    let b1 = ball(9000, 0, -5, 0, 1000, 200);
    assert_eq!(solve_collision_ball_ball(&b0, &b1), Some((800, 1000)));
}

#[test]
fn overlapping_approaching_balls_meet_at_once() {
    let b0 = ball(0, 0, 5, 0, 1000, 50);
    let b1 = ball(1500, 0, -5, 0, 1000, 50);
    assert_eq!(solve_collision_ball_ball(&b0, &b1), Some((50, 200)));
}

#[test]
fn ball_reaches_wall_after_covering_distance_less_radius() {
    // Wall along the x axis; its normal points to +y.
    let wall = Wall { p0: Vec2 { x: 0, y: 0 }, p1: Vec2 { x: 10000, y: 0 } };
    let b = ball(5000, 4000, 0, -2, 1000, 0);
    // (4 - 1) / 2 = 1.5 time units to contact, 4 / 2 = 2 to the line.
    assert_eq!(solve_collision_ball_wall(&b, &wall), Some((1500, 2000)));
}

#[test]
fn ball_reaches_slanted_wall() {
    // Wall on the line x = y; a ball at (0, 4000) moving right at 2.
    let wall = Wall { p0: Vec2 { x: 0, y: 0 }, p1: Vec2 { x: 3000, y: 3000 } };
    let b = ball(0, 4000, 2, 0, 1000, 10);
    // Distance to the line is 4000 / sqrt 2; within 1000 once x >= 4000 - 1000 * sqrt 2.
    assert_eq!(solve_collision_ball_wall(&b, &wall), Some((10 + 1293, 10 + 2000)));
}

#[test]
fn ball_moving_away_or_along_a_wall_does_not_meet_it() {
    let wall = Wall { p0: Vec2 { x: 0, y: 0 }, p1: Vec2 { x: 10000, y: 0 } };
    assert_eq!(solve_collision_ball_wall(&ball(5000, 4000, 0, 2, 1000, 0), &wall), None);
    assert_eq!(solve_collision_ball_wall(&ball(5000, 4000, 3, 0, 1000, 0), &wall), None);
    assert_eq!(solve_collision_ball_wall(&ball(5000, -4000, 0, -2, 1000, 0), &wall), None);
}

#[test]
fn ball_on_the_far_side_meets_the_wall_too() {
    let wall = Wall { p0: Vec2 { x: 0, y: 0 }, p1: Vec2 { x: 10000, y: 0 } };
    let b = ball(5000, -4000, 0, 2, 1000, 0);
    assert_eq!(solve_collision_ball_wall(&b, &wall), Some((1500, 2000)));
}

#[test]
fn ball_already_within_reach_of_a_wall_meets_it_at_once() {
    let wall = Wall { p0: Vec2 { x: 0, y: 0 }, p1: Vec2 { x: 10000, y: 0 } };
    let b = ball(5000, 500, 0, -100, 1000, 30);
    assert_eq!(solve_collision_ball_wall(&b, &wall), Some((30, 35)));
}

#[test]
fn dispatch_orders_ball_and_wall_either_way() {
    let wall = Wall { p0: Vec2 { x: 0, y: 0 }, p1: Vec2 { x: 10000, y: 0 } };
    let b = ball(5000, 4000, 0, -2, 1000, 0);
    let cb = Collidable::Ball(b);
    let cw = Collidable::Wall(wall);
    assert_eq!(solve_collision(&cb, &cw), Some((1500, 2000)));
    assert_eq!(solve_collision(&cw, &cb), Some((1500, 2000)));
    assert_eq!(solve_collision(&cw, &cw), None);
    let other = Collidable::Ball(ball(5000, 8000, 0, 0, 1000, 0));
    assert_eq!(solve_collision(&cb, &other), None);
}

#[test]
fn segments_intersect_on_touching_ends() {
    assert!(segments_intersect((0, 10), (10, 20)));
    assert!(segments_intersect((5, 7), (0, 20)));
    assert!(!segments_intersect((0, 9), (10, 20)));
    assert!(!segments_intersect((21, 30), (10, 20)));
}

#[test]
fn bounding_box_of_a_moving_ball_covers_both_ends() {
    let b = Collidable::Ball(ball(1000, 2000, 10, -5, 300, 0));
    let (lo, hi) = get_movement_bounding_box(&b, 100);
    assert_eq!(lo, Vec2 { x: 1000 - 301, y: 1500 - 301 });
    assert_eq!(hi, Vec2 { x: 2000 + 301, y: 2000 + 301 });
}

#[test]
fn bounding_box_of_a_wall_covers_its_ends() {
    let w = Collidable::Wall(Wall { p0: Vec2 { x: 50, y: 0 }, p1: Vec2 { x: 0, y: 70 } });
    let (lo, hi) = get_movement_bounding_box(&w, 100);
    assert_eq!(lo, Vec2 { x: -1, y: -1 });
    assert_eq!(hi, Vec2 { x: 51, y: 71 });
}
