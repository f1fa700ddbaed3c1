use ballpit::geometry::{ceil_sqrt, floor_sqrt};
use ballpit::wall::Wall;
use ballpit::geometry::Vec2;

#[test]
fn square_roots_round_as_named() {
    assert_eq!(floor_sqrt(0), 0);
    assert_eq!(floor_sqrt(1), 1);
    assert_eq!(floor_sqrt(15), 3);
    assert_eq!(floor_sqrt(16), 4);
    assert_eq!(floor_sqrt(18_000_000_000_000), 4_242_640);
    assert_eq!(ceil_sqrt(0), 0);
    assert_eq!(ceil_sqrt(15), 4);
    assert_eq!(ceil_sqrt(16), 4);
    assert_eq!(ceil_sqrt(17), 5);
    let big: u128 = (1u128 << 100) - 1;
    assert_eq!(floor_sqrt(big), (1u64 << 50) - 1);
    assert_eq!(ceil_sqrt(big), 1u64 << 50);
}

#[test]
fn wall_normal_is_a_quarter_turn_of_its_direction() {
    let w = Wall { p0: Vec2::new(1, 2), p1: Vec2::new(4, 6) };
    assert_eq!(w.normal(), Vec2 { x: -4, y: 3 });
}
