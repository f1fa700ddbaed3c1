use ballpit::ball::{Ball, Trails};
use ballpit::collision::collidable::{Collidable, Generation};
use ballpit::collision::collision::Body;
use ballpit::geometry::Vec2;
use ballpit::wall::Wall;
use ballpit::world_gen::{init_walls, place_ball, GenerationConfig};

fn ball(x: i64, y: i64, r: i64) -> Ball {
    Ball { position: Vec2 { x, y }, velocity: Vec2 { x: 1, y: 0 }, radius: r, initial_time: 0 }
}

#[test]
fn walls_enclose_the_area_with_inward_normals() {
    let walls = init_walls(&GenerationConfig { width: 800, height: 600 });
    assert_eq!(walls.len(), 4);
    let expected = [
        ((0, 0), (800, 0)),
        ((800, 0), (800, 600)),
        ((800, 600), (0, 600)),
        ((0, 600), (0, 0)),
    ];
    for (body, ((x0, y0), (x1, y1))) in walls.iter().zip(expected) {
        let w = Wall { p0: Vec2 { x: x0, y: y0 }, p1: Vec2 { x: x1, y: y1 } };
        assert_eq!(body.collidable, Collidable::Wall(w));
        assert_eq!(body.generation, Generation { generation: 0 });
        // The centre of the area lies on the side the normal points to.
        let n = w.normal();
        assert!(n.x * (400 - x0) + n.y * (300 - y0) > 0);
    }
}

#[test]
fn ball_is_placed_only_where_it_overlaps_nothing() {
    let mut world: Vec<Body> = init_walls(&GenerationConfig { width: 800, height: 600 });
    assert!(place_ball(&mut world, ball(100, 100, 20)));
    assert_eq!(world.len(), 5);
    // Touching counts as overlapping.
    assert!(!place_ball(&mut world, ball(140, 100, 20)));
    assert!(!place_ball(&mut world, ball(110, 110, 5)));
    assert_eq!(world.len(), 5);
    assert!(place_ball(&mut world, ball(141, 100, 20)));
    assert_eq!(world.len(), 6);
    let last = &world[5];
    assert_eq!(last.collidable, Collidable::Ball(ball(141, 100, 20)));
    assert_eq!(last.generation, Generation { generation: 0 });
    let _ = Trails::new();
}
