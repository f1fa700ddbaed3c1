use vstd::prelude::*;
use crate::ball::{Ball, Trail, Trails};
use crate::collision::collidable::{Collidable, Generation};
use crate::collision::collision::{bodies_wf, Body};
use crate::collision::solvers::{contact2, sep2};
use crate::geometry::{Vec2, COORD_LIMIT};
use crate::wall::Wall;

verus! {

/// Size of the play area, in length units.
pub struct GenerationConfig {
    pub width: u32,
    pub height: u32,
}

impl GenerationConfig {
    pub open spec fn wf(self) -> bool {
        self.width <= COORD_LIMIT && self.height <= COORD_LIMIT
    }
}

fn new_wall_body(p0: Vec2, p1: Vec2) -> (r: Body)
    ensures
        r.collidable == Collidable::Wall(Wall { p0, p1 }),
        r.generation.generation == 0,
        r.trails.trails@ == Seq::<Trail>::empty(),
{
    Body {
        collidable: Collidable::Wall(Wall { p0, p1 }),
        generation: Generation { generation: 0 },
        trails: Trails::new(),
    }
}

/// The four walls around the play area `[0, width] x [0, height]`, listed
/// counter-clockwise so that every normal points into the area.
pub fn init_walls(config: &GenerationConfig) -> (r: Vec<Body>)
    requires
        config.wf(),
    ensures
        r@.len() == 4,
        bodies_wf(r@),
        r@[0].collidable == Collidable::Wall(
            Wall { p0: Vec2 { x: 0, y: 0 }, p1: Vec2 { x: config.width as i64, y: 0 } },
        ),
        r@[1].collidable == Collidable::Wall(
            Wall {
                p0: Vec2 { x: config.width as i64, y: 0 },
                p1: Vec2 { x: config.width as i64, y: config.height as i64 },
            },
        ),
        r@[2].collidable == Collidable::Wall(
            Wall {
                p0: Vec2 { x: config.width as i64, y: config.height as i64 },
                p1: Vec2 { x: 0, y: config.height as i64 },
            },
        ),
        r@[3].collidable == Collidable::Wall(
            Wall { p0: Vec2 { x: 0, y: config.height as i64 }, p1: Vec2 { x: 0, y: 0 } },
        ),
        forall|i: int|
            0 <= i < 4 ==> (#[trigger] r@[i]).generation.generation == 0
                && r@[i].trails.trails@.len() == 0,
{
    let w = config.width as i64;
    let h = config.height as i64;
    let points = [Vec2 { x: 0, y: 0 }, Vec2 { x: w, y: 0 }, Vec2 { x: w, y: h }, Vec2 { x: 0, y: h }];
    let mut walls: Vec<Body> = Vec::new();
    walls.push(new_wall_body(points[0], points[1]));
    walls.push(new_wall_body(points[1], points[2]));
    walls.push(new_wall_body(points[2], points[3]));
    walls.push(new_wall_body(points[3], points[0]));
    walls
}

/// The body is a ball pinned at time `t`, or a wall.
pub open spec fn pinned_at(c: Collidable, t: int) -> bool {
    match c {
        Collidable::Ball(b) => b.initial_time == t,
        Collidable::Wall(_) => true,
    }
}

/// The body is a ball that touches or overlaps `ball` at `ball`'s own time.
pub open spec fn touches(c: Collidable, ball: Ball) -> bool {
    match c {
        Collidable::Ball(other) => sep2(other, ball, ball.initial_time as int) <= contact2(
            other,
            ball,
        ),
        Collidable::Wall(_) => false,
    }
}

/// The ball touches or overlaps some ball of the world.
pub open spec fn overlaps_any(world: Seq<Body>, ball: Ball) -> bool {
    exists|e: int| 0 <= e < world.len() && touches(#[trigger] world[e].collidable, ball)
}

/// Adds a ball to the world unless it touches or overlaps a ball already
/// there (all balls being pinned at the same time).  Returns whether it was
/// added.
pub fn place_ball(world: &mut Vec<Body>, ball: Ball) -> (r: bool)
    requires
        bodies_wf(old(world)@),
        ball.wf(),
        forall|e: int|
            0 <= e < old(world)@.len() ==> pinned_at(
                (#[trigger] old(world)@[e]).collidable,
                ball.initial_time as int,
            ),
    ensures
        r == !overlaps_any(old(world)@, ball),
        bodies_wf(final(world)@),
        r ==> final(world)@.len() == old(world)@.len() + 1 && final(world)@.drop_last()
            == old(world)@ && final(world)@.last().collidable == Collidable::Ball(ball)
            && final(world)@.last().generation.generation == 0 && final(world)@.last().trails.trails@.len()
            == 0,
        !r ==> final(world)@ == old(world)@,
{
    let n = world.len();
    let mut e: usize = 0;
    while e < n
        invariant
            n == world@.len(),
            e <= n,
            bodies_wf(world@),
            ball.wf(),
            world@ == old(world)@,
            forall|x: int|
                0 <= x < n ==> pinned_at((#[trigger] world@[x]).collidable, ball.initial_time as int),
            forall|x: int| 0 <= x < e ==> !touches(#[trigger] world@[x].collidable, ball),
        decreases n - e,
    {
        if let Collidable::Ball(other) = world[e].collidable {
            assert(other.wf());
            let dx = (other.position.x - ball.position.x) as i128;
            let dy = (other.position.y - ball.position.y) as i128;
            let rr = (other.radius + ball.radius) as i128;
            assert(0 <= dx * dx <= 0x100_0000_0000_0000_0000 && 0 <= dy * dy <= 0x100_0000_0000_0000_0000
                && 0 <= rr * rr <= 0x100_0000_0000_0000_0000) by (nonlinear_arith)
                requires
                    -0x2000_0000 <= dx <= 0x2000_0000,
                    -0x2000_0000 <= dy <= 0x2000_0000,
                    0 <= rr <= 0x2000_0000,
            ;
            proof {
                let t = ball.initial_time as int;
                assert(other.x_at(t) == other.position.x + other.velocity.x * 0);
                assert(ball.x_at(t) == ball.position.x + ball.velocity.x * 0);
                assert(other.y_at(t) == other.position.y + other.velocity.y * 0);
                assert(ball.y_at(t) == ball.position.y + ball.velocity.y * 0);
                assert(other.velocity.x * 0 == 0 && ball.velocity.x * 0 == 0 && other.velocity.y * 0
                    == 0 && ball.velocity.y * 0 == 0);
            }
            if dx * dx + dy * dy <= rr * rr {
                assert(touches(world@[e as int].collidable, ball));
                return false;
            }
        }
        e = e + 1;
    }
    world.push(
        Body { collidable: Collidable::Ball(ball), generation: Generation { generation: 0 }, trails: Trails::new() },
    );
    proof {
        assert(world@.drop_last() =~= old(world)@);
        assert forall|x: int| 0 <= x < world@.len() implies (#[trigger] world@[x]).collidable.wf() by {
            if x < n {
                assert(world@[x] == old(world)@[x]);
            }
        }
    }
    true
}

} // verus!
