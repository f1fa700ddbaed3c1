use vstd::prelude::*;
use crate::ball::{Ball, Trail, Trails};
use crate::collision::collidable::Collidable;
use crate::collision::collision::{bodies_wf, Body};
use crate::geometry::TIME_LIMIT;
use crate::simulation::SimulationData;

verus! {

/// Empties the trail log of one ball.
pub fn clear_trails(trails: &mut Trails)
    ensures
        final(trails).trails@ == Seq::<Trail>::empty(),
{
    trails.trails.clear();
}

/// The trail log after a ball pinned in state `b` is advanced to `t`: the
/// travelled piece is appended when time moves forward.
pub open spec fn logged(trails: Seq<Trail>, b: Ball, t: int) -> Seq<Trail> {
    if t > b.initial_time {
        trails.push(
            Trail {
                position0: b.position,
                position1: b.advanced(t).position,
                initial_time: b.initial_time,
                final_time: t as i64,
            },
        )
    } else {
        trails
    }
}

/// Moves a ball to `next_time` at constant velocity and records the piece of
/// path it travelled.
pub fn advance_single_ball(ball: &mut Ball, trails: &mut Trails, next_time: i64)
    requires
        old(ball).wf(),
        old(ball).can_advance_to(next_time as int),
    ensures
        *final(ball) == old(ball).advanced(next_time as int),
        final(ball).wf(),
        final(trails).trails@ == logged(old(trails).trails@, *old(ball), next_time as int),
{
    let new_ball = ball.advance_to(next_time);
    if next_time > ball.initial_time {
        trails.trails.push(
            Trail {
                position0: ball.position,
                position1: new_ball.position,
                initial_time: ball.initial_time,
                final_time: next_time,
            },
        );
    }
    *ball = new_ball;
}

/// Body `after` is `before` advanced to `t`: a ball that can be pinned at `t`
/// is moved there and its path logged; anything else stays as it is.
pub open spec fn advanced_body(before: Body, after: Body, t: int) -> bool {
    match before.collidable {
        Collidable::Ball(b) => if b.can_advance_to(t) {
            &&& after.collidable == Collidable::Ball(b.advanced(t))
            &&& after.generation == before.generation
            &&& after.trails.trails@ == logged(before.trails.trails@, b, t)
        } else {
            after == before
        },
        Collidable::Wall(_) => after == before,
    }
}

/// Moves every ball of the world to the end of the frame.  A ball that would
/// leave the representable area by then stays where it is.
pub fn advance_balls(world: &mut Vec<Body>, simulation_data: &SimulationData)
    requires
        bodies_wf(old(world)@),
    ensures
        final(world)@.len() == old(world)@.len(),
        bodies_wf(final(world)@),
        forall|e: int|
            0 <= e < old(world)@.len() ==> advanced_body(
                #[trigger] old(world)@[e],
                final(world)@[e],
                simulation_data.next_time as int,
            ),
{
    let t = simulation_data.next_time;
    let n = world.len();
    let mut e: usize = 0;
    while e < n
        invariant
            n == world@.len(),
            n == old(world)@.len(),
            e <= n,
            bodies_wf(old(world)@),
            forall|x: int|
                0 <= x < e ==> advanced_body(#[trigger] old(world)@[x], world@[x], t as int),
            forall|x: int| e <= x < n ==> #[trigger] world@[x] == old(world)@[x],
            forall|x: int| 0 <= x < n ==> (#[trigger] world@[x]).collidable.wf(),
        decreases n - e,
    {
        assert(world@[e as int] == old(world)@[e as int]);
        if let Collidable::Ball(b) = world[e].collidable {
            if b.can_advance(t) {
                let mut moved = b;
                advance_single_ball(&mut moved, &mut world[e].trails, t);
                world[e].collidable = Collidable::Ball(moved);
            }
        }
        e = e + 1;
    }
}

/// The state reached by pinning `b` at each time of `ts` in turn.
pub open spec fn advance_through(b: Ball, ts: Seq<int>) -> Ball
    decreases ts.len(),
{
    if ts.len() == 0 {
        b
    } else {
        advance_through(b.advanced(ts[0]), ts.drop_first())
    }
}

/// Pinning at `t1` and then extrapolating gives the same motion as
/// extrapolating directly.
pub proof fn lemma_advanced_motion(b: Ball, t1: int, t: int)
    requires
        b.wf(),
        b.can_advance_to(t1),
    ensures
        b.advanced(t1).wf(),
        b.advanced(t1).x_at(t) == b.x_at(t),
        b.advanced(t1).y_at(t) == b.y_at(t),
{
    let vx = b.velocity.x as int;
    let vy = b.velocity.y as int;
    let t0 = b.initial_time as int;
    assert(vx * (t1 - t0) + vx * (t - t1) == vx * (t - t0)) by (nonlinear_arith);
    assert(vy * (t1 - t0) + vy * (t - t1) == vy * (t - t0)) by (nonlinear_arith);
}

/// Advance is linear in time: extrapolating through any nondecreasing
/// sequence of intermediate times ends in the same state as extrapolating
/// straight to the last of them.
pub proof fn lemma_advance_partition(b: Ball, ts: Seq<int>)
    requires
        b.wf(),
        ts.len() > 0,
        b.initial_time <= ts[0],
        ts.last() <= TIME_LIMIT,
        forall|i: int, j: int| 0 <= i <= j < ts.len() ==> ts[i] <= ts[j],
        forall|i: int| 0 <= i < ts.len() ==> b.fits_at(#[trigger] ts[i]),
    ensures
        advance_through(b, ts) == b.advanced(ts.last()),
    decreases ts.len(),
{
    let b1 = b.advanced(ts[0]);
    lemma_advanced_motion(b, ts[0], ts[0]);
    if ts.len() == 1 {
        assert(ts.drop_first().len() == 0);
        assert(ts.last() == ts[0]);
        assert(advance_through(b, ts) == advance_through(b1, ts.drop_first()));
    } else {
        let rest = ts.drop_first();
        assert forall|i: int| 0 <= i < rest.len() implies b1.fits_at(#[trigger] rest[i]) by {
            assert(rest[i] == ts[i + 1]);
            lemma_advanced_motion(b, ts[0], rest[i]);
        }
        assert(rest[0] == ts[1]);
        assert(rest.last() == ts.last());
        lemma_advance_partition(b1, rest);
        lemma_advanced_motion(b, ts[0], ts.last());
        assert(advance_through(b, ts) == advance_through(b1, rest));
        assert(b1.advanced(rest.last()) == b.advanced(ts.last()));
    }
}

} // verus!
