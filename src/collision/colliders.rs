use vstd::prelude::*;
use crate::ball::Ball;
use crate::collision::collidable::Collidable;
use crate::collision::solvers::wall_rate;
use crate::geometry::{ceil_sqrt, dot, is_ceil_sqrt, norm2, Vec2, SPEED_LIMIT};
use crate::wall::Wall;

verus! {

/// `a / b` rounded toward zero, for `b > 0`.
pub open spec fn trunc_div(a: int, b: int) -> int {
    if a >= 0 {
        a / b
    } else {
        -((-a) / b)
    }
}

/// The rounded-up square root of `n >= 0`.
pub open spec fn ceil_root(n: int) -> int {
    choose|s: int| is_ceil_sqrt(n, s)
}

proof fn lemma_ceil_root_unique(n: int, s: int)
    requires
        is_ceil_sqrt(n, s),
    ensures
        ceil_root(n) == s,
{
    let c = ceil_root(n);
    assert(is_ceil_sqrt(n, c));
    if c < s {
        assert(c * c <= (s - 1) * (s - 1)) by (nonlinear_arith)
            requires
                0 <= c <= s - 1,
        ;
    } else if s < c {
        assert(s * s <= (c - 1) * (c - 1)) by (nonlinear_arith)
            requires
                0 <= s <= c - 1,
        ;
    }
}

/// A velocity after the speed cap: one faster than `SPEED_LIMIT` is scaled
/// down to that speed, each component rounded toward zero.
pub open spec fn capped(vx: int, vy: int) -> Vec2 {
    let n = norm2(vx, vy);
    if n <= SPEED_LIMIT * SPEED_LIMIT {
        Vec2 { x: vx as i64, y: vy as i64 }
    } else {
        Vec2 {
            x: trunc_div(vx * SPEED_LIMIT, ceil_root(n)) as i64,
            y: trunc_div(vy * SPEED_LIMIT, ceil_root(n)) as i64,
        }
    }
}

/// Rounds `a / b` toward zero; the bound on `a` carries over to the quotient.
fn div_toward_zero(a: i128, b: i128, bound: Ghost<int>) -> (r: i128)
    requires
        b > 0,
        bound@ >= 0,
        -(bound@ * b) <= a <= bound@ * b,
        -0x1000_0000_0000_0000_0000_0000_0000_0000 <= a,
    ensures
        r == trunc_div(a as int, b as int),
        -bound@ <= r <= bound@,
        a >= 0 ==> 0 <= r && r * b <= a,
        a < 0 ==> r <= 0 && -r * b <= -a,
{
    if a >= 0 {
        proof {
            assert((a as int) / (b as int) <= bound@) by (nonlinear_arith)
                requires
                    b > 0,
                    0 <= a <= bound@ * b,
            ;
            vstd::arithmetic::div_mod::lemma_fundamental_div_mod(a as int, b as int);
            assert(((a as int) / (b as int)) * (b as int) == (b as int) * ((a as int) / (b as int)))
                by (nonlinear_arith);
        }
        a / b
    } else {
        proof {
            assert((-(a as int)) / (b as int) <= bound@) by (nonlinear_arith)
                requires
                    b > 0,
                    0 <= -(a as int) <= bound@ * b,
            ;
            vstd::arithmetic::div_mod::lemma_fundamental_div_mod(-(a as int), b as int);
            assert(((-(a as int)) / (b as int)) * (b as int) == (b as int) * ((-(a as int)) / (
            b as int))) by (nonlinear_arith);
        }
        -((-a) / b)
    }
}

/// Applies the speed cap.
fn cap_speed(vx: i128, vy: i128) -> (r: Vec2)
    requires
        -0x4000_0000 <= vx <= 0x4000_0000,
        -0x4000_0000 <= vy <= 0x4000_0000,
    ensures
        r == capped(vx as int, vy as int),
        r.speed_in_range(),
{
    assert(0 <= vx * vx <= 0x1000_0000_0000_0000 && 0 <= vy * vy <= 0x1000_0000_0000_0000)
        by (nonlinear_arith)
        requires
            -0x4000_0000 <= vx <= 0x4000_0000,
            -0x4000_0000 <= vy <= 0x4000_0000,
    ;
    let n: i128 = vx * vx + vy * vy;
    let limit = SPEED_LIMIT as i128;
    if n <= limit * limit {
        assert(-limit <= vx <= limit && -limit <= vy <= limit) by (nonlinear_arith)
            requires
                vx * vx + vy * vy <= limit * limit,
                limit > 0,
        ;
        Vec2 { x: vx as i64, y: vy as i64 }
    } else {
        let s = ceil_sqrt(n as u128) as i128;
        proof {
            lemma_ceil_root_unique(n as int, s as int);
        }
        assert(-s <= vx <= s && -s <= vy <= s && s > 0) by (nonlinear_arith)
            requires
                vx * vx + vy * vy <= s * s,
                vx * vx + vy * vy > 0,
                s >= 0,
        ;
        assert(-limit * s <= vx * limit <= limit * s && -limit * s <= vy * limit <= limit * s)
            by (nonlinear_arith)
            requires
                -s <= vx <= s,
                -s <= vy <= s,
                limit > 0,
        ;
        let x = div_toward_zero(vx * limit, s, Ghost(SPEED_LIMIT as int));
        let y = div_toward_zero(vy * limit, s, Ghost(SPEED_LIMIT as int));
        assert(x * x * (s * s) <= vx * vx * (limit * limit)) by (nonlinear_arith)
            requires
                vx * limit >= 0 ==> 0 <= x && x * s <= vx * limit,
                vx * limit < 0 ==> x <= 0 && -x * s <= -(vx * limit),
                s > 0,
                limit > 0,
        ;
        assert(y * y * (s * s) <= vy * vy * (limit * limit)) by (nonlinear_arith)
            requires
                vy * limit >= 0 ==> 0 <= y && y * s <= vy * limit,
                vy * limit < 0 ==> y <= 0 && -y * s <= -(vy * limit),
                s > 0,
                limit > 0,
        ;
        assert(x * x + y * y <= limit * limit) by (nonlinear_arith)
            requires
                x * x * (s * s) <= vx * vx * (limit * limit),
                y * y * (s * s) <= vy * vy * (limit * limit),
                vx * vx + vy * vy <= s * s,
                s > 0,
                limit > 0,
        ;
        Vec2 { x: x as i64, y: y as i64 }
    }
}

/// A component of the projection `(p . d) * d_c` is bounded by twice the
/// largest component of `p` times the squared length of `d`.
proof fn lemma_projection_bound(px: int, py: int, dx: int, dy: int, dc: int, k: int)
    requires
        -k <= px <= k,
        -k <= py <= k,
        dc == dx || dc == dy,
    ensures
        -((2 * k) * norm2(dx, dy)) <= dot(px, py, dx, dy) * dc <= (2 * k) * norm2(dx, dy),
{
    assert(0 <= (dx - dy) * (dx - dy) && 0 <= (dx + dy) * (dx + dy)) by (nonlinear_arith);
    if dc == dx {
        assert(-((2 * k) * (dx * dx + dy * dy)) <= (px * dx + py * dy) * dx <= (2 * k) * (dx * dx
            + dy * dy)) by (nonlinear_arith)
            requires
                -k <= px <= k,
                -k <= py <= k,
                0 <= (dx - dy) * (dx - dy),
                0 <= (dx + dy) * (dx + dy),
        ;
    } else {
        assert(-((2 * k) * (dx * dx + dy * dy)) <= (px * dx + py * dy) * dy <= (2 * k) * (dx * dx
            + dy * dy)) by (nonlinear_arith)
            requires
                -k <= px <= k,
                -k <= py <= k,
                0 <= (dx - dy) * (dx - dy),
                0 <= (dx + dy) * (dx + dy),
        ;
    }
}

/// The ball after bouncing off the wall at time `t`: pinned at `t`, with its
/// velocity mirrored in the wall's line and then capped.
pub open spec fn bounced_off_wall(ball: Ball, wall: Wall, t: int) -> Ball {
    let nx = wall.normal_x();
    let ny = wall.normal_y();
    let vx = ball.velocity.x as int;
    let vy = ball.velocity.y as int;
    let vn = dot(vx, vy, nx, ny);
    let len2 = wall.normal_norm2();
    Ball {
        velocity: capped(
            vx - trunc_div(2 * vn * nx, len2),
            vy - trunc_div(2 * vn * ny, len2),
        ),
        ..ball.advanced(t)
    }
}

/// Resolves a ball's contact with a wall at time `t`.
///
/// Returns `None`, leaving the ball as it is, when the ball's velocity does
/// not point against the wall's normal; otherwise the bounced ball.
pub fn collide_ball_wall(ball: &Ball, wall: &Wall, t: i64) -> (r: Option<Ball>)
    requires
        ball.wf(),
        wall.wf(),
        ball.can_advance_to(t as int),
    ensures
        match r {
            None => wall_rate(*ball, *wall) >= 0,
            Some(b) => wall_rate(*ball, *wall) < 0 && b == bounced_off_wall(*ball, *wall, t as int)
                && b.wf(),
        },
{
    let n = wall.normal();
    let nx = n.x as i128;
    let ny = n.y as i128;
    let vx = ball.velocity.x as i128;
    let vy = ball.velocity.y as i128;
    assert(-0x2_0000_0000_0000 <= nx * vx <= 0x2_0000_0000_0000) by (nonlinear_arith)
        requires
            -0x2000_0000 <= nx <= 0x2000_0000,
            -0x10_0000 <= vx <= 0x10_0000,
    ;
    assert(-0x2_0000_0000_0000 <= ny * vy <= 0x2_0000_0000_0000) by (nonlinear_arith)
        requires
            -0x2000_0000 <= ny <= 0x2000_0000,
            -0x10_0000 <= vy <= 0x10_0000,
    ;
    let vn: i128 = vx * nx + vy * ny;
    if vn >= 0 {
        return None;
    }
    assert(0 <= nx * nx <= 0x0400_0000_0000_0000 && 0 <= ny * ny <= 0x0400_0000_0000_0000)
        by (nonlinear_arith)
        requires
            -0x2000_0000 <= nx <= 0x2000_0000,
            -0x2000_0000 <= ny <= 0x2000_0000,
    ;
    let len2: i128 = nx * nx + ny * ny;
    assert(len2 > 0) by (nonlinear_arith)
        requires
            len2 == nx * nx + ny * ny,
            vx * nx + vy * ny < 0,
    ;
    proof {
        lemma_projection_bound(vx as int, vy as int, nx as int, ny as int, nx as int, 0x10_0000);
        lemma_projection_bound(vx as int, vy as int, nx as int, ny as int, ny as int, 0x10_0000);
        assert(norm2(nx as int, ny as int) == len2);
    }
    assert(-0x8000_0000_0000_0000_0000 <= vn * nx <= 0x8000_0000_0000_0000_0000) by (nonlinear_arith)
        requires
            -0x4_0000_0000_0000 <= vn <= 0x4_0000_0000_0000,
            -0x2000_0000 <= nx <= 0x2000_0000,
    ;
    assert(-0x8000_0000_0000_0000_0000 <= vn * ny <= 0x8000_0000_0000_0000_0000) by (nonlinear_arith)
        requires
            -0x4_0000_0000_0000 <= vn <= 0x4_0000_0000_0000,
            -0x2000_0000 <= ny <= 0x2000_0000,
    ;
    assert(-0x1_0000_0000_0000_0000_0000 <= 2 * vn * nx <= 0x1_0000_0000_0000_0000_0000 && -0x1_0000_0000_0000_0000_0000 <= 2 * vn * ny <= 0x1_0000_0000_0000_0000_0000) by (nonlinear_arith)
        requires
            -0x8000_0000_0000_0000_0000 <= vn * nx <= 0x8000_0000_0000_0000_0000,
            -0x8000_0000_0000_0000_0000 <= vn * ny <= 0x8000_0000_0000_0000_0000,
    ;
    assert(-(0x40_0000 * len2) <= 2 * vn * nx <= 0x40_0000 * len2 && -(0x40_0000 * len2) <= 2 * vn
        * ny <= 0x40_0000 * len2) by (nonlinear_arith)
        requires
            -(0x20_0000 * len2) <= vn * nx <= 0x20_0000 * len2,
            -(0x20_0000 * len2) <= vn * ny <= 0x20_0000 * len2,
            len2 > 0,
    ;
    let qx = div_toward_zero(2 * vn * nx, len2, Ghost(0x40_0000));
    let qy = div_toward_zero(2 * vn * ny, len2, Ghost(0x40_0000));
    let v = cap_speed(vx - qx, vy - qy);
    let moved = ball.advance_to(t);
    Some(Ball { velocity: v, ..moved })
}

/// The impulse numerator `2 * m * proj * x` is bounded by the denominator
/// `(m + other) * d2` when `proj * x` is bounded by `d2`.
proof fn lemma_impulse_bound(m: int, other: int, proj: int, x: int, d2: int)
    requires
        0 < m,
        0 < other,
        d2 > 0,
        -(0x40_0000 * d2) <= proj * x <= 0x40_0000 * d2,
    ensures
        -(0x80_0000 * ((m + other) * d2)) <= 2 * m * proj * x <= 0x80_0000 * ((m + other) * d2),
{
    assert(2 * m * proj * x == 2 * m * (proj * x)) by (nonlinear_arith);
    assert(-(0x80_0000 * ((m + other) * d2)) <= 2 * m * (proj * x) <= 0x80_0000 * ((m + other) * d2))
        by (nonlinear_arith)
        requires
            0 < m,
            0 < other,
            d2 > 0,
            -(0x40_0000 * d2) <= proj * x <= 0x40_0000 * d2,
    ;
}

/// The two balls after an elastic impact at time `t`: both pinned at `t`,
/// with masses proportional to the squared radii, the impulse along the line
/// of centres, and each velocity capped.
pub open spec fn bounced_balls(b0: Ball, b1: Ball, t: int) -> (Ball, Ball) {
    let a0 = b0.advanced(t);
    let a1 = b1.advanced(t);
    let dx = a0.position.x - a1.position.x;
    let dy = a0.position.y - a1.position.y;
    let proj = dot(
        b0.velocity.x - b1.velocity.x,
        b0.velocity.y - b1.velocity.y,
        dx,
        dy,
    );
    let m0 = b0.radius * b0.radius;
    let m1 = b1.radius * b1.radius;
    let den = (m0 + m1) * norm2(dx, dy);
    (
        Ball {
            velocity: capped(
                b0.velocity.x - trunc_div(2 * m1 * proj * dx, den),
                b0.velocity.y - trunc_div(2 * m1 * proj * dy, den),
            ),
            ..a0
        },
        Ball {
            velocity: capped(
                b1.velocity.x + trunc_div(2 * m0 * proj * dx, den),
                b1.velocity.y + trunc_div(2 * m0 * proj * dy, den),
            ),
            ..a1
        },
    )
}

/// At time `t` the centres of the two balls are closing in.
pub open spec fn closing_at(b0: Ball, b1: Ball, t: int) -> bool {
    dot(
        b0.velocity.x - b1.velocity.x,
        b0.velocity.y - b1.velocity.y,
        b0.x_at(t) - b1.x_at(t),
        b0.y_at(t) - b1.y_at(t),
    ) < 0
}

/// Resolves the contact of two balls at time `t`.
///
/// Returns `None`, leaving both as they are, when their centres are not
/// closing in at `t`; otherwise both bounced balls.
pub fn collide_ball_ball(b0: &Ball, b1: &Ball, t: i64) -> (r: Option<(Ball, Ball)>)
    requires
        b0.wf(),
        b1.wf(),
        b0.can_advance_to(t as int),
        b1.can_advance_to(t as int),
    ensures
        match r {
            None => !closing_at(*b0, *b1, t as int),
            Some((n0, n1)) => closing_at(*b0, *b1, t as int) && (n0, n1) == bounced_balls(
                *b0,
                *b1,
                t as int,
            ) && n0.wf() && n1.wf(),
        },
{
    let a0 = b0.advance_to(t);
    let a1 = b1.advance_to(t);
    let dx = (a0.position.x - a1.position.x) as i128;
    let dy = (a0.position.y - a1.position.y) as i128;
    let dvx = (b0.velocity.x - b1.velocity.x) as i128;
    let dvy = (b0.velocity.y - b1.velocity.y) as i128;
    assert(-0x4_0000_0000_0000 <= dvx * dx <= 0x4_0000_0000_0000) by (nonlinear_arith)
        requires
            -0x2000_0000 <= dx <= 0x2000_0000,
            -0x20_0000 <= dvx <= 0x20_0000,
    ;
    assert(-0x4_0000_0000_0000 <= dvy * dy <= 0x4_0000_0000_0000) by (nonlinear_arith)
        requires
            -0x2000_0000 <= dy <= 0x2000_0000,
            -0x20_0000 <= dvy <= 0x20_0000,
    ;
    let proj: i128 = dvx * dx + dvy * dy;
    if proj >= 0 {
        return None;
    }
    let r0 = b0.radius as i128;
    let r1 = b1.radius as i128;
    assert(0 < r0 * r0 <= 0x100_0000_0000 && 0 < r1 * r1 <= 0x100_0000_0000) by (nonlinear_arith)
        requires
            0 < r0 <= 0x10_0000,
            0 < r1 <= 0x10_0000,
    ;
    let m0: i128 = r0 * r0;
    let m1: i128 = r1 * r1;
    assert(0 <= dx * dx <= 0x400_0000_0000_0000 && 0 <= dy * dy <= 0x400_0000_0000_0000)
        by (nonlinear_arith)
        requires
            -0x2000_0000 <= dx <= 0x2000_0000,
            -0x2000_0000 <= dy <= 0x2000_0000,
    ;
    let d2: i128 = dx * dx + dy * dy;
    assert(d2 > 0) by (nonlinear_arith)
        requires
            d2 == dx * dx + dy * dy,
            dvx * dx + dvy * dy < 0,
    ;
    assert(0 < (m0 + m1) * d2 <= 0x200_0000_0000 * 0x800_0000_0000_0000) by (nonlinear_arith)
        requires
            0 < m0 + m1 <= 0x200_0000_0000,
            0 < d2 <= 0x800_0000_0000_0000,
    ;
    let den: i128 = (m0 + m1) * d2;
    proof {
        lemma_projection_bound(dvx as int, dvy as int, dx as int, dy as int, dx as int, 0x20_0000);
        lemma_projection_bound(dvx as int, dvy as int, dx as int, dy as int, dy as int, 0x20_0000);
    }
    assert(-0x8_0000_0000_0000 <= proj <= 0x8_0000_0000_0000);
    proof {
        assert(norm2(dx as int, dy as int) == d2);
        assert(dot(dvx as int, dvy as int, dx as int, dy as int) == proj);
        assert(-(0x40_0000 * d2) <= proj * dx <= 0x40_0000 * d2);
        assert(-(0x40_0000 * d2) <= proj * dy <= 0x40_0000 * d2);
        lemma_impulse_bound(m1 as int, m0 as int, proj as int, dx as int, d2 as int);
        lemma_impulse_bound(m1 as int, m0 as int, proj as int, dy as int, d2 as int);
        lemma_impulse_bound(m0 as int, m1 as int, proj as int, dx as int, d2 as int);
        lemma_impulse_bound(m0 as int, m1 as int, proj as int, dy as int, d2 as int);
        assert(m1 + m0 == m0 + m1);
    }
    assert(-0x1000_0000_0000_0000_0000_0000 <= 2 * m1 * proj <= 0x1000_0000_0000_0000_0000_0000
        && -0x1000_0000_0000_0000_0000_0000 <= 2 * m0 * proj <= 0x1000_0000_0000_0000_0000_0000)
        by (nonlinear_arith)
        requires
            0 < m0 <= 0x100_0000_0000,
            0 < m1 <= 0x100_0000_0000,
            -0x8_0000_0000_0000 <= proj <= 0x8_0000_0000_0000,
    ;
    assert(-0x200_0000_0000_0000_0000_0000_0000_0000 <= (2 * m1 * proj) * dx <= 0x200_0000_0000_0000_0000_0000_0000_0000
        && -0x200_0000_0000_0000_0000_0000_0000_0000 <= (2 * m1 * proj) * dy <= 0x200_0000_0000_0000_0000_0000_0000_0000
        && -0x200_0000_0000_0000_0000_0000_0000_0000 <= (2 * m0 * proj) * dx <= 0x200_0000_0000_0000_0000_0000_0000_0000
        && -0x200_0000_0000_0000_0000_0000_0000_0000 <= (2 * m0 * proj) * dy <= 0x200_0000_0000_0000_0000_0000_0000_0000)
        by (nonlinear_arith)
        requires
            -0x1000_0000_0000_0000_0000_0000 <= 2 * m1 * proj <= 0x1000_0000_0000_0000_0000_0000,
            -0x1000_0000_0000_0000_0000_0000 <= 2 * m0 * proj <= 0x1000_0000_0000_0000_0000_0000,
            -0x2000_0000 <= dx <= 0x2000_0000,
            -0x2000_0000 <= dy <= 0x2000_0000,
    ;
    let c1: i128 = 2 * m1 * proj;
    let c0: i128 = 2 * m0 * proj;
    let q0x = div_toward_zero(c1 * dx, den, Ghost(0x80_0000));
    let q0y = div_toward_zero(c1 * dy, den, Ghost(0x80_0000));
    let q1x = div_toward_zero(c0 * dx, den, Ghost(0x80_0000));
    let q1y = div_toward_zero(c0 * dy, den, Ghost(0x80_0000));
    let v0 = cap_speed(b0.velocity.x as i128 - q0x, b0.velocity.y as i128 - q0y);
    let v1 = cap_speed(b1.velocity.x as i128 + q1x, b1.velocity.y as i128 + q1y);
    Some((Ball { velocity: v0, ..a0 }, Ball { velocity: v1, ..a1 }))
}

/// The body states are within limits and every ball can be pinned at `t`.
pub open spec fn resolvable(c0: Collidable, c1: Collidable, t: int) -> bool {
    &&& c0.wf()
    &&& c1.wf()
    &&& (c0 matches Collidable::Ball(b) ==> b.can_advance_to(t))
    &&& (c1 matches Collidable::Ball(b) ==> b.can_advance_to(t))
}

/// Whether the contact of two bodies at `t` may be resolved.
pub fn can_resolve(c0: &Collidable, c1: &Collidable, t: i64) -> (r: bool)
    requires
        c0.wf(),
        c1.wf(),
    ensures
        r == resolvable(*c0, *c1, t as int),
{
    let ok0 = match c0 {
        Collidable::Ball(b) => b.can_advance(t),
        Collidable::Wall(_) => true,
    };
    let ok1 = match c1 {
        Collidable::Ball(b) => b.can_advance(t),
        Collidable::Wall(_) => true,
    };
    ok0 && ok1
}

/// New states of the two bodies after their contact at `t`; `None` where a
/// body is left as it was.  Walls never change.
pub open spec fn resolution(c0: Collidable, c1: Collidable, t: int) -> (Option<Ball>, Option<Ball>) {
    match (c0, c1) {
        (Collidable::Ball(b0), Collidable::Ball(b1)) => if closing_at(b0, b1, t) {
            (Some(bounced_balls(b0, b1, t).0), Some(bounced_balls(b0, b1, t).1))
        } else {
            (None, None)
        },
        (Collidable::Ball(b), Collidable::Wall(w)) => if wall_rate(b, w) < 0 {
            (Some(bounced_off_wall(b, w, t)), None)
        } else {
            (None, None)
        },
        (Collidable::Wall(w), Collidable::Ball(b)) => if wall_rate(b, w) < 0 {
            (None, Some(bounced_off_wall(b, w, t)))
        } else {
            (None, None)
        },
        (Collidable::Wall(_), Collidable::Wall(_)) => (None, None),
    }
}

/// Resolves the contact of two bodies at time `t`.
pub fn collide(collidable: &Collidable, other_collidable: &Collidable, t: i64) -> (r: (
    Option<Ball>,
    Option<Ball>,
))
    requires
        resolvable(*collidable, *other_collidable, t as int),
    ensures
        r == resolution(*collidable, *other_collidable, t as int),
        r.0 matches Some(b) ==> b.wf(),
        r.1 matches Some(b) ==> b.wf(),
{
    match (collidable, other_collidable) {
        (Collidable::Ball(b0), Collidable::Ball(b1)) => match collide_ball_ball(b0, b1, t) {
            Some((n0, n1)) => (Some(n0), Some(n1)),
            None => (None, None),
        },
        (Collidable::Ball(b), Collidable::Wall(w)) => (collide_ball_wall(b, w, t), None),
        (Collidable::Wall(w), Collidable::Ball(b)) => (None, collide_ball_wall(b, w, t)),
        (Collidable::Wall(_), Collidable::Wall(_)) => (None, None),
    }
}

/// Rounding toward zero is exact on a multiple of the divisor.
proof fn lemma_trunc_div_exact(k: int, den: int)
    requires
        den > 0,
    ensures
        trunc_div(k * den, den) == k,
{
    if k >= 0 {
        assert(k * den >= 0) by (nonlinear_arith)
            requires
                k >= 0,
                den > 0,
        ;
        vstd::arithmetic::div_mod::lemma_div_by_multiple(k, den);
    } else {
        assert(k * den < 0) by (nonlinear_arith)
            requires
                k < 0,
                den > 0,
        ;
        assert(-(k * den) == (-k) * den) by (nonlinear_arith);
        vstd::arithmetic::div_mod::lemma_div_by_multiple(-k, den);
    }
}

/// Two balls of equal radius that meet head-on, moving with equal and
/// opposite velocities along the line of their centres, exchange velocities.
pub proof fn lemma_head_on_exchange(b0: Ball, b1: Ball, t: int)
    requires
        b0.wf(),
        b1.wf(),
        b0.can_advance_to(t),
        b1.can_advance_to(t),
        b0.radius == b1.radius,
        b1.velocity.x == -b0.velocity.x,
        b1.velocity.y == -b0.velocity.y,
        b0.velocity.x * (b0.y_at(t) - b1.y_at(t)) == b0.velocity.y * (b0.x_at(t) - b1.x_at(t)),
        closing_at(b0, b1, t),
    ensures
        bounced_balls(b0, b1, t).0.velocity == b1.velocity,
        bounced_balls(b0, b1, t).1.velocity == b0.velocity,
{
    let a0 = b0.advanced(t);
    let a1 = b1.advanced(t);
    let dx = a0.position.x - a1.position.x;
    let dy = a0.position.y - a1.position.y;
    assert(dx == b0.x_at(t) - b1.x_at(t));
    assert(dy == b0.y_at(t) - b1.y_at(t));
    let vx = b0.velocity.x as int;
    let vy = b0.velocity.y as int;
    let proj = dot(vx - (-vx), vy - (-vy), dx, dy);
    let m = b0.radius * b0.radius;
    let d2 = norm2(dx, dy);
    let den = (m + m) * d2;
    assert(m > 0) by (nonlinear_arith)
        requires
            b0.radius > 0,
            m == b0.radius * b0.radius,
    ;
    assert(d2 > 0) by (nonlinear_arith)
        requires
            d2 == dx * dx + dy * dy,
            (vx - (-vx)) * dx + (vy - (-vy)) * dy < 0,
    ;
    assert(den > 0) by (nonlinear_arith)
        requires
            den == (m + m) * d2,
            m > 0,
            d2 > 0,
    ;
    assert(proj == 2 * vx * dx + 2 * vy * dy) by (nonlinear_arith)
        requires
            proj == (vx - (-vx)) * dx + (vy - (-vy)) * dy,
    ;
    assert(proj * dx == 2 * vx * (dx * dx) + 2 * (vy * dx) * dy) by (nonlinear_arith)
        requires
            proj == 2 * vx * dx + 2 * vy * dy,
    ;
    assert(proj * dy == 2 * (vx * dy) * dx + 2 * vy * (dy * dy)) by (nonlinear_arith)
        requires
            proj == 2 * vx * dx + 2 * vy * dy,
    ;
    assert(vy * dx == vx * dy);
    assert(2 * (vx * dy) * dy == 2 * vx * (dy * dy)) by (nonlinear_arith);
    assert(2 * (vy * dx) * dx == 2 * vy * (dx * dx)) by (nonlinear_arith);
    assert(proj * dx == 2 * vx * d2) by (nonlinear_arith)
        requires
            proj * dx == 2 * vx * (dx * dx) + 2 * vx * (dy * dy),
            d2 == dx * dx + dy * dy,
    ;
    assert(proj * dy == 2 * vy * d2) by (nonlinear_arith)
        requires
            proj * dy == 2 * vy * (dx * dx) + 2 * vy * (dy * dy),
            d2 == dx * dx + dy * dy,
    ;
    assert(2 * m * proj * dx == (2 * vx) * den) by (nonlinear_arith)
        requires
            proj * dx == 2 * vx * d2,
            den == (m + m) * d2,
    ;
    assert(2 * m * proj * dy == (2 * vy) * den) by (nonlinear_arith)
        requires
            proj * dy == 2 * vy * d2,
            den == (m + m) * d2,
    ;
    lemma_trunc_div_exact(2 * vx, den);
    lemma_trunc_div_exact(2 * vy, den);
    assert(norm2(-vx, -vy) == norm2(vx, vy)) by (nonlinear_arith);
}

} // verus!
