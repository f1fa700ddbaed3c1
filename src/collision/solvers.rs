use vstd::prelude::*;
use crate::ball::Ball;
use crate::collision::collidable::{Collidable, EPSILON};
use crate::geometry::{dot, floor_sqrt, is_floor_sqrt, norm2, Vec2};
use crate::wall::Wall;

verus! {

// ---------------------------------------------------------------------------
// Ball against wall.
// ---------------------------------------------------------------------------

/// Signed distance from the wall's line to the ball's centre at time `t`,
/// multiplied by the wall's length.
pub open spec fn wall_offset(ball: Ball, wall: Wall, t: int) -> int {
    dot(wall.normal_x(), wall.normal_y(), ball.x_at(t) - wall.p0.x, ball.y_at(t) - wall.p0.y)
}

/// Rate at which `wall_offset` changes per tick.
pub open spec fn wall_rate(ball: Ball, wall: Wall) -> int {
    dot(wall.normal_x(), wall.normal_y(), ball.velocity.x as int, ball.velocity.y as int)
}

/// The ball's radius times the wall's length, squared.
pub open spec fn wall_reach2(ball: Ball, wall: Wall) -> int {
    ball.radius * ball.radius * wall.normal_norm2()
}

/// At its own time the ball lies off the line and moves towards it.
pub open spec fn wall_approaching(ball: Ball, wall: Wall) -> bool {
    let d = wall_offset(ball, wall, ball.initial_time as int);
    let a = wall_rate(ball, wall);
    (d > 0 && a < 0) || (d < 0 && a > 0)
}

/// Distance (scaled by the wall's length) of the centre from the line at `t`,
/// counted positive on the side where the ball starts.
pub open spec fn side_gap(ball: Ball, wall: Wall, t: int) -> int {
    if wall_offset(ball, wall, ball.initial_time as int) > 0 {
        wall_offset(ball, wall, t)
    } else {
        -wall_offset(ball, wall, t)
    }
}

/// A centre at scaled gap `gap` is within reach of the line.
pub open spec fn within_reach(gap: int, reach2: int) -> bool {
    gap <= 0 || gap * gap <= reach2
}

proof fn lemma_wall_offset_linear(ball: Ball, wall: Wall, t: int)
    ensures
        wall_offset(ball, wall, t) == wall_offset(ball, wall, ball.initial_time as int)
            + wall_rate(ball, wall) * (t - ball.initial_time),
{
    let nx = wall.normal_x();
    let ny = wall.normal_y();
    let dx = ball.position.x - wall.p0.x;
    let dy = ball.position.y - wall.p0.y;
    let vx = ball.velocity.x as int;
    let vy = ball.velocity.y as int;
    let dt = t - ball.initial_time;
    assert(ball.x_at(ball.initial_time as int) == ball.position.x) by (nonlinear_arith)
        requires
            ball.x_at(ball.initial_time as int) == ball.position.x + vx * 0,
    ;
    assert(ball.y_at(ball.initial_time as int) == ball.position.y) by (nonlinear_arith)
        requires
            ball.y_at(ball.initial_time as int) == ball.position.y + vy * 0,
    ;
    assert(nx * (dx + vx * dt) == nx * dx + (nx * vx) * dt) by (nonlinear_arith);
    assert(ny * (dy + vy * dt) == ny * dy + (ny * vy) * dt) by (nonlinear_arith);
    assert((nx * vx) * dt + (ny * vy) * dt == (nx * vx + ny * vy) * dt) by (nonlinear_arith);
}

/// An integer gap is within reach exactly when it is at most the rounded-down
/// square root of the reach.
proof fn lemma_within_reach_floor(gap: int, reach2: int, s: int)
    requires
        is_floor_sqrt(reach2, s),
    ensures
        within_reach(gap, reach2) <==> gap <= s,
{
    if gap > 0 {
        if gap <= s {
            assert(gap * gap <= s * s) by (nonlinear_arith)
                requires
                    0 < gap <= s,
            ;
        } else {
            assert((s + 1) * (s + 1) <= gap * gap) by (nonlinear_arith)
                requires
                    0 <= s,
                    s + 1 <= gap,
            ;
        }
    }
}

/// Smallest `q >= 0` with `a * q >= n`, for `a > 0`.
pub open spec fn ceil_div(n: int, a: int) -> int {
    if n <= 0 {
        0
    } else {
        (n + a - 1) / a
    }
}

proof fn lemma_ceil_div(n: int, a: int)
    requires
        a > 0,
    ensures
        ceil_div(n, a) >= 0,
        a * ceil_div(n, a) >= n,
        forall|q: int| 0 <= q < ceil_div(n, a) ==> #[trigger] (a * q) < n,
{
    if n > 0 {
        let q = (n + a - 1) / a;
        let r = (n + a - 1) % a;
        assert(n + a - 1 == a * q + r && 0 <= r < a) by {
            vstd::arithmetic::div_mod::lemma_fundamental_div_mod(n + a - 1, a);
        }
        assert(q >= 0) by (nonlinear_arith)
            requires
                n + a - 1 == a * q + r,
                0 <= r < a,
                n > 0,
        ;
        assert(a * (q - 1) == a * q - a) by (nonlinear_arith);
        assert forall|q2: int| 0 <= q2 < q implies #[trigger] (a * q2) < n by {
            assert(a * q2 <= a * (q - 1)) by (nonlinear_arith)
                requires
                    a > 0,
                    q2 <= q - 1,
            ;
        }
    }
}

/// What the ball-wall solver returns: see `solve_collision_ball_wall`.
pub open spec fn ball_wall_solution(ball: Ball, wall: Wall, r: Option<(i64, i64)>) -> bool {
    match r {
        None => !wall_approaching(ball, wall),
        Some((entry, touch)) => {
            &&& wall_approaching(ball, wall)
            &&& ball.initial_time <= entry <= touch
            &&& within_reach(side_gap(ball, wall, entry as int), wall_reach2(ball, wall))
            &&& forall|t: int|
                ball.initial_time <= t < entry ==> !within_reach(
                    #[trigger] side_gap(ball, wall, t),
                    wall_reach2(ball, wall),
                )
            &&& side_gap(ball, wall, touch as int) <= 0
            &&& forall|t: int|
                ball.initial_time <= t < touch ==> #[trigger] side_gap(ball, wall, t) > 0
        },
    }
}

/// Times at which a ball first comes within reach of a wall's line, and first
/// touches it with its centre.
///
/// Returns `None` when, at its own time, the ball is on the line or moving
/// parallel to it or away from it.  Otherwise returns `(entry, touch)`:
/// `entry` is the earliest tick from the ball's own time on at which its
/// centre is within a radius of the line, on the side where it starts, and
/// `touch` the earliest at which the centre reaches the line.  The wall is an
/// infinite line: its ends are not taken into account.
pub fn solve_collision_ball_wall(ball: &Ball, wall: &Wall) -> (r: Option<(i64, i64)>)
    requires
        ball.wf(),
        wall.wf(),
    ensures
        ball_wall_solution(*ball, *wall, r),
{
    let n = wall.normal();
    let nx = n.x as i128;
    let ny = n.y as i128;
    let dx = (ball.position.x - wall.p0.x) as i128;
    let dy = (ball.position.y - wall.p0.y) as i128;
    let vx = ball.velocity.x as i128;
    let vy = ball.velocity.y as i128;
    assert(-0x0400_0000_0000_0000 <= nx * dx <= 0x0400_0000_0000_0000) by (nonlinear_arith)
        requires
            -0x2000_0000 <= nx <= 0x2000_0000,
            -0x2000_0000 <= dx <= 0x2000_0000,
    ;
    assert(-0x0400_0000_0000_0000 <= ny * dy <= 0x0400_0000_0000_0000) by (nonlinear_arith)
        requires
            -0x2000_0000 <= ny <= 0x2000_0000,
            -0x2000_0000 <= dy <= 0x2000_0000,
    ;
    assert(-0x2_0000_0000_0000 <= nx * vx <= 0x2_0000_0000_0000) by (nonlinear_arith)
        requires
            -0x2000_0000 <= nx <= 0x2000_0000,
            -0x10_0000 <= vx <= 0x10_0000,
    ;
    assert(-0x2_0000_0000_0000 <= ny * vy <= 0x2_0000_0000_0000) by (nonlinear_arith)
        requires
            -0x2000_0000 <= ny <= 0x2000_0000,
            -0x10_0000 <= vy <= 0x10_0000,
    ;
    let d: i128 = nx * dx + ny * dy;
    let a: i128 = nx * vx + ny * vy;
    proof {
        lemma_wall_offset_linear(*ball, *wall, ball.initial_time as int);
        assert(ball.x_at(ball.initial_time as int) == ball.position.x) by (nonlinear_arith)
            requires
                ball.x_at(ball.initial_time as int) == ball.position.x + ball.velocity.x * 0,
        ;
        assert(ball.y_at(ball.initial_time as int) == ball.position.y) by (nonlinear_arith)
            requires
                ball.y_at(ball.initial_time as int) == ball.position.y + ball.velocity.y * 0,
        ;
        assert(d == wall_offset(*ball, *wall, ball.initial_time as int));
        assert(a == wall_rate(*ball, *wall));
    }
    if !((d > 0 && a < 0) || (d < 0 && a > 0)) {
        return None;
    }
    let dd: i128 = if d > 0 { d } else { -d };
    let aa: i128 = if a > 0 { a } else { -a };
    let r = ball.radius as i128;
    assert(0 < r * r <= 0x100_0000_0000) by (nonlinear_arith)
        requires
            0 < r <= 0x10_0000,
    ;
    assert(0 <= nx * nx <= 0x0400_0000_0000_0000) by (nonlinear_arith)
        requires
            -0x2000_0000 <= nx <= 0x2000_0000,
    ;
    assert(0 <= ny * ny <= 0x0400_0000_0000_0000) by (nonlinear_arith)
        requires
            -0x2000_0000 <= ny <= 0x2000_0000,
    ;
    let len2: i128 = nx * nx + ny * ny;
    let r2: i128 = r * r;
    assert(0 <= r2 * len2 <= 0x0800_0000_0000_0000 * 0x100_0000_0000) by (nonlinear_arith)
        requires
            0 < r2 <= 0x100_0000_0000,
            0 <= len2 <= 0x0800_0000_0000_0000,
    ;
    let reach2: i128 = r2 * len2;
    let s = floor_sqrt(reach2 as u128) as i128;
    let entry_off: i128 = if dd <= s {
        0
    } else {
        (dd - s + aa - 1) / aa
    };
    let touch_off: i128 = (dd + aa - 1) / aa;
    proof {
        let t0 = ball.initial_time as int;
        assert(reach2 == wall_reach2(*ball, *wall)) by (nonlinear_arith)
            requires
                reach2 == r * r * (nx * nx + ny * ny),
                wall_reach2(*ball, *wall) == ball.radius * ball.radius * wall.normal_norm2(),
                wall.normal_norm2() == nx * nx + ny * ny,
                r == ball.radius,
        ;
        lemma_ceil_div((dd - s) as int, aa as int);
        lemma_ceil_div(dd as int, aa as int);
        assert(entry_off == ceil_div(dd - s, aa as int));
        assert(touch_off == ceil_div(dd as int, aa as int));
        // The gap on the ball's side falls by `aa` each tick.
        assert forall|t: int| #[trigger] side_gap(*ball, *wall, t) == dd - aa * (t - t0) by {
            lemma_wall_offset_linear(*ball, *wall, t);
            assert(a * (t - t0) == -(aa * (t - t0)) || d < 0) by (nonlinear_arith)
                requires
                    (d > 0 && a < 0) || (d < 0 && a > 0),
                    aa == (if a > 0 { a as int } else { -a }),
            ;
            assert(a * (t - t0) == aa * (t - t0) || d > 0) by (nonlinear_arith)
                requires
                    (d > 0 && a < 0) || (d < 0 && a > 0),
                    aa == (if a > 0 { a as int } else { -a }),
            ;
        }
        assert forall|t: int|
            #[trigger] within_reach(side_gap(*ball, *wall, t), wall_reach2(*ball, *wall)) <==> aa * (
            t - t0) >= dd - s by {
            lemma_within_reach_floor(side_gap(*ball, *wall, t), reach2 as int, s as int);
        }
        assert(dd <= 0x0800_0000_0000_0000);
        assert(entry_off <= dd) by (nonlinear_arith)
            requires
                entry_off == ceil_div(dd - s, aa as int),
                aa >= 1,
                dd > 0,
                s >= 0,
        ;
        assert(touch_off <= dd) by (nonlinear_arith)
            requires
                touch_off == ceil_div(dd as int, aa as int),
                aa >= 1,
                dd > 0,
        ;
        assert(entry_off <= touch_off) by {
            if entry_off > touch_off {
                assert(aa * touch_off >= dd);
                assert(aa * touch_off < dd - s);
            }
        }
        assert forall|t: int| t0 <= t < t0 + entry_off implies !within_reach(
            #[trigger] side_gap(*ball, *wall, t),
            wall_reach2(*ball, *wall),
        ) by {
            assert(aa * (t - t0) < dd - s);
        }
        assert forall|t: int| t0 <= t < t0 + touch_off implies #[trigger] side_gap(
            *ball,
            *wall,
            t,
        ) > 0 by {
            assert(aa * (t - t0) < dd);
        }
        assert(side_gap(*ball, *wall, t0 + entry_off) == dd - aa * entry_off);
        assert(side_gap(*ball, *wall, t0 + touch_off) == dd - aa * touch_off);
    }
    let entry: i64 = ball.initial_time + entry_off as i64;
    let touch: i64 = ball.initial_time + touch_off as i64;
    Some((entry, touch))
}

// ---------------------------------------------------------------------------
// Ball against ball.
// ---------------------------------------------------------------------------

/// The later of the two balls' own times: from there on both are defined.
pub open spec fn common_time(b0: Ball, b1: Ball) -> int {
    if b0.initial_time >= b1.initial_time {
        b0.initial_time as int
    } else {
        b1.initial_time as int
    }
}

/// Squared distance between the two centres at time `t`.
pub open spec fn sep2(b0: Ball, b1: Ball, t: int) -> int {
    norm2(b0.x_at(t) - b1.x_at(t), b0.y_at(t) - b1.y_at(t))
}

/// Squared sum of the radii: the balls touch when `sep2` is at most this.
pub open spec fn contact2(b0: Ball, b1: Ball) -> int {
    (b0.radius + b1.radius) * (b0.radius + b1.radius)
}

/// Relative velocity of `b0` with respect to `b1`.
pub open spec fn rel_vx(b0: Ball, b1: Ball) -> int {
    b0.velocity.x - b1.velocity.x
}

pub open spec fn rel_vy(b0: Ball, b1: Ball) -> int {
    b0.velocity.y - b1.velocity.y
}

/// Relative position dotted with relative velocity at the common time:
/// negative when the centres are closing in.
pub open spec fn closing(b0: Ball, b1: Ball) -> int {
    let t = common_time(b0, b1);
    dot(b0.x_at(t) - b1.x_at(t), b0.y_at(t) - b1.y_at(t), rel_vx(b0, b1), rel_vy(b0, b1))
}

pub open spec fn balls_approaching(b0: Ball, b1: Ball) -> bool {
    closing(b0, b1) < 0
}

/// Squared relative speed: the leading coefficient of the squared distance
/// as a function of time.
pub open spec fn rel_speed2(b0: Ball, b1: Ball) -> int {
    norm2(rel_vx(b0, b1), rel_vy(b0, b1))
}

/// A quarter of the discriminant of `sep2(t) = contact2` in `t`, taken from
/// the relative state at the common time.
pub open spec fn entry_disc(b0: Ball, b1: Ball) -> int {
    let t = common_time(b0, b1);
    closing(b0, b1) * closing(b0, b1) - rel_speed2(b0, b1) * (norm2(
        b0.x_at(t) - b1.x_at(t),
        b0.y_at(t) - b1.y_at(t),
    ) - contact2(b0, b1))
}

/// With leading coefficient `a > 0`, half-slope `p` and quarter discriminant
/// `disc >= 0`, offset `k` lies at or after the smaller root
/// `(-p - sqrt(disc)) / a`: `a * k + p >= -sqrt(disc)`.
pub open spec fn past_root(a: int, p: int, disc: int, k: int) -> bool {
    let y = a * k + p;
    y >= 0 || y * y <= disc
}

/// Time `t` lies at or after the real time at which the two balls first
/// touch.
pub open spec fn past_entry_root(b0: Ball, b1: Ball, t: int) -> bool {
    past_root(
        rel_speed2(b0, b1),
        closing(b0, b1),
        entry_disc(b0, b1),
        t - common_time(b0, b1),
    )
}

/// Ticks from the common time to the closest approach, rounded up.
pub open spec fn closest_offset(b0: Ball, b1: Ball) -> int {
    ceil_div(-closing(b0, b1), rel_speed2(b0, b1))
}

/// Squared distance, `k` ticks on, of two centres at relative position
/// `(px, py)` moving at relative velocity `(vx, vy)`.
pub open spec fn gap2(px: int, py: int, vx: int, vy: int, k: int) -> int {
    norm2(px + vx * k, py + vy * k)
}

proof fn lemma_gap2_expand(px: int, py: int, vx: int, vy: int, k: int)
    ensures
        gap2(px, py, vx, vy, k) == norm2(px, py) + 2 * dot(px, py, vx, vy) * k + norm2(vx, vy)
            * k * k,
{
    assert((px + vx * k) * (px + vx * k) == px * px + 2 * (px * vx) * k + (vx * vx) * k * k)
        by (nonlinear_arith);
    assert((py + vy * k) * (py + vy * k) == py * py + 2 * (py * vy) * k + (vy * vy) * k * k)
        by (nonlinear_arith);
    assert(2 * (px * vx) * k + 2 * (py * vy) * k == 2 * (px * vx + py * vy) * k)
        by (nonlinear_arith);
    assert((vx * vx) * k * k + (vy * vy) * k * k == (vx * vx + vy * vy) * k * k)
        by (nonlinear_arith);
}

/// The distance of two balls, `k` ticks after a time `t`, in terms of their
/// relative state at `t`.
proof fn lemma_sep2_shift(b0: Ball, b1: Ball, t: int, k: int)
    ensures
        sep2(b0, b1, t + k) == gap2(
            b0.x_at(t) - b1.x_at(t),
            b0.y_at(t) - b1.y_at(t),
            rel_vx(b0, b1),
            rel_vy(b0, b1),
            k,
        ),
{
    let v0x = b0.velocity.x as int;
    let v0y = b0.velocity.y as int;
    let v1x = b1.velocity.x as int;
    let v1y = b1.velocity.y as int;
    let s0 = t - b0.initial_time;
    let s1 = t - b1.initial_time;
    assert(v0x * (s0 + k) == v0x * s0 + v0x * k) by (nonlinear_arith);
    assert(v0y * (s0 + k) == v0y * s0 + v0y * k) by (nonlinear_arith);
    assert(v1x * (s1 + k) == v1x * s1 + v1x * k) by (nonlinear_arith);
    assert(v1y * (s1 + k) == v1y * s1 + v1y * k) by (nonlinear_arith);
    assert((v0x - v1x) * k == v0x * k - v1x * k) by (nonlinear_arith);
    assert((v0y - v1y) * k == v0y * k - v1y * k) by (nonlinear_arith);
}

/// How the squared distance relates to the entry equation: at any time `t`,
/// `a * (sep2 - contact2) == y * y - disc` with `y = a * (t - T) + p`.  So the
/// balls touch exactly between the two real roots, and never when the
/// discriminant is negative.
pub proof fn lemma_sep2_by_roots(b0: Ball, b1: Ball, t: int)
    ensures
        ({
            let a = rel_speed2(b0, b1);
            let y = a * (t - common_time(b0, b1)) + closing(b0, b1);
            a * (sep2(b0, b1, t) - contact2(b0, b1)) == y * y - entry_disc(b0, b1)
        }),
{
    let tc = common_time(b0, b1);
    let k = t - tc;
    let px = b0.x_at(tc) - b1.x_at(tc);
    let py = b0.y_at(tc) - b1.y_at(tc);
    let vx = rel_vx(b0, b1);
    let vy = rel_vy(b0, b1);
    lemma_sep2_shift(b0, b1, tc, k);
    assert(tc + k == t);
    lemma_gap2_expand(px, py, vx, vy, k);
    let a = norm2(vx, vy);
    let p = dot(px, py, vx, vy);
    let c = norm2(px, py);
    let r2 = contact2(b0, b1);
    assert(a * (c + 2 * p * k + a * k * k - r2) == (a * k + p) * (a * k + p) - (p * p - a * (c
        - r2))) by (nonlinear_arith);
}

/// When the discriminant is negative the balls never touch.
pub proof fn lemma_no_root_no_contact(b0: Ball, b1: Ball, t: int)
    requires
        balls_approaching(b0, b1),
        entry_disc(b0, b1) < 0,
    ensures
        sep2(b0, b1, t) > contact2(b0, b1),
{
    lemma_sep2_by_roots(b0, b1, t);
    let a = rel_speed2(b0, b1);
    let y = a * (t - common_time(b0, b1)) + closing(b0, b1);
    assert(a > 0) by (nonlinear_arith)
        requires
            a == rel_vx(b0, b1) * rel_vx(b0, b1) + rel_vy(b0, b1) * rel_vy(b0, b1),
            closing(b0, b1) < 0,
            closing(b0, b1) == (b0.x_at(common_time(b0, b1)) - b1.x_at(common_time(b0, b1)))
                * rel_vx(b0, b1) + (b0.y_at(common_time(b0, b1)) - b1.y_at(common_time(b0, b1)))
                * rel_vy(b0, b1),
    ;
    assert(y * y >= 0) by (nonlinear_arith);
    assert(sep2(b0, b1, t) - contact2(b0, b1) > 0) by (nonlinear_arith)
        requires
            a > 0,
            a * (sep2(b0, b1, t) - contact2(b0, b1)) == y * y - entry_disc(b0, b1),
            y * y >= 0,
            entry_disc(b0, b1) < 0,
    ;
}

/// Once past the root, always past it.
proof fn lemma_past_root_monotone(a: int, p: int, disc: int, k1: int, k2: int)
    requires
        a > 0,
        k1 <= k2,
        past_root(a, p, disc, k1),
    ensures
        past_root(a, p, disc, k2),
{
    let y1 = a * k1 + p;
    let y2 = a * k2 + p;
    assert(y1 <= y2) by (nonlinear_arith)
        requires
            a > 0,
            k1 <= k2,
            y1 == a * k1 + p,
            y2 == a * k2 + p,
    ;
    if y2 < 0 {
        assert(y2 * y2 <= y1 * y1) by (nonlinear_arith)
            requires
                y1 <= y2 < 0,
        ;
    }
}

/// What the ball-ball solver returns: see `solve_collision_ball_ball`.
pub open spec fn ball_ball_solution(b0: Ball, b1: Ball, r: Option<(i64, i64)>) -> bool {
    match r {
        None => !balls_approaching(b0, b1) || entry_disc(b0, b1) < 0,
        Some((entry, closest)) => {
            &&& balls_approaching(b0, b1)
            &&& entry_disc(b0, b1) >= 0
            &&& common_time(b0, b1) <= entry <= closest
            &&& past_entry_root(b0, b1, entry as int)
            &&& forall|t: int|
                common_time(b0, b1) <= t < entry ==> !#[trigger] past_entry_root(b0, b1, t)
            &&& closest == common_time(b0, b1) + closest_offset(b0, b1)
        },
    }
}

/// Whether offset `k` lies at or after the smaller root.
fn past_root_at(a: i128, p: i128, disc: i128, k: i128) -> (r: bool)
    requires
        1 <= a <= 0x1000_0000_0000,
        -0x10_0000_0000_0000 <= p < 0,
        0 <= k,
        a * k <= -p + a,
        disc <= 0x100_0000_0000_0000_0000_0000_0000,
    ensures
        r == past_root(a as int, p as int, disc as int, k as int),
{
    assert(0 <= a * k) by (nonlinear_arith)
        requires
            a >= 1,
            k >= 0,
    ;
    let y: i128 = a * k + p;
    if y >= 0 {
        return true;
    }
    assert(0 <= y * y <= 0x100_0000_0000_0000_0000_0000_0000) by (nonlinear_arith)
        requires
            -0x10_0000_0000_0000 <= y < 0,
    ;
    y * y <= disc
}

/// When two balls first touch.
///
/// Both balls are followed from the later of their own times, `T`.  Returns
/// `None` when the centres are not closing in at `T`, or when the equation
/// `sep2(t) = contact2` has no real root.  Otherwise returns
/// `(entry, closest)`: `entry` is the first tick from `T` on that is at or
/// after the earlier real root (so `T` itself when the balls already
/// overlap), and `closest` is `T` plus the ticks to the closest approach,
/// rounded up, never before `entry`.
pub fn solve_collision_ball_ball(b0: &Ball, b1: &Ball) -> (r: Option<(i64, i64)>)
    requires
        b0.wf(),
        b1.wf(),
        b0.fits_at(common_time(*b0, *b1)),
        b1.fits_at(common_time(*b0, *b1)),
    ensures
        ball_ball_solution(*b0, *b1, r),
{
    let t: i64 = if b0.initial_time >= b1.initial_time {
        b0.initial_time
    } else {
        b1.initial_time
    };
    let a0 = b0.advance_to(t);
    let a1 = b1.advance_to(t);
    let px = (a0.position.x - a1.position.x) as i128;
    let py = (a0.position.y - a1.position.y) as i128;
    let vx = (b0.velocity.x - b1.velocity.x) as i128;
    let vy = (b0.velocity.y - b1.velocity.y) as i128;
    assert(-0x4_0000_0000_0000 <= px * vx <= 0x4_0000_0000_0000) by (nonlinear_arith)
        requires
            -0x2000_0000 <= px <= 0x2000_0000,
            -0x20_0000 <= vx <= 0x20_0000,
    ;
    assert(-0x4_0000_0000_0000 <= py * vy <= 0x4_0000_0000_0000) by (nonlinear_arith)
        requires
            -0x2000_0000 <= py <= 0x2000_0000,
            -0x20_0000 <= vy <= 0x20_0000,
    ;
    let p: i128 = px * vx + py * vy;
    proof {
        assert(p == closing(*b0, *b1));
    }
    if p >= 0 {
        return None;
    }
    assert(0 <= vx * vx <= 0x400_0000_0000 && 0 <= vy * vy <= 0x400_0000_0000) by (nonlinear_arith)
        requires
            -0x20_0000 <= vx <= 0x20_0000,
            -0x20_0000 <= vy <= 0x20_0000,
    ;
    let a: i128 = vx * vx + vy * vy;
    assert(a > 0) by (nonlinear_arith)
        requires
            p == px * vx + py * vy,
            p < 0,
            a == vx * vx + vy * vy,
    ;
    assert(0 <= px * px <= 0x400_0000_0000_0000 && 0 <= py * py <= 0x400_0000_0000_0000)
        by (nonlinear_arith)
        requires
            -0x2000_0000 <= px <= 0x2000_0000,
            -0x2000_0000 <= py <= 0x2000_0000,
    ;
    let c: i128 = px * px + py * py;
    let reach: i128 = (b0.radius + b1.radius) as i128;
    assert(reach * reach <= 0x100_0000_0000 * 4) by (nonlinear_arith)
        requires
            0 < reach <= 0x20_0000,
    ;
    let reach2: i128 = reach * reach;
    assert(-0x100_0000_0000_0000_0000_0000_0000 <= a * (c - reach2) <= 0x100_0000_0000_0000_0000_0000_0000)
        by (nonlinear_arith)
        requires
            0 < a <= 0x800_0000_0000,
            -0x400_0000_0000 <= c - reach2 <= 0x800_0000_0000_0000,
    ;
    assert(-0x40_0000_0000_0000_0000_0000 <= a * (c - reach2)) by (nonlinear_arith)
        requires
            0 < a <= 0x800_0000_0000,
            -0x400_0000_0000 <= c - reach2,
    ;
    assert(0 <= p * p <= 0x40_0000_0000_0000_0000_0000_0000) by (nonlinear_arith)
        requires
            -0x8_0000_0000_0000 <= p < 0,
    ;
    let disc: i128 = p * p - a * (c - reach2);
    proof {
        assert(reach2 == contact2(*b0, *b1));
        assert(a == rel_speed2(*b0, *b1));
        assert(disc == entry_disc(*b0, *b1));
    }
    if disc < 0 {
        return None;
    }
    let m: i128 = (-p + a - 1) / a;
    proof {
        lemma_ceil_div(-p as int, a as int);
        assert(m == ceil_div(-p as int, a as int));
        assert(a * (m - 1) < -p);
        assert(a * m == a * (m - 1) + a) by (nonlinear_arith);
        assert(m <= -p) by (nonlinear_arith)
            requires
                m >= 1,
                a >= 1,
                a * (m - 1) < -p,
        ;
        assert(past_root(a as int, p as int, disc as int, m as int));
    }
    assert(a * 0 == 0);
    let entry_off: i128;
    if past_root_at(a, p, disc, 0) {
        entry_off = 0;
    } else {
        let mut lo: i128 = 0;
        let mut hi: i128 = m;
        while lo + 1 < hi
            invariant
                0 <= lo < hi <= m,
                !past_root(a as int, p as int, disc as int, lo as int),
                past_root(a as int, p as int, disc as int, hi as int),
                1 <= a <= 0x1000_0000_0000,
                -0x10_0000_0000_0000 <= p < 0,
                a * m <= -p + a,
                m <= -p,
                0 <= disc <= 0x100_0000_0000_0000_0000_0000_0000,
            decreases hi - lo,
        {
            let mid: i128 = lo + (hi - lo) / 2;
            assert(a * mid <= a * m) by (nonlinear_arith)
                requires
                    a > 0,
                    mid <= m,
            ;
            if past_root_at(a, p, disc, mid) {
                hi = mid;
            } else {
                lo = mid;
            }
        }
        proof {
            assert forall|k: int| 0 <= k < hi implies !past_root(a as int, p as int, disc as int, k) by {
                if past_root(a as int, p as int, disc as int, k) {
                    lemma_past_root_monotone(a as int, p as int, disc as int, k, lo as int);
                }
            }
        }
        entry_off = hi;
    }
    proof {
        assert forall|tt: int|
            common_time(*b0, *b1) <= tt < t + entry_off implies !#[trigger] past_entry_root(
            *b0,
            *b1,
            tt,
        ) by {
            assert(tt - t < entry_off);
        }
        assert(closest_offset(*b0, *b1) == m);
    }
    Some((t + entry_off as i64, t + m as i64))
}

// ---------------------------------------------------------------------------
// Dispatch and bounding boxes.
// ---------------------------------------------------------------------------

/// The two bodies may be handed to the solver.
pub open spec fn solvable(c0: Collidable, c1: Collidable) -> bool {
    &&& c0.wf()
    &&& c1.wf()
    &&& match (c0, c1) {
        (Collidable::Ball(b0), Collidable::Ball(b1)) => b0.fits_at(common_time(b0, b1))
            && b1.fits_at(common_time(b0, b1)),
        _ => true,
    }
}

/// What the solver returns for two bodies, in either order.
pub open spec fn collision_solution(c0: Collidable, c1: Collidable, r: Option<(i64, i64)>) -> bool {
    match (c0, c1) {
        (Collidable::Ball(b0), Collidable::Ball(b1)) => ball_ball_solution(b0, b1, r),
        (Collidable::Ball(b), Collidable::Wall(w)) => ball_wall_solution(b, w, r),
        (Collidable::Wall(w), Collidable::Ball(b)) => ball_wall_solution(b, w, r),
        (Collidable::Wall(_), Collidable::Wall(_)) => r is None,
    }
}

/// Whether two bodies may be handed to the solver.
pub fn can_solve(c0: &Collidable, c1: &Collidable) -> (r: bool)
    requires
        c0.wf(),
        c1.wf(),
    ensures
        r == solvable(*c0, *c1),
{
    match (c0, c1) {
        (Collidable::Ball(b0), Collidable::Ball(b1)) => {
            let t = if b0.initial_time >= b1.initial_time {
                b0.initial_time
            } else {
                b1.initial_time
            };
            b0.can_advance(t) && b1.can_advance(t)
        },
        _ => true,
    }
}

/// The earliest time a solution names is no earlier than the bodies' own
/// times, hence not negative.
pub proof fn lemma_solution_not_before(c0: Collidable, c1: Collidable, r: Option<(i64, i64)>)
    requires
        c0.wf(),
        c1.wf(),
        collision_solution(c0, c1, r),
        r is Some,
    ensures
        r.unwrap().0 >= 0,
{
}

/// The solver's answer is determined by the two bodies.
pub proof fn lemma_solution_unique(
    c0: Collidable,
    c1: Collidable,
    r1: Option<(i64, i64)>,
    r2: Option<(i64, i64)>,
)
    requires
        collision_solution(c0, c1, r1),
        collision_solution(c0, c1, r2),
    ensures
        r1 == r2,
{
    match (c0, c1) {
        (Collidable::Ball(b0), Collidable::Ball(b1)) => {
            lemma_ball_ball_unique(b0, b1, r1, r2);
        },
        (Collidable::Ball(b), Collidable::Wall(w)) => {
            lemma_ball_wall_unique(b, w, r1, r2);
        },
        (Collidable::Wall(w), Collidable::Ball(b)) => {
            lemma_ball_wall_unique(b, w, r1, r2);
        },
        (Collidable::Wall(_), Collidable::Wall(_)) => {},
    }
}

proof fn lemma_ball_ball_unique(b0: Ball, b1: Ball, r1: Option<(i64, i64)>, r2: Option<(i64, i64)>)
    requires
        ball_ball_solution(b0, b1, r1),
        ball_ball_solution(b0, b1, r2),
    ensures
        r1 == r2,
{
    match (r1, r2) {
        (Some((e1, _)), Some((e2, _))) => {
            if e1 < e2 {
                assert(!past_entry_root(b0, b1, e1 as int));
            } else if e2 < e1 {
                assert(!past_entry_root(b0, b1, e2 as int));
            }
        },
        _ => {},
    }
}

proof fn lemma_ball_wall_unique(b: Ball, w: Wall, r1: Option<(i64, i64)>, r2: Option<(i64, i64)>)
    requires
        ball_wall_solution(b, w, r1),
        ball_wall_solution(b, w, r2),
    ensures
        r1 == r2,
{
    match (r1, r2) {
        (Some((e1, t1)), Some((e2, t2))) => {
            if e1 < e2 {
                assert(!within_reach(side_gap(b, w, e1 as int), wall_reach2(b, w)));
            } else if e2 < e1 {
                assert(!within_reach(side_gap(b, w, e2 as int), wall_reach2(b, w)));
            }
            if t1 < t2 {
                assert(side_gap(b, w, t1 as int) > 0);
            } else if t2 < t1 {
                assert(side_gap(b, w, t2 as int) > 0);
            }
        },
        _ => {},
    }
}

/// Contact times of two bodies: walls never meet each other.
pub fn solve_collision(collidable: &Collidable, other_collidable: &Collidable) -> (r: Option<
    (i64, i64),
>)
    requires
        solvable(*collidable, *other_collidable),
    ensures
        collision_solution(*collidable, *other_collidable, r),
{
    match (collidable, other_collidable) {
        (Collidable::Ball(ball), Collidable::Ball(other_ball)) => solve_collision_ball_ball(
            ball,
            other_ball,
        ),
        (Collidable::Ball(ball), Collidable::Wall(wall)) => solve_collision_ball_wall(ball, wall),
        (Collidable::Wall(wall), Collidable::Ball(ball)) => solve_collision_ball_wall(ball, wall),
        (Collidable::Wall(_), Collidable::Wall(_)) => None,
    }
}

/// The two closed intervals `[x0, x1]` and `[y0, y1]` share a point.
pub fn segments_intersect(x: (i64, i64), y: (i64, i64)) -> (r: bool)
    ensures
        r == (x.1 >= y.0 && y.1 >= x.0),
{
    x.1 >= y.0 && y.1 >= x.0
}

pub open spec fn min_int(a: int, b: int) -> int {
    if a <= b {
        a
    } else {
        b
    }
}

pub open spec fn max_int(a: int, b: int) -> int {
    if a >= b {
        a
    } else {
        b
    }
}

/// Corners `(min_x, min_y, max_x, max_y)` of the box swept by a body from its
/// own time to `next_time`, grown by its radius and by `EPSILON`.
pub open spec fn movement_box(c: Collidable, next_time: int) -> (int, int, int, int) {
    match c {
        Collidable::Ball(b) => {
            let grow = b.radius + EPSILON;
            (
                min_int(b.position.x as int, b.x_at(next_time)) - grow,
                min_int(b.position.y as int, b.y_at(next_time)) - grow,
                max_int(b.position.x as int, b.x_at(next_time)) + grow,
                max_int(b.position.y as int, b.y_at(next_time)) + grow,
            )
        },
        Collidable::Wall(w) => (
            min_int(w.p0.x as int, w.p1.x as int) - EPSILON,
            min_int(w.p0.y as int, w.p1.y as int) - EPSILON,
            max_int(w.p0.x as int, w.p1.x as int) + EPSILON,
            max_int(w.p0.y as int, w.p1.y as int) + EPSILON,
        ),
    }
}

/// The body may be followed up to `next_time`.
pub open spec fn trackable(c: Collidable, next_time: int) -> bool {
    &&& c.wf()
    &&& match c {
        Collidable::Ball(b) => b.can_advance_to(next_time),
        Collidable::Wall(_) => true,
    }
}

fn min_i64(a: i64, b: i64) -> (r: i64)
    ensures
        r == min_int(a as int, b as int),
{
    if a <= b {
        a
    } else {
        b
    }
}

fn max_i64(a: i64, b: i64) -> (r: i64)
    ensures
        r == max_int(a as int, b as int),
{
    if a >= b {
        a
    } else {
        b
    }
}

/// Whether a body may be followed up to `next_time`.
pub fn can_track(c: &Collidable, next_time: i64) -> (r: bool)
    requires
        c.wf(),
    ensures
        r == trackable(*c, next_time as int),
{
    match c {
        Collidable::Ball(b) => b.can_advance(next_time),
        Collidable::Wall(_) => true,
    }
}

/// The box swept by a body up to `next_time`, as its lower and upper corner.
pub fn get_movement_bounding_box(collidable: &Collidable, next_time: i64) -> (r: (Vec2, Vec2))
    requires
        trackable(*collidable, next_time as int),
    ensures
        (r.0.x as int, r.0.y as int, r.1.x as int, r.1.y as int) == movement_box(
            *collidable,
            next_time as int,
        ),
{
    match collidable {
        Collidable::Ball(ball) => {
            let end = ball.advance_to(next_time);
            let grow: i64 = ball.radius + EPSILON;
            (
                Vec2 {
                    x: min_i64(ball.position.x, end.position.x) - grow,
                    y: min_i64(ball.position.y, end.position.y) - grow,
                },
                Vec2 {
                    x: max_i64(ball.position.x, end.position.x) + grow,
                    y: max_i64(ball.position.y, end.position.y) + grow,
                },
            )
        },
        Collidable::Wall(wall) => (
            Vec2 {
                x: min_i64(wall.p0.x, wall.p1.x) - EPSILON,
                y: min_i64(wall.p0.y, wall.p1.y) - EPSILON,
            },
            Vec2 {
                x: max_i64(wall.p0.x, wall.p1.x) + EPSILON,
                y: max_i64(wall.p0.y, wall.p1.y) + EPSILON,
            },
        ),
    }
}

} // verus!
