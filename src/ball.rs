use vstd::prelude::*;
use crate::geometry::{coord_ok, Vec2, COORD_LIMIT, RADIUS_LIMIT, TIME_LIMIT};

verus! {

/// A moving disc whose state is pinned at `initial_time`: at any later time
/// `t` it stands at `position + velocity * (t - initial_time)`.
#[derive(Clone, Copy, Debug, PartialEq, Eq, Structural)]
pub struct Ball {
    pub position: Vec2,
    pub velocity: Vec2,
    pub radius: i64,
    pub initial_time: i64,
}

/// The straight piece of path a ball travelled between two times.
#[derive(Clone, Copy, Debug, PartialEq, Eq, Structural)]
pub struct Trail {
    pub position0: Vec2,
    pub position1: Vec2,
    pub initial_time: i64,
    pub final_time: i64,
}

/// The pieces of path a ball travelled during the current frame.
#[derive(Debug)]
pub struct Trails {
    pub trails: Vec<Trail>,
}

impl Ball {
    /// The state lies within the limits that all arithmetic here is sized for.
    pub open spec fn wf(self) -> bool {
        &&& self.position.in_range()
        &&& self.velocity.speed_in_range()
        &&& 0 < self.radius <= RADIUS_LIMIT
        &&& 0 <= self.initial_time <= TIME_LIMIT
    }

    pub open spec fn x_at(self, t: int) -> int {
        self.position.x + self.velocity.x * (t - self.initial_time)
    }

    pub open spec fn y_at(self, t: int) -> int {
        self.position.y + self.velocity.y * (t - self.initial_time)
    }

    /// At time `t` the ball is still inside the representable area.
    pub open spec fn fits_at(self, t: int) -> bool {
        coord_ok(self.x_at(t)) && coord_ok(self.y_at(t))
    }

    /// The same motion, pinned at time `t` instead.
    pub open spec fn advanced(self, t: int) -> Ball {
        Ball {
            position: Vec2 { x: self.x_at(t) as i64, y: self.y_at(t) as i64 },
            initial_time: t as i64,
            ..self
        }
    }

    /// The ball may be pinned at `t`: no earlier than it is now, and still
    /// inside the limits.
    pub open spec fn can_advance_to(self, t: int) -> bool {
        self.initial_time <= t <= TIME_LIMIT && self.fits_at(t)
    }

    /// Whether the ball may be pinned at `t`.
    pub fn can_advance(&self, t: i64) -> (r: bool)
        requires
            self.wf(),
        ensures
            r == self.can_advance_to(t as int),
    {
        if t < self.initial_time || t > TIME_LIMIT {
            return false;
        }
        let dt = (t - self.initial_time) as i128;
        assert(-0x1000_0000_0000_0000 <= self.velocity.x * dt <= 0x1000_0000_0000_0000)
            by (nonlinear_arith)
            requires
                -1048576 <= self.velocity.x <= 1048576,
                0 <= dt <= 1099511627776,
        ;
        assert(-0x1000_0000_0000_0000 <= self.velocity.y * dt <= 0x1000_0000_0000_0000)
            by (nonlinear_arith)
            requires
                -1048576 <= self.velocity.y <= 1048576,
                0 <= dt <= 1099511627776,
        ;
        let x: i128 = self.position.x as i128 + self.velocity.x as i128 * dt;
        let y: i128 = self.position.y as i128 + self.velocity.y as i128 * dt;
        let limit = COORD_LIMIT as i128;
        -limit <= x && x <= limit && -limit <= y && y <= limit
    }

    /// Extrapolates the ball to time `t` at constant velocity.
    pub fn advance_to(&self, t: i64) -> (r: Ball)
        requires
            self.wf(),
            self.can_advance_to(t as int),
        ensures
            r == self.advanced(t as int),
            r.wf(),
    {
        let dt: i64 = t - self.initial_time;
        assert(-0x1000_0000_0000_0000 <= self.velocity.x * dt <= 0x1000_0000_0000_0000)
            by (nonlinear_arith)
            requires
                -1048576 <= self.velocity.x <= 1048576,
                0 <= dt <= 1099511627776,
        ;
        assert(-0x1000_0000_0000_0000 <= self.velocity.y * dt <= 0x1000_0000_0000_0000)
            by (nonlinear_arith)
            requires
                -1048576 <= self.velocity.y <= 1048576,
                0 <= dt <= 1099511627776,
        ;
        let x: i64 = self.position.x + self.velocity.x * dt;
        let y: i64 = self.position.y + self.velocity.y * dt;
        Ball { position: Vec2 { x, y }, velocity: self.velocity, radius: self.radius, initial_time: t }
    }
}

impl Trails {
    pub fn new() -> (r: Trails)
        ensures
            r.trails@ == Seq::<Trail>::empty(),
    {
        Trails { trails: Vec::new() }
    }
}

} // verus!
