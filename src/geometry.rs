use vstd::prelude::*;

verus! {

/// Largest magnitude of a position coordinate of a valid body.
pub const COORD_LIMIT: i64 = 268435456;

/// Largest magnitude of a velocity component of a valid ball; also the speed
/// cap applied after each contact.
pub const SPEED_LIMIT: i64 = 1048576;

/// Largest radius of a valid ball.
pub const RADIUS_LIMIT: i64 = 1048576;

/// Largest time (in ticks) at which a body's state may be pinned.
pub const TIME_LIMIT: i64 = 1099511627776;

/// A vector of the plane with integer coordinates.
#[derive(Clone, Copy, Debug, PartialEq, Eq, Structural)]
pub struct Vec2 {
    pub x: i64,
    pub y: i64,
}

pub open spec fn coord_ok(c: int) -> bool {
    -COORD_LIMIT <= c <= COORD_LIMIT
}

pub open spec fn speed_ok(c: int) -> bool {
    -SPEED_LIMIT <= c <= SPEED_LIMIT
}

pub open spec fn dot(ax: int, ay: int, bx: int, by: int) -> int {
    ax * bx + ay * by
}

pub open spec fn norm2(x: int, y: int) -> int {
    x * x + y * y
}

impl Vec2 {
    pub open spec fn in_range(self) -> bool {
        coord_ok(self.x as int) && coord_ok(self.y as int)
    }

    /// Each component, and the speed itself, is at most `SPEED_LIMIT`.
    pub open spec fn speed_in_range(self) -> bool {
        &&& speed_ok(self.x as int)
        &&& speed_ok(self.y as int)
        &&& norm2(self.x as int, self.y as int) <= SPEED_LIMIT * SPEED_LIMIT
    }

    pub fn new(x: i64, y: i64) -> (r: Vec2)
        ensures
            r.x == x,
            r.y == y,
    {
        Vec2 { x, y }
    }
}

/// `s` is the integer square root of `n`, rounded down.
pub open spec fn is_floor_sqrt(n: int, s: int) -> bool {
    0 <= s && s * s <= n && n < (s + 1) * (s + 1)
}

/// `s` is the integer square root of `n`, rounded up.
pub open spec fn is_ceil_sqrt(n: int, s: int) -> bool {
    0 <= s && n <= s * s && (s == 0 || (s - 1) * (s - 1) < n)
}

/// Rounds the square root of `n` down, by bisection.
pub fn floor_sqrt(n: u128) -> (r: u64)
    requires
        n < 0x1000_0000_0000_0000_0000_0000_0000_0000,
    ensures
        is_floor_sqrt(n as int, r as int),
{
    let mut lo: u64 = 0;
    let mut hi: u64 = 0x4000_0000_0000_0000;
    assert(hi * hi == 0x1000_0000_0000_0000_0000_0000_0000_0000) by (nonlinear_arith)
        requires
            hi == 0x4000_0000_0000_0000u64,
    ;
    while lo + 1 < hi
        invariant
            lo < hi <= 0x4000_0000_0000_0000,
            lo * lo <= n,
            n < hi * hi,
        decreases hi - lo,
    {
        let mid: u64 = lo + (hi - lo) / 2;
        assert(mid * mid <= 0x1000_0000_0000_0000_0000_0000_0000_0000) by (nonlinear_arith)
            requires
                mid < 0x4000_0000_0000_0000u64,
        ;
        let sq: u128 = (mid as u128) * (mid as u128);
        if sq <= n {
            lo = mid;
        } else {
            hi = mid;
        }
    }
    assert(hi == lo + 1);
    lo
}

/// Rounds the square root of `n` up.
pub fn ceil_sqrt(n: u128) -> (r: u64)
    requires
        n < 0x1000_0000_0000_0000_0000_0000_0000_0000,
    ensures
        is_ceil_sqrt(n as int, r as int),
{
    let s = floor_sqrt(n);
    let sq: u128 = (s as u128) * (s as u128);
    if sq == n {
        assert(s == 0 || (s - 1) * (s - 1) < n) by (nonlinear_arith)
            requires
                n == s * s,
        ;
        s
    } else {
        assert(s < 0x4000_0000_0000_0000u64) by (nonlinear_arith)
            requires
                s * s <= n,
                n < 0x1000_0000_0000_0000_0000_0000_0000_0000,
        ;
        assert(((s + 1) - 1) * ((s + 1) - 1) < n);
        s + 1
    }
}

} // verus!
