use vstd::prelude::*;
use crate::geometry::{norm2, Vec2};

verus! {

/// A static boundary through `p0` and `p1`.  Contacts treat it as the
/// infinite line through both points.
#[derive(Clone, Copy, Debug, PartialEq, Eq, Structural)]
pub struct Wall {
    pub p0: Vec2,
    pub p1: Vec2,
}

impl Wall {
    pub open spec fn wf(self) -> bool {
        self.p0.in_range() && self.p1.in_range()
    }

    pub open spec fn normal_x(self) -> int {
        -(self.p1.y - self.p0.y)
    }

    pub open spec fn normal_y(self) -> int {
        self.p1.x - self.p0.x
    }

    /// Squared length of the normal, which is also that of `p1 - p0`.
    pub open spec fn normal_norm2(self) -> int {
        norm2(self.normal_x(), self.normal_y())
    }

    /// The direction `p1 - p0` turned a quarter turn counter-clockwise.  It is
    /// not scaled to unit length: it is as long as the wall.
    pub fn normal(&self) -> (r: Vec2)
        requires
            self.wf(),
        ensures
            r.x == self.normal_x(),
            r.y == self.normal_y(),
    {
        Vec2 { x: self.p0.y - self.p1.y, y: self.p1.x - self.p0.x }
    }
}

} // verus!
