use vstd::prelude::*;
use crate::ball::Ball;
use crate::wall::Wall;

verus! {

/// Slack, in length units, by which bounding boxes are inflated.
pub const EPSILON: i64 = 1;

/// Tells a ball from a wall.
#[derive(Clone, Copy, Debug, PartialEq, Eq, Hash, Structural)]
pub enum CollidableType {
    Ball,
    Wall,
}

/// How many times contacts have changed a body's motion.
#[derive(Clone, Copy, Debug, PartialEq, Eq, Hash, Structural)]
pub struct Generation {
    pub generation: i64,
}

/// A body that takes part in contacts.
#[derive(Clone, Copy, Debug, PartialEq, Eq, Structural)]
pub enum Collidable {
    Ball(Ball),
    Wall(Wall),
}

impl Collidable {
    pub open spec fn wf(self) -> bool {
        match self {
            Collidable::Ball(b) => b.wf(),
            Collidable::Wall(w) => w.wf(),
        }
    }

    pub fn collidable_type(&self) -> (r: CollidableType)
        ensures
            r == (match self {
                Collidable::Ball(_) => CollidableType::Ball,
                Collidable::Wall(_) => CollidableType::Wall,
            }),
    {
        match self {
            Collidable::Ball(_) => CollidableType::Ball,
            Collidable::Wall(_) => CollidableType::Wall,
        }
    }
}

/// A reference to a body together with the generation it had when the
/// reference was taken.
#[derive(Clone, Copy, Debug, PartialEq, Eq, Hash, Structural)]
pub struct GenerationalCollisionEntity {
    pub entity: usize,
    pub generation: i64,
}

impl GenerationalCollisionEntity {
    /// The same entity, one generation on.
    pub fn next(self) -> (r: GenerationalCollisionEntity)
        requires
            self.generation < i64::MAX,
        ensures
            r.entity == self.entity,
            r.generation == self.generation + 1,
    {
        GenerationalCollisionEntity { entity: self.entity, generation: self.generation + 1 }
    }
}

} // verus!
