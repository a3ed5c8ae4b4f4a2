use vstd::prelude::*;
use crate::constants::WORLD_MAX;
use crate::vec::Vector2;

verus! {

/// A simulated agent: where it is, where it is heading, and who it is.
#[derive(Clone, Copy, Debug, PartialEq, Eq, Structural)]
pub struct Boid {
    pub position: Vector2,
    pub velocity: Vector2,
    pub id: usize,
}

/// Both coordinates lie within `[-WORLD_MAX, WORLD_MAX]`.
pub open spec fn in_world_range(v: Vector2) -> bool {
    -WORLD_MAX <= v.x <= WORLD_MAX && -WORLD_MAX <= v.y <= WORLD_MAX
}

impl Boid {
    /// Position and velocity lie within the range the simulation works in.
    pub open spec fn valid(self) -> bool {
        in_world_range(self.position) && in_world_range(self.velocity)
    }

    pub fn new(position: Vector2, velocity: Vector2, id: usize) -> (r: Boid)
        ensures
            r.position == position,
            r.velocity == velocity,
            r.id == id,
    {
        Boid { position, velocity, id }
    }
}

} // verus!
