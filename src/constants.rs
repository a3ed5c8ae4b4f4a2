use vstd::prelude::*;

verus! {

/// World coordinates are kept in thousandths of a pixel.
pub const SUBPIXELS: i64 = 1000;

/// Width and height of the visible world, in world units.
pub const VIEW_PORT_WIDTH: i64 = 800000;
pub const VIEW_PORT_HEIGHT: i64 = 600000;

/// Drawn size of a boid, in pixels.
pub const BOID_SIZE: i64 = 1;

/// Side of the square a boid looks around itself in, in world units.
pub const VIEW_DISTANCE: i64 = 10000;

/// Largest speed a boid reaches after integration, in world units per tick.
pub const MAX_BOID_SPEED: i64 = 6100;

/// Share of the steering acceleration applied per tick, in thousandths.
pub const MAX_BOID_FORCE: i64 = 501;

/// Number of ticks between rebuilds of the spatial index.
pub const UPDATE_EVERY_TICK: u8 = 1;

/// Number of boids spawned at start.
pub const BOIDS_AMOUNT: u64 = 2000;

/// Speed of a freshly spawned boid, in world units per tick.
pub const SPAWN_SPEED: i64 = 2000;

/// Largest absolute coordinate of a boid's position or velocity, and of the
/// world's corners.
pub const WORLD_MAX: i64 = 268435456;

/// Steering weights, in thousandths, and the constant push back into the
/// world's safe rectangle.
pub struct BehaviourConsts;

impl BehaviourConsts {
    pub const ALLIGN_FACTOR: i64 = 300;
    pub const COHESION_FACTOR: i64 = 300;
    pub const SEPERATE_FACTOR: i64 = 300;
    pub const BOUND_FACTOR: i64 = 1000;
    /// Inset of the safe rectangle from each side of the world.
    pub const BOUND_MARGIN: i64 = 100000;
    /// Fixed-point scale of the inverse-distance repulsion.
    pub const SEPERATE_SCALE: i64 = 1048576;
    /// Denominator of the weights.
    pub const FACTOR_SCALE: i64 = 1000;
}

/// Hands out identities in increasing order, starting over at zero only when
/// the counter's range is exhausted.
pub struct IdIterator {
    i: usize,
}

impl IdIterator {
    /// The value of the counter: the next identity, unless it has reached the
    /// end of its range.
    pub closed spec fn counter(self) -> nat {
        self.i as nat
    }

    pub closed spec fn wf(self) -> bool {
        self.i < usize::MAX
    }

    pub fn get_next(&mut self) -> (r: usize)
        requires
            old(self).wf(),
        ensures
            final(self).wf(),
            r == (if old(self).counter() + 1 == usize::MAX { 0 } else { old(self).counter() }),
            final(self).counter() == r + 1,
    {
        if self.i + 1 == usize::MAX {
            self.i = 0;
        }
        let id = self.i;
        self.i += 1;
        id
    }

    pub fn new() -> (r: IdIterator)
        ensures
            r.wf(),
            r.counter() == 0,
    {
        IdIterator { i: 0 }
    }
}

} // verus!
