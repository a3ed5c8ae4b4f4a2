use vstd::prelude::*;
use crate::boid::{in_world_range, Boid};
use crate::constants::{BehaviourConsts, MAX_BOID_FORCE, MAX_BOID_SPEED, WORLD_MAX};
use crate::region::Region;
use crate::vec::{div_trunc, quotient, Vector2, COORD_MAX};

verus! {

/// Which steering rules are active, one bit each.
#[derive(Clone, Copy, Debug, PartialEq, Eq, Structural)]
pub struct BehaviourEnabled {
    pub bits: u32,
}

impl BehaviourEnabled {
    pub const ALL_DISABLED: u32 = 0;
    pub const ALLIGN: u32 = 1;
    pub const COHESION: u32 = 2;
    pub const SEPERATE: u32 = 4;
    pub const BOUND: u32 = 8;
    pub const ALL_ENABLED: u32 = 15;

    pub open spec fn has(self, flag: u32) -> bool {
        self.bits & flag == flag
    }

    pub fn from_bits(bits: u32) -> (r: BehaviourEnabled)
        ensures
            r.bits == bits,
    {
        BehaviourEnabled { bits }
    }

    pub fn contains(&self, flag: u32) -> (r: bool)
        ensures
            r == self.has(flag),
    {
        self.bits & flag == flag
    }

    /// Switches the rules of `flag` on where they were off and off where they
    /// were on.
    pub fn toggle(&mut self, flag: u32)
        ensures
            final(self).bits == old(self).bits ^ flag,
    {
        self.bits = self.bits ^ flag;
    }
}

/// What happens to a boid that reaches the edge of the world.
#[derive(Clone, Copy, Debug, PartialEq, Eq, Structural)]
pub enum BorderBehaviourE {
    /// It reappears at the opposite edge.
    GoThrough,
    /// It bounces back.
    Reflect,
}

/// The number of boids of `s` other than the one with identity `id`.
pub open spec fn others_count(s: Seq<Boid>, id: usize) -> nat
    decreases s.len(),
{
    if s.len() == 0 {
        0
    } else {
        others_count(s.drop_last(), id) + if s.last().id == id {
            0nat
        } else {
            1nat
        }
    }
}

/// The sum of the velocities of the boids of `s` other than `id`.
pub open spec fn velocity_sum(s: Seq<Boid>, id: usize) -> (int, int)
    decreases s.len(),
{
    if s.len() == 0 {
        (0, 0)
    } else {
        let (x, y) = velocity_sum(s.drop_last(), id);
        let b = s.last();
        if b.id == id {
            (x, y)
        } else {
            (x + b.velocity.x, y + b.velocity.y)
        }
    }
}

/// The sum of the positions of the boids of `s` other than `id`.
pub open spec fn position_sum(s: Seq<Boid>, id: usize) -> (int, int)
    decreases s.len(),
{
    if s.len() == 0 {
        (0, 0)
    } else {
        let (x, y) = position_sum(s.drop_last(), id);
        let b = s.last();
        if b.id == id {
            (x, y)
        } else {
            (x + b.position.x, y + b.position.y)
        }
    }
}

/// The push `p` receives from a boid at `q`: the offset `p - q` divided by
/// the squared distance (taken as one when the two coincide), in fixed point.
pub open spec fn repulsion(p: Vector2, q: Vector2) -> (int, int) {
    let dx = p.x - q.x;
    let dy = p.y - q.y;
    let d2 = dx * dx + dy * dy;
    let d = if d2 == 0 {
        1
    } else {
        d2
    };
    (div_trunc(dx * BehaviourConsts::SEPERATE_SCALE, d), div_trunc(dy * BehaviourConsts::SEPERATE_SCALE, d))
}

/// The sum of the pushes a boid at `p` receives from the boids of `s` other
/// than `id`.
pub open spec fn repulsion_sum(p: Vector2, s: Seq<Boid>, id: usize) -> (int, int)
    decreases s.len(),
{
    if s.len() == 0 {
        (0, 0)
    } else {
        let (x, y) = repulsion_sum(p, s.drop_last(), id);
        let b = s.last();
        if b.id == id {
            (x, y)
        } else {
            (x + repulsion(p, b.position).0, y + repulsion(p, b.position).1)
        }
    }
}

/// `target` rescaled to the top speed, less the current velocity, weighted
/// by `factor` thousandths.
pub open spec fn steer(target: Vector2, velocity: Vector2, factor: int) -> Vector2 {
    let s = target.scaled_to(MAX_BOID_SPEED as int);
    Vector2 {
        x: div_trunc((s.x - velocity.x) * factor, BehaviourConsts::FACTOR_SCALE as int) as i64,
        y: div_trunc((s.y - velocity.y) * factor, BehaviourConsts::FACTOR_SCALE as int) as i64,
    }
}

/// The mean of a sum over `n` items, rounded toward zero.
pub open spec fn mean(sum: (int, int), n: nat) -> Vector2 {
    Vector2 { x: div_trunc(sum.0, n as int) as i64, y: div_trunc(sum.1, n as int) as i64 }
}

pub open spec fn align_spec(b: Boid, s: Seq<Boid>) -> Vector2 {
    let sum = velocity_sum(s, b.id);
    if others_count(s, b.id) == 0 {
        Vector2 { x: 0, y: 0 }
    } else {
        steer(mean(sum, others_count(s, b.id)), b.velocity, BehaviourConsts::ALLIGN_FACTOR as int)
    }
}

pub open spec fn cohesion_spec(b: Boid, s: Seq<Boid>) -> Vector2 {
    let sum = position_sum(s, b.id);
    if others_count(s, b.id) == 0 {
        Vector2 { x: 0, y: 0 }
    } else {
        let m = mean(sum, others_count(s, b.id));
        steer(
            Vector2 { x: (m.x - b.position.x) as i64, y: (m.y - b.position.y) as i64 },
            b.velocity,
            BehaviourConsts::COHESION_FACTOR as int,
        )
    }
}

pub open spec fn separate_spec(b: Boid, s: Seq<Boid>) -> Vector2 {
    if others_count(s, b.id) == 0 {
        Vector2 { x: 0, y: 0 }
    } else {
        let sum = repulsion_sum(b.position, s, b.id);
        let h = halved_into_range(sum.0, sum.1);
        steer(Vector2 { x: h.0 as i64, y: h.1 as i64 }, b.velocity, BehaviourConsts::SEPERATE_FACTOR as int)
    }
}

pub open spec fn abs_int(x: int) -> int {
    if x >= 0 {
        x
    } else {
        -x
    }
}

/// `(x, y)` with both components halved together, rounding toward zero,
/// until both lie within `[-COORD_MAX, COORD_MAX]`; the direction is kept up
/// to rounding.
pub open spec fn halved_into_range(x: int, y: int) -> (int, int)
    decreases abs_int(x) + abs_int(y),
{
    if -COORD_MAX <= x <= COORD_MAX && -COORD_MAX <= y <= COORD_MAX {
        (x, y)
    } else {
        halved_into_range(div_trunc(x, 2), div_trunc(y, 2))
    }
}

/// The push back toward the world's safe rectangle, the world shrunk by
/// `BOUND_MARGIN` on each side, on each axis where the position lies outside.
pub open spec fn bound_spec(b: Boid, world: Region) -> Vector2 {
    let m = BehaviourConsts::BOUND_MARGIN;
    let f = BehaviourConsts::BOUND_FACTOR;
    Vector2 {
        x: if b.position.x < world.left_up.x + m {
            f
        } else if b.position.x > world.right_down.x - m {
            (-f) as i64
        } else {
            0
        },
        y: if b.position.y < world.left_up.y + m {
            f
        } else if b.position.y > world.right_down.y - m {
            (-f) as i64
        } else {
            0
        },
    }
}

/// Largest absolute component of a steering contribution.
pub open spec fn steer_bounded(v: Vector2) -> bool {
    -(WORLD_MAX + MAX_BOID_SPEED) <= v.x <= WORLD_MAX + MAX_BOID_SPEED && -(WORLD_MAX + MAX_BOID_SPEED) <= v.y
        <= WORLD_MAX + MAX_BOID_SPEED
}

pub open spec fn all_valid(s: Seq<Boid>) -> bool {
    forall|j: int| 0 <= j < s.len() ==> (#[trigger] s[j]).valid()
}

fn steer_exec(target: Vector2, velocity: Vector2, factor: i64) -> (r: Vector2)
    requires
        target.in_range(),
        in_world_range(velocity),
        0 <= factor <= BehaviourConsts::FACTOR_SCALE,
    ensures
        r == steer(target, velocity, factor as int),
        steer_bounded(r),
{
    let mut s = target;
    s.set_magnitude(MAX_BOID_SPEED);
    proof {
        assert(-MAX_BOID_SPEED <= s.x <= MAX_BOID_SPEED) by (nonlinear_arith)
            requires
                s.x * s.x + s.y * s.y <= MAX_BOID_SPEED * MAX_BOID_SPEED,
        ;
        assert(-MAX_BOID_SPEED <= s.y <= MAX_BOID_SPEED) by (nonlinear_arith)
            requires
                s.x * s.x + s.y * s.y <= MAX_BOID_SPEED * MAX_BOID_SPEED,
        ;
    }
    let d = s.sub(velocity);
    proof {
        lemma_weight_bound(d.x as int, factor as int);
        lemma_weight_bound(d.y as int, factor as int);
    }
    let w = d.mul_scalar(factor);
    let r = w.div_scalar(BehaviourConsts::FACTOR_SCALE);
    r
}

proof fn lemma_weight_bound(d: int, factor: int)
    requires
        -(WORLD_MAX + MAX_BOID_SPEED) <= d <= WORLD_MAX + MAX_BOID_SPEED,
        0 <= factor <= BehaviourConsts::FACTOR_SCALE,
    ensures
        -(WORLD_MAX + MAX_BOID_SPEED) * 1000 <= d * factor <= (WORLD_MAX + MAX_BOID_SPEED) * 1000,
        -(WORLD_MAX + MAX_BOID_SPEED) <= div_trunc(d * factor, 1000) <= WORLD_MAX + MAX_BOID_SPEED,
{
    assert(-(WORLD_MAX + MAX_BOID_SPEED) * 1000 <= d * factor <= (WORLD_MAX + MAX_BOID_SPEED) * 1000)
        by (nonlinear_arith)
        requires
            -(WORLD_MAX + MAX_BOID_SPEED) <= d <= WORLD_MAX + MAX_BOID_SPEED,
            0 <= factor <= 1000,
    ;
    let p = d * factor;
    if p >= 0 {
        vstd::arithmetic::div_mod::lemma_div_is_ordered(p, (WORLD_MAX + MAX_BOID_SPEED) * 1000, 1000);
        vstd::arithmetic::div_mod::lemma_div_pos_is_pos(p, 1000);
    } else {
        vstd::arithmetic::div_mod::lemma_div_is_ordered(-p, (WORLD_MAX + MAX_BOID_SPEED) * 1000, 1000);
        vstd::arithmetic::div_mod::lemma_div_pos_is_pos(-p, 1000);
    }
    assert(((WORLD_MAX + MAX_BOID_SPEED) * 1000) / 1000 == WORLD_MAX + MAX_BOID_SPEED);
}

/// `sum` divided by `n`, rounded toward zero, for a sum of `n` terms each at
/// most `bound` in size.
fn average(sum: i128, n: usize, bound: i64) -> (r: i64)
    requires
        n > 0,
        0 <= bound <= WORLD_MAX,
        -(n as int) * bound <= sum <= (n as int) * bound,
    ensures
        r == div_trunc(sum as int, n as int),
        -bound <= r <= bound,
{
    let q = sum / (n as i128);
    proof {
        let a = if sum >= 0 { sum as int } else { -sum as int };
        assert(-(n as int) * bound == -((n as int) * bound)) by (nonlinear_arith);
        assert(a <= (n as int) * bound);
        vstd::arithmetic::div_mod::lemma_div_is_ordered(a, (n as int) * bound, n as int);
        vstd::arithmetic::div_mod::lemma_div_pos_is_pos(a, n as int);
        vstd::arithmetic::div_mod::lemma_div_by_multiple(bound as int, n as int);
        assert((n as int) * bound == bound * (n as int)) by (nonlinear_arith);
    }
    q as i64
}

pub struct AlignBehaviour;

impl AlignBehaviour {
    /// The mean velocity of the other boids, rescaled to the top speed, less
    /// the boid's own velocity, weighted; zero when the rule is off or there
    /// is no other boid.
    pub fn calculate(&self, enabled: BehaviourEnabled, self_boid: &Boid, other_boids: &[Boid]) -> (r: Vector2)
        requires
            self_boid.valid(),
            all_valid(other_boids@),
        ensures
            r == (if enabled.has(BehaviourEnabled::ALLIGN) {
                align_spec(*self_boid, other_boids@)
            } else {
                Vector2 { x: 0, y: 0 }
            }),
            steer_bounded(r),
    {
        if !enabled.contains(BehaviourEnabled::ALLIGN) {
            return Vector2::zero();
        }
        let id = self_boid.id;
        let mut sx: i128 = 0;
        let mut sy: i128 = 0;
        let mut n: usize = 0;
        let mut i: usize = 0;
        while i < other_boids.len()
            invariant
                0 <= i <= other_boids@.len(),
                all_valid(other_boids@),
                n <= i,
                n == others_count(other_boids@.take(i as int), id),
                (sx as int, sy as int) == velocity_sum(other_boids@.take(i as int), id),
                -(n as int) * WORLD_MAX <= sx <= (n as int) * WORLD_MAX,
                -(n as int) * WORLD_MAX <= sy <= (n as int) * WORLD_MAX,
            decreases other_boids@.len() - i,
        {
            let b = other_boids[i];
            proof {
                assert(other_boids@.take(i as int + 1).drop_last() =~= other_boids@.take(i as int));
                assert(b.valid());
            }
            if b.id != id {
                sx = sx + b.velocity.x as i128;
                sy = sy + b.velocity.y as i128;
                n = n + 1;
            }
            i = i + 1;
        }
        proof {
            assert(other_boids@.take(i as int) =~= other_boids@);
        }
        if n == 0 {
            return Vector2::zero();
        }
        let m = Vector2::new(average(sx, n, WORLD_MAX), average(sy, n, WORLD_MAX));
        steer_exec(m, self_boid.velocity, BehaviourConsts::ALLIGN_FACTOR)
    }
}

pub struct CohesionBehaviour;

impl CohesionBehaviour {
    /// The offset from the boid to the mean position of the other boids,
    /// rescaled to the top speed, less the boid's own velocity, weighted; zero
    /// when the rule is off or there is no other boid.
    pub fn calculate(&self, enabled: BehaviourEnabled, self_boid: &Boid, other_boids: &[Boid]) -> (r: Vector2)
        requires
            self_boid.valid(),
            all_valid(other_boids@),
        ensures
            r == (if enabled.has(BehaviourEnabled::COHESION) {
                cohesion_spec(*self_boid, other_boids@)
            } else {
                Vector2 { x: 0, y: 0 }
            }),
            steer_bounded(r),
    {
        if !enabled.contains(BehaviourEnabled::COHESION) {
            return Vector2::zero();
        }
        let id = self_boid.id;
        let mut sx: i128 = 0;
        let mut sy: i128 = 0;
        let mut n: usize = 0;
        let mut i: usize = 0;
        while i < other_boids.len()
            invariant
                0 <= i <= other_boids@.len(),
                all_valid(other_boids@),
                n <= i,
                n == others_count(other_boids@.take(i as int), id),
                (sx as int, sy as int) == position_sum(other_boids@.take(i as int), id),
                -(n as int) * WORLD_MAX <= sx <= (n as int) * WORLD_MAX,
                -(n as int) * WORLD_MAX <= sy <= (n as int) * WORLD_MAX,
            decreases other_boids@.len() - i,
        {
            let b = other_boids[i];
            proof {
                assert(other_boids@.take(i as int + 1).drop_last() =~= other_boids@.take(i as int));
                assert(b.valid());
            }
            if b.id != id {
                sx = sx + b.position.x as i128;
                sy = sy + b.position.y as i128;
                n = n + 1;
            }
            i = i + 1;
        }
        proof {
            assert(other_boids@.take(i as int) =~= other_boids@);
        }
        if n == 0 {
            return Vector2::zero();
        }
        let m = Vector2::new(average(sx, n, WORLD_MAX), average(sy, n, WORLD_MAX));
        let target = m.sub(self_boid.position);
        steer_exec(target, self_boid.velocity, BehaviourConsts::COHESION_FACTOR)
    }
}

fn repulsion_exec(p: Vector2, q: Vector2) -> (r: (i64, i64))
    requires
        in_world_range(p),
        in_world_range(q),
    ensures
        (r.0 as int, r.1 as int) == repulsion(p, q),
        -BehaviourConsts::SEPERATE_SCALE <= r.0 <= BehaviourConsts::SEPERATE_SCALE,
        -BehaviourConsts::SEPERATE_SCALE <= r.1 <= BehaviourConsts::SEPERATE_SCALE,
{
    let dx = p.x - q.x;
    let dy = p.y - q.y;
    proof {
        assert(0 <= dx * dx <= 4 * WORLD_MAX * WORLD_MAX) by (nonlinear_arith)
            requires
                -2 * WORLD_MAX <= dx <= 2 * WORLD_MAX,
        ;
        assert(0 <= dy * dy <= 4 * WORLD_MAX * WORLD_MAX) by (nonlinear_arith)
            requires
                -2 * WORLD_MAX <= dy <= 2 * WORLD_MAX,
        ;
        assert(-2 * WORLD_MAX * BehaviourConsts::SEPERATE_SCALE <= dx * BehaviourConsts::SEPERATE_SCALE
            <= 2 * WORLD_MAX * BehaviourConsts::SEPERATE_SCALE) by (nonlinear_arith)
            requires
                -2 * WORLD_MAX <= dx <= 2 * WORLD_MAX,
        ;
        assert(-2 * WORLD_MAX * BehaviourConsts::SEPERATE_SCALE <= dy * BehaviourConsts::SEPERATE_SCALE
            <= 2 * WORLD_MAX * BehaviourConsts::SEPERATE_SCALE) by (nonlinear_arith)
            requires
                -2 * WORLD_MAX <= dy <= 2 * WORLD_MAX,
        ;
    }
    let d2 = dx * dx + dy * dy;
    let d = if d2 == 0 {
        1
    } else {
        d2
    };
    let rx = quotient(dx * BehaviourConsts::SEPERATE_SCALE, d);
    let ry = quotient(dy * BehaviourConsts::SEPERATE_SCALE, d);
    proof {
        lemma_repulsion_bound(dx as int, d as int, rx as int);
        lemma_repulsion_bound(dy as int, d as int, ry as int);
    }
    (rx, ry)
}

proof fn lemma_repulsion_bound(dx: int, d: int, r: int)
    requires
        d >= 1,
        dx * dx <= d,
        r == div_trunc(dx * BehaviourConsts::SEPERATE_SCALE, d),
    ensures
        -BehaviourConsts::SEPERATE_SCALE <= r <= BehaviourConsts::SEPERATE_SCALE,
{
    let s = BehaviourConsts::SEPERATE_SCALE as int;
    crate::vec::lemma_div_trunc_abs(dx * s, d, r);
    let ar = if r >= 0 { r } else { -r };
    let adx = if dx >= 0 { dx } else { -dx };
    assert(adx <= d) by (nonlinear_arith)
        requires
            dx * dx <= d,
            adx == (if dx >= 0 { dx } else { -dx }),
    ;
    assert((if dx * s >= 0 { dx * s } else { -(dx * s) }) == adx * s) by (nonlinear_arith)
        requires
            s > 0,
            adx == (if dx >= 0 { dx } else { -dx }),
    ;
    assert(ar * d <= d * s) by (nonlinear_arith)
        requires
            ar * d <= adx * s,
            adx <= d,
            s > 0,
    ;
    assert(ar <= s) by (nonlinear_arith)
        requires
            ar * d <= d * s,
            d >= 1,
    ;
}

pub struct SeperateBehaviour;

impl SeperateBehaviour {
    /// The sum of the pushes away from the other boids, each the offset
    /// divided by the squared distance (taken as one for boids at the same
    /// spot), brought into range and rescaled to the top speed, less the
    /// boid's own velocity, weighted; zero when the rule is off or there is no
    /// other boid.
    pub fn calculate(&self, enabled: BehaviourEnabled, self_boid: &Boid, other_boids: &[Boid]) -> (r: Vector2)
        requires
            self_boid.valid(),
            all_valid(other_boids@),
        ensures
            r == (if enabled.has(BehaviourEnabled::SEPERATE) {
                separate_spec(*self_boid, other_boids@)
            } else {
                Vector2 { x: 0, y: 0 }
            }),
            steer_bounded(r),
    {
        if !enabled.contains(BehaviourEnabled::SEPERATE) {
            return Vector2::zero();
        }
        let id = self_boid.id;
        let p = self_boid.position;
        let mut sx: i128 = 0;
        let mut sy: i128 = 0;
        let mut n: usize = 0;
        let mut i: usize = 0;
        while i < other_boids.len()
            invariant
                0 <= i <= other_boids@.len(),
                all_valid(other_boids@),
                in_world_range(p),
                n <= i,
                n == others_count(other_boids@.take(i as int), id),
                (sx as int, sy as int) == repulsion_sum(p, other_boids@.take(i as int), id),
                -(n as int) * BehaviourConsts::SEPERATE_SCALE <= sx <= (n as int) * BehaviourConsts::SEPERATE_SCALE,
                -(n as int) * BehaviourConsts::SEPERATE_SCALE <= sy <= (n as int) * BehaviourConsts::SEPERATE_SCALE,
            decreases other_boids@.len() - i,
        {
            let b = other_boids[i];
            proof {
                assert(other_boids@.take(i as int + 1).drop_last() =~= other_boids@.take(i as int));
                assert(b.valid());
            }
            if b.id != id {
                let (rx, ry) = repulsion_exec(p, b.position);
                sx = sx + rx as i128;
                sy = sy + ry as i128;
                n = n + 1;
            }
            i = i + 1;
        }
        proof {
            assert(other_boids@.take(i as int) =~= other_boids@);
        }
        if n == 0 {
            return Vector2::zero();
        }
        let ghost sum = (sx as int, sy as int);
        while !(-(COORD_MAX as i128) <= sx && sx <= COORD_MAX as i128 && -(COORD_MAX as i128) <= sy && sy
            <= COORD_MAX as i128)
            invariant
                halved_into_range(sx as int, sy as int) == halved_into_range(sum.0, sum.1),
            decreases abs_int(sx as int) + abs_int(sy as int),
        {
            sx = sx / 2;
            sy = sy / 2;
        }
        let m = Vector2::new(sx as i64, sy as i64);
        steer_exec(m, self_boid.velocity, BehaviourConsts::SEPERATE_FACTOR)
    }
}

/// The world is well-formed, within range, and wider and taller than the
/// margins kept at its edges.
pub open spec fn world_ok(w: Region) -> bool {
    &&& w.wf()
    &&& w.is_ordered()
    &&& in_world_range(w.left_up)
    &&& in_world_range(w.right_down)
    &&& w.right_down.x - w.left_up.x > 2 * REFLECT_MARGIN + 2 * MAX_BOID_SPEED
    &&& w.right_down.y - w.left_up.y > 2 * REFLECT_MARGIN + 2 * MAX_BOID_SPEED
}

/// `p` lies within the world or on its edge.
pub open spec fn in_world(p: Vector2, w: Region) -> bool {
    w.left_up.x <= p.x <= w.right_down.x && w.left_up.y <= p.y <= w.right_down.y
}

/// `p` lies within one step at top speed of the world.
pub open spec fn near_world(p: Vector2, w: Region) -> bool {
    w.left_up.x - MAX_BOID_SPEED <= p.x <= w.right_down.x + MAX_BOID_SPEED && w.left_up.y - MAX_BOID_SPEED <= p.y
        <= w.right_down.y + MAX_BOID_SPEED
}

pub struct BoundBehaviour;

impl BoundBehaviour {
    /// A constant push back into the safe rectangle on each axis where the
    /// boid lies outside it; zero when the rule is off.
    pub fn calculate(&self, enabled: BehaviourEnabled, self_boid: &Boid, world: &Region) -> (r: Vector2)
        requires
            self_boid.valid(),
            in_world_range(world.left_up),
            in_world_range(world.right_down),
        ensures
            r == (if enabled.has(BehaviourEnabled::BOUND) {
                bound_spec(*self_boid, *world)
            } else {
                Vector2 { x: 0, y: 0 }
            }),
            steer_bounded(r),
    {
        if !enabled.contains(BehaviourEnabled::BOUND) {
            return Vector2::zero();
        }
        let m = BehaviourConsts::BOUND_MARGIN;
        let f = BehaviourConsts::BOUND_FACTOR;
        let x = if self_boid.position.x < world.left_up.x + m {
            f
        } else if self_boid.position.x > world.right_down.x - m {
            -f
        } else {
            0
        };
        let y = if self_boid.position.y < world.left_up.y + m {
            f
        } else if self_boid.position.y > world.right_down.y - m {
            -f
        } else {
            0
        };
        Vector2::new(x, y)
    }
}

/// Distance from the world's edge at which a bouncing boid turns back.
pub const REFLECT_MARGIN: i64 = 3000;

/// Distance from the world's edge at which a boid passes to the other side.
pub const WRAP_MARGIN: i64 = 2000;

/// The boid after the border rule: with `Reflect`, past a margin from an edge
/// the velocity across that edge changes sign and the position is brought back
/// to the margin; with `GoThrough`, past a margin from an edge the position
/// wraps around: it reappears as far past the margin at the opposite edge as
/// it went past this one.
pub open spec fn border_spec(b: Boid, e: BorderBehaviourE, w: Region) -> Boid {
    match e {
        BorderBehaviourE::Reflect => {
            let m = REFLECT_MARGIN;
            let (px, vx) = if b.position.x > w.right_down.x - m {
                ((w.right_down.x - m) as i64, -b.velocity.x)
            } else if b.position.x < w.left_up.x + m {
                ((w.left_up.x + m) as i64, -b.velocity.x)
            } else {
                (b.position.x, b.velocity.x as int)
            };
            let (py, vy) = if b.position.y > w.right_down.y - m {
                ((w.right_down.y - m) as i64, -b.velocity.y)
            } else if b.position.y < w.left_up.y + m {
                ((w.left_up.y + m) as i64, -b.velocity.y)
            } else {
                (b.position.y, b.velocity.y as int)
            };
            Boid { position: Vector2 { x: px, y: py }, velocity: Vector2 { x: vx as i64, y: vy as i64 }, id: b.id }
        },
        BorderBehaviourE::GoThrough => {
            let m = WRAP_MARGIN;
            let px = if b.position.x > w.right_down.x - m {
                w.left_up.x + m + (b.position.x - (w.right_down.x - m))
            } else if b.position.x < w.left_up.x + m {
                w.right_down.x - m - ((w.left_up.x + m) - b.position.x)
            } else {
                b.position.x as int
            };
            let py = if b.position.y > w.right_down.y - m {
                w.left_up.y + m + (b.position.y - (w.right_down.y - m))
            } else if b.position.y < w.left_up.y + m {
                w.right_down.y - m - ((w.left_up.y + m) - b.position.y)
            } else {
                b.position.y as int
            };
            Boid { position: Vector2 { x: px as i64, y: py as i64 }, velocity: b.velocity, id: b.id }
        },
    }
}

/// The boid after one integration step: the weighted acceleration added to
/// the velocity, the velocity clamped to the top speed, the velocity added to
/// the position, and the border rule applied.
pub open spec fn integrate_spec(b: Boid, acceleration: Vector2, e: BorderBehaviourE, w: Region) -> Boid {
    let v0 = Vector2 {
        x: (b.velocity.x + div_trunc(acceleration.x * MAX_BOID_FORCE, BehaviourConsts::FACTOR_SCALE as int)) as i64,
        y: (b.velocity.y + div_trunc(acceleration.y * MAX_BOID_FORCE, BehaviourConsts::FACTOR_SCALE as int)) as i64,
    };
    let v = v0.limited(MAX_BOID_SPEED as int);
    let moved = Boid {
        position: Vector2 { x: (b.position.x + v.x) as i64, y: (b.position.y + v.y) as i64 },
        velocity: v,
        id: b.id,
    };
    border_spec(moved, e, w)
}

impl Boid {
    /// Applies the border rule `e` of the world `world`.
    pub fn border(&mut self, e: BorderBehaviourE, world: &Region)
        requires
            world_ok(*world),
            near_world(old(self).position, *world),
            old(self).velocity.in_range(),
        ensures
            *final(self) == border_spec(*old(self), e, *world),
            world.left_up.x < final(self).position.x < world.right_down.x,
            world.left_up.y < final(self).position.y < world.right_down.y,
            final(self).velocity.norm_sq() == old(self).velocity.norm_sq(),
    {
        let ghost v0 = self.velocity;
        match e {
            BorderBehaviourE::Reflect => {
                let m = REFLECT_MARGIN;
                if self.position.x > world.right_down.x - m {
                    self.velocity = self.velocity.reflect(Vector2::new(-1, 0));
                    self.position.x = world.right_down.x - m;
                } else if self.position.x < world.left_up.x + m {
                    self.velocity = self.velocity.reflect(Vector2::new(1, 0));
                    self.position.x = world.left_up.x + m;
                }
                if self.position.y > world.right_down.y - m {
                    self.velocity = self.velocity.reflect(Vector2::new(0, 1));
                    self.position.y = world.right_down.y - m;
                } else if self.position.y < world.left_up.y + m {
                    self.velocity = self.velocity.reflect(Vector2::new(0, -1));
                    self.position.y = world.left_up.y + m;
                }
            },
            BorderBehaviourE::GoThrough => {
                let m = WRAP_MARGIN;
                if self.position.x > world.right_down.x - m {
                    self.position.x = world.left_up.x + m + (self.position.x - (world.right_down.x - m));
                } else if self.position.x < world.left_up.x + m {
                    self.position.x = world.right_down.x - m - ((world.left_up.x + m) - self.position.x);
                }
                if self.position.y > world.right_down.y - m {
                    self.position.y = world.left_up.y + m + (self.position.y - (world.right_down.y - m));
                } else if self.position.y < world.left_up.y + m {
                    self.position.y = world.right_down.y - m - ((world.left_up.y + m) - self.position.y);
                }
            },
        }
        proof {
            let v = self.velocity;
            assert(v.norm_sq() == v0.norm_sq()) by (nonlinear_arith)
                requires
                    v.x == v0.x || v.x == -v0.x,
                    v.y == v0.y || v.y == -v0.y,
                    v.norm_sq() == (v.x as int) * (v.x as int) + (v.y as int) * (v.y as int),
                    v0.norm_sq() == (v0.x as int) * (v0.x as int) + (v0.y as int) * (v0.y as int),
            ;
        }
    }

    /// One integration step under `acceleration`, then the border rule.
    pub fn update(&mut self, acceleration: Vector2, e: BorderBehaviourE, world: &Region)
        requires
            old(self).valid(),
            in_world(old(self).position, *world),
            acceleration.in_range(),
            world_ok(*world),
        ensures
            *final(self) == integrate_spec(*old(self), acceleration, e, *world),
            final(self).valid(),
            in_world(final(self).position, *world),
            final(self).velocity.norm_sq() <= MAX_BOID_SPEED * MAX_BOID_SPEED,
    {
        proof {
            assert(-COORD_MAX * MAX_BOID_FORCE <= acceleration.x * MAX_BOID_FORCE <= COORD_MAX * MAX_BOID_FORCE)
                by (nonlinear_arith)
                requires
                    -COORD_MAX <= acceleration.x <= COORD_MAX,
            ;
            assert(-COORD_MAX * MAX_BOID_FORCE <= acceleration.y * MAX_BOID_FORCE <= COORD_MAX * MAX_BOID_FORCE)
                by (nonlinear_arith)
                requires
                    -COORD_MAX <= acceleration.y <= COORD_MAX,
            ;
        }
        let a = acceleration.mul_scalar(MAX_BOID_FORCE).div_scalar(BehaviourConsts::FACTOR_SCALE);
        proof {
            lemma_force_bound(acceleration.x as int * MAX_BOID_FORCE, a.x as int);
            lemma_force_bound(acceleration.y as int * MAX_BOID_FORCE, a.y as int);
        }
        let mut v = self.velocity.add(a);
        v.limit(MAX_BOID_SPEED);
        proof {
            assert(-MAX_BOID_SPEED <= v.x <= MAX_BOID_SPEED) by (nonlinear_arith)
                requires
                    v.x * v.x + v.y * v.y <= MAX_BOID_SPEED * MAX_BOID_SPEED,
            ;
            assert(-MAX_BOID_SPEED <= v.y <= MAX_BOID_SPEED) by (nonlinear_arith)
                requires
                    v.x * v.x + v.y * v.y <= MAX_BOID_SPEED * MAX_BOID_SPEED,
            ;
        }
        self.velocity = v;
        self.position = self.position.add(v);
        self.border(e, world);
    }
}

proof fn lemma_force_bound(p: int, q: int)
    requires
        -COORD_MAX * MAX_BOID_FORCE <= p <= COORD_MAX * MAX_BOID_FORCE,
        q == div_trunc(p, 1000),
    ensures
        -COORD_MAX / 2 - COORD_MAX / 500 <= q <= COORD_MAX / 2 + COORD_MAX / 500,
{
    if p >= 0 {
        vstd::arithmetic::div_mod::lemma_div_is_ordered(p, COORD_MAX * MAX_BOID_FORCE, 1000);
    } else {
        vstd::arithmetic::div_mod::lemma_div_is_ordered(-p, COORD_MAX * MAX_BOID_FORCE, 1000);
    }
}

proof fn lemma_no_others_sums(s: Seq<Boid>, p: Vector2, id: usize)
    requires
        others_count(s, id) == 0,
    ensures
        velocity_sum(s, id) == (0int, 0int),
        position_sum(s, id) == (0int, 0int),
        repulsion_sum(p, s, id) == (0int, 0int),
    decreases s.len(),
{
    if s.len() > 0 {
        lemma_no_others_sums(s.drop_last(), p, id);
    }
}

/// With no boid besides itself among the neighbours, alignment, cohesion and
/// separation each give the zero vector.
pub proof fn lemma_no_neighbours_no_steering(b: Boid, s: Seq<Boid>)
    requires
        others_count(s, b.id) == 0,
    ensures
        align_spec(b, s) == (Vector2 { x: 0, y: 0 }),
        cohesion_spec(b, s) == (Vector2 { x: 0, y: 0 }),
        separate_spec(b, s) == (Vector2 { x: 0, y: 0 }),
{
    lemma_no_others_sums(s, b.position, b.id);
}

/// A boid past the right margin: with `GoThrough` it reappears as far past
/// the left margin, keeping its velocity; with `Reflect` its velocity across the edge changes
/// sign and it is brought back to the right margin.
pub proof fn lemma_border_right_edge(b: Boid, w: Region)
    requires
        world_ok(w),
        b.valid(),
        w.left_up.y + REFLECT_MARGIN <= b.position.y <= w.right_down.y - REFLECT_MARGIN,
    ensures
        b.position.x > w.right_down.x - WRAP_MARGIN ==> ({
            let g = border_spec(b, BorderBehaviourE::GoThrough, w);
            g.position.x == w.left_up.x + WRAP_MARGIN + (b.position.x - (w.right_down.x - WRAP_MARGIN))
                && g.position.y == b.position.y && g.velocity == b.velocity
        }),
        b.position.x > w.right_down.x - REFLECT_MARGIN ==> ({
            let r = border_spec(b, BorderBehaviourE::Reflect, w);
            r.position.x == w.right_down.x - REFLECT_MARGIN && r.velocity.x == -b.velocity.x && r.velocity.y
                == b.velocity.y
        }),
{
}

/// After one integration step the speed is at most the top speed, whatever
/// the position, the border rule and the world.
pub proof fn lemma_speed_capped(b: Boid, acceleration: Vector2, e: BorderBehaviourE, w: Region)
    requires
        in_world_range(b.velocity),
        acceleration.in_range(),
    ensures
        integrate_spec(b, acceleration, e, w).velocity.norm_sq() <= MAX_BOID_SPEED * MAX_BOID_SPEED,
{
    let ax = div_trunc(acceleration.x * MAX_BOID_FORCE, BehaviourConsts::FACTOR_SCALE as int);
    let ay = div_trunc(acceleration.y * MAX_BOID_FORCE, BehaviourConsts::FACTOR_SCALE as int);
    assert(-COORD_MAX * MAX_BOID_FORCE <= acceleration.x * MAX_BOID_FORCE <= COORD_MAX * MAX_BOID_FORCE)
        by (nonlinear_arith)
        requires
            -COORD_MAX <= acceleration.x <= COORD_MAX,
    ;
    assert(-COORD_MAX * MAX_BOID_FORCE <= acceleration.y * MAX_BOID_FORCE <= COORD_MAX * MAX_BOID_FORCE)
        by (nonlinear_arith)
        requires
            -COORD_MAX <= acceleration.y <= COORD_MAX,
    ;
    lemma_force_bound(acceleration.x * MAX_BOID_FORCE, ax);
    lemma_force_bound(acceleration.y * MAX_BOID_FORCE, ay);
    let v0 = Vector2 { x: (b.velocity.x + ax) as i64, y: (b.velocity.y + ay) as i64 };
    crate::vec::lemma_limited_bound(v0, MAX_BOID_SPEED as int);
    let v = v0.limited(MAX_BOID_SPEED as int);
    let r = integrate_spec(b, acceleration, e, w).velocity;
    assert(-MAX_BOID_SPEED <= v.x <= MAX_BOID_SPEED) by (nonlinear_arith)
        requires
            v.x * v.x + v.y * v.y <= MAX_BOID_SPEED * MAX_BOID_SPEED,
    ;
    assert(-MAX_BOID_SPEED <= v.y <= MAX_BOID_SPEED) by (nonlinear_arith)
        requires
            v.x * v.x + v.y * v.y <= MAX_BOID_SPEED * MAX_BOID_SPEED,
    ;
    assert(r.x == v.x || r.x == -v.x);
    assert(r.y == v.y || r.y == -v.y);
    assert(r.norm_sq() == v.norm_sq()) by (nonlinear_arith)
        requires
            r.x == v.x || r.x == -v.x,
            r.y == v.y || r.y == -v.y,
            r.norm_sq() == (r.x as int) * (r.x as int) + (r.y as int) * (r.y as int),
            v.norm_sq() == (v.x as int) * (v.x as int) + (v.y as int) * (v.y as int),
    ;
}

} // verus!
