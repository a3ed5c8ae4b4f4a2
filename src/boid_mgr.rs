use vstd::prelude::*;
use crate::behaviour::{
    REFLECT_MARGIN,
    abs_int,
    align_spec, all_valid, bound_spec, cohesion_spec, in_world, integrate_spec, separate_spec, world_ok,
    AlignBehaviour, BehaviourEnabled, BorderBehaviourE, BoundBehaviour, CohesionBehaviour,
    SeperateBehaviour,
};
use crate::boid::{in_world_range, Boid};
use crate::constants::{IdIterator, MAX_BOID_SPEED, SPAWN_SPEED, UPDATE_EVERY_TICK, VIEW_DISTANCE, WORLD_MAX};
use vstd::multiset::Multiset;
use crate::quadtree::{
    in_region, kept, lemma_covers_off_grid, lemma_inserted_contents, on_grid, QuadTree, MAX_DEPTH,
};
use crate::region::Region;
use crate::vec::{div_trunc, Vector2};

verus! {

broadcast use {vstd::multiset::group_multiset_axioms, vstd::seq_lib::to_multiset_contains};

/// The sum of the active steering rules for `b` among `s` in `world`.
pub open spec fn acceleration_spec(enabled: BehaviourEnabled, b: Boid, s: Seq<Boid>, world: Region) -> Vector2 {
    let zero = Vector2 { x: 0, y: 0 };
    let a = if enabled.has(BehaviourEnabled::ALLIGN) { align_spec(b, s) } else { zero };
    let c = if enabled.has(BehaviourEnabled::COHESION) { cohesion_spec(b, s) } else { zero };
    let p = if enabled.has(BehaviourEnabled::SEPERATE) { separate_spec(b, s) } else { zero };
    let o = if enabled.has(BehaviourEnabled::BOUND) { bound_spec(b, world) } else { zero };
    Vector2 { x: (a.x + p.x + c.x + o.x) as i64, y: (a.y + p.y + c.y + o.y) as i64 }
}

/// The neighbours of `b` in `index`: the stored boids strictly inside the
/// square it looks around itself in; none when the index does not cover its
/// position, so that a boid left out of the index steers alone.
pub open spec fn neighbours_spec(index: QuadTree, b: Boid) -> Seq<Boid> {
    if index.covers(b.position) {
        in_region(index.contents(), Region::view_square(b.position, VIEW_DISTANCE as int))
    } else {
        Seq::empty()
    }
}

/// Every boid of `s` lies within the world or on its edge.
pub open spec fn all_in_world(s: Seq<Boid>, w: Region) -> bool {
    forall|j: int| 0 <= j < s.len() ==> in_world((#[trigger] s[j]).position, w)
}

/// `b` after one tick among the neighbours that `index` gives it.
pub open spec fn step_spec(
    index: QuadTree,
    enabled: BehaviourEnabled,
    e: BorderBehaviourE,
    world: Region,
    b: Boid,
) -> Boid {
    integrate_spec(b, acceleration_spec(enabled, b, neighbours_spec(index, b), world), e, world)
}

/// Owns the boids and the spatial index over them, and advances them tick by
/// tick.
pub struct BoidManager {
    pub boids: Vec<Boid>,
    pub quad_tree: QuadTree,
    pub world: Region,
    pub update_tick: u8,
    pub ids: IdIterator,
}

proof fn lemma_in_region_valid(s: Seq<Boid>, q: Region)
    requires
        all_valid(s),
    ensures
        all_valid(in_region(s, q)),
    decreases s.len(),
{
    reveal(Seq::filter);
    if s.len() > 0 {
        let t = s.drop_last();
        assert(all_valid(t)) by {
            assert forall|j: int| 0 <= j < t.len() implies (#[trigger] t[j]).valid() by {
                assert(t[j] == s[j]);
            }
        }
        lemma_in_region_valid(t, q);
        assert(s.last().valid()) by {
            assert(s.last() == s[s.len() - 1]);
        }
    }
}

/// Within the world, never on its lower-right edge, with the spawn velocity
/// of some draw of both components in `[-1000, 1000]`, so moving at the spawn
/// speed to within rounding.
pub open spec fn spawned(b: Boid, w: Region) -> bool {
    &&& w.left_up.x <= b.position.x < w.right_down.x
    &&& w.left_up.y <= b.position.y < w.right_down.y
    &&& exists|d: Vector2|
        -1000 <= d.x <= 1000 && -1000 <= d.y <= 1000 && b.velocity == #[trigger] spawn_heading_spec(d)
    &&& (SPAWN_SPEED - 5) * (SPAWN_SPEED - 5) <= b.velocity.norm_sq() <= SPAWN_SPEED * SPAWN_SPEED
}

/// Why a manager could not be built.
#[derive(Clone, Copy, Debug, PartialEq, Eq, Structural)]
pub enum ConfigError {
    /// The world is out of range, inverted, inconsistent, or too small for the
    /// margins kept at its edges.
    BadWorld,
}

/// The spawn velocity for the draw `d`: `d` rescaled to the spawn speed,
/// after scaling a short draw up by a thousand so that rounding stays small;
/// along the x axis when `d` is zero.
pub open spec fn spawn_heading_spec(d: Vector2) -> Vector2 {
    if d.x == 0 && d.y == 0 {
        Vector2 { x: SPAWN_SPEED, y: 0 }
    } else if d.norm_sq() < 1000000 {
        (Vector2 { x: (d.x * 1000) as i64, y: (d.y * 1000) as i64 }).scaled_to(SPAWN_SPEED as int)
    } else {
        d.scaled_to(SPAWN_SPEED as int)
    }
}

/// A velocity at the spawn speed in the direction of the draw `d`, or along
/// the x axis when `d` is zero.
pub fn spawn_heading(d: Vector2) -> (r: Vector2)
    requires
        -1000 <= d.x <= 1000,
        -1000 <= d.y <= 1000,
    ensures
        r == spawn_heading_spec(d),
        (SPAWN_SPEED - 5) * (SPAWN_SPEED - 5) <= r.norm_sq() <= SPAWN_SPEED * SPAWN_SPEED,
        in_world_range(r),
{
    if d.x == 0 && d.y == 0 {
        return Vector2::new(SPAWN_SPEED, 0);
    }
    let mut c = d;
    if c.length_sq() < 1000000 {
        c = c.mul_scalar(1000);
        proof {
            assert(c.norm_sq() == 1000000 * d.norm_sq()) by (nonlinear_arith)
                requires
                    c.x == d.x * 1000,
                    c.y == d.y * 1000,
            ;
            assert(d.norm_sq() >= 1) by (nonlinear_arith)
                requires
                    d.x != 0 || d.y != 0,
            ;
        }
    }
    let ghost before = c;
    let m = c.ceil_magnitude();
    proof {
        assert(m >= 1000) by (nonlinear_arith)
            requires
                before.norm_sq() <= (m as int) * (m as int),
                before.norm_sq() >= 1000000,
                m >= 0,
        ;
    }
    c.set_magnitude(SPAWN_SPEED);
    proof {
        lemma_spawn_speed(before.x as int, before.y as int, m as int, c.x as int, c.y as int);
        assert(-SPAWN_SPEED <= c.x <= SPAWN_SPEED) by (nonlinear_arith)
            requires
                c.x * c.x + c.y * c.y <= SPAWN_SPEED * SPAWN_SPEED,
        ;
        assert(-SPAWN_SPEED <= c.y <= SPAWN_SPEED) by (nonlinear_arith)
            requires
                c.x * c.x + c.y * c.y <= SPAWN_SPEED * SPAWN_SPEED,
        ;
    }
    c
}

/// A truncated quotient misses the exact one by less than one.
proof fn lemma_div_trunc_upper(v: int, c: int, q: int)
    requires
        c > 0,
        q == div_trunc(v, c),
    ensures
        abs_int(v) < (abs_int(q) + 1) * c,
{
    if v >= 0 {
        vstd::arithmetic::div_mod::lemma_fundamental_div_mod(v, c);
        vstd::arithmetic::div_mod::lemma_div_pos_is_pos(v, c);
        assert(v < (q + 1) * c) by (nonlinear_arith)
            requires
                v == c * (v / c) + v % c,
                v % c < c,
                q == v / c,
        ;
    } else {
        vstd::arithmetic::div_mod::lemma_fundamental_div_mod(-v, c);
        vstd::arithmetic::div_mod::lemma_div_pos_is_pos(-v, c);
        assert(-v < ((-v) / c + 1) * c) by (nonlinear_arith)
            requires
                -v == c * ((-v) / c) + (-v) % c,
                (-v) % c < c,
        ;
    }
}

/// Rescaling a vector of length at least 1000 to the spawn speed loses at
/// most a few units of length.
proof fn lemma_spawn_speed(x: int, y: int, c: int, nx: int, ny: int)
    requires
        c >= 1000,
        x * x + y * y <= c * c,
        (c - 1) * (c - 1) <= x * x + y * y,
        nx == div_trunc(x * SPAWN_SPEED, c),
        ny == div_trunc(y * SPAWN_SPEED, c),
        nx * nx + ny * ny <= SPAWN_SPEED * SPAWN_SPEED,
    ensures
        (SPAWN_SPEED - 5) * (SPAWN_SPEED - 5) <= nx * nx + ny * ny,
{
    let m = SPAWN_SPEED as int;
    lemma_div_trunc_upper(x * m, c, nx);
    lemma_div_trunc_upper(y * m, c, ny);
    let a = abs_int(x);
    let b = abs_int(y);
    let p = abs_int(nx);
    let q = abs_int(ny);
    assert(abs_int(x * m) == a * m && abs_int(y * m) == b * m) by (nonlinear_arith)
        requires
            m > 0,
            a == abs_int(x),
            b == abs_int(y),
    ;
    assert(a * a == x * x && b * b == y * y && p * p == nx * nx && q * q == ny * ny) by (nonlinear_arith)
        requires
            a == abs_int(x),
            b == abs_int(y),
            p == abs_int(nx),
            q == abs_int(ny),
    ;
    assert((p + 1) * (p + 1) * (c * c) > (a * m) * (a * m)) by (nonlinear_arith)
        requires
            a * m < (p + 1) * c,
            a >= 0,
            m > 0,
            p >= 0,
            c > 0,
    ;
    assert((q + 1) * (q + 1) * (c * c) > (b * m) * (b * m)) by (nonlinear_arith)
        requires
            b * m < (q + 1) * c,
            b >= 0,
            m > 0,
            q >= 0,
            c > 0,
    ;
    let big = (p + 1) * (p + 1) + (q + 1) * (q + 1);
    assert(big * (c * c) == (p + 1) * (p + 1) * (c * c) + (q + 1) * (q + 1) * (c * c)) by (nonlinear_arith)
        requires
            big == (p + 1) * (p + 1) + (q + 1) * (q + 1),
    ;
    assert((a * m) * (a * m) + (b * m) * (b * m) == (a * a + b * b) * (m * m)) by (nonlinear_arith);
    assert((c - 1) * (c - 1) * (m * m) <= (a * a + b * b) * (m * m)) by (nonlinear_arith)
        requires
            (c - 1) * (c - 1) <= a * a + b * b,
    ;
    assert(big * (c * c) > (c - 1) * (c - 1) * (m * m));
    assert(big * c > (c - 2) * (m * m)) by (nonlinear_arith)
        requires
            big * (c * c) > (c - 1) * (c - 1) * (m * m),
            c >= 1000,
    ;
    assert(big > m * m - 8000) by (nonlinear_arith)
        requires
            big * c > (c - 2) * (m * m),
            c >= 1000,
            m == 2000,
    ;
    assert(p <= m && q <= m) by (nonlinear_arith)
        requires
            p * p + q * q <= m * m,
            p >= 0,
            q >= 0,
            m > 0,
    ;
    assert(p * p + q * q >= (m - 5) * (m - 5)) by (nonlinear_arith)
        requires
            big == (p + 1) * (p + 1) + (q + 1) * (q + 1),
            big > m * m - 8000,
            p <= m,
            q <= m,
            m == 2000,
    ;
}

impl BoidManager {
    /// The world is usable, the index is well-formed over the world and holds
    /// only boids that are in range, the boids are in range, and the tick
    /// counter stays below the rebuild cadence.
    pub open spec fn wf(self) -> bool {
        &&& world_ok(self.world)
        &&& self.quad_tree.wf()
        &&& self.quad_tree.root.boundary() == self.world
        &&& all_valid(self.quad_tree.contents())
        &&& all_valid(self.boids@)
        &&& all_in_world(self.boids@, self.world)
        &&& self.update_tick < UPDATE_EVERY_TICK
        &&& self.ids.wf()
    }

    /// Every boid's identity lies below the counter, so the identities handed
    /// out next are new.
    pub open spec fn ids_fresh(self) -> bool {
        forall|i: int| 0 <= i < self.boids@.len() ==> (#[trigger] self.boids@[i]).id < self.ids.counter()
    }

    /// A manager over `starting_region`, or `BadWorld` when the world does not
    /// meet `world_ok`.
    pub fn try_new(starting_region: Region) -> (r: Result<BoidManager, ConfigError>)
        ensures
            r is Ok <==> world_ok(starting_region),
            r is Ok ==> ({
                let m = r->Ok_0;
                &&& m.wf()
                &&& m.ids_fresh()
                &&& m.world == starting_region
                &&& m.boids@.len() == 0
                &&& m.update_tick == 0
            }),
    {
        let lu = starting_region.left_up;
        let rd = starting_region.right_down;
        let wh = starting_region.width_height;
        let in_range = -WORLD_MAX <= lu.x && lu.x <= WORLD_MAX && -WORLD_MAX <= lu.y && lu.y <= WORLD_MAX
            && -WORLD_MAX <= rd.x && rd.x <= WORLD_MAX && -WORLD_MAX <= rd.y && rd.y <= WORLD_MAX;
        if !in_range {
            return Err(ConfigError::BadWorld);
        }
        let least = 2 * REFLECT_MARGIN + 2 * MAX_BOID_SPEED;
        if wh.x != rd.x - lu.x || wh.y != rd.y - lu.y || rd.x - lu.x <= least || rd.y - lu.y <= least {
            return Err(ConfigError::BadWorld);
        }
        Ok(BoidManager::new(starting_region))
    }

    pub fn new(starting_region: Region) -> (r: BoidManager)
        requires
            world_ok(starting_region),
        ensures
            r.wf(),
            r.ids_fresh(),
            r.world == starting_region,
            r.boids@.len() == 0,
            r.quad_tree.contents().len() == 0,
            r.update_tick == 0,
    {
        BoidManager {
            boids: Vec::new(),
            quad_tree: QuadTree::new(starting_region),
            world: starting_region,
            update_tick: 0,
            ids: IdIterator::new(),
        }
    }

    /// Adds `amount` boids at random positions in the world, each heading in a
    /// random direction at the spawn speed (to within rounding), with
    /// identities drawn from the counter in order: consecutive ones, from the
    /// counter's value, as long as the counter does not run out.
    pub fn add_boid(&mut self, amount: u64)
        requires
            old(self).wf(),
            old(self).boids@.len() + amount <= usize::MAX,
        ensures
            final(self).wf(),
            final(self).world == old(self).world,
            final(self).quad_tree == old(self).quad_tree,
            final(self).update_tick == old(self).update_tick,
            final(self).boids@.len() == old(self).boids@.len() + amount,
            forall|i: int| 0 <= i < old(self).boids@.len() ==> final(self).boids@[i] == old(self).boids@[i],
            forall|i: int|
                old(self).boids@.len() <= i < final(self).boids@.len() ==> spawned(
                    #[trigger] final(self).boids@[i],
                    old(self).world,
                ),
            old(self).ids.counter() + amount < usize::MAX - 1 ==> forall|i: int|
                old(self).boids@.len() <= i < final(self).boids@.len() ==> (#[trigger] final(self).boids@[i]).id
                    == old(self).ids.counter() + (i - old(self).boids@.len()),
            old(self).ids_fresh() && old(self).ids.counter() + amount < usize::MAX - 1 ==> final(self).ids_fresh(),
            old(self).ids_fresh() && old(self).ids.counter() + amount < usize::MAX - 1 ==> forall|i: int, j: int|
                old(self).boids@.len() <= i < final(self).boids@.len() && 0 <= j < final(self).boids@.len() && i != j
                    ==> #[trigger] final(self).boids@[i].id != #[trigger] final(self).boids@[j].id,
    {
        let mut k: u64 = 0;
        while k < amount
            invariant
                self.wf(),
                self.world == old(self).world,
                self.quad_tree == old(self).quad_tree,
                self.update_tick == old(self).update_tick,
                k <= amount,
                self.boids@.len() == old(self).boids@.len() + k,
                old(self).boids@.len() + amount <= usize::MAX,
                forall|i: int| 0 <= i < old(self).boids@.len() ==> self.boids@[i] == old(self).boids@[i],
                forall|i: int|
                    old(self).boids@.len() <= i < self.boids@.len() ==> spawned(#[trigger] self.boids@[i], self.world),
                old(self).ids.counter() + amount < usize::MAX - 1 ==> self.ids.counter() == old(self).ids.counter()
                    + k,
                old(self).ids.counter() + amount < usize::MAX - 1 ==> forall|i: int|
                    old(self).boids@.len() <= i < self.boids@.len() ==> (#[trigger] self.boids@[i]).id
                        == old(self).ids.counter() + (i - old(self).boids@.len()),
                old(self).ids_fresh() ==> forall|i: int|
                    0 <= i < old(self).boids@.len() ==> (#[trigger] self.boids@[i]).id < old(self).ids.counter(),
            decreases amount - k,
        {
            let draw = Vector2::random(-1000, 1001);
            let c = spawn_heading(draw);
            let position = Vector2::random_from_vec(
                Vector2::new(self.world.left_up.x, self.world.right_down.x),
                Vector2::new(self.world.left_up.y, self.world.right_down.y),
            );
            let id = self.ids.get_next();
            let b = Boid::new(position, c, id);
            let ghost prev = self.boids@;
            self.boids.push(b);
            proof {
                assert forall|i: int| 0 <= i < old(self).boids@.len() implies self.boids@[i] == prev[i] by {}
                assert forall|i: int| 0 <= i < self.boids@.len() implies (#[trigger] self.boids@[i]).valid() && in_world(
                    self.boids@[i].position,
                    self.world,
                ) by {
                    if i < prev.len() {
                        assert(self.boids@[i] == prev[i]);
                    }
                }
            }
            k = k + 1;
        }
    }

    /// Replaces the boids by `amount` fresh ones.
    pub fn spawn_boid(&mut self, amount: u64)
        requires
            old(self).wf(),
            amount <= usize::MAX,
        ensures
            final(self).wf(),
            final(self).world == old(self).world,
            final(self).quad_tree == old(self).quad_tree,
            final(self).update_tick == old(self).update_tick,
            final(self).boids@.len() == amount,
            forall|i: int| 0 <= i < amount ==> spawned(#[trigger] final(self).boids@[i], old(self).world),
            old(self).ids.counter() + amount < usize::MAX - 1 ==> forall|i: int|
                0 <= i < amount ==> (#[trigger] final(self).boids@[i]).id == old(self).ids.counter() + i,
            old(self).ids.counter() + amount < usize::MAX - 1 ==> final(self).ids_fresh(),
            old(self).ids.counter() + amount < usize::MAX - 1 ==> forall|i: int, j: int|
                0 <= i < amount && 0 <= j < amount && i != j ==> #[trigger] final(self).boids@[i].id
                    != #[trigger] final(self).boids@[j].id,
    {
        self.boids = Vec::new();
        self.add_boid(amount);
    }

    pub fn remove_all_boids(&mut self)
        requires
            old(self).wf(),
        ensures
            final(self).wf(),
            final(self).world == old(self).world,
            final(self).quad_tree == old(self).quad_tree,
            final(self).update_tick == old(self).update_tick,
            final(self).boids@.len() == 0,
            final(self).ids_fresh(),
    {
        self.boids = Vec::new();
    }

    /// Builds a fresh index over the world holding every current boid whose
    /// position it covers; a boid strictly inside the world and on none of
    /// the index's dividing lines is always among them.
    pub fn update_boids_in_quad_tree(&mut self)
        requires
            old(self).wf(),
        ensures
            final(self).wf(),
            final(self).world == old(self).world,
            final(self).boids == old(self).boids,
            final(self).ids == old(self).ids,
            final(self).update_tick == old(self).update_tick,
            final(self).quad_tree.max_depth == MAX_DEPTH,
            forall|a: Boid| #[trigger] final(self).quad_tree.contents().contains(a) ==> old(self).boids@.contains(a),
            forall|j: int|
                0 <= j < old(self).boids@.len() && old(self).world.contains_point(
                    (#[trigger] old(self).boids@[j]).position,
                ) && !on_grid(old(self).world, old(self).boids@[j].position, MAX_DEPTH as nat)
                    ==> final(self).quad_tree.contents().contains(old(self).boids@[j]),
    {
        let mut tree = QuadTree::new(self.world);
        let mut i: usize = 0;
        while i < self.boids.len()
            invariant
                self.wf(),
                self.world == old(self).world,
                self.boids == old(self).boids,
                self.update_tick == old(self).update_tick,
                0 <= i <= self.boids@.len(),
                tree.wf(),
                tree.root.boundary() == self.world,
                tree.contents().len() <= i,
                tree.max_depth == MAX_DEPTH,
                forall|a: Boid| #[trigger] tree.contents().contains(a) ==> self.boids@.contains(a),
                forall|j: int|
                    0 <= j < i && self.world.contains_point((#[trigger] self.boids@[j]).position) && !on_grid(
                        self.world,
                        self.boids@[j].position,
                        MAX_DEPTH as nat,
                    ) ==> tree.contents().contains(self.boids@[j]),
            decreases self.boids@.len() - i,
        {
            let b = self.boids[i];
            let ghost before = tree;
            let res = tree.insert(b);
            proof {
                lemma_inserted_contents(tree, before, b, res is Ok);
                assert(self.boids@[i as int] == b);
                let mo: Multiset<Boid> = before.contents().to_multiset();
                assert forall|j: int|
                    0 <= j < i + 1 && self.world.contains_point((#[trigger] self.boids@[j]).position) && !on_grid(
                        self.world,
                        self.boids@[j].position,
                        MAX_DEPTH as nat,
                    ) implies tree.contents().contains(self.boids@[j]) by {
                    let a = self.boids@[j];
                    lemma_covers_off_grid(tree.root, tree.capacity as nat, tree.max_depth as nat, a.position);
                    if j < i {
                        assert(before.contents().contains(a));
                        assert(mo.count(a) > 0);
                        assert(kept(mo, tree.root).count(a) > 0);
                    }
                    assert(tree.contents().to_multiset().count(a) > 0);
                }
            }
            i = i + 1;
        }
        proof {
            assert forall|j: int| 0 <= j < tree.contents().len() implies (#[trigger] tree.contents()[j]).valid() by {
                let a = tree.contents()[j];
                assert(tree.contents().contains(a));
                let k = choose|k: int| 0 <= k < self.boids@.len() && self.boids@[k] == a;
                assert(self.boids@[k].valid());
            }
        }
        self.quad_tree = tree;
    }

    /// The sum of the active steering rules for `b` among `neighbours`.
    pub fn acceleration(&self, enabled: BehaviourEnabled, b: &Boid, neighbours: &[Boid]) -> (r: Vector2)
        requires
            self.wf(),
            b.valid(),
            all_valid(neighbours@),
        ensures
            r == acceleration_spec(enabled, *b, neighbours@, self.world),
            r.in_range(),
    {
        let a = AlignBehaviour.calculate(enabled, b, neighbours);
        let p = SeperateBehaviour.calculate(enabled, b, neighbours);
        let c = CohesionBehaviour.calculate(enabled, b, neighbours);
        let o = BoundBehaviour.calculate(enabled, b, &self.world);
        a.add(p).add(c).add(o)
    }

    /// One tick: on the first tick of each cadence the index is rebuilt from
    /// the current boids; then every boid steers by the neighbours the index
    /// gives it and is integrated, all from the same snapshot, and the new
    /// boids replace the old ones together.
    pub fn update(&mut self, enabled: BehaviourEnabled, e: BorderBehaviourE)
        requires
            old(self).wf(),
        ensures
            final(self).wf(),
            final(self).world == old(self).world,
            final(self).update_tick == (old(self).update_tick + 1) % (UPDATE_EVERY_TICK as int),
            old(self).update_tick != 0 ==> final(self).quad_tree == old(self).quad_tree,
            old(self).update_tick == 0 ==> forall|a: Boid|
                #[trigger] final(self).quad_tree.contents().contains(a) ==> old(self).boids@.contains(a),
            old(self).update_tick == 0 ==> forall|j: int|
                0 <= j < old(self).boids@.len() && old(self).world.contains_point(
                    (#[trigger] old(self).boids@[j]).position,
                ) && !on_grid(old(self).world, old(self).boids@[j].position, MAX_DEPTH as nat)
                    ==> final(self).quad_tree.contents().contains(old(self).boids@[j]),
            final(self).boids@.len() == old(self).boids@.len(),
            final(self).ids == old(self).ids,
            old(self).ids_fresh() ==> final(self).ids_fresh(),
            forall|i: int|
                0 <= i < old(self).boids@.len() ==> (#[trigger] final(self).boids@[i]).id == old(self).boids@[i].id,
            forall|i: int|
                0 <= i < old(self).boids@.len() ==> (#[trigger] final(self).boids@[i]).velocity.norm_sq()
                    <= MAX_BOID_SPEED * MAX_BOID_SPEED,
            forall|i: int|
                0 <= i < old(self).boids@.len() ==> #[trigger] final(self).boids@[i] == step_spec(
                    final(self).quad_tree,
                    enabled,
                    e,
                    old(self).world,
                    old(self).boids@[i],
                ),
    {
        if self.update_tick == 0 {
            self.update_boids_in_quad_tree();
        }
        let mut next: Vec<Boid> = Vec::new();
        let mut i: usize = 0;
        while i < self.boids.len()
            invariant
                self.wf(),
                self.world == old(self).world,
                self.boids == old(self).boids,
                0 <= i <= self.boids@.len(),
                next@.len() == i,
                all_valid(next@),
                all_in_world(next@, self.world),
                self.ids == old(self).ids,
                forall|j: int| 0 <= j < i ==> (#[trigger] next@[j]).id == self.boids@[j].id,
                forall|j: int| 0 <= j < i ==> (#[trigger] next@[j]).velocity.norm_sq() <= MAX_BOID_SPEED * MAX_BOID_SPEED,
                forall|j: int|
                    0 <= j < i ==> #[trigger] next@[j] == step_spec(
                        self.quad_tree,
                        enabled,
                        e,
                        self.world,
                        self.boids@[j],
                    ),
            decreases self.boids@.len() - i,
        {
            let b = self.boids[i];
            proof {
                assert(b.valid());
            }
            let view = Region::rect_from_center(b.position);
            let mut found: Vec<Boid> = Vec::new();
            if self.quad_tree.covers_point(b.position) {
                self.quad_tree.get_all_boids_in_boundry(&view, &mut found);
                proof {
                    assert(found@ =~= in_region(self.quad_tree.contents(), view));
                    lemma_in_region_valid(self.quad_tree.contents(), view);
                }
            }
            proof {
                assert(found@ =~= neighbours_spec(self.quad_tree, b));
                assert(in_world(b.position, self.world));
            }
            let acc = self.acceleration(enabled, &b, found.as_slice());
            let mut nb = b;
            nb.update(acc, e, &self.world);
            let ghost prev = next@;
            next.push(nb);
            proof {
                assert forall|j: int| 0 <= j < next@.len() implies (#[trigger] next@[j]).valid() && in_world(
                    next@[j].position,
                    self.world,
                ) && next@[j].id == self.boids@[j].id && next@[j].velocity.norm_sq() <= MAX_BOID_SPEED
                    * MAX_BOID_SPEED by {
                    if j < i {
                        assert(next@[j] == prev[j]);
                    }
                }
                assert forall|j: int| 0 <= j < i + 1 implies #[trigger] next@[j] == step_spec(
                    self.quad_tree,
                    enabled,
                    e,
                    self.world,
                    self.boids@[j],
                ) by {
                    if j < i {
                        assert(next@[j] == prev[j]);
                    }
                }
            }
            i = i + 1;
        }
        self.boids = next;
        self.update_tick = (self.update_tick + 1) % UPDATE_EVERY_TICK;
    }
}

} // verus!
