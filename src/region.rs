use vstd::prelude::*;
use crate::boid::Boid;
use crate::constants::VIEW_DISTANCE;
use crate::vec::{div_trunc, floor_sqrt, lemma_floor_sqrt_unique, u64_sqrt, Vector2, COORD_MAX};

verus! {

/// An axis-aligned rectangle given by its upper-left and lower-right corners.
#[derive(Clone, Copy, Debug, PartialEq, Eq, Structural)]
pub struct Region {
    pub left_up: Vector2,
    pub right_down: Vector2,
    pub width_height: Vector2,
}

impl Region {
    /// The corners lie in range and `width_height` is their difference.
    pub open spec fn wf(self) -> bool {
        &&& self.left_up.in_range()
        &&& self.right_down.in_range()
        &&& self.width_height.x == self.right_down.x - self.left_up.x
        &&& self.width_height.y == self.right_down.y - self.left_up.y
    }

    /// The lower-right corner is not above or left of the upper-left one.
    pub open spec fn is_ordered(self) -> bool {
        self.left_up.x <= self.right_down.x && self.left_up.y <= self.right_down.y
    }

    pub open spec fn degenerate(self) -> bool {
        self.width_height.x == 0 || self.width_height.y == 0
    }

    /// `p` lies strictly inside the region.
    pub open spec fn contains_point(self, p: Vector2) -> bool {
        self.left_up.x < p.x < self.right_down.x && self.left_up.y < p.y < self.right_down.y
    }

    /// Neither region is degenerate and their closed extents overlap.
    pub open spec fn intersects(self, o: Region) -> bool {
        &&& !self.degenerate()
        &&& !o.degenerate()
        &&& self.left_up.x <= o.right_down.x
        &&& self.right_down.x >= o.left_up.x
        &&& self.left_up.y <= o.right_down.y
        &&& self.right_down.y >= o.left_up.y
    }

    pub open spec fn center(self) -> Vector2 {
        Vector2 {
            x: (self.left_up.x + div_trunc(self.width_height.x as int, 2)) as i64,
            y: (self.left_up.y + div_trunc(self.width_height.y as int, 2)) as i64,
        }
    }

    pub open spec fn spec_new(left_up: Vector2, right_down: Vector2) -> Region {
        Region {
            left_up,
            right_down,
            width_height: Vector2 {
                x: (right_down.x - left_up.x) as i64,
                y: (right_down.y - left_up.y) as i64,
            },
        }
    }

    /// The four quadrants around the center: upper-left, upper-right,
    /// lower-left, lower-right.
    pub open spec fn quadrants(self) -> Seq<Region> {
        let c = self.center();
        seq![
            Region::spec_new(self.left_up, c),
            Region::spec_new(Vector2 { x: c.x, y: self.left_up.y }, Vector2 { x: self.right_down.x, y: c.y }),
            Region::spec_new(Vector2 { x: self.left_up.x, y: c.y }, Vector2 { x: c.x, y: self.right_down.y }),
            Region::spec_new(c, self.right_down),
        ]
    }

    /// Half the side of the square seen from a point with view distance `d`:
    /// the square's side is half the diagonal of a square of side `d`.
    pub open spec fn view_half(d: int) -> int {
        floor_sqrt(2 * d * d) / 2 / 2
    }

    /// The square around `center` whose side is `d·√2 / 2`, rounded down to
    /// an even number.
    pub open spec fn view_square(center: Vector2, d: int) -> Region {
        let h = Region::view_half(d);
        Region::spec_new(
            Vector2 { x: (center.x - h) as i64, y: (center.y - h) as i64 },
            Vector2 { x: (center.x + h) as i64, y: (center.y + h) as i64 },
        )
    }

    pub fn rect_from_center_with_distance(center: Vector2, view_distance: i64) -> (r: Region)
        requires
            0 <= view_distance <= COORD_MAX / 2,
            -COORD_MAX + view_distance <= center.x <= COORD_MAX - view_distance,
            -COORD_MAX + view_distance <= center.y <= COORD_MAX - view_distance,
        ensures
            r == Region::view_square(center, view_distance as int),
            r.wf(),
            r.is_ordered(),
    {
        proof {
            assert(0 <= 2 * view_distance * view_distance <= 2 * COORD_MAX * COORD_MAX / 4) by (nonlinear_arith)
                requires
                    0 <= view_distance <= COORD_MAX / 2,
            ;
        }
        let n = 2 * view_distance * view_distance;
        let s = u64_sqrt(n as u64);
        proof {
            lemma_floor_sqrt_unique(n as int, s as int);
            assert(s <= 2 * view_distance) by (nonlinear_arith)
                requires
                    (s as int) * (s as int) <= 2 * view_distance * view_distance,
                    view_distance >= 0,
            ;
        }
        let diagonal = (s as i64) / 2;
        let half = diagonal / 2;
        Region::new(
            Vector2::new(center.x - half, center.y - half),
            Vector2::new(center.x + half, center.y + half),
        )
    }

    /// The square a boid at `center` looks around itself in.
    pub fn rect_from_center(center: Vector2) -> (r: Region)
        requires
            -COORD_MAX + VIEW_DISTANCE <= center.x <= COORD_MAX - VIEW_DISTANCE,
            -COORD_MAX + VIEW_DISTANCE <= center.y <= COORD_MAX - VIEW_DISTANCE,
        ensures
            r == Region::view_square(center, VIEW_DISTANCE as int),
            r.wf(),
            r.is_ordered(),
    {
        Region::rect_from_center_with_distance(center, VIEW_DISTANCE)
    }

    pub fn new(left_up: Vector2, right_down: Vector2) -> (r: Region)
        requires
            left_up.in_range(),
            right_down.in_range(),
        ensures
            r == Region::spec_new(left_up, right_down),
            r.wf(),
    {
        Region {
            left_up,
            right_down,
            width_height: Vector2::new(right_down.x - left_up.x, right_down.y - left_up.y),
        }
    }

    pub fn get_center_point(&self) -> (r: Vector2)
        requires
            self.wf(),
        ensures
            r == self.center(),
            r.in_range() || !self.is_ordered(),
    {
        Vector2::new(self.left_up.x + self.width_height.x / 2, self.left_up.y + self.width_height.y / 2)
    }

    pub fn is_empty(&self) -> (r: bool)
        ensures
            r == self.degenerate(),
    {
        self.width_height.x == 0 || self.width_height.y == 0
    }

    pub fn contains(&self, p: Vector2) -> (r: bool)
        ensures
            r == self.contains_point(p),
    {
        p.x > self.left_up.x && p.x < self.right_down.x && p.y > self.left_up.y && p.y < self.right_down.y
    }

    pub fn contains_boid(&self, boid: &Boid) -> (r: bool)
        ensures
            r == self.contains_point(boid.position),
    {
        self.contains(boid.position)
    }

    pub fn intersect_with(&self, other: &Region) -> (r: bool)
        ensures
            r == self.intersects(*other),
    {
        if self.is_empty() || other.is_empty() {
            return false;
        }
        self.left_up.x <= other.right_down.x && self.right_down.x >= other.left_up.x
            && self.left_up.y <= other.right_down.y && self.right_down.y >= other.left_up.y
    }

    /// Splits the region at its center into four quadrants.
    pub fn sub_into(data: &Region) -> (r: [Region; 4])
        requires
            data.wf(),
            data.is_ordered(),
        ensures
            r@ == data.quadrants(),
            forall|i: int| 0 <= i < 4 ==> (#[trigger] r@[i]).wf() && r@[i].is_ordered(),
    {
        let c = data.get_center_point();
        let r = [
            Region::new(data.left_up, c),
            Region::new(Vector2::new(c.x, data.left_up.y), Vector2::new(data.right_down.x, c.y)),
            Region::new(Vector2::new(data.left_up.x, c.y), Vector2::new(c.x, data.right_down.y)),
            Region::new(c, data.right_down),
        ];
        assert(r@ =~= data.quadrants());
        r
    }
}

/// Every well-formed, ordered region intersects itself exactly when it is not
/// degenerate.
pub proof fn lemma_intersects_self(r: Region)
    requires
        r.wf(),
        r.is_ordered(),
    ensures
        r.intersects(r) <==> !r.degenerate(),
{
}

/// A point strictly inside an ordered region lies in at most one of its
/// quadrants, and in exactly one when it is on neither line through the center.
pub proof fn lemma_quadrants_partition(r: Region, p: Vector2)
    requires
        r.wf(),
        r.is_ordered(),
        r.contains_point(p),
    ensures
        forall|i: int, j: int|
            0 <= i < 4 && 0 <= j < 4 && i != j && (#[trigger] r.quadrants()[i]).contains_point(p)
                ==> !(#[trigger] r.quadrants()[j]).contains_point(p),
        p.x != r.center().x && p.y != r.center().y ==> exists|i: int|
            0 <= i < 4 && (#[trigger] r.quadrants()[i]).contains_point(p),
{
    let q = r.quadrants();
    let c = r.center();
    if p.x != c.x && p.y != c.y {
        if p.x < c.x && p.y < c.y {
            assert(q[0].contains_point(p));
        } else if p.x > c.x && p.y < c.y {
            assert(q[1].contains_point(p));
        } else if p.x < c.x && p.y > c.y {
            assert(q[2].contains_point(p));
        } else {
            assert(q[3].contains_point(p));
        }
    }
}

} // verus!
