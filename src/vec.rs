use vstd::prelude::*;
use num::integer::Roots;
use rand::Rng;
use crate::constants::SUBPIXELS;

verus! {

/// Largest absolute value a coordinate may take in the operations that square it.
pub const COORD_MAX: i64 = 1073741824;

/// Division rounding toward zero, as Rust's `/` on signed integers does.
pub open spec fn div_trunc(a: int, b: int) -> int {
    if b < 0 {
        if a >= 0 {
            -(a / (-b))
        } else {
            (-a) / (-b)
        }
    } else if a >= 0 {
        a / b
    } else {
        -((-a) / b)
    }
}

/// `r` is the integer square root of `n`, rounded down.
pub open spec fn is_floor_sqrt(n: int, r: int) -> bool {
    0 <= r && r * r <= n && n < (r + 1) * (r + 1)
}

/// The integer square root of `n`, rounded down.
pub open spec fn floor_sqrt(n: int) -> int {
    choose|r: int| is_floor_sqrt(n, r)
}

/// The integer square root of `n`, rounded up.
pub open spec fn ceil_sqrt(n: int) -> int {
    if floor_sqrt(n) * floor_sqrt(n) == n {
        floor_sqrt(n)
    } else {
        floor_sqrt(n) + 1
    }
}

/// The rounded-down square root is the only `r` with `r² ≤ n < (r+1)²`.
pub proof fn lemma_floor_sqrt_unique(n: int, r: int)
    requires
        is_floor_sqrt(n, r),
    ensures
        floor_sqrt(n) == r,
{
    let s = floor_sqrt(n);
    assert(is_floor_sqrt(n, s));
    if s < r {
        assert((s + 1) * (s + 1) <= r * r) by (nonlinear_arith)
            requires
                0 <= s,
                s + 1 <= r,
        ;
    } else if r < s {
        assert((r + 1) * (r + 1) <= s * s) by (nonlinear_arith)
            requires
                0 <= r,
                r + 1 <= s,
        ;
    }
}

/// `a / b` rounded toward zero.
pub fn quotient(a: i64, b: i64) -> (r: i64)
    requires
        b != 0,
        !(a == i64::MIN && b == -1),
    ensures
        r == div_trunc(a as int, b as int),
{
    if b > 0 {
        a / b
    } else if b == i64::MIN {
        if a == i64::MIN {
            1
        } else {
            0
        }
    } else if b == -1 {
        -a
    } else {
        let p = a / (-b);
        proof {
            if a >= 0 {
                vstd::arithmetic::div_mod::lemma_div_pos_is_pos(a as int, -b as int);
                vstd::arithmetic::div_mod::lemma_div_is_ordered_by_denominator(a as int, 1, -b as int);
            } else {
                vstd::arithmetic::div_mod::lemma_div_pos_is_pos(-a as int, -b as int);
                vstd::arithmetic::div_mod::lemma_div_is_ordered_by_denominator(-a as int, 2, -b as int);
            }
        }
        -p
    }
}

/// Relies on num::integer::Roots::sqrt for u64: the truncated square root,
/// `r² ≤ n < (r+1)²`.
#[verifier::external_body]
pub(crate) fn u64_sqrt(n: u64) -> (r: u64)
    ensures
        (r as int) * (r as int) <= n as int,
        (n as int) < (r as int + 1) * (r as int + 1),
{
    n.sqrt()
}

/// Relies on rand::Rng::gen_range (rand 0.8) on the thread-local generator:
/// a value drawn from `[low, high)`; it panics when that range is empty.
#[verifier::external_body]
pub(crate) fn random_in(low: i64, high: i64) -> (r: i64)
    requires
        low < high,
    ensures
        low <= r < high,
{
    rand::thread_rng().gen_range(low..high)
}

/// A two-dimensional vector of integer coordinates.
#[derive(Clone, Copy, Debug, PartialEq, Eq, Structural)]
pub struct Vector2 {
    pub x: i64,
    pub y: i64,
}

impl Vector2 {
    /// Both coordinates lie within `[-COORD_MAX, COORD_MAX]`.
    pub open spec fn in_range(self) -> bool {
        -COORD_MAX <= self.x <= COORD_MAX && -COORD_MAX <= self.y <= COORD_MAX
    }

    /// The squared Euclidean length.
    pub open spec fn norm_sq(self) -> int {
        (self.x as int) * (self.x as int) + (self.y as int) * (self.y as int)
    }

    pub fn new(x: i64, y: i64) -> (r: Vector2)
        ensures
            r.x == x,
            r.y == y,
    {
        Vector2 { x, y }
    }

    pub fn zero() -> (r: Vector2)
        ensures
            r.x == 0,
            r.y == 0,
    {
        Vector2 { x: 0, y: 0 }
    }

    /// A vector whose coordinates are each drawn from `[start, end)`.
    pub fn random(start: i64, end: i64) -> (r: Vector2)
        requires
            start < end,
        ensures
            start <= r.x < end,
            start <= r.y < end,
    {
        Vector2 { x: random_in(start, end), y: random_in(start, end) }
    }

    /// A vector whose `x` is drawn from `[start.x, start.y)` and whose `y` is
    /// drawn from `[end.x, end.y)`.
    pub fn random_from_vec(start: Vector2, end: Vector2) -> (r: Vector2)
        requires
            start.x < start.y,
            end.x < end.y,
        ensures
            start.x <= r.x < start.y,
            end.x <= r.y < end.y,
    {
        Vector2 { x: random_in(start.x, start.y), y: random_in(end.x, end.y) }
    }

    /// Component-wise sum.
    pub fn add(self, o: Vector2) -> (r: Vector2)
        requires
            i64::MIN <= self.x + o.x <= i64::MAX,
            i64::MIN <= self.y + o.y <= i64::MAX,
        ensures
            r.x == self.x + o.x,
            r.y == self.y + o.y,
    {
        Vector2 { x: self.x + o.x, y: self.y + o.y }
    }

    /// Component-wise difference.
    pub fn sub(self, o: Vector2) -> (r: Vector2)
        requires
            i64::MIN <= self.x - o.x <= i64::MAX,
            i64::MIN <= self.y - o.y <= i64::MAX,
        ensures
            r.x == self.x - o.x,
            r.y == self.y - o.y,
    {
        Vector2 { x: self.x - o.x, y: self.y - o.y }
    }

    /// Component-wise product.
    pub fn mul(self, o: Vector2) -> (r: Vector2)
        requires
            i64::MIN <= self.x * o.x <= i64::MAX,
            i64::MIN <= self.y * o.y <= i64::MAX,
        ensures
            r.x == self.x * o.x,
            r.y == self.y * o.y,
    {
        Vector2 { x: self.x * o.x, y: self.y * o.y }
    }

    /// Both components multiplied by `k`.
    pub fn mul_scalar(self, k: i64) -> (r: Vector2)
        requires
            i64::MIN <= self.x * k <= i64::MAX,
            i64::MIN <= self.y * k <= i64::MAX,
        ensures
            r.x == self.x * k,
            r.y == self.y * k,
    {
        Vector2 { x: self.x * k, y: self.y * k }
    }

    /// Component-wise quotient, rounded toward zero.
    pub fn div(self, o: Vector2) -> (r: Vector2)
        requires
            o.x != 0,
            o.y != 0,
            !(self.x == i64::MIN && o.x == -1),
            !(self.y == i64::MIN && o.y == -1),
        ensures
            r.x == div_trunc(self.x as int, o.x as int),
            r.y == div_trunc(self.y as int, o.y as int),
    {
        Vector2 { x: quotient(self.x, o.x), y: quotient(self.y, o.y) }
    }

    /// Both components divided by `k`, rounded toward zero.
    pub fn div_scalar(self, k: i64) -> (r: Vector2)
        requires
            k != 0,
            !(self.x == i64::MIN && k == -1),
            !(self.y == i64::MIN && k == -1),
        ensures
            r.x == div_trunc(self.x as int, k as int),
            r.y == div_trunc(self.y as int, k as int),
    {
        Vector2 { x: quotient(self.x, k), y: quotient(self.y, k) }
    }

    /// The dot product.
    pub fn dot(self, o: Vector2) -> (r: i64)
        requires
            self.in_range(),
            o.in_range(),
        ensures
            r == self.x * o.x + self.y * o.y,
    {
        proof {
            lemma_product_bound(self.x as int, o.x as int);
            lemma_product_bound(self.y as int, o.y as int);
        }
        self.x * o.x + self.y * o.y
    }

    /// The vector leading from `other` to `first`.
    pub fn distance(first: Vector2, other: Vector2) -> (r: Vector2)
        requires
            i64::MIN <= first.x - other.x <= i64::MAX,
            i64::MIN <= first.y - other.y <= i64::MAX,
        ensures
            r.x == first.x - other.x,
            r.y == first.y - other.y,
    {
        first.sub(other)
    }

    /// The squared length.
    pub fn length_sq(&self) -> (r: i64)
        requires
            self.in_range(),
        ensures
            r == self.norm_sq(),
            0 <= r <= 2 * COORD_MAX * COORD_MAX,
    {
        proof {
            lemma_norm_sq_nonneg(*self);
            lemma_product_bound(self.x as int, self.x as int);
            lemma_product_bound(self.y as int, self.y as int);
        }
        self.x * self.x + self.y * self.y
    }

    /// The length, rounded down.
    pub fn calc_magnitude(&self) -> (r: i64)
        requires
            self.in_range(),
        ensures
            r == floor_sqrt(self.norm_sq()),
            is_floor_sqrt(self.norm_sq(), r as int),
            0 <= r <= 2 * COORD_MAX,
    {
        let n = self.length_sq();
        proof {
            lemma_norm_sq_nonneg(*self);
        }
        let s = u64_sqrt(n as u64);
        proof {
            lemma_floor_sqrt_unique(n as int, s as int);
            if s > 2 * COORD_MAX {
                assert((s as int) * (s as int) > 4 * COORD_MAX * COORD_MAX) by (nonlinear_arith)
                    requires
                        s as int > 2 * COORD_MAX,
                ;
            }
        }
        s as i64
    }

    /// The length, rounded up.
    pub fn ceil_magnitude(&self) -> (r: i64)
        requires
            self.in_range(),
        ensures
            r == ceil_sqrt(self.norm_sq()),
            0 <= r <= 2 * COORD_MAX + 1,
            self.norm_sq() <= (r as int) * (r as int),
            r > 0 ==> (r as int - 1) * (r as int - 1) <= self.norm_sq(),
            r == 0 <==> self.norm_sq() == 0,
    {
        let n = self.length_sq();
        let s = self.calc_magnitude();
        proof {
            assert(0 <= s * s <= 4 * COORD_MAX * COORD_MAX) by (nonlinear_arith)
                requires
                    0 <= s <= 2 * COORD_MAX,
            ;
            if n == 0 {
                assert(s == 0) by (nonlinear_arith)
                    requires
                        s * s <= n,
                        n == 0,
                        s >= 0,
                ;
            }
        }
        if s * s == n {
            proof {
                assert(s == 0 ==> n == 0) by (nonlinear_arith)
                    requires
                        s * s == n,
                ;
                assert(s > 0 ==> (s - 1) * (s - 1) <= n) by (nonlinear_arith)
                    requires
                        s * s == n,
                ;
            }
            s
        } else {
            proof {
                assert(n < (s + 1) * (s + 1));
            }
            s + 1
        }
    }

    /// The vector rescaled so that its length becomes `m` (rounded so that it
    /// never exceeds `m`); the zero vector stays zero.
    pub open spec fn scaled_to(self, m: int) -> Vector2 {
        let c = ceil_sqrt(self.norm_sq());
        if c == 0 {
            self
        } else {
            Vector2 {
                x: div_trunc(self.x * m, c) as i64,
                y: div_trunc(self.y * m, c) as i64,
            }
        }
    }

    pub fn set_magnitude(&mut self, magnitude: i64)
        requires
            old(self).in_range(),
            0 <= magnitude <= COORD_MAX,
        ensures
            *final(self) == old(self).scaled_to(magnitude as int),
            final(self).in_range(),
            final(self).norm_sq() <= (magnitude as int) * (magnitude as int),
    {
        let c = self.ceil_magnitude();
        if c != 0 {
            proof {
                lemma_product_bound(self.x as int, magnitude as int);
                lemma_product_bound(self.y as int, magnitude as int);
            }
            let nx = self.x * magnitude / c;
            let ny = self.y * magnitude / c;
            proof {
                lemma_scaled_bounds(self.x as int, self.y as int, magnitude as int, c as int, nx as int, ny as int);
            }
            self.x = nx;
            self.y = ny;
        }
    }

    /// The vector clamped to length `max`: rescaled to `max` when longer,
    /// else unchanged.
    pub open spec fn limited(self, max: int) -> Vector2 {
        if self.norm_sq() > max * max {
            self.scaled_to(max)
        } else {
            self
        }
    }

    /// The vector rescaled to unit length in fixed point, `SUBPIXELS` long
    /// (rounded so that it never exceeds that); the zero vector stays zero.
    pub fn normalize(&mut self)
        requires
            old(self).in_range(),
        ensures
            *final(self) == old(self).scaled_to(SUBPIXELS as int),
            final(self).norm_sq() <= SUBPIXELS * SUBPIXELS,
    {
        self.set_magnitude(SUBPIXELS);
    }

    pub fn limit(&mut self, max: i64)
        requires
            old(self).in_range(),
            0 <= max <= COORD_MAX,
        ensures
            *final(self) == old(self).limited(max as int),
            final(self).in_range(),
            final(self).norm_sq() <= (max as int) * (max as int),
    {
        let n = self.length_sq();
        proof {
            lemma_product_bound(max as int, max as int);
        }
        if n > max * max {
            self.set_magnitude(max);
        }
    }

    /// The vector mirrored on the line whose normal is `n`: `v - 2 (v·n) n`.
    pub fn reflect(self, n: Vector2) -> (r: Vector2)
        requires
            self.in_range(),
            -1 <= n.x <= 1,
            -1 <= n.y <= 1,
            n.x == 0 || n.y == 0,
        ensures
            r.x == self.x - 2 * n.x * (self.x * n.x + self.y * n.y),
            r.y == self.y - 2 * n.y * (self.x * n.x + self.y * n.y),
            n.x != 0 ==> r.x == -self.x && r.y == self.y,
            n.y != 0 ==> r.y == -self.y && r.x == self.x,
    {
        let d = self.dot(n);
        proof {
            assert(-COORD_MAX <= d <= COORD_MAX) by (nonlinear_arith)
                requires
                    d == self.x * n.x + self.y * n.y,
                    -1 <= n.x <= 1,
                    -1 <= n.y <= 1,
                    n.x == 0 || n.y == 0,
                    -COORD_MAX <= self.x <= COORD_MAX,
                    -COORD_MAX <= self.y <= COORD_MAX,
            ;
            assert(-2 * COORD_MAX <= 2 * n.x * d <= 2 * COORD_MAX) by (nonlinear_arith)
                requires
                    -COORD_MAX <= d <= COORD_MAX,
                    -1 <= n.x <= 1,
            ;
            assert(-2 * COORD_MAX <= 2 * n.y * d <= 2 * COORD_MAX) by (nonlinear_arith)
                requires
                    -COORD_MAX <= d <= COORD_MAX,
                    -1 <= n.y <= 1,
            ;
        }
        proof {
            if n.x != 0 {
                assert(self.x - 2 * n.x * d == -self.x && self.y - 2 * n.y * d == self.y) by (nonlinear_arith)
                    requires
                        d == self.x * n.x + self.y * n.y,
                        n.x == 1 || n.x == -1,
                        n.y == 0,
                ;
            }
            if n.y != 0 {
                assert(self.y - 2 * n.y * d == -self.y && self.x - 2 * n.x * d == self.x) by (nonlinear_arith)
                    requires
                        d == self.x * n.x + self.y * n.y,
                        n.y == 1 || n.y == -1,
                        n.x == 0,
                ;
            }
        }
        Vector2 { x: self.x - 2 * n.x * d, y: self.y - 2 * n.y * d }
    }

    /// Both components lie strictly within `(-scalar, scalar)`.
    pub fn in_between(vector: Vector2, scalar: i64) -> (r: bool)
        ensures
            r == (-scalar < vector.x < scalar && -scalar < vector.y < scalar),
    {
        let s = scalar as i128;
        -s < vector.x as i128 && (vector.x as i128) < s && -s < vector.y as i128 && (vector.y as i128) < s
    }
}

/// A squared length is never negative.
pub proof fn lemma_norm_sq_nonneg(v: Vector2)
    ensures
        v.norm_sq() >= 0,
{
    assert(v.norm_sq() >= 0) by (nonlinear_arith);
}

/// The product of two coordinates in range fits in `COORD_MAX²`.
pub proof fn lemma_product_bound(a: int, b: int)
    requires
        -COORD_MAX <= a <= COORD_MAX,
        -COORD_MAX <= b <= COORD_MAX,
    ensures
        -COORD_MAX * COORD_MAX <= a * b <= COORD_MAX * COORD_MAX,
{
    assert(-COORD_MAX * COORD_MAX <= a * b <= COORD_MAX * COORD_MAX) by (nonlinear_arith)
        requires
            -COORD_MAX <= a <= COORD_MAX,
            -COORD_MAX <= b <= COORD_MAX,
    ;
}

/// A truncated quotient is no larger in magnitude than the exact one.
pub proof fn lemma_div_trunc_abs(a: int, c: int, q: int)
    requires
        c > 0,
        q == div_trunc(a, c),
    ensures
        q * a >= 0,
        (if q >= 0 { q } else { -q }) * c <= (if a >= 0 { a } else { -a }),
{
    if a >= 0 {
        assert(q == a / c);
        vstd::arithmetic::div_mod::lemma_fundamental_div_mod(a, c);
        vstd::arithmetic::div_mod::lemma_div_pos_is_pos(a, c);
        assert(q * c <= a) by (nonlinear_arith)
            requires
                a == c * (a / c) + a % c,
                0 <= a % c,
                q == a / c,
        ;
        assert(q * a >= 0) by (nonlinear_arith)
            requires
                q >= 0,
                a >= 0,
        ;
    } else {
        let p = (-a) / c;
        assert(q == -p);
        vstd::arithmetic::div_mod::lemma_fundamental_div_mod(-a, c);
        vstd::arithmetic::div_mod::lemma_div_pos_is_pos(-a, c);
        assert(p * c <= -a) by (nonlinear_arith)
            requires
                -a == c * ((-a) / c) + (-a) % c,
                0 <= (-a) % c,
                p == (-a) / c,
        ;
        assert(q * a >= 0) by (nonlinear_arith)
            requires
                q <= 0,
                a < 0,
        ;
    }
}

proof fn lemma_scaled_bounds(x: int, y: int, m: int, c: int, nx: int, ny: int)
    requires
        -COORD_MAX <= x <= COORD_MAX,
        -COORD_MAX <= y <= COORD_MAX,
        0 <= m <= COORD_MAX,
        c > 0,
        x * x + y * y <= c * c,
        nx == div_trunc(x * m, c),
        ny == div_trunc(y * m, c),
    ensures
        -COORD_MAX <= nx <= COORD_MAX,
        -COORD_MAX <= ny <= COORD_MAX,
        nx * nx + ny * ny <= m * m,
{
    lemma_div_trunc_abs(x * m, c, nx);
    lemma_div_trunc_abs(y * m, c, ny);
    let ax = if x >= 0 { x } else { -x };
    let ay = if y >= 0 { y } else { -y };
    let anx = if nx >= 0 { nx } else { -nx };
    let any = if ny >= 0 { ny } else { -ny };
    assert(ax * m == (if x * m >= 0 { x * m } else { -(x * m) })) by (nonlinear_arith)
        requires
            m >= 0,
            ax == (if x >= 0 { x } else { -x }),
    ;
    assert(ay * m == (if y * m >= 0 { y * m } else { -(y * m) })) by (nonlinear_arith)
        requires
            m >= 0,
            ay == (if y >= 0 { y } else { -y }),
    ;
    assert(anx * c <= ax * m);
    assert(any * c <= ay * m);
    assert(ax * ax == x * x && ay * ay == y * y) by (nonlinear_arith)
        requires
            ax == (if x >= 0 { x } else { -x }),
            ay == (if y >= 0 { y } else { -y }),
    ;
    assert(anx * anx == nx * nx && any * any == ny * ny) by (nonlinear_arith)
        requires
            anx == (if nx >= 0 { nx } else { -nx }),
            any == (if ny >= 0 { ny } else { -ny }),
    ;
    assert((anx * anx + any * any) * (c * c) <= (ax * ax + ay * ay) * (m * m)) by (nonlinear_arith)
        requires
            0 <= anx,
            0 <= any,
            0 <= ax,
            0 <= ay,
            c > 0,
            m >= 0,
            anx * c <= ax * m,
            any * c <= ay * m,
    ;
    assert((ax * ax + ay * ay) * (m * m) <= (c * c) * (m * m)) by (nonlinear_arith)
        requires
            ax * ax + ay * ay <= c * c,
    ;
    assert(anx * anx + any * any <= m * m) by (nonlinear_arith)
        requires
            (anx * anx + any * any) * (c * c) <= (c * c) * (m * m),
            c > 0,
    ;
    assert(anx <= m) by (nonlinear_arith)
        requires
            anx * anx <= m * m,
            anx >= 0,
            m >= 0,
    ;
    assert(any <= m) by (nonlinear_arith)
        requires
            any * any <= m * m,
            any >= 0,
            m >= 0,
    ;
}

/// Every non-negative integer has a rounded-down square root.
pub proof fn lemma_floor_sqrt_exists(n: int)
    requires
        n >= 0,
    ensures
        is_floor_sqrt(n, floor_sqrt(n)),
    decreases n,
{
    if n == 0 {
        assert(is_floor_sqrt(0, 0));
    } else {
        lemma_floor_sqrt_exists(n - 1);
        let r = floor_sqrt(n - 1);
        if (r + 1) * (r + 1) <= n {
            assert(n < (r + 2) * (r + 2)) by (nonlinear_arith)
                requires
                    n - 1 < (r + 1) * (r + 1),
                    r >= 0,
            ;
            assert(is_floor_sqrt(n, r + 1));
        } else {
            assert(is_floor_sqrt(n, r));
        }
    }
}

/// The rounded-up square root of `n` squared is at least `n`.
pub proof fn lemma_ceil_sqrt_covers(n: int)
    requires
        n >= 0,
    ensures
        ceil_sqrt(n) >= 0,
        n <= ceil_sqrt(n) * ceil_sqrt(n),
        ceil_sqrt(n) == 0 <==> n == 0,
{
    lemma_floor_sqrt_exists(n);
    let f = floor_sqrt(n);
    if f * f != n {
        assert(n <= (f + 1) * (f + 1));
        assert(f + 1 > 0);
    } else {
        assert(f == 0 ==> n == 0) by (nonlinear_arith)
            requires
                f * f == n,
        ;
        assert(n == 0 ==> f == 0) by (nonlinear_arith)
            requires
                f * f == n,
                f >= 0,
        ;
    }
}

/// A vector in range clamped to length `max` is no longer than `max`, and
/// stays in range.
pub proof fn lemma_limited_bound(v: Vector2, max: int)
    requires
        v.in_range(),
        0 <= max <= COORD_MAX,
    ensures
        v.limited(max).norm_sq() <= max * max,
        v.limited(max).in_range(),
{
    if v.norm_sq() > max * max {
        lemma_norm_sq_nonneg(v);
        lemma_ceil_sqrt_covers(v.norm_sq());
        let c = ceil_sqrt(v.norm_sq());
        let nx = div_trunc(v.x * max, c);
        let ny = div_trunc(v.y * max, c);
        lemma_scaled_bounds(v.x as int, v.y as int, max, c, nx, ny);
        let r = v.limited(max);
        assert(r.x == nx && r.y == ny);
    }
}

} // verus!
