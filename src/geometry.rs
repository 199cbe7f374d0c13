//! Fixed-point rectangles and velocity vectors.
//!
//! Positions and sizes are counted in units of a thousandth of a pixel;
//! velocity components are scaled so that `VEL_ONE` stands for 1.
use vstd::prelude::*;
use vstd::arithmetic::div_mod::{lemma_fundamental_div_mod, lemma_mod_pos_bound};

verus! {

/// Units in one pixel.
pub const UNITS_PER_PIXEL: i64 = 1000;

/// The length of a unit velocity vector.
pub const VEL_ONE: i64 = 10000;

/// Bound on the magnitude of any coordinate.
pub const COORD_LIMIT: i64 = 1_000_000_000_000;

/// Bound on the width and height of any rectangle.
pub const SIZE_LIMIT: i64 = 1_000_000_000;

/// Bound on the width and height of the play area.
pub const SCREEN_LIMIT: i64 = 100_000_000;

/// Bound on the coordinates of obstacles: blocks, the paddle, power-ups.
pub const ARENA_LIMIT: i64 = 100_000_000_000;

/// Bound on the components handed to `normalize`.
pub const VEL_LIMIT: i64 = 40000;

/// The floor of the square root of `n`.
pub open spec fn floor_sqrt(n: nat) -> nat
    decreases n,
{
    if n == 0 {
        0
    } else {
        let r = floor_sqrt((n - 1) as nat);
        if (r + 1) * (r + 1) <= n {
            r + 1
        } else {
            r
        }
    }
}

pub proof fn lemma_floor_sqrt_bounds(n: nat)
    ensures
        floor_sqrt(n) * floor_sqrt(n) <= n,
        n < (floor_sqrt(n) + 1) * (floor_sqrt(n) + 1),
    decreases n,
{
    if n > 0 {
        lemma_floor_sqrt_bounds((n - 1) as nat);
        let r = floor_sqrt((n - 1) as nat);
        assert(r * r <= n - 1);
        assert(n - 1 < (r + 1) * (r + 1));
        if (r + 1) * (r + 1) > n {
            assert(floor_sqrt(n) == r);
            assert(floor_sqrt(n) * floor_sqrt(n) <= n);
            assert(n < (floor_sqrt(n) + 1) * (floor_sqrt(n) + 1));
        } else {
            assert(floor_sqrt(n) == r + 1);
            assert(n == (r + 1) * (r + 1));
            let s = r + 1;
            assert(s * s < (s + 1) * (s + 1)) by (nonlinear_arith);
            assert(n < (floor_sqrt(n) + 1) * (floor_sqrt(n) + 1));
            assert(floor_sqrt(n) * floor_sqrt(n) <= n);
        }
    } else {
        let f = floor_sqrt(n);
        assert(f == 0);
        assert(f * f <= n && n < (f + 1) * (f + 1)) by (nonlinear_arith)
            requires f == 0, n == 0;
    }
}

proof fn lemma_square_monotone(a: nat, b: nat)
    requires
        a <= b,
    ensures
        a * a <= b * b,
{
    assert(a * a <= b * b) by (nonlinear_arith)
        requires a <= b;
}

/// `floor_sqrt(n)` is the only `r` with `r * r <= n < (r + 1) * (r + 1)`.
pub proof fn lemma_floor_sqrt_unique(n: nat, r: nat)
    requires
        r * r <= n,
        n < (r + 1) * (r + 1),
    ensures
        floor_sqrt(n) == r,
{
    lemma_floor_sqrt_bounds(n);
    let s = floor_sqrt(n);
    if s < r {
        lemma_square_monotone(s + 1, r);
    } else if r < s {
        lemma_square_monotone(r + 1, s);
    }
}

/// Integer square root of `n` by bisection.
pub fn isqrt(n: u64) -> (r: u64)
    requires
        n < 0x1000_0000_0000_0000,
    ensures
        r == floor_sqrt(n as nat),
        r * r <= n,
        n < (r + 1) * (r + 1),
{
    let mut lo: u64 = 0;
    let mut hi: u64 = 0x4000_0000;
    assert(0x4000_0000 * 0x4000_0000 == 0x1000_0000_0000_0000) by (nonlinear_arith);
    while hi - lo > 1
        invariant
            lo < hi <= 0x4000_0000,
            lo * lo <= n,
            n < hi * hi,
        decreases hi - lo,
    {
        let mid: u64 = lo + (hi - lo) / 2;
        assert(mid * mid <= 0x4000_0000 * 0x4000_0000) by (nonlinear_arith)
            requires mid <= 0x4000_0000;
        if mid * mid <= n {
            lo = mid;
        } else {
            hi = mid;
        }
    }
    proof {
        lemma_floor_sqrt_unique(n as nat, lo as nat);
    }
    lo
}


/// A velocity (or direction) vector; `VEL_ONE` stands for one.
#[derive(Clone, Copy, Debug, PartialEq, Eq, Structural)]
pub struct Velocity {
    pub x: i64,
    pub y: i64,
}

pub open spec fn abs(v: int) -> int {
    if v < 0 {
        -v
    } else {
        v
    }
}

/// Squared length of a velocity.
pub open spec fn norm_sq(v: Velocity) -> int {
    v.x * v.x + v.y * v.y
}

/// A velocity of length one, up to the rounding of fixed-point arithmetic.
pub open spec fn is_unit(v: Velocity) -> bool {
    VEL_ONE * VEL_ONE - 4 * VEL_ONE - 1 <= norm_sq(v) <= VEL_ONE * VEL_ONE + 2 * VEL_ONE
}

/// Components that `normalize` accepts.
pub open spec fn within_vel_limit(x: int, y: int) -> bool {
    -VEL_LIMIT <= x <= VEL_LIMIT && -VEL_LIMIT <= y <= VEL_LIMIT && (x != 0 || y != 0)
}

/// The square root of the squared length of `(x, y)` scaled by `VEL_ONE`, rounded down.
pub open spec fn scaled_length(x: int, y: int) -> nat {
    floor_sqrt((VEL_ONE * VEL_ONE * (x * x + y * y)) as nat)
}

/// One component of a normalized vector: `c / length`, truncated toward zero.
pub open spec fn scale_component(c: int, len: nat) -> int {
    if c < 0 {
        -((-c) * VEL_ONE * VEL_ONE / (len as int))
    } else {
        c * VEL_ONE * VEL_ONE / (len as int)
    }
}

/// `(x, y)` divided by its length, in units of `VEL_ONE`.
pub open spec fn normalized(x: int, y: int) -> Velocity {
    let len = scaled_length(x, y);
    Velocity { x: scale_component(x, len) as i64, y: scale_component(y, len) as i64 }
}

proof fn lemma_root_at_least(s: int, m: int, r: int)
    requires
        s > 0,
        m >= 1,
        r >= 0,
        s * s * m < (r + 1) * (r + 1),
    ensures
        r >= s,
{
    assert(s * s <= s * s * m) by (nonlinear_arith)
        requires s > 0, m >= 1;
    if r < s {
        lemma_square_monotone((r + 1) as nat, s as nat);
    }
}

proof fn lemma_component_bound(s: int, a: int, m: int, r: int, p: int)
    requires
        s > 0,
        a >= 0,
        a * a <= m,
        r >= s,
        s * s * m < (r + 1) * (r + 1),
        p * r <= a * s * s,
        p >= 0,
    ensures
        a * s <= r,
        p <= s,
{
    assert(a * s * (a * s) <= s * s * m) by (nonlinear_arith)
        requires a * a <= m, s > 0;
    if a * s > r {
        lemma_square_monotone((r + 1) as nat, (a * s) as nat);
    }
    assert(p <= s) by (nonlinear_arith)
        requires p * r <= a * s * s, a * s <= r, r >= s, s > 0, p >= 0;
}

proof fn lemma_square_le(x: int, y: int)
    requires
        0 <= x <= y,
    ensures
        x * x <= y * y,
{
    assert(x * x <= y * y) by (nonlinear_arith)
        requires 0 <= x <= y;
}

proof fn lemma_square_lt(x: int, y: int)
    requires
        0 <= x < y,
    ensures
        x * x < y * y,
{
    assert(x * x < y * y) by (nonlinear_arith)
        requires 0 <= x < y;
}

/// Dividing a non-zero vector by its rounded length gives a unit vector:
/// the squared length of the result is within `[s² - 4s - 1, s² + 2s]`.
proof fn lemma_scaled_unit(s: int, a: int, b: int, r: int, p: int, q: int)
    requires
        s > 0,
        a >= 0,
        b >= 0,
        a + b > 0,
        r >= 0,
        r * r <= s * s * (a * a + b * b),
        s * s * (a * a + b * b) < (r + 1) * (r + 1),
        p >= 0,
        q >= 0,
        p * r <= a * s * s < (p + 1) * r,
        q * r <= b * s * s < (q + 1) * r,
    ensures
        r >= s,
        p <= s,
        q <= s,
        s * s - 4 * s - 1 <= p * p + q * q <= s * s + 2 * s,
{
    let m = a * a + b * b;
    assert(m >= 1) by (nonlinear_arith)
        requires a >= 0, b >= 0, a + b > 0, m == a * a + b * b;
    lemma_root_at_least(s, m, r);
    assert(a * a <= m && b * b <= m) by (nonlinear_arith)
        requires m == a * a + b * b;
    lemma_component_bound(s, a, m, r, p);
    lemma_component_bound(s, b, m, r, q);
    let x = a * s * s;
    let y = b * s * s;
    assert(x * x + y * y == s * s * (s * s * m)) by (nonlinear_arith)
        requires x == a * s * s, y == b * s * s, m == a * a + b * b;
    // upper bound
    lemma_square_le(p * r, x);
    lemma_square_le(q * r, y);
    let u = p * r;
    let v = q * r;
    assert((p * p + q * q) * (r * r) == u * u + v * v) by (nonlinear_arith)
        requires u == p * r, v == q * r;
    assert(s * s * (s * s * m) < s * s * ((r + 1) * (r + 1))) by (nonlinear_arith)
        requires s * s * m < (r + 1) * (r + 1), s > 0;
    assert((p * p + q * q) * (r * r) < s * s * ((r + 1) * (r + 1)));
    assert((s + 1) * (s + 1) == s * s + 2 * s + 1) by (nonlinear_arith);
    if p * p + q * q > s * s + 2 * s {
        assert((p * p + q * q) * (r * r) >= s * s * ((r + 1) * (r + 1))) by (nonlinear_arith)
            requires p * p + q * q >= (s + 1) * (s + 1), r >= s, s > 0;
    }
    // lower bound
    lemma_square_lt(x, (p + 1) * r);
    lemma_square_lt(y, (q + 1) * r);
    let u1 = (p + 1) * r;
    let v1 = (q + 1) * r;
    assert(((p + 1) * (p + 1) + (q + 1) * (q + 1)) * (r * r) == u1 * u1 + v1 * v1)
        by (nonlinear_arith)
        requires u1 == (p + 1) * r, v1 == (q + 1) * r;
    assert(s * s * (r * r) <= s * s * (s * s * m)) by (nonlinear_arith)
        requires r * r <= s * s * m, s > 0;
    assert(((p + 1) * (p + 1) + (q + 1) * (q + 1)) * (r * r) > s * s * (r * r));
    assert((p + 1) * (p + 1) + (q + 1) * (q + 1) > s * s) by (nonlinear_arith)
        requires
            ((p + 1) * (p + 1) + (q + 1) * (q + 1)) * (r * r) > s * s * (r * r),
            r >= s,
            s > 0;
    assert((p + 1) * (p + 1) + (q + 1) * (q + 1) == p * p + q * q + 2 * p + 2 * q + 2) by (nonlinear_arith);
}

/// A normalized non-zero vector has unit length, components of at most one,
/// and the signs of the given components.
pub proof fn lemma_normalized(x: int, y: int)
    requires
        within_vel_limit(x, y),
    ensures
        is_unit(normalized(x, y)),
        -VEL_ONE <= normalized(x, y).x <= VEL_ONE,
        -VEL_ONE <= normalized(x, y).y <= VEL_ONE,
        x < 0 ==> normalized(x, y).x <= 0,
        x >= 0 ==> normalized(x, y).x >= 0,
        y < 0 ==> normalized(x, y).y <= 0,
        y >= 0 ==> normalized(x, y).y >= 0,
        x == 0 ==> normalized(x, y).x == 0,
        y == 0 ==> normalized(x, y).y == 0,
{
    let s = VEL_ONE as int;
    let a = abs(x);
    let b = abs(y);
    assert(x * x == a * a && y * y == b * b) by (nonlinear_arith)
        requires a == abs(x), b == abs(y);
    let big = s * s * (a * a + b * b);
    assert(big >= 0) by (nonlinear_arith)
        requires big == s * s * (a * a + b * b);
    lemma_floor_sqrt_bounds(big as nat);
    let len = scaled_length(x, y) as int;
    assert(a * a + b * b >= 1) by (nonlinear_arith)
        requires a >= 0, b >= 0, a + b > 0;
    assert(big >= 1) by (nonlinear_arith)
        requires big == s * s * (a * a + b * b), a * a + b * b >= 1, s == 10000;
    assert(len >= 1) by (nonlinear_arith)
        requires big >= 1, big < (len + 1) * (len + 1), len >= 0;
    let xa = a * s * s;
    let yb = b * s * s;
    assert(xa >= 0 && yb >= 0) by (nonlinear_arith)
        requires xa == a * s * s, yb == b * s * s, a >= 0, b >= 0, s > 0;
    let p = xa / len;
    let q = yb / len;
    lemma_fundamental_div_mod(xa, len);
    lemma_mod_pos_bound(xa, len);
    lemma_fundamental_div_mod(yb, len);
    lemma_mod_pos_bound(yb, len);
    assert(p * len <= xa < (p + 1) * len && p >= 0) by (nonlinear_arith)
        requires xa == len * p + xa % len, 0 <= xa % len < len, xa >= 0, len > 0;
    assert(q * len <= yb < (q + 1) * len && q >= 0) by (nonlinear_arith)
        requires yb == len * q + yb % len, 0 <= yb % len < len, yb >= 0, len > 0;
    lemma_scaled_unit(s, a, b, len, p, q);
    let n = normalized(x, y);
    assert(n.x == if x < 0 { -p } else { p });
    assert(n.y == if y < 0 { -q } else { q });
    assert(norm_sq(n) == p * p + q * q) by (nonlinear_arith)
        requires n.x == p || n.x == -p, n.y == q || n.y == -q, norm_sq(n) == n.x * n.x + n.y * n.y;
}

/// The components of a unit vector are at most one, and not both zero.
pub proof fn lemma_unit_components(v: Velocity)
    requires
        is_unit(v),
    ensures
        -VEL_ONE <= v.x <= VEL_ONE,
        -VEL_ONE <= v.y <= VEL_ONE,
        v.x != 0 || v.y != 0,
{
    let s = VEL_ONE as int;
    if abs(v.x as int) > s {
        assert(v.x * v.x >= (s + 1) * (s + 1)) by (nonlinear_arith)
            requires abs(v.x as int) >= s + 1, s > 0;
        assert(v.y * v.y >= 0) by (nonlinear_arith);
    }
    if abs(v.y as int) > s {
        assert(v.y * v.y >= (s + 1) * (s + 1)) by (nonlinear_arith)
            requires abs(v.y as int) >= s + 1, s > 0;
        assert(v.x * v.x >= 0) by (nonlinear_arith);
    }
}

/// Scales a non-zero vector to unit length.
pub fn normalize(x: i64, y: i64) -> (r: Velocity)
    requires
        within_vel_limit(x as int, y as int),
    ensures
        r == normalized(x as int, y as int),
        is_unit(r),
        -VEL_ONE <= r.x <= VEL_ONE,
        -VEL_ONE <= r.y <= VEL_ONE,
        x < 0 ==> r.x <= 0,
        x >= 0 ==> r.x >= 0,
        y < 0 ==> r.y <= 0,
        y >= 0 ==> r.y >= 0,
{
    proof {
        lemma_normalized(x as int, y as int);
    }
    let a: u64 = if x < 0 { (-x) as u64 } else { x as u64 };
    let b: u64 = if y < 0 { (-y) as u64 } else { y as u64 };
    assert(a * a <= 1_600_000_000 && b * b <= 1_600_000_000) by (nonlinear_arith)
        requires a <= 40000, b <= 40000;
    let m: u64 = a * a + b * b;
    let one_sq: u64 = (VEL_ONE * VEL_ONE) as u64;
    assert(m * one_sq <= 3_200_000_000u64 * 100_000_000u64) by (nonlinear_arith)
        requires m <= 3_200_000_000u64, one_sq == 100_000_000u64;
    let big: u64 = m * one_sq;
    let len: u64 = isqrt(big);
    let ghost s: int = VEL_ONE as int;
    proof {
        assert(x * x + y * y == a * a + b * b) by (nonlinear_arith)
            requires a == abs(x as int), b == abs(y as int);
        assert(big as int == s * s * (x * x + y * y)) by (nonlinear_arith)
            requires big == m * one_sq, m == a * a + b * b, x * x + y * y == a * a + b * b,
                one_sq == 100_000_000, s == 10000;
        assert(len == scaled_length(x as int, y as int));
        assert(m >= 1) by (nonlinear_arith)
            requires m == a * a + b * b, a + b > 0;
        assert(big >= 1) by (nonlinear_arith)
            requires big == m * one_sq, m >= 1, one_sq == 100_000_000u64;
        assert(len >= 1) by (nonlinear_arith)
            requires big >= 1, big < (len + 1) * (len + 1), len >= 0;
    }
    assert(a * one_sq <= 40000 * 100_000_000u64 && a * one_sq == a * s * s) by (nonlinear_arith)
        requires a <= 40000, one_sq == 100_000_000u64, s == 10000;
    assert(b * one_sq <= 40000 * 100_000_000u64 && b * one_sq == b * s * s) by (nonlinear_arith)
        requires b <= 40000, one_sq == 100_000_000u64, s == 10000;
    let p: u64 = a * one_sq / len;
    let q: u64 = b * one_sq / len;
    let rx: i64 = if x < 0 { -(p as i64) } else { p as i64 };
    let ry: i64 = if y < 0 { -(q as i64) } else { q as i64 };
    Velocity { x: rx, y: ry }
}

/// A point, or a size, in units.
#[derive(Clone, Copy, Debug, PartialEq, Eq, Structural)]
pub struct Point {
    pub x: i64,
    pub y: i64,
}

/// An axis-aligned rectangle: top-left corner `(x, y)`, width `w`, height `h`;
/// `y` grows downwards.
#[derive(Clone, Copy, Debug, PartialEq, Eq, Structural)]
pub struct Rect {
    pub x: i64,
    pub y: i64,
    pub w: i64,
    pub h: i64,
}

pub open spec fn min(a: int, b: int) -> int {
    if a <= b {
        a
    } else {
        b
    }
}

pub open spec fn max(a: int, b: int) -> int {
    if a >= b {
        a
    } else {
        b
    }
}

impl Rect {
    /// Coordinates and sizes within the limits; positive width and height.
    pub open spec fn wf(self) -> bool {
        -COORD_LIMIT <= self.x <= COORD_LIMIT && -COORD_LIMIT <= self.y <= COORD_LIMIT && 0
            < self.w <= SIZE_LIMIT && 0 < self.h <= SIZE_LIMIT
    }

    pub open spec fn right_edge(self) -> int {
        self.x + self.w
    }

    pub open spec fn bottom_edge(self) -> int {
        self.y + self.h
    }

    /// Twice the x coordinate of the centre.
    pub open spec fn centre2_x(self) -> int {
        2 * self.x + self.w
    }

    /// Twice the y coordinate of the centre.
    pub open spec fn centre2_y(self) -> int {
        2 * self.y + self.h
    }

    pub fn new(x: i64, y: i64, w: i64, h: i64) -> (r: Rect)
        ensures
            r == (Rect { x, y, w, h }),
    {
        Rect { x, y, w, h }
    }

    /// The top-left corner.
    pub fn point(&self) -> (r: Point)
        ensures
            r == (Point { x: self.x, y: self.y }),
    {
        Point { x: self.x, y: self.y }
    }

    /// Whether the rectangle lies within the arena bounds.
    pub open spec fn in_arena(self) -> bool {
        -ARENA_LIMIT <= self.x <= ARENA_LIMIT && -ARENA_LIMIT <= self.y <= ARENA_LIMIT && 0 < self.w
            <= SIZE_LIMIT && 0 < self.h <= SIZE_LIMIT
    }

    /// Whether the two rectangles share an area of positive size.
    pub fn overlaps(&self, other: &Rect) -> (r: bool)
        requires
            self.wf(),
            other.wf(),
        ensures
            r == overlapping(*self, *other),
    {
        self.x < other.x + other.w && other.x < self.x + self.w && self.y < other.y + other.h
            && other.y < self.y + self.h
    }

    /// The common part of the two rectangles, when its area is positive.
    pub fn intersect(&self, other: &Rect) -> (r: Option<Rect>)
        requires
            self.wf(),
            other.wf(),
        ensures
            r == intersection(*self, *other),
    {
        let left = if self.x >= other.x { self.x } else { other.x };
        let top = if self.y >= other.y { self.y } else { other.y };
        let right = if self.x + self.w <= other.x + other.w {
            self.x + self.w
        } else {
            other.x + other.w
        };
        let bottom = if self.y + self.h <= other.y + other.h {
            self.y + self.h
        } else {
            other.y + other.h
        };
        if right <= left || bottom <= top {
            None
        } else {
            Some(Rect { x: left, y: top, w: right - left, h: bottom - top })
        }
    }
}

/// The intersection of two rectangles, or `None` when they share no area
/// (rectangles that only touch along an edge do not intersect).
pub open spec fn intersection(a: Rect, b: Rect) -> Option<Rect> {
    let left = max(a.x as int, b.x as int);
    let top = max(a.y as int, b.y as int);
    let right = min(a.right_edge(), b.right_edge());
    let bottom = min(a.bottom_edge(), b.bottom_edge());
    if right <= left || bottom <= top {
        None
    } else {
        Some(
            Rect {
                x: left as i64,
                y: top as i64,
                w: (right - left) as i64,
                h: (bottom - top) as i64,
            },
        )
    }
}

pub open spec fn overlapping(a: Rect, b: Rect) -> bool {
    intersection(a, b).is_some()
}

} // verus!
