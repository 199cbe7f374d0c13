//! Balls: a square that moves at a constant speed in a unit direction.
use vstd::prelude::*;
use vstd::arithmetic::div_mod::lemma_div_is_ordered;
use crate::collision::div_toward_zero;
use crate::geometry::{
    abs, is_unit, lemma_floor_sqrt_bounds, lemma_normalized, lemma_unit_components, min, normalize, normalized,
    scaled_length, Point, Rect, Velocity, ARENA_LIMIT, SCREEN_LIMIT, UNITS_PER_PIXEL,
    VEL_ONE,
};
use crate::random::random_below;

verus! {

pub const BALL_SIZE: i64 = 50 * UNITS_PER_PIXEL;

/// Ball speed in units per second.
pub const BALL_SPEED: i64 = 400 * UNITS_PER_PIXEL;

/// Longest step a ball takes in one update, in microseconds (a sixtieth of a second).
pub const FRAME_CAP: u64 = 16_666;

/// Distance covered along one axis with velocity component `v` in `dt`
/// microseconds, the elapsed time capped at `FRAME_CAP`.
pub open spec fn ball_travel(v: int, dt: u64) -> int {
    div_toward_zero(v * min(dt as int, FRAME_CAP as int), 25_000)
}

#[derive(Clone, Copy, Debug)]
pub struct Ball {
    pub rect: Rect,
    pub vel: Velocity,
}

/// A ball after one update: moved, bounced off the left, right and top edges
/// (clamped to the edge, that velocity component flipped), and renormalized.
/// The bottom edge does not reflect.
pub open spec fn ball_after_update(b: Ball, dt: u64, screen_width: int) -> Ball {
    let x0 = b.rect.x + ball_travel(b.vel.x as int, dt);
    let y0 = b.rect.y + ball_travel(b.vel.y as int, dt);
    let x1 = if x0 < 0 { 0 } else { x0 };
    let vx1 = if x0 < 0 { -b.vel.x } else { b.vel.x as int };
    let x2 = if x1 > screen_width - b.rect.w { screen_width - b.rect.w } else { x1 };
    let vx2 = if x1 > screen_width - b.rect.w { -vx1 } else { vx1 };
    let y1 = if y0 < 0 { 0 } else { y0 };
    let vy1 = if y0 < 0 { -b.vel.y } else { b.vel.y as int };
    Ball { rect: Rect { x: x2 as i64, y: y1 as i64, ..b.rect }, vel: normalized(vx2, vy1) }
}

proof fn lemma_travel_bound(v: int, dt: u64)
    requires
        -VEL_ONE <= v <= VEL_ONE,
    ensures
        -7000 <= ball_travel(v, dt) <= 7000,
{
    let t = min(dt as int, FRAME_CAP as int);
    assert(-VEL_ONE * FRAME_CAP <= v * t <= VEL_ONE * FRAME_CAP) by (nonlinear_arith)
        requires -VEL_ONE <= v <= VEL_ONE, 0 <= t <= FRAME_CAP;
}

fn travel(v: i64, dt: u64) -> (r: i64)
    requires
        -VEL_ONE <= v <= VEL_ONE,
    ensures
        r == ball_travel(v as int, dt),
        -7000 <= r <= 7000,
{
    proof {
        lemma_travel_bound(v as int, dt);
    }
    let t: i64 = if dt < FRAME_CAP { dt as i64 } else { FRAME_CAP as i64 };
    assert(-VEL_ONE * FRAME_CAP <= v * t <= VEL_ONE * FRAME_CAP) by (nonlinear_arith)
        requires -VEL_ONE <= v <= VEL_ONE, 0 <= t <= FRAME_CAP;
    let d: i64 = v * t;
    if d < 0 {
        -((-d) / 25_000)
    } else {
        d / 25_000
    }
}


/// The tangent of each whole angle from 0 to 45 degrees, in units of
/// `VEL_ONE`, rounded.
pub open spec fn slope_table() -> Seq<i64> {
    seq![0, 175, 349, 524, 699, 875, 1051, 1228, 1405, 1584, 1763, 1944, 2126, 2309, 2493, 2679, 2867, 3057, 3249, 3443, 3640, 3839, 4040, 4245, 4452, 4663, 4877, 5095, 5317, 5543, 5774, 6009, 6249, 6494, 6745, 7002, 7265, 7536, 7813, 8098, 8391, 8693, 9004, 9325, 9657, 10000]
}

/// The sideways component of a direction tilted `degrees` (-45 to 45) from
/// straight up, for an upward component of one.
pub open spec fn tilt_slope(degrees: int) -> int {
    if degrees < 0 {
        -slope_table()[-degrees]
    } else {
        slope_table()[degrees] as int
    }
}

/// The tangent of `degrees` (0 to 45), in units of `VEL_ONE`.
fn degree_slope(degrees: usize) -> (r: i64)
    requires
        degrees <= 45,
    ensures
        r == slope_table()[degrees as int],
        0 <= r <= VEL_ONE,
{
    let table: Vec<i64> = vec![0, 175, 349, 524, 699, 875, 1051, 1228, 1405, 1584, 1763, 1944, 2126, 2309, 2493, 2679, 2867, 3057, 3249, 3443, 3640, 3839, 4040, 4245, 4452, 4663, 4877, 5095, 5317, 5543, 5774, 6009, 6249, 6494, 6745, 7002, 7265, 7536, 7813, 8098, 8391, 8693, 9004, 9325, 9657, 10000];
    assert(table@ =~= slope_table());
    table[degrees]
}

impl Ball {
    /// A ball of the standard size moving in a unit direction.
    pub open spec fn wf(self) -> bool {
        self.rect.wf() && self.rect.w == BALL_SIZE && self.rect.h == BALL_SIZE && is_unit(
            self.vel,
        )
    }

    /// A ball at `pos` heading up, tilted by `dx` (between -1 and 1) to the
    /// side: the direction is `(dx, -1)` normalized, at most 45 degrees off
    /// straight up.
    pub fn with_direction(pos: Point, dx: i64) -> (r: Ball)
        requires
            -VEL_ONE <= dx <= VEL_ONE,
        ensures
            r.rect == (Rect { x: pos.x, y: pos.y, w: BALL_SIZE, h: BALL_SIZE }),
            r.vel == normalized(dx as int, -VEL_ONE),
            is_unit(r.vel),
            r.vel.y < 0,
            abs(r.vel.x as int) <= abs(r.vel.y as int),
    {
        let vel = normalize(dx, -VEL_ONE);
        proof {
            lemma_upward(dx as int);
        }
        Ball { rect: Rect::new(pos.x, pos.y, BALL_SIZE, BALL_SIZE), vel }
    }

    /// A ball at `pos` heading up in a random direction: a whole angle drawn
    /// uniformly from -45 to 45 degrees off vertical.
    pub fn new(pos: Point) -> (r: Ball)
        ensures
            r.rect == (Rect { x: pos.x, y: pos.y, w: BALL_SIZE, h: BALL_SIZE }),
            is_unit(r.vel),
            r.vel.y < 0,
            abs(r.vel.x as int) <= abs(r.vel.y as int),
            exists|d: int| -45 <= d <= 45 && r.vel == #[trigger] normalized(tilt_slope(d), -VEL_ONE),
    {
        let draw = random_below(91);
        let dx: i64 = if draw < 45 {
            -degree_slope(45 - draw)
        } else {
            degree_slope(draw - 45)
        };
        let b = Ball::with_direction(pos, dx);
        assert(b.vel == normalized(tilt_slope(draw - 45), -VEL_ONE));
        b
    }

    /// Advances the ball by `dt` microseconds (capped at `FRAME_CAP`),
    /// reflecting off the left, right and top edges of a play area
    /// `screen_width` wide.
    pub fn update(&mut self, dt: u64, screen_width: i64)
        requires
            old(self).wf(),
            old(self).rect.y <= ARENA_LIMIT,
            BALL_SIZE <= screen_width <= SCREEN_LIMIT,
        ensures
            *final(self) == ball_after_update(*old(self), dt, screen_width as int),
            final(self).wf(),
            0 <= final(self).rect.x <= screen_width - BALL_SIZE,
            0 <= final(self).rect.y <= max_zero(old(self).rect.y as int) + 7000,
    {
        proof {
            lemma_unit_components(self.vel);
        }
        let dx = travel(self.vel.x, dt);
        let dy = travel(self.vel.y, dt);
        let mut x: i64 = self.rect.x + dx;
        let mut y: i64 = self.rect.y + dy;
        let mut vx: i64 = self.vel.x;
        let mut vy: i64 = self.vel.y;
        if x < 0 {
            x = 0;
            vx = -vx;
        }
        if x > screen_width - self.rect.w {
            x = screen_width - self.rect.w;
            vx = -vx;
        }
        if y < 0 {
            y = 0;
            vy = -vy;
        }
        self.rect.x = x;
        self.rect.y = y;
        self.vel = normalize(vx, vy);
    }
}

pub open spec fn max_zero(v: int) -> int {
    if v < 0 {
        0
    } else {
        v
    }
}

/// `(dx, -1)` normalized points up, no further from vertical than sideways.
proof fn lemma_upward(dx: int)
    requires
        -VEL_ONE <= dx <= VEL_ONE,
    ensures
        normalized(dx, -VEL_ONE as int).y < 0,
        abs(normalized(dx, -VEL_ONE as int).x as int) <= abs(normalized(dx, -VEL_ONE as int).y as int),
{
    let s = VEL_ONE as int;
    lemma_normalized(dx, -s);
    let n = normalized(dx, -s);
    let len = scaled_length(dx, -s) as int;
    let big = VEL_ONE * VEL_ONE * (dx * dx + (-s) * (-s));
    assert(big >= 1) by (nonlinear_arith)
        requires big == s * s * (dx * dx + (-s) * (-s)), s == 10000;
    lemma_floor_sqrt_bounds(big as nat);
    assert(len >= 1) by (nonlinear_arith)
        requires big >= 1, big < (len + 1) * (len + 1), len >= 0;
    let a = abs(dx);
    assert(a * s * s <= s * s * s) by (nonlinear_arith)
        requires 0 <= a <= s, s > 0;
    assert(a * s * s >= 0) by (nonlinear_arith)
        requires 0 <= a, s > 0;
    lemma_div_is_ordered(a * s * s, s * s * s, len);
    assert(abs(n.x as int) == a * s * s / len);
    assert(abs(n.y as int) == s * s * s / len);
    assert(n.y != 0) by {
        if n.y == 0 {
            assert(n.x == 0);
            assert(n.x * n.x + n.y * n.y == 0) by (nonlinear_arith)
                requires n.x == 0, n.y == 0;
        }
    }
}

} // verus!
