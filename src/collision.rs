//! Resolution of a collision between a moving rectangle and a fixed one:
//! positional correction, reflection and paddle steering.
use vstd::prelude::*;
use vstd::arithmetic::div_mod::{lemma_fundamental_div_mod, lemma_mod_pos_bound};
use crate::geometry::{
    abs, intersection, is_unit, lemma_floor_sqrt_bounds, lemma_floor_sqrt_unique, lemma_normalized,
    lemma_unit_components, max, min, normalize,
    normalized, scaled_length, Rect, Velocity, VEL_LIMIT, VEL_ONE,
    COORD_LIMIT, SIZE_LIMIT,
};
use crate::player::PLAYER_HEIGHT;

verus! {

/// Direction of a push along one axis: `1` when the obstacle's centre lies at
/// a greater or equal coordinate than the mover's, `-1` otherwise.
pub open spec fn push_sign(to: int) -> int {
    if to >= 0 {
        1
    } else {
        -1
    }
}

/// Division that rounds toward zero.
pub open spec fn div_toward_zero(a: int, b: int) -> int {
    if a < 0 {
        -((-a) / b)
    } else {
        a / b
    }
}

pub open spec fn clamp_unit(v: int) -> int {
    if v < -VEL_ONE {
        -VEL_ONE as int
    } else if v > VEL_ONE {
        VEL_ONE as int
    } else {
        v
    }
}

/// Where along the paddle the ball hit: the distance between the centres over
/// half the paddle's width, in units of `VEL_ONE`, clamped to `[-1, 1]`.
pub open spec fn hit_offset(ball: Rect, paddle: Rect) -> int {
    clamp_unit(div_toward_zero((ball.centre2_x() - paddle.centre2_x()) * VEL_ONE, paddle.w as int))
}

/// The velocity after a bounce off the paddle's face: the hit offset times
/// 1.5 is added to the x component, the result normalized, and a y component
/// shorter than one half replaced by one half pointing `away`, then normalized again.
pub open spec fn steered(ball: Rect, paddle: Rect, vx: int, vy: int, away: int) -> Velocity {
    let x1 = vx + div_toward_zero(hit_offset(ball, paddle) * 3, 2);
    let n = if x1 == 0 && vy == 0 {
        Velocity { x: 0, y: 0 }
    } else {
        normalized(x1, vy)
    };
    let half = if away > 0 {
        VEL_ONE / 2
    } else {
        -(VEL_ONE / 2)
    };
    if abs(n.y as int) < VEL_ONE / 2 {
        normalized(n.x as int, half as int)
    } else {
        n
    }
}

/// Whether a collision resolves along the y axis: the overlap is wider than tall.
pub open spec fn resolves_vertically(overlap: Rect) -> bool {
    overlap.w > overlap.h
}

/// The outcome of moving rectangle `a` with velocity `v` against obstacle `b`:
/// `None` when they do not overlap, else the corrected rectangle and velocity.
pub open spec fn resolution(a: Rect, v: Velocity, b: Rect) -> Option<(Rect, Velocity)> {
    match intersection(a, b) {
        None => None,
        Some(i) => if resolves_vertically(i) {
            let sy = push_sign(b.centre2_y() - a.centre2_y());
            let moved = Rect { y: (if sy > 0 { a.y - i.h } else { a.y + i.h }) as i64, ..a };
            let vy = if sy > 0 {
                -abs(v.y as int)
            } else {
                abs(v.y as int)
            };
            let vel = if b.h == PLAYER_HEIGHT {
                steered(moved, b, v.x as int, vy, -sy)
            } else {
                Velocity { x: v.x, y: vy as i64 }
            };
            Some((moved, vel))
        } else {
            let sx = push_sign(b.centre2_x() - a.centre2_x());
            let moved = Rect { x: (if sx > 0 { a.x - i.w } else { a.x + i.w }) as i64, ..a };
            let vx = if sx < 0 {
                abs(v.x as int)
            } else {
                -abs(v.x as int)
            };
            Some((moved, Velocity { x: vx as i64, y: v.y }))
        },
    }
}

proof fn lemma_same_square(a: int, b: int)
    requires
        a == b || a == -b,
    ensures
        a * a == b * b,
{
    assert(a * a == b * b) by (nonlinear_arith)
        requires a == b || a == -b;
}

fn div_toward_zero_exec(a: i64, b: i64) -> (r: i64)
    requires
        b > 0,
        a > i64::MIN,
    ensures
        r == div_toward_zero(a as int, b as int),
{
    if a < 0 {
        -((-a) / b)
    } else {
        a / b
    }
}

fn steer(ball: &Rect, paddle: &Rect, vx: i64, vy: i64, away: i64) -> (r: Velocity)
    requires
        -COORD_LIMIT <= ball.x <= COORD_LIMIT,
        0 < ball.w <= SIZE_LIMIT,
        paddle.wf(),
        -VEL_ONE <= vx <= VEL_ONE,
        -VEL_ONE <= vy <= VEL_ONE,
        away == 1 || away == -1,
    ensures
        r == steered(*ball, *paddle, vx as int, vy as int, away as int),
        is_unit(r),
{
    let d: i64 = (2 * ball.x + ball.w) - (2 * paddle.x + paddle.w);
    let raw = div_toward_zero_exec(d * VEL_ONE, paddle.w);
    let offset: i64 = if raw < -VEL_ONE {
        -VEL_ONE
    } else if raw > VEL_ONE {
        VEL_ONE
    } else {
        raw
    };
    let x1: i64 = vx + div_toward_zero_exec(offset * 3, 2);
    let n = if x1 == 0 && vy == 0 {
        Velocity { x: 0, y: 0 }
    } else {
        normalize(x1, vy)
    };
    let ny: i64 = if n.y < 0 { -n.y } else { n.y };
    if ny < VEL_ONE / 2 {
        let half: i64 = if away > 0 { VEL_ONE / 2 } else { -(VEL_ONE / 2) };
        normalize(n.x, half)
    } else {
        n
    }
}

/// Resolves a collision of the moving rectangle `a` (velocity `vel`) with the
/// obstacle `b`. Without overlap nothing changes and the result is `false`.
/// Otherwise `a` is pushed out along the axis of shallower penetration, the
/// velocity is turned away from the obstacle on that axis (and steered when
/// the obstacle is the paddle), and the result is `true`.
pub fn resolve_collision(a: &mut Rect, vel: &mut Velocity, b: &Rect) -> (r: bool)
    requires
        old(a).wf(),
        b.wf(),
        is_unit(*old(vel)),
    ensures
        match resolution(*old(a), *old(vel), *b) {
            None => !r && *final(a) == *old(a) && *final(vel) == *old(vel),
            Some((moved, v)) => r && *final(a) == moved && *final(vel) == v,
        },
        is_unit(*final(vel)),
        final(a).w == old(a).w,
        final(a).h == old(a).h,
        min(old(a).x as int, b.x - old(a).w) <= final(a).x <= max(old(a).x as int, b.x + b.w),
        min(old(a).y as int, b.y - old(a).h) <= final(a).y <= max(old(a).y as int, b.y + b.h),
{
    let i = match a.intersect(b) {
        Some(i) => i,
        None => return false,
    };
    proof {
        lemma_unit_components(*vel);
    }
    if i.w > i.h {
        let to_y: i64 = (2 * b.y + b.h) - (2 * a.y + a.h);
        let sy: i64 = if to_y >= 0 { 1 } else { -1 };
        assert(0 < i.h <= a.h && 0 < i.w <= a.w);
        a.y = if sy > 0 { a.y - i.h } else { a.y + i.h };
        let vy: i64 = if sy > 0 {
            if vel.y < 0 { vel.y } else { -vel.y }
        } else {
            if vel.y < 0 { -vel.y } else { vel.y }
        };
        if b.h == PLAYER_HEIGHT {
            *vel = steer(a, b, vel.x, vy, -sy);
        } else {
            vel.y = vy;
            proof {
                lemma_same_square(vy as int, old(vel).y as int);
            }
        }
    } else {
        let to_x: i64 = (2 * b.x + b.w) - (2 * a.x + a.w);
        let sx: i64 = if to_x >= 0 { 1 } else { -1 };
        assert(0 < i.h <= a.h && 0 < i.w <= a.w);
        a.x = if sx > 0 { a.x - i.w } else { a.x + i.w };
        if sx < 0 {
            if vel.x < 0 {
                vel.x = -vel.x;
            }
        } else {
            if vel.x > 0 {
                vel.x = -vel.x;
            }
        }
        proof {
            lemma_same_square(vel.x as int, old(vel).x as int);
        }
    }
    true
}


/// Two extents `[a0, a1)` and `[b0, b1)` on one axis of which neither lies
/// strictly inside the other.
pub open spec fn not_nested(a0: int, a1: int, b0: int, b1: int) -> bool {
    (a0 <= b0 && a1 <= b1) || (b0 <= a0 && b1 <= a1)
}

/// The extents of `a` and `b` on the axis along which their overlap resolves
/// are not nested.
pub open spec fn simple_overlap(a: Rect, b: Rect) -> bool {
    match intersection(a, b) {
        None => false,
        Some(i) => if resolves_vertically(i) {
            not_nested(a.y as int, a.bottom_edge(), b.y as int, b.bottom_edge())
        } else {
            not_nested(a.x as int, a.right_edge(), b.x as int, b.right_edge())
        },
    }
}

/// No tunneling: when the extents on the resolution axis are not nested, the
/// corrected rectangle no longer overlaps the obstacle on that axis; it ends
/// flush against the side it came from.
pub proof fn lemma_no_tunneling(a: Rect, v: Velocity, b: Rect)
    requires
        a.wf(),
        b.wf(),
        simple_overlap(a, b),
    ensures
        resolution(a, v, b) is Some,
        ({
            let moved = resolution(a, v, b).unwrap().0;
            let i = intersection(a, b).unwrap();
            if resolves_vertically(i) {
                moved.bottom_edge() <= b.y || b.bottom_edge() <= moved.y
            } else {
                moved.right_edge() <= b.x || b.right_edge() <= moved.x
            }
        }),
{
}

/// A bounce off the paddle's face leaves the ball moving away from the paddle
/// with a y component of at least two fifths of its speed.
pub proof fn lemma_paddle_bounce_steep(a: Rect, v: Velocity, b: Rect)
    requires
        a.wf(),
        b.wf(),
        is_unit(v),
        b.h == PLAYER_HEIGHT,
        intersection(a, b) is Some,
        resolves_vertically(intersection(a, b).unwrap()),
    ensures
        ({
            let vel = resolution(a, v, b).unwrap().1;
            &&& abs(vel.y as int) >= 2 * VEL_ONE / 5
            &&& b.centre2_y() >= a.centre2_y() ==> vel.y < 0
            &&& b.centre2_y() < a.centre2_y() ==> vel.y > 0
        }),
{
    lemma_unit_components(v);
    let i = intersection(a, b).unwrap();
    let sy = push_sign(b.centre2_y() - a.centre2_y());
    let moved = Rect { y: (if sy > 0 { a.y - i.h } else { a.y + i.h }) as i64, ..a };
    let vy = if sy > 0 { -abs(v.y as int) } else { abs(v.y as int) };
    let x1 = v.x + div_toward_zero(hit_offset(moved, b) * 3, 2);
    assert(-VEL_ONE <= hit_offset(moved, b) <= VEL_ONE);
    assert(-VEL_LIMIT <= x1 <= VEL_LIMIT);
    let n = if x1 == 0 && vy == 0 {
        Velocity { x: 0, y: 0 }
    } else {
        normalized(x1, vy)
    };
    if !(x1 == 0 && vy == 0) {
        lemma_normalized(x1, vy);
    }
    assert(resolution(a, v, b).unwrap().1 == steered(moved, b, v.x as int, vy, -sy));
    if abs(n.y as int) < VEL_ONE / 2 {
        let half = if sy > 0 { -(VEL_ONE / 2) } else { VEL_ONE / 2 };
        lemma_normalized(n.x as int, half);
        lemma_steep_after_clamp(n.x as int, half);
        assert(steered(moved, b, v.x as int, vy, -sy) == normalized(n.x as int, half));
        assert(abs(normalized(n.x as int, half).y as int) >= 4000);
        assert(sy > 0 ==> normalized(n.x as int, half).y < 0);
        assert(sy < 0 ==> normalized(n.x as int, half).y > 0);
    } else {
        assert(steered(moved, b, v.x as int, vy, -sy) == n);
        assert(abs(n.y as int) >= 4000);
        assert(sy > 0 ==> n.y < 0);
        assert(sy < 0 ==> n.y > 0);
    }
}

/// Normalizing `(x, ±half)` with `|x| <= 1` keeps a y component of at least
/// two fifths.
proof fn lemma_steep_after_clamp(x: int, y: int)
    requires
        -VEL_ONE <= x <= VEL_ONE,
        y == VEL_ONE / 2 || y == -(VEL_ONE / 2),
    ensures
        abs(normalized(x, y).y as int) >= 2 * VEL_ONE / 5,
{
    let s = VEL_ONE as int;
    let big = s * s * (x * x + y * y);
    assert(x * x <= s * s) by (nonlinear_arith)
        requires -s <= x <= s;
    assert(y * y == 25_000_000) by (nonlinear_arith)
        requires y == 5000 || y == -5000;
    assert(0 <= big <= 12_500_000_000_000_000) by (nonlinear_arith)
        requires big == s * s * (x * x + y * y), x * x <= s * s, y * y == 25_000_000, s == 10000;
    lemma_floor_sqrt_bounds(big as nat);
    let len = scaled_length(x, y) as int;
    assert(len < 125_000_000) by {
        if len >= 125_000_000 {
            lemma_square_ge(len, 125_000_000);
        }
    }
    assert(len >= 1) by (nonlinear_arith)
        requires big >= 0, big < (len + 1) * (len + 1), len >= 0, big == s * s * (x * x + y * y),
            y * y == 25_000_000, s == 10000;
    let c = 5000 * s * s;
    let q = c / len;
    lemma_fundamental_div_mod(c, len);
    lemma_mod_pos_bound(c, len);
    assert(q >= 4000) by (nonlinear_arith)
        requires c == len * q + c % len, 0 <= c % len < len, len < 125_000_000, len >= 1,
            c == 500_000_000_000;
}

proof fn lemma_square_ge(a: int, b: int)
    requires
        a >= b >= 0,
    ensures
        a * a >= b * b,
{
    assert(a * a >= b * b) by (nonlinear_arith)
        requires a >= b >= 0;
}

/// A ball falling straight down onto the middle of the paddle bounces
/// straight back up.
pub proof fn lemma_centre_hit_vertical(a: Rect, v: Velocity, b: Rect)
    requires
        a.wf(),
        b.wf(),
        is_unit(v),
        v.x == 0,
        b.h == PLAYER_HEIGHT,
        a.centre2_x() == b.centre2_x(),
        intersection(a, b) is Some,
        resolves_vertically(intersection(a, b).unwrap()),
        b.centre2_y() >= a.centre2_y(),
    ensures
        resolution(a, v, b).unwrap().1 == (Velocity { x: 0, y: (-VEL_ONE) as i64 }),
{
    let s = VEL_ONE as int;
    let i = intersection(a, b).unwrap();
    let moved = Rect { y: (a.y - i.h) as i64, ..a };
    let vy = -abs(v.y as int);
    assert(hit_offset(moved, b) == 0);
    let m = abs(v.y as int);
    assert(v.y * v.y == m * m) by (nonlinear_arith)
        requires m == abs(v.y as int);
    assert(m >= 1) by (nonlinear_arith)
        requires m * m >= s * s - 4 * s - 1, m >= 0, s == 10000;
    assert(m <= s + 1) by (nonlinear_arith)
        requires m * m <= s * s + 2 * s, m >= 0, s == 10000;
    let r = s * m;
    assert(vy * vy == m * m) by (nonlinear_arith)
        requires vy == -m;
    let big = VEL_ONE * VEL_ONE * (0int * 0int + vy * vy);
    assert(big == r * r) by (nonlinear_arith)
        requires big == s * s * (0int * 0int + vy * vy), vy * vy == m * m, r == s * m;
    assert(r * r <= big < (r + 1) * (r + 1)) by (nonlinear_arith)
        requires big == r * r, r >= 0;
    lemma_floor_sqrt_unique(big as nat, r as nat);
    assert(scaled_length(0, vy) == r);
    assert(m * s * s / r == s) by (nonlinear_arith)
        requires r == s * m, m >= 1, s == 10000;
    assert(normalized(0, vy) == Velocity { x: 0, y: (-VEL_ONE) as i64 });
    assert(steered(moved, b, 0, vy, -1) == Velocity { x: 0, y: (-VEL_ONE) as i64 });
}

} // verus!
