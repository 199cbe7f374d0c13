//! Falling power-ups that widen the paddle when caught.
use vstd::prelude::*;
use crate::geometry::{min, Point, Rect, Velocity, ARENA_LIMIT, UNITS_PER_PIXEL, VEL_ONE};

verus! {

pub const POWERUP_SIZE: i64 = 30 * UNITS_PER_PIXEL;

/// Elapsed time beyond this many microseconds (a thousand seconds) carries a
/// power-up no further: it has long left any play area.
pub const POWERUP_DT_CAP: u64 = 1_000_000_000;

/// Distance a power-up falls in `dt` microseconds at fall speed `vy`
/// (`VEL_ONE` is 200 pixels a second).
pub open spec fn fall_distance(vy: int, dt: u64) -> int {
    vy * min(dt as int, POWERUP_DT_CAP as int) / 50_000
}

#[derive(Clone, Copy, Debug)]
pub struct Powerup {
    pub rect: Rect,
    pub vel: Velocity,
}

impl Powerup {
    /// A power-up falling straight down.
    pub open spec fn wf(self) -> bool {
        self.rect.wf() && self.rect.w == POWERUP_SIZE && self.rect.h == POWERUP_SIZE
            && self.vel.x == 0 && 0 <= self.vel.y <= VEL_ONE
    }

    /// A power-up at `pos`, falling.
    pub fn new(pos: Point) -> (r: Powerup)
        ensures
            r.rect == (Rect { x: pos.x, y: pos.y, w: POWERUP_SIZE, h: POWERUP_SIZE }),
            r.vel == (Velocity { x: 0, y: VEL_ONE }),
    {
        Powerup {
            rect: Rect::new(pos.x, pos.y, POWERUP_SIZE, POWERUP_SIZE),
            vel: Velocity { x: 0, y: VEL_ONE },
        }
    }

    /// Moves the power-up down for `dt` microseconds.
    pub fn update(&mut self, dt: u64)
        requires
            old(self).wf(),
            old(self).rect.y <= ARENA_LIMIT,
        ensures
            final(self).rect == (Rect {
                y: (old(self).rect.y + fall_distance(old(self).vel.y as int, dt)) as i64,
                ..old(self).rect
            }),
            final(self).vel == old(self).vel,
            old(self).rect.y <= final(self).rect.y <= old(self).rect.y + 200_000_000,
            final(self).wf(),
    {
        let t: i64 = if dt < POWERUP_DT_CAP { dt as i64 } else { POWERUP_DT_CAP as i64 };
        let vy: i64 = self.vel.y;
        assert(0 <= vy * t <= VEL_ONE * POWERUP_DT_CAP) by (nonlinear_arith)
            requires 0 <= vy <= VEL_ONE, 0 <= t <= POWERUP_DT_CAP;
        let fall: i64 = vy * t / 50_000;
        self.rect.y = self.rect.y + fall;
    }
}

} // verus!
