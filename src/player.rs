//! The paddle.
use vstd::prelude::*;
use crate::geometry::{min, Rect, SCREEN_LIMIT, SIZE_LIMIT, UNITS_PER_PIXEL};

verus! {

/// The paddle's width when a game starts.
pub const PLAYER_WIDTH: i64 = 150 * UNITS_PER_PIXEL;

/// The paddle's height; no other obstacle is this tall.
pub const PLAYER_HEIGHT: i64 = 40 * UNITS_PER_PIXEL;

/// How far above the bottom of the play area the paddle's top edge sits.
pub const PLAYER_LIFT: i64 = 100 * UNITS_PER_PIXEL;

/// Narrowest play area: a ball must fit between the side walls, which is
/// also wide enough for a row of fourteen blocks with their gaps.
pub const MIN_SCREEN_WIDTH: i64 = 50 * UNITS_PER_PIXEL;

/// Lowest play area: any positive height.
pub const MIN_SCREEN_HEIGHT: i64 = 1;

/// How much wider a collected power-up makes the paddle.
pub const PLAYER_GROWTH: i64 = 50 * UNITS_PER_PIXEL;

/// Elapsed time beyond this many microseconds moves the paddle no further
/// than it would anyway: the move already spans any play area.
pub const PLAYER_DT_CAP: u64 = 1_000_000_000;

/// Play-area dimensions the game is laid out for.
pub open spec fn valid_screen(width: int, height: int) -> bool {
    MIN_SCREEN_WIDTH <= width <= SCREEN_LIMIT && MIN_SCREEN_HEIGHT <= height <= SCREEN_LIMIT
}


/// Distance the paddle travels in `dt` microseconds: 700 pixels a second.
pub open spec fn paddle_travel(dt: u64) -> int {
    7 * min(dt as int, PLAYER_DT_CAP as int) / 10
}

/// The paddle's displacement for the held keys: left and right together cancel.
pub open spec fn paddle_shift(dt: u64, left: bool, right: bool) -> int {
    if left && !right {
        -paddle_travel(dt)
    } else if right && !left {
        paddle_travel(dt)
    } else {
        0
    }
}

/// `v` raised to zero, then lowered to `hi`.
pub open spec fn clamp_to(v: int, hi: int) -> int {
    let raised = if v < 0 { 0 } else { v };
    if raised > hi {
        hi
    } else {
        raised
    }
}

#[derive(Clone, Copy, Debug)]
pub struct Player {
    pub rect: Rect,
}

impl Player {
    /// A paddle of the fixed height within the arena.
    pub open spec fn wf(self) -> bool {
        self.rect.in_arena() && self.rect.h == PLAYER_HEIGHT
    }

    /// Where a new paddle stands: centred horizontally, its top edge
    /// `PLAYER_LIFT` above the bottom of the play area.
    pub open spec fn start_rect(screen_width: int, screen_height: int) -> Rect {
        Rect {
            x: (screen_width / 2 - PLAYER_WIDTH / 2) as i64,
            y: (screen_height - PLAYER_LIFT) as i64,
            w: PLAYER_WIDTH,
            h: PLAYER_HEIGHT,
        }
    }

    /// A paddle of the starting size, centred horizontally, `PLAYER_LIFT`
    /// above the bottom edge.
    pub fn new(screen_width: i64, screen_height: i64) -> (r: Player)
        requires
            valid_screen(screen_width as int, screen_height as int),
        ensures
            r.rect == Player::start_rect(screen_width as int, screen_height as int),
            r.wf(),
    {
        Player {
            rect: Rect::new(
                screen_width / 2 - PLAYER_WIDTH / 2,
                screen_height - PLAYER_LIFT,
                PLAYER_WIDTH,
                PLAYER_HEIGHT,
            ),
        }
    }

    /// Moves the paddle by the held keys for `dt` microseconds, keeping it
    /// inside the play area horizontally.
    pub fn update(&mut self, dt: u64, left: bool, right: bool, screen_width: i64)
        requires
            old(self).wf(),
            0 < screen_width <= SCREEN_LIMIT,
        ensures
            final(self).rect == (Rect {
                x: clamp_to(
                    old(self).rect.x + paddle_shift(dt, left, right),
                    screen_width - old(self).rect.w,
                ) as i64,
                ..old(self).rect
            }),
            final(self).wf(),
    {
        let capped: u64 = if dt < PLAYER_DT_CAP { dt } else { PLAYER_DT_CAP };
        let travel: i64 = (7 * capped / 10) as i64;
        let mut x: i64 = self.rect.x;
        if left {
            x = x - travel;
        }
        if right {
            x = x + travel;
        }
        assert(x == old(self).rect.x + paddle_shift(dt, left, right));
        if x < 0 {
            x = 0;
        }
        if x > screen_width - self.rect.w {
            x = screen_width - self.rect.w;
        }
        self.rect.x = x;
    }

    /// Widens the paddle by `PLAYER_GROWTH`, up to `max_width`.
    pub fn grow(&mut self, max_width: i64)
        requires
            old(self).rect.in_arena(),
            0 < max_width <= SIZE_LIMIT,
        ensures
            final(self).wf() == old(self).wf(),
            final(self).rect == (Rect { w: min(old(self).rect.w + PLAYER_GROWTH, max_width as int) as i64, ..old(self).rect }),
    {
        let grown: i64 = self.rect.w + PLAYER_GROWTH;
        self.rect.w = if grown < max_width { grown } else { max_width };
    }
}

} // verus!
