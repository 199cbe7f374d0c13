//! The game session: score, lives, level, the live entities, and the state
//! machine that moves between the menu, play, a completed level and game over.
use vstd::prelude::*;
use crate::ball::{ball_after_update, Ball, BALL_SIZE};
use crate::block::{hit_outcome, starting_lives, Block, BlockType};
use crate::board::{init_blocks, level_blocks};
use crate::collision::{resolution, resolve_collision};
use crate::geometry::{
    abs, is_unit, min, overlapping, Point, Rect, Velocity, VEL_ONE, ARENA_LIMIT, SCREEN_LIMIT, SIZE_LIMIT, UNITS_PER_PIXEL,
};
use crate::player::{clamp_to, paddle_shift, valid_screen, Player, PLAYER_GROWTH};
use crate::powerup::{fall_distance, Powerup, POWERUP_SIZE};

verus! {

/// Lives at the start of a game.
pub const STARTING_LIVES: u32 = 3;

/// Points for each destroyed block.
pub const SCORE_PER_BLOCK: u64 = 10;

/// How far above the paddle a replacement ball appears.
pub const RESPAWN_LIFT: i64 = 50 * UNITS_PER_PIXEL;

#[derive(Clone, Copy, Debug, PartialEq, Eq, Structural)]
pub enum GameState {
    Menu,
    Game,
    LevelCompleted,
    Dead,
}

/// Events the game reports for sound playback.
#[derive(Clone, Copy, Debug, PartialEq, Eq, Structural)]
pub enum Sound {
    PaddleHit,
    BlockHit,
    BlockDestroyed,
    LifeLost,
    LevelCompleted,
    PowerupCollected,
    WallHit,
}

impl Sound {
    /// The event's symbolic name.
    pub fn name(&self) -> (r: &'static str)
        ensures
            *self == Sound::PaddleHit ==> r@ == "paddle_hit"@,
            *self == Sound::BlockHit ==> r@ == "block_hit"@,
            *self == Sound::BlockDestroyed ==> r@ == "block_destroyed"@,
            *self == Sound::LifeLost ==> r@ == "life_lost"@,
            *self == Sound::LevelCompleted ==> r@ == "level_completed"@,
            *self == Sound::PowerupCollected ==> r@ == "powerup_collected"@,
            *self == Sound::WallHit ==> r@ == "wall_hit"@,
    {
        match self {
            Sound::PaddleHit => "paddle_hit",
            Sound::BlockHit => "block_hit",
            Sound::BlockDestroyed => "block_destroyed",
            Sound::LifeLost => "life_lost",
            Sound::LevelCompleted => "level_completed",
            Sound::PowerupCollected => "powerup_collected",
            Sound::WallHit => "wall_hit",
        }
    }
}

/// How many times `s` occurs in `sounds`.
pub open spec fn count_sound(sounds: Seq<Sound>, s: Sound) -> nat
    decreases sounds.len(),
{
    if sounds.len() == 0 {
        0
    } else {
        count_sound(sounds.drop_last(), s) + if sounds.last() == s {
            1nat
        } else {
            0nat
        }
    }
}

/// `score` plus `n` blocks' worth of points, saturating at `u64::MAX`.
pub open spec fn add_points(score: int, n: int) -> int {
    min(score + SCORE_PER_BLOCK * n, u64::MAX as int)
}

/// The paddle and the power-ups after catching: each power-up, in order, that
/// overlaps the paddle (as widened by those caught before it) is removed and
/// widens the paddle by `PLAYER_GROWTH`, up to `max_width`. Also gives the
/// number caught.
pub open spec fn catch_powerups(paddle: Rect, powerups: Seq<Powerup>, max_width: int) -> (
    Rect,
    Seq<Powerup>,
    nat,
)
    decreases powerups.len(),
{
    if powerups.len() == 0 {
        (paddle, powerups, 0)
    } else {
        let (p, kept, n) = catch_powerups(paddle, powerups.drop_last(), max_width);
        let last = powerups.last();
        if overlapping(last.rect, p) {
            (Rect { w: min(p.w + PLAYER_GROWTH, max_width) as i64, ..p }, kept, n + 1)
        } else {
            (p, kept.push(last), n)
        }
    }
}

proof fn lemma_catch_bounds(paddle: Rect, powerups: Seq<Powerup>, max_width: int)
    requires
        paddle.in_arena(),
        0 < max_width <= SIZE_LIMIT,
    ensures
        ({
            let (p, kept, n) = catch_powerups(paddle, powerups, max_width);
            &&& p.in_arena()
            &&& p.x == paddle.x && p.y == paddle.y && p.h == paddle.h
            &&& kept.len() + n == powerups.len()
            &&& forall|i: int| 0 <= i < kept.len() ==> exists|j: int| 0 <= j < powerups.len() && #[trigger] kept[i] == powerups[j]
        }),
    decreases powerups.len(),
{
    if powerups.len() > 0 {
        lemma_catch_bounds(paddle, powerups.drop_last(), max_width);
        let (p, kept, n) = catch_powerups(paddle, powerups.drop_last(), max_width);
        assert forall|i: int| 0 <= i < kept.len() implies exists|j: int| 0 <= j < powerups.len() && #[trigger] kept[i] == powerups[j] by {
            let j = choose|j: int| 0 <= j < powerups.drop_last().len() && kept[i] == powerups.drop_last()[j];
            assert(powerups[j] == powerups.drop_last()[j]);
        }
        let last = powerups.last();
        if !overlapping(last.rect, p) {
            let kept2 = kept.push(last);
            assert forall|i: int| 0 <= i < kept2.len() implies exists|j: int| 0 <= j < powerups.len() && #[trigger] kept2[i] == powerups[j] by {
                if i < kept.len() {
                    assert(kept2[i] == kept[i]);
                } else {
                    assert(kept2[i] == powerups[powerups.len() - 1]);
                }
            }
        }
    }
}

/// Removes the power-ups that the paddle catches, widening the paddle by
/// `PLAYER_GROWTH` for each (never beyond a third of the play area), and
/// reports a `PowerupCollected` sound for each.
pub fn handle_powerup_collision(
    player: &mut Player,
    powerups: &mut Vec<Powerup>,
    screen_width: i64,
    sounds: &mut Vec<Sound>,
)
    requires
        old(player).wf(),
        3 <= screen_width <= 3 * SIZE_LIMIT,
        forall|i: int| 0 <= i < old(powerups)@.len() ==> (#[trigger] old(powerups)@[i]).wf(),
    ensures
        ({
            let (p, kept, n) = catch_powerups(old(player).rect, old(powerups)@, screen_width / 3);
            &&& final(player).rect == p
            &&& final(powerups)@ == kept
            &&& final(sounds)@ == old(sounds)@ + Seq::new(n, |i: int| Sound::PowerupCollected)
        }),
        final(player).wf(),
        forall|i: int| 0 <= i < final(powerups)@.len() ==> (#[trigger] final(powerups)@[i]).wf(),
{
    let max_width: i64 = screen_width / 3;
    let n = powerups.len();
    let mut kept: Vec<Powerup> = Vec::new();
    let mut k: usize = 0;
    let ghost caught: nat = 0;
    while k < n
        invariant
            n == old(powerups)@.len(),
            powerups@ == old(powerups)@,
            max_width == screen_width / 3,
            0 < max_width <= SIZE_LIMIT,
            k <= n,
            (player.rect, kept@, caught) == catch_powerups(
                old(player).rect,
                old(powerups)@.take(k as int),
                max_width as int,
            ),
            player.wf(),
            sounds@ == old(sounds)@ + Seq::new(caught, |i: int| Sound::PowerupCollected),
            forall|i: int| 0 <= i < old(powerups)@.len() ==> (#[trigger] old(powerups)@[i]).wf(),
        decreases n - k,
    {
        assert(old(powerups)@.take(k + 1).drop_last() =~= old(powerups)@.take(k as int));
        let p = powerups[k];
        if p.rect.overlaps(&player.rect) {
            player.grow(max_width);
            sounds.push(Sound::PowerupCollected);
            proof {
                caught = caught + 1;
                assert(sounds@ =~= old(sounds)@ + Seq::new(caught, |i: int| Sound::PowerupCollected));
            }
        } else {
            kept.push(p);
        }
        k = k + 1;
    }
    assert(old(powerups)@.take(n as int) =~= old(powerups)@);
    proof {
        lemma_catch_bounds(old(player).rect, old(powerups)@, max_width as int);
    }
    *powerups = kept;
}

/// The session: state, score, lives, level and the live entities.
pub struct Game {
    pub state: GameState,
    pub score: u64,
    pub lives: u32,
    pub level: usize,
    pub player: Player,
    pub blocks: Vec<Block>,
    pub balls: Vec<Ball>,
    pub powerups: Vec<Powerup>,
}

impl Game {
    /// Entities the frame step can work on: a proper paddle, active blocks,
    /// balls of unit speed and falling power-ups, all within the arena.
    pub open spec fn wf(self) -> bool {
        &&& self.level >= 1
        &&& self.player.wf()
        &&& forall|i: int| 0 <= i < self.blocks@.len() ==> (#[trigger] self.blocks@[i]).wf()
        &&& forall|i: int|
            0 <= i < self.balls@.len() ==> (#[trigger] self.balls@[i]).wf()
                && self.balls@[i].rect.y <= ARENA_LIMIT
        &&& forall|i: int|
            0 <= i < self.powerups@.len() ==> (#[trigger] self.powerups@[i]).wf()
                && self.powerups@[i].rect.y <= ARENA_LIMIT
    }

    /// The entities of a fresh level: a new paddle, the level's blocks and a
    /// single new ball in the middle of the play area, heading up.
    pub open spec fn fresh_level(self, screen_width: int, screen_height: int) -> bool {
        &&& self.player.rect == Player::start_rect(screen_width, screen_height)
        &&& level_blocks(self.blocks@, self.level as int, screen_width)
        &&& self.blocks@.len() >= 1
        &&& self.balls@.len() == 1
        &&& fresh_ball_at(self.balls@[0], Point { x: (screen_width / 2) as i64, y: (screen_height / 2) as i64 })
    }

    /// A session in the menu at level 1 with a fresh level, no score and
    /// the starting lives.
    pub fn new(screen_width: i64, screen_height: i64) -> (r: Game)
        requires
            valid_screen(screen_width as int, screen_height as int),
        ensures
            r.wf(),
            r.state == GameState::Menu,
            r.score == 0,
            r.lives == STARTING_LIVES,
            r.level == 1,
            r.fresh_level(screen_width as int, screen_height as int),
            r.powerups@.len() == 0,
    {
        let mut game = Game {
            state: GameState::Menu,
            score: 0,
            lives: STARTING_LIVES,
            level: 1,
            player: Player::new(screen_width, screen_height),
            blocks: Vec::new(),
            balls: Vec::new(),
            powerups: Vec::new(),
        };
        game.reset_game(false, screen_width, screen_height);
        game
    }

    /// Sets up the current level afresh: new paddle, the level's blocks and
    /// one ball in the middle. Unless the level was completed (a new game),
    /// score and lives start over too.
    pub fn reset_game(&mut self, level_completed: bool, screen_width: i64, screen_height: i64)
        requires
            old(self).wf(),
            valid_screen(screen_width as int, screen_height as int),
        ensures
            final(self).wf(),
            final(self).fresh_level(screen_width as int, screen_height as int),
            final(self).state == old(self).state,
            final(self).level == old(self).level,
            final(self).powerups == old(self).powerups,
            level_completed ==> final(self).score == old(self).score && final(self).lives
                == old(self).lives,
            !level_completed ==> final(self).score == 0 && final(self).lives == STARTING_LIVES,
    {
        self.player = Player::new(screen_width, screen_height);
        init_blocks(&mut self.blocks, self.level, screen_width);
        if !level_completed {
            self.score = 0;
            self.lives = STARTING_LIVES;
        }
        let ball = Ball::new(Point { x: screen_width / 2, y: screen_height / 2 });
        self.balls = Vec::new();
        self.balls.push(ball);
    }

    /// The continue input. From the menu, play starts with the entities as
    /// they are. After a completed level, the next level is set up, keeping
    /// score and lives. After game over, a new game is set up at level 1.
    /// Either way the game returns to the menu. During play nothing happens.
    pub fn press_continue(&mut self, screen_width: i64, screen_height: i64)
        requires
            old(self).wf(),
            valid_screen(screen_width as int, screen_height as int),
        ensures
            final(self).wf(),
            continue_outcome(*old(self), *final(self), screen_width as int, screen_height as int),
    {
        match self.state {
            GameState::Menu => {
                self.state = GameState::Game;
            },
            GameState::Game => {},
            GameState::LevelCompleted => {
                if self.level < usize::MAX {
                    self.level = self.level + 1;
                }
                self.reset_game(true, screen_width, screen_height);
                self.state = GameState::Menu;
            },
            GameState::Dead => {
                self.level = 1;
                self.reset_game(false, screen_width, screen_height);
                self.state = GameState::Menu;
            },
        }
    }

    /// Jumps straight into play at `level`, keeping score and lives.
    pub fn jump_to_level(&mut self, level: usize, screen_width: i64, screen_height: i64)
        requires
            old(self).wf(),
            level >= 1,
            valid_screen(screen_width as int, screen_height as int),
        ensures
            final(self).wf(),
            final(self).state == GameState::Game,
            final(self).level == level,
            final(self).score == old(self).score,
            final(self).lives == old(self).lives,
            final(self).fresh_level(screen_width as int, screen_height as int),
    {
        self.level = level;
        self.reset_game(true, screen_width, screen_height);
        self.state = GameState::Game;
    }
}

proof fn lemma_count_concat(a: Seq<Sound>, b: Seq<Sound>, s: Sound)
    ensures
        count_sound(a + b, s) == count_sound(a, s) + count_sound(b, s),
    decreases b.len(),
{
    if b.len() > 0 {
        lemma_count_concat(a, b.drop_last(), s);
        assert((a + b).drop_last() =~= a + b.drop_last());
    } else {
        assert(a + b =~= a);
    }
}

proof fn lemma_count_repeat(n: nat, t: Sound, s: Sound)
    ensures
        count_sound(Seq::new(n, |i: int| t), s) == if t == s { n } else { 0 },
    decreases n,
{
    if n > 0 {
        lemma_count_repeat((n - 1) as nat, t, s);
        assert(Seq::new(n, |i: int| t).drop_last() =~= Seq::new((n - 1) as nat, |i: int| t));
    }
}

proof fn lemma_count_single(x: Sound, s: Sound)
    ensures
        count_sound(seq![x], s) == if x == s { 1nat } else { 0nat },
        count_sound(Seq::empty(), s) == 0,
{
    let one = seq![x];
    assert(one.drop_last() =~= Seq::<Sound>::empty());
    assert(one.last() == x);
    assert(count_sound(Seq::<Sound>::empty(), s) == 0);
    assert(count_sound(one, s) == count_sound(one.drop_last(), s) + if one.last() == s { 1nat } else { 0nat });
}

/// The number of blocks with lives left.
pub open spec fn live_count(blocks: Seq<Block>) -> nat
    decreases blocks.len(),
{
    if blocks.len() == 0 {
        0
    } else {
        live_count(blocks.drop_last()) + if blocks.last().lives > 0 {
            1nat
        } else {
            0nat
        }
    }
}

proof fn lemma_live_count_update(blocks: Seq<Block>, j: int, b: Block)
    requires
        0 <= j < blocks.len(),
    ensures
        live_count(blocks.update(j, b)) + (if blocks[j].lives > 0 { 1int } else { 0int })
            == live_count(blocks) + (if b.lives > 0 { 1int } else { 0int }),
    decreases blocks.len(),
{
    if j < blocks.len() - 1 {
        lemma_live_count_update(blocks.drop_last(), j, b);
        assert(blocks.update(j, b).drop_last() =~= blocks.drop_last().update(j, b));
    } else {
        assert(blocks.update(j, b).drop_last() =~= blocks.drop_last());
    }
}

proof fn lemma_live_count_bound(blocks: Seq<Block>)
    ensures
        live_count(blocks) <= blocks.len(),
    decreases blocks.len(),
{
    if blocks.len() > 0 {
        lemma_live_count_bound(blocks.drop_last());
    }
}

/// The blocks that still have lives, in order.
pub open spec fn survivors(blocks: Seq<Block>) -> Seq<Block>
    decreases blocks.len(),
{
    if blocks.len() == 0 {
        blocks
    } else if blocks.last().lives > 0 {
        survivors(blocks.drop_last()).push(blocks.last())
    } else {
        survivors(blocks.drop_last())
    }
}

proof fn lemma_survivors(blocks: Seq<Block>)
    ensures
        survivors(blocks).len() == live_count(blocks),
        forall|i: int|
            0 <= i < survivors(blocks).len() ==> (#[trigger] survivors(blocks)[i]).lives > 0
                && exists|j: int| 0 <= j < blocks.len() && survivors(blocks)[i] == blocks[j],
    decreases blocks.len(),
{
    if blocks.len() > 0 {
        let prev = blocks.drop_last();
        lemma_survivors(prev);
        let sv = survivors(blocks);
        assert forall|i: int| 0 <= i < sv.len() implies (#[trigger] sv[i]).lives > 0 && exists|j: int|
            0 <= j < blocks.len() && sv[i] == blocks[j] by {
            if i < survivors(prev).len() {
                assert(sv[i] == survivors(prev)[i]);
                let j = choose|j: int| 0 <= j < prev.len() && survivors(prev)[i] == prev[j];
                assert(blocks[j] == prev[j]);
            } else {
                assert(sv[i] == blocks[blocks.len() - 1]);
            }
        }
    }
}

/// A block during a frame: in the arena, with at most its starting lives.
pub open spec fn block_in_play(b: Block) -> bool {
    b.rect.in_arena() && b.lives <= starting_lives(b.block_type)
}

/// Coordinates a ball can reach while collisions push it around obstacles
/// in the arena.
pub open spec fn within_reach(r: Rect) -> bool {
    -(ARENA_LIMIT + SIZE_LIMIT) <= r.x <= ARENA_LIMIT + SIZE_LIMIT && -(ARENA_LIMIT + SIZE_LIMIT)
        <= r.y <= ARENA_LIMIT + SIZE_LIMIT
}

/// The same blocks with possibly fewer lives.
pub open spec fn worn_down(before: Seq<Block>, after: Seq<Block>) -> bool {
    &&& after.len() == before.len()
    &&& forall|i: int|
        0 <= i < after.len() ==> (#[trigger] after[i]).rect == before[i].rect
            && after[i].block_type == before[i].block_type && after[i].lives <= before[i].lives
}


/// A power-up appearing at the top-left corner of `r`, falling.
pub open spec fn powerup_at(r: Rect) -> Powerup {
    Powerup {
        rect: Rect { x: r.x, y: r.y, w: POWERUP_SIZE, h: POWERUP_SIZE },
        vel: Velocity { x: 0, y: VEL_ONE },
    }
}

/// A new ball at `p`: standard size, unit speed, heading up within 45
/// degrees of vertical. Its exact direction is drawn at random.
pub open spec fn fresh_ball_at(b: Ball, p: Point) -> bool {
    &&& b.rect == (Rect { x: p.x, y: p.y, w: BALL_SIZE, h: BALL_SIZE })
    &&& is_unit(b.vel)
    &&& b.vel.y < 0
    &&& abs(b.vel.x as int) <= abs(b.vel.y as int)
}

/// `after` is `before` followed by one fresh ball at each of `points`.
pub open spec fn spawned_at(before: Seq<Ball>, after: Seq<Ball>, points: Seq<Point>) -> bool {
    &&& after.len() == before.len() + points.len()
    &&& after.subrange(0, before.len() as int) == before
    &&& forall|i: int|
        0 <= i < points.len() ==> fresh_ball_at(#[trigger] after[before.len() + i], points[i])
}

/// One ball against one block: a block with lives left that the ball
/// overlaps moves the ball as `resolution` says and loses a life
/// (`BlockHit`); losing its last one also reports `BlockDestroyed` and
/// queues a ball at the ball's corner (`SpawnBallOnDeath`) or a power-up at
/// the block's (`SpawnPowerup`). Gives the ball, the block, the sounds, the
/// points where balls spawn and the new power-ups.
pub open spec fn block_step(ball: Ball, b: Block) -> (Ball, Block, Seq<Sound>, Seq<Point>, Seq<Powerup>) {
    if b.lives > 0 && resolution(ball.rect, ball.vel, b.rect) is Some {
        let (r, v) = resolution(ball.rect, ball.vel, b.rect).unwrap();
        let moved = Ball { rect: r, vel: v };
        let (hit, destroyed) = hit_outcome(b);
        if destroyed {
            (
                moved,
                hit,
                seq![Sound::BlockHit, Sound::BlockDestroyed],
                if b.block_type == BlockType::SpawnBallOnDeath {
                    seq![Point { x: r.x, y: r.y }]
                } else {
                    Seq::empty()
                },
                if b.block_type == BlockType::SpawnPowerup {
                    seq![powerup_at(b.rect)]
                } else {
                    Seq::empty()
                },
            )
        } else {
            (moved, hit, seq![Sound::BlockHit], Seq::empty(), Seq::empty())
        }
    } else {
        (ball, b, Seq::empty(), Seq::empty(), Seq::empty())
    }
}

/// One ball against each block in order (see `block_step`).
pub open spec fn blocks_pass(ball: Ball, blocks: Seq<Block>) -> (Ball, Seq<Block>, Seq<Sound>, Seq<Point>, Seq<Powerup>)
    decreases blocks.len(),
{
    if blocks.len() == 0 {
        (ball, Seq::empty(), Seq::empty(), Seq::empty(), Seq::empty())
    } else {
        let p = blocks_pass(ball, blocks.drop_last());
        let q = block_step(p.0, blocks.last());
        (q.0, p.1.push(q.1), p.2 + q.2, p.3 + q.3, p.4 + q.4)
    }
}

/// One ball against the paddle (`PaddleHit` when they overlap), then
/// against the blocks.
pub open spec fn ball_pass(ball: Ball, paddle: Rect, blocks: Seq<Block>) -> (Ball, Seq<Block>, Seq<Sound>, Seq<Point>, Seq<Powerup>) {
    let (b0, s0) = match resolution(ball.rect, ball.vel, paddle) {
        Some((r, v)) => (Ball { rect: r, vel: v }, seq![Sound::PaddleHit]),
        None => (ball, Seq::empty()),
    };
    let p = blocks_pass(b0, blocks);
    (p.0, p.1, s0 + p.2, p.3, p.4)
}

/// Each ball in order through `ball_pass`, the blocks carried from one to
/// the next.
pub open spec fn balls_pass(balls: Seq<Ball>, paddle: Rect, blocks: Seq<Block>) -> (Seq<Ball>, Seq<Block>, Seq<Sound>, Seq<Point>, Seq<Powerup>)
    decreases balls.len(),
{
    if balls.len() == 0 {
        (Seq::empty(), blocks, Seq::empty(), Seq::empty(), Seq::empty())
    } else {
        let p = balls_pass(balls.drop_last(), paddle, blocks);
        let q = ball_pass(balls.last(), paddle, p.1);
        (p.0.push(q.0), q.1, p.2 + q.2, p.3 + q.3, p.4 + q.4)
    }
}

fn add_block_points(score: u64) -> (r: u64)
    ensures
        r == add_points(score as int, 1),
{
    if score <= u64::MAX - SCORE_PER_BLOCK {
        score + SCORE_PER_BLOCK
    } else {
        u64::MAX
    }
}

/// Resolves one ball against the paddle, then against every block with
/// lives left, in order. Each resolved hit on a block takes one life and
/// reports `BlockHit`; taking the last one scores `SCORE_PER_BLOCK`, reports
/// `BlockDestroyed`, and queues a new ball at the ball's position
/// (`SpawnBallOnDeath`) or a power-up at the block's (`SpawnPowerup`).
/// A paddle hit reports `PaddleHit`.
pub fn collide_ball(
    ball: &mut Ball,
    paddle: &Rect,
    blocks: &mut Vec<Block>,
    score: &mut u64,
    spawned: &mut Vec<Ball>,
    powerups: &mut Vec<Powerup>,
    sounds: &mut Vec<Sound>,
)
    requires
        old(ball).wf(),
        within_reach(old(ball).rect),
        paddle.in_arena(),
        forall|i: int| 0 <= i < old(blocks)@.len() ==> block_in_play(#[trigger] old(blocks)@[i]),
    ensures
        final(ball).wf(),
        within_reach(final(ball).rect),
        worn_down(old(blocks)@, final(blocks)@),
        forall|i: int| 0 <= i < final(blocks)@.len() ==> block_in_play(#[trigger] final(blocks)@[i]),
        live_count(final(blocks)@) <= live_count(old(blocks)@),
        *final(score) == add_points(
            *old(score) as int,
            live_count(old(blocks)@) - live_count(final(blocks)@),
        ),
        final(sounds)@.len() >= old(sounds)@.len(),
        final(sounds)@.subrange(0, old(sounds)@.len() as int) == old(sounds)@,
        count_sound(final(sounds)@.subrange(old(sounds)@.len() as int, final(sounds)@.len() as int), Sound::BlockDestroyed)
            == live_count(old(blocks)@) - live_count(final(blocks)@),
        count_sound(final(sounds)@.subrange(old(sounds)@.len() as int, final(sounds)@.len() as int), Sound::LifeLost) == 0,
        final(spawned)@.len() >= old(spawned)@.len(),
        forall|i: int| 0 <= i < old(spawned)@.len() ==> final(spawned)@[i] == old(spawned)@[i],
        forall|i: int| 0 <= i < final(spawned)@.len() && old(spawned)@.len() <= i ==> (#[trigger] final(spawned)@[i]).wf() && within_reach(final(spawned)@[i].rect),
        final(powerups)@.len() >= old(powerups)@.len(),
        forall|i: int| 0 <= i < old(powerups)@.len() ==> final(powerups)@[i] == old(powerups)@[i],
        forall|i: int| 0 <= i < final(powerups)@.len() && old(powerups)@.len() <= i ==> (#[trigger] final(powerups)@[i]).wf() && final(powerups)@[i].rect.y <= ARENA_LIMIT,
        ({
            let p = ball_pass(*old(ball), *paddle, old(blocks)@);
            &&& *final(ball) == p.0
            &&& final(blocks)@ == p.1
            &&& final(sounds)@ == old(sounds)@ + p.2
            &&& spawned_at(old(spawned)@, final(spawned)@, p.3)
            &&& final(powerups)@ == old(powerups)@ + p.4
        }),
{
    let ghost sounds0 = sounds@;
    let ghost live0 = live_count(blocks@);
    let ghost score0 = *score;
    if resolve_collision(&mut ball.rect, &mut ball.vel, paddle) {
        sounds.push(Sound::PaddleHit);
    }
    proof {
        let added = sounds@.subrange(sounds0.len() as int, sounds@.len() as int);
        lemma_count_single(Sound::PaddleHit, Sound::BlockDestroyed);
        lemma_count_single(Sound::PaddleHit, Sound::LifeLost);
        if added.len() == 1 {
            assert(added =~= seq![Sound::PaddleHit]);
        } else {
            assert(added =~= Seq::<Sound>::empty());
        }
        assert(sounds@.subrange(0, sounds0.len() as int) =~= sounds0);
        assert(spawned@.subrange(0, spawned@.len() as int) =~= spawned@);
    }
    let ghost b0 = *ball;
    let ghost s_pad = sounds@;
    proof {
        assert(old(blocks)@.take(0) =~= Seq::<Block>::empty());
        assert(blocks@ =~= Seq::<Block>::empty() + old(blocks)@.skip(0));
        assert(s_pad =~= s_pad + Seq::<Sound>::empty());
        assert(powerups@ =~= old(powerups)@ + Seq::<Powerup>::empty());
        let pp = match resolution(old(ball).rect, old(ball).vel, *paddle) {
            Some((r, v)) => (Ball { rect: r, vel: v }, seq![Sound::PaddleHit]),
            None => (*old(ball), Seq::<Sound>::empty()),
        };
        assert(b0 == pp.0);
        assert(s_pad =~= old(sounds)@ + pp.1);
    }
    let n = blocks.len();
    let mut j: usize = 0;
    while j < n
        invariant
            n == old(blocks)@.len(),
            blocks@.len() == n,
            j <= n,
            ball.wf(),
            within_reach(ball.rect),
            paddle.in_arena(),
            worn_down(old(blocks)@, blocks@),
            forall|i: int| 0 <= i < n ==> block_in_play(#[trigger] blocks@[i]),
            live_count(blocks@) <= live0,
            live0 == live_count(old(blocks)@),
            *score == add_points(score0 as int, live0 - live_count(blocks@)),
            sounds@.len() >= sounds0.len(),
            sounds@.subrange(0, sounds0.len() as int) == sounds0,
            count_sound(sounds@.subrange(sounds0.len() as int, sounds@.len() as int), Sound::BlockDestroyed)
                == live0 - live_count(blocks@),
            count_sound(sounds@.subrange(sounds0.len() as int, sounds@.len() as int), Sound::LifeLost) == 0,
            spawned@.len() >= old(spawned)@.len(),
            forall|i: int| 0 <= i < old(spawned)@.len() ==> spawned@[i] == old(spawned)@[i],
            forall|i: int| 0 <= i < spawned@.len() && old(spawned)@.len() <= i ==> (#[trigger] spawned@[i]).wf() && within_reach(spawned@[i].rect),
            powerups@.len() >= old(powerups)@.len(),
            forall|i: int| 0 <= i < old(powerups)@.len() ==> powerups@[i] == old(powerups)@[i],
            forall|i: int| 0 <= i < powerups@.len() && old(powerups)@.len() <= i ==> (#[trigger] powerups@[i]).wf() && powerups@[i].rect.y <= ARENA_LIMIT,
            ({
                let p = blocks_pass(b0, old(blocks)@.take(j as int));
                &&& *ball == p.0
                &&& blocks@ == p.1 + old(blocks)@.skip(j as int)
                &&& sounds@ == s_pad + p.2
                &&& spawned_at(old(spawned)@, spawned@, p.3)
                &&& powerups@ == old(powerups)@ + p.4
            }),
        decreases n - j,
    {
        let ghost pj = blocks_pass(b0, old(blocks)@.take(j as int));
        let ghost ball_j = *ball;
        let ghost blocks_j = blocks@;
        let ghost sounds_j = sounds@;
        let ghost spawned_j = spawned@;
        let ghost powerups_j = powerups@;
        proof {
            assert(old(blocks)@.take(j + 1).drop_last() =~= old(blocks)@.take(j as int));
            assert(blocks@[j as int] == old(blocks)@[j as int]);
        }
        let mut block = blocks[j];
        if block.lives > 0 {
            if resolve_collision(&mut ball.rect, &mut ball.vel, &block.rect) {
                let ghost before = blocks@;
                let ghost s_before = sounds@;
                let destroyed = block.hit();
                sounds.push(Sound::BlockHit);
                if destroyed {
                    *score = add_block_points(*score);
                    sounds.push(Sound::BlockDestroyed);
                    if block.block_type == BlockType::SpawnBallOnDeath {
                        spawned.push(Ball::new(ball.rect.point()));
                    } else if block.block_type == BlockType::SpawnPowerup {
                        powerups.push(Powerup::new(block.rect.point()));
                    }
                }
                blocks.set(j, block);
                proof {
                    lemma_live_count_update(before, j as int, block);
                    let added0 = s_before.subrange(sounds0.len() as int, s_before.len() as int);
                    let added = sounds@.subrange(sounds0.len() as int, sounds@.len() as int);
                    let extra = sounds@.subrange(s_before.len() as int, sounds@.len() as int);
                    assert(added =~= added0 + extra);
                    lemma_count_concat(added0, extra, Sound::BlockDestroyed);
                    lemma_count_concat(added0, extra, Sound::LifeLost);
                    lemma_count_single(Sound::BlockHit, Sound::BlockDestroyed);
                    lemma_count_single(Sound::BlockHit, Sound::LifeLost);
                    lemma_count_single(Sound::BlockDestroyed, Sound::BlockDestroyed);
                    lemma_count_single(Sound::BlockDestroyed, Sound::LifeLost);
                    if destroyed {
                        assert(extra =~= seq![Sound::BlockHit] + seq![Sound::BlockDestroyed]);
                        lemma_count_concat(seq![Sound::BlockHit], seq![Sound::BlockDestroyed], Sound::BlockDestroyed);
                        lemma_count_concat(seq![Sound::BlockHit], seq![Sound::BlockDestroyed], Sound::LifeLost);
                    } else {
                        assert(extra =~= seq![Sound::BlockHit]);
                    }
                    assert(sounds@.subrange(0, sounds0.len() as int) =~= sounds0);
                }
            }
        }
        proof {
            let q = block_step(ball_j, old(blocks)@[j as int]);
            let pn = blocks_pass(b0, old(blocks)@.take(j + 1));
            assert(pn == (q.0, pj.1.push(q.1), pj.2 + q.2, pj.3 + q.3, pj.4 + q.4));
            assert(*ball == q.0);
            assert(blocks@ =~= pn.1 + old(blocks)@.skip(j + 1));
            assert(sounds@ =~= s_pad + pn.2);
            assert(powerups@ =~= old(powerups)@ + pn.4);
            assert(spawned@.subrange(0, old(spawned)@.len() as int) =~= spawned_j.subrange(0, old(spawned)@.len() as int));
            assert forall|i: int| 0 <= i < pn.3.len() implies fresh_ball_at(#[trigger] spawned@[old(spawned)@.len() + i], pn.3[i]) by {
                if i < pj.3.len() {
                    assert(spawned@[old(spawned)@.len() + i] == spawned_j[old(spawned)@.len() + i]);
                    assert(pn.3[i] == pj.3[i]);
                }
            }
        }
        j = j + 1;
    }
    proof {
        assert(old(blocks)@.take(n as int) =~= old(blocks)@);
        assert(blocks@ =~= blocks_pass(b0, old(blocks)@).1);
        assert(sounds@ =~= old(sounds)@ + ball_pass(*old(ball), *paddle, old(blocks)@).2);
    }
}

proof fn lemma_count_push(sounds: Seq<Sound>, x: Sound, s: Sound)
    ensures
        count_sound(sounds.push(x), s) == count_sound(sounds, s) + if x == s { 1nat } else { 0nat },
{
    assert(sounds.push(x).drop_last() =~= sounds);
}

/// What a sequence of sounds that grew from `before` to `after` added.
pub open spec fn added_sounds(before: Seq<Sound>, after: Seq<Sound>) -> Seq<Sound> {
    after.subrange(before.len() as int, after.len() as int)
}

/// `after` extends `before`.
pub open spec fn extends(before: Seq<Sound>, after: Seq<Sound>) -> bool {
    after.len() >= before.len() && after.subrange(0, before.len() as int) == before
}

proof fn lemma_count_extends(before: Seq<Sound>, after: Seq<Sound>, s: Sound)
    requires
        extends(before, after),
    ensures
        count_sound(after, s) == count_sound(before, s) + count_sound(added_sounds(before, after), s),
{
    assert(after =~= before + added_sounds(before, after));
    lemma_count_concat(before, added_sounds(before, after), s);
}

proof fn lemma_all_live(blocks: Seq<Block>)
    requires
        forall|i: int| 0 <= i < blocks.len() ==> (#[trigger] blocks[i]).lives > 0,
    ensures
        live_count(blocks) == blocks.len(),
    decreases blocks.len(),
{
    if blocks.len() > 0 {
        lemma_all_live(blocks.drop_last());
    }
}

/// The ball arrived at the left, right or top edge in this update (within a
/// hundredth of a pixel).
pub open spec fn hits_wall(before: Rect, after: Rect, screen_width: int) -> bool {
    (before.x > 0 && after.x <= 10) || (before.x + before.w < screen_width && after.x + after.w
        >= screen_width - 10) || (before.y > 0 && after.y <= 10)
}

/// One `WallHit` for each ball, in order, that reaches a wall in its update.
pub open spec fn wall_sounds(balls: Seq<Ball>, dt: u64, screen_width: int) -> Seq<Sound>
    decreases balls.len(),
{
    if balls.len() == 0 {
        Seq::empty()
    } else {
        let b = balls.last();
        wall_sounds(balls.drop_last(), dt, screen_width) + if hits_wall(
            b.rect,
            ball_after_update(b, dt, screen_width).rect,
            screen_width,
        ) {
            seq![Sound::WallHit]
        } else {
            Seq::empty()
        }
    }
}

/// Updates every ball and reports a `WallHit` for each that reached a wall.
pub fn update_balls(balls: &mut Vec<Ball>, dt: u64, screen_width: i64, sounds: &mut Vec<Sound>)
    requires
        forall|i: int|
            0 <= i < old(balls)@.len() ==> (#[trigger] old(balls)@[i]).wf() && old(balls)@[i].rect.y
                <= ARENA_LIMIT,
        BALL_SIZE <= screen_width <= SCREEN_LIMIT,
    ensures
        final(balls)@.len() == old(balls)@.len(),
        forall|i: int|
            0 <= i < final(balls)@.len() ==> #[trigger] final(balls)@[i] == ball_after_update(
                old(balls)@[i],
                dt,
                screen_width as int,
            ),
        forall|i: int|
            0 <= i < final(balls)@.len() ==> (#[trigger] final(balls)@[i]).wf() && 0
                <= final(balls)@[i].rect.x <= screen_width && 0 <= final(balls)@[i].rect.y
                <= ARENA_LIMIT + 7000,
        extends(old(sounds)@, final(sounds)@),
        forall|s: Sound| s != Sound::WallHit ==> count_sound(added_sounds(old(sounds)@, final(sounds)@), s) == 0,
        final(sounds)@ == old(sounds)@ + wall_sounds(old(balls)@, dt, screen_width as int),
{
    let n = balls.len();
    let mut i: usize = 0;
    assert(sounds@.subrange(0, sounds@.len() as int) =~= sounds@);
    assert(added_sounds(sounds@, sounds@) =~= Seq::<Sound>::empty());
    assert(sounds@ =~= sounds@ + wall_sounds(balls@.take(0), dt, screen_width as int));
    while i < n
        invariant
            n == old(balls)@.len(),
            balls@.len() == n,
            BALL_SIZE <= screen_width <= SCREEN_LIMIT,
            i <= n,
            forall|j: int|
                0 <= j < old(balls)@.len() ==> (#[trigger] old(balls)@[j]).wf() && old(balls)@[j].rect.y
                    <= ARENA_LIMIT,
            forall|j: int| i <= j < n ==> #[trigger] balls@[j] == old(balls)@[j],
            forall|j: int|
                0 <= j < i ==> #[trigger] balls@[j] == ball_after_update(
                    old(balls)@[j],
                    dt,
                    screen_width as int,
                ),
            forall|j: int|
                0 <= j < i ==> (#[trigger] balls@[j]).wf() && 0 <= balls@[j].rect.x <= screen_width
                    && 0 <= balls@[j].rect.y <= ARENA_LIMIT + 7000,
            extends(old(sounds)@, sounds@),
            forall|s: Sound| s != Sound::WallHit ==> count_sound(added_sounds(old(sounds)@, sounds@), s) == 0,
            sounds@ == old(sounds)@ + wall_sounds(old(balls)@.take(i as int), dt, screen_width as int),
        decreases n - i,
    {
        proof {
            assert(old(balls)@.take(i + 1).drop_last() =~= old(balls)@.take(i as int));
        }
        let ghost s_i = sounds@;
        let mut ball = balls[i];
        let before = ball.rect;
        ball.update(dt, screen_width);
        let after = ball.rect;
        if (before.x > 0 && after.x <= 10) || (before.x + before.w < screen_width && after.x
            + after.w >= screen_width - 10) || (before.y > 0 && after.y <= 10) {
            let ghost s0 = sounds@;
            sounds.push(Sound::WallHit);
            proof {
                assert forall|s: Sound| s != Sound::WallHit implies count_sound(added_sounds(old(sounds)@, sounds@), s) == 0 by {
                    assert(added_sounds(old(sounds)@, sounds@) =~= added_sounds(old(sounds)@, s0).push(Sound::WallHit));
                    lemma_count_push(added_sounds(old(sounds)@, s0), Sound::WallHit, s);
                }
                assert(sounds@.subrange(0, old(sounds)@.len() as int) =~= s0.subrange(0, old(sounds)@.len() as int));
            }
        }
        balls.set(i, ball);
        proof {
            assert(sounds@ =~= old(sounds)@ + wall_sounds(old(balls)@.take(i + 1), dt, screen_width as int));
        }
        i = i + 1;
    }
    proof {
        assert(old(balls)@.take(n as int) =~= old(balls)@);
    }
}

/// The elapsed time, held keys and play-area size of one frame.
#[derive(Clone, Copy)]
pub struct FrameInput {
    pub dt: u64,
    pub left: bool,
    pub right: bool,
    pub confirm: bool,
    pub screen_width: i64,
    pub screen_height: i64,
}

/// Keeps the power-ups whose top edge is above `limit`.
pub fn drop_fallen_powerups(powerups: &mut Vec<Powerup>, limit: i64)
    ensures
        final(powerups)@ == old(powerups)@.filter(above_powerup(limit as int)),
{
    let ghost pred = above_powerup(limit as int);
    let mut kept: Vec<Powerup> = Vec::new();
    let mut k: usize = 0;
    assert(powerups@.take(0) =~= Seq::<Powerup>::empty());
    proof {
        reveal(Seq::filter);
    }
    while k < powerups.len()
        invariant
            powerups@ == old(powerups)@,
            k <= powerups@.len(),
            kept@ == powerups@.take(k as int).filter(pred),
            pred == above_powerup(limit as int),
        decreases powerups@.len() - k,
    {
        let p = powerups[k];
        proof {
            assert(powerups@.take(k + 1) =~= powerups@.take(k as int).push(p));
            powerups@.take(k as int).lemma_filter_push(p, pred);
        }
        if p.rect.y < limit {
            kept.push(p);
        }
        k = k + 1;
    }
    assert(powerups@.take(k as int) =~= powerups@);
    *powerups = kept;
}

/// Keeps the balls whose top edge is above `limit`.
pub fn drop_lost_balls(balls: &mut Vec<Ball>, limit: i64)
    ensures
        final(balls)@ == old(balls)@.filter(above_ball(limit as int)),
{
    let ghost pred = above_ball(limit as int);
    let mut kept: Vec<Ball> = Vec::new();
    let mut k: usize = 0;
    assert(balls@.take(0) =~= Seq::<Ball>::empty());
    proof {
        reveal(Seq::filter);
    }
    while k < balls.len()
        invariant
            balls@ == old(balls)@,
            k <= balls@.len(),
            kept@ == balls@.take(k as int).filter(pred),
            pred == above_ball(limit as int),
        decreases balls@.len() - k,
    {
        let b = balls[k];
        proof {
            assert(balls@.take(k + 1) =~= balls@.take(k as int).push(b));
            balls@.take(k as int).lemma_filter_push(b, pred);
        }
        if b.rect.y < limit {
            kept.push(b);
        }
        k = k + 1;
    }
    assert(balls@.take(k as int) =~= balls@);
    *balls = kept;
}

/// Removes the blocks without lives left.
pub fn purge_blocks(blocks: &mut Vec<Block>)
    ensures
        final(blocks)@ == survivors(old(blocks)@),
{
    let mut kept: Vec<Block> = Vec::new();
    let mut k: usize = 0;
    while k < blocks.len()
        invariant
            blocks@ == old(blocks)@,
            k <= blocks@.len(),
            kept@ == survivors(blocks@.take(k as int)),
        decreases blocks@.len() - k,
    {
        let b = blocks[k];
        assert(blocks@.take(k + 1).drop_last() =~= blocks@.take(k as int));
        if b.lives > 0 {
            kept.push(b);
        }
        k = k + 1;
    }
    assert(blocks@.take(k as int) =~= blocks@);
    *blocks = kept;
}

/// Lives after losing one, never below zero.
pub open spec fn lives_after_loss(lives: u32) -> u32 {
    if lives > 0 {
        (lives - 1) as u32
    } else {
        0
    }
}

/// Where the replacement ball appears: above the paddle's middle.
pub open spec fn respawn_point(paddle: Rect) -> Point {
    Point {
        x: (paddle.x + paddle.w / 2 + BALL_SIZE / 2) as i64,
        y: (paddle.y - RESPAWN_LIFT) as i64,
    }
}

/// Resolves every ball, in order, against the paddle and the blocks (see
/// `collide_ball`).
pub fn collide_all(
    balls: &mut Vec<Ball>,
    paddle: &Rect,
    blocks: &mut Vec<Block>,
    score: &mut u64,
    spawned: &mut Vec<Ball>,
    powerups: &mut Vec<Powerup>,
    sounds: &mut Vec<Sound>,
)
    requires
        paddle.in_arena(),
        forall|j: int|
            0 <= j < old(balls)@.len() ==> (#[trigger] old(balls)@[j]).wf() && within_reach(old(balls)@[j].rect),
        forall|j: int| 0 <= j < old(blocks)@.len() ==> block_in_play(#[trigger] old(blocks)@[j]),
        forall|j: int| 0 <= j < old(spawned)@.len() ==> (#[trigger] old(spawned)@[j]).wf() && within_reach(old(spawned)@[j].rect),
        forall|j: int|
            0 <= j < old(powerups)@.len() ==> (#[trigger] old(powerups)@[j]).wf()
                && old(powerups)@[j].rect.y <= ARENA_LIMIT,
    ensures
        final(balls)@.len() == old(balls)@.len(),
        forall|j: int|
            0 <= j < final(balls)@.len() ==> (#[trigger] final(balls)@[j]).wf() && within_reach(final(balls)@[j].rect),
        worn_down(old(blocks)@, final(blocks)@),
        forall|j: int| 0 <= j < final(blocks)@.len() ==> block_in_play(#[trigger] final(blocks)@[j]),
        live_count(final(blocks)@) <= live_count(old(blocks)@),
        *final(score) == add_points(*old(score) as int, live_count(old(blocks)@) - live_count(final(blocks)@)),
        extends(old(sounds)@, final(sounds)@),
        count_sound(added_sounds(old(sounds)@, final(sounds)@), Sound::BlockDestroyed) == live_count(old(blocks)@) - live_count(final(blocks)@),
        count_sound(added_sounds(old(sounds)@, final(sounds)@), Sound::LifeLost) == 0,
        forall|j: int| 0 <= j < final(spawned)@.len() ==> (#[trigger] final(spawned)@[j]).wf() && within_reach(final(spawned)@[j].rect),
        forall|j: int|
            0 <= j < final(powerups)@.len() ==> (#[trigger] final(powerups)@[j]).wf()
                && final(powerups)@[j].rect.y <= ARENA_LIMIT,
        ({
            let p = balls_pass(old(balls)@, *paddle, old(blocks)@);
            &&& final(balls)@ == p.0
            &&& final(blocks)@ == p.1
            &&& final(sounds)@ == old(sounds)@ + p.2
            &&& spawned_at(old(spawned)@, final(spawned)@, p.3)
            &&& final(powerups)@ == old(powerups)@ + p.4
        }),
{
    let ghost blocks0 = blocks@;
    let ghost score0 = *score;
    let ghost sounds0 = sounds@;
    proof {
        assert(sounds@.subrange(0, sounds@.len() as int) =~= sounds@);
        assert(added_sounds(sounds0, sounds@) =~= Seq::<Sound>::empty());
        assert(old(balls)@.take(0) =~= Seq::<Ball>::empty());
        assert(balls@ =~= Seq::<Ball>::empty() + old(balls)@.skip(0));
        assert(sounds@ =~= old(sounds)@ + Seq::<Sound>::empty());
        assert(powerups@ =~= old(powerups)@ + Seq::<Powerup>::empty());
        assert(spawned@.subrange(0, spawned@.len() as int) =~= spawned@);
    }
    let n = balls.len();
    let mut i: usize = 0;
    while i < n
        invariant
            n == balls@.len(),
            n == old(balls)@.len(),
            i <= n,
            paddle.in_arena(),
            blocks0 == old(blocks)@,
            score0 == *old(score),
            sounds0 == old(sounds)@,
            forall|j: int|
                0 <= j < n ==> (#[trigger] balls@[j]).wf() && within_reach(balls@[j].rect),
            worn_down(blocks0, blocks@),
            forall|j: int| 0 <= j < blocks@.len() ==> block_in_play(#[trigger] blocks@[j]),
            live_count(blocks@) <= live_count(blocks0),
            *score == add_points(score0 as int, live_count(blocks0) - live_count(blocks@)),
            extends(sounds0, sounds@),
            count_sound(added_sounds(sounds0, sounds@), Sound::BlockDestroyed) == live_count(blocks0) - live_count(blocks@),
            count_sound(added_sounds(sounds0, sounds@), Sound::LifeLost) == 0,
            forall|j: int| 0 <= j < spawned@.len() ==> (#[trigger] spawned@[j]).wf() && within_reach(spawned@[j].rect),
            forall|j: int|
                0 <= j < powerups@.len() ==> (#[trigger] powerups@[j]).wf()
                    && powerups@[j].rect.y <= ARENA_LIMIT,
            ({
                let p = balls_pass(old(balls)@.take(i as int), *paddle, old(blocks)@);
                &&& balls@ == p.0 + old(balls)@.skip(i as int)
                &&& blocks@ == p.1
                &&& sounds@ == old(sounds)@ + p.2
                &&& spawned_at(old(spawned)@, spawned@, p.3)
                &&& powerups@ == old(powerups)@ + p.4
            }),
        decreases n - i,
    {
        let ghost pi = balls_pass(old(balls)@.take(i as int), *paddle, old(blocks)@);
        let ghost spawned_i = spawned@;
        proof {
            assert(old(balls)@.take(i + 1).drop_last() =~= old(balls)@.take(i as int));
            assert(balls@[i as int] == old(balls)@[i as int]);
        }
        let mut ball = balls[i];
        let ghost s0 = sounds@;
        let ghost bl0 = blocks@;
        collide_ball(&mut ball, paddle, blocks, score, spawned, powerups, sounds);
        proof {
            let a0 = added_sounds(sounds0, s0);
            let a1 = added_sounds(s0, sounds@);
            assert(added_sounds(sounds0, sounds@) =~= a0 + a1);
            lemma_count_concat(a0, a1, Sound::BlockDestroyed);
            lemma_count_concat(a0, a1, Sound::LifeLost);
            assert(sounds@.subrange(0, sounds0.len() as int) =~= s0.subrange(0, sounds0.len() as int));
            assert forall|j: int| 0 <= j < blocks@.len() implies (#[trigger] blocks@[j]).rect
                == blocks0[j].rect && blocks@[j].block_type == blocks0[j].block_type
                && blocks@[j].lives <= blocks0[j].lives by {
                assert(blocks@[j].lives <= bl0[j].lives);
            }
        }
        balls.set(i, ball);
        proof {
            let q = ball_pass(old(balls)@[i as int], *paddle, pi.1);
            let pn = balls_pass(old(balls)@.take(i + 1), *paddle, old(blocks)@);
            assert(pn == (pi.0.push(q.0), q.1, pi.2 + q.2, pi.3 + q.3, pi.4 + q.4));
            assert(balls@ =~= pn.0 + old(balls)@.skip(i + 1));
            assert(sounds@ =~= old(sounds)@ + pn.2);
            assert(powerups@ =~= old(powerups)@ + pn.4);
            assert(spawned@.subrange(0, old(spawned)@.len() as int) =~= spawned_i.subrange(0, old(spawned)@.len() as int));
            assert forall|k: int| 0 <= k < pn.3.len() implies fresh_ball_at(#[trigger] spawned@[old(spawned)@.len() + k], pn.3[k]) by {
                if k < pi.3.len() {
                    assert(spawned@[old(spawned)@.len() + k] == spawned_i[old(spawned)@.len() + k]);
                    assert(pn.3[k] == pi.3[k]);
                } else {
                    let m = k - pi.3.len();
                    assert(spawned@[old(spawned)@.len() + k] == spawned@[spawned_i.len() + m]);
                    assert(pn.3[k] == q.3[m]);
                }
            }
        }
        i = i + 1;
    }
    proof {
        assert(old(balls)@.take(n as int) =~= old(balls)@);
        assert(balls@ =~= balls_pass(old(balls)@, *paddle, old(blocks)@).0);
    }
}

/// Appends `more` to `balls`.
pub fn append_balls(balls: &mut Vec<Ball>, more: &Vec<Ball>)
    ensures
        final(balls)@ == old(balls)@ + more@,
{
    let mut k: usize = 0;
    while k < more.len()
        invariant
            k <= more@.len(),
            balls@ == old(balls)@ + more@.take(k as int),
        decreases more@.len() - k,
    {
        assert(more@.take(k + 1) =~= more@.take(k as int).push(more@[k as int]));
        balls.push(more[k]);
        k = k + 1;
    }
    assert(more@.take(k as int) =~= more@);
}

/// A power-up after falling for `dt` microseconds.
pub open spec fn fallen(p: Powerup, dt: u64) -> Powerup {
    Powerup {
        rect: Rect { y: (p.rect.y + fall_distance(p.vel.y as int, dt)) as i64, ..p.rect },
        vel: p.vel,
    }
}

/// Lets every power-up fall for `dt` microseconds.
pub fn update_powerups(powerups: &mut Vec<Powerup>, dt: u64)
    requires
        forall|j: int|
            0 <= j < old(powerups)@.len() ==> (#[trigger] old(powerups)@[j]).wf()
                && old(powerups)@[j].rect.y <= ARENA_LIMIT,
    ensures
        final(powerups)@.len() == old(powerups)@.len(),
        forall|j: int| 0 <= j < final(powerups)@.len() ==> (#[trigger] final(powerups)@[j]).wf(),
        forall|j: int| 0 <= j < final(powerups)@.len() ==> #[trigger] final(powerups)@[j] == fallen(old(powerups)@[j], dt),
{
    let mut p: usize = 0;
    while p < powerups.len()
        invariant
            p <= powerups@.len(),
            powerups@.len() == old(powerups)@.len(),
            forall|j: int|
                0 <= j < powerups@.len() ==> (#[trigger] powerups@[j]).wf() && (j >= p
                    ==> powerups@[j].rect.y <= ARENA_LIMIT),
            forall|j: int| 0 <= j < p ==> #[trigger] powerups@[j] == fallen(old(powerups)@[j], dt),
            forall|j: int| p <= j < powerups@.len() ==> #[trigger] powerups@[j] == old(powerups)@[j],
        decreases powerups@.len() - p,
    {
        let mut pw = powerups[p];
        pw.update(dt);
        powerups.set(p, pw);
        p = p + 1;
    }
}

/// What one frame of play guarantees, from `before` to `after` with the
/// reported `sounds`: the level stays; blocks only wear down or vanish, and
/// each vanished block scored `SCORE_PER_BLOCK` and reported one
/// `BlockDestroyed`; at most one life is lost, and then a single fresh ball is
/// in play; the state follows the blocks and the lives.
pub open spec fn frame_outcome(before: Game, after: Game, sounds: Seq<Sound>) -> bool {
    let lost = count_sound(sounds, Sound::LifeLost);
    &&& after.level == before.level
    &&& after.blocks@.len() <= before.blocks@.len()
    &&& after.score == add_points(before.score as int, before.blocks@.len() - after.blocks@.len())
    &&& count_sound(sounds, Sound::BlockDestroyed) == before.blocks@.len() - after.blocks@.len()
    &&& lost <= 1
    &&& lost == 1 ==> after.lives == lives_after_loss(before.lives) && after.balls@.len() == 1
    &&& lost == 0 ==> after.lives == before.lives
    &&& after.state == if after.blocks@.len() == 0 {
        GameState::LevelCompleted
    } else if lost == 1 && after.lives == 0 {
        GameState::Dead
    } else {
        GameState::Game
    }
    &&& forall|i: int|
        0 <= i < after.blocks@.len() ==> exists|j: int|
            0 <= j < before.blocks@.len() && (#[trigger] after.blocks@[i]).rect
                == before.blocks@[j].rect && after.blocks@[i].block_type
                == before.blocks@[j].block_type && after.blocks@[i].lives
                <= before.blocks@[j].lives
}


/// The paddle after moving by the held keys (see `Player::update`).
pub open spec fn paddle_moved(r: Rect, input: FrameInput) -> Rect {
    Rect {
        x: clamp_to(
            r.x + paddle_shift(input.dt, input.left, input.right),
            input.screen_width - r.w,
        ) as i64,
        ..r
    }
}

pub open spec fn above_powerup(limit: int) -> spec_fn(Powerup) -> bool {
    |p: Powerup| p.rect.y < limit
}

pub open spec fn above_ball(limit: int) -> spec_fn(Ball) -> bool {
    |b: Ball| b.rect.y < limit
}

/// The exact course of one frame of play from `before` to `after`, with
/// `sounds` reported. The paddle moves; each ball updates
/// (`ball_after_update`); the balls pass the paddle and blocks in order
/// (`balls_pass`), and balls spawned on the way join at their points; the
/// power-ups, old and new, fall and are caught (`catch_powerups`), and those
/// at or below the bottom edge are dropped, as are such balls. When that
/// leaves no ball though there was one, a life is lost and one fresh ball
/// appears above the paddle. Destroyed blocks are removed. The sounds are
/// the wall hits, the pass's sounds, one `PowerupCollected` per catch, then
/// `LifeLost` and `LevelCompleted` when they happen. Only the directions of
/// spawned balls are left to chance.
/// The course of one frame from `before` to `after` with the reported
/// `sounds`, given the balls `spawned` during it (see `frame_exact`).
pub open spec fn frame_parts(before: Game, after: Game, sounds: Seq<Sound>, input: FrameInput, spawned: Seq<Ball>) -> bool {
    let sw = input.screen_width as int;
    let sh = input.screen_height as int;
    let paddle = paddle_moved(before.player.rect, input);
    let moved = Seq::new(before.balls@.len(), |i: int| ball_after_update(before.balls@[i], input.dt, sw));
    let pass = balls_pass(moved, paddle, before.blocks@);
    let pw = before.powerups@ + pass.4;
    let falling = Seq::new(pw.len(), |i: int| fallen(pw[i], input.dt));
    let caught = catch_powerups(paddle, falling, sw / 3);
    let remaining = survivors(pass.1);
    let all = pass.0 + spawned;
    let kept = all.filter(above_ball(sh));
    let lost = all.len() > 0 && kept.len() == 0;
    &&& after.player.rect == caught.0
    &&& after.powerups@ == caught.1.filter(above_powerup(sh))
    &&& after.blocks@ == remaining
    &&& after.level == before.level
    &&& spawned_at(Seq::empty(), spawned, pass.3)
    &&& lost ==> after.balls@.len() == 1 && fresh_ball_at(after.balls@[0], respawn_point(caught.0))
    &&& !lost ==> after.balls@ == kept
    &&& after.lives == if lost { lives_after_loss(before.lives) } else { before.lives }
    &&& sounds == wall_sounds(before.balls@, input.dt, sw) + pass.2 + Seq::new(
        caught.2,
        |i: int| Sound::PowerupCollected,
    ) + (if lost { seq![Sound::LifeLost] } else { Seq::empty() }) + (if remaining.len() == 0 {
        seq![Sound::LevelCompleted]
    } else {
        Seq::empty()
    })
}

/// The exact course of one frame of play from `before` to `after`, with
/// `sounds` reported. The paddle moves; each ball updates
/// (`ball_after_update`); the balls pass the paddle and blocks in order
/// (`balls_pass`), and balls spawned on the way join at their points; the
/// power-ups, old and new, fall and are caught (`catch_powerups`), and those
/// at or below the bottom edge are dropped, as are such balls. When that
/// leaves no ball though there was one, a life is lost and one fresh ball
/// appears above the paddle. Destroyed blocks are removed. The sounds are
/// the wall hits, the pass's sounds, one `PowerupCollected` per catch, then
/// `LifeLost` and `LevelCompleted` when they happen. Only the directions of
/// spawned balls are left to chance.
#[verifier::opaque]
pub open spec fn frame_exact(before: Game, after: Game, sounds: Seq<Sound>, input: FrameInput) -> bool {
    exists|spawned: Seq<Ball>| #[trigger] frame_parts(before, after, sounds, input, spawned)
}

/// What the continue input does (see `Game::press_continue`).
pub open spec fn continue_outcome(before: Game, after: Game, screen_width: int, screen_height: int) -> bool {
    &&& after.powerups == before.powerups
    &&& before.state == GameState::Menu ==> after.state == GameState::Game
        && after.score == before.score && after.lives == before.lives
        && after.level == before.level && after.blocks == before.blocks
        && after.balls == before.balls && after.player == before.player
    &&& before.state == GameState::Game ==> after == before
    &&& before.state == GameState::LevelCompleted ==> {
        &&& after.state == GameState::Menu
        &&& after.score == before.score
        &&& after.lives == before.lives
        &&& after.level == if before.level < usize::MAX {
            before.level + 1
        } else {
            before.level as int
        }
        &&& after.fresh_level(screen_width, screen_height)
    }
    &&& before.state == GameState::Dead ==> {
        &&& after.state == GameState::Menu
        &&& after.score == 0
        &&& after.lives == STARTING_LIVES
        &&& after.level == 1
        &&& after.fresh_level(screen_width, screen_height)
    }
}

impl Game {
    /// One frame of play. The paddle moves by the held keys; the balls move
    /// and bounce off the walls; every ball is resolved against the paddle and
    /// the blocks; queued balls join; power-ups fall and are caught, and those
    /// below the play area are dropped; balls below it are lost. Losing the
    /// last ball costs a life and puts a new ball above the paddle; with no
    /// lives left the game is over. Destroyed blocks are removed, and when
    /// none remain the level is completed. Returns the frame's sound events.
    pub fn advance(&mut self, input: &FrameInput) -> (sounds: Vec<Sound>)
        requires
            old(self).wf(),
            old(self).state == GameState::Game,
            valid_screen(input.screen_width as int, input.screen_height as int),
        ensures
            final(self).wf(),
            frame_outcome(*old(self), *final(self), sounds@),
            frame_exact(*old(self), *final(self), sounds@, *input),
    {
        let sw = input.screen_width;
        let sh = input.screen_height;
        let mut sounds: Vec<Sound> = Vec::new();
        let ghost blocks0 = self.blocks@;
        proof {
            lemma_all_live(blocks0);
            assert(forall|i: int| 0 <= i < blocks0.len() ==> block_in_play(#[trigger] blocks0[i]));
        }
        let ghost g0 = *self;
        self.player.update(input.dt, input.left, input.right, sw);
        update_balls(&mut self.balls, input.dt, sw, &mut sounds);
        let ghost moved = Seq::new(g0.balls@.len(), |i: int| ball_after_update(g0.balls@[i], input.dt, sw as int));
        proof {
            assert(self.balls@ =~= moved);
            assert(sounds@ =~= wall_sounds(g0.balls@, input.dt, sw as int));
        }
        let ghost s_wall = sounds@;
        proof {
            assert(added_sounds(Seq::empty(), sounds@) =~= sounds@);
            assert(count_sound(sounds@, Sound::BlockDestroyed) == 0);
            assert(count_sound(sounds@, Sound::LifeLost) == 0);
            assert forall|j: int| 0 <= j < self.balls@.len() implies (#[trigger] self.balls@[j]).wf()
                && within_reach(self.balls@[j].rect) by {}
        }
        let paddle = self.player.rect;
        let mut spawned: Vec<Ball> = Vec::new();
        let ghost s_before_collide = sounds@;
        collide_all(
            &mut self.balls,
            &paddle,
            &mut self.blocks,
            &mut self.score,
            &mut spawned,
            &mut self.powerups,
            &mut sounds,
        );
        proof {
            lemma_count_extends(s_before_collide, sounds@, Sound::BlockDestroyed);
            lemma_count_extends(s_before_collide, sounds@, Sound::LifeLost);
        }
        let ghost pass_blocks = self.blocks@;
        let ghost pass = balls_pass(moved, paddle, g0.blocks@);
        let ghost spawned_g = spawned@;
        proof {
            assert(spawned_g.subrange(0, 0) =~= Seq::<Ball>::empty());
            assert(Seq::<Ball>::empty().len() == 0);
        }
        append_balls(&mut self.balls, &spawned);
        update_powerups(&mut self.powerups, input.dt);
        let ghost pw = g0.powerups@ + pass.4;
        let ghost falling = Seq::new(pw.len(), |i: int| fallen(pw[i], input.dt));
        proof {
            assert(self.powerups@ =~= falling);
        }
        let ghost s1 = sounds@;
        let ghost pw1 = self.powerups@;
        handle_powerup_collision(&mut self.player, &mut self.powerups, sw, &mut sounds);
        proof {
            let (pr, kept, caught) = catch_powerups(paddle, pw1, sw / 3);
            let extra = Seq::new(caught, |i: int| Sound::PowerupCollected);
            lemma_count_repeat(caught, Sound::PowerupCollected, Sound::BlockDestroyed);
            lemma_count_repeat(caught, Sound::PowerupCollected, Sound::LifeLost);
            lemma_count_concat(s1, extra, Sound::BlockDestroyed);
            lemma_count_concat(s1, extra, Sound::LifeLost);
        }
        let ghost pw2 = self.powerups@;
        drop_fallen_powerups(&mut self.powerups, sh);
        proof {
            assert forall|j: int| 0 <= j < self.powerups@.len() implies (#[trigger] self.powerups@[j]).wf()
                && self.powerups@[j].rect.y <= ARENA_LIMIT by {
                let f = above_powerup(sh as int);
                assert(pw2.filter(f).contains(self.powerups@[j]));
                pw2.lemma_filter_contains_rev(f, self.powerups@[j]);
                pw2.lemma_filter_pred(f, j);
                assert(f(self.powerups@[j]));
            }
        }
        let ghost caught = catch_powerups(paddle, falling, sw / 3);
        let ghost s_caught = sounds@;
        proof {
            assert(self.powerups@ == caught.1.filter(above_powerup(sh as int)));
            assert(s_caught == s_wall + pass.2 + Seq::new(caught.2, |i: int| Sound::PowerupCollected));
        }
        let ghost balls2 = self.balls@;
        let before = self.balls.len();
        drop_lost_balls(&mut self.balls, sh);
        proof {
            assert forall|j: int| 0 <= j < self.balls@.len() implies (#[trigger] self.balls@[j]).wf()
                && self.balls@[j].rect.y <= ARENA_LIMIT by {
                let f = above_ball(sh as int);
                assert(balls2.filter(f).contains(self.balls@[j]));
                balls2.lemma_filter_contains_rev(f, self.balls@[j]);
                balls2.lemma_filter_pred(f, j);
                assert(f(self.balls@[j]));
            }
        }
        let ghost s2 = sounds@;
        let ghost kept = self.balls@;
        let ghost lost = balls2.len() > 0 && kept.len() == 0;
        proof {
            assert(balls2 == pass.0 + spawned_g);
        }
        if before > self.balls.len() && self.balls.len() == 0 {
            if self.lives > 0 {
                self.lives = self.lives - 1;
            }
            sounds.push(Sound::LifeLost);
            let r = self.player.rect;
            let ball = Ball::new(Point { x: r.x + r.w / 2 + BALL_SIZE / 2, y: r.y - RESPAWN_LIFT });
            self.balls.push(ball);
            if self.lives == 0 {
                self.state = GameState::Dead;
            }
            proof {
                lemma_count_push(s2, Sound::LifeLost, Sound::LifeLost);
                lemma_count_push(s2, Sound::LifeLost, Sound::BlockDestroyed);
            }
        }
        proof {
            lemma_survivors(self.blocks@);
            lemma_live_count_bound(self.blocks@);
        }
        purge_blocks(&mut self.blocks);
        proof {
            assert forall|i: int| 0 <= i < self.blocks@.len() implies (#[trigger] self.blocks@[i]).wf() by {
                let j = choose|j: int| 0 <= j < pass_blocks.len() && survivors(pass_blocks)[i] == pass_blocks[j];
                assert(block_in_play(pass_blocks[j]));
            }
            assert forall|i: int| 0 <= i < self.blocks@.len() implies exists|j: int|
                0 <= j < old(self).blocks@.len() && (#[trigger] self.blocks@[i]).rect
                    == old(self).blocks@[j].rect && self.blocks@[i].block_type
                    == old(self).blocks@[j].block_type && self.blocks@[i].lives
                    <= old(self).blocks@[j].lives by {
                let j = choose|j: int| 0 <= j < pass_blocks.len() && survivors(pass_blocks)[i] == pass_blocks[j];
                assert(pass_blocks[j].rect == blocks0[j].rect);
            }
        }
        let ghost s3 = sounds@;
        proof {
            assert(s3 == s_caught + (if lost { seq![Sound::LifeLost] } else { Seq::<Sound>::empty() })) by {
                if !lost {
                    assert(s3 =~= s_caught + Seq::<Sound>::empty());
                }
            }
            assert(self.blocks@ == survivors(pass.1));
        }
        if self.blocks.len() == 0 {
            self.state = GameState::LevelCompleted;
            sounds.push(Sound::LevelCompleted);
            proof {
                lemma_count_push(s3, Sound::LevelCompleted, Sound::LifeLost);
                lemma_count_push(s3, Sound::LevelCompleted, Sound::BlockDestroyed);
            }
        }
        proof {
            assert(sounds@ =~= s3 + (if self.blocks@.len() == 0 { seq![Sound::LevelCompleted] } else { Seq::<Sound>::empty() }));
            assert(frame_parts(g0, *self, sounds@, *input, spawned_g));
            reveal(frame_exact);
        }
        sounds
    }

    /// One frame: in play the frame advances; in the menu, after a completed
    /// level and after game over the continue input acts when pressed.
    pub fn step(&mut self, input: &FrameInput) -> (sounds: Vec<Sound>)
        requires
            old(self).wf(),
            valid_screen(input.screen_width as int, input.screen_height as int),
        ensures
            final(self).wf(),
            old(self).state == GameState::Game ==> frame_outcome(*old(self), *final(self), sounds@)
                && frame_exact(*old(self), *final(self), sounds@, *input),
            old(self).state != GameState::Game && input.confirm ==> continue_outcome(
                *old(self),
                *final(self),
                input.screen_width as int,
                input.screen_height as int,
            ) && sounds@.len() == 0,
            old(self).state != GameState::Game && !input.confirm ==> *final(self) == *old(self)
                && sounds@.len() == 0,
    {
        if self.state == GameState::Game {
            self.advance(input)
        } else {
            if input.confirm {
                self.press_continue(input.screen_width, input.screen_height);
            }
            Vec::new()
        }
    }
}


} // verus!
