use rustanoid::ball::{Ball, BALL_SIZE};
use rustanoid::block::{Block, BlockType};
use rustanoid::game::{
    collide_ball, handle_powerup_collision, FrameInput, Game, GameState, Sound, STARTING_LIVES,
};
use rustanoid::geometry::{Point, Rect, Velocity, UNITS_PER_PIXEL, VEL_ONE};
use rustanoid::player::Player;
use rustanoid::powerup::Powerup;

const PX: i64 = UNITS_PER_PIXEL;
const W: i64 = 800 * PX;
const H: i64 = 600 * PX;

fn frame(dt: u64) -> FrameInput {
    FrameInput { dt, left: false, right: false, confirm: false, screen_width: W, screen_height: H }
}

fn confirm() -> FrameInput {
    FrameInput { dt: 16_000, left: false, right: false, confirm: true, screen_width: W, screen_height: H }
}

fn count(sounds: &[Sound], s: Sound) -> usize {
    sounds.iter().filter(|&&x| x == s).count()
}

#[test]
fn new_game_waits_in_menu() {
    let g = Game::new(W, H);
    assert_eq!(g.state, GameState::Menu);
    assert_eq!((g.score, g.lives, g.level), (0, STARTING_LIVES, 1));
    assert_eq!(g.balls.len(), 1);
    assert_eq!(g.balls[0].rect.x, 400 * PX);
    assert_eq!(g.balls[0].rect.y, 300 * PX);
    assert_eq!(g.blocks.len(), 28);
}

#[test]
fn menu_starts_play_without_reset() {
    let mut g = Game::new(W, H);
    let blocks = g.blocks.len();
    let sounds = g.step(&frame(16_000));
    assert!(sounds.is_empty());
    assert_eq!(g.state, GameState::Menu);
    g.step(&confirm());
    assert_eq!(g.state, GameState::Game);
    assert_eq!(g.blocks.len(), blocks);
    assert_eq!(g.balls[0].rect.y, 300 * PX);
}

#[test]
fn continue_after_game_over_starts_over() {
    let mut g = Game::new(W, H);
    g.state = GameState::Dead;
    g.score = 120;
    g.lives = 0;
    g.level = 4;
    g.blocks.clear();
    g.step(&confirm());
    assert_eq!(g.state, GameState::Menu);
    assert_eq!((g.score, g.lives, g.level), (0, STARTING_LIVES, 1));
    assert_eq!(g.blocks.len(), 28);
    assert_eq!(g.balls.len(), 1);
}

#[test]
fn continue_after_completed_level_advances() {
    let mut g = Game::new(W, H);
    g.state = GameState::LevelCompleted;
    g.score = 70;
    g.lives = 2;
    g.level = 3;
    g.blocks.clear();
    g.player.rect.w = 300 * PX;
    g.press_continue(W, H);
    assert_eq!(g.state, GameState::Menu);
    assert_eq!((g.score, g.lives, g.level), (70, 2, 4));
    assert_eq!(g.player.rect, Player::new(W, H).rect);
    assert_eq!(g.balls.len(), 1);
    assert!(g.blocks.iter().any(|b| b.block_type == BlockType::SpawnPowerup));
}

#[test]
fn jump_to_level_keeps_score() {
    let mut g = Game::new(W, H);
    g.score = 40;
    g.jump_to_level(7, W, H);
    assert_eq!(g.state, GameState::Game);
    assert_eq!(g.level, 7);
    assert_eq!(g.score, 40);
    assert_eq!(g.lives, STARTING_LIVES);
}

#[test]
fn losing_the_last_ball_costs_a_life() {
    let mut g = Game::new(W, H);
    g.state = GameState::Game;
    g.balls = vec![Ball::with_direction(Point { x: 100 * PX, y: 599 * PX }, 0)];
    g.balls[0].vel = Velocity { x: 0, y: VEL_ONE };
    let sounds = g.step(&frame(16_000));
    assert_eq!(g.lives, 2);
    assert_eq!(count(&sounds, Sound::LifeLost), 1);
    assert_eq!(g.balls.len(), 1);
    let p = g.player.rect;
    assert_eq!(g.balls[0].rect.x, p.x + p.w / 2 + BALL_SIZE / 2);
    assert_eq!(g.balls[0].rect.y, p.y - 50 * PX);
    assert_eq!(g.state, GameState::Game);
}

#[test]
fn losing_the_last_life_ends_the_game() {
    let mut g = Game::new(W, H);
    g.state = GameState::Game;
    g.lives = 1;
    g.balls = vec![Ball { rect: Rect::new(100 * PX, 599 * PX, BALL_SIZE, BALL_SIZE), vel: Velocity { x: 0, y: VEL_ONE } }];
    let sounds = g.step(&frame(16_000));
    assert_eq!(g.lives, 0);
    assert_eq!(count(&sounds, Sound::LifeLost), 1);
    assert_eq!(g.state, GameState::Dead);
}

#[test]
fn one_ball_lost_of_two_costs_nothing() {
    let mut g = Game::new(W, H);
    g.state = GameState::Game;
    g.balls = vec![
        Ball { rect: Rect::new(100 * PX, 599 * PX, BALL_SIZE, BALL_SIZE), vel: Velocity { x: 0, y: VEL_ONE } },
        Ball { rect: Rect::new(600 * PX, 300 * PX, BALL_SIZE, BALL_SIZE), vel: Velocity { x: 0, y: VEL_ONE } },
    ];
    let sounds = g.step(&frame(16_000));
    assert_eq!(g.lives, STARTING_LIVES);
    assert_eq!(count(&sounds, Sound::LifeLost), 0);
    assert_eq!(g.balls.len(), 1);
}

#[test]
fn clearing_the_last_block_completes_the_level() {
    let mut g = Game::new(W, H);
    g.state = GameState::Game;
    g.score = 5;
    let block = Block::new(Point { x: 300 * PX, y: 100 * PX }, BlockType::Regular, Point { x: 88 * PX, y: 35 * PX });
    g.blocks = vec![block];
    g.balls = vec![Ball { rect: Rect::new(310 * PX, 130 * PX, BALL_SIZE, BALL_SIZE), vel: Velocity { x: 0, y: -VEL_ONE } }];
    let sounds = g.step(&frame(16_000));
    assert!(g.blocks.is_empty());
    assert_eq!(g.score, 15);
    assert_eq!(g.state, GameState::LevelCompleted);
    assert_eq!(count(&sounds, Sound::BlockHit), 1);
    assert_eq!(count(&sounds, Sound::BlockDestroyed), 1);
    assert_eq!(count(&sounds, Sound::LevelCompleted), 1);
    assert!(g.balls[0].vel.y > 0);
}

#[test]
fn medium_block_scores_once_on_second_hit() {
    let paddle = Rect::new(0, 1000 * PX, 150 * PX, 40 * PX);
    let mut blocks = vec![Block::new(Point { x: 100 * PX, y: 100 * PX }, BlockType::Medium, Point { x: 88 * PX, y: 35 * PX })];
    let mut score: u64 = 0;
    let mut spawned = Vec::new();
    let mut powerups = Vec::new();
    let mut sounds = Vec::new();
    for round in 0..2 {
        let mut ball = Ball { rect: Rect::new(110 * PX, 130 * PX, BALL_SIZE, BALL_SIZE), vel: Velocity { x: 0, y: -VEL_ONE } };
        collide_ball(&mut ball, &paddle, &mut blocks, &mut score, &mut spawned, &mut powerups, &mut sounds);
        if round == 0 {
            assert_eq!(blocks[0].lives, 1);
            assert_eq!(score, 0);
        }
    }
    assert_eq!(blocks[0].lives, 0);
    assert_eq!(score, 10);
    assert_eq!(count(&sounds, Sound::BlockHit), 2);
    assert_eq!(count(&sounds, Sound::BlockDestroyed), 1);
    // a destroyed block takes no further hits
    let mut ball = Ball { rect: Rect::new(110 * PX, 130 * PX, BALL_SIZE, BALL_SIZE), vel: Velocity { x: 0, y: -VEL_ONE } };
    collide_ball(&mut ball, &paddle, &mut blocks, &mut score, &mut spawned, &mut powerups, &mut sounds);
    assert_eq!(score, 10);
    assert_eq!(ball.vel, Velocity { x: 0, y: -VEL_ONE });
}

#[test]
fn destroyed_blocks_spawn_balls_and_powerups() {
    let paddle = Rect::new(0, 1000 * PX, 150 * PX, 40 * PX);
    let size = Point { x: 88 * PX, y: 35 * PX };
    let mut blocks = vec![
        Block::new(Point { x: 100 * PX, y: 100 * PX }, BlockType::SpawnBallOnDeath, size),
        Block::new(Point { x: 300 * PX, y: 100 * PX }, BlockType::SpawnPowerup, size),
    ];
    let mut score: u64 = 0;
    let mut spawned = Vec::new();
    let mut powerups = Vec::new();
    let mut sounds = Vec::new();
    let mut ball = Ball { rect: Rect::new(110 * PX, 130 * PX, BALL_SIZE, BALL_SIZE), vel: Velocity { x: 0, y: -VEL_ONE } };
    collide_ball(&mut ball, &paddle, &mut blocks, &mut score, &mut spawned, &mut powerups, &mut sounds);
    assert_eq!(spawned.len(), 1);
    assert_eq!(spawned[0].rect.x, 110 * PX);
    assert_eq!(spawned[0].rect.y, 135 * PX);
    let mut other = Ball { rect: Rect::new(310 * PX, 130 * PX, BALL_SIZE, BALL_SIZE), vel: Velocity { x: 0, y: -VEL_ONE } };
    collide_ball(&mut other, &paddle, &mut blocks, &mut score, &mut spawned, &mut powerups, &mut sounds);
    assert_eq!(powerups.len(), 1);
    assert_eq!(powerups[0].rect.x, 300 * PX);
    assert_eq!(powerups[0].rect.y, 100 * PX);
    assert_eq!(score, 20);
}

#[test]
fn caught_powerup_widens_paddle() {
    let mut player = Player::new(W, H);
    let mut powerups = vec![
        Powerup::new(Point { x: 350 * PX, y: 490 * PX }),
        Powerup::new(Point { x: 10 * PX, y: 10 * PX }),
    ];
    let mut sounds = Vec::new();
    handle_powerup_collision(&mut player, &mut powerups, W, &mut sounds);
    assert_eq!(player.rect.w, 200 * PX);
    assert_eq!(powerups.len(), 1);
    assert_eq!(powerups[0].rect.x, 10 * PX);
    assert_eq!(sounds, vec![Sound::PowerupCollected]);
}

#[test]
fn fallen_powerups_are_dropped() {
    let mut g = Game::new(W, H);
    g.state = GameState::Game;
    g.powerups = vec![Powerup::new(Point { x: 10 * PX, y: 599 * PX }), Powerup::new(Point { x: 10 * PX, y: 100 * PX })];
    g.step(&frame(16_000));
    assert_eq!(g.powerups.len(), 1);
    assert!(g.powerups[0].rect.y > 100 * PX);
}

#[test]
fn wall_hit_is_reported() {
    let mut g = Game::new(W, H);
    g.state = GameState::Game;
    g.balls = vec![Ball { rect: Rect::new(2 * PX, 300 * PX, BALL_SIZE, BALL_SIZE), vel: Velocity { x: -VEL_ONE, y: 0 } }];
    let sounds = g.step(&frame(16_000));
    assert_eq!(count(&sounds, Sound::WallHit), 1);
    assert_eq!(g.balls[0].rect.x, 0);
    assert!(g.balls[0].vel.x > 0);
}

#[test]
fn sound_names() {
    assert_eq!(Sound::PaddleHit.name(), "paddle_hit");
    assert_eq!(Sound::BlockHit.name(), "block_hit");
    assert_eq!(Sound::BlockDestroyed.name(), "block_destroyed");
    assert_eq!(Sound::LifeLost.name(), "life_lost");
    assert_eq!(Sound::LevelCompleted.name(), "level_completed");
    assert_eq!(Sound::PowerupCollected.name(), "powerup_collected");
    assert_eq!(Sound::WallHit.name(), "wall_hit");
}

#[test]
fn balls_keep_unit_speed_through_play() {
    let mut g = Game::new(W, H);
    g.step(&confirm());
    for n in 0..600u64 {
        let input = FrameInput {
            dt: 10_000 + (n % 7) * 1_000,
            left: n % 50 < 20,
            right: n % 50 >= 30,
            confirm: true,
            screen_width: W,
            screen_height: H,
        };
        g.step(&input);
        for b in g.balls.iter() {
            let len = b.vel.x * b.vel.x + b.vel.y * b.vel.y;
            assert!(len >= VEL_ONE * VEL_ONE - 4 * VEL_ONE - 1 && len <= VEL_ONE * VEL_ONE + 2 * VEL_ONE);
            assert!(b.rect.y < H);
        }
        assert!(g.lives <= STARTING_LIVES);
    }
}

#[test]
fn tiny_play_area_runs() {
    let w = 50 * PX;
    let h = 1;
    let mut g = Game::new(w, h);
    let input = FrameInput { dt: 16_000, left: true, right: false, confirm: true, screen_width: w, screen_height: h };
    for _ in 0..20 {
        g.step(&input);
        assert!(g.balls.len() >= 1);
    }
}
