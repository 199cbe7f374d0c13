use rustanoid::ball::{Ball, BALL_SIZE, FRAME_CAP};
use rustanoid::collision::resolve_collision;
use rustanoid::geometry::{isqrt, normalize, Point, Rect, Velocity, UNITS_PER_PIXEL, VEL_ONE};
use rustanoid::player::{Player, PLAYER_HEIGHT, PLAYER_WIDTH};
use rustanoid::powerup::Powerup;

const PX: i64 = UNITS_PER_PIXEL;

fn norm_sq(v: Velocity) -> i64 {
    v.x * v.x + v.y * v.y
}

fn assert_unit(v: Velocity) {
    let n = norm_sq(v);
    assert!(n >= VEL_ONE * VEL_ONE - 4 * VEL_ONE - 1, "too short: {:?}", v);
    assert!(n <= VEL_ONE * VEL_ONE + 2 * VEL_ONE, "too long: {:?}", v);
}

#[test]
fn isqrt_rounds_down() {
    assert_eq!(isqrt(0), 0);
    assert_eq!(isqrt(1), 1);
    assert_eq!(isqrt(15), 3);
    assert_eq!(isqrt(16), 4);
    assert_eq!(isqrt(2_500_000_000), 50_000);
    assert_eq!(isqrt(2_499_999_999), 49_999);
}

#[test]
fn normalize_three_four_five() {
    assert_eq!(normalize(3, 4), Velocity { x: 6000, y: 8000 });
    assert_eq!(normalize(-3, 4), Velocity { x: -6000, y: 8000 });
    assert_eq!(normalize(0, -7), Velocity { x: 0, y: -VEL_ONE });
    assert_eq!(normalize(40000, 0), Velocity { x: VEL_ONE, y: 0 });
}

#[test]
fn normalize_gives_unit_length() {
    for &(x, y) in &[(1, 1), (-1, 2), (12345, -678), (-40000, 40000), (3, -39999), (9999, 1)] {
        assert_unit(normalize(x, y));
    }
}

#[test]
fn no_overlap_means_no_change() {
    // the ball is well above the paddle
    let mut ball = Rect::new(100 * PX, 100 * PX, 50 * PX, 50 * PX);
    let mut vel = Velocity { x: 0, y: -VEL_ONE };
    let paddle = Rect::new(75 * PX, 400 * PX, 150 * PX, 40 * PX);
    assert!(!resolve_collision(&mut ball, &mut vel, &paddle));
    assert_eq!(ball, Rect::new(100 * PX, 100 * PX, 50 * PX, 50 * PX));
    assert_eq!(vel, Velocity { x: 0, y: -VEL_ONE });
}

#[test]
fn ball_sinking_into_paddle_bounces_up() {
    // ball 50 wide at x 100, its bottom 10 px into a 150 x 40 paddle at (75, 400)
    let mut ball = Rect::new(100 * PX, 360 * PX, 50 * PX, 50 * PX);
    let mut vel = Velocity { x: 0, y: VEL_ONE };
    let paddle = Rect::new(75 * PX, 400 * PX, 150 * PX, 40 * PX);
    assert!(resolve_collision(&mut ball, &mut vel, &paddle));
    // pushed out by the 10 px overlap: bottom edge now on the paddle's top edge
    assert_eq!(ball.y, 350 * PX);
    assert_eq!(ball.x, 100 * PX);
    assert!(ball.y + ball.h <= paddle.y);
    // heading up the screen (negative y), steered left since it hit left of centre
    assert!(vel.y < 0);
    assert!(vel.x < 0);
    assert!(vel.y.abs() >= VEL_ONE / 2);
    assert_unit(vel);
}

#[test]
fn ball_with_upward_velocity_in_paddle_still_leaves_upwards() {
    let mut ball = Rect::new(100 * PX, 360 * PX, 50 * PX, 50 * PX);
    let mut vel = Velocity { x: 0, y: -VEL_ONE };
    let paddle = Rect::new(75 * PX, 400 * PX, 150 * PX, 40 * PX);
    assert!(resolve_collision(&mut ball, &mut vel, &paddle));
    assert_eq!(ball.y, 350 * PX);
    assert!(vel.y < 0);
}

#[test]
fn paddle_centre_hit_rebounds_vertically() {
    let paddle = Rect::new(0, 400 * PX, PLAYER_WIDTH, PLAYER_HEIGHT);
    // ball centred on the paddle
    let mut ball = Rect::new(50 * PX, 360 * PX, 50 * PX, 50 * PX);
    let mut vel = Velocity { x: 0, y: VEL_ONE };
    assert!(resolve_collision(&mut ball, &mut vel, &paddle));
    assert_eq!(vel, Velocity { x: 0, y: -VEL_ONE });
}

#[test]
fn paddle_edge_hit_rebounds_sideways() {
    let paddle = Rect::new(0, 400 * PX, PLAYER_WIDTH, PLAYER_HEIGHT);
    // ball centre at the paddle's right end
    let mut ball = Rect::new(125 * PX, 360 * PX, 50 * PX, 50 * PX);
    let mut vel = Velocity { x: 0, y: VEL_ONE };
    assert!(resolve_collision(&mut ball, &mut vel, &paddle));
    assert!(vel.x > VEL_ONE / 2);
    assert!(vel.y < 0);
    assert!(vel.y.abs() >= VEL_ONE / 2);
    assert_unit(vel);
}

#[test]
fn shallow_paddle_hit_keeps_two_fifths_vertical() {
    let paddle = Rect::new(0, 400 * PX, PLAYER_WIDTH, PLAYER_HEIGHT);
    // moving right along the paddle's top, hitting near the right end
    let mut ball = Rect::new(125 * PX, 365 * PX, 50 * PX, 50 * PX);
    let mut vel = Velocity { x: VEL_ONE, y: 0 };
    assert!(resolve_collision(&mut ball, &mut vel, &paddle));
    assert!(vel.y < 0);
    assert!(vel.y.abs() >= 2 * VEL_ONE / 5);
    // the minimum of one half is applied before the last normalization
    assert!(vel.y.abs() < VEL_ONE / 2);
    assert_unit(vel);
}

#[test]
fn block_hit_from_below_pushes_ball_down() {
    let block = Rect::new(100 * PX, 100 * PX, 88 * PX, 35 * PX);
    let mut ball = Rect::new(110 * PX, 130 * PX, 50 * PX, 50 * PX);
    let mut vel = Velocity { x: 6000, y: -8000 };
    assert!(resolve_collision(&mut ball, &mut vel, &block));
    assert_eq!(ball.y, 135 * PX);
    assert!(ball.y >= block.y + block.h);
    assert_eq!(vel, Velocity { x: 6000, y: 8000 });
}

#[test]
fn block_hit_from_the_side_reflects_x() {
    let block = Rect::new(100 * PX, 100 * PX, 88 * PX, 35 * PX);
    // ball overlapping the block's left edge by 5 px, vertically inside it
    let mut ball = Rect::new(55 * PX, 90 * PX, 50 * PX, 50 * PX);
    let mut vel = Velocity { x: 8000, y: 6000 };
    assert!(resolve_collision(&mut ball, &mut vel, &block));
    assert_eq!(ball.x, 50 * PX);
    assert!(ball.x + ball.w <= block.x);
    assert_eq!(vel, Velocity { x: -8000, y: 6000 });
}

#[test]
fn touching_rectangles_do_not_collide() {
    let block = Rect::new(100 * PX, 100 * PX, 88 * PX, 35 * PX);
    let mut ball = Rect::new(100 * PX, 135 * PX, 50 * PX, 50 * PX);
    let mut vel = Velocity { x: 0, y: -VEL_ONE };
    assert!(!resolve_collision(&mut ball, &mut vel, &block));
    assert_eq!(vel, Velocity { x: 0, y: -VEL_ONE });
}

#[test]
fn ball_with_straight_direction_heads_up() {
    let b = Ball::with_direction(Point { x: 400 * PX, y: 300 * PX }, 0);
    assert_eq!(b.vel, Velocity { x: 0, y: -VEL_ONE });
    assert_eq!(b.rect, Rect::new(400 * PX, 300 * PX, BALL_SIZE, BALL_SIZE));
    let tilted = Ball::with_direction(Point { x: 0, y: 0 }, VEL_ONE);
    assert_eq!(tilted.vel.x, -tilted.vel.y);
    assert_unit(tilted.vel);
}

#[test]
fn new_ball_points_up_within_45_degrees() {
    for _ in 0..50 {
        let b = Ball::new(Point { x: 10 * PX, y: 20 * PX });
        assert!(b.vel.y < 0);
        assert!(b.vel.x.abs() <= b.vel.y.abs());
        assert_unit(b.vel);
        assert_eq!(b.rect, Rect::new(10 * PX, 20 * PX, BALL_SIZE, BALL_SIZE));
    }
}

#[test]
fn ball_update_moves_and_stays_unit() {
    let mut b = Ball::with_direction(Point { x: 400 * PX, y: 300 * PX }, 0);
    b.update(10_000, 800 * PX);
    // 400 px/s for 10 ms
    assert_eq!(b.rect.y, 296 * PX);
    assert_eq!(b.rect.x, 400 * PX);
    assert_unit(b.vel);
}

#[test]
fn ball_update_caps_elapsed_time() {
    let mut b = Ball::with_direction(Point { x: 400 * PX, y: 300 * PX }, 0);
    b.update(5_000_000, 800 * PX);
    let step = (VEL_ONE * FRAME_CAP as i64) / 25_000;
    assert_eq!(b.rect.y, 300 * PX - step);
}

#[test]
fn ball_bounces_off_left_wall_and_ceiling() {
    let mut b = Ball { rect: Rect::new(1 * PX, 2 * PX, BALL_SIZE, BALL_SIZE), vel: normalize(-1, -1) };
    b.update(16_000, 800 * PX);
    assert_eq!(b.rect.x, 0);
    assert_eq!(b.rect.y, 0);
    assert!(b.vel.x > 0 && b.vel.y > 0);
    assert_unit(b.vel);
}

#[test]
fn ball_bounces_off_right_wall_but_not_floor() {
    let mut b = Ball { rect: Rect::new(749 * PX, 590 * PX, BALL_SIZE, BALL_SIZE), vel: normalize(1, 1) };
    b.update(16_000, 800 * PX);
    assert_eq!(b.rect.x, 750 * PX);
    assert!(b.rect.y > 590 * PX);
    assert!(b.vel.x < 0 && b.vel.y > 0);
}

#[test]
fn player_starts_centred_above_bottom() {
    let p = Player::new(800 * PX, 600 * PX);
    assert_eq!(p.rect, Rect::new(325 * PX, 500 * PX, 150 * PX, 40 * PX));
}

#[test]
fn player_moves_and_clamps() {
    let mut p = Player::new(800 * PX, 600 * PX);
    p.update(100_000, true, false, 800 * PX);
    // 700 px/s for 0.1 s
    assert_eq!(p.rect.x, 255 * PX);
    p.update(100_000, true, true, 800 * PX);
    assert_eq!(p.rect.x, 255 * PX);
    p.update(10_000_000, false, true, 800 * PX);
    assert_eq!(p.rect.x, 650 * PX);
    p.update(u64::MAX, true, false, 800 * PX);
    assert_eq!(p.rect.x, 0);
}

#[test]
fn player_grows_up_to_limit() {
    let mut p = Player::new(800 * PX, 600 * PX);
    p.grow(800 * PX / 3);
    assert_eq!(p.rect.w, 200 * PX);
    p.grow(800 * PX / 3);
    assert_eq!(p.rect.w, 250 * PX);
    p.grow(800 * PX / 3);
    assert_eq!(p.rect.w, 800 * PX / 3);
}

#[test]
fn powerup_falls_at_200_pixels_per_second() {
    let mut p = Powerup::new(Point { x: 5 * PX, y: 7 * PX });
    assert_eq!(p.rect, Rect::new(5 * PX, 7 * PX, 30 * PX, 30 * PX));
    p.update(1_000_000);
    assert_eq!(p.rect.y, 207 * PX);
    assert_eq!(p.rect.x, 5 * PX);
}
